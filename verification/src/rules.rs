//! Entfos (the folders that are scanned) and the rules that
//! decide which files and folders below them are catalogued.
//!
//! Rules come in three kinds: folder rules (a descendant folder is included
//! or excluded), base-name rules and suffix rules. A more detailed rule (of a
//! deeper folder) overrides a less detailed one, and at the same level an
//! rule that excludes overrides a rule that includes.
use vstd::prelude::*;
use crate::dirdiff::{forward_slashes, with_separator};
use crate::paths::{file_name, file_name_of, path_eq, path_starts_with, same_path, starts_with};
use crate::text::{
    chars_of, copy_strings, ends_with, insert_by_key, keyed_view, keys_sorted, keys_strictly_sorted,
    lemma_seq_lt_asymmetric, lemma_seq_lt_irreflexive, owned, seq_lt, sort_strings,
    str_ends_with, str_eq, string_of, strings_sorted, views_of,
};

verus! {

/// The rules of one folder.
#[derive(Debug)]
pub struct FsFolder {
    /// The folder's path (resolved when the settings are loaded).
    pub pb: String,
    /// Whether files below the folder are catalogued.
    pub included: bool,
    pub ends_with_include: Vec<String>,
    pub ends_with_exclude: Vec<String>,
    pub base_filename_include: Vec<String>,
    pub base_filename_exclude: Vec<String>,
}

/// A folder that is scanned, with rules for itself (`efolder`) and for
/// descendant folders (`desce`, by key in ascending order).
#[derive(Debug)]
pub struct FsEntfo {
    pub active: bool,
    /// The hardware the entfo lives on.
    pub hardware_id: String,
    pub tmp_mount_point: bool,
    pub abs_path: String,
    pub efolder: FsFolder,
    pub desce: Vec<(String, FsFolder)>,
}

/// The length of a string as `str::len` gives it: the number of bytes of
/// its UTF-8 encoding.
pub open spec fn byte_len(s: Seq<char>) -> nat {
    (vstd::utf8::encode_utf8(s).len() as usize) as nat
}

/// `name` ends with one of `sufs`.
pub open spec fn any_ends_with(name: Seq<char>, sufs: Seq<Seq<char>>) -> bool {
    exists|i: int| 0 <= i < sufs.len() && ends_with(name, #[trigger] sufs[i])
}

/// The name rules of `f` accept `name`.
pub open spec fn name_included(f: FsFolder, name: Seq<char>) -> bool {
    views_of(f.base_filename_include@).contains(name) || any_ends_with(
        name,
        views_of(f.ends_with_include@),
    )
}

/// The name rules of `f` exclude `name`.
pub open spec fn name_excluded(f: FsFolder, name: Seq<char>) -> bool {
    views_of(f.base_filename_exclude@).contains(name) || any_ends_with(
        name,
        views_of(f.ends_with_exclude@),
    )
}

/// Applies the name rules of `f` to `name`, given the length of the path of
/// the folder whose rule decided so far (`len`) and its verdict (`res`): a
/// folder with a shorter path has no say; otherwise an exclude rule wins over
/// a rule that accepts, and a matching rule records the folder's path length.
pub open spec fn name_rule(f: FsFolder, name: Seq<char>, len: nat, res: bool) -> (nat, bool) {
    let flen = byte_len(f.pb@);
    if flen < len {
        (len, res)
    } else if name_excluded(f, name) {
        (flen, false)
    } else if name_included(f, name) {
        (flen, true)
    } else {
        (len, res)
    }
}

/// Whether `name` is one of `v`.
pub fn strings_contain(v: &Vec<String>, name: &str) -> (r: bool)
    ensures
        r == views_of(v@).contains(name@),
{
    let mut i: usize = 0;
    while i < v.len()
        invariant
            i <= v.len(),
            forall|j: int| 0 <= j < i ==> #[trigger] views_of(v@)[j] != name@,
        decreases v.len() - i,
    {
        if str_eq(v[i].as_str(), name) {
            assert(views_of(v@)[i as int] == name@);
            return true;
        }
        i = i + 1;
    }
    false
}

fn any_suffix(v: &Vec<String>, name: &str) -> (r: bool)
    ensures
        r == any_ends_with(name@, views_of(v@)),
{
    let mut i: usize = 0;
    while i < v.len()
        invariant
            i <= v.len(),
            forall|j: int| 0 <= j < i ==> !ends_with(name@, #[trigger] views_of(v@)[j]),
        decreases v.len() - i,
    {
        if str_ends_with(name, v[i].as_str()) {
            assert(ends_with(name@, views_of(v@)[i as int]));
            return true;
        }
        i = i + 1;
    }
    false
}

/// Applies a folder's name rules to the file name `filenm`, updating the
/// length of the deciding folder's path and the verdict so far.
pub fn chk_base_name_or_suffix_include(
    folder: &FsFolder,
    filenm: &str,
    rule_path_len: &mut usize,
    res: &mut bool,
)
    ensures
        (*final(rule_path_len) as nat, *final(res)) == name_rule(
            *folder,
            filenm@,
            *old(rule_path_len) as nat,
            *old(res),
        ),
{
    let folder_len = folder.pb.as_str().len();
    if folder_len < *rule_path_len {
        return;
    }
    if strings_contain(&folder.base_filename_include, filenm) {
        *rule_path_len = folder_len;
        *res = true;
    } else if any_suffix(&folder.ends_with_include, filenm) {
        *rule_path_len = folder_len;
        *res = true;
    }
    if strings_contain(&folder.base_filename_exclude, filenm) {
        *rule_path_len = folder_len;
        *res = false;
    } else if any_suffix(&folder.ends_with_exclude, filenm) {
        *rule_path_len = folder_len;
        *res = false;
    }
}

/// A deeper rule that matches decides: whatever the rules of a folder with a
/// path no longer than `g`'s concluded, the rules of `g` give the verdict for
/// a name they match; and at one level an exclude rule beats an accepting one.
pub proof fn lemma_deeper_rule_overrides(f: FsFolder, g: FsFolder, name: Seq<char>, len: nat, res: bool)
    requires
        byte_len(f.pb@) <= byte_len(g.pb@),
        len <= byte_len(g.pb@),
        name_excluded(g, name) || name_included(g, name),
    ensures
        ({
            let (l1, r1) = name_rule(f, name, len, res);
            name_rule(g, name, l1, r1) == (byte_len(g.pb@), !name_excluded(g, name))
        }),
{
}

/// The state of the rule walk: the deciding name rule's path length and
/// verdict, and the deciding folder rule's key length and verdict.
pub open spec fn desce_step(
    st: (nat, bool, nat, bool),
    key: Seq<char>,
    f: FsFolder,
    path: Seq<char>,
    name: Seq<char>,
    win: bool,
) -> (nat, bool, nat, bool) {
    if path_starts_with(path, f.pb@, win) {
        let (l, r) = name_rule(f, name, st.0, st.1);
        if byte_len(key) > st.2 {
            (l, r, byte_len(key), f.included)
        } else {
            (l, r, st.2, st.3)
        }
    } else {
        st
    }
}

/// Walks the descendant folders in order, applying the rules of each one
/// that contains `path`.
pub open spec fn desce_fold(
    d: Seq<(String, FsFolder)>,
    path: Seq<char>,
    name: Seq<char>,
    st: (nat, bool, nat, bool),
    win: bool,
) -> (nat, bool, nat, bool)
    decreases d.len(),
{
    if d.len() == 0 {
        st
    } else {
        desce_step(desce_fold(d.drop_last(), path, name, st, win), d.last().0@, d.last().1, path, name, win)
    }
}

/// Whether the rules of an entfo accept the file or folder at `path`: the
/// folder rule of the descendant with the longest key containing `path` (or
/// the entfo's own) must accept it, and the name rules must not exclude it.
pub open spec fn rules_match(e: FsEntfo, path: Seq<char>, win: bool) -> bool {
    let name = file_name(path, win).unwrap();
    let (l0, r0) = name_rule(e.efolder, name, 0, true);
    let st = desce_fold(e.desce@, path, name, (l0, r0, 0, e.efolder.included), win);
    st.3 && st.1
}

/// The descendant at `j` contains `path` and its key is `len` bytes long
/// with folder verdict `inc`.
pub open spec fn deciding_descendant(d: Seq<(String, FsFolder)>, path: Seq<char>, win: bool, j: int, len: nat, inc: bool) -> bool {
    &&& 0 <= j < d.len()
    &&& path_starts_with(path, d[j].1.pb@, win)
    &&& byte_len(d[j].0@) == len
    &&& d[j].1.included == inc
}

proof fn lemma_fold_longest_key(
    d: Seq<(String, FsFolder)>,
    path: Seq<char>,
    name: Seq<char>,
    st: (nat, bool, nat, bool),
    win: bool,
)
    requires
        st.1,
        forall|j: int| 0 <= j < d.len() ==> !name_excluded(#[trigger] d[j].1, name),
    ensures
        ({
            let r = desce_fold(d, path, name, st, win);
            &&& r.1
            &&& r.2 >= st.2
            &&& forall|j: int| 0 <= j < d.len() && path_starts_with(path, #[trigger] d[j].1.pb@, win) ==> byte_len(d[j].0@) <= r.2
            &&& (r.2 == st.2 && r.3 == st.3) || (r.2 > st.2 && exists|j: int| #[trigger] deciding_descendant(d, path, win, j, r.2, r.3))
        }),
    decreases d.len(),
{
    if d.len() > 0 {
        let p = d.drop_last();
        lemma_fold_longest_key(p, path, name, st, win);
        let r0 = desce_fold(p, path, name, st, win);
        let r = desce_fold(d, path, name, st, win);
        let last = d.len() - 1;
        assert(d.last() == d[last]);
        assert(forall|j: int| 0 <= j < p.len() ==> #[trigger] p[j] == d[j]);
        assert forall|j: int| 0 <= j < d.len() && path_starts_with(path, #[trigger] d[j].1.pb@, win) implies byte_len(d[j].0@) <= r.2 by {
            if j < p.len() {
                assert(p[j] == d[j]);
                assert(path_starts_with(path, p[j].1.pb@, win));
            }
        }
        let k = d.last().0@;
        let f = d.last().1;
        assert(r == desce_step(r0, k, f, path, name, win));
        if path_starts_with(path, f.pb@, win) && byte_len(k) > r0.2 {
            assert(r.2 == byte_len(k) && r.3 == f.included);
            assert(deciding_descendant(d, path, win, last, r.2, r.3));
        } else {
            assert(r.2 == r0.2 && r.3 == r0.3);
            if !(r.2 == st.2 && r.3 == st.3) {
                let j = choose|j: int| #[trigger] deciding_descendant(p, path, win, j, r0.2, r0.3);
                assert(p[j] == d[j]);
                assert(deciding_descendant(d, path, win, j, r.2, r.3));
            }
        }
    }
}

/// The deepest folder rule decides: when no name rule excludes the file's
/// name, the file or folder at `path` is accepted exactly when the
/// descendant with the longest key among those containing it is an
/// including one, whatever the shallower descendants say; and when no
/// descendant (with a non-empty key) contains it, the entfo's own folder
/// rule decides.
pub proof fn lemma_longest_containing_descendant_decides(e: FsEntfo, path: Seq<char>, win: bool)
    requires
        !name_excluded(e.efolder, file_name(path, win).unwrap()),
        forall|j: int| 0 <= j < e.desce@.len() ==> !name_excluded(#[trigger] e.desce@[j].1, file_name(path, win).unwrap()),
    ensures
        forall|m: int|
            0 <= m < e.desce@.len() && byte_len(e.desce@[m].0@) > 0 && path_starts_with(path, #[trigger] e.desce@[m].1.pb@, win)
                && (forall|j: int|
                0 <= j < e.desce@.len() && j != m && path_starts_with(path, #[trigger] e.desce@[j].1.pb@, win) ==> byte_len(
                    e.desce@[j].0@,
                ) < byte_len(e.desce@[m].0@)) ==> rules_match(e, path, win) == e.desce@[m].1.included,
        (forall|j: int|
            0 <= j < e.desce@.len() && path_starts_with(path, #[trigger] e.desce@[j].1.pb@, win) ==> byte_len(e.desce@[j].0@) == 0)
            ==> rules_match(e, path, win) == e.efolder.included,
{
    let name = file_name(path, win).unwrap();
    let (l0, r0) = name_rule(e.efolder, name, 0, true);
    assert(r0);
    let st0 = (l0, r0, 0nat, e.efolder.included);
    lemma_fold_longest_key(e.desce@, path, name, st0, win);
    let r = desce_fold(e.desce@, path, name, st0, win);
    assert forall|m: int|
        0 <= m < e.desce@.len() && byte_len(e.desce@[m].0@) > 0 && path_starts_with(path, #[trigger] e.desce@[m].1.pb@, win)
            && (forall|j: int|
            0 <= j < e.desce@.len() && j != m && path_starts_with(path, #[trigger] e.desce@[j].1.pb@, win) ==> byte_len(
                e.desce@[j].0@,
            ) < byte_len(e.desce@[m].0@)) implies rules_match(e, path, win) == e.desce@[m].1.included by {
        assert(byte_len(e.desce@[m].0@) <= r.2);
        let j = choose|j: int| #[trigger] deciding_descendant(e.desce@, path, win, j, r.2, r.3);
        if j != m {
            assert(byte_len(e.desce@[j].0@) < byte_len(e.desce@[m].0@));
        }
    }
    if forall|j: int|
        0 <= j < e.desce@.len() && path_starts_with(path, #[trigger] e.desce@[j].1.pb@, win) ==> byte_len(e.desce@[j].0@) == 0 {
        if r.2 > 0 {
            let j = choose|j: int| #[trigger] deciding_descendant(e.desce@, path, win, j, r.2, r.3);
            assert(path_starts_with(path, e.desce@[j].1.pb@, win));
        }
    }
}

/// Applies the rules of an entfo to the file or folder at `direntp`.
pub fn chk_rules_for_match(fsentfo: &FsEntfo, direntp: &str, win: bool) -> (r: bool)
    requires
        file_name(direntp@, win) is Some,
    ensures
        r == rules_match(*fsentfo, direntp@, win),
{
    let name_chars = file_name_of(direntp, win).unwrap();
    let name = string_of(name_chars.as_slice());
    let ghost nm = name@;
    let mut dir_name_or_suffix_path_len: usize = 0;
    let mut dir_include_path_len: usize = 0;
    let mut base_name_or_suffix_include = true;
    chk_base_name_or_suffix_include(
        &fsentfo.efolder,
        name.as_str(),
        &mut dir_name_or_suffix_path_len,
        &mut base_name_or_suffix_include,
    );
    let mut umbrella_include = fsentfo.efolder.included;
    let ghost st0 = (
        dir_name_or_suffix_path_len as nat,
        base_name_or_suffix_include,
        0nat,
        umbrella_include,
    );
    let mut i: usize = 0;
    while i < fsentfo.desce.len()
        invariant
            i <= fsentfo.desce.len(),
            name@ == nm,
            nm == file_name(direntp@, win).unwrap(),
            (
                dir_name_or_suffix_path_len as nat,
                base_name_or_suffix_include,
                dir_include_path_len as nat,
                umbrella_include,
            ) == desce_fold(fsentfo.desce@.take(i as int), direntp@, nm, st0, win),
        decreases fsentfo.desce.len() - i,
    {
        let entkey = &fsentfo.desce[i].0;
        let entval = &fsentfo.desce[i].1;
        proof {
            assert(fsentfo.desce@.take(i + 1).drop_last() =~= fsentfo.desce@.take(i as int));
            assert(fsentfo.desce@.take(i + 1).last() == fsentfo.desce@[i as int]);
        }
        if starts_with(direntp, entval.pb.as_str(), win) {
            chk_base_name_or_suffix_include(
                entval,
                name.as_str(),
                &mut dir_name_or_suffix_path_len,
                &mut base_name_or_suffix_include,
            );
            if entkey.as_str().len() > dir_include_path_len {
                dir_include_path_len = entkey.as_str().len();
                umbrella_include = entval.included;
            }
        }
        i = i + 1;
    }
    assert(fsentfo.desce@.take(fsentfo.desce.len() as int) =~= fsentfo.desce@);
    umbrella_include && base_name_or_suffix_include
}

/// The folder rule of the first descendant whose path is exactly `path`.
pub open spec fn exact_folder_rule(d: Seq<(String, FsFolder)>, path: Seq<char>) -> Option<bool>
    decreases d.len(),
{
    if d.len() == 0 {
        None
    } else if d[0].1.pb@ == path {
        Some(d[0].1.included)
    } else {
        exact_folder_rule(d.drop_first(), path)
    }
}

/// Applies the rules of an entfo to the file at `direntp`: a descendant
/// rule naming exactly this path decides; otherwise the rules are matched.
pub fn chk_rules_for_file(fsentfo: &FsEntfo, direntp: &str, win: bool) -> (r: bool)
    requires
        file_name(direntp@, win) is Some,
    ensures
        r == match exact_folder_rule(fsentfo.desce@, direntp@) {
            Some(inc) => inc,
            None => rules_match(*fsentfo, direntp@, win),
        },
{
    let mut i: usize = 0;
    assert(fsentfo.desce@.skip(0) =~= fsentfo.desce@);
    while i < fsentfo.desce.len()
        invariant
            i <= fsentfo.desce.len(),
            exact_folder_rule(fsentfo.desce@, direntp@) == exact_folder_rule(
                fsentfo.desce@.skip(i as int),
                direntp@,
            ),
        decreases fsentfo.desce.len() - i,
    {
        let entval = &fsentfo.desce[i].1;
        assert(fsentfo.desce@.skip(i as int)[0] == fsentfo.desce@[i as int]);
        if str_eq(entval.pb.as_str(), direntp) {
            return entval.included;
        }
        assert(fsentfo.desce@.skip(i as int).drop_first() =~= fsentfo.desce@.skip(i + 1));
        i = i + 1;
    }
    chk_rules_for_match(fsentfo, direntp, win)
}

/// A descendant rule below `path` lets the walk enter it: a deeper rule, or
/// an including rule for exactly this folder.
pub open spec fn dir_opened_by(f: FsFolder, path: Seq<char>, win: bool) -> bool {
    path_starts_with(f.pb@, path, win) && (!path_eq(f.pb@, path, win) || f.included)
}

/// Whether the scan walks into the folder at `direntp`: it does when a
/// descendant rule lies deeper or includes this very folder; a descendant
/// rule excluding exactly this folder keeps it out; otherwise the rules are
/// matched.
pub open spec fn rules_for_dir(e: FsEntfo, path: Seq<char>, win: bool) -> bool {
    if exists|i: int| 0 <= i < e.desce@.len() && dir_opened_by(#[trigger] e.desce@[i].1, path, win) {
        true
    } else if exists|i: int| 0 <= i < e.desce@.len() && path_starts_with(#[trigger] e.desce@[i].1.pb@, path, win) {
        false
    } else {
        rules_match(e, path, win)
    }
}

/// Decides whether the scan walks into the folder at `direntp`.
pub fn chk_rules_for_dir(fsentfo: &FsEntfo, direntp: &str, win: bool) -> (r: bool)
    requires
        file_name(direntp@, win) is Some,
    ensures
        r == rules_for_dir(*fsentfo, direntp@, win),
{
    let mut exact_match = false;
    let mut i: usize = 0;
    while i < fsentfo.desce.len()
        invariant
            i <= fsentfo.desce.len(),
            forall|j: int| 0 <= j < i ==> !dir_opened_by(#[trigger] fsentfo.desce@[j].1, direntp@, win),
            exact_match == exists|j: int| 0 <= j < i && path_starts_with(#[trigger] fsentfo.desce@[j].1.pb@, direntp@, win),
        decreases fsentfo.desce.len() - i,
    {
        let entval = &fsentfo.desce[i].1;
        if starts_with(entval.pb.as_str(), direntp, win) {
            if !same_path(entval.pb.as_str(), direntp, win) {
                assert(dir_opened_by(fsentfo.desce@[i as int].1, direntp@, win));
                return true;
            }
            if entval.included {
                assert(dir_opened_by(fsentfo.desce@[i as int].1, direntp@, win));
                return true;
            }
            exact_match = true;
        }
        proof {
            if exact_match {
                if path_starts_with(fsentfo.desce@[i as int].1.pb@, direntp@, win) {
                    assert(0 <= i < i + 1 && path_starts_with(fsentfo.desce@[i as int].1.pb@, direntp@, win));
                } else {
                    let w = choose|j: int| 0 <= j < i && path_starts_with(#[trigger] fsentfo.desce@[j].1.pb@, direntp@, win);
                    assert(0 <= w < i + 1);
                }
            }
        }
        i = i + 1;
    }
    if exact_match {
        return false;
    }
    chk_rules_for_match(fsentfo, direntp, win)
}

/// Another entfo's folder is exactly `direntp`.
pub open spec fn other_entfo_at(s: Seq<(String, FsEntfo)>, entfo: Seq<char>, path: Seq<char>, win: bool) -> bool {
    exists|i: int| 0 <= i < s.len() && #[trigger] s[i].0@ != entfo && path_eq(path, s[i].1.efolder.pb@, win)
}

/// Whether the folder at `direntp` is the folder of another entfo (which is
/// then scanned on its own, not as part of this one).
pub fn chk_entfo_under_entfo(settings: &Vec<(String, FsEntfo)>, entfo: &str, direntp: &str, win: bool) -> (r: bool)
    ensures
        r == other_entfo_at(settings@, entfo@, direntp@, win),
{
    let mut i: usize = 0;
    while i < settings.len()
        invariant
            i <= settings.len(),
            forall|j: int| 0 <= j < i ==> !(#[trigger] settings@[j].0@ != entfo@ && path_eq(direntp@, settings@[j].1.efolder.pb@, win)),
        decreases settings.len() - i,
    {
        if !str_eq(entfo, settings[i].0.as_str()) && same_path(direntp, settings[i].1.efolder.pb.as_str(), win) {
            return true;
        }
        i = i + 1;
    }
    false
}

impl FsFolder {
    /// Sorts the base-name rules, so that they can be looked up quickly.
    pub fn sort_matches(&mut self)
        ensures
            final(self).pb == old(self).pb,
            final(self).included == old(self).included,
            final(self).ends_with_include == old(self).ends_with_include,
            final(self).ends_with_exclude == old(self).ends_with_exclude,
            strings_sorted(views_of(final(self).base_filename_include@)),
            views_of(final(self).base_filename_include@).to_multiset() == views_of(
                old(self).base_filename_include@,
            ).to_multiset(),
            strings_sorted(views_of(final(self).base_filename_exclude@)),
            views_of(final(self).base_filename_exclude@).to_multiset() == views_of(
                old(self).base_filename_exclude@,
            ).to_multiset(),
    {
        sort_strings(&mut self.base_filename_include);
        sort_strings(&mut self.base_filename_exclude);
    }
}

// ---------------------------------------------------------------------------
// Resolving the folders of the rules when the settings are loaded.

/// Why the descendant rules of an entfo cannot be resolved.
#[derive(PartialEq, Eq, Structural, Clone, Copy, Debug)]
pub enum RuleError {
    /// A descendant's key is empty, `.` or `/`.
    InvalidKey,
    /// A descendant does not resolve to a folder strictly below the entfo.
    NotUnderEntfo,
    /// Two descendants resolve to the same folder.
    Duplicate,
}

/// A key that cannot name a descendant.
pub open spec fn key_invalid(k: Seq<char>) -> bool {
    k.len() == 0 || k == "."@ || k == "/"@
}

/// The first problem, going through the descendants in order, when the
/// descendant with key `keys[i]` resolves to `resolved[i]` and the entfo's
/// folder is `base`: an invalid key, a folder not strictly below the entfo,
/// or a folder an earlier descendant resolved to.
pub open spec fn install_error(keys: Seq<Seq<char>>, resolved: Seq<Seq<char>>, base: Seq<char>, win: bool) -> Option<RuleError>
    decreases keys.len(),
{
    if keys.len() == 0 || resolved.len() == 0 {
        None
    } else {
        match install_error(keys.drop_last(), resolved.drop_last(), base, win) {
            Some(e) => Some(e),
            None => {
                let k = keys.last();
                let p = resolved.last();
                if key_invalid(k) {
                    Some(RuleError::InvalidKey)
                } else if path_eq(p, base, win) || !path_starts_with(p, base, win) {
                    Some(RuleError::NotUnderEntfo)
                } else if resolved.drop_last().contains(p) {
                    Some(RuleError::Duplicate)
                } else {
                    None
                }
            },
        }
    }
}

/// The folder `g` is `f` placed at `pb` with its base-name rules sorted.
#[verifier::opaque]
pub open spec fn folder_settled(f: FsFolder, g: FsFolder, pb: Seq<char>) -> bool {
    &&& g.pb@ == pb
    &&& g.included == f.included
    &&& views_of(g.ends_with_include@) == views_of(f.ends_with_include@)
    &&& views_of(g.ends_with_exclude@) == views_of(f.ends_with_exclude@)
    &&& strings_sorted(views_of(g.base_filename_include@))
    &&& views_of(g.base_filename_include@).to_multiset() == views_of(f.base_filename_include@).to_multiset()
    &&& strings_sorted(views_of(g.base_filename_exclude@))
    &&& views_of(g.base_filename_exclude@).to_multiset() == views_of(f.base_filename_exclude@).to_multiset()
}

/// The keys of keyed entries.
pub open spec fn keys_of<T>(v: Seq<(String, T)>) -> Seq<Seq<char>> {
    v.map_values(|e: (String, T)| e.0@)
}

/// Keys that occur once each.
pub open spec fn keys_distinct<T>(v: Seq<(String, T)>) -> bool {
    forall|i: int, j: int| 0 <= i < j < v.len() ==> #[trigger] v[i].0@ != #[trigger] v[j].0@
}

/// Whether `c` separates path components on some platform.
pub open spec fn path_sep_char(c: char) -> bool {
    c == '/' || c == '\\'
}

/// At `i` a piece (a run between separators) of `k` starts.
pub open spec fn piece_start(k: Seq<char>, i: int) -> bool {
    i == 0 || path_sep_char(k[i - 1])
}

/// At `i` a piece of `k` ends.
pub open spec fn piece_end(k: Seq<char>, i: int) -> bool {
    i == k.len() - 1 || path_sep_char(k[i + 1])
}

/// A relative path that every platform reads alike: pieces separated by
/// single separators, none empty, `.` or `..`, and no `:` (which could
/// start a drive).
pub open spec fn plain_relative(k: Seq<char>) -> bool {
    &&& k.len() > 0
    &&& !path_sep_char(k[0])
    &&& !path_sep_char(k.last())
    &&& forall|i: int| 0 <= i < k.len() ==> #[trigger] k[i] != ':'
    &&& forall|i: int| 0 <= i < k.len() - 1 ==> !(path_sep_char(#[trigger] k[i]) && path_sep_char(k[i + 1]))
    &&& forall|i: int|
        0 <= i < k.len() && #[trigger] k[i] == '.' && piece_start(k, i) ==> !piece_end(k, i) && !(k[i + 1] == '.'
            && piece_end(k, i + 1))
}

/// An absolute path that every platform reads alike: `/` and then a plain
/// relative path.
pub open spec fn plain_absolute(p: Seq<char>) -> bool {
    p.len() >= 2 && p[0] == '/' && plain_relative(p.subrange(1, p.len() as int))
}

/// Calls `std::path::Path::join`. For a plain absolute `base` and a plain
/// relative `key` it appends the platform's separator and the key, as
/// `PathBuf::push` documents; of other arguments nothing is stated.
#[verifier::external_body]
fn path_join(base: &str, key: &str) -> (r: String)
    ensures
        plain_absolute(base@) && plain_relative(key@) ==> (r@ == base@ + seq!['/'] + key@ || r@ == base@ + seq![
            '\\',
        ] + key@),
{
    std::path::Path::new(base).join(key).to_string_lossy().into_owned()
}

/// Calls `path_clean::clean`, which removes `.` components and resolves
/// `..` components lexically, then rebuilds the path from its components
/// with the platform's separator. A plain absolute path has nothing to
/// remove, so it comes back as it was (on Unix) or with its slashes turned
/// into backslashes (on Windows); of other paths nothing is stated.
#[verifier::external_body]
fn clean_path(p: &str) -> (r: String)
    ensures
        plain_absolute(p@) ==> (r@ == p@ || r@ == with_separator(p@, '\\')),
{
    path_clean::clean(p).to_string_lossy().into_owned()
}

/// `r` is `l` and `k` joined by a separator, whichever separators each
/// uses.
pub open spec fn joined_at(r: Seq<char>, l: Seq<char>, k: Seq<char>) -> bool {
    forward_slashes(r) == forward_slashes(l) + seq!['/'] + forward_slashes(k)
}

/// Each folder in `rv` that comes from a plain key joined to a plain
/// folder `l` is that join.
pub open spec fn resolved_from(rv: Seq<Seq<char>>, keys: Seq<Seq<char>>, l: Seq<char>) -> bool {
    forall|i: int|
        0 <= i < rv.len() && plain_absolute(l) && #[trigger] plain_relative(keys[i]) ==> joined_at(rv[i], l, keys[i])
}

/// Some entry of `s` is keyed by the join of `l` and `k` and holds the
/// folder `f` settled there.
pub open spec fn settled_at_join(s: Seq<(String, FsFolder)>, f: FsFolder, l: Seq<char>, k: Seq<char>) -> bool {
    exists|j: int| 0 <= j < s.len() && #[trigger] joined_at(s[j].0@, l, k) && folder_settled(f, s[j].1, s[j].0@)
}

proof fn lemma_plain_join(a: Seq<char>, k: Seq<char>, s: char)
    requires
        plain_relative(a),
        plain_relative(k),
        path_sep_char(s),
    ensures
        plain_relative(a + seq![s] + k),
{
    let m = a + seq![s] + k;
    let n = a.len() as int;
    assert(m.len() == n + 1 + k.len());
    assert forall|i: int| 0 <= i < m.len() implies #[trigger] m[i] != ':' by {
        if i < n {
            assert(m[i] == a[i]);
        } else if i > n {
            assert(m[i] == k[i - n - 1]);
        }
    }
    assert forall|i: int| 0 <= i < m.len() - 1 implies !(path_sep_char(#[trigger] m[i]) && path_sep_char(m[i + 1])) by {
        if i < n - 1 {
            assert(m[i] == a[i] && m[i + 1] == a[i + 1]);
        } else if i == n - 1 {
            assert(m[i] == a.last());
        } else if i == n {
            assert(m[i + 1] == k[0]);
        } else {
            assert(m[i] == k[i - n - 1] && m[i + 1] == k[i - n]);
        }
    }
    assert forall|i: int|
        0 <= i < m.len() && #[trigger] m[i] == '.' && piece_start(m, i) implies !piece_end(m, i) && !(m[i + 1] == '.'
        && piece_end(m, i + 1)) by {
        if i < n {
            assert(m[i] == a[i]);
            assert(piece_start(a, i));
            if i + 1 < n {
                assert(m[i + 1] == a[i + 1]);
            }
            if i + 2 < n {
                assert(m[i + 2] == a[i + 2]);
            }
            if i + 2 == n {
                assert(m[i + 2] == s);
            }
            if i + 1 == n {
                assert(m[i + 1] == s);
            }
        } else if i > n {
            let j = i - n - 1;
            assert(m[i] == k[j]);
            assert(piece_start(k, j));
            if j + 1 < k.len() {
                assert(m[i + 1] == k[j + 1]);
            }
            if j + 2 < k.len() {
                assert(m[i + 2] == k[j + 2]);
            }
        }
    }
    assert(m[0] == a[0]);
    assert(m.last() == k.last());
}

proof fn lemma_forward_with_backslashes(p: Seq<char>)
    ensures
        forward_slashes(with_separator(p, '\\')) == forward_slashes(p),
{
    assert(forward_slashes(with_separator(p, '\\')) =~= forward_slashes(p));
}

/// Every placed entry lies strictly below `base` and its folder is at its
/// key.
pub open spec fn entries_below(out: Seq<(String, FsFolder)>, base: Seq<char>, win: bool) -> bool {
    forall|j: int| 0 <= j < out.len() ==> {
        &&& path_starts_with(#[trigger] out[j].0@, base, win)
        &&& !path_eq(out[j].0@, base, win)
        &&& out[j].1.pb@ == out[j].0@
    }
}

/// Some entry of `s` is keyed `key` and holds the folder `f` settled
/// there.
pub open spec fn settled_in(s: Seq<(String, FsFolder)>, f: FsFolder, key: Seq<char>) -> bool {
    exists|j: int| 0 <= j < s.len() && #[trigger] s[j].0@ == key && folder_settled(f, s[j].1, key)
}

/// Some entry of `s` holds the folder `f` settled at the entry's key.
pub open spec fn settled_somewhere(s: Seq<(String, FsFolder)>, f: FsFolder) -> bool {
    exists|j: int| 0 <= j < s.len() && #[trigger] folder_settled(f, s[j].1, s[j].0@)
}

/// The placed entries `out` are exactly the first `n` descendants of `d`,
/// the `k`-th keyed by `rv[k]` and settled there.
pub open spec fn placed(out: Seq<(String, FsFolder)>, d: Seq<(String, FsFolder)>, rv: Seq<Seq<char>>, n: int) -> bool {
    &&& forall|k: int| 0 <= k < n ==> #[trigger] settled_in(out, d[k].1, rv[k])
    &&& forall|j: int| 0 <= j < out.len() ==> #[trigger] rv.take(n).contains(out[j].0@)
}

proof fn lemma_placed_insert(
    before: Seq<(String, FsFolder)>,
    d: Seq<(String, FsFolder)>,
    rv: Seq<Seq<char>>,
    n: int,
    pos: int,
    x: (String, FsFolder),
)
    requires
        placed(before, d, rv, n),
        0 <= pos <= before.len(),
        0 <= n < rv.len(),
        x.0@ == rv[n],
        folder_settled(d[n].1, x.1, rv[n]),
    ensures
        placed(before.insert(pos, x), d, rv, n + 1),
{
    let out = before.insert(pos, x);
    assert forall|k: int| 0 <= k < n + 1 implies #[trigger] settled_in(out, d[k].1, rv[k]) by {
        if k < n {
            assert(settled_in(before, d[k].1, rv[k]));
            let j = choose|j: int| 0 <= j < before.len() && #[trigger] before[j].0@ == rv[k]
                && folder_settled(d[k].1, before[j].1, rv[k]);
            if j < pos {
                assert(out[j] == before[j]);
                assert(out[j].0@ == rv[k]);
            } else {
                assert(out[j + 1] == before[j]);
                assert(out[j + 1].0@ == rv[k]);
            }
        } else {
            assert(out[pos] == x);
            assert(out[pos].0@ == rv[n]);
        }
    }
    assert forall|j: int| 0 <= j < out.len() implies #[trigger] rv.take(n + 1).contains(out[j].0@) by {
        assert(rv.take(n + 1)[n] == rv[n]);
        if j < pos {
            assert(out[j] == before[j]);
            assert(rv.take(n).contains(before[j].0@));
            let k = choose|k: int| 0 <= k < n && rv.take(n)[k] == before[j].0@;
            assert(rv.take(n + 1)[k] == rv.take(n)[k]);
        } else if j > pos {
            assert(out[j] == before[j - 1]);
            assert(rv.take(n).contains(before[j - 1].0@));
            let k = choose|k: int| 0 <= k < n && rv.take(n)[k] == before[j - 1].0@;
            assert(rv.take(n + 1)[k] == rv.take(n)[k]);
        } else {
            assert(out[j].0@ == rv[n]);
        }
    }
}

proof fn lemma_below_insert(before: Seq<(String, FsFolder)>, base: Seq<char>, pos: int, x: (String, FsFolder), win: bool)
    requires
        entries_below(before, base, win),
        0 <= pos <= before.len(),
        path_starts_with(x.0@, base, win),
        !path_eq(x.0@, base, win),
        x.1.pb@ == x.0@,
    ensures
        entries_below(before.insert(pos, x), base, win),
{
    let out = before.insert(pos, x);
    assert forall|j: int| 0 <= j < out.len() implies {
        &&& path_starts_with(#[trigger] out[j].0@, base, win)
        &&& !path_eq(out[j].0@, base, win)
        &&& out[j].1.pb@ == out[j].0@
    } by {
        if j < pos {
            assert(out[j] == before[j]);
        } else if j > pos {
            assert(out[j] == before[j - 1]);
        } else {
            assert(out[j] == x);
        }
    }
}

/// Strictly ascending keys are ascending and distinct.
proof fn lemma_strict_keys(d: Seq<(String, FsFolder)>)
    requires
        keys_strictly_sorted(keyed_view(d)),
    ensures
        keys_sorted(keyed_view(d)),
        keys_distinct(d),
{
    assert forall|a: int, b: int| 0 <= a < b < d.len() implies #[trigger] d[a].0@ != #[trigger] d[b].0@ by {
        assert(seq_lt(keyed_view(d)[a].0, keyed_view(d)[b].0));
        lemma_seq_lt_irreflexive(d[a].0@);
    }
    assert forall|a: int, b: int| 0 <= a < b < d.len() implies !seq_lt(
        #[trigger] keyed_view(d)[b].0,
        #[trigger] keyed_view(d)[a].0,
    ) by {
        assert(seq_lt(keyed_view(d)[a].0, keyed_view(d)[b].0));
        lemma_seq_lt_asymmetric(keyed_view(d)[a].0, keyed_view(d)[b].0);
    }
}

proof fn lemma_install_error_prefix(keys: Seq<Seq<char>>, rv: Seq<Seq<char>>, base: Seq<char>, n: int, win: bool)
    requires
        0 <= n <= keys.len(),
        keys.len() == rv.len(),
        install_error(keys.take(n), rv.take(n), base, win) is Some,
    ensures
        install_error(keys, rv, base, win) == install_error(keys.take(n), rv.take(n), base, win),
    decreases keys.len() - n,
{
    if n < keys.len() {
        assert(keys.take(n + 1).drop_last() =~= keys.take(n));
        assert(rv.take(n + 1).drop_last() =~= rv.take(n));
        lemma_install_error_prefix(keys, rv, base, n + 1, win);
    } else {
        assert(keys.take(n) =~= keys);
        assert(rv.take(n) =~= rv);
    }
}

impl FsFolder {
    /// A copy of these rules.
    pub fn copy(&self) -> (r: FsFolder)
        ensures
            r.pb@ == self.pb@,
            r.included == self.included,
            views_of(r.ends_with_include@) == views_of(self.ends_with_include@),
            views_of(r.ends_with_exclude@) == views_of(self.ends_with_exclude@),
            views_of(r.base_filename_include@) == views_of(self.base_filename_include@),
            views_of(r.base_filename_exclude@) == views_of(self.base_filename_exclude@),
    {
        FsFolder {
            pb: owned(self.pb.as_str()),
            included: self.included,
            ends_with_include: copy_strings(&self.ends_with_include),
            ends_with_exclude: copy_strings(&self.ends_with_exclude),
            base_filename_include: copy_strings(&self.base_filename_include),
            base_filename_exclude: copy_strings(&self.base_filename_exclude),
        }
    }
}

impl FsEntfo {
    /// Places the descendant rules at their folders: the descendant with
    /// key `desce[i].0` resolves to `resolved[i]` below the entfo's folder
    /// `l_entfo`. On success the descendants are keyed by their folders, in
    /// strictly ascending order, each with its base-name rules sorted. On
    /// the first problem (in the descendants' order) nothing changes.
    pub fn install_descendants(&mut self, l_entfo: &str, resolved: &Vec<String>, win: bool) -> (r: Result<(), RuleError>)
        requires
            resolved.len() == old(self).desce.len(),
        ensures
            match r {
                Ok(()) => {
                    &&& install_error(keys_of(old(self).desce@), views_of(resolved@), l_entfo@, win) is None
                    &&& forall|i: int| 0 <= i < old(self).desce.len() ==> !key_invalid(#[trigger] old(self).desce@[i].0@)
                    &&& final(self).desce.len() == old(self).desce.len()
                    &&& keys_strictly_sorted(keyed_view(final(self).desce@))
                    &&& entries_below(final(self).desce@, l_entfo@, win)
                    &&& forall|i: int| 0 <= i < old(self).desce.len() ==> #[trigger] settled_in(
                        final(self).desce@,
                        old(self).desce@[i].1,
                        resolved@[i]@,
                    )
                    &&& forall|j: int| 0 <= j < final(self).desce.len() ==> #[trigger] views_of(resolved@).contains(final(self).desce@[j].0@)
                    &&& final(self).active == old(self).active
                    &&& final(self).hardware_id == old(self).hardware_id
                    &&& final(self).tmp_mount_point == old(self).tmp_mount_point
                    &&& final(self).abs_path == old(self).abs_path
                    &&& final(self).efolder == old(self).efolder
                },
                Err(e) => install_error(keys_of(old(self).desce@), views_of(resolved@), l_entfo@, win) == Some(e)
                    && *final(self) == *old(self),
            },
    {
        let ghost keys = keys_of(self.desce@);
        let ghost rv = views_of(resolved@);
        let mut out: Vec<(String, FsFolder)> = Vec::new();
        let mut i: usize = 0;
        while i < self.desce.len()
            invariant
                i <= self.desce.len(),
                resolved.len() == self.desce.len(),
                keys == keys_of(self.desce@),
                rv == views_of(resolved@),
                install_error(keys.take(i as int), rv.take(i as int), l_entfo@, win) is None,
                forall|k: int| 0 <= k < i ==> !key_invalid(#[trigger] keys[k]),
                out.len() == i,
                keys_strictly_sorted(keyed_view(out@)),
                entries_below(out@, l_entfo@, win),
                placed(out@, self.desce@, rv, i as int),
            decreases self.desce.len() - i,
        {
            let ghost kt = keys.take(i + 1);
            let ghost pt = rv.take(i + 1);
            assert(kt.drop_last() =~= keys.take(i as int));
            assert(pt.drop_last() =~= rv.take(i as int));
            assert(kt.last() == self.desce@[i as int].0@);
            assert(pt.last() == resolved@[i as int]@);
            let key = self.desce[i].0.as_str();
            if key.is_empty() || str_eq(key, ".") || str_eq(key, "/") {
                proof {
                    lemma_install_error_prefix(keys, rv, l_entfo@, i + 1, win);
                }
                return Err(RuleError::InvalidKey);
            }
            let p = resolved[i].as_str();
            if same_path(p, l_entfo, win) || !starts_with(p, l_entfo, win) {
                proof {
                    lemma_install_error_prefix(keys, rv, l_entfo@, i + 1, win);
                }
                return Err(RuleError::NotUnderEntfo);
            }
            let mut k: usize = 0;
            let mut dup = false;
            while k < out.len()
                invariant_except_break
                    !dup,
                invariant
                    k <= out.len(),
                    forall|m: int| 0 <= m < k ==> #[trigger] out@[m].0@ != p@,
                ensures
                    k <= out.len(),
                    dup ==> k < out.len() && out@[k as int].0@ == p@,
                    !dup ==> forall|m: int| 0 <= m < out.len() ==> #[trigger] out@[m].0@ != p@,
                decreases out.len() - k,
            {
                if str_eq(out[k].0.as_str(), p) {
                    dup = true;
                    break;
                }
                k = k + 1;
            }
            if dup {
                proof {
                    assert(rv.take(i as int).contains(out@[k as int].0@));
                    assert(pt.drop_last().contains(p@));
                    lemma_install_error_prefix(keys, rv, l_entfo@, i + 1, win);
                }
                return Err(RuleError::Duplicate);
            }
            proof {
                if pt.drop_last().contains(p@) {
                    let m = choose|m: int| 0 <= m < pt.drop_last().len() && pt.drop_last()[m] == p@;
                    assert(settled_in(out@, self.desce@[m].1, rv[m]));
                    let j = choose|j: int| 0 <= j < out.len() && #[trigger] out@[j].0@ == rv[m]
                        && folder_settled(self.desce@[m].1, out@[j].1, rv[m]);
                    assert(out@[j].0@ != p@);
                }
            }
            let mut folder = self.desce[i].1.copy();
            folder.pb = owned(p);
            folder.sort_matches();
            proof {
                reveal(folder_settled);
                assert(folder_settled(self.desce@[i as int].1, folder, rv[i as int]));
            }
            let ghost before = out@;
            let entry = (owned(p), folder);
            let ghost xe = entry;
            let pos = insert_by_key(&mut out, entry);
            proof {
                lemma_placed_insert(before, self.desce@, rv, i as int, pos as int, xe);
                lemma_below_insert(before, l_entfo@, pos as int, xe, win);
            }
            i = i + 1;
        }
        assert(keys.take(self.desce.len() as int) =~= keys);
        assert(rv.take(self.desce.len() as int) =~= rv);
        proof {
            assert forall|k: int| 0 <= k < keys.len() implies !key_invalid(#[trigger] self.desce@[k].0@) by {
                assert(keys[k] == self.desce@[k].0@);
            }
            assert forall|k: int| 0 <= k < self.desce.len() implies #[trigger] settled_in(
                out@,
                self.desce@[k].1,
                resolved@[k]@,
            ) by {
                assert(settled_in(out@, self.desce@[k].1, rv[k]));
                assert(rv[k] == resolved@[k]@);
            }
        }
        self.desce = out;
        Ok(())
    }

    /// Resolves the folders of the rules when the settings are loaded:
    /// for an active entfo whose folder is `l_entfo` (the canonical form of
    /// `abs_path`), each descendant is placed at its key joined to that
    /// folder and cleaned; then the entfo's own base-name rules are sorted.
    /// Fails, changing nothing, on a descendant key that is empty, `.` or
    /// `/`, a descendant that is not strictly below the entfo, or two
    /// descendants at the same folder.
    pub fn canonicalize_paths_and_sort(&mut self, l_entfo: &str, win: bool) -> (r: Result<(), RuleError>)
        ensures
            match r {
                Ok(()) => {
                    &&& old(self).active ==> {
                        &&& forall|i: int| 0 <= i < old(self).desce.len() ==> !key_invalid(#[trigger] old(self).desce@[i].0@)
                        &&& final(self).abs_path@ == l_entfo@
                        &&& final(self).desce.len() == old(self).desce.len()
                        &&& keys_sorted(keyed_view(final(self).desce@))
                        &&& keys_distinct(final(self).desce@)
                        &&& entries_below(final(self).desce@, l_entfo@, win)
                        &&& forall|i: int| 0 <= i < old(self).desce.len() ==> #[trigger] settled_somewhere(
                            final(self).desce@,
                            old(self).desce@[i].1,
                        )
                        &&& forall|i: int|
                            #![trigger old(self).desce@[i]]
                            0 <= i < old(self).desce.len() && plain_absolute(l_entfo@) && plain_relative(
                                old(self).desce@[i].0@,
                            ) ==> settled_at_join(final(self).desce@, old(self).desce@[i].1, l_entfo@, old(self).desce@[i].0@)
                        &&& folder_settled(old(self).efolder, final(self).efolder, l_entfo@)
                    }
                    &&& !old(self).active ==> {
                        &&& final(self).desce == old(self).desce
                        &&& final(self).abs_path == old(self).abs_path
                        &&& folder_settled(old(self).efolder, final(self).efolder, old(self).efolder.pb@)
                    }
                    &&& final(self).active == old(self).active
                    &&& final(self).hardware_id == old(self).hardware_id
                },
                Err(e) => {
                    &&& old(self).active
                    &&& *final(self) == *old(self)
                    &&& exists|rv: Seq<Seq<char>>|
                        rv.len() == old(self).desce.len() && resolved_from(rv, keys_of(old(self).desce@), l_entfo@)
                            && #[trigger] install_error(keys_of(old(self).desce@), rv, l_entfo@, win) == Some(e)
                },
            },
            old(self).active && old(self).desce.len() == 0 ==> r is Ok,
    {
        if self.active {
            let mut resolved: Vec<String> = Vec::new();
            let mut i: usize = 0;
            while i < self.desce.len()
                invariant
                    i <= self.desce.len(),
                    resolved.len() == i,
                    forall|k: int|
                        #![trigger resolved@[k]]
                        0 <= k < i && plain_absolute(l_entfo@) && plain_relative(self.desce@[k].0@) ==> joined_at(
                            resolved@[k]@,
                            l_entfo@,
                            self.desce@[k].0@,
                        ),
                decreases self.desce.len() - i,
            {
                let key = self.desce[i].0.as_str();
                let joined = path_join(l_entfo, key);
                let cleaned = clean_path(joined.as_str());
                proof {
                    if plain_absolute(l_entfo@) && plain_relative(key@) {
                        let l = l_entfo@;
                        let a = l.subrange(1, l.len() as int);
                        let sep = joined@[l.len() as int];
                        assert(joined@ =~= l + seq![sep] + key@);
                        assert(path_sep_char(sep));
                        lemma_plain_join(a, key@, sep);
                        assert(joined@.subrange(1, joined@.len() as int) =~= a + seq![sep] + key@);
                        assert(plain_absolute(joined@));
                        lemma_forward_with_backslashes(joined@);
                        assert(forward_slashes(joined@) =~= forward_slashes(l) + seq!['/'] + forward_slashes(key@));
                        assert(joined_at(cleaned@, l, key@));
                    }
                }
                let ghost before = resolved@;
                resolved.push(cleaned);
                proof {
                    assert forall|k: int|
                        #![trigger resolved@[k]]
                        0 <= k < i + 1 && plain_absolute(l_entfo@) && plain_relative(self.desce@[k].0@) implies joined_at(
                            resolved@[k]@,
                            l_entfo@,
                            self.desce@[k].0@,
                        ) by {
                        if k < i {
                            assert(resolved@[k] == before[k]);
                        }
                    }
                }
                i = i + 1;
            }
            let ghost before = *self;
            match self.install_descendants(l_entfo, &resolved, win) {
                Err(e) => {
                    proof {
                        let rv = views_of(resolved@);
                        assert(rv.len() == before.desce.len());
                        assert forall|k: int|
                            0 <= k < rv.len() && plain_absolute(l_entfo@) && #[trigger] plain_relative(
                                keys_of(before.desce@)[k],
                            ) implies joined_at(rv[k], l_entfo@, keys_of(before.desce@)[k]) by {
                            assert(resolved@[k]@ == rv[k]);
                        }
                        assert(resolved_from(rv, keys_of(before.desce@), l_entfo@));
                        assert(install_error(keys_of(before.desce@), rv, l_entfo@, win) == Some(e));
                    }
                    return Err(e);
                },
                Ok(()) => {},
            }
            proof {
                lemma_strict_keys(self.desce@);
                assert forall|i: int| 0 <= i < before.desce.len() implies #[trigger] settled_somewhere(
                    self.desce@,
                    before.desce@[i].1,
                ) by {
                    assert(settled_in(self.desce@, before.desce@[i].1, resolved@[i]@));
                    let j = choose|j: int| 0 <= j < self.desce.len() && #[trigger] self.desce@[j].0@ == resolved@[i]@
                        && folder_settled(before.desce@[i].1, self.desce@[j].1, resolved@[i]@);
                    assert(folder_settled(before.desce@[i].1, self.desce@[j].1, self.desce@[j].0@));
                }
                assert forall|i: int|
                    #![trigger before.desce@[i]]
                    0 <= i < before.desce.len() && plain_absolute(l_entfo@) && plain_relative(before.desce@[i].0@)
                        implies settled_at_join(self.desce@, before.desce@[i].1, l_entfo@, before.desce@[i].0@) by {
                    assert(settled_in(self.desce@, before.desce@[i].1, resolved@[i]@));
                    let j = choose|j: int| 0 <= j < self.desce.len() && #[trigger] self.desce@[j].0@ == resolved@[i]@
                        && folder_settled(before.desce@[i].1, self.desce@[j].1, resolved@[i]@);
                    assert(joined_at(resolved@[i]@, l_entfo@, before.desce@[i].0@));
                    assert(joined_at(self.desce@[j].0@, l_entfo@, before.desce@[i].0@));
                    assert(folder_settled(before.desce@[i].1, self.desce@[j].1, self.desce@[j].0@));
                }
            }
            self.abs_path = owned(l_entfo);
            self.efolder.pb = owned(l_entfo);
        }
        self.efolder.sort_matches();
        proof {
            reveal(folder_settled);
        }
        Ok(())
    }
}

} // verus!
