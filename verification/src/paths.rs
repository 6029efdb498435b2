//! Paths as sequences of components, as `std::path::Path` reads and
//! compares them. On Unix (`win` false) `/` separates components. On
//! Windows (`win` true) `\` separates them too, and a path may begin with a
//! prefix: a drive `C:`, a share `\\server\share`, a device `\\.\name`, or
//! a verbatim form `\\?\...`, in which only `\` separates and `.`
//! components stay. Repeated separators and `.` components (but for a
//! leading one) vanish; a root follows a prefix or starts the path.
use vstd::prelude::*;
use crate::text::chars_of;

verus! {

/// Reads `std::path::MAIN_SEPARATOR`, the platform's primary path
/// separator: `/`, or `\` on Windows.
#[verifier::external_body]
pub(crate) fn main_separator() -> (c: char)
    ensures
        c == '/' || c == '\\',
{
    std::path::MAIN_SEPARATOR
}

/// Whether this platform reads paths by Windows rules: its primary
/// separator is `\`.
pub fn windows_paths() -> (r: bool) {
    main_separator() == '\\'
}

/// Whether `c` separates components: in a verbatim path only `\`, else
/// `/` and, on Windows, `\`.
pub open spec fn comp_sep(c: char, verb: bool, win: bool) -> bool {
    if verb {
        c == '\\'
    } else {
        c == '/' || (win && c == '\\')
    }
}

/// The root component. On Unix no other component holds a `/`; on
/// Windows no other component is a lone `\`.
pub open spec fn root_comp(win: bool) -> Seq<char> {
    if win {
        seq!['\\']
    } else {
        seq!['/']
    }
}

/// Adds the component being read, unless it is empty or (outside a
/// verbatim path) `.`.
pub open spec fn flush_comp(done: Seq<Seq<char>>, cur: Seq<char>, verb: bool) -> Seq<Seq<char>> {
    if cur.len() == 0 || (cur == seq!['.'] && !verb) {
        done
    } else {
        done.push(cur)
    }
}

/// The components read so far and the component being read, after reading
/// the characters of `p` from left to right.
pub open spec fn scan_comps(p: Seq<char>, verb: bool, win: bool) -> (Seq<Seq<char>>, Seq<char>)
    decreases p.len(),
{
    if p.len() == 0 {
        (Seq::empty(), Seq::empty())
    } else {
        let (d, c) = scan_comps(p.drop_last(), verb, win);
        if comp_sep(p.last(), verb, win) {
            (flush_comp(d, c, verb), Seq::empty())
        } else {
            (d, c.push(p.last()))
        }
    }
}

/// The components of the part of a path after its prefix and root.
pub open spec fn body_comps(p: Seq<char>, verb: bool, win: bool) -> Seq<Seq<char>> {
    let (d, c) = scan_comps(p, verb, win);
    flush_comp(d, c, verb)
}

/// Where the first separator at or after `start` stands (`p.len()` when
/// there is none).
pub open spec fn sep_from(p: Seq<char>, start: int, verb: bool) -> int
    decreases p.len() - start,
{
    if start >= p.len() || start < 0 {
        p.len() as int
    } else if comp_sep(p[start], verb, true) {
        start
    } else {
        sep_from(p, start + 1, verb)
    }
}

/// The character at `i`, with `/` read as `\` among the first eight (as
/// Windows reads a prefix).
pub open spec fn prefix_char(p: Seq<char>, i: int) -> char {
    if i < 8 && p[i] == '/' {
        '\\'
    } else {
        p[i]
    }
}

pub open spec fn ascii_letter(c: char) -> bool {
    ('a' <= c && c <= 'z') || ('A' <= c && c <= 'Z')
}

pub open spec fn ascii_upper(c: char) -> char {
    if 'a' <= c && c <= 'z' {
        ((c as int) - 32) as char
    } else {
        c
    }
}

/// The Windows prefix of `p`, if it has one: the component standing for
/// it (two marks, then what tells prefixes apart), its length, whether it
/// is verbatim, and whether it carries a root of its own (all but a
/// drive).
pub open spec fn win_prefix(p: Seq<char>) -> Option<(Seq<char>, int, bool, bool)> {
    if p.len() >= 2 && prefix_char(p, 0) == '\\' && prefix_char(p, 1) == '\\' {
        if p.len() >= 4 && p[0] == '\\' && p[1] == '\\' && p[2] == '?' && p[3] == '\\' {
            if p.len() >= 8 && prefix_char(p, 4) == 'U' && prefix_char(p, 5) == 'N' && prefix_char(p, 6) == 'C'
                && prefix_char(p, 7) == '\\' {
                let s1 = sep_from(p, 8, true);
                let r0 = if s1 < p.len() { s1 + 1 } else { s1 };
                let s2 = sep_from(p, r0, true);
                let enc = seq!['\\', 'W'] + p.subrange(8, s1) + seq!['\\'] + p.subrange(r0, s2);
                Some((enc, if s2 > r0 { s2 } else { s1 }, true, true))
            } else if p.len() >= 6 && ascii_letter(p[4]) && p[5] == ':' && (p.len() == 6 || p[6] == '\\') {
                Some((seq!['\\', 'K', ascii_upper(p[4])], 6, true, true))
            } else {
                let s1 = sep_from(p, 4, true);
                Some((seq!['\\', 'V'] + p.subrange(4, s1), s1, true, true))
            }
        } else if p.len() >= 4 && prefix_char(p, 2) == '.' && prefix_char(p, 3) == '\\' {
            let s1 = sep_from(p, 4, false);
            Some((seq!['\\', 'N'] + p.subrange(4, s1), s1, false, true))
        } else {
            let s1 = sep_from(p, 2, false);
            let r0 = if s1 < p.len() { s1 + 1 } else { s1 };
            let s2 = sep_from(p, r0, false);
            if s1 > 2 && s2 > r0 {
                Some((seq!['\\', 'U'] + p.subrange(2, s1) + seq!['\\'] + p.subrange(r0, s2), s2, false, true))
            } else {
                None
            }
        }
    } else if p.len() >= 2 && ascii_letter(p[0]) && p[1] == ':' {
        Some((seq!['\\', 'D', ascii_upper(p[0])], 2, false, false))
    } else {
        None
    }
}

/// The components of a path: its prefix, a root (or a leading `.`), then
/// the named components.
pub open spec fn path_components(p: Seq<char>, win: bool) -> Seq<Seq<char>> {
    let pre = if win {
        win_prefix(p)
    } else {
        None
    };
    let plen: int = match pre {
        Some(x) => x.1,
        None => 0,
    };
    let verb = match pre {
        Some(x) => x.2,
        None => false,
    };
    let imp = match pre {
        Some(x) => x.3,
        None => false,
    };
    let phys = plen < p.len() && comp_sep(p[plen], false, win);
    let cur = pre is None && !phys && p.len() > 0 && p[0] == '.' && (p.len() == 1 || comp_sep(p[1], false, win));
    let pcomp = match pre {
        Some(x) => seq![x.0],
        None => Seq::<Seq<char>>::empty(),
    };
    let second = if phys || (pre is Some && imp && !verb) {
        seq![root_comp(win)]
    } else if cur {
        seq![seq!['.']]
    } else {
        Seq::<Seq<char>>::empty()
    };
    let start = if phys || cur {
        plen + 1
    } else {
        plen
    };
    pcomp + second + body_comps(p.subrange(start, p.len() as int), verb, win)
}

/// `p` lies at or below `base`: the components of `base` begin those of `p`.
pub open spec fn path_starts_with(p: Seq<char>, base: Seq<char>, win: bool) -> bool {
    let a = path_components(p, win);
    let b = path_components(base, win);
    b.len() <= a.len() && a.take(b.len() as int) == b
}

/// Two paths name the same place when their components agree.
pub open spec fn path_eq(p: Seq<char>, q: Seq<char>, win: bool) -> bool {
    path_components(p, win) == path_components(q, win)
}

/// Whether a component names a file or folder (not a prefix, root, `.` or
/// `..`).
pub open spec fn normal_comp(c: Seq<char>, win: bool) -> bool {
    &&& c != root_comp(win)
    &&& c != seq!['.']
    &&& c != seq!['.', '.']
    &&& !(win && c.len() > 0 && c[0] == '\\')
}

/// The last component of a path when it names a file or folder.
pub open spec fn file_name(p: Seq<char>, win: bool) -> Option<Seq<char>> {
    let c = path_components(p, win);
    if c.len() > 0 && normal_comp(c.last(), win) {
        Some(c.last())
    } else {
        None
    }
}

/// The character sequences of a list of components.
pub open spec fn comps_view(v: Seq<Vec<char>>) -> Seq<Seq<char>> {
    v.map_values(|c: Vec<char>| c@)
}

fn copy_chars(v: &Vec<char>) -> (r: Vec<char>)
    ensures
        r@ == v@,
{
    let mut r: Vec<char> = Vec::new();
    let mut i: usize = 0;
    while i < v.len()
        invariant
            i <= v.len(),
            r@ == v@.take(i as int),
        decreases v.len() - i,
    {
        r.push(v[i]);
        assert(v@.take(i + 1) =~= v@.take(i as int).push(v@[i as int]));
        i = i + 1;
    }
    assert(v@.take(v.len() as int) =~= v@);
    r
}

/// Where the first separator at or after `start` stands.
fn sep_from_exec(cs: &Vec<char>, start: usize, verb: bool) -> (r: usize)
    requires
        start <= cs.len(),
    ensures
        r == sep_from(cs@, start as int, verb),
        start <= r <= cs.len(),
{
    let mut i = start;
    while i < cs.len()
        invariant
            start <= i <= cs.len(),
            sep_from(cs@, start as int, verb) == sep_from(cs@, i as int, verb),
        decreases cs.len() - i,
    {
        let c = cs[i];
        if (verb && c == '\\') || (!verb && (c == '/' || c == '\\')) {
            return i;
        }
        i = i + 1;
    }
    i
}

fn prefix_char_exec(cs: &Vec<char>, i: usize) -> (r: char)
    requires
        i < cs.len(),
    ensures
        r == prefix_char(cs@, i as int),
{
    if i < 8 && cs[i] == '/' {
        '\\'
    } else {
        cs[i]
    }
}

fn push_range(out: &mut Vec<char>, cs: &Vec<char>, a: usize, b: usize)
    requires
        a <= b <= cs.len(),
    ensures
        final(out)@ == old(out)@ + cs@.subrange(a as int, b as int),
{
    let mut i = a;
    while i < b
        invariant
            a <= i <= b,
            b <= cs.len(),
            out@ == old(out)@ + cs@.subrange(a as int, i as int),
        decreases b - i,
    {
        out.push(cs[i]);
        assert(cs@.subrange(a as int, i + 1) =~= cs@.subrange(a as int, i as int).push(cs@[i as int]));
        i = i + 1;
    }
}

fn is_ascii_letter(c: char) -> (r: bool)
    ensures
        r == ascii_letter(c),
{
    ('a' <= c && c <= 'z') || ('A' <= c && c <= 'Z')
}

fn to_ascii_upper(c: char) -> (r: char)
    ensures
        r == ascii_upper(c),
{
    if 'a' <= c && c <= 'z' {
        let v: u8 = (c as u8) - 32;
        v as char
    } else {
        c
    }
}

/// Reads the Windows prefix of a path: whether there is one, the component
/// standing for it, its length, whether it is verbatim, and whether it
/// carries a root of its own.
fn win_prefix_exec(cs: &Vec<char>) -> (r: (bool, Vec<char>, usize, bool, bool))
    ensures
        r.2 <= cs.len(),
        match win_prefix(cs@) {
            Some(x) => r.0 && r.1@ == x.0 && r.2 == x.1 && r.3 == x.2 && r.4 == x.3,
            None => !r.0 && r.2 == 0 && !r.3 && !r.4,
        },
{
    let n = cs.len();
    if n >= 2 && prefix_char_exec(cs, 0) == '\\' && prefix_char_exec(cs, 1) == '\\' {
        if n >= 4 && cs[0] == '\\' && cs[1] == '\\' && cs[2] == '?' && cs[3] == '\\' {
            if n >= 8 && prefix_char_exec(cs, 4) == 'U' && prefix_char_exec(cs, 5) == 'N'
                && prefix_char_exec(cs, 6) == 'C' && prefix_char_exec(cs, 7) == '\\' {
                let s1 = sep_from_exec(cs, 8, true);
                let r0 = if s1 < n { s1 + 1 } else { s1 };
                let s2 = sep_from_exec(cs, r0, true);
                let mut enc: Vec<char> = Vec::new();
                enc.push('\\');
                enc.push('W');
                push_range(&mut enc, cs, 8, s1);
                enc.push('\\');
                push_range(&mut enc, cs, r0, s2);
                let len = if s2 > r0 { s2 } else { s1 };
                proof {
                    assert(enc@ =~= seq!['\\', 'W'] + cs@.subrange(8, s1 as int) + seq!['\\'] + cs@.subrange(r0 as int, s2 as int));
                }
                (true, enc, len, true, true)
            } else if n >= 6 && is_ascii_letter(cs[4]) && cs[5] == ':' && (n == 6 || cs[6] == '\\') {
                let mut enc: Vec<char> = Vec::new();
                enc.push('\\');
                enc.push('K');
                enc.push(to_ascii_upper(cs[4]));
                proof {
                    assert(enc@ =~= seq!['\\', 'K', ascii_upper(cs@[4])]);
                }
                (true, enc, 6, true, true)
            } else {
                let s1 = sep_from_exec(cs, 4, true);
                let mut enc: Vec<char> = Vec::new();
                enc.push('\\');
                enc.push('V');
                push_range(&mut enc, cs, 4, s1);
                proof {
                    assert(enc@ =~= seq!['\\', 'V'] + cs@.subrange(4, s1 as int));
                }
                (true, enc, s1, true, true)
            }
        } else if n >= 4 && prefix_char_exec(cs, 2) == '.' && prefix_char_exec(cs, 3) == '\\' {
            let s1 = sep_from_exec(cs, 4, false);
            let mut enc: Vec<char> = Vec::new();
            enc.push('\\');
            enc.push('N');
            push_range(&mut enc, cs, 4, s1);
            proof {
                assert(enc@ =~= seq!['\\', 'N'] + cs@.subrange(4, s1 as int));
            }
            (true, enc, s1, false, true)
        } else {
            let s1 = sep_from_exec(cs, 2, false);
            let r0 = if s1 < n { s1 + 1 } else { s1 };
            let s2 = sep_from_exec(cs, r0, false);
            if s1 > 2 && s2 > r0 {
                let mut enc: Vec<char> = Vec::new();
                enc.push('\\');
                enc.push('U');
                push_range(&mut enc, cs, 2, s1);
                enc.push('\\');
                push_range(&mut enc, cs, r0, s2);
                proof {
                    assert(enc@ =~= seq!['\\', 'U'] + cs@.subrange(2, s1 as int) + seq!['\\'] + cs@.subrange(r0 as int, s2 as int));
                }
                (true, enc, s2, false, true)
            } else {
                (false, Vec::new(), 0, false, false)
            }
        }
    } else if n >= 2 && is_ascii_letter(cs[0]) && cs[1] == ':' {
        let mut enc: Vec<char> = Vec::new();
        enc.push('\\');
        enc.push('D');
        enc.push(to_ascii_upper(cs[0]));
        proof {
            assert(enc@ =~= seq!['\\', 'D', ascii_upper(cs@[0])]);
        }
        (true, enc, 2, false, false)
    } else {
        (false, Vec::new(), 0, false, false)
    }
}

fn flush_exec(done: &mut Vec<Vec<char>>, cur: &Vec<char>, verb: bool)
    ensures
        comps_view(final(done)@) == flush_comp(comps_view(old(done)@), cur@, verb),
{
    if cur.len() == 0 || (cur.len() == 1 && cur[0] == '.' && !verb) {
        proof {
            if cur.len() == 1 {
                assert(cur@ =~= seq!['.']);
            }
        }
    } else {
        proof {
            if cur@ == seq!['.'] {
                assert(cur@[0] == '.');
            }
        }
        let ghost before = comps_view(done@);
        let c = copy_chars(cur);
        done.push(c);
        assert(comps_view(done@) =~= before.push(cur@));
    }
}

/// Splits a path into its components, by Windows rules when `win` holds
/// and by Unix rules otherwise.
pub fn components(p: &str, win: bool) -> (r: Vec<Vec<char>>)
    ensures
        comps_view(r@) == path_components(p@, win),
{
    let cs = chars_of(p);
    let (has_pre, enc, plen, verb, imp) = if win {
        win_prefix_exec(&cs)
    } else {
        (false, Vec::new(), 0usize, false, false)
    };
    let phys = plen < cs.len() && (cs[plen] == '/' || (win && cs[plen] == '\\'));
    let cur = !has_pre && !phys && cs.len() > 0 && cs[0] == '.' && (cs.len() == 1 || cs[1] == '/' || (win && cs[1] == '\\'));
    let ghost pcomp: Seq<Seq<char>> = if has_pre { seq![enc@] } else { Seq::empty() };
    let mut out: Vec<Vec<char>> = Vec::new();
    if has_pre {
        out.push(enc);
    }
    let ghost second: Seq<Seq<char>> = if phys || (has_pre && imp && !verb) {
        seq![root_comp(win)]
    } else if cur {
        seq![seq!['.']]
    } else {
        Seq::empty()
    };
    assert(comps_view(out@) =~= pcomp);
    if phys || (has_pre && imp && !verb) {
        let mut root: Vec<char> = Vec::new();
        if win {
            root.push('\\');
        } else {
            root.push('/');
        }
        assert(root@ =~= root_comp(win));
        out.push(root);
    } else if cur {
        let mut dot: Vec<char> = Vec::new();
        dot.push('.');
        assert(dot@ =~= seq!['.']);
        out.push(dot);
    }
    assert(comps_view(out@) =~= pcomp + second);
    let start = if phys || cur { plen + 1 } else { plen };
    let mut done: Vec<Vec<char>> = Vec::new();
    let mut c: Vec<char> = Vec::new();
    let mut i: usize = start;
    while i < cs.len()
        invariant
            start <= i <= cs.len(),
            cs@ == p@,
            (comps_view(done@), c@) == scan_comps(cs@.subrange(start as int, i as int), verb, win),
        decreases cs.len() - i,
    {
        proof {
            assert(cs@.subrange(start as int, i + 1).drop_last() =~= cs@.subrange(start as int, i as int));
            assert(cs@.subrange(start as int, i + 1).last() == cs@[i as int]);
        }
        let ch = cs[i];
        if (verb && ch == '\\') || (!verb && (ch == '/' || (win && ch == '\\'))) {
            flush_exec(&mut done, &c, verb);
            c = Vec::new();
        } else {
            c.push(ch);
        }
        i = i + 1;
    }
    flush_exec(&mut done, &c, verb);
    let ghost head = comps_view(out@);
    let ghost body = comps_view(done@);
    out.append(&mut done);
    assert(comps_view(out@) =~= head + body);
    out
}

/// Whether two character vectors are equal.
pub fn chars_eq(a: &Vec<char>, b: &Vec<char>) -> (r: bool)
    ensures
        r == (a@ == b@),
{
    if a.len() != b.len() {
        return false;
    }
    let mut i: usize = 0;
    while i < a.len()
        invariant
            a.len() == b.len(),
            i <= a.len(),
            forall|j: int| 0 <= j < i ==> a@[j] == b@[j],
        decreases a.len() - i,
    {
        if a[i] != b[i] {
            return false;
        }
        i = i + 1;
    }
    assert(a@ =~= b@);
    true
}

/// Whether the components `b` begin the components `a`.
pub fn comps_start_with(a: &Vec<Vec<char>>, b: &Vec<Vec<char>>) -> (r: bool)
    ensures
        r == (comps_view(b@).len() <= comps_view(a@).len() && comps_view(a@).take(
            comps_view(b@).len() as int,
        ) == comps_view(b@)),
{
    if b.len() > a.len() {
        return false;
    }
    let mut i: usize = 0;
    while i < b.len()
        invariant
            b.len() <= a.len(),
            i <= b.len(),
            forall|j: int| 0 <= j < i ==> comps_view(a@)[j] == comps_view(b@)[j],
        decreases b.len() - i,
    {
        if !chars_eq(&a[i], &b[i]) {
            assert(comps_view(a@).take(b.len() as int)[i as int] == comps_view(a@)[i as int]);
            return false;
        }
        i = i + 1;
    }
    assert(comps_view(a@).take(b.len() as int) =~= comps_view(b@));
    true
}

/// Whether two component lists are equal.
pub fn comps_equal(a: &Vec<Vec<char>>, b: &Vec<Vec<char>>) -> (r: bool)
    ensures
        r == (comps_view(a@) == comps_view(b@)),
{
    if a.len() != b.len() {
        return false;
    }
    let r = comps_start_with(a, b);
    assert(comps_view(a@).take(comps_view(b@).len() as int) =~= comps_view(a@));
    r
}

/// Whether path `p` lies at or below `base`.
pub fn starts_with(p: &str, base: &str, win: bool) -> (r: bool)
    ensures
        r == path_starts_with(p@, base@, win),
{
    let a = components(p, win);
    let b = components(base, win);
    comps_start_with(&a, &b)
}

/// Whether two paths name the same place.
pub fn same_path(p: &str, q: &str, win: bool) -> (r: bool)
    ensures
        r == path_eq(p@, q@, win),
{
    let a = components(p, win);
    let b = components(q, win);
    comps_equal(&a, &b)
}

/// The file name of a path, if it has one.
pub fn file_name_of(p: &str, win: bool) -> (r: Option<Vec<char>>)
    ensures
        match r {
            Some(n) => file_name(p@, win) == Some(n@),
            None => file_name(p@, win) is None,
        },
{
    let c = components(p, win);
    if c.len() == 0 {
        return None;
    }
    let last = &c[c.len() - 1];
    assert(comps_view(c@).last() == last@);
    let is_root = last.len() == 1 && ((win && last[0] == '\\') || (!win && last[0] == '/'));
    let is_dot = last.len() == 1 && last[0] == '.';
    let is_parent = last.len() == 2 && last[0] == '.' && last[1] == '.';
    let is_prefix = win && last.len() > 0 && last[0] == '\\';
    proof {
        if last@ == root_comp(win) {
            assert(last@[0] == root_comp(win)[0]);
        }
        if is_root {
            assert(last@ =~= root_comp(win));
        }
        if last@ == seq!['.'] {
            assert(last@[0] == '.');
        }
        if is_dot {
            assert(last@ =~= seq!['.']);
        }
        if last@ == seq!['.', '.'] {
            assert(last@[0] == '.' && last@[1] == '.');
        }
        if is_parent {
            assert(last@ =~= seq!['.', '.']);
        }
    }
    if is_root || is_dot || is_parent || is_prefix {
        None
    } else {
        Some(copy_chars(last))
    }
}

} // verus!
