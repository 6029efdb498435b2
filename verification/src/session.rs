//! The state of an interactive session: settings, the filtered records and
//! their selection, the chosen label, and the decisions the prompt's
//! commands make on that state.
use vstd::prelude::*;
use std::collections::HashSet;
use crate::dirdiff::InfoDir;
use crate::rules::FsEntfo;
use crate::text::{contains_sub, keyed_view, keys_strictly_sorted, keys_strictly_sorted_check, parse_usize, parse_usize_spec, push_all, sort_strings, str_contains, str_eq, strings_sorted, views_of};
use crate::util::TIdx;

verus! {

broadcast use {
    vstd::std_specs::hash::group_hash_axioms,
    vstd::seq_lib::group_to_multiset_ensures,
};

/// Settings of this machine.
#[derive(Debug)]
pub struct LocalSettings {
    /// The hardware this machine is (usually the laptop or desktop itself).
    pub default_hardware_id: String,
    /// How the info folder is synchronised: empty for not at all, or `git`.
    pub sync_method: String,
    /// Files holding the access tokens of the cloud services.
    pub auth_secret_d: String,
    pub auth_secret_m: String,
    pub auth_secret_g: String,
}

/// Settings shared through the info folder.
#[derive(Debug)]
pub struct InfoSettings {
    /// Entfo folder names that are unique across all hardware.
    pub unique_entfo_folder_names: Vec<String>,
}

impl LocalSettings {
    /// Settings with every field empty.
    pub fn new() -> (r: LocalSettings)
        ensures
            r.default_hardware_id@.len() == 0,
            r.sync_method@.len() == 0,
            r.auth_secret_d@.len() == 0,
            r.auth_secret_m@.len() == 0,
            r.auth_secret_g@.len() == 0,
    {
        LocalSettings {
            default_hardware_id: String::new(),
            sync_method: String::new(),
            auth_secret_d: String::new(),
            auth_secret_m: String::new(),
            auth_secret_g: String::new(),
        }
    }
}

/// How the info folder is synchronised.
#[derive(PartialEq, Eq, Structural, Clone, Copy, Debug)]
pub enum SyncMethod {
    /// Not at all (the setting is empty).
    Off,
    /// With git: pull, commit what changed, push.
    Git,
    /// A setting this program does not know; it is ignored.
    Unrecognized,
}

/// What `lbls PATTERN` found among the labels matching the pattern.
pub enum LblsOutcome {
    /// No label matches.
    NoMatch,
    /// Exactly one matches, and it is now the chosen label.
    Chosen,
    /// Several match: they are listed, sorted, for the user to choose one.
    Choose(Vec<String>),
}

/// What becomes of one registered copy under `fsdel PATTERN`.
#[derive(PartialEq, Eq, Structural, Clone, Copy, Debug)]
pub enum FsdelMatch {
    /// Neither its entfo id nor its path contains the pattern.
    NoMatch,
    /// It matches, but its entfo is not mounted: it is skipped.
    NotMounted,
    /// It matches and can be deleted.
    Candidate,
}

/// The user's answer to the list of `fsdel PATTERN` candidates.
#[derive(PartialEq, Eq, Structural, Clone, Copy, Debug)]
pub enum FsdelChoice {
    /// An empty answer: delete every candidate.
    All,
    /// The candidate with this index.
    One(usize),
    /// Not a number, or no such candidate.
    Invalid,
}

/// The state of a session.
pub struct CtxDef {
    /// The program's arguments.
    pub envargs: Vec<String>,
    /// Numbers of the info files that must be written again.
    pub tidx_modified: HashSet<u32>,
    pub already_checked_git_email_n_name: bool,
    pub home_dir: String,
    pub everycom: String,
    pub app_support_dir: String,
    pub sync_dir: String,
    pub info_dir: String,
    pub local_settings_file: String,
    pub local_settings: LocalSettings,
    pub info_settings_file: String,
    pub info_settings: InfoSettings,
    pub custentfos_settings_file: String,
    /// The entfos, by id.
    pub custentfos_settings: Vec<(String, FsEntfo)>,
    pub tidx_st: TIdx,
    /// The filtered records: a file's id, negated while it is selected.
    pub filter_buf: Vec<i64>,
    pub chosen_lbl: String,
    /// The chosen pair of storages for `dir-diff`.
    pub info_pair: Option<(InfoDir, InfoDir)>,
    pub info_pair_file: String,
    /// Accounts whose files were listed at least once.
    pub listed_at_least_once: Vec<String>,
    pub dx_email: String,
    pub mgraph_upn: String,
}

/// Entfo settings keyed by entfo id, each id once, in ascending order.
pub open spec fn entfos_keyed(s: Seq<(String, FsEntfo)>) -> bool {
    keys_strictly_sorted(keyed_view(s))
}

/// No entry is `i64::MIN`, so that every entry can be negated.
pub open spec fn negatable(s: Seq<i64>) -> bool {
    forall|i: int| 0 <= i < s.len() ==> #[trigger] s[i] != i64::MIN
}

/// Whether every entry can be negated (none is `i64::MIN`).
pub fn negatable_check(s: &Vec<i64>) -> (r: bool)
    ensures
        r == negatable(s@),
{
    let mut i: usize = 0;
    while i < s.len()
        invariant
            i <= s.len(),
            forall|k: int| 0 <= k < i ==> #[trigger] s@[k] != i64::MIN,
        decreases s.len() - i,
    {
        if s[i] == i64::MIN {
            return false;
        }
        i = i + 1;
    }
    true
}

/// The ids of the selected records, in order.
pub open spec fn selection(s: Seq<i64>) -> Seq<i64>
    decreases s.len(),
{
    if s.len() == 0 {
        Seq::empty()
    } else {
        let p = selection(s.drop_last());
        if s.last() < 0 {
            p.push((-s.last()) as i64)
        } else {
            p
        }
    }
}

/// Every record selected: each entry negative.
pub open spec fn selected_all(s: Seq<i64>) -> Seq<i64> {
    s.map_values(|x: i64| if x < 0 { x } else { (-x) as i64 })
}

/// No record selected: each entry non-negative.
pub open spec fn deselected_all(s: Seq<i64>) -> Seq<i64> {
    s.map_values(|x: i64| if x < 0 { (-x) as i64 } else { x })
}

/// The record at `idx` with its selection toggled.
pub open spec fn toggled(s: Seq<i64>, idx: int) -> Seq<i64> {
    s.update(idx, (-s[idx]) as i64)
}

/// The id of a filtered record, whether it is selected or not.
pub open spec fn record_id(x: i64) -> i64 {
    if x < 0 {
        (-x) as i64
    } else {
        x
    }
}

/// The entfo with id `rid` (its first entry) lives on the hardware
/// `default_hw`.
pub open spec fn entfo_mounted(s: Seq<(String, FsEntfo)>, default_hw: Seq<char>, rid: Seq<char>) -> bool {
    exists|i: int|
        0 <= i < s.len() && #[trigger] s[i].0@ == rid && (forall|j: int| 0 <= j < i ==> s[j].0@ != rid)
            && s[i].1.hardware_id@ == default_hw
}

/// An entfo with id `rid` is known.
pub open spec fn entfo_known(s: Seq<(String, FsEntfo)>, rid: Seq<char>) -> bool {
    exists|i: int| 0 <= i < s.len() && #[trigger] s[i].0@ == rid
}

/// The ids of the entfos that live on the hardware `hw`, in order.
pub open spec fn entfos_on(s: Seq<(String, FsEntfo)>, hw: Seq<char>) -> Seq<Seq<char>>
    decreases s.len(),
{
    if s.len() == 0 {
        Seq::empty()
    } else {
        let p = entfos_on(s.drop_last(), hw);
        if s.last().1.hardware_id@ == hw {
            p.push(s.last().0@)
        } else {
            p
        }
    }
}

/// The entfo at `i` of `s` lives on `hw` and has id `id`.
pub open spec fn entfo_on_at(s: Seq<(String, FsEntfo)>, hw: Seq<char>, i: int, id: Seq<char>) -> bool {
    0 <= i < s.len() && s[i].1.hardware_id@ == hw && s[i].0@ == id
}

/// Some entfo with id `id` lives on `hw`.
pub open spec fn has_entfo_on(s: Seq<(String, FsEntfo)>, hw: Seq<char>, id: Seq<char>) -> bool {
    exists|i: int| #[trigger] entfo_on_at(s, hw, i, id)
}

/// Every entfo on a hardware is listed for it, and nothing else is: an id
/// is listed exactly when some entfo with that id lives on `hw`, and the
/// list is no longer than the settings.
pub proof fn lemma_entfos_on_lists_exactly_the_matches(s: Seq<(String, FsEntfo)>, hw: Seq<char>)
    ensures
        forall|i: int| 0 <= i < s.len() && (#[trigger] s[i]).1.hardware_id@ == hw ==> entfos_on(s, hw).contains(s[i].0@),
        forall|k: int| 0 <= k < entfos_on(s, hw).len() ==> has_entfo_on(s, hw, #[trigger] entfos_on(s, hw)[k]),
        entfos_on(s, hw).len() <= s.len(),
    decreases s.len(),
{
    if s.len() > 0 {
        let p = s.drop_last();
        lemma_entfos_on_lists_exactly_the_matches(p, hw);
        let q = entfos_on(p, hw);
        let r = entfos_on(s, hw);
        let last = s.len() - 1;
        assert(s.last() == s[last]);
        assert forall|i: int| 0 <= i < s.len() && (#[trigger] s[i]).1.hardware_id@ == hw implies r.contains(s[i].0@) by {
            if i < last {
                assert(p[i] == s[i]);
                assert(q.contains(p[i].0@));
                let k = choose|k: int| 0 <= k < q.len() && q[k] == p[i].0@;
                if s.last().1.hardware_id@ == hw {
                    assert(r[k] == q[k]);
                }
            } else {
                assert(r[r.len() - 1] == s[i].0@);
            }
        }
        assert forall|k: int| 0 <= k < r.len() implies has_entfo_on(s, hw, #[trigger] r[k]) by {
            if k < q.len() {
                assert(r[k] == q[k]);
                assert(has_entfo_on(p, hw, q[k]));
                let i = choose|i: int| #[trigger] entfo_on_at(p, hw, i, q[k]);
                assert(p[i] == s[i]);
                assert(entfo_on_at(s, hw, i, r[k]));
            } else {
                assert(entfo_on_at(s, hw, last, r[k]));
            }
        }
    }
}

/// Whether an entfo with id `rid` is known.
pub fn entfo_known_check(s: &Vec<(String, FsEntfo)>, rid: &str) -> (r: bool)
    ensures
        r == entfo_known(s@, rid@),
{
    let mut i: usize = 0;
    while i < s.len()
        invariant
            i <= s.len(),
            forall|k: int| 0 <= k < i ==> #[trigger] s@[k].0@ != rid@,
        decreases s.len() - i,
    {
        if str_eq(s[i].0.as_str(), rid) {
            assert(s@[i as int].0@ == rid@);
            return true;
        }
        i = i + 1;
    }
    false
}

/// The first part of every filtering query.
pub open spec fn select_prefix() -> Seq<char> {
    "SELECT tmpid from files where "@
}

/// Restricts a query to the records already filtered.
pub open spec fn within_filter() -> Seq<char> {
    "tmpid in(select tid from filter_buf) and ("@
}

/// The condition of `/pattern`: a label, a path, or one of the names
/// matches the glob `?1`.
pub open spec fn glob_condition() -> Seq<char> {
    "tmpid in(select tmpid from lbls where lbl glob ?1) or tmpid in(select tmpid from fsfiles where rel glob ?1) or old_filename glob ?1 or download_url glob ?1 or archive_filename glob ?1"@
}

/// A filtering query for `cond`, kept within the filtered records when
/// there are any, followed by `tail`.
pub open spec fn filter_query(filter_empty: bool, cond: Seq<char>, tail: Seq<char>) -> Seq<char> {
    if filter_empty {
        select_prefix() + cond + tail
    } else {
        select_prefix() + within_filter() + cond + ")"@ + tail
    }
}

/// The `order by` clause for what the user typed (nothing when empty).
pub open spec fn order_clause(orderby: Seq<char>) -> Seq<char> {
    if orderby.len() == 0 {
        Seq::empty()
    } else {
        " order by "@ + orderby
    }
}

impl CtxDef {
    /// The state of a session started with `args`, before any setting is
    /// read.
    pub fn new(args: Vec<String>) -> (r: CtxDef)
        ensures
            r.envargs@ == args@,
            r.tidx_modified@ == Set::<u32>::empty(),
            r.filter_buf@.len() == 0,
            r.chosen_lbl@.len() == 0,
            r.info_pair is None,
            r.custentfos_settings@.len() == 0,
            r.listed_at_least_once@.len() == 0,
            r.dx_email@.len() == 0,
            r.local_settings.default_hardware_id@.len() == 0,
            r.tidx_st.t_idx == 0,
            r.tidx_st.spacious_t@ == Set::<u32>::empty(),
            !r.already_checked_git_email_n_name,
    {
        CtxDef {
            envargs: args,
            tidx_modified: HashSet::new(),
            already_checked_git_email_n_name: false,
            home_dir: String::new(),
            everycom: String::new(),
            app_support_dir: String::new(),
            sync_dir: String::new(),
            info_dir: String::new(),
            local_settings_file: String::new(),
            local_settings: LocalSettings::new(),
            info_settings_file: String::new(),
            info_settings: InfoSettings { unique_entfo_folder_names: Vec::new() },
            custentfos_settings_file: String::new(),
            custentfos_settings: Vec::new(),
            tidx_st: TIdx::new(),
            filter_buf: Vec::new(),
            chosen_lbl: String::new(),
            info_pair: None,
            info_pair_file: String::new(),
            listed_at_least_once: Vec::new(),
            dx_email: String::new(),
            mgraph_upn: String::new(),
        }
    }

    /// Takes the entfo settings read from the settings file, which keys
    /// them by entfo id in strictly ascending order; other entries are
    /// refused and nothing changes.
    pub fn set_entfos(&mut self, entfos: Vec<(String, FsEntfo)>) -> (r: bool)
        ensures
            r == entfos_keyed(entfos@),
            *final(self) == (if r {
                CtxDef { custentfos_settings: entfos, ..*old(self) }
            } else {
                *old(self)
            }),
    {
        if keys_strictly_sorted_check(&entfos) {
            self.custentfos_settings = entfos;
            true
        } else {
            false
        }
    }

    /// The ids of the selected records, in order.
    pub fn mk_vec_of_selection(&self) -> (r: Vec<i64>)
        requires
            negatable(self.filter_buf@),
        ensures
            r@ == selection(self.filter_buf@),
    {
        let mut tids: Vec<i64> = Vec::new();
        let mut i: usize = 0;
        while i < self.filter_buf.len()
            invariant
                i <= self.filter_buf.len(),
                negatable(self.filter_buf@),
                tids@ == selection(self.filter_buf@.take(i as int)),
            decreases self.filter_buf.len() - i,
        {
            let ghost t = self.filter_buf@.take(i + 1);
            assert(t.drop_last() =~= self.filter_buf@.take(i as int));
            let selid = self.filter_buf[i];
            if selid < 0 {
                tids.push(-selid);
            }
            i = i + 1;
        }
        assert(self.filter_buf@.take(self.filter_buf.len() as int) =~= self.filter_buf@);
        tids
    }

    /// `all`: selects every filtered record.
    pub fn select_all(&mut self)
        requires
            negatable(old(self).filter_buf@),
        ensures
            final(self).filter_buf@ == selected_all(old(self).filter_buf@),
            negatable(final(self).filter_buf@),
    {
        let ghost orig = self.filter_buf@;
        let mut i: usize = 0;
        while i < self.filter_buf.len()
            invariant
                i <= self.filter_buf.len(),
                self.filter_buf.len() == orig.len(),
                negatable(orig),
                forall|k: int| 0 <= k < i ==> #[trigger] self.filter_buf@[k] == (if orig[k] < 0 { orig[k] } else { (-orig[k]) as i64 }),
                forall|k: int| i <= k < orig.len() ==> #[trigger] self.filter_buf@[k] == orig[k],
            decreases self.filter_buf.len() - i,
        {
            let x = self.filter_buf[i];
            if x >= 0 {
                self.filter_buf.set(i, -x);
            }
            i = i + 1;
        }
        assert(self.filter_buf@ =~= orig.map_values(|x: i64| if x < 0 { x } else { (-x) as i64 }));
    }

    /// `deselect`: deselects every filtered record.
    pub fn deselect_all(&mut self)
        requires
            negatable(old(self).filter_buf@),
        ensures
            final(self).filter_buf@ == deselected_all(old(self).filter_buf@),
            negatable(final(self).filter_buf@),
    {
        let ghost orig = self.filter_buf@;
        let mut i: usize = 0;
        while i < self.filter_buf.len()
            invariant
                i <= self.filter_buf.len(),
                self.filter_buf.len() == orig.len(),
                negatable(orig),
                forall|k: int| 0 <= k < i ==> #[trigger] self.filter_buf@[k] == (if orig[k] < 0 { (-orig[k]) as i64 } else { orig[k] }),
                forall|k: int| i <= k < orig.len() ==> #[trigger] self.filter_buf@[k] == orig[k],
            decreases self.filter_buf.len() - i,
        {
            let x = self.filter_buf[i];
            if x < 0 {
                self.filter_buf.set(i, -x);
            }
            i = i + 1;
        }
        assert(self.filter_buf@ =~= orig.map_values(|x: i64| if x < 0 { (-x) as i64 } else { x }));
    }

    /// A number typed at the prompt: toggles the selection of the filtered
    /// record at `idx`; `false` when there is none.
    pub fn toggle(&mut self, idx: usize) -> (r: bool)
        requires
            idx < old(self).filter_buf.len() ==> old(self).filter_buf@[idx as int] != i64::MIN,
        ensures
            r == (idx < old(self).filter_buf.len()),
            r ==> final(self).filter_buf@ == toggled(old(self).filter_buf@, idx as int),
            !r ==> final(self).filter_buf@ == old(self).filter_buf@,
            negatable(old(self).filter_buf@) ==> negatable(final(self).filter_buf@),
    {
        if idx < self.filter_buf.len() {
            let x = self.filter_buf[idx];
            self.filter_buf.set(idx, -x);
            true
        } else {
            false
        }
    }

    /// `reset`: forgets the filtered records.
    pub fn forget_filter(&mut self)
        ensures
            final(self).filter_buf@.len() == 0,
            final(self).chosen_lbl == old(self).chosen_lbl,
    {
        self.filter_buf.clear();
    }

    /// After `del`: the deleted (selected) records leave the filter.
    pub fn keep_unselected(&mut self)
        ensures
            final(self).filter_buf@ == old(self).filter_buf@.filter(|x: i64| x >= 0),
    {
        let ghost orig = self.filter_buf@;
        let mut kept: Vec<i64> = Vec::new();
        let mut i: usize = 0;
        while i < self.filter_buf.len()
            invariant
                i <= self.filter_buf.len(),
                orig == self.filter_buf@,
                kept@ == orig.take(i as int).filter(|x: i64| x >= 0),
            decreases self.filter_buf.len() - i,
        {
            let x = self.filter_buf[i];
            proof {
                orig.take(i as int).lemma_filter_push(x, |x: i64| x >= 0);
                assert(orig.take(i + 1) =~= orig.take(i as int).push(x));
            }
            if x >= 0 {
                kept.push(x);
            }
            i = i + 1;
        }
        assert(orig.take(orig.len() as int) =~= orig);
        self.filter_buf = kept;
    }

    /// A query's result becomes the filtered records, unless it found
    /// nothing (then the filter stays as it was and `false` is returned).
    pub fn set_filter_buf(&mut self, tids: Vec<i64>) -> (r: bool)
        ensures
            r == (tids.len() > 0),
            r ==> final(self).filter_buf@ == tids@,
            !r ==> final(self).filter_buf@ == old(self).filter_buf@,
    {
        if tids.len() == 0 {
            false
        } else {
            self.filter_buf = tids;
            true
        }
    }

    /// `lbl LABEL`: chooses a label; `false` (nothing changes) when it is
    /// empty.
    pub fn lbl_input(&mut self, pat: &str) -> (r: bool)
        ensures
            r == (pat@.len() > 0),
            r ==> final(self).chosen_lbl@ == pat@,
            !r ==> final(self).chosen_lbl@ == old(self).chosen_lbl@,
            final(self).filter_buf@ == old(self).filter_buf@,
    {
        if pat.is_empty() {
            return false;
        }
        self.chosen_lbl = crate::text::owned(pat);
        true
    }

    /// `lbls PATTERN`, given the distinct labels that contain the pattern:
    /// none is no match; exactly one becomes the chosen label; several are
    /// handed back sorted, for the user to choose.
    pub fn lbls_search(&mut self, found: Vec<String>) -> (r: LblsOutcome)
        ensures
            found@.len() == 0 <==> r is NoMatch,
            found@.len() == 1 <==> r is Chosen,
            r is Chosen ==> final(self).chosen_lbl@ == found@[0]@,
            !(r is Chosen) ==> final(self).chosen_lbl@ == old(self).chosen_lbl@,
            match r {
                LblsOutcome::Choose(v) => strings_sorted(views_of(v@)) && views_of(v@).to_multiset()
                    == views_of(found@).to_multiset(),
                _ => true,
            },
    {
        if found.len() == 0 {
            return LblsOutcome::NoMatch;
        }
        if found.len() == 1 {
            let mut found = found;
            let l = found.pop().unwrap();
            self.chosen_lbl = l;
            return LblsOutcome::Chosen;
        }
        let mut v = found;
        sort_strings(&mut v);
        LblsOutcome::Choose(v)
    }

    /// The user's answer to a list of labels: the label at that index
    /// becomes the chosen one; `false` when the answer is not an index of
    /// the list.
    pub fn choose_lbl(&mut self, listed: &Vec<String>, choice: &str) -> (r: bool)
        ensures
            r == match parse_usize_spec(choice@) {
                Some(i) => i < listed.len(),
                None => false,
            },
            r ==> final(self).chosen_lbl@ == listed@[parse_usize_spec(choice@).unwrap() as int]@,
            !r ==> final(self).chosen_lbl@ == old(self).chosen_lbl@,
    {
        match parse_usize(choice) {
            Some(i) => {
                if i < listed.len() {
                    self.chosen_lbl = crate::text::owned(listed[i].as_str());
                    true
                } else {
                    false
                }
            },
            None => false,
        }
    }

    /// `+pattern` and `-pattern`: the one label that contains the pattern,
    /// or an empty string when `found` (the matching labels) is not exactly
    /// one.
    pub fn get_single_lbl_match(found: Vec<String>) -> (r: String)
        ensures
            r@ == if found@.len() == 1 {
                found@[0]@
            } else {
                Seq::<char>::empty()
            },
    {
        if found.len() != 1 {
            return String::new();
        }
        let mut found = found;
        found.pop().unwrap()
    }

    /// Whether the entfo `rid` lives on this machine's default hardware.
    pub fn is_entfo_mounted(&self, rid: &str) -> (r: bool)
        ensures
            r == entfo_mounted(
                self.custentfos_settings@,
                self.local_settings.default_hardware_id@,
                rid@,
            ),
    {
        let s = &self.custentfos_settings;
        let mut i: usize = 0;
        while i < s.len()
            invariant
                i <= s.len(),
                *s == self.custentfos_settings,
                forall|j: int| 0 <= j < i ==> #[trigger] s@[j].0@ != rid@,
            decreases s.len() - i,
        {
            if str_eq(s[i].0.as_str(), rid) {
                assert(s@[i as int].0@ == rid@);
                let same = str_eq(s[i].1.hardware_id.as_str(), self.local_settings.default_hardware_id.as_str());
                proof {
                    if !same {
                        assert forall|k: int|
                            0 <= k < s.len() && #[trigger] s@[k].0@ == rid@ && (forall|j: int| 0 <= j < k ==> s@[j].0@ != rid@)
                            implies s@[k].1.hardware_id@ != self.local_settings.default_hardware_id@ by {
                            if k > i {
                                assert(s@[i as int].0@ == rid@);
                            }
                        }
                    }
                }
                return same;
            }
            i = i + 1;
        }
        false
    }

    /// The folder of the entfo `rid`, which must be known.
    pub fn force_entfo_path(&self, rid: &str) -> (r: &str)
        requires
            entfo_known(self.custentfos_settings@, rid@),
        ensures
            exists|i: int|
                0 <= i < self.custentfos_settings@.len() && #[trigger] self.custentfos_settings@[i].0@ == rid@
                    && (forall|j: int| 0 <= j < i ==> self.custentfos_settings@[j].0@ != rid@)
                    && r@ == self.custentfos_settings@[i].1.efolder.pb@,
    {
        let s = &self.custentfos_settings;
        let mut i: usize = 0;
        while i < s.len()
            invariant
                i <= s.len(),
                *s == self.custentfos_settings,
                entfo_known(s@, rid@),
                forall|j: int| 0 <= j < i ==> #[trigger] s@[j].0@ != rid@,
            decreases s.len() - i,
        {
            if str_eq(s[i].0.as_str(), rid) {
                assert(s@[i as int].0@ == rid@);
                return s[i].1.efolder.pb.as_str();
            }
            i = i + 1;
        }
        proof {
            let k = choose|k: int| 0 <= k < s@.len() && #[trigger] s@[k].0@ == rid@;
            assert(s@[k].0@ != rid@);
        }
        ""
    }

    /// Under `fsdel PATTERN`: what becomes of the copy at `rel` in entfo
    /// `rid`.
    pub fn fsdel_match(&self, rid: &str, rel: &str, pat: &str) -> (r: FsdelMatch)
        ensures
            r == if !contains_sub(rid@, pat@) && !contains_sub(rel@, pat@) {
                FsdelMatch::NoMatch
            } else if !entfo_mounted(
                self.custentfos_settings@,
                self.local_settings.default_hardware_id@,
                rid@,
            ) {
                FsdelMatch::NotMounted
            } else {
                FsdelMatch::Candidate
            },
    {
        if !str_contains(rid, pat) && !str_contains(rel, pat) {
            return FsdelMatch::NoMatch;
        }
        if !self.is_entfo_mounted(rid) {
            return FsdelMatch::NotMounted;
        }
        FsdelMatch::Candidate
    }

    /// Under `fsdel`: the first copy (by its entfo id) whose entfo is not
    /// mounted, which stops the deletion.
    pub fn first_unmounted(&self, rids: &Vec<String>) -> (r: Option<usize>)
        ensures
            match r {
                Some(i) => i < rids.len() && !entfo_mounted(
                    self.custentfos_settings@,
                    self.local_settings.default_hardware_id@,
                    rids@[i as int]@,
                ) && forall|j: int| 0 <= j < i ==> entfo_mounted(
                    self.custentfos_settings@,
                    self.local_settings.default_hardware_id@,
                    #[trigger] rids@[j]@,
                ),
                None => forall|j: int| 0 <= j < rids.len() ==> entfo_mounted(
                    self.custentfos_settings@,
                    self.local_settings.default_hardware_id@,
                    #[trigger] rids@[j]@,
                ),
            },
    {
        let mut i: usize = 0;
        while i < rids.len()
            invariant
                i <= rids.len(),
                forall|j: int| 0 <= j < i ==> entfo_mounted(
                    self.custentfos_settings@,
                    self.local_settings.default_hardware_id@,
                    #[trigger] rids@[j]@,
                ),
            decreases rids.len() - i,
        {
            if !self.is_entfo_mounted(rids[i].as_str()) {
                return Some(i);
            }
            i = i + 1;
        }
        None
    }

    /// `scan`: the entfos to scan, those on this machine's default
    /// hardware, in order.
    pub fn default_hardware_entfos(&self) -> (r: Vec<String>)
        ensures
            views_of(r@) == entfos_on(self.custentfos_settings@, self.local_settings.default_hardware_id@),
    {
        let s = &self.custentfos_settings;
        let hw = &self.local_settings.default_hardware_id;
        let mut r: Vec<String> = Vec::new();
        let mut i: usize = 0;
        while i < s.len()
            invariant
                i <= s.len(),
                *s == self.custentfos_settings,
                *hw == self.local_settings.default_hardware_id,
                views_of(r@) == entfos_on(s@.take(i as int), hw@),
            decreases s.len() - i,
        {
            assert(s@.take(i + 1).drop_last() =~= s@.take(i as int));
            let ghost rv = views_of(r@);
            if str_eq(s[i].1.hardware_id.as_str(), hw.as_str()) {
                r.push(crate::text::owned(s[i].0.as_str()));
                assert(views_of(r@) =~= rv.push(s@[i as int].0@));
            }
            i = i + 1;
        }
        assert(s@.take(s.len() as int) =~= s@);
        r
    }

    /// How the info folder is synchronised.
    pub fn sync_method(&self) -> (r: SyncMethod)
        ensures
            r == if self.local_settings.sync_method@.len() == 0 {
                SyncMethod::Off
            } else if self.local_settings.sync_method@ == "git"@ {
                SyncMethod::Git
            } else {
                SyncMethod::Unrecognized
            },
    {
        if self.local_settings.sync_method.as_str().is_empty() {
            SyncMethod::Off
        } else if str_eq(self.local_settings.sync_method.as_str(), "git") {
            SyncMethod::Git
        } else {
            SyncMethod::Unrecognized
        }
    }

    /// `/pattern`: the query over names and the glob it binds (the pattern
    /// followed by `*`); `None` for an empty pattern.
    pub fn slash_query(&self, pat: &str) -> (r: Option<(String, String)>)
        ensures
            pat@.len() == 0 <==> r is None,
            match r {
                Some((sql, glob)) => sql@ == filter_query(self.filter_buf@.len() == 0, glob_condition(), Seq::empty())
                    && glob@ == pat@ + "*"@,
                None => true,
            },
    {
        if pat.is_empty() {
            return None;
        }
        let sql = self.query_text("tmpid in(select tmpid from lbls where lbl glob ?1) or tmpid in(select tmpid from fsfiles where rel glob ?1) or old_filename glob ?1 or download_url glob ?1 or archive_filename glob ?1", "");
        proof {
            reveal_strlit("");
        }
        let mut glob = crate::text::owned(pat);
        push_all(&mut glob, "*");
        Some((sql, glob))
    }

    /// `where CONDITION`, with the `order by` the user then typed (empty for
    /// none): the query of the records that meet the condition.
    pub fn where_query(&self, cond: &str, orderby: &str) -> (r: String)
        ensures
            r@ == filter_query(self.filter_buf@.len() == 0, cond@, order_clause(orderby@)),
    {
        let mut tail = String::new();
        if !orderby.is_empty() {
            push_all(&mut tail, " order by ");
            push_all(&mut tail, orderby);
        }
        assert(tail@ =~= order_clause(orderby@));
        self.query_text(cond, tail.as_str())
    }

    fn query_text(&self, cond: &str, tail: &str) -> (r: String)
        ensures
            r@ == filter_query(self.filter_buf@.len() == 0, cond@, tail@),
    {
        let mut sql = String::new();
        push_all(&mut sql, "SELECT tmpid from files where ");
        if self.filter_buf.len() == 0 {
            push_all(&mut sql, cond);
            push_all(&mut sql, tail);
            assert(sql@ =~= select_prefix() + cond@ + tail@);
        } else {
            push_all(&mut sql, "tmpid in(select tid from filter_buf) and (");
            push_all(&mut sql, cond);
            push_all(&mut sql, ")");
            push_all(&mut sql, tail);
            assert(sql@ =~= select_prefix() + within_filter() + cond@ + ")"@ + tail@);
        }
        sql
    }
}

/// The user's answer to the `n` candidates of `fsdel PATTERN`.
pub fn fsdel_choice(n: usize, choice: &str) -> (r: FsdelChoice)
    ensures
        r == if choice@.len() == 0 {
            FsdelChoice::All
        } else {
            match parse_usize_spec(choice@) {
                Some(i) => if i < n {
                    FsdelChoice::One(i)
                } else {
                    FsdelChoice::Invalid
                },
                None => FsdelChoice::Invalid,
            }
        },
{
    if choice.is_empty() {
        return FsdelChoice::All;
    }
    match parse_usize(choice) {
        Some(i) => if i < n {
            FsdelChoice::One(i)
        } else {
            FsdelChoice::Invalid
        },
        None => FsdelChoice::Invalid,
    }
}

// ---------------------------------------------------------------------------
// Laws of the selection.

/// Toggling a record twice gives the filter back.
pub proof fn lemma_toggle_twice(s: Seq<i64>, idx: int)
    requires
        0 <= idx < s.len(),
        s[idx] != i64::MIN,
    ensures
        toggled(s, idx)[idx] != i64::MIN,
        negatable(s) ==> negatable(toggled(s, idx)),
        toggled(toggled(s, idx), idx) == s,
{
    assert(toggled(toggled(s, idx), idx) =~= s);
}

/// After `all`, the selection is every filtered record's id, in order
/// (file ids start at 1; an entry 0 cannot be marked as selected).
pub proof fn lemma_select_all_selects_every_record(s: Seq<i64>)
    requires
        negatable(s),
        forall|i: int| 0 <= i < s.len() ==> #[trigger] s[i] != 0,
    ensures
        selection(selected_all(s)) == s.map_values(|x: i64| record_id(x)),
    decreases s.len(),
{
    if s.len() > 0 {
        lemma_select_all_selects_every_record(s.drop_last());
        assert(selected_all(s).drop_last() =~= selected_all(s.drop_last()));
        assert(s.last() == s[s.len() - 1]);
        assert(selected_all(s).last() < 0);
        assert(s.map_values(|x: i64| record_id(x)) =~= s.drop_last().map_values(|x: i64| record_id(x)).push(
            record_id(s.last()),
        ));
    } else {
        assert(s.map_values(|x: i64| record_id(x)) =~= Seq::<i64>::empty());
    }
}

/// After `deselect`, nothing is selected.
pub proof fn lemma_deselect_selects_nothing(s: Seq<i64>)
    requires
        negatable(s),
    ensures
        selection(deselected_all(s)) == Seq::<i64>::empty(),
    decreases s.len(),
{
    if s.len() > 0 {
        lemma_deselect_selects_nothing(s.drop_last());
        assert(deselected_all(s).drop_last() =~= deselected_all(s.drop_last()));
    }
}

/// Selecting or deselecting never changes which records are filtered, only
/// their selection.
pub proof fn lemma_selection_keeps_records(s: Seq<i64>)
    requires
        negatable(s),
    ensures
        selected_all(s).map_values(|x: i64| record_id(x)) == s.map_values(|x: i64| record_id(x)),
        deselected_all(s).map_values(|x: i64| record_id(x)) == s.map_values(|x: i64| record_id(x)),
{
    assert(selected_all(s).map_values(|x: i64| record_id(x)) =~= s.map_values(|x: i64| record_id(x)));
    assert(deselected_all(s).map_values(|x: i64| record_id(x)) =~= s.map_values(|x: i64| record_id(x)));
}

// ---------------------------------------------------------------------------
// Synchronising the info folder with git.

/// A git command of the synchronisation.
#[derive(PartialEq, Eq, Structural, Clone, Copy, Debug)]
pub enum GitStep {
    /// `git pull`
    Pull,
    /// `git add -A`
    Add,
    /// `git diff --cached`: is there anything to commit?
    DiffCached,
    /// `git config user.email`: must be set before committing.
    CheckEmail,
    /// `git config user.name`: must be set before committing.
    CheckName,
    /// `git commit --allow-empty-message -m ""`
    Commit,
    /// `git push -u origin HEAD`
    Push,
}

/// What the synchronisation does after a git command.
#[derive(PartialEq, Eq, Structural, Clone, Copy, Debug)]
pub enum GitNext {
    /// Run this command next.
    Run(GitStep),
    /// Synchronised.
    Done,
    /// A command failed: the synchronisation stops with an error.
    Failed,
}

/// The step after `step` ran with exit status `success` and an empty or
/// non-empty standard output, when the git identity has (`checked`) or has
/// not been checked yet in this session.
pub open spec fn git_next_spec(step: GitStep, success: bool, stdout_empty: bool, checked: bool) -> GitNext {
    match step {
        GitStep::Pull => if success { GitNext::Run(GitStep::Add) } else { GitNext::Failed },
        GitStep::Add => if success { GitNext::Run(GitStep::DiffCached) } else { GitNext::Failed },
        GitStep::DiffCached => if !success {
            GitNext::Failed
        } else if stdout_empty {
            GitNext::Done
        } else if !checked {
            GitNext::Run(GitStep::CheckEmail)
        } else {
            GitNext::Run(GitStep::Commit)
        },
        GitStep::CheckEmail => if stdout_empty || !success {
            GitNext::Failed
        } else {
            GitNext::Run(GitStep::CheckName)
        },
        GitStep::CheckName => if stdout_empty || !success {
            GitNext::Failed
        } else {
            GitNext::Run(GitStep::Commit)
        },
        GitStep::Commit => if success { GitNext::Run(GitStep::Push) } else { GitNext::Failed },
        GitStep::Push => if success { GitNext::Done } else { GitNext::Failed },
    }
}

/// The arguments git is run with at each step.
pub open spec fn git_args_spec(step: GitStep) -> Seq<Seq<char>> {
    match step {
        GitStep::Pull => seq!["pull"@],
        GitStep::Add => seq!["add"@, "-A"@],
        GitStep::DiffCached => seq!["diff"@, "--cached"@],
        GitStep::CheckEmail => seq!["config"@, "user.email"@],
        GitStep::CheckName => seq!["config"@, "user.name"@],
        GitStep::Commit => seq!["commit"@, "--allow-empty-message"@, "-m"@, ""@],
        GitStep::Push => seq!["push"@, "-u"@, "origin"@, "HEAD"@],
    }
}

/// The arguments of a git step.
pub fn git_args(step: GitStep) -> (r: Vec<String>)
    ensures
        crate::text::views_of(r@) == git_args_spec(step),
{
    let mut v: Vec<String> = Vec::new();
    match step {
        GitStep::Pull => {
            v.push(crate::text::owned("pull"));
        },
        GitStep::Add => {
            v.push(crate::text::owned("add"));
            v.push(crate::text::owned("-A"));
        },
        GitStep::DiffCached => {
            v.push(crate::text::owned("diff"));
            v.push(crate::text::owned("--cached"));
        },
        GitStep::CheckEmail => {
            v.push(crate::text::owned("config"));
            v.push(crate::text::owned("user.email"));
        },
        GitStep::CheckName => {
            v.push(crate::text::owned("config"));
            v.push(crate::text::owned("user.name"));
        },
        GitStep::Commit => {
            v.push(crate::text::owned("commit"));
            v.push(crate::text::owned("--allow-empty-message"));
            v.push(crate::text::owned("-m"));
            v.push(crate::text::owned(""));
        },
        GitStep::Push => {
            v.push(crate::text::owned("push"));
            v.push(crate::text::owned("-u"));
            v.push(crate::text::owned("origin"));
            v.push(crate::text::owned("HEAD"));
        },
    }
    assert(crate::text::views_of(v@) =~= git_args_spec(step));
    v
}

impl CtxDef {
    /// The next step of the synchronisation, after `step` ran with exit
    /// status `success` and an empty or non-empty standard output. The git
    /// identity is checked once per session, before the first commit.
    pub fn git_next(&mut self, step: GitStep, success: bool, stdout_empty: bool) -> (r: GitNext)
        ensures
            r == git_next_spec(step, success, stdout_empty, old(self).already_checked_git_email_n_name),
            final(self).already_checked_git_email_n_name == (old(self).already_checked_git_email_n_name
                || r == GitNext::Run(GitStep::CheckEmail)),
            final(self).filter_buf == old(self).filter_buf,
            final(self).chosen_lbl == old(self).chosen_lbl,
    {
        match step {
            GitStep::Pull => if success { GitNext::Run(GitStep::Add) } else { GitNext::Failed },
            GitStep::Add => if success { GitNext::Run(GitStep::DiffCached) } else { GitNext::Failed },
            GitStep::DiffCached => if !success {
                GitNext::Failed
            } else if stdout_empty {
                GitNext::Done
            } else if !self.already_checked_git_email_n_name {
                self.already_checked_git_email_n_name = true;
                GitNext::Run(GitStep::CheckEmail)
            } else {
                GitNext::Run(GitStep::Commit)
            },
            GitStep::CheckEmail => if stdout_empty || !success {
                GitNext::Failed
            } else {
                GitNext::Run(GitStep::CheckName)
            },
            GitStep::CheckName => if stdout_empty || !success {
                GitNext::Failed
            } else {
                GitNext::Run(GitStep::Commit)
            },
            GitStep::Commit => if success { GitNext::Run(GitStep::Push) } else { GitNext::Failed },
            GitStep::Push => if success { GitNext::Done } else { GitNext::Failed },
        }
    }
}

/// A run of git steps that all succeed with non-empty output reaches the
/// push and is done: pull, add, diff, (the identity checks, once), commit,
/// push.
pub proof fn lemma_git_success_path(checked: bool)
    ensures
        git_next_spec(GitStep::Pull, true, false, checked) == GitNext::Run(GitStep::Add),
        git_next_spec(GitStep::Add, true, false, checked) == GitNext::Run(GitStep::DiffCached),
        git_next_spec(GitStep::DiffCached, true, false, checked) == (if checked {
            GitNext::Run(GitStep::Commit)
        } else {
            GitNext::Run(GitStep::CheckEmail)
        }),
        git_next_spec(GitStep::CheckEmail, true, false, true) == GitNext::Run(GitStep::CheckName),
        git_next_spec(GitStep::CheckName, true, false, true) == GitNext::Run(GitStep::Commit),
        git_next_spec(GitStep::Commit, true, false, true) == GitNext::Run(GitStep::Push),
        git_next_spec(GitStep::Push, true, false, true) == GitNext::Done,
        forall|s: GitStep, e: bool, c: bool| #[trigger] git_next_spec(s, false, e, c) == GitNext::Failed,
{
}

} // verus!
