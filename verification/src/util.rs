//! The info files: how file records are spread over numbered JSON files,
//! how their path entries are written and read, and the text forms of
//! hashes and times.
use vstd::prelude::*;
use std::collections::BTreeSet;
use std::collections::HashSet;
use vstd::std_specs::iter::IteratorSpec;
use vstd::std_specs::cmp::OrdSpec;
use base64::Engine;
use chrono::TimeZone;
use crate::text::{owned, sort_strings, strings_sorted, views_of};

verus! {

broadcast use {
    vstd::std_specs::hash::group_hash_axioms,
    vstd::std_specs::btree::group_btree_axioms,
    vstd::laws_cmp::group_laws_cmp,
};

/// The most records one info file holds.
pub const MAX_NUM_OF_ELEMS_IN_ONE_INFO_T: usize = 32;

/// A value in a path entry of an info record: a string, an integer that
/// fits in `i64`, or anything else JSON can hold.
#[derive(Debug)]
pub enum PfValue {
    Str(String),
    Int(i64),
    Other,
}

/// One file record as it is stored in an info file.
#[derive(Debug)]
pub struct InfoJsonElem {
    pub tmpid: i64,
    /// Hashes of earlier contents at the same path.
    pub old: Vec<String>,
    /// Where copies live: entfo id, path below the entfo, and (when it
    /// differs from `mtime`) the copy's modification time.
    pub pf: Vec<Vec<PfValue>>,
    pub lbls: Vec<String>,
    pub desc: String,
    pub size: i64,
    pub mtime: i64,
    pub hash: String,
    pub old_filename: String,
    pub download_url: String,
    pub archive_filename: String,
    pub copyright: String,
}

/// What goes wrong when reading info records.
#[derive(PartialEq, Eq, Structural, Debug)]
pub enum InfoError {
    /// A path entry is not an entfo id, a path and an optional time.
    InvalidPf,
    /// A stored hash is not valid base64.
    BadHashText,
}

/// The view of a path entry value: kind (0 string, 1 integer, 2 other),
/// string and integer.
pub open spec fn pf_value_view(v: PfValue) -> (u8, Seq<char>, i64) {
    match v {
        PfValue::Str(s) => (0u8, s@, 0i64),
        PfValue::Int(i) => (1u8, Seq::empty(), i),
        PfValue::Other => (2u8, Seq::empty(), 0i64),
    }
}

/// The views of a path entry.
pub open spec fn pf_view(v: Seq<PfValue>) -> Seq<(u8, Seq<char>, i64)> {
    v.map_values(|x: PfValue| pf_value_view(x))
}

/// What a path entry means: the entfo id and path (both strings) and the
/// copy's time, which is the third value when there is one (it must then be
/// an integer) and the record's time otherwise.
pub open spec fn parse_pf_spec(v: Seq<(u8, Seq<char>, i64)>, default_mtime: i64) -> Option<(Seq<char>, Seq<char>, i64)> {
    if v.len() < 2 || v[0].0 != 0 || v[1].0 != 0 {
        None
    } else if v.len() == 2 {
        Some((v[0].1, v[1].1, default_mtime))
    } else if v[2].0 == 1 {
        Some((v[0].1, v[1].1, v[2].2))
    } else {
        None
    }
}

/// Reads a path entry of a record whose time is `default_mtime`.
pub fn parse_pf(v: &Vec<PfValue>, default_mtime: i64) -> (r: Result<(String, String, i64), InfoError>)
    ensures
        match r {
            Ok((rid, rel, ms)) => parse_pf_spec(pf_view(v@), default_mtime) == Some((rid@, rel@, ms)),
            Err(e) => e == InfoError::InvalidPf && parse_pf_spec(pf_view(v@), default_mtime) is None,
        },
{
    if v.len() < 2 {
        return Err(InfoError::InvalidPf);
    }
    assert(pf_view(v@)[0] == pf_value_view(v@[0]));
    assert(pf_view(v@)[1] == pf_value_view(v@[1]));
    let rid = match &v[0] {
        PfValue::Str(s) => crate::text::owned(s.as_str()),
        _ => {
            return Err(InfoError::InvalidPf);
        },
    };
    let rel = match &v[1] {
        PfValue::Str(s) => crate::text::owned(s.as_str()),
        _ => {
            return Err(InfoError::InvalidPf);
        },
    };
    if v.len() == 2 {
        return Ok((rid, rel, default_mtime));
    }
    assert(pf_view(v@)[2] == pf_value_view(v@[2]));
    match &v[2] {
        PfValue::Int(i) => Ok((rid, rel, *i)),
        _ => Err(InfoError::InvalidPf),
    }
}

/// The path entry written for a copy at `rel` in entfo `entfo` whose time
/// is `ms`, in a record whose time is `elem_mtime`: the time is left out
/// when it is the record's.
pub open spec fn make_pf_spec(entfo: Seq<char>, rel: Seq<char>, ms: i64, elem_mtime: i64) -> Seq<(u8, Seq<char>, i64)> {
    if ms == elem_mtime {
        seq![(0u8, entfo, 0i64), (0u8, rel, 0i64)]
    } else {
        seq![(0u8, entfo, 0i64), (0u8, rel, 0i64), (1u8, Seq::empty(), ms)]
    }
}

/// Builds the path entry of a copy.
pub fn make_pf(entfo: &str, rel: &str, ms: i64, elem_mtime: i64) -> (r: Vec<PfValue>)
    ensures
        pf_view(r@) == make_pf_spec(entfo@, rel@, ms, elem_mtime),
{
    let mut r: Vec<PfValue> = Vec::new();
    r.push(PfValue::Str(crate::text::owned(entfo)));
    r.push(PfValue::Str(crate::text::owned(rel)));
    if ms != elem_mtime {
        r.push(PfValue::Int(ms));
    }
    assert(pf_view(r@) =~= make_pf_spec(entfo@, rel@, ms, elem_mtime));
    r
}

/// A path entry written for a copy reads back as that copy: entfo, path and
/// time.
pub proof fn lemma_pf_roundtrip(entfo: Seq<char>, rel: Seq<char>, ms: i64, elem_mtime: i64)
    ensures
        parse_pf_spec(make_pf_spec(entfo, rel, ms, elem_mtime), elem_mtime) == Some((entfo, rel, ms)),
{
}

// ---------------------------------------------------------------------------
// Numbered info files.
/// The numbering of info files: `t_idx` is the next unused number, and
/// `spacious_t` the numbers of files that have room for more records.
#[derive(Debug)]
pub struct TIdx {
    pub t_idx: u32,
    pub spacious_t: BTreeSet<u32>,
}

impl TIdx {
    /// Every file with room has a number below the next unused one.
    pub open spec fn wf(&self) -> bool {
        forall|x: u32| self.spacious_t@.contains(x) ==> x < self.t_idx
    }

    /// Every file with room has a number no higher than the current one
    /// (while the files are read, the current file may have room).
    pub open spec fn wf_through(&self) -> bool {
        forall|x: u32| self.spacious_t@.contains(x) ==> x <= self.t_idx
    }

    /// No info file yet.
    pub fn new() -> (r: TIdx)
        ensures
            r.t_idx == 0,
            r.spacious_t@ == Set::<u32>::empty(),
            r.wf(),
    {
        TIdx { t_idx: 0, spacious_t: BTreeSet::new() }
    }

    /// Opens a new, empty info file and returns its number.
    pub fn new_space(&mut self) -> (r: u32)
        requires
            old(self).t_idx < u32::MAX,
        ensures
            r == old(self).t_idx,
            final(self).t_idx == old(self).t_idx + 1,
            final(self).spacious_t@ == old(self).spacious_t@.insert(r),
            old(self).wf() ==> final(self).wf(),
    {
        let retval: u32 = self.t_idx;
        self.spacious_t.insert(retval);
        self.t_idx = self.t_idx + 1;
        retval
    }

    /// The next unused number, as stored in the database.
    pub fn t_idx_i64(&self) -> (r: i64)
        ensures
            r == self.t_idx as int,
    {
        self.t_idx as i64
    }

    /// Moves on to the next info file while reading them.
    pub fn advance(&mut self)
        requires
            old(self).t_idx < u32::MAX,
        ensures
            final(self).t_idx == old(self).t_idx + 1,
            final(self).spacious_t@ == old(self).spacious_t@,
            old(self).wf_through() ==> final(self).wf(),
    {
        self.t_idx = self.t_idx + 1;
    }

    /// Notes that the info file numbered `t_idx` was read and held `len`
    /// records: it has room when it holds fewer than the maximum.
    pub fn note_treefile(&mut self, len: usize)
        ensures
            final(self).t_idx == old(self).t_idx,
            final(self).spacious_t@ == if len < MAX_NUM_OF_ELEMS_IN_ONE_INFO_T {
                old(self).spacious_t@.insert(old(self).t_idx)
            } else {
                old(self).spacious_t@
            },
            old(self).wf() ==> final(self).wf_through(),
    {
        if len < MAX_NUM_OF_ELEMS_IN_ONE_INFO_T {
            self.spacious_t.insert(self.t_idx);
        }
    }
}


/// Strictly ascending numbers.
pub open spec fn ascending(s: Seq<u32>) -> bool {
    forall|i: int, j: int| 0 <= i < j < s.len() ==> s[i] < s[j]
}

proof fn lemma_increasing_meaning<K: Ord>(s: Seq<K>)
    requires
        vstd::std_specs::btree::increasing_seq(s),
        vstd::laws_cmp::obeys_cmp::<K>(),
    ensures
        forall|i: int, j: int| #![trigger s[i], s[j]] 0 <= i < j < s.len() ==> s[i].cmp_spec(&s[j]) is Less,
{
    vstd::std_specs::btree::axiom_increasing_seq_meaning(s);
}

proof fn lemma_increasing_refs(s: Seq<&u32>)
    requires
        vstd::std_specs::btree::increasing_seq(s),
    ensures
        forall|i: int, j: int| #![trigger s[i], s[j]] 0 <= i < j < s.len() ==> *s[i] < *s[j],
{
    assert(vstd::laws_cmp::obeys_cmp::<u32>());
    assert(vstd::laws_cmp::obeys_cmp::<&u32>());
    lemma_increasing_meaning(s);
}

impl TIdx {
    /// The numbers of the files with room, in ascending order.
    pub fn spacious_list(&self) -> (r: Vec<u32>)
        ensures
            ascending(r@),
            r@.to_set() == self.spacious_t@,
    {
        let mut asc: Vec<u32> = Vec::new();
        for x in it: self.spacious_t.iter()
            invariant
                asc@ == it.seq().take(it.index() as int).map_values(|r: &u32| *r),
        {
            asc.push(*x);
        }
        proof {
            let s = vstd::std_specs::btree::spec_btree_keys_iter(&self.spacious_t).remaining();
            assert(asc@ =~= s.map_values(|r: &u32| *r));
            assert(s.unref() =~= s.map_values(|r: &u32| *r));
            lemma_increasing_refs(s);
        }
        asc
    }

    /// Whether every file with room has a number below the next unused
    /// one.
    pub fn is_wf(&self) -> (r: bool)
        ensures
            r == self.wf(),
    {
        let asc = self.spacious_list();
        if asc.len() == 0 {
            proof {
                assert forall|x: u32| self.spacious_t@.contains(x) implies x < self.t_idx by {
                    assert(asc@.to_set().contains(x));
                }
            }
            return true;
        }
        let last = asc[asc.len() - 1];
        proof {
            assert(asc@.contains(last));
            assert(asc@.to_set().contains(last));
            assert forall|x: u32| self.spacious_t@.contains(x) implies x <= last by {
                assert(asc@.to_set().contains(x));
                let j = choose|j: int| 0 <= j < asc@.len() && asc@[j] == x;
                if j < asc@.len() - 1 {
                    assert(asc@[j] < asc@[asc@.len() - 1]);
                }
            }
        }
        last < self.t_idx
    }
}

// ---------------------------------------------------------------------------
// Where new records are written.

/// The state of the files with room while new records are placed: their
/// numbers in ascending order, the room left in each, and the next unused
/// file number.
pub open spec fn room_state_ok(st: (Seq<u32>, Seq<u32>, u32)) -> bool {
    &&& ascending(st.0)
    &&& st.0.len() == st.1.len()
    &&& forall|i: int| 0 <= i < st.1.len() ==> 1 <= #[trigger] st.1[i] <= MAX_NUM_OF_ELEMS_IN_ONE_INFO_T
    &&& forall|i: int| 0 <= i < st.0.len() ==> #[trigger] st.0[i] < st.2
}

/// The room left in files holding `counts` records.
pub open spec fn room_from_counts(counts: Seq<u32>) -> Seq<u32> {
    counts.map_values(|c: u32| (MAX_NUM_OF_ELEMS_IN_ONE_INFO_T - c) as u32)
}

/// Placing one new record: it goes into the file with room that has the
/// highest number, which leaves the list of files with room when its room
/// runs out; when no file has room, a new file is opened for it. Gives the
/// new state and the record's file.
pub open spec fn assign_step(st: (Seq<u32>, Seq<u32>, u32)) -> ((Seq<u32>, Seq<u32>, u32), u32) {
    if st.1.len() == 0 {
        ((seq![st.2], seq![(MAX_NUM_OF_ELEMS_IN_ONE_INFO_T - 1) as u32], (st.2 + 1) as u32), st.2)
    } else if st.1.last() == 1 {
        ((st.0.drop_last(), st.1.drop_last(), st.2), st.0.last())
    } else {
        ((st.0, st.1.update(st.1.len() - 1, (st.1.last() - 1) as u32), st.2), st.0.last())
    }
}

/// Placing `n` new records one after the other: the final state and the
/// file of each record, in order.
pub open spec fn assign_run(st: (Seq<u32>, Seq<u32>, u32), n: nat) -> ((Seq<u32>, Seq<u32>, u32), Seq<u32>)
    decreases n,
{
    if n == 0 {
        (st, Seq::empty())
    } else {
        let p = assign_run(st, (n - 1) as nat);
        let s = assign_step(p.0);
        (s.0, p.1.push(s.1))
    }
}

/// How many more records the file `f` can take in state `st`: its room if
/// it has some, the whole capacity if it is not opened yet, and nothing
/// otherwise.
pub open spec fn room(st: (Seq<u32>, Seq<u32>, u32), f: u32) -> int {
    if st.0.contains(f) {
        st.1[st.0.index_of(f)] as int
    } else if f >= st.2 {
        MAX_NUM_OF_ELEMS_IN_ONE_INFO_T as int
    } else {
        0
    }
}

/// How often `f` occurs in `s`.
pub open spec fn count_of(s: Seq<u32>, f: u32) -> nat
    decreases s.len(),
{
    if s.len() == 0 {
        0
    } else {
        count_of(s.drop_last(), f) + if s.last() == f {
            1nat
        } else {
            0nat
        }
    }
}

proof fn lemma_index_of_ascending(s: Seq<u32>, i: int)
    requires
        ascending(s),
        0 <= i < s.len(),
    ensures
        s.contains(s[i]),
        s.index_of(s[i]) == i,
{
    assert(s.contains(s[i]));
    let j = s.index_of(s[i]);
    assert(s[j] == s[i]);
    if j < i {
        assert(s[j] < s[i]);
    } else if j > i {
        assert(s[i] < s[j]);
    }
}

proof fn lemma_ascending_drop_last_set(s: Seq<u32>)
    requires
        ascending(s),
        s.len() > 0,
    ensures
        s.drop_last().to_set() == s.to_set().remove(s.last()),
        !s.drop_last().contains(s.last()),
{
    let d = s.drop_last();
    assert forall|x: u32| d.to_set().contains(x) <==> s.to_set().remove(s.last()).contains(x) by {
        if d.contains(x) {
            let i = choose|i: int| 0 <= i < d.len() && d[i] == x;
            assert(s[i] == x);
            assert(s[i] < s[s.len() - 1]);
        }
        if s.contains(x) && x != s.last() {
            let i = choose|i: int| 0 <= i < s.len() && s[i] == x;
            assert(i != s.len() - 1);
            assert(d[i] == x);
        }
    }
    assert(d.to_set() =~= s.to_set().remove(s.last()));
    if d.contains(s.last()) {
        let i = choose|i: int| 0 <= i < d.len() && d[i] == s.last();
        assert(s[i] < s[s.len() - 1]);
    }
}

/// One placement keeps the state sound, and the record's file loses
/// exactly one unit of room while every other file keeps its room.
proof fn lemma_assign_step(st: (Seq<u32>, Seq<u32>, u32), f: u32)
    requires
        room_state_ok(st),
        st.2 < u32::MAX,
    ensures
        room_state_ok(assign_step(st).0),
        room(assign_step(st).0, f) + (if assign_step(st).1 == f {
            1int
        } else {
            0int
        }) == room(st, f),
        assign_step(st).0.2 <= st.2 + 1,
{
    let (asc, space, t) = st;
    let (ns, g) = assign_step(st);
    if space.len() == 0 {
        assert(asc.len() == 0);
        lemma_index_of_ascending(ns.0, 0);
        if f != t {
            assert(!ns.0.contains(f));
        }
        assert(!asc.contains(f));
    } else {
        let k = asc.len() - 1;
        lemma_index_of_ascending(asc, k);
        if space.last() == 1 {
            lemma_ascending_drop_last_set(asc);
            assert(ascending(ns.0));
            if f != asc.last() && asc.contains(f) {
                let i = asc.index_of(f);
                lemma_index_of_ascending(asc, i);
                assert(i != k);
                assert(ns.0[i] == f);
                lemma_index_of_ascending(ns.0, i);
            } else if f != asc.last() {
                if ns.0.contains(f) {
                    let i = choose|i: int| 0 <= i < ns.0.len() && ns.0[i] == f;
                    assert(asc[i] == f);
                }
            }
        } else {
            if f != asc.last() && asc.contains(f) {
                let i = asc.index_of(f);
                lemma_index_of_ascending(asc, i);
                assert(i != k);
            }
        }
    }
}

/// Placing records one by one keeps the state sound, and what each file
/// received plus the room it has left is the room it had.
proof fn lemma_assign_run(st: (Seq<u32>, Seq<u32>, u32), n: nat, f: u32)
    requires
        room_state_ok(st),
        st.2 + n <= u32::MAX,
    ensures
        room_state_ok(assign_run(st, n).0),
        assign_run(st, n).0.2 <= st.2 + n,
        room(assign_run(st, n).0, f) + count_of(assign_run(st, n).1, f) == room(st, f),
        assign_run(st, n).1.len() == n,
    decreases n,
{
    if n > 0 {
        lemma_assign_run(st, (n - 1) as nat, f);
        let p = assign_run(st, (n - 1) as nat);
        lemma_assign_step(p.0, f);
        let out = p.1.push(assign_step(p.0).1);
        assert(out.drop_last() =~= p.1);
    }
}

/// No info file receives more new records than it has room for: a file
/// with room takes at most its room, a file not yet opened at most the
/// capacity of a file, and any other file none.
pub proof fn lemma_assign_respects_room(st: (Seq<u32>, Seq<u32>, u32), n: nat, f: u32)
    requires
        room_state_ok(st),
        st.2 + n <= u32::MAX,
    ensures
        count_of(assign_run(st, n).1, f) <= room(st, f),
{
    lemma_assign_run(st, n, f);
    let e = assign_run(st, n).0;
    if e.0.contains(f) {
        let i = e.0.index_of(f);
        assert(e.1[i] >= 1);
    }
}

impl TIdx {
    /// Places `n` new records (records in no info file yet). `asc` lists
    /// the files with room in ascending order and `counts` how many records
    /// each holds. Gives each record's file, in order; every file that
    /// receives a record is marked as modified (and file 0, which holds
    /// nothing, is unmarked first).
    pub fn assign_new_records(
        &mut self,
        asc: &Vec<u32>,
        counts: &Vec<u32>,
        n: usize,
        modified: &mut HashSet<u32>,
    ) -> (r: Vec<u32>)
        requires
            old(self).wf(),
            ascending(asc@),
            asc@.to_set() == old(self).spacious_t@,
            counts.len() == asc.len(),
            forall|i: int| 0 <= i < counts.len() ==> #[trigger] counts@[i] < MAX_NUM_OF_ELEMS_IN_ONE_INFO_T,
            old(self).t_idx + n <= u32::MAX,
        ensures
            r@ == assign_run((asc@, room_from_counts(counts@), old(self).t_idx), n as nat).1,
            final(self).t_idx == assign_run((asc@, room_from_counts(counts@), old(self).t_idx), n as nat).0.2,
            final(self).spacious_t@ == assign_run(
                (asc@, room_from_counts(counts@), old(self).t_idx),
                n as nat,
            ).0.0.to_set(),
            final(self).wf(),
            final(modified)@ == old(modified)@.remove(0).union(r@.to_set()),
    {
        let ghost st0 = (asc@, room_from_counts(counts@), self.t_idx);
        modified.remove(&0);
        let mut list: Vec<u32> = Vec::new();
        let mut space: Vec<u32> = Vec::new();
        let mut i: usize = 0;
        while i < asc.len()
            invariant
                i <= asc.len(),
                counts.len() == asc.len(),
                forall|j: int| 0 <= j < counts.len() ==> #[trigger] counts@[j] < MAX_NUM_OF_ELEMS_IN_ONE_INFO_T,
                list@ == asc@.take(i as int),
                space@ == room_from_counts(counts@).take(i as int),
            decreases asc.len() - i,
        {
            list.push(asc[i]);
            space.push(32u32 - counts[i]);
            proof {
                assert(list@ =~= asc@.take(i + 1));
                assert(space@ =~= room_from_counts(counts@).take(i + 1));
            }
            i = i + 1;
        }
        assert(list@ =~= asc@);
        assert(space@ =~= room_from_counts(counts@));
        proof {
            assert forall|j: int| 0 <= j < asc@.len() implies #[trigger] asc@[j] < self.t_idx by {
                assert(asc@.contains(asc@[j]));
                assert(asc@.to_set().contains(asc@[j]));
            }
            assert forall|j: int| 0 <= j < st0.1.len() implies 1 <= #[trigger] st0.1[j] <= MAX_NUM_OF_ELEMS_IN_ONE_INFO_T by {
                assert(st0.1[j] == (MAX_NUM_OF_ELEMS_IN_ONE_INFO_T - counts@[j]) as u32);
            }
        }
        assert(room_state_ok(st0));
        let mut out: Vec<u32> = Vec::new();
        let ghost m0 = modified@;
        let mut k: usize = 0;
        while k < n
            invariant
                k <= n,
                room_state_ok(st0),
                st0.2 + n <= u32::MAX,
                (list@, space@, self.t_idx) == assign_run(st0, k as nat).0,
                out@ == assign_run(st0, k as nat).1,
                self.spacious_t@ == list@.to_set(),
                m0 == old(modified)@.remove(0),
                modified@ == m0.union(out@.to_set()),
            decreases n - k,
        {
            proof {
                lemma_assign_run(st0, k as nat, 0);
            }
            let ghost before = (list@, space@, self.t_idx);
            let f: u32;
            if space.len() == 0 {
                assert(list@.len() == 0);
                assert(self.spacious_t@ =~= Set::<u32>::empty());
                f = self.new_space();
                list.push(f);
                space.push(31u32);
                proof {
                    assert forall|x: u32| list@.to_set().contains(x) <==> x == f by {
                        assert(list@[0] == f);
                        if list@.contains(x) {
                            let j = choose|j: int| 0 <= j < list@.len() && list@[j] == x;
                        }
                    }
                    assert(self.spacious_t@ =~= list@.to_set());
                }
            } else {
                let last = space.len() - 1;
                f = list[last];
                if space[last] == 1 {
                    proof {
                        lemma_ascending_drop_last_set(list@);
                    }
                    space.pop();
                    list.pop();
                    self.spacious_t.remove(&f);
                } else {
                    let v = space[last];
                    space.set(last, v - 1);
                }
            }
            assert((list@, space@, self.t_idx) == assign_step(before).0);
            let ghost prev_out = out@;
            out.push(f);
            modified.insert(f);
            proof {
                assert forall|x: u32| out@.to_set().contains(x) <==> prev_out.to_set().insert(f).contains(x) by {
                    assert(out@[prev_out.len() as int] == f);
                    if out@.contains(x) {
                        let j = choose|j: int| 0 <= j < out@.len() && out@[j] == x;
                        if j < prev_out.len() {
                            assert(prev_out[j] == x);
                        }
                    }
                    if prev_out.contains(x) {
                        let j = choose|j: int| 0 <= j < prev_out.len() && prev_out[j] == x;
                        assert(out@[j] == x);
                    }
                }
                assert(out@.to_set() =~= prev_out.to_set().insert(f));
                assert(modified@ =~= m0.union(out@.to_set()));
            }
            k = k + 1;
        }
        proof {
            lemma_assign_run(st0, n as nat, 0);
            let e = assign_run(st0, n as nat).0;
            assert forall|x: u32| self.spacious_t@.contains(x) implies x < self.t_idx by {
                let j = choose|j: int| 0 <= j < e.0.len() && e.0[j] == x;
            }
        }
        out
    }
}

// ---------------------------------------------------------------------------
// Text forms of hashes and times.

/// The symbol of the standard base64 alphabet for a six-bit value:
/// `A`-`Z`, `a`-`z`, `0`-`9`, `+`, `/`.
pub open spec fn base64_symbol(v: int) -> char {
    if v < 26 {
        (65 + v) as char
    } else if v < 52 {
        (97 + v - 26) as char
    } else if v < 62 {
        (48 + v - 52) as char
    } else if v == 62 {
        '+'
    } else {
        '/'
    }
}

/// Standard base64 without padding: each group of three bytes becomes four
/// symbols of six bits each, most significant first; a last group of one
/// byte becomes two symbols and one of two bytes three, the missing low
/// bits being zero.
pub open spec fn base64_text(bytes: Seq<u8>) -> Seq<char>
    decreases bytes.len(),
{
    if bytes.len() == 0 {
        Seq::empty()
    } else if bytes.len() == 1 {
        let b0 = bytes[0] as int;
        seq![base64_symbol(b0 / 4), base64_symbol((b0 % 4) * 16)]
    } else if bytes.len() == 2 {
        let b0 = bytes[0] as int;
        let b1 = bytes[1] as int;
        seq![base64_symbol(b0 / 4), base64_symbol((b0 % 4) * 16 + b1 / 16), base64_symbol((b1 % 16) * 4)]
    } else {
        let b0 = bytes[0] as int;
        let b1 = bytes[1] as int;
        let b2 = bytes[2] as int;
        seq![
            base64_symbol(b0 / 4),
            base64_symbol((b0 % 4) * 16 + b1 / 16),
            base64_symbol((b1 % 16) * 4 + b2 / 64),
            base64_symbol(b2 % 64),
        ] + base64_text(bytes.subrange(3, bytes.len() as int))
    }
}

/// The bytes that standard unpadded base64 `text` stands for: those whose
/// text it is, or nothing when it is no such text (a symbol outside the
/// alphabet, padding, a length that no bytes give, or low bits left set in
/// the last symbol).
pub open spec fn base64_decoded(text: Seq<char>) -> Option<Seq<u8>> {
    if exists|h: Seq<u8>| #[trigger] base64_text(h) == text {
        Some(choose|h: Seq<u8>| #[trigger] base64_text(h) == text)
    } else {
        None
    }
}

/// The length of the text for `n` bytes.
pub open spec fn base64_len(n: nat) -> nat {
    4 * (n / 3) + if n % 3 == 0 {
        0
    } else {
        n % 3 + 1
    }
}

proof fn lemma_base64_len(b: Seq<u8>)
    ensures
        base64_text(b).len() == base64_len(b.len()),
    decreases b.len(),
{
    if b.len() >= 3 {
        lemma_base64_len(b.subrange(3, b.len() as int));
    }
}

proof fn lemma_base64_symbol_injective(v: int, w: int)
    requires
        0 <= v < 64,
        0 <= w < 64,
        base64_symbol(v) == base64_symbol(w),
    ensures
        v == w,
{
}

proof fn lemma_base64_group(b0: u8, b1: u8, b2: u8, c0: u8, c1: u8, c2: u8)
    requires
        b0 / 4 == c0 / 4,
        (b0 % 4) * 16 + b1 / 16 == (c0 % 4) * 16 + c1 / 16,
        (b1 % 16) * 4 + b2 / 64 == (c1 % 16) * 4 + c2 / 64,
        b2 % 64 == c2 % 64,
    ensures
        b0 == c0 && b1 == c1 && b2 == c2,
{
    assert(b0 / 4 == c0 / 4 && (b0 % 4) * 16 + b1 / 16 == (c0 % 4) * 16 + c1 / 16 && (b1 % 16) * 4 + b2 / 64
        == (c1 % 16) * 4 + c2 / 64 && b2 % 64 == c2 % 64 ==> b0 == c0 && b1 == c1 && b2 == c2) by (bit_vector);
}

/// Different bytes have different texts.
pub proof fn lemma_base64_text_injective(a: Seq<u8>, b: Seq<u8>)
    requires
        base64_text(a) == base64_text(b),
    ensures
        a == b,
    decreases a.len(),
{
    lemma_base64_len(a);
    lemma_base64_len(b);
    assert(a.len() == b.len()) by {
        if a.len() < b.len() {
            assert(base64_len(a.len()) < base64_len(b.len())) by (nonlinear_arith)
                requires
                    a.len() < b.len(),
            {
            }
        }
        if b.len() < a.len() {
            assert(base64_len(b.len()) < base64_len(a.len())) by (nonlinear_arith)
                requires
                    b.len() < a.len(),
            {
            }
        }
    }
    let ta = base64_text(a);
    if a.len() == 0 {
        assert(a =~= b);
    } else if a.len() == 1 {
        lemma_base64_symbol_injective(a[0] as int / 4, b[0] as int / 4);
        lemma_base64_symbol_injective((a[0] as int % 4) * 16, (b[0] as int % 4) * 16);
        lemma_base64_group(a[0], 0, 0, b[0], 0, 0);
        assert(a =~= b);
    } else if a.len() == 2 {
        lemma_base64_symbol_injective(a[0] as int / 4, b[0] as int / 4);
        lemma_base64_symbol_injective((a[0] as int % 4) * 16 + a[1] as int / 16, (b[0] as int % 4) * 16 + b[1] as int / 16);
        lemma_base64_symbol_injective((a[1] as int % 16) * 4, (b[1] as int % 16) * 4);
        lemma_base64_group(a[0], a[1], 0, b[0], b[1], 0);
        assert(a =~= b);
    } else {
        assert(ta[0] == base64_text(b)[0]);
        assert(ta[1] == base64_text(b)[1]);
        assert(ta[2] == base64_text(b)[2]);
        assert(ta[3] == base64_text(b)[3]);
        lemma_base64_symbol_injective(a[0] as int / 4, b[0] as int / 4);
        lemma_base64_symbol_injective((a[0] as int % 4) * 16 + a[1] as int / 16, (b[0] as int % 4) * 16 + b[1] as int / 16);
        lemma_base64_symbol_injective((a[1] as int % 16) * 4 + a[2] as int / 64, (b[1] as int % 16) * 4 + b[2] as int / 64);
        lemma_base64_symbol_injective(a[2] as int % 64, b[2] as int % 64);
        lemma_base64_group(a[0], a[1], a[2], b[0], b[1], b[2]);
        let ra = a.subrange(3, a.len() as int);
        let rb = b.subrange(3, b.len() as int);
        assert(base64_text(ra) =~= ta.subrange(4, ta.len() as int));
        assert(base64_text(rb) =~= base64_text(b).subrange(4, ta.len() as int));
        lemma_base64_text_injective(ra, rb);
        assert forall|i: int| 0 <= i < a.len() implies a[i] == b[i] by {
            if i >= 3 {
                assert(a[i] == ra[i - 3]);
                assert(b[i] == rb[i - 3]);
            }
        }
        assert(a =~= b);
    }
}

/// The text written for `h` reads back as `h`.
pub proof fn lemma_base64_round_trip(h: Seq<u8>)
    ensures
        base64_decoded(base64_text(h)) == Some(h),
{
    let t = base64_text(h);
    assert(exists|g: Seq<u8>| #[trigger] base64_text(g) == t);
    let g = choose|g: Seq<u8>| #[trigger] base64_text(g) == t;
    lemma_base64_text_injective(g, h);
}

/// The error type of `base64` decoding.
#[verifier::external_type_specification]
#[verifier::external_body]
pub struct ExDecodeError(base64::DecodeError);

/// Calls `base64::engine::general_purpose::STANDARD_NO_PAD.encode`: the
/// base64 text of the bytes (standard alphabet, no padding), as
/// `base64_text` spells it out. The length
/// bound keeps the engine's size computation from overflowing.
#[verifier::external_body]
fn b64_encode(data: &[u8]) -> (r: String)
    requires
        data.len() < usize::MAX / 2,
    ensures
        r@ == base64_text(data@),
{
    base64::engine::general_purpose::STANDARD_NO_PAD.encode(data)
}

/// Calls `base64::engine::general_purpose::STANDARD_NO_PAD.decode`: the
/// bytes the text stands for. The engine refuses padding, symbols outside
/// the alphabet, a length of one symbol past a group, and low bits left set
/// in the last symbol, so it succeeds exactly on the texts that its encoder
/// writes, as `base64_decoded` states.
#[verifier::external_body]
fn b64_decode(text: &str) -> (r: Result<Vec<u8>, base64::DecodeError>)
    ensures
        r is Ok <==> base64_decoded(text@) is Some,
        r is Ok ==> base64_decoded(text@) == Some(r->Ok_0@),
{
    base64::engine::general_purpose::STANDARD_NO_PAD.decode(text)
}

/// The text under which an info file stores a hash.
pub fn hash_to_base64(input: &[u8]) -> (r: String)
    requires
        input.len() < usize::MAX / 2,
    ensures
        r@ == base64_text(input@),
        base64_decoded(r@) == Some(input@),
{
    proof {
        lemma_base64_round_trip(input@);
    }
    b64_encode(input)
}

/// Reads a hash stored in an info file. Text written by `hash_to_base64`
/// reads back as the hash it was written for.
pub fn base64_to_hash(input: &str) -> (r: Result<Vec<u8>, InfoError>)
    ensures
        match r {
            Ok(v) => base64_decoded(input@) == Some(v@),
            Err(e) => e == InfoError::BadHashText && base64_decoded(input@) is None,
        },
        forall|h: Seq<u8>| base64_text(h) == input@ ==> (r matches Ok(v) && v@ == h),
{
    proof {
        assert forall|h: Seq<u8>| base64_text(h) == input@ implies base64_decoded(input@) == Some(h) by {
            lemma_base64_round_trip(h);
        }
    }
    match b64_decode(input) {
        Ok(v) => Ok(v),
        Err(_) => Err(InfoError::BadHashText),
    }
}

/// How `chrono` shows the UTC time `ms` milliseconds after the Unix epoch
/// (`NaiveDateTime::from_timestamp_millis`, then `Utc.from_utc_datetime`
/// and `to_string`), or nothing when `ms` is out of chrono's range.
pub uninterp spec fn utc_text(ms: i64) -> Option<Seq<char>>;

/// Calls `chrono::NaiveDateTime::from_timestamp_millis`, and for a time in
/// range `chrono::Utc.from_utc_datetime` and `to_string` on the result.
#[verifier::external_body]
#[allow(deprecated)]
fn utc_display(ms: i64) -> (r: Option<String>)
    ensures
        match r {
            Some(t) => utc_text(ms) == Some(t@),
            None => utc_text(ms) is None,
        },
{
    match chrono::NaiveDateTime::from_timestamp_millis(ms) {
        None => None,
        Some(n) => Some(chrono::Utc.from_utc_datetime(&n).to_string()),
    }
}

/// The text shown for a time whose rendering is `t`.
pub open spec fn time_text(t: Option<Seq<char>>) -> Seq<char> {
    match t {
        Some(s) => s,
        None => "FAILED TO CONV MS TO STR"@,
    }
}

/// The text shown for a rendering of a time: the rendering itself, or a
/// failure notice when the time could not be rendered.
pub fn shown_time(t: Option<String>) -> (r: String)
    ensures
        r@ == time_text(match t {
            Some(s) => Some(s@),
            None => None,
        }),
{
    match t {
        Some(s) => s,
        None => owned("FAILED TO CONV MS TO STR"),
    }
}

/// A time in milliseconds since the Unix epoch as it is shown.
pub fn millis2display(ms: i64) -> (r: String)
    ensures
        r@ == time_text(utc_text(ms)),
{
    shown_time(utc_display(ms))
}

// ---------------------------------------------------------------------------
// Ids and modified info files.

/// The id for a new file: one more than the highest id in use, or 1 when
/// there is none.
pub fn next_tmpid(max_in_use: Option<i64>) -> (r: i64)
    requires
        match max_in_use {
            Some(m) => m < i64::MAX,
            None => true,
        },
    ensures
        r == match max_in_use {
            Some(m) => m + 1,
            None => 1,
        },
{
    match max_in_use {
        Some(m) => m + 1,
        None => 1,
    }
}

/// The info file numbers of `tidxs` as they are kept.
pub open spec fn tidx_numbers(tidxs: Seq<i64>) -> Set<u32> {
    tidxs.map_values(|t: i64| t as u32).to_set()
}

/// Marks the info files numbered `tidxs` (as the database holds them) as
/// modified.
pub fn tidx_touch(modified: &mut HashSet<u32>, tidxs: &Vec<i64>)
    ensures
        final(modified)@ == old(modified)@.union(tidx_numbers(tidxs@)),
{
    let mut i: usize = 0;
    while i < tidxs.len()
        invariant
            i <= tidxs.len(),
            modified@ == old(modified)@.union(tidx_numbers(tidxs@.take(i as int))),
        decreases tidxs.len() - i,
    {
        let t = tidxs[i];
        modified.insert(t as u32);
        proof {
            let a = tidxs@.take(i as int).map_values(|t: i64| t as u32);
            let b = tidxs@.take(i + 1).map_values(|t: i64| t as u32);
            assert(b =~= a.push(t as u32));
            assert forall|x: u32| b.to_set().contains(x) <==> a.to_set().insert(t as u32).contains(x) by {
                if b.contains(x) {
                    let j = choose|j: int| 0 <= j < b.len() && b[j] == x;
                    if j < a.len() {
                        assert(a[j] == x);
                    }
                }
                if a.contains(x) {
                    let j = choose|j: int| 0 <= j < a.len() && a[j] == x;
                    assert(b[j] == x);
                }
                assert(b[i as int] == t as u32);
            }
            assert(b.to_set() =~= a.to_set().insert(t as u32));
            assert(modified@ =~= old(modified)@.union(tidx_numbers(tidxs@.take(i + 1))));
        }
        i = i + 1;
    }
    assert(tidxs@.take(tidxs.len() as int) =~= tidxs@);
}

// ---------------------------------------------------------------------------
// Records as they are written and read.

/// A file as the database holds it.
pub struct FileRow {
    pub tmpid: i64,
    pub size: i64,
    pub mtime: i64,
    pub hash: Vec<u8>,
    pub desc: String,
    pub old_filename: String,
    pub download_url: String,
    pub archive_filename: String,
    pub copyright: String,
}

/// The views of copies: entfo id, path below it, and time.
pub open spec fn copies_view(v: Seq<(String, String, i64)>) -> Seq<(Seq<char>, Seq<char>, i64)> {
    v.map_values(|c: (String, String, i64)| (c.0@, c.1@, c.2))
}

/// The base64 texts of hashes.
pub open spec fn hash_texts(v: Seq<Vec<u8>>) -> Seq<Seq<char>> {
    v.map_values(|h: Vec<u8>| base64_text(h@))
}

/// The path entries written for copies of a file whose time is `mtime`.
pub open spec fn pf_entries(copies: Seq<(Seq<char>, Seq<char>, i64)>, mtime: i64) -> Seq<Seq<(u8, Seq<char>, i64)>> {
    copies.map_values(|c: (Seq<char>, Seq<char>, i64)| make_pf_spec(c.0, c.1, c.2, mtime))
}

/// The views of the path entries of a record.
pub open spec fn pfs_view(v: Seq<Vec<PfValue>>) -> Seq<Seq<(u8, Seq<char>, i64)>> {
    v.map_values(|e: Vec<PfValue>| pf_view(e@))
}

/// The record written to an info file for a file: its fields, its hash as
/// text, the hashes of earlier contents as text in ascending order, a path
/// entry per copy (`copies`: entfo id, path and time, in order) and its
/// labels.
pub fn build_info_elem(
    row: FileRow,
    old_hashes: &Vec<Vec<u8>>,
    copies: &Vec<(String, String, i64)>,
    lbls: Vec<String>,
) -> (r: InfoJsonElem)
    requires
        row.hash.len() < usize::MAX / 2,
        forall|i: int| 0 <= i < old_hashes.len() ==> #[trigger] old_hashes@[i].len() < usize::MAX / 2,
    ensures
        r.tmpid == row.tmpid,
        r.size == row.size,
        r.mtime == row.mtime,
        r.hash@ == base64_text(row.hash@),
        base64_decoded(r.hash@) == Some(row.hash@),
        r.desc == row.desc,
        r.old_filename == row.old_filename,
        r.download_url == row.download_url,
        r.archive_filename == row.archive_filename,
        r.copyright == row.copyright,
        strings_sorted(views_of(r.old@)),
        views_of(r.old@).to_multiset() == hash_texts(old_hashes@).to_multiset(),
        pfs_view(r.pf@) == pf_entries(copies_view(copies@), row.mtime),
        r.lbls == lbls,
{
    let hash = hash_to_base64(row.hash.as_slice());
    let mut old: Vec<String> = Vec::new();
    let mut i: usize = 0;
    while i < old_hashes.len()
        invariant
            i <= old_hashes.len(),
            forall|j: int| 0 <= j < old_hashes.len() ==> #[trigger] old_hashes@[j].len() < usize::MAX / 2,
            views_of(old@) == hash_texts(old_hashes@).take(i as int),
        decreases old_hashes.len() - i,
    {
        assert(old_hashes@[i as int].len() < usize::MAX / 2);
        let t = hash_to_base64(old_hashes[i].as_slice());
        let ghost ov = views_of(old@);
        old.push(t);
        assert(views_of(old@) =~= ov.push(base64_text(old_hashes@[i as int]@)));
        assert(hash_texts(old_hashes@).take(i + 1) =~= hash_texts(old_hashes@).take(i as int).push(
            base64_text(old_hashes@[i as int]@),
        ));
        i = i + 1;
    }
    assert(hash_texts(old_hashes@).take(old_hashes.len() as int) =~= hash_texts(old_hashes@));
    sort_strings(&mut old);
    let mut pf: Vec<Vec<PfValue>> = Vec::new();
    let mut k: usize = 0;
    while k < copies.len()
        invariant
            k <= copies.len(),
            pfs_view(pf@) == pf_entries(copies_view(copies@), row.mtime).take(k as int),
        decreases copies.len() - k,
    {
        let c = &copies[k];
        let e = make_pf(c.0.as_str(), c.1.as_str(), c.2, row.mtime);
        let ghost pv = pfs_view(pf@);
        pf.push(e);
        assert(pfs_view(pf@) =~= pv.push(make_pf_spec(copies@[k as int].0@, copies@[k as int].1@, copies@[k as int].2, row.mtime)));
        assert(pf_entries(copies_view(copies@), row.mtime).take(k + 1) =~= pf_entries(
            copies_view(copies@),
            row.mtime,
        ).take(k as int).push(make_pf_spec(copies@[k as int].0@, copies@[k as int].1@, copies@[k as int].2, row.mtime)));
        k = k + 1;
    }
    assert(pf_entries(copies_view(copies@), row.mtime).take(copies.len() as int) =~= pf_entries(
        copies_view(copies@),
        row.mtime,
    ));
    InfoJsonElem {
        tmpid: row.tmpid,
        old,
        pf,
        lbls,
        desc: row.desc,
        size: row.size,
        mtime: row.mtime,
        hash,
        old_filename: row.old_filename,
        download_url: row.download_url,
        archive_filename: row.archive_filename,
        copyright: row.copyright,
    }
}

/// The paths of a record's copies as read back: entfo id, path and time.
pub open spec fn pfs_parsed(pfs: Seq<Seq<(u8, Seq<char>, i64)>>, mtime: i64) -> Option<Seq<(Seq<char>, Seq<char>, i64)>>
    decreases pfs.len(),
{
    if pfs.len() == 0 {
        Some(Seq::empty())
    } else {
        match pfs_parsed(pfs.drop_last(), mtime) {
            Some(p) => match parse_pf_spec(pfs.last(), mtime) {
                Some(c) => Some(p.push(c)),
                None => None,
            },
            None => None,
        }
    }
}

/// Reads the path entries of a record whose time is `mtime`: the copies in
/// order, or `InvalidPf` when an entry is malformed.
pub fn parse_pfs(pf: &Vec<Vec<PfValue>>, mtime: i64) -> (r: Result<Vec<(String, String, i64)>, InfoError>)
    ensures
        match r {
            Ok(v) => pfs_parsed(pfs_view(pf@), mtime) == Some(copies_view(v@)),
            Err(e) => e == InfoError::InvalidPf && pfs_parsed(pfs_view(pf@), mtime) is None,
        },
{
    let ghost pv = pfs_view(pf@);
    let mut out: Vec<(String, String, i64)> = Vec::new();
    let mut i: usize = 0;
    while i < pf.len()
        invariant
            i <= pf.len(),
            pv == pfs_view(pf@),
            pfs_parsed(pv.take(i as int), mtime) == Some(copies_view(out@)),
        decreases pf.len() - i,
    {
        let ghost t = pv.take(i + 1);
        assert(t.drop_last() =~= pv.take(i as int));
        assert(t.last() == pf_view(pf@[i as int]@));
        match parse_pf(&pf[i], mtime) {
            Ok(c) => {
                let ghost cv = copies_view(out@);
                out.push(c);
                assert(copies_view(out@) =~= cv.push((c.0@, c.1@, c.2)));
            },
            Err(e) => {
                proof {
                    lemma_pfs_parsed_prefix_none(pv, i + 1, mtime);
                }
                return Err(e);
            },
        }
        i = i + 1;
    }
    assert(pv.take(pf.len() as int) =~= pv);
    Ok(out)
}

/// A record's path entries read back as the copies they were written for,
/// in order, whatever their times.
pub proof fn lemma_pfs_roundtrip(copies: Seq<(Seq<char>, Seq<char>, i64)>, mtime: i64)
    ensures
        pfs_parsed(pf_entries(copies, mtime), mtime) == Some(copies),
    decreases copies.len(),
{
    if copies.len() > 0 {
        let init = copies.drop_last();
        lemma_pfs_roundtrip(init, mtime);
        assert(pf_entries(copies, mtime).drop_last() =~= pf_entries(init, mtime));
        let c = copies.last();
        lemma_pf_roundtrip(c.0, c.1, c.2, mtime);
        assert(init.push(c) =~= copies);
    }
}

/// What `build_info_elem` writes reads back through `base64_to_hash` and
/// `parse_pfs` as what it was written from: each hash text (the file's and
/// those of its earlier contents) decodes to its hash, and the path entries
/// to the copies, in order.
pub proof fn lemma_info_record_reads_back(copies: Seq<(Seq<char>, Seq<char>, i64)>, mtime: i64)
    ensures
        forall|h: Seq<u8>| #[trigger] base64_decoded(base64_text(h)) == Some(h),
        pfs_parsed(pf_entries(copies, mtime), mtime) == Some(copies),
{
    assert forall|h: Seq<u8>| #[trigger] base64_decoded(base64_text(h)) == Some(h) by {
        lemma_base64_round_trip(h);
    }
    lemma_pfs_roundtrip(copies, mtime);
}

proof fn lemma_pfs_parsed_prefix_none(pv: Seq<Seq<(u8, Seq<char>, i64)>>, n: int, mtime: i64)
    requires
        0 <= n <= pv.len(),
        pfs_parsed(pv.take(n), mtime) is None,
    ensures
        pfs_parsed(pv, mtime) is None,
    decreases pv.len() - n,
{
    if n < pv.len() {
        let t = pv.take(n + 1);
        assert(t.drop_last() =~= pv.take(n));
        lemma_pfs_parsed_prefix_none(pv, n + 1, mtime);
    } else {
        assert(pv.take(n) =~= pv);
    }
}

// ---------------------------------------------------------------------------
// How the filtered records are shown.

/// The heading of the filtered record at `idx`: its index, and ` +` when it
/// is selected (negative entry).
pub open spec fn record_heading(idx: nat, tidraw: i64) -> Seq<char> {
    "**** "@ + crate::text::nat_decimal(idx) + if tidraw < 0 {
        " +"@
    } else {
        Seq::<char>::empty()
    }
}

/// The heading of a filtered record and its id.
pub fn record_header(idx: usize, tidraw: i64) -> (r: (String, i64))
    requires
        tidraw != i64::MIN,
    ensures
        r.0@ == record_heading(idx as nat, tidraw),
        r.1 == if tidraw < 0 {
            -tidraw
        } else {
            tidraw as int
        },
{
    let mut h = owned("**** ");
    let n = crate::text::usize_to_string(idx);
    crate::text::push_all(&mut h, n.as_str());
    if tidraw < 0 {
        crate::text::push_all(&mut h, " +");
        (h, -tidraw)
    } else {
        proof {
            reveal_strlit("");
        }
        assert(h@ =~= record_heading(idx as nat, tidraw));
        (h, tidraw)
    }
}

/// A field of a record as it is shown: its label and value, or nothing
/// when the value is empty.
pub fn show_field(pre: &str, fstr: &str) -> (r: Option<String>)
    ensures
        fstr@.len() == 0 <==> r is None,
        match r {
            Some(line) => line@ == pre@ + " "@ + fstr@,
            None => true,
        },
{
    if fstr.is_empty() {
        return None;
    }
    let mut line = owned(pre);
    crate::text::push_all(&mut line, " ");
    crate::text::push_all(&mut line, fstr);
    Some(line)
}

/// The line with a record's size and time.
pub fn size_time_line(flen: i64, ms: i64) -> (r: String)
    ensures
        r@ == crate::text::int_decimal(flen as int) + " "@ + time_text(utc_text(ms)),
{
    let mut line = crate::text::i64_to_string(flen);
    crate::text::push_all(&mut line, " ");
    let t = millis2display(ms);
    crate::text::push_all(&mut line, t.as_str());
    line
}

/// The closing line: how many records are selected.
pub fn selected_footer(n: usize) -> (r: String)
    ensures
        r@ == "******* "@ + crate::text::nat_decimal(n as nat) + " SELECTED"@,
{
    let mut line = owned("******* ");
    let d = crate::text::usize_to_string(n);
    crate::text::push_all(&mut line, d.as_str());
    crate::text::push_all(&mut line, " SELECTED");
    line
}

} // verus!
