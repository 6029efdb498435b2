//! Scanning an entfo: how each registered copy is settled against what the
//! disk shows, how changed contents are matched to known files or grouped
//! by hash, and where a newly found file's path below its entfo starts.
use vstd::prelude::*;
use vstd::string::StringSliceAdditionalSpecFns;
use std::collections::HashSet;
use sha2::Digest;

verus! {

broadcast use {
    vstd::std_specs::hash::group_hash_axioms,
    vstd::seq_lib::group_filter_ensures,
};

// ---------------------------------------------------------------------------
// Content hashes.

/// The SHA-256 digest of a byte sequence (32 bytes).
pub uninterp spec fn sha256_of(data: Seq<u8>) -> Seq<u8>;

/// Calls `sha2::Sha256::digest`; the result is the SHA-256 digest of the
/// bytes, a function of them alone.
#[verifier::external_body]
fn sha256_digest(data: &[u8]) -> (r: [u8; 32])
    ensures
        r@ == sha256_of(data@),
{
    sha2::Sha256::digest(data).into()
}

/// The hash under which the catalogue records a file's contents.
pub fn calc_hash(data: &[u8]) -> (r: [u8; 32])
    ensures
        r@ == sha256_of(data@),
{
    sha256_digest(data)
}

/// Whether two stored hashes are the same bytes.
pub fn same_bytes(a: &[u8], b: &[u8]) -> (r: bool)
    ensures
        r == (a@ == b@),
{
    if a.len() != b.len() {
        return false;
    }
    let mut i: usize = 0;
    while i < a.len()
        invariant
            a.len() == b.len(),
            i <= a.len(),
            forall|k: int| 0 <= k < i ==> a@[k] == b@[k],
        decreases a.len() - i,
    {
        if a[i] != b[i] {
            return false;
        }
        i = i + 1;
    }
    assert(a@ =~= b@);
    true
}

// ---------------------------------------------------------------------------
// Registered copies.

/// A copy that the catalogue records in the entfo being scanned: its path
/// below the entfo, the recorded size and time of its file, the file's hash
/// and the number of the info file that holds the file.
pub struct RegisteredCopy {
    pub rel: String,
    pub size: i64,
    pub mtime: i64,
    pub hash: Vec<u8>,
    pub tidx: i64,
}

/// What becomes of a registered copy.
pub enum Settlement {
    /// No regular file is at its path any more: the copy is dropped.
    Remove,
    /// Same size and time: nothing to do, and no hash is computed.
    Unchanged,
    /// Same contents, new time.
    NewMtime { ms: i64 },
    /// New contents.
    NewContent { ms: i64, flen: i64, hash: [u8; 32] },
}

/// Whether settling a copy needs the hash of the file now on disk: only
/// when the file is there and its size or time differ from the record.
pub open spec fn needs_hash(size: i64, mtime: i64, disk: Option<(i64, i64)>) -> bool {
    match disk {
        None => false,
        Some((flen, ms)) => !(flen == size && ms == mtime),
    }
}

/// The settlement of a copy recorded with `size`, `mtime` and `hash`, when
/// the disk shows `disk` (the file's length and time, or nothing) and the
/// file now hashes to `new_hash`.
pub open spec fn settle_spec(
    size: i64,
    mtime: i64,
    hash: Seq<u8>,
    disk: Option<(i64, i64)>,
    new_hash: Seq<u8>,
) -> (u8, i64, i64, Seq<u8>) {
    match disk {
        None => (0u8, 0i64, 0i64, Seq::empty()),
        Some((flen, ms)) => if flen == size && ms == mtime {
            (1u8, 0i64, 0i64, Seq::empty())
        } else if flen == size && new_hash == hash {
            (2u8, ms, 0i64, Seq::empty())
        } else {
            (3u8, ms, flen, new_hash)
        },
    }
}

/// The view of a settlement: kind (0 remove, 1 unchanged, 2 new time,
/// 3 new contents), time, length and hash.
pub open spec fn settlement_view(s: Settlement) -> (u8, i64, i64, Seq<u8>) {
    match s {
        Settlement::Remove => (0u8, 0i64, 0i64, Seq::empty()),
        Settlement::Unchanged => (1u8, 0i64, 0i64, Seq::empty()),
        Settlement::NewMtime { ms } => (2u8, ms, 0i64, Seq::empty()),
        Settlement::NewContent { ms, flen, hash } => (3u8, ms, flen, hash@),
    }
}

impl RegisteredCopy {
    /// Whether the file on disk must be hashed to settle this copy.
    pub fn needs_hash(&self, disk: Option<(i64, i64)>) -> (r: bool)
        ensures
            r == needs_hash(self.size, self.mtime, disk),
    {
        match disk {
            None => false,
            Some((flen, ms)) => !(flen == self.size && ms == self.mtime),
        }
    }

    /// Settles this copy against the disk: `disk` is the length and time of
    /// the regular file at its path (`None` when there is none), and
    /// `new_hash` the file's hash, needed only when `needs_hash` says so.
    pub fn settle(&self, disk: Option<(i64, i64)>, new_hash: Option<[u8; 32]>) -> (r: Settlement)
        requires
            needs_hash(self.size, self.mtime, disk) ==> new_hash is Some,
        ensures
            settlement_view(r) == settle_spec(
                self.size,
                self.mtime,
                self.hash@,
                disk,
                match new_hash {
                    Some(h) => h@,
                    None => Seq::empty(),
                },
            ),
    {
        match disk {
            None => Settlement::Remove,
            Some((flen, ms)) => {
                if flen == self.size && ms == self.mtime {
                    Settlement::Unchanged
                } else {
                    let h = new_hash.unwrap();
                    if flen == self.size && same_bytes(h.as_slice(), self.hash.as_slice()) {
                        Settlement::NewMtime { ms }
                    } else {
                        Settlement::NewContent { ms, flen, hash: h }
                    }
                }
            },
        }
    }
}

/// A copy whose contents changed: path below the entfo, time, length and
/// new hash.
pub struct NewContent {
    pub rel: String,
    pub ms: i64,
    pub flen: i64,
    pub hash: [u8; 32],
}

impl View for NewContent {
    type V = (Seq<char>, i64, i64, Seq<u8>);

    open spec fn view(&self) -> (Seq<char>, i64, i64, Seq<u8>) {
        (self.rel@, self.ms, self.flen, self.hash@)
    }
}

impl NewContent {
    /// A copy of this entry.
    pub fn copy(&self) -> (r: NewContent)
        ensures
            r@ == self@,
    {
        NewContent { rel: crate::text::owned(self.rel.as_str()), ms: self.ms, flen: self.flen, hash: self.hash }
    }
}

/// The views of entries.
pub open spec fn contents_view(s: Seq<NewContent>) -> Seq<(Seq<char>, i64, i64, Seq<u8>)> {
    s.map_values(|x: NewContent| x@)
}

/// What the first pass over the registered copies of an entfo collects:
/// paths to drop, paths with a new time, and copies with new contents.
pub struct RegisteredScan {
    pub removed: Vec<String>,
    pub new_mtime: Vec<(String, i64)>,
    pub new_content: Vec<NewContent>,
}

/// The views of the first pass: dropped paths, retimed paths with their
/// times, and changed copies.
pub open spec fn reg_scan_view(s: RegisteredScan) -> (
    Seq<Seq<char>>,
    Seq<(Seq<char>, i64)>,
    Seq<(Seq<char>, i64, i64, Seq<u8>)>,
) {
    (
        crate::text::views_of(s.removed@),
        s.new_mtime@.map_values(|e: (String, i64)| (e.0@, e.1)),
        contents_view(s.new_content@),
    )
}

/// How one settled copy at `rel` changes the collected views.
pub open spec fn reg_scan_step(
    v: (Seq<Seq<char>>, Seq<(Seq<char>, i64)>, Seq<(Seq<char>, i64, i64, Seq<u8>)>),
    rel: Seq<char>,
    s: (u8, i64, i64, Seq<u8>),
) -> (Seq<Seq<char>>, Seq<(Seq<char>, i64)>, Seq<(Seq<char>, i64, i64, Seq<u8>)>) {
    if s.0 == 0 {
        (v.0.push(rel), v.1, v.2)
    } else if s.0 == 2 {
        (v.0, v.1.push((rel, s.1)), v.2)
    } else if s.0 == 3 {
        (v.0, v.1, v.2.push((rel, s.1, s.2, s.3)))
    } else {
        v
    }
}

impl RegisteredScan {
    /// Nothing collected yet.
    pub fn new() -> (r: RegisteredScan)
        ensures
            reg_scan_view(r) == (
                Seq::<Seq<char>>::empty(),
                Seq::<(Seq<char>, i64)>::empty(),
                Seq::<(Seq<char>, i64, i64, Seq<u8>)>::empty(),
            ),
    {
        let r = RegisteredScan { removed: Vec::new(), new_mtime: Vec::new(), new_content: Vec::new() };
        assert(reg_scan_view(r).0 =~= Seq::<Seq<char>>::empty());
        assert(reg_scan_view(r).1 =~= Seq::<(Seq<char>, i64)>::empty());
        assert(reg_scan_view(r).2 =~= Seq::<(Seq<char>, i64, i64, Seq<u8>)>::empty());
        r
    }

    /// Records the settlement of the copy at `rel`, held by info file
    /// `tidx`: every settlement but `Unchanged` marks that info file as
    /// modified.
    pub fn record(&mut self, rel: String, s: Settlement, tidx: i64, modified: &mut HashSet<u32>)
        ensures
            reg_scan_view(*final(self)) == reg_scan_step(reg_scan_view(*old(self)), rel@, settlement_view(s)),
            final(modified)@ == if s is Unchanged {
                old(modified)@
            } else {
                old(modified)@.insert(tidx as u32)
            },
    {
        let ghost v0 = reg_scan_view(*self);
        let ghost sv = settlement_view(s);
        let ghost relv = rel@;
        match s {
            Settlement::Unchanged => {
                return;
            },
            Settlement::Remove => {
                self.removed.push(rel);
                assert(reg_scan_view(*self).0 =~= v0.0.push(relv));
            },
            Settlement::NewMtime { ms } => {
                self.new_mtime.push((rel, ms));
                assert(reg_scan_view(*self).1 =~= v0.1.push((relv, ms)));
            },
            Settlement::NewContent { ms, flen, hash } => {
                self.new_content.push(NewContent { rel, ms, flen, hash });
                assert(reg_scan_view(*self).2 =~= v0.2.push((relv, ms, flen, hash@)));
            },
        }
        modified.insert(tidx as u32);
    }
}

// ---------------------------------------------------------------------------
// Changed copies: matched to known files, or grouped by hash.

/// The entries whose hash is `h`.
pub open spec fn has_hash(h: Seq<u8>) -> spec_fn((Seq<char>, i64, i64, Seq<u8>)) -> bool {
    |x: (Seq<char>, i64, i64, Seq<u8>)| x.3 == h
}

/// The views of groups of entries.
pub open spec fn groups_view(g: Seq<Vec<NewContent>>) -> Seq<Seq<(Seq<char>, i64, i64, Seq<u8>)>> {
    g.map_values(|v: Vec<NewContent>| contents_view(v@))
}

/// `groups` splits `items` by hash: each group is non-empty and holds, in
/// their order, exactly the entries of `items` with its hash; no two groups
/// share a hash; and every entry's hash has a group.
pub open spec fn grouped_by_hash(
    items: Seq<(Seq<char>, i64, i64, Seq<u8>)>,
    groups: Seq<Seq<(Seq<char>, i64, i64, Seq<u8>)>>,
) -> bool {
    &&& forall|g: int| 0 <= g < groups.len() ==> #[trigger] groups[g].len() > 0
    &&& forall|g: int|
        0 <= g < groups.len() ==> #[trigger] groups[g] == items.filter(has_hash(groups[g][0].3))
    &&& forall|g1: int, g2: int|
        0 <= g1 < g2 < groups.len() ==> #[trigger] groups[g1][0].3 != #[trigger] groups[g2][0].3
    &&& forall|i: int| 0 <= i < items.len() ==> hash_has_group(groups, #[trigger] items[i].3)
}

/// Some group's entries have hash `h`.
pub open spec fn hash_has_group(groups: Seq<Seq<(Seq<char>, i64, i64, Seq<u8>)>>, h: Seq<u8>) -> bool {
    exists|g: int| 0 <= g < groups.len() && #[trigger] groups[g][0].3 == h
}

/// Splits changed copies into groups of equal hash (copies that now hold
/// the same contents).
pub fn group_by_hash(items: &Vec<NewContent>) -> (r: Vec<Vec<NewContent>>)
    ensures
        grouped_by_hash(contents_view(items@), groups_view(r@)),
{
    let ghost iv = contents_view(items@);
    let mut groups: Vec<Vec<NewContent>> = Vec::new();
    let mut i: usize = 0;
    while i < items.len()
        invariant
            i <= items.len(),
            iv == contents_view(items@),
            grouped_by_hash(iv.take(i as int), groups_view(groups@)),
        decreases items.len() - i,
    {
        let x = items[i].copy();
        let ghost xv = x@;
        let ghost gv = groups_view(groups@);
        let ghost pre = iv.take(i as int);
        assert(iv.take(i + 1) =~= pre.push(xv));
        let mut g: usize = 0;
        while g < groups.len()
            invariant
                g <= groups.len(),
                gv == groups_view(groups@),
                xv == x@,
                forall|k: int| 0 <= k < gv.len() ==> #[trigger] gv[k].len() > 0,
                forall|k: int| 0 <= k < g ==> #[trigger] gv[k][0].3 != xv.3,
            ensures
                g <= groups.len(),
                forall|k: int| 0 <= k < g ==> #[trigger] gv[k][0].3 != xv.3,
                g < groups.len() ==> gv[g as int][0].3 == xv.3,
            decreases groups.len() - g,
        {
            assert(gv[g as int].len() > 0);
            assert(gv[g as int][0] == groups@[g as int]@[0]@);
            let same = same_bytes(groups[g][0].hash.as_slice(), x.hash.as_slice());
            if same {
                break;
            }
            g = g + 1;
        }
        if g < groups.len() {
            let ghost gs = groups@;
            groups[g].push(x);
            proof {
                let nv = groups_view(groups@);
                assert(nv.len() == gv.len());
                assert(nv[g as int] =~= gv[g as int].push(xv));
                assert forall|k: int| 0 <= k < nv.len() && k != g implies #[trigger] nv[k] == gv[k] by {
                    assert(groups@[k] == gs[k]);
                }
                assert forall|k: int| 0 <= k < nv.len() implies #[trigger] nv[k].len() > 0 by {
                    if k != g {
                        assert(nv[k] == gv[k]);
                    }
                }
                assert forall|k: int| 0 <= k < nv.len() implies #[trigger] nv[k] == iv.take(i + 1).filter(has_hash(nv[k][0].3)) by {
                    pre.lemma_filter_push(xv, has_hash(nv[k][0].3));
                    if k != g {
                        assert(gv[k][0].3 != gv[g as int][0].3);
                    }
                }
                assert forall|j: int| 0 <= j < iv.take(i + 1).len() implies hash_has_group(nv, #[trigger] iv.take(i + 1)[j].3) by {
                    if j < i {
                        assert(iv.take(i + 1)[j] == pre[j]);
                        assert(hash_has_group(gv, pre[j].3));
                        let k = choose|k: int| 0 <= k < gv.len() && #[trigger] gv[k][0].3 == pre[j].3;
                        assert(nv[k][0] == gv[k][0]);
                    } else {
                        assert(nv[g as int][0] == gv[g as int][0]);
                    }
                }
                assert forall|k1: int, k2: int| 0 <= k1 < k2 < nv.len() implies #[trigger] nv[k1][0].3 != #[trigger] nv[k2][0].3 by {
                    assert(nv[k1][0] == gv[k1][0]);
                    assert(nv[k2][0] == gv[k2][0]);
                }
                assert(grouped_by_hash(iv.take(i + 1), nv));
            }
        } else {
            let mut ng: Vec<NewContent> = Vec::new();
            ng.push(x);
            assert(contents_view(ng@) =~= seq![xv]);
            groups.push(ng);
            proof {
                let nv = groups_view(groups@);
                assert(nv =~= gv.push(seq![xv]));
                assert(pre.all(|y: (Seq<char>, i64, i64, Seq<u8>)| !has_hash(xv.3)(y))) by {
                    assert forall|j: int| 0 <= j < pre.len() implies !has_hash(xv.3)(#[trigger] pre[j]) by {
                        assert(hash_has_group(gv, pre[j].3));
                        let k = choose|k: int| 0 <= k < gv.len() && #[trigger] gv[k][0].3 == pre[j].3;
                    }
                }
                pre.lemma_all_neg_filter_empty(has_hash(xv.3));
                assert forall|k: int| 0 <= k < nv.len() implies #[trigger] nv[k].len() > 0 by {
                    if k < gv.len() {
                        assert(nv[k] == gv[k]);
                    }
                }
                assert forall|k: int| 0 <= k < nv.len() implies #[trigger] nv[k] == iv.take(i + 1).filter(has_hash(nv[k][0].3)) by {
                    pre.lemma_filter_push(xv, has_hash(nv[k][0].3));
                    if k == gv.len() {
                        assert(pre.filter(has_hash(xv.3)) =~= Seq::<(Seq<char>, i64, i64, Seq<u8>)>::empty());
                        assert(nv[k] =~= seq![xv]);
                    } else {
                        assert(nv[k] == gv[k]);
                    }
                }
                assert forall|j: int| 0 <= j < iv.take(i + 1).len() implies hash_has_group(nv, #[trigger] iv.take(i + 1)[j].3) by {
                    if j < i {
                        assert(iv.take(i + 1)[j] == pre[j]);
                        assert(hash_has_group(gv, pre[j].3));
                        let k = choose|k: int| 0 <= k < gv.len() && #[trigger] gv[k][0].3 == pre[j].3;
                        assert(nv[k] == gv[k]);
                    } else {
                        assert(iv[i as int] == items@[i as int]@);
                        assert(iv.take(i + 1)[j] == xv);
                        assert(nv[gv.len() as int][0] == xv);
                        assert(nv[gv.len() as int][0].3 == iv.take(i + 1)[j].3);
                    }
                }
                assert forall|k1: int, k2: int| 0 <= k1 < k2 < nv.len() implies #[trigger] nv[k1][0].3 != #[trigger] nv[k2][0].3 by {
                    assert(nv[k1] == gv[k1]);
                    if k2 < gv.len() {
                        assert(nv[k2] == gv[k2]);
                    }
                }
                assert(grouped_by_hash(iv.take(i + 1), nv));
            }
        }
        i = i + 1;
    }
    assert(iv.take(items.len() as int) =~= iv);
    groups
}

/// The copies among `items` whose new hash is already a catalogued file's
/// (`known` gives that file's id and info file, per copy): path, time and
/// the file's id, in order.
pub open spec fn reattached(
    items: Seq<(Seq<char>, i64, i64, Seq<u8>)>,
    known: Seq<Option<(i64, i64)>>,
) -> Seq<(Seq<char>, i64, i64)>
    decreases items.len(),
{
    if items.len() == 0 || known.len() == 0 {
        Seq::empty()
    } else {
        let p = reattached(items.drop_last(), known.drop_last());
        match known.last() {
            Some((tmpid, _)) => p.push((items.last().0, items.last().1, tmpid)),
            None => p,
        }
    }
}

/// The copies among `items` whose new hash no catalogued file has, in
/// order.
pub open spec fn unmatched(
    items: Seq<(Seq<char>, i64, i64, Seq<u8>)>,
    known: Seq<Option<(i64, i64)>>,
) -> Seq<(Seq<char>, i64, i64, Seq<u8>)>
    decreases items.len(),
{
    if items.len() == 0 || known.len() == 0 {
        Seq::empty()
    } else {
        let p = unmatched(items.drop_last(), known.drop_last());
        match known.last() {
            Some(_) => p,
            None => p.push(items.last()),
        }
    }
}

/// The info files of the catalogued files that changed copies are
/// re-attached to.
pub open spec fn known_tidx(known: Seq<Option<(i64, i64)>>) -> Set<u32>
    decreases known.len(),
{
    if known.len() == 0 {
        Set::empty()
    } else {
        let p = known_tidx(known.drop_last());
        match known.last() {
            Some((_, tidx)) => p.insert(tidx as u32),
            None => p,
        }
    }
}

/// The views of re-attachments: path, time and file id.
pub open spec fn reattach_view(v: Seq<(String, i64, i64)>) -> Seq<(Seq<char>, i64, i64)> {
    v.map_values(|e: (String, i64, i64)| (e.0@, e.1, e.2))
}

/// Splits changed copies into those whose new hash is a catalogued file's
/// (`known[i]` is that file's id and info file for `items[i]`, or `None`)
/// and groups of equal hash among the rest. The info files of the files
/// re-attached to are marked as modified.
pub fn split_known(
    items: &Vec<NewContent>,
    known: &Vec<Option<(i64, i64)>>,
    modified: &mut HashSet<u32>,
) -> (r: (Vec<(String, i64, i64)>, Vec<Vec<NewContent>>))
    requires
        items.len() == known.len(),
    ensures
        reattach_view(r.0@) == reattached(contents_view(items@), known@),
        grouped_by_hash(unmatched(contents_view(items@), known@), groups_view(r.1@)),
        final(modified)@ == old(modified)@.union(known_tidx(known@)),
{
    let ghost iv = contents_view(items@);
    let mut re: Vec<(String, i64, i64)> = Vec::new();
    let mut rest: Vec<NewContent> = Vec::new();
    let mut i: usize = 0;
    while i < items.len()
        invariant
            i <= items.len(),
            items.len() == known.len(),
            iv == contents_view(items@),
            reattach_view(re@) == reattached(iv.take(i as int), known@.take(i as int)),
            contents_view(rest@) == unmatched(iv.take(i as int), known@.take(i as int)),
            modified@ == old(modified)@.union(known_tidx(known@.take(i as int))),
        decreases items.len() - i,
    {
        let ghost it = iv.take(i + 1);
        let ghost kt = known@.take(i + 1);
        assert(it.drop_last() =~= iv.take(i as int));
        assert(kt.drop_last() =~= known@.take(i as int));
        assert(it.last() == items@[i as int]@);
        match known[i] {
            Some((tmpid, tidx)) => {
                let ghost rv = reattach_view(re@);
                re.push((crate::text::owned(items[i].rel.as_str()), items[i].ms, tmpid));
                assert(reattach_view(re@) =~= rv.push((it.last().0, it.last().1, tmpid)));
                modified.insert(tidx as u32);
                assert(modified@ =~= old(modified)@.union(known_tidx(kt)));
            },
            None => {
                let ghost cv = contents_view(rest@);
                rest.push(items[i].copy());
                assert(contents_view(rest@) =~= cv.push(it.last()));
            },
        }
        i = i + 1;
    }
    assert(iv.take(items.len() as int) =~= iv);
    assert(known@.take(items.len() as int) =~= known@);
    let groups = group_by_hash(&rest);
    (re, groups)
}

/// Copies that now hold the same new contents, to become one new file: the
/// earliest of their times, the length and hash, and each copy's path and
/// time.
pub struct SameHash {
    pub min_ms: i64,
    pub flen: i64,
    pub hash: [u8; 32],
    pub lst: Vec<(String, i64)>,
}

/// The earliest time among the entries (the first entry's when there is
/// one entry).
pub open spec fn min_ms_of(g: Seq<(Seq<char>, i64, i64, Seq<u8>)>) -> i64
    decreases g.len(),
{
    if g.len() <= 1 {
        g[0].1
    } else {
        let m = min_ms_of(g.drop_last());
        if g.last().1 < m {
            g.last().1
        } else {
            m
        }
    }
}

/// The earliest time is one of the entries' times and no later than any.
pub proof fn lemma_min_ms_of(g: Seq<(Seq<char>, i64, i64, Seq<u8>)>)
    requires
        g.len() > 0,
    ensures
        exists|i: int| 0 <= i < g.len() && g[i].1 == min_ms_of(g),
        forall|i: int| 0 <= i < g.len() ==> min_ms_of(g) <= #[trigger] g[i].1,
    decreases g.len(),
{
    if g.len() > 1 {
        lemma_min_ms_of(g.drop_last());
        let m = min_ms_of(g.drop_last());
        let w = choose|i: int| 0 <= i < g.drop_last().len() && g.drop_last()[i].1 == m;
        assert(g[w] == g.drop_last()[w]);
        assert forall|i: int| 0 <= i < g.len() implies min_ms_of(g) <= #[trigger] g[i].1 by {
            if i < g.len() - 1 {
                assert(g[i] == g.drop_last()[i]);
            }
        }
    } else {
        assert(g[0].1 == min_ms_of(g));
    }
}

/// The view of copies with the same new contents: earliest time, length,
/// hash, and each copy's path and time.
pub open spec fn same_hash_view(s: SameHash) -> (i64, i64, Seq<u8>, Seq<(Seq<char>, i64)>) {
    (s.min_ms, s.flen, s.hash@, s.lst@.map_values(|e: (String, i64)| (e.0@, e.1)))
}

/// What a group of copies with equal new hash becomes.
pub open spec fn normalized(g: Seq<(Seq<char>, i64, i64, Seq<u8>)>) -> (i64, i64, Seq<u8>, Seq<(Seq<char>, i64)>) {
    (min_ms_of(g), g[0].2, g[0].3, g.map_values(|x: (Seq<char>, i64, i64, Seq<u8>)| (x.0, x.1)))
}

/// Gathers a group of copies with equal new hash into one new file: the
/// earliest time of the group, the first copy's length and hash, and every
/// copy's path and time in order.
pub fn normalize_for_lenhashlstrelms(group: &Vec<NewContent>) -> (r: SameHash)
    requires
        group.len() > 0,
    ensures
        same_hash_view(r) == normalized(contents_view(group@)),
{
    let ghost gv = contents_view(group@);
    let mut min_ms: i64 = group[0].ms;
    let mut lst: Vec<(String, i64)> = Vec::new();
    let mut i: usize = 0;
    while i < group.len()
        invariant
            0 < group.len(),
            i <= group.len(),
            gv == contents_view(group@),
            i == 0 ==> min_ms == gv[0].1,
            i > 0 ==> min_ms == min_ms_of(gv.take(i as int)),
            lst@.map_values(|e: (String, i64)| (e.0@, e.1)) == gv.take(i as int).map_values(
                |x: (Seq<char>, i64, i64, Seq<u8>)| (x.0, x.1),
            ),
        decreases group.len() - i,
    {
        let ghost t = gv.take(i + 1);
        assert(t.drop_last() =~= gv.take(i as int));
        assert(t.last() == group@[i as int]@);
        let ms = group[i].ms;
        if ms < min_ms {
            min_ms = ms;
        }
        let ghost lv = lst@.map_values(|e: (String, i64)| (e.0@, e.1));
        lst.push((crate::text::owned(group[i].rel.as_str()), ms));
        assert(lst@.map_values(|e: (String, i64)| (e.0@, e.1)) =~= lv.push((t.last().0, t.last().1)));
        assert(t.map_values(|x: (Seq<char>, i64, i64, Seq<u8>)| (x.0, x.1)) =~= gv.take(i as int).map_values(
            |x: (Seq<char>, i64, i64, Seq<u8>)| (x.0, x.1),
        ).push((t.last().0, t.last().1)));
        i = i + 1;
    }
    assert(gv.take(group.len() as int) =~= gv);
    assert(gv[0] == group@[0]@);
    SameHash { min_ms, flen: group[0].flen, hash: group[0].hash, lst }
}

/// Of the groups of equal new hash, with `shared[g]` telling whether the
/// file of group `g`'s single copy has other copies too: single copies
/// whose file is shared become new files cloned from it; single copies
/// whose file is not shared change that file in place; larger groups each
/// become one new file.
pub open spec fn classified(
    groups: Seq<Seq<(Seq<char>, i64, i64, Seq<u8>)>>,
    shared: Seq<bool>,
) -> (
    Seq<(Seq<char>, i64, i64, Seq<u8>)>,
    Seq<(Seq<char>, i64, i64, Seq<u8>)>,
    Seq<(i64, i64, Seq<u8>, Seq<(Seq<char>, i64)>)>,
)
    decreases groups.len(),
{
    if groups.len() == 0 || shared.len() == 0 {
        (Seq::empty(), Seq::empty(), Seq::empty())
    } else {
        let p = classified(groups.drop_last(), shared.drop_last());
        let g = groups.last();
        if g.len() == 1 {
            if shared.last() {
                (p.0.push(g[0]), p.1, p.2)
            } else {
                (p.0, p.1.push(g[0]), p.2)
            }
        } else {
            (p.0, p.1, p.2.push(normalized(g)))
        }
    }
}

/// Sorts the groups of equal new hash into clones, in-place changes and
/// new shared files, as `classified` says.
pub fn classify_groups(groups: &Vec<Vec<NewContent>>, shared: &Vec<bool>) -> (r: (
    Vec<NewContent>,
    Vec<NewContent>,
    Vec<SameHash>,
))
    requires
        groups.len() == shared.len(),
        forall|g: int| 0 <= g < groups.len() ==> #[trigger] groups@[g].len() > 0,
    ensures
        contents_view(r.0@) == classified(groups_view(groups@), shared@).0,
        contents_view(r.1@) == classified(groups_view(groups@), shared@).1,
        r.2@.map_values(|x: SameHash| same_hash_view(x)) == classified(groups_view(groups@), shared@).2,
{
    let ghost gv = groups_view(groups@);
    let mut clones: Vec<NewContent> = Vec::new();
    let mut modifies: Vec<NewContent> = Vec::new();
    let mut same: Vec<SameHash> = Vec::new();
    let mut i: usize = 0;
    while i < groups.len()
        invariant
            i <= groups.len(),
            groups.len() == shared.len(),
            gv == groups_view(groups@),
            forall|g: int| 0 <= g < groups.len() ==> #[trigger] groups@[g].len() > 0,
            contents_view(clones@) == classified(gv.take(i as int), shared@.take(i as int)).0,
            contents_view(modifies@) == classified(gv.take(i as int), shared@.take(i as int)).1,
            same@.map_values(|x: SameHash| same_hash_view(x)) == classified(
                gv.take(i as int),
                shared@.take(i as int),
            ).2,
        decreases groups.len() - i,
    {
        let ghost gt = gv.take(i + 1);
        let ghost st = shared@.take(i + 1);
        assert(gt.drop_last() =~= gv.take(i as int));
        assert(st.drop_last() =~= shared@.take(i as int));
        assert(gt.last() == contents_view(groups@[i as int]@));
        let ghost c0 = contents_view(clones@);
        let ghost c1 = contents_view(modifies@);
        let ghost c2 = same@.map_values(|x: SameHash| same_hash_view(x));
        if groups[i].len() == 1 {
            assert(gt.last()[0] == groups@[i as int]@[0]@);
            if shared[i] {
                clones.push(groups[i][0].copy());
                assert(contents_view(clones@) =~= c0.push(gt.last()[0]));
            } else {
                modifies.push(groups[i][0].copy());
                assert(contents_view(modifies@) =~= c1.push(gt.last()[0]));
            }
        } else {
            let n = normalize_for_lenhashlstrelms(&groups[i]);
            same.push(n);
            assert(same@.map_values(|x: SameHash| same_hash_view(x)) =~= c2.push(normalized(gt.last())));
        }
        i = i + 1;
    }
    assert(gv.take(groups.len() as int) =~= gv);
    assert(shared@.take(groups.len() as int) =~= shared@);
    (clones, modifies, same)
}

/// `n` consecutive file ids starting at `first`.
pub fn consecutive_ids(first: i64, n: usize) -> (r: Vec<i64>)
    requires
        first + n <= i64::MAX,
    ensures
        r.len() == n,
        forall|k: int| 0 <= k < n ==> #[trigger] r@[k] == first + k,
{
    let mut r: Vec<i64> = Vec::new();
    let mut id: i64 = first;
    let mut k: usize = 0;
    while k < n
        invariant
            k <= n,
            first + n <= i64::MAX,
            id == first + k,
            r.len() == k,
            forall|j: int| 0 <= j < k ==> #[trigger] r@[j] == first + j,
        decreases n - k,
    {
        r.push(id);
        id = id + 1;
        k = k + 1;
    }
    r
}

// ---------------------------------------------------------------------------
// Newly found files.

/// Why a found file's path below its entfo cannot be taken.
#[derive(PartialEq, Eq, Structural, Debug)]
pub enum ScanError {
    /// The path is no longer than the entfo's.
    NoSeparator,
    /// The byte after the entfo's path is no path separator.
    UnrecognizedSeparator,
    /// The rest of the path does not start on a character.
    BadRelPath,
}

/// The path of a file found at `direntp` below the entfo whose path is
/// `entfo_len` bytes long: the bytes after the separator that follows the
/// entfo's path.
pub fn rel_under_entfo(direntp: &str, entfo_len: usize) -> (r: Result<String, ScanError>)
    ensures
        match r {
            Ok(rel) => {
                &&& entfo_len < direntp.spec_bytes().len()
                &&& (direntp.spec_bytes()[entfo_len as int] == 47u8 || direntp.spec_bytes()[entfo_len as int] == 92u8)
                &&& vstd::utf8::encode_utf8(rel@) == direntp.spec_bytes().skip(entfo_len + 1)
            },
            Err(ScanError::NoSeparator) => entfo_len >= direntp.spec_bytes().len(),
            Err(ScanError::UnrecognizedSeparator) => {
                &&& entfo_len < direntp.spec_bytes().len()
                &&& direntp.spec_bytes()[entfo_len as int] != 47u8
                &&& direntp.spec_bytes()[entfo_len as int] != 92u8
            },
            Err(ScanError::BadRelPath) => {
                &&& entfo_len < direntp.spec_bytes().len()
                &&& (direntp.spec_bytes()[entfo_len as int] == 47u8 || direntp.spec_bytes()[entfo_len as int] == 92u8)
                &&& !vstd::utf8::is_char_boundary(direntp.spec_bytes(), entfo_len + 1)
            },
        },
{
    let bytes = direntp.as_bytes();
    if entfo_len >= bytes.len() {
        return Err(ScanError::NoSeparator);
    }
    let sep = bytes[entfo_len];
    if sep != 47u8 && sep != 92u8 {
        return Err(ScanError::UnrecognizedSeparator);
    }
    if !direntp.is_char_boundary(entfo_len + 1) {
        return Err(ScanError::BadRelPath);
    }
    let (_, tail) = direntp.split_at(entfo_len + 1);
    assert(direntp.spec_bytes().subrange(entfo_len + 1, direntp.spec_bytes().len() as int)
        =~= direntp.spec_bytes().skip(entfo_len + 1));
    Ok(crate::text::owned(tail))
}

} // verus!
