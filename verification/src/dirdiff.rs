//! Comparing the files recorded for two storages ("0" and "1") and planning
//! how one side is brought in line with the other.
use vstd::prelude::*;
use crate::text::{chars_find, chars_of, chars_lt, find_char, i64_to_string, int_decimal, nat_decimal, parse_usize, parse_usize_spec, push_all, usize_to_string, lemma_seq_lt_asymmetric, lemma_seq_lt_irreflexive, lemma_seq_lt_total, lemma_seq_lt_transitive, owned, seq_lt, str_eq};
use vstd::string::StringSliceAdditionalSpecFns;

verus! {

broadcast use vstd::seq_lib::group_to_multiset_ensures;

/// One side of a pair: the id of an entfo or cloud account, and a path
/// prefix below it (empty, or ending with a slash or backslash).
#[derive(Debug)]
pub enum InfoDir {
    Entfo((String, String)),
    M((String, String)),
    D((String, String)),
}

/// A file seen on one side of a pair: its path below the pair's prefix
/// (with `/` separators), the side it came from and its size.
#[derive(Debug)]
pub struct ComRec {
    frel: String,
    col: u8,
    fsize: i64,
}

impl View for ComRec {
    type V = (Seq<char>, u8, i64);

    closed spec fn view(&self) -> (Seq<char>, u8, i64) {
        (self.frel@, self.col, self.fsize)
    }
}

/// `p` with every `/` replaced by `sep`.
pub open spec fn with_separator(p: Seq<char>, sep: char) -> Seq<char> {
    p.map_values(|c: char| if c == '/' { sep } else { c })
}

/// The separator of local paths: `\\` on Windows, `/` elsewhere.
pub open spec fn local_separator(win: bool) -> char {
    if win {
        '\\'
    } else {
        '/'
    }
}

/// `p` with every backslash replaced by a slash.
pub open spec fn forward_slashes(p: Seq<char>) -> Seq<char> {
    p.map_values(|c: char| if c == '\\' { '/' } else { c })
}

/// A record with an empty path: "no file on this side".
pub open spec fn empty_rec() -> (Seq<char>, u8, i64) {
    (Seq::<char>::empty(), 0u8, 0i64)
}

impl ComRec {
    /// The record of no file.
    pub fn empty() -> (r: ComRec)
        ensures
            r@ == empty_rec(),
    {
        ComRec { frel: String::new(), col: 0, fsize: 0 }
    }

    /// A copy with the same path, side and size.
    pub fn copy(&self) -> (r: ComRec)
        ensures
            r@ == self@,
    {
        ComRec { frel: owned(self.frel.as_str()), col: self.col, fsize: self.fsize }
    }

    /// The record of a cloud file `path_display` listed under `prefix`:
    /// the prefix's bytes are cut off the front.
    pub fn from_dx_row(prefix: &str, path_display: &str, col: u8, fsize: i64) -> (r: ComRec)
        requires
            vstd::utf8::is_char_boundary(path_display.spec_bytes(), prefix.len() as int),
        ensures
            vstd::utf8::encode_utf8(r@.0) == path_display.spec_bytes().skip(prefix.len() as int),
            r@.1 == col,
            r@.2 == fsize,
    {
        let (_, tail) = path_display.split_at(prefix.len());
        assert(path_display.spec_bytes().subrange(prefix.len() as int, path_display.spec_bytes().len() as int)
            =~= path_display.spec_bytes().skip(prefix.len() as int));
        ComRec { frel: owned(tail), col, fsize }
    }

    /// The record of a local file `rel` registered under `prefix`: the
    /// prefix's bytes are cut off the front and backslashes become slashes,
    /// so that paths from different platforms compare equal.
    pub fn from_entfo_row(prefix: &str, rel: &str, col: u8, fsize: i64) -> (r: ComRec)
        requires
            vstd::utf8::is_char_boundary(rel.spec_bytes(), prefix.len() as int),
        ensures
            exists|tail: Seq<char>|
                vstd::utf8::encode_utf8(tail) == rel.spec_bytes().skip(prefix.len() as int) && r@.0
                    == #[trigger] forward_slashes(tail),
            r@.1 == col,
            r@.2 == fsize,
    {
        let (_, tail) = rel.split_at(prefix.len());
        assert(rel.spec_bytes().subrange(prefix.len() as int, rel.spec_bytes().len() as int)
            =~= rel.spec_bytes().skip(prefix.len() as int));
        let cs = chars_of(tail);
        let mut out = String::new();
        let mut i: usize = 0;
        while i < cs.len()
            invariant
                i <= cs.len(),
                out@ == cs@.take(i as int).map_values(
                    |c: char| if c == '\\' { '/' } else { c },
                ),
            decreases cs.len() - i,
        {
            let c = cs[i];
            if c == '\\' {
                out.push('/');
            } else {
                out.push(c);
            }
            proof {
                assert(cs@.take(i + 1) =~= cs@.take(i as int).push(c));
                assert(cs@.take(i + 1).map_values(|c: char| if c == '\\' { '/' } else { c })
                    =~= cs@.take(i as int).map_values(
                    |c: char| if c == '\\' { '/' } else { c },
                ).push(if c == '\\' { '/' } else { c }));
            }
            i = i + 1;
        }
        assert(cs@.take(cs.len() as int) =~= cs@);
        assert(out@ == forward_slashes(tail@));
        ComRec { frel: out, col, fsize }
    }

    /// The path for use on the local filesystem: with backslashes on
    /// Windows (`win`), as it is elsewhere.
    pub fn fs_rel(&self, win: bool) -> (r: String)
        ensures
            r@ == with_separator(self@.0, local_separator(win)),
            !win ==> r@ == self@.0,
    {
        let sep = if win { '\\' } else { '/' };
        let cs = chars_of(self.frel.as_str());
        let mut out = String::new();
        let mut i: usize = 0;
        while i < cs.len()
            invariant
                i <= cs.len(),
                out@ == with_separator(cs@.take(i as int), sep),
            decreases cs.len() - i,
        {
            let c = cs[i];
            if c == '/' {
                out.push(sep);
            } else {
                out.push(c);
            }
            proof {
                assert(cs@.take(i + 1) =~= cs@.take(i as int).push(c));
                assert(with_separator(cs@.take(i + 1), sep) =~= with_separator(
                    cs@.take(i as int),
                    sep,
                ).push(if c == '/' { sep } else { c }));
            }
            i = i + 1;
        }
        assert(cs@.take(cs.len() as int) =~= cs@);
        assert(out@ == with_separator(self@.0, sep));
        proof {
            if !win {
                assert(with_separator(self@.0, '/') =~= self@.0);
            }
        }
        out
    }

    /// The path, with `/` separators.
    pub fn frel(&self) -> (r: &str)
        ensures
            r@ == self@.0,
    {
        self.frel.as_str()
    }

    /// The side the record came from.
    pub fn col(&self) -> (r: u8)
        ensures
            r == self@.1,
    {
        self.col
    }

    /// The file size.
    pub fn fsize(&self) -> (r: i64)
        ensures
            r == self@.2,
    {
        self.fsize
    }

    /// A record stands for no file when its path is empty.
    pub fn is_empty(&self) -> (r: bool)
        ensures
            r == (self@.0.len() == 0),
    {
        self.frel.as_str().is_empty()
    }

    /// Forgets the file: the path becomes empty and the size zero.
    pub fn clear_f(&mut self)
        ensures
            final(self)@ == (Seq::<char>::empty(), old(self)@.1, 0i64),
    {
        self.frel = String::new();
        self.fsize = 0;
    }

    /// Takes path and size from `other`, keeping its own side.
    pub fn becomes_eq(&mut self, other: &Self)
        ensures
            final(self)@ == (other@.0, old(self)@.1, other@.2),
    {
        if !str_eq(self.frel.as_str(), other.frel.as_str()) {
            self.frel = owned(other.frel.as_str());
        }
        self.fsize = other.fsize;
    }
}

/// One line of a diff: the file on side 0, the file on side 1 (either may
/// be the empty record) and whether the user selected the line.
#[derive(Debug)]
pub struct DRow {
    selected: bool,
    column0: ComRec,
    column1: ComRec,
}

impl View for DRow {
    type V = (bool, (Seq<char>, u8, i64), (Seq<char>, u8, i64));

    closed spec fn view(&self) -> (bool, (Seq<char>, u8, i64), (Seq<char>, u8, i64)) {
        (self.selected, self.column0@, self.column1@)
    }
}

/// A new, unselected diff line.
pub fn mk_drow(column0: ComRec, column1: ComRec) -> (r: DRow)
    ensures
        r@ == (false, column0@, column1@),
{
    DRow { selected: false, column0, column1 }
}

/// The path of a line: that of side 0, or that of side 1 when side 0 is
/// empty.
pub open spec fn row_path(r: (bool, (Seq<char>, u8, i64), (Seq<char>, u8, i64))) -> Seq<char> {
    if r.1.0.len() == 0 {
        r.2.0
    } else {
        r.1.0
    }
}

/// A row with both sides empty carries no file.
pub open spec fn row_is_empty(r: (bool, (Seq<char>, u8, i64), (Seq<char>, u8, i64))) -> bool {
    r.1.0.len() == 0 && r.2.0.len() == 0
}

impl DRow {
    /// `'+'` for a selected line, a space otherwise.
    pub fn sel_char(&self) -> (r: char)
        ensures
            r == (if self@.0 {
                '+'
            } else {
                ' '
            }),
    {
        if self.selected {
            '+'
        } else {
            ' '
        }
    }

    /// The record on side 0.
    pub fn column0(&self) -> (r: &ComRec)
        ensures
            r@ == self@.1,
    {
        &self.column0
    }

    /// The record on side 1.
    pub fn column1(&self) -> (r: &ComRec)
        ensures
            r@ == self@.2,
    {
        &self.column1
    }

    /// Whether the line is selected.
    pub fn selected(&self) -> (r: bool)
        ensures
            r == self@.0,
    {
        self.selected
    }

    /// The path of the line on the local filesystem: that of side 0, or
    /// that of side 1 when side 0 is empty.
    pub fn fs_rel(&self, win: bool) -> (r: String)
        requires
            !row_is_empty(self@),
        ensures
            r@ == with_separator(row_path(self@), local_separator(win)),
            !win ==> r@ == row_path(self@),
    {
        if self.column0.is_empty() {
            self.column1.fs_rel(win)
        } else {
            self.column0.fs_rel(win)
        }
    }

    /// The path of the line: that of side 0, or that of side 1 when side 0
    /// is empty.
    pub fn frel(&self) -> (r: &str)
        requires
            !row_is_empty(self@),
        ensures
            r@ == row_path(self@),
    {
        if self.column0.is_empty() {
            self.column1.frel()
        } else {
            self.column0.frel()
        }
    }

    /// A copy of the line.
    pub fn copy(&self) -> (r: DRow)
        ensures
            r@ == self@,
    {
        DRow { selected: self.selected, column0: self.column0.copy(), column1: self.column1.copy() }
    }
}

/// The views of a list of diff lines.
pub open spec fn rows_view(s: Seq<DRow>) -> Seq<(bool, (Seq<char>, u8, i64), (Seq<char>, u8, i64))> {
    s.map_values(|r: DRow| r@)
}

/// The lines that still carry a file on some side.
pub open spec fn keeps_file(r: (bool, (Seq<char>, u8, i64), (Seq<char>, u8, i64))) -> bool {
    !row_is_empty(r)
}

/// `keeps_file` as a predicate value.
pub open spec fn keeps_file_pred() -> spec_fn((bool, (Seq<char>, u8, i64), (Seq<char>, u8, i64))) -> bool {
    |r: (bool, (Seq<char>, u8, i64), (Seq<char>, u8, i64))| keeps_file(r)
}

/// Drops the lines whose both sides are empty, keeping the others in order.
pub fn remove_empty_rows(difflst: &mut Vec<DRow>)
    ensures
        rows_view(final(difflst)@) == rows_view(old(difflst)@).filter(keeps_file_pred()),
{
    let ghost pred = keeps_file_pred();
    let mut kept: Vec<DRow> = Vec::new();
    let mut i: usize = 0;
    while i < difflst.len()
        invariant
            i <= difflst.len(),
            difflst@ == old(difflst)@,
            pred == keeps_file_pred(),
            rows_view(kept@) == rows_view(difflst@).take(i as int).filter(pred),
        decreases difflst.len() - i,
    {
        let ghost s = rows_view(difflst@);
        proof {
            assert(s.take(i + 1) =~= s.take(i as int).push(s[i as int]));
            s.take(i as int).lemma_filter_push(s[i as int], pred);
            assert(s[i as int] == difflst@[i as int]@);
            assert(pred(s[i as int]) == keeps_file(s[i as int]));
        }
        let keep = !difflst[i].column0.is_empty() || !difflst[i].column1.is_empty();
        assert(keep == keeps_file(s[i as int]));
        if keep {
            let c = difflst[i].copy();
            let ghost before = rows_view(kept@);
            kept.push(c);
            assert(rows_view(kept@) =~= before.push(c@));
        }
        i = i + 1;
    }
    assert(rows_view(difflst@).take(i as int) =~= rows_view(difflst@));
    *difflst = kept;
}


// ---------------------------------------------------------------------------
// Ordering records and building the diff.
/// The order of records: by path, then side, then size (the order of the
/// fields, as a derived `Ord` compares them).
pub open spec fn rec_lt(a: (Seq<char>, u8, i64), b: (Seq<char>, u8, i64)) -> bool {
    seq_lt(a.0, b.0) || (a.0 == b.0 && (a.1 < b.1 || (a.1 == b.1 && a.2 < b.2)))
}

/// No record sorts before itself.
pub proof fn lemma_rec_lt_irreflexive(a: (Seq<char>, u8, i64))
    ensures
        !rec_lt(a, a),
{
    lemma_seq_lt_irreflexive(a.0);
}

/// The record order is transitive.
pub proof fn lemma_rec_lt_transitive(
    a: (Seq<char>, u8, i64),
    b: (Seq<char>, u8, i64),
    c: (Seq<char>, u8, i64),
)
    requires
        rec_lt(a, b),
        rec_lt(b, c),
    ensures
        rec_lt(a, c),
{
    if seq_lt(a.0, b.0) && seq_lt(b.0, c.0) {
        lemma_seq_lt_transitive(a.0, b.0, c.0);
    }
}

/// Two different records are ordered one way or the other.
pub proof fn lemma_rec_lt_total(a: (Seq<char>, u8, i64), b: (Seq<char>, u8, i64))
    ensures
        a == b || rec_lt(a, b) || rec_lt(b, a),
{
    lemma_seq_lt_total(a.0, b.0);
}

/// The record order is asymmetric.
pub proof fn lemma_rec_lt_asymmetric(a: (Seq<char>, u8, i64), b: (Seq<char>, u8, i64))
    requires
        rec_lt(a, b),
    ensures
        !rec_lt(b, a),
{
    if rec_lt(b, a) {
        lemma_rec_lt_transitive(a, b, a);
        lemma_rec_lt_irreflexive(a);
    }
}

/// The views of a list of records.
pub open spec fn recs_view(s: Seq<ComRec>) -> Seq<(Seq<char>, u8, i64)> {
    s.map_values(|r: ComRec| r@)
}

/// Records in ascending order.
pub open spec fn recs_sorted(s: Seq<(Seq<char>, u8, i64)>) -> bool {
    forall|i: int, j: int| 0 <= i < j < s.len() ==> !rec_lt(#[trigger] s[j], #[trigger] s[i])
}

fn rec_lt_exec(a: &ComRec, b: &ComRec) -> (r: bool)
    ensures
        r == rec_lt(a@, b@),
{
    let ca = chars_of(a.frel.as_str());
    let cb = chars_of(b.frel.as_str());
    if chars_lt(ca.as_slice(), cb.as_slice()) {
        return true;
    }
    if !str_eq(a.frel.as_str(), b.frel.as_str()) {
        return false;
    }
    a.col < b.col || (a.col == b.col && a.fsize < b.fsize)
}

/// Sorts records in ascending order, as `sort_unstable` does.
pub fn sort_records(v: &mut Vec<ComRec>)
    ensures
        recs_sorted(recs_view(final(v)@)),
        recs_view(final(v)@).to_multiset() == recs_view(old(v)@).to_multiset(),
{
    let ghost orig = recs_view(v@);
    let mut out: Vec<ComRec> = Vec::new();
    while v.len() > 0
        invariant
            recs_sorted(recs_view(out@)),
            recs_view(out@).to_multiset().add(recs_view(v@).to_multiset()) == orig.to_multiset(),
        decreases v.len(),
    {
        let ghost before_v = v@;
        let x = v.pop().unwrap();
        proof {
            assert(before_v =~= v@.push(x));
            assert(recs_view(before_v) =~= recs_view(v@).push(x@));
        }
        let mut pos: usize = 0;
        while pos < out.len()
            invariant
                pos <= out.len(),
                forall|k: int| 0 <= k < pos ==> !rec_lt(x@, #[trigger] recs_view(out@)[k]),
            ensures
                pos <= out.len(),
                forall|k: int| 0 <= k < pos ==> !rec_lt(x@, #[trigger] recs_view(out@)[k]),
                pos < out.len() ==> rec_lt(x@, recs_view(out@)[pos as int]),
            decreases out.len() - pos,
        {
            if rec_lt_exec(&x, &out[pos]) {
                break;
            }
            pos = pos + 1;
        }
        let ghost old_out = recs_view(out@);
        out.insert(pos, x);
        proof {
            let nv = recs_view(out@);
            assert(nv =~= old_out.insert(pos as int, x@));
            assert forall|i: int, j: int| 0 <= i < j < nv.len() implies !rec_lt(
                #[trigger] nv[j],
                #[trigger] nv[i],
            ) by {
                if i < pos && j == pos {
                    lemma_rec_lt_total(x@, nv[i]);
                    if rec_lt(x@, nv[i]) {
                    } else if x@ == nv[i] {
                        lemma_rec_lt_irreflexive(x@);
                    } else {
                        lemma_rec_lt_asymmetric(nv[i], x@);
                    }
                } else if i == pos && j > pos {
                    let y = old_out[pos as int];
                    if j > pos + 1 {
                        assert(!rec_lt(old_out[j - 1], old_out[pos as int]));
                        lemma_rec_lt_total(old_out[j - 1], y);
                        if rec_lt(y, old_out[j - 1]) {
                            lemma_rec_lt_transitive(x@, y, old_out[j - 1]);
                        }
                        lemma_rec_lt_asymmetric(x@, old_out[j - 1]);
                    } else {
                        lemma_rec_lt_asymmetric(x@, y);
                    }
                } else if i < pos && j > pos {
                    assert(nv[i] == old_out[i]);
                    assert(nv[j] == old_out[j - 1]);
                } else if i > pos {
                    assert(nv[i] == old_out[i - 1]);
                    assert(nv[j] == old_out[j - 1]);
                } else {
                    assert(nv[i] == old_out[i]);
                    assert(nv[j] == old_out[j]);
                }
            }
            vstd::seq_lib::lemma_multiset_commutative(
                old_out.take(pos as int).push(x@),
                old_out.skip(pos as int),
            );
            vstd::seq_lib::lemma_multiset_commutative(
                old_out.take(pos as int),
                old_out.skip(pos as int),
            );
            assert(old_out.take(pos as int) + old_out.skip(pos as int) =~= old_out);
            assert(old_out.insert(pos as int, x@) =~= old_out.take(pos as int).push(x@)
                + old_out.skip(pos as int));
        }
    }
    proof {
        assert(recs_view(v@) =~= Seq::<(Seq<char>, u8, i64)>::empty());
    }
    *v = out;
}

/// All records of both sides of a pair, in ascending order: side 0's
/// records followed by side 1's, then sorted.
pub fn merge_recs_for_diff(first: Vec<ComRec>, second: Vec<ComRec>) -> (r: Vec<ComRec>)
    ensures
        recs_sorted(recs_view(r@)),
        recs_view(r@).to_multiset() == (recs_view(first@) + recs_view(second@)).to_multiset(),
{
    let mut all = first;
    let mut second = second;
    let ghost f = recs_view(all@);
    let ghost g = recs_view(second@);
    all.append(&mut second);
    assert(recs_view(all@) =~= f + g);
    sort_records(&mut all);
    all
}

/// The diff line of a record with no partner: it stands on its own side.
pub open spec fn single_row(x: (Seq<char>, u8, i64)) -> (
    bool,
    (Seq<char>, u8, i64),
    (Seq<char>, u8, i64),
) {
    if x.1 == 0 {
        (false, x, empty_rec())
    } else {
        (false, empty_rec(), x)
    }
}

/// The diff lines of a sorted list of records: two neighbours with the same
/// path form one line, the first on side 0 and the second on side 1; every
/// other record forms a line of its own.
pub open spec fn pair_rows(s: Seq<(Seq<char>, u8, i64)>) -> Seq<
    (bool, (Seq<char>, u8, i64), (Seq<char>, u8, i64)),
>
    decreases s.len(),
{
    if s.len() == 0 {
        Seq::empty()
    } else if s.len() == 1 {
        seq![single_row(s[0])]
    } else if s[0].0 == s[1].0 {
        seq![(false, s[0], s[1])] + pair_rows(s.skip(2))
    } else {
        seq![single_row(s[0])] + pair_rows(s.skip(1))
    }
}

/// The records a list of diff lines carries, line by line, side 0 before
/// side 1, leaving out empty sides.
pub open spec fn records_of_rows(rows: Seq<(bool, (Seq<char>, u8, i64), (Seq<char>, u8, i64))>) -> Seq<(Seq<char>, u8, i64)>
    decreases rows.len(),
{
    if rows.len() == 0 {
        Seq::empty()
    } else {
        let r = rows.last();
        let a = if r.1.0.len() > 0 { seq![r.1] } else { Seq::empty() };
        let b = if r.2.0.len() > 0 { seq![r.2] } else { Seq::empty() };
        records_of_rows(rows.drop_last()) + a + b
    }
}

proof fn lemma_records_of_rows_append(
    x: Seq<(bool, (Seq<char>, u8, i64), (Seq<char>, u8, i64))>,
    y: Seq<(bool, (Seq<char>, u8, i64), (Seq<char>, u8, i64))>,
)
    ensures
        records_of_rows(x + y) == records_of_rows(x) + records_of_rows(y),
    decreases y.len(),
{
    if y.len() == 0 {
        assert(x + y =~= x);
        assert(records_of_rows(x) + records_of_rows(y) =~= records_of_rows(x));
    } else {
        lemma_records_of_rows_append(x, y.drop_last());
        assert((x + y).drop_last() =~= x + y.drop_last());
        assert((x + y).last() == y.last());
        let r = y.last();
        let a = if r.1.0.len() > 0 { seq![r.1] } else { Seq::<(Seq<char>, u8, i64)>::empty() };
        let b = if r.2.0.len() > 0 { seq![r.2] } else { Seq::<(Seq<char>, u8, i64)>::empty() };
        assert(records_of_rows(x) + records_of_rows(y.drop_last()) + a + b =~= records_of_rows(x) + (
        records_of_rows(y.drop_last()) + a + b));
    }
}

proof fn lemma_records_of_one_row(r: (bool, (Seq<char>, u8, i64), (Seq<char>, u8, i64)))
    ensures
        records_of_rows(seq![r]) == (if r.1.0.len() > 0 { seq![r.1] } else { Seq::empty() }) + (if r.2.0.len() > 0 {
            seq![r.2]
        } else {
            Seq::empty()
        }),
{
    let one = seq![r];
    assert(one.drop_last() =~= Seq::<(bool, (Seq<char>, u8, i64), (Seq<char>, u8, i64))>::empty());
    assert(one.last() == r);
    let a = if r.1.0.len() > 0 { seq![r.1] } else { Seq::<(Seq<char>, u8, i64)>::empty() };
    let b = if r.2.0.len() > 0 { seq![r.2] } else { Seq::<(Seq<char>, u8, i64)>::empty() };
    assert(records_of_rows(one.drop_last()) + a + b =~= a + b);
}

/// Diffing loses and invents nothing: the lines carry exactly the sorted
/// records, in order, each once.
pub proof fn lemma_diff_rows_keep_every_record(s: Seq<(Seq<char>, u8, i64)>)
    requires
        forall|k: int| 0 <= k < s.len() ==> (#[trigger] s[k]).0.len() > 0,
    ensures
        records_of_rows(pair_rows(s)) == s,
    decreases s.len(),
{
    if s.len() == 0 {
    } else if s.len() == 1 {
        let r = single_row(s[0]);
        lemma_records_of_one_row(r);
        assert(records_of_rows(seq![r]) =~= s);
    } else if s[0].0 == s[1].0 {
        let t = s.skip(2);
        assert forall|k: int| 0 <= k < t.len() implies (#[trigger] t[k]).0.len() > 0 by {
            assert(t[k] == s[k + 2]);
        }
        lemma_diff_rows_keep_every_record(t);
        let row = (false, s[0], s[1]);
        lemma_records_of_rows_append(seq![row], pair_rows(t));
        lemma_records_of_one_row(row);
        assert(records_of_rows(seq![row]) =~= seq![s[0], s[1]]);
        assert(seq![s[0], s[1]] + t =~= s);
    } else {
        let t = s.skip(1);
        assert forall|k: int| 0 <= k < t.len() implies (#[trigger] t[k]).0.len() > 0 by {
            assert(t[k] == s[k + 1]);
        }
        lemma_diff_rows_keep_every_record(t);
        let row = single_row(s[0]);
        lemma_records_of_rows_append(seq![row], pair_rows(t));
        lemma_records_of_one_row(row);
        assert(records_of_rows(seq![row]) =~= seq![s[0]]);
        assert(seq![s[0]] + t =~= s);
    }
}

/// A path found on both sides of a pair shows as one line: when two
/// neighbouring sorted records share a path (and no path occurs three
/// times, as none does when each side lists a path once), one line holds
/// the first on side 0 and the second on side 1, whatever their sizes.
pub proof fn lemma_shared_path_one_line(s: Seq<(Seq<char>, u8, i64)>, i: int)
    requires
        0 <= i,
        i + 1 < s.len(),
        s[i].0 == s[i + 1].0,
        forall|k: int| 0 <= k && k + 2 < s.len() ==> (#[trigger] s[k]).0 != s[k + 2].0,
    ensures
        pair_rows(s).contains((false, s[i], s[i + 1])),
    decreases s.len(),
{
    if s[0].0 == s[1].0 {
        let t = s.skip(2);
        if i == 0 {
            assert(pair_rows(s)[0] == (false, s[0], s[1]));
        } else {
            if i == 1 {
                assert(s[0].0 != s[2].0);
            }
            assert forall|k: int| 0 <= k && k + 2 < t.len() implies (#[trigger] t[k]).0 != t[k + 2].0 by {
                assert(t[k] == s[k + 2] && t[k + 2] == s[k + 4]);
            }
            assert(t[i - 2] == s[i] && t[i - 1] == s[i + 1]);
            lemma_shared_path_one_line(t, i - 2);
            let j = choose|j: int| 0 <= j < pair_rows(t).len() && pair_rows(t)[j] == (false, s[i], s[i + 1]);
            assert(pair_rows(s)[j + 1] == pair_rows(t)[j]);
        }
    } else {
        let t = s.skip(1);
        assert(i >= 1);
        assert forall|k: int| 0 <= k && k + 2 < t.len() implies (#[trigger] t[k]).0 != t[k + 2].0 by {
            assert(t[k] == s[k + 1] && t[k + 2] == s[k + 3]);
        }
        assert(t[i - 1] == s[i] && t[i] == s[i + 1]);
        lemma_shared_path_one_line(t, i - 1);
        let j = choose|j: int| 0 <= j < pair_rows(t).len() && pair_rows(t)[j] == (false, s[i], s[i + 1]);
        assert(pair_rows(s)[j + 1] == pair_rows(t)[j]);
    }
}

fn single_drow(x: &ComRec) -> (r: DRow)
    ensures
        r@ == single_row(x@),
{
    if x.col == 0 {
        mk_drow(x.copy(), ComRec::empty())
    } else {
        mk_drow(ComRec::empty(), x.copy())
    }
}

/// Builds the diff lines from the sorted records of both sides.
pub fn build_diff_rows(flist: &Vec<ComRec>) -> (r: Vec<DRow>)
    ensures
        rows_view(r@) == pair_rows(recs_view(flist@)),
{
    let ghost s = recs_view(flist@);
    let mut out: Vec<DRow> = Vec::new();
    let mut i: usize = 0;
    assert(s.skip(0) =~= s);
    while i < flist.len()
        invariant
            i <= flist.len(),
            s == recs_view(flist@),
            rows_view(out@) + pair_rows(s.skip(i as int)) == pair_rows(s),
        decreases flist.len() - i,
    {
        let ghost t = s.skip(i as int);
        let ghost before = rows_view(out@);
        assert(t[0] == flist@[i as int]@);
        if i + 1 < flist.len() && str_eq(flist[i].frel.as_str(), flist[i + 1].frel.as_str()) {
            assert(t[1] == flist@[i + 1]@);
            let d = mk_drow(flist[i].copy(), flist[i + 1].copy());
            out.push(d);
            proof {
                assert(t.skip(2) =~= s.skip(i + 2));
                assert(rows_view(out@) =~= before.push(d@));
                assert(before.push(d@) + pair_rows(s.skip(i + 2)) =~= before + (seq![d@]
                    + pair_rows(t.skip(2))));
            }
            i = i + 2;
        } else {
            let d = single_drow(&flist[i]);
            out.push(d);
            proof {
                assert(t.skip(1) =~= s.skip(i + 1));
                assert(rows_view(out@) =~= before.push(d@));
                if t.len() == 1 {
                    assert(t.skip(1) =~= Seq::<(Seq<char>, u8, i64)>::empty());
                    assert(pair_rows(t) =~= seq![single_row(t[0])] + pair_rows(t.skip(1)));
                }
                assert(before.push(d@) + pair_rows(s.skip(i + 1)) =~= before + (seq![d@]
                    + pair_rows(t.skip(1))));
            }
            i = i + 1;
        }
    }
    assert(s.skip(i as int) =~= Seq::<(Seq<char>, u8, i64)>::empty());
    assert(rows_view(out@) + Seq::empty() =~= rows_view(out@));
    out
}


// ---------------------------------------------------------------------------
// Selecting lines.
/// Whether every line in `b..=e` is selected.
pub open spec fn all_selected(s: Seq<(bool, (Seq<char>, u8, i64), (Seq<char>, u8, i64))>, b: int, e: int) -> bool {
    forall|k: int| b <= k <= e ==> #[trigger] s[k].0
}

/// Toggles the selection of the lines `b..=e`: when all of them are
/// selected they all become unselected, otherwise they all become selected.
/// Other lines, and the records of every line, stay as they were.
pub fn toggle_selection(lst: &mut Vec<DRow>, b: usize, e: usize)
    requires
        b <= e < old(lst).len(),
    ensures
        final(lst)@.len() == old(lst)@.len(),
        forall|k: int|
            0 <= k < old(lst)@.len() ==> {
                let o = rows_view(old(lst)@)[k];
                let n = #[trigger] rows_view(final(lst)@)[k];
                &&& n.1 == o.1
                &&& n.2 == o.2
                &&& n.0 == if b <= k <= e {
                    !all_selected(rows_view(old(lst)@), b as int, e as int)
                } else {
                    o.0
                }
            },
{
    let ghost s0 = rows_view(lst@);
    let mut all = true;
    let mut k: usize = b;
    while k <= e
        invariant
            b <= k <= e + 1,
            e < lst.len(),
            s0 == rows_view(lst@),
            all == (forall|j: int| b <= j < k ==> #[trigger] s0[j].0),
        decreases e + 1 - k,
    {
        assert(s0[k as int] == lst@[k as int]@);
        let sel = lst[k].selected;
        assert(sel == s0[k as int].0);
        if !sel {
            all = false;
        }
        proof {
            if all {
                assert forall|j: int| b <= j < k + 1 implies #[trigger] s0[j].0 by {
                    if j < k {
                    }
                }
            } else {
                if sel {
                    let w = choose|j: int| b <= j < k && !#[trigger] s0[j].0;
                    assert(b <= w < k + 1 && !s0[w].0);
                } else {
                    assert(b <= k < k + 1 && !s0[k as int].0);
                }
            }
        }
        k = k + 1;
    }
    let target = !all;
    let mut k: usize = b;
    while k <= e
        invariant
            b <= k <= e + 1,
            e < old(lst).len(),
            lst@.len() == old(lst)@.len(),
            s0 == rows_view(old(lst)@),
            forall|j: int|
                0 <= j < s0.len() ==> {
                    let o = s0[j];
                    let n = #[trigger] rows_view(lst@)[j];
                    &&& n.1 == o.1
                    &&& n.2 == o.2
                    &&& n.0 == if b <= j < k {
                        target
                    } else {
                        o.0
                    }
                },
        decreases e + 1 - k,
    {
        let ghost before = lst@;
        lst[k].selected = target;
        proof {
            assert(lst@[k as int]@ == (target, before[k as int]@.1, before[k as int]@.2));
            assert forall|j: int| 0 <= j < s0.len() implies {
                let o = s0[j];
                let n = #[trigger] rows_view(lst@)[j];
                &&& n.1 == o.1
                &&& n.2 == o.2
                &&& n.0 == if b <= j < k + 1 {
                    target
                } else {
                    o.0
                }
            } by {
                assert(rows_view(lst@)[j] == lst@[j]@);
                assert(rows_view(before)[j] == before[j]@);
                if j != k {
                    assert(lst@[j] == before[j]);
                }
            }
        }
        k = k + 1;
    }
}

/// What the user asks for in the diff listing.
#[derive(PartialEq, Eq, Structural, Debug)]
pub enum DiffCommand {
    /// Leave the listing (empty input).
    Leave,
    /// Toggle the selection of all lines (`all`).
    ToggleAll,
    /// Sync the selected lines with data from side 0 (`use0`).
    Use0,
    /// Sync the selected lines with data from side 1 (`use1`).
    Use1,
    /// Toggle the lines `b..=e` (`b-e`, or a single index).
    Toggle(usize, usize),
    /// Anything else, or an index out of range.
    Invalid,
}

/// The command that an input line means, for a listing of `n` lines.
pub open spec fn diff_command_spec(s: Seq<char>, n: nat) -> DiffCommand {
    if s.len() == 0 {
        DiffCommand::Leave
    } else if s == "all"@ {
        DiffCommand::ToggleAll
    } else if s == "use0"@ {
        DiffCommand::Use0
    } else if s == "use1"@ {
        DiffCommand::Use1
    } else {
        match find_char(s, '-') {
            Some(h) => match (parse_usize_spec(s.take(h)), parse_usize_spec(s.skip(h + 1))) {
                (Some(b), Some(e)) => if b <= e && e < n {
                    DiffCommand::Toggle(b, e)
                } else {
                    DiffCommand::Invalid
                },
                _ => DiffCommand::Invalid,
            },
            None => match parse_usize_spec(s) {
                Some(i) => if i < n {
                    DiffCommand::Toggle(i, i)
                } else {
                    DiffCommand::Invalid
                },
                None => DiffCommand::Invalid,
            },
        }
    }
}

/// Reads a command typed in the diff listing of `n` lines.
pub fn parse_diff_command(instr: &str, n: usize) -> (r: DiffCommand)
    ensures
        r == diff_command_spec(instr@, n as nat),
{
    if instr.is_empty() {
        return DiffCommand::Leave;
    }
    if str_eq(instr, "all") {
        return DiffCommand::ToggleAll;
    }
    if str_eq(instr, "use0") {
        return DiffCommand::Use0;
    }
    if str_eq(instr, "use1") {
        return DiffCommand::Use1;
    }
    let cs = chars_of(instr);
    proof {
        crate::text::lemma_find_char(cs@, '-');
    }
    match chars_find(cs.as_slice(), '-') {
        Some(h) => {
            let mut left = String::new();
            let mut right = String::new();
            let mut k: usize = 0;
            while k < cs.len()
                invariant
                    k <= cs.len(),
                    h < cs.len(),
                    left@ == cs@.take(if k <= h { k as int } else { h as int }),
                    right@ == (if k <= h + 1 { Seq::<char>::empty() } else { cs@.subrange(h + 1, k as int) }),
                decreases cs.len() - k,
            {
                if k < h {
                    left.push(cs[k]);
                    assert(cs@.take(k + 1) =~= cs@.take(k as int).push(cs@[k as int]));
                } else if k > h {
                    right.push(cs[k]);
                    assert(cs@.subrange(h + 1, k + 1) =~= (if k <= h + 1 { Seq::<char>::empty() } else { cs@.subrange(h + 1, k as int) }).push(cs@[k as int]));
                }
                k = k + 1;
            }
            assert(cs@.subrange(h + 1, cs.len() as int) =~= cs@.skip(h + 1));
            if h + 1 == cs.len() {
                assert(cs@.skip(h + 1) =~= Seq::<char>::empty());
            }
            let b = parse_usize(left.as_str());
            let e = parse_usize(right.as_str());
            match (b, e) {
                (Some(b), Some(e)) => {
                    if b <= e && e < n {
                        DiffCommand::Toggle(b, e)
                    } else {
                        DiffCommand::Invalid
                    }
                },
                _ => DiffCommand::Invalid,
            }
        },
        None => match parse_usize(instr) {
            Some(i) => {
                if i < n {
                    DiffCommand::Toggle(i, i)
                } else {
                    DiffCommand::Invalid
                }
            },
            None => DiffCommand::Invalid,
        },
    }
}

// ---------------------------------------------------------------------------
// Syncing a line.
/// What syncing a selected line does to the destination.
#[derive(PartialEq, Eq, Structural, Debug)]
pub enum SyncAction {
    /// The source has no file: delete the destination's file.
    Delete,
    /// The source's file is missing or of another size at the destination:
    /// copy it over.
    Overwrite,
    /// Nothing to do.
    Skip,
}

/// The action for a line whose source record is `src` and destination
/// record is `dst`.
pub open spec fn sync_action_spec(src: (Seq<char>, u8, i64), dst: (Seq<char>, u8, i64)) -> SyncAction {
    if src.0.len() == 0 {
        SyncAction::Delete
    } else if src.2 != dst.2 || dst.0.len() == 0 {
        SyncAction::Overwrite
    } else {
        SyncAction::Skip
    }
}

/// Decides what syncing from `csrc` to `cdst` does.
pub fn sync_action(csrc: &ComRec, cdst: &ComRec) -> (r: SyncAction)
    ensures
        r == sync_action_spec(csrc@, cdst@),
{
    if csrc.is_empty() {
        SyncAction::Delete
    } else if csrc.fsize != cdst.fsize || cdst.is_empty() {
        SyncAction::Overwrite
    } else {
        SyncAction::Skip
    }
}

/// The destination record after its action has been carried out.
pub open spec fn synced_dst(src: (Seq<char>, u8, i64), dst: (Seq<char>, u8, i64)) -> (Seq<char>, u8, i64) {
    match sync_action_spec(src, dst) {
        SyncAction::Delete => (Seq::<char>::empty(), dst.1, 0i64),
        SyncAction::Overwrite => (src.0, dst.1, src.2),
        SyncAction::Skip => dst,
    }
}

/// A line after it was synced from side 0 (`from0`) or from side 1.
pub open spec fn synced_row(r: (bool, (Seq<char>, u8, i64), (Seq<char>, u8, i64)), from0: bool) -> (
    bool,
    (Seq<char>, u8, i64),
    (Seq<char>, u8, i64),
) {
    if from0 {
        (r.0, r.1, synced_dst(r.1, r.2))
    } else {
        (r.0, synced_dst(r.2, r.1), r.2)
    }
}

/// What the local path of a line must be before a sync touches anything.
#[derive(PartialEq, Eq, Structural, Clone, Copy, Debug)]
pub enum PathCheck {
    /// A download creates it: neither it nor an ancestor may be taken by
    /// something other than a folder.
    Creatable,
    /// A download overwrites it: it must be a regular file.
    RegularFile,
    /// An upload deletes the remote copy: nothing may stand at the path.
    Absent,
    /// An upload sends it: a regular file no larger than an upload allows.
    UploadableFile,
}

/// The check a line calls for: on a download the destination side
/// decides, on an upload the source side; `from0` tells which side is the
/// source.
pub open spec fn path_check_spec(r: (bool, (Seq<char>, u8, i64), (Seq<char>, u8, i64)), from0: bool, download: bool) -> PathCheck {
    let (src, dst) = if from0 {
        (r.1, r.2)
    } else {
        (r.2, r.1)
    };
    if download {
        if dst.0.len() == 0 {
            PathCheck::Creatable
        } else {
            PathCheck::RegularFile
        }
    } else if src.0.len() == 0 {
        PathCheck::Absent
    } else {
        PathCheck::UploadableFile
    }
}

impl DRow {
    /// The check the local path of this line must pass before a sync from
    /// side 0 (`from0`) or side 1, downloading (`download`) or uploading.
    pub fn path_check(&self, from0: bool, download: bool) -> (r: PathCheck)
        ensures
            r == path_check_spec(self@, from0, download),
    {
        let (src, dst) = if from0 {
            (&self.column0, &self.column1)
        } else {
            (&self.column1, &self.column0)
        };
        if download {
            if dst.is_empty() {
                PathCheck::Creatable
            } else {
                PathCheck::RegularFile
            }
        } else if src.is_empty() {
            PathCheck::Absent
        } else {
            PathCheck::UploadableFile
        }
    }

    /// The action that syncing this line from side 0 (`from0`) or from side
    /// 1 calls for.
    pub fn sync_action(&self, from0: bool) -> (r: SyncAction)
        ensures
            r == (if from0 {
                sync_action_spec(self@.1, self@.2)
            } else {
                sync_action_spec(self@.2, self@.1)
            }),
    {
        if from0 {
            sync_action(&self.column0, &self.column1)
        } else {
            sync_action(&self.column1, &self.column0)
        }
    }

    /// Records that the line's action has been carried out: a deleted
    /// destination is cleared, an overwritten one takes the source's path
    /// and size.
    pub fn apply_sync(&mut self, from0: bool)
        ensures
            final(self)@ == synced_row(old(self)@, from0),
    {
        if from0 {
            match sync_action(&self.column0, &self.column1) {
                SyncAction::Delete => self.column1.clear_f(),
                SyncAction::Overwrite => {
                    let src = self.column0.copy();
                    self.column1.becomes_eq(&src);
                },
                SyncAction::Skip => {},
            }
        } else {
            match sync_action(&self.column1, &self.column0) {
                SyncAction::Delete => self.column0.clear_f(),
                SyncAction::Overwrite => {
                    let src = self.column1.copy();
                    self.column0.becomes_eq(&src);
                },
                SyncAction::Skip => {},
            }
        }
    }
}

/// Syncing settles a line: afterwards the line either carries no file at
/// all (and is dropped from the listing) or a second sync has nothing to do;
/// and a destination synced from an existing file holds a file of the
/// source's size.
pub proof fn lemma_sync_settles(r: (bool, (Seq<char>, u8, i64), (Seq<char>, u8, i64)), from0: bool)
    ensures
        ({
            let n = synced_row(r, from0);
            let (src, dst) = if from0 {
                (n.1, n.2)
            } else {
                (n.2, n.1)
            };
            &&& row_is_empty(n) || sync_action_spec(src, dst) == SyncAction::Skip
            &&& src.0.len() > 0 ==> dst.0.len() > 0 && dst.2 == src.2
            &&& synced_row(n, from0) == n
        }),
{
}

/// Which way a pair is synced, and between what.
#[derive(Debug)]
pub enum SyncPlan {
    /// From a cloud account (`src`: account, prefix) to a local entfo
    /// (`dst`: entfo id, prefix).
    Download { src: (String, String), dst: (String, String) },
    /// From a local entfo (`src`) to a cloud account (`dst`).
    Upload { src: (String, String), dst: (String, String) },
    /// Any other combination of sides.
    Unsupported,
}

impl View for InfoDir {
    type V = (u8, Seq<char>, Seq<char>);

    /// The kind (0 for an entfo, 1 for `M`, 2 for `D`), the id and the
    /// prefix.
    open spec fn view(&self) -> (u8, Seq<char>, Seq<char>) {
        match self {
            InfoDir::Entfo(p) => (0u8, p.0@, p.1@),
            InfoDir::M(p) => (1u8, p.0@, p.1@),
            InfoDir::D(p) => (2u8, p.0@, p.1@),
        }
    }
}

impl View for SyncPlan {
    type V = (u8, (Seq<char>, Seq<char>), (Seq<char>, Seq<char>));

    /// The kind (0 download, 1 upload, 2 unsupported), source and
    /// destination.
    open spec fn view(&self) -> (u8, (Seq<char>, Seq<char>), (Seq<char>, Seq<char>)) {
        match self {
            SyncPlan::Download { src, dst } => (0u8, (src.0@, src.1@), (dst.0@, dst.1@)),
            SyncPlan::Upload { src, dst } => (1u8, (src.0@, src.1@), (dst.0@, dst.1@)),
            SyncPlan::Unsupported => (2u8, (Seq::empty(), Seq::empty()), (Seq::empty(), Seq::empty())),
        }
    }
}

/// The plan for syncing from side `src` to side `dst`.
pub open spec fn plan_spec(src: (u8, Seq<char>, Seq<char>), dst: (u8, Seq<char>, Seq<char>)) -> (
    u8,
    (Seq<char>, Seq<char>),
    (Seq<char>, Seq<char>),
) {
    if src.0 == 2 && dst.0 == 0 {
        (0u8, (src.1, src.2), (dst.1, dst.2))
    } else if src.0 == 0 && dst.0 == 2 {
        (1u8, (src.1, src.2), (dst.1, dst.2))
    } else {
        (2u8, (Seq::empty(), Seq::empty()), (Seq::empty(), Seq::empty()))
    }
}

/// What the plan for syncing a pair of an entfo side `(e_id, e_prefix)`
/// and a cloud side `(account, c_prefix)` is, in either order of the pair
/// and either direction: syncing from the cloud side downloads from the
/// whole cloud side into the whole entfo side, syncing from the entfo side
/// uploads the other way; a pair with an `M` side, or with two sides of
/// one kind, has no plan.
pub proof fn lemma_sync_plan_moves_between_the_pair(
    e: (String, String),
    c: (String, String),
    entfo_first: bool,
    use0: bool,
    x: InfoDir,
    y: InfoDir,
)
    ensures
        ({
            let pair = if entfo_first {
                (InfoDir::Entfo(e), InfoDir::D(c))
            } else {
                (InfoDir::D(c), InfoDir::Entfo(e))
            };
            let plan = if use0 { plan_spec(pair.0@, pair.1@) } else { plan_spec(pair.1@, pair.0@) };
            let from_cloud = use0 != entfo_first;
            &&& from_cloud ==> plan == (0u8, (c.0@, c.1@), (e.0@, e.1@))
            &&& !from_cloud ==> plan == (1u8, (e.0@, e.1@), (c.0@, c.1@))
        }),
        x@.0 == y@.0 || x is M || y is M ==> plan_spec(x@, y@).0 == 2,
{
}

fn dir_parts(d: &InfoDir) -> (r: (u8, String, String))
    ensures
        (r.0, r.1@, r.2@) == d@,
{
    match d {
        InfoDir::Entfo(p) => (0u8, owned(p.0.as_str()), owned(p.1.as_str())),
        InfoDir::M(p) => (1u8, owned(p.0.as_str()), owned(p.1.as_str())),
        InfoDir::D(p) => (2u8, owned(p.0.as_str()), owned(p.1.as_str())),
    }
}

/// The plan for `use0` (`use0` true: from side 0 to side 1) or `use1`
/// (from side 1 to side 0).
pub fn sync_plan(pair: &(InfoDir, InfoDir), use0: bool) -> (r: SyncPlan)
    ensures
        r@ == (if use0 {
            plan_spec(pair.0@, pair.1@)
        } else {
            plan_spec(pair.1@, pair.0@)
        }),
{
    let (s, d) = if use0 {
        (dir_parts(&pair.0), dir_parts(&pair.1))
    } else {
        (dir_parts(&pair.1), dir_parts(&pair.0))
    };
    if s.0 == 2 && d.0 == 0 {
        SyncPlan::Download { src: (s.1, s.2), dst: (d.1, d.2) }
    } else if s.0 == 0 && d.0 == 2 {
        SyncPlan::Upload { src: (s.1, s.2), dst: (d.1, d.2) }
    } else {
        SyncPlan::Unsupported
    }
}

/// The cloud path of a file: a slash, the prefix, then the path.
pub fn dx_path(prefix: &str, frel: &str) -> (r: String)
    ensures
        r@ == seq!['/'] + prefix@ + frel@,
{
    let mut r = String::new();
    r.push('/');
    push_all(&mut r, prefix);
    push_all(&mut r, frel);
    assert(r@ =~= seq!['/'] + prefix@ + frel@);
    r
}

// ---------------------------------------------------------------------------
// Pairs.
/// A path prefix is usable when it is empty or ends with a separator.
pub open spec fn prefix_ok(p: Seq<char>) -> bool {
    p.len() == 0 || p.last() == '\\' || p.last() == '/'
}

/// Whether every side of every pair has a usable prefix.
pub open spec fn pairs_ok(s: Seq<((u8, Seq<char>, Seq<char>), (u8, Seq<char>, Seq<char>))>) -> bool {
    forall|i: int| 0 <= i < s.len() ==> prefix_ok(#[trigger] s[i].0.2) && prefix_ok(s[i].1.2)
}

/// The views of a list of pairs.
pub open spec fn pairs_view(s: Seq<(InfoDir, InfoDir)>) -> Seq<((u8, Seq<char>, Seq<char>), (u8, Seq<char>, Seq<char>))> {
    s.map_values(|p: (InfoDir, InfoDir)| (p.0@, p.1@))
}

fn prefix_ok_exec(d: &InfoDir) -> (r: bool)
    ensures
        r == prefix_ok(d@.2),
{
    let p = match d {
        InfoDir::Entfo(p) => &p.1,
        InfoDir::M(p) => &p.1,
        InfoDir::D(p) => &p.1,
    };
    let cs = chars_of(p.as_str());
    cs.len() == 0 || cs[cs.len() - 1] == '\\' || cs[cs.len() - 1] == '/'
}

/// Whether the pairs read from the pair file may be used; when one prefix
/// is not, the whole file is refused.
pub fn info_pairs_valid(pairs: &Vec<(InfoDir, InfoDir)>) -> (r: bool)
    ensures
        r == pairs_ok(pairs_view(pairs@)),
{
    let mut i: usize = 0;
    while i < pairs.len()
        invariant
            i <= pairs.len(),
            forall|j: int| 0 <= j < i ==> prefix_ok(#[trigger] pairs_view(pairs@)[j].0.2) && prefix_ok(pairs_view(pairs@)[j].1.2),
        decreases pairs.len() - i,
    {
        assert(pairs_view(pairs@)[i as int] == (pairs@[i as int].0@, pairs@[i as int].1@));
        let p0 = prefix_ok_exec(&pairs[i].0);
        let p1 = prefix_ok_exec(&pairs[i].1);
        assert(p0 == prefix_ok(pairs_view(pairs@)[i as int].0.2));
        assert(p1 == prefix_ok(pairs_view(pairs@)[i as int].1.2));
        if !p0 || !p1 {
            assert(pairs_view(pairs@)[i as int] == (pairs@[i as int].0@, pairs@[i as int].1@));
            assert(!(prefix_ok(pairs_view(pairs@)[i as int].0.2) && prefix_ok(pairs_view(pairs@)[i as int].1.2)));
            return false;
        }
        assert forall|j: int| 0 <= j < i + 1 implies prefix_ok(#[trigger] pairs_view(pairs@)[j].0.2) && prefix_ok(pairs_view(pairs@)[j].1.2) by {
            if j == i {
            }
        }
        i = i + 1;
    }
    true
}

// ---------------------------------------------------------------------------
// The listing.
/// The text shown for a record: its path and size.
pub open spec fn single_row_text(r: (Seq<char>, u8, i64)) -> Seq<char> {
    r.0 + " [SIZE] "@ + int_decimal(r.2 as int)
}

/// The line shown for a record on one side only.
pub fn print_single_row(comrec: &ComRec) -> (r: String)
    ensures
        r@ == single_row_text(comrec@),
{
    let mut r = owned(comrec.frel.as_str());
    push_all(&mut r, " [SIZE] ");
    let n = i64_to_string(comrec.fsize);
    push_all(&mut r, n.as_str());
    r
}

/// The text shown for a line with files on both sides: `=` when the sizes
/// agree, `!` and a trailing ` != ` when they differ.
pub open spec fn row_pair_text(a: (Seq<char>, u8, i64), b: (Seq<char>, u8, i64)) -> Seq<char> {
    if a.2 == b.2 {
        seq!['='] + single_row_text(a)
    } else {
        seq!['!'] + single_row_text(a) + " != "@
    }
}

/// The line shown for a record present on both sides.
pub fn print_row_cmp(cr0: &ComRec, cr1: &ComRec) -> (r: String)
    ensures
        r@ == row_pair_text(cr0@, cr1@),
{
    let mut r = String::new();
    if cr0.fsize == cr1.fsize {
        r.push('=');
        let t = print_single_row(cr0);
        push_all(&mut r, t.as_str());
    } else {
        r.push('!');
        let t = print_single_row(cr0);
        push_all(&mut r, t.as_str());
        push_all(&mut r, " != ");
    }
    r
}

fn pair_line(c0: &ComRec, c1: &ComRec) -> (r: String)
    ensures
        r@ == row_pair_text(c0@, c1@),
{
    print_row_cmp(c0, c1)
}

/// The text of line `idx` of the listing: selection mark, index, then `>`
/// and side 1's record when side 0 is empty, `<` and side 0's record when
/// side 1 is empty, or the comparison of both.
pub open spec fn diff_line_text(r: (bool, (Seq<char>, u8, i64), (Seq<char>, u8, i64)), idx: int) -> Seq<char> {
    let mark = if r.0 {
        '+'
    } else {
        ' '
    };
    if r.1.0.len() == 0 {
        seq![mark, ' '] + nat_decimal(idx as nat) + seq![' ', '>'] + single_row_text(r.2)
    } else if r.2.0.len() == 0 {
        seq![mark, ' '] + nat_decimal(idx as nat) + seq![' ', '<'] + single_row_text(r.1)
    } else {
        seq![mark, ' '] + nat_decimal(idx as nat) + seq![' '] + row_pair_text(r.1, r.2)
    }
}

/// The lines of the diff listing.
pub fn print_diff(difflst: &Vec<DRow>) -> (r: Vec<String>)
    ensures
        r@.len() == difflst@.len(),
        forall|i: int| 0 <= i < r@.len() ==> #[trigger] r@[i]@ == diff_line_text(difflst@[i]@, i),
{
    let mut out: Vec<String> = Vec::new();
    let mut i: usize = 0;
    while i < difflst.len()
        invariant
            i <= difflst.len(),
            out@.len() == i,
            forall|j: int| 0 <= j < i ==> #[trigger] out@[j]@ == diff_line_text(difflst@[j]@, j),
        decreases difflst.len() - i,
    {
        let drow = &difflst[i];
        let mut line = String::new();
        line.push(drow.sel_char());
        line.push(' ');
        let idx = usize_to_string(i);
        push_all(&mut line, idx.as_str());
        if drow.column0.is_empty() {
            line.push(' ');
            line.push('>');
            let t = print_single_row(&drow.column1);
            push_all(&mut line, t.as_str());
        } else if drow.column1.is_empty() {
            line.push(' ');
            line.push('<');
            let t = print_single_row(&drow.column0);
            push_all(&mut line, t.as_str());
        } else {
            line.push(' ');
            let t = pair_line(&drow.column0, &drow.column1);
            push_all(&mut line, t.as_str());
        }
        let ghost k: int = i as int;
        assert(line@ =~= diff_line_text(difflst@[k]@, k));
        out.push(line);
        i = i + 1;
    }
    out
}


/// The outcome of choosing a pair to compare.
#[derive(PartialEq, Eq, Structural, Debug)]
pub enum PairChoice {
    /// Empty input with a pair already chosen: keep it.
    KeepCurrent,
    /// Empty input and no pair chosen yet.
    NoChoiceYet,
    /// The input is not an index of a pair.
    InvalidIndex,
    /// The pair's remote sides have not been listed yet.
    NotListed,
    /// The pair at this index becomes the chosen one.
    Chosen(usize),
}

/// What choosing among `n` pairs with input `choice` gives.
pub open spec fn pair_choice_spec(
    pairs: Seq<((u8, Seq<char>, Seq<char>), (u8, Seq<char>, Seq<char>))>,
    choice: Seq<char>,
    has_current: bool,
    listed: Seq<Seq<char>>,
) -> PairChoice {
    if choice.len() == 0 {
        if has_current {
            PairChoice::KeepCurrent
        } else {
            PairChoice::NoChoiceYet
        }
    } else {
        match parse_usize_spec(choice) {
            None => PairChoice::InvalidIndex,
            Some(i) => if i >= pairs.len() {
                PairChoice::InvalidIndex
            } else if !(crate::remote::side_listed(pairs[i as int].0, listed)
                && crate::remote::side_listed(pairs[i as int].1, listed)) {
                PairChoice::NotListed
            } else {
                PairChoice::Chosen(i)
            },
        }
    }
}

/// Interprets the user's choice of a pair to compare.
pub fn choose_info_pair(
    pairs: &Vec<(InfoDir, InfoDir)>,
    choice: &str,
    has_current: bool,
    listed: &Vec<String>,
) -> (r: PairChoice)
    ensures
        r == pair_choice_spec(pairs_view(pairs@), choice@, has_current, crate::remote::strs_view(listed@)),
{
    if choice.is_empty() {
        return if has_current {
            PairChoice::KeepCurrent
        } else {
            PairChoice::NoChoiceYet
        };
    }
    match parse_usize(choice) {
        None => PairChoice::InvalidIndex,
        Some(i) => {
            if i >= pairs.len() {
                PairChoice::InvalidIndex
            } else {
                assert(pairs_view(pairs@)[i as int] == (pairs@[i as int].0@, pairs@[i as int].1@));
                if !crate::remote::chk_listed_at_least_once(listed, &pairs[i]) {
                    PairChoice::NotListed
                } else {
                    PairChoice::Chosen(i)
                }
            }
        },
    }
}

} // verus!
