//! Character-level helpers on which the rest of the library is built:
//! conversion between strings and character vectors, lexicographic order,
//! decimal numbers, and substring tests.
use vstd::prelude::*;

verus! {

broadcast use vstd::seq_lib::group_to_multiset_ensures;

/// `String::push` appends one character.
pub assume_specification[ String::push ](s: &mut String, ch: char)
    ensures
        final(s)@ == old(s)@.push(ch),
;

/// The characters of a string slice, in order.
pub fn chars_of(s: &str) -> (r: Vec<char>)
    ensures
        r@ == s@,
{
    let mut r: Vec<char> = Vec::new();
    for c in it: s.chars()
        invariant
            r@ == it.seq().take(it.index() as int),
    {
        r.push(c);
    }
    r
}

/// Builds a string from a sequence of characters.
pub fn string_of(cs: &[char]) -> (r: String)
    ensures
        r@ == cs@,
{
    let mut r = String::new();
    let mut i: usize = 0;
    while i < cs.len()
        invariant
            i <= cs.len(),
            r@ == cs@.take(i as int),
        decreases cs.len() - i,
    {
        r.push(cs[i]);
        i = i + 1;
    }
    r
}

/// The characters `start..end` of `cs` as a string.
pub fn chars_range(cs: &Vec<char>, start: usize, end: usize) -> (r: String)
    requires
        start <= end <= cs.len(),
    ensures
        r@ == cs@.subrange(start as int, end as int),
{
    let mut r = String::new();
    let mut i: usize = start;
    while i < end
        invariant
            start <= i <= end <= cs.len(),
            r@ == cs@.subrange(start as int, i as int),
        decreases end - i,
    {
        r.push(cs[i]);
        assert(cs@.subrange(start as int, i + 1) =~= cs@.subrange(start as int, i as int).push(cs@[i as int]));
        i = i + 1;
    }
    r
}

/// Appends the characters of `t` to `s`.
pub fn push_all(s: &mut String, t: &str)
    ensures
        final(s)@ == old(s)@ + t@,
{
    let cs = chars_of(t);
    let mut i: usize = 0;
    while i < cs.len()
        invariant
            i <= cs.len(),
            cs@ == t@,
            s@ == old(s)@ + cs@.take(i as int),
        decreases cs.len() - i,
    {
        s.push(cs[i]);
        i = i + 1;
    }
}

/// A copy of a string slice as an owned string.
pub fn owned(t: &str) -> (r: String)
    ensures
        r@ == t@,
{
    let mut r = String::new();
    push_all(&mut r, t);
    r
}

// ---------------------------------------------------------------------------
// Lexicographic order on character sequences (the order of `str`'s `Ord`,
// which compares UTF-8 bytes and therefore code points).
/// `a` sorts strictly before `b`.
pub open spec fn seq_lt(a: Seq<char>, b: Seq<char>) -> bool
    decreases a.len(),
{
    if a.len() == 0 {
        b.len() > 0
    } else if b.len() == 0 {
        false
    } else if a[0] < b[0] {
        true
    } else if a[0] == b[0] {
        seq_lt(a.drop_first(), b.drop_first())
    } else {
        false
    }
}

/// No sequence sorts before itself.
pub proof fn lemma_seq_lt_irreflexive(a: Seq<char>)
    ensures
        !seq_lt(a, a),
    decreases a.len(),
{
    if a.len() > 0 {
        lemma_seq_lt_irreflexive(a.drop_first());
    }
}

/// The order is transitive.
pub proof fn lemma_seq_lt_transitive(a: Seq<char>, b: Seq<char>, c: Seq<char>)
    requires
        seq_lt(a, b),
        seq_lt(b, c),
    ensures
        seq_lt(a, c),
    decreases a.len(),
{
    if a.len() > 0 && b.len() > 0 && c.len() > 0 && a[0] == b[0] && b[0] == c[0] {
        lemma_seq_lt_transitive(a.drop_first(), b.drop_first(), c.drop_first());
    }
}

/// Two different sequences are ordered one way or the other.
pub proof fn lemma_seq_lt_total(a: Seq<char>, b: Seq<char>)
    ensures
        a == b || seq_lt(a, b) || seq_lt(b, a),
    decreases a.len(),
{
    if a.len() > 0 && b.len() > 0 {
        if a[0] == b[0] {
            lemma_seq_lt_total(a.drop_first(), b.drop_first());
            if a.drop_first() == b.drop_first() {
                assert(a =~= seq![a[0]] + a.drop_first());
                assert(b =~= seq![b[0]] + b.drop_first());
            }
        }
    } else if a.len() == 0 && b.len() == 0 {
        assert(a =~= b);
    }
}

/// The order is asymmetric.
pub proof fn lemma_seq_lt_asymmetric(a: Seq<char>, b: Seq<char>)
    requires
        seq_lt(a, b),
    ensures
        !seq_lt(b, a),
{
    if seq_lt(b, a) {
        lemma_seq_lt_transitive(a, b, a);
        lemma_seq_lt_irreflexive(a);
    }
}

/// Whether `a` sorts strictly before `b`.
pub fn chars_lt(a: &[char], b: &[char]) -> (r: bool)
    ensures
        r == seq_lt(a@, b@),
{
    let mut i: usize = 0;
    assert(a@.skip(0) =~= a@);
    assert(b@.skip(0) =~= b@);
    while i < a.len() && i < b.len() && a[i] == b[i]
        invariant
            i <= a.len(),
            i <= b.len(),
            a@.take(i as int) == b@.take(i as int),
            seq_lt(a@, b@) == seq_lt(a@.skip(i as int), b@.skip(i as int)),
        decreases a.len() - i,
    {
        proof {
            let sa = a@.skip(i as int);
            let sb = b@.skip(i as int);
            assert(sa.drop_first() =~= a@.skip(i + 1));
            assert(sb.drop_first() =~= b@.skip(i + 1));
            assert(a@.take(i + 1) =~= a@.take(i as int).push(a@[i as int]));
            assert(b@.take(i + 1) =~= b@.take(i as int).push(b@[i as int]));
        }
        i = i + 1;
    }
    proof {
        let sa = a@.skip(i as int);
        let sb = b@.skip(i as int);
        if i < a.len() && i < b.len() {
            assert(sa[0] == a@[i as int]);
            assert(sb[0] == b@[i as int]);
        }
    }
    if i == a.len() {
        i < b.len()
    } else if i == b.len() {
        false
    } else {
        a[i] < b[i]
    }
}

/// Whether string `a` sorts strictly before string `b`.
pub fn str_lt(a: &str, b: &str) -> (r: bool)
    ensures
        r == seq_lt(a@, b@),
{
    let ca = chars_of(a);
    let cb = chars_of(b);
    chars_lt(ca.as_slice(), cb.as_slice())
}

/// Whether two strings have the same characters.
pub fn str_eq(a: &str, b: &str) -> (r: bool)
    ensures
        r == (a@ == b@),
{
    let ca = chars_of(a);
    let cb = chars_of(b);
    if ca.len() != cb.len() {
        return false;
    }
    let mut i: usize = 0;
    while i < ca.len()
        invariant
            ca@ == a@,
            cb@ == b@,
            ca.len() == cb.len(),
            i <= ca.len(),
            forall|j: int| 0 <= j < i ==> ca@[j] == cb@[j],
        decreases ca.len() - i,
    {
        if ca[i] != cb[i] {
            return false;
        }
        i = i + 1;
    }
    assert(ca@ =~= cb@);
    true
}

/// A sequence of strings in ascending order (duplicates allowed).
pub open spec fn strings_sorted(s: Seq<Seq<char>>) -> bool {
    forall|i: int, j: int| 0 <= i < j < s.len() ==> !seq_lt(#[trigger] s[j], #[trigger] s[i])
}

/// The character sequences of a vector of strings.
pub open spec fn views_of(v: Seq<String>) -> Seq<Seq<char>> {
    v.map_values(|s: String| s@)
}

/// Sorts strings in ascending order, as `sort_unstable` does.
pub fn sort_strings(v: &mut Vec<String>)
    ensures
        strings_sorted(views_of(final(v)@)),
        views_of(final(v)@).to_multiset() == views_of(old(v)@).to_multiset(),
{
    let ghost orig = views_of(v@);
    let mut out: Vec<String> = Vec::new();
    while v.len() > 0
        invariant
            strings_sorted(views_of(out@)),
            views_of(out@).to_multiset().add(views_of(v@).to_multiset()) == orig.to_multiset(),
        decreases v.len(),
    {
        let ghost before_v = v@;
        let x = v.pop().unwrap();
        proof {
            assert(before_v =~= v@.push(x));
            assert(views_of(before_v) =~= views_of(v@).push(x@));
        }
        let cx = chars_of(x.as_str());
        // first position whose element sorts after x
        let mut pos: usize = 0;
        while pos < out.len()
            invariant
                pos <= out.len(),
                cx@ == x@,
                forall|k: int| 0 <= k < pos ==> !seq_lt(x@, #[trigger] views_of(out@)[k]),
            ensures
                pos <= out.len(),
                forall|k: int| 0 <= k < pos ==> !seq_lt(x@, #[trigger] views_of(out@)[k]),
                pos < out.len() ==> seq_lt(x@, views_of(out@)[pos as int]),
            decreases out.len() - pos,
        {
            let cy = chars_of(out[pos].as_str());
            if chars_lt(cx.as_slice(), cy.as_slice()) {
                break;
            }
            pos = pos + 1;
        }
        let ghost old_out = views_of(out@);
        proof {
            assert(pos < out.len() ==> seq_lt(x@, old_out[pos as int]));
        }
        out.insert(pos, x);
        proof {
            let nv = views_of(out@);
            assert(nv =~= old_out.insert(pos as int, x@));
            assert forall|i: int, j: int| 0 <= i < j < nv.len() implies !seq_lt(
                #[trigger] nv[j],
                #[trigger] nv[i],
            ) by {
                if i < pos && j == pos {
                    // nv[i] does not sort after x
                    lemma_seq_lt_total(x@, nv[i]);
                    if seq_lt(x@, nv[i]) {
                    } else if x@ == nv[i] {
                        lemma_seq_lt_irreflexive(x@);
                    } else {
                        lemma_seq_lt_asymmetric(nv[i], x@);
                    }
                } else if i == pos && j > pos {
                    // x sorts before every later element (or equal)
                    let y = old_out[pos as int];
                    assert(seq_lt(x@, y));
                    if j > pos + 1 {
                        assert(!seq_lt(old_out[j - 1], old_out[pos as int]));
                        lemma_seq_lt_total(old_out[j - 1], y);
                        if seq_lt(y, old_out[j - 1]) {
                            lemma_seq_lt_transitive(x@, y, old_out[j - 1]);
                        }
                        lemma_seq_lt_asymmetric(x@, old_out[j - 1]);
                    } else {
                        lemma_seq_lt_asymmetric(x@, y);
                    }
                } else if i < pos && j > pos {
                    assert(nv[i] == old_out[i]);
                    assert(nv[j] == old_out[j - 1]);
                } else if i > pos {
                    assert(nv[i] == old_out[i - 1]);
                    assert(nv[j] == old_out[j - 1]);
                } else {
                    assert(nv[i] == old_out[i]);
                    assert(nv[j] == old_out[j]);
                }
            }
            vstd::seq_lib::lemma_multiset_commutative(
                old_out.take(pos as int).push(x@),
                old_out.skip(pos as int),
            );
            vstd::seq_lib::lemma_multiset_commutative(
                old_out.take(pos as int),
                old_out.skip(pos as int),
            );
            assert(old_out.take(pos as int) + old_out.skip(pos as int) =~= old_out);
            assert(old_out.insert(pos as int, x@) =~= old_out.take(pos as int).push(x@)
                + old_out.skip(pos as int));
        }
    }
    proof {
        assert(views_of(v@) =~= Seq::<Seq<char>>::empty());
    }
    *v = out;
}

// ---------------------------------------------------------------------------
// Decimal numbers.
/// The character of a decimal digit.
pub open spec fn digit_char(d: int) -> char {
    if d == 0 {
        '0'
    } else if d == 1 {
        '1'
    } else if d == 2 {
        '2'
    } else if d == 3 {
        '3'
    } else if d == 4 {
        '4'
    } else if d == 5 {
        '5'
    } else if d == 6 {
        '6'
    } else if d == 7 {
        '7'
    } else if d == 8 {
        '8'
    } else {
        '9'
    }
}

/// Whether a character is an ASCII decimal digit.
pub open spec fn is_digit(c: char) -> bool {
    '0' <= c && c <= '9'
}

/// The value of a decimal digit character.
pub open spec fn digit_value(c: char) -> int {
    (c as u32) - ('0' as u32)
}

/// Decimal rendering of a natural number, without leading zeros.
pub open spec fn nat_decimal(n: nat) -> Seq<char>
    decreases n,
{
    if n < 10 {
        seq![digit_char(n as int)]
    } else {
        nat_decimal(n / 10).push(digit_char((n % 10) as int))
    }
}

/// Decimal rendering of an integer as `{}` prints it.
pub open spec fn int_decimal(n: int) -> Seq<char> {
    if n < 0 {
        seq!['-'] + nat_decimal((-n) as nat)
    } else {
        nat_decimal(n as nat)
    }
}

fn digit_to_char(d: u64) -> (c: char)
    requires
        d < 10,
    ensures
        c == digit_char(d as int),
{
    if d == 0 {
        '0'
    } else if d == 1 {
        '1'
    } else if d == 2 {
        '2'
    } else if d == 3 {
        '3'
    } else if d == 4 {
        '4'
    } else if d == 5 {
        '5'
    } else if d == 6 {
        '6'
    } else if d == 7 {
        '7'
    } else if d == 8 {
        '8'
    } else {
        '9'
    }
}

fn u64_decimal(n: u64) -> (r: Vec<char>)
    ensures
        r@ == nat_decimal(n as nat),
    decreases n,
{
    if n < 10 {
        let mut r = Vec::new();
        r.push(digit_to_char(n));
        r
    } else {
        let mut r = u64_decimal(n / 10);
        r.push(digit_to_char(n % 10));
        r
    }
}

/// Decimal rendering of a signed integer.
pub fn i64_to_string(n: i64) -> (r: String)
    ensures
        r@ == int_decimal(n as int),
{
    if n < 0 {
        let m: u64 = if n == i64::MIN {
            9223372036854775808u64
        } else {
            (-n) as u64
        };
        let mut r = String::new();
        r.push('-');
        let ds = u64_decimal(m);
        let rest = string_of(ds.as_slice());
        push_all(&mut r, rest.as_str());
        assert(r@ =~= seq!['-'] + nat_decimal((-n) as nat));
        r
    } else {
        let ds = u64_decimal(n as u64);
        string_of(ds.as_slice())
    }
}

/// Decimal rendering of an index.
pub fn usize_to_string(n: usize) -> (r: String)
    ensures
        r@ == nat_decimal(n as nat),
{
    let ds = u64_decimal(n as u64);
    string_of(ds.as_slice())
}

/// The value of a sequence of decimal digits.
pub open spec fn digits_value(s: Seq<char>) -> int
    decreases s.len(),
{
    if s.len() == 0 {
        0
    } else {
        digits_value(s.drop_last()) * 10 + digit_value(s.last())
    }
}

/// The digits that `usize::from_str` reads: an optional leading `+` is
/// skipped.
pub open spec fn unsigned_digits(s: Seq<char>) -> Seq<char> {
    if s.len() > 0 && s[0] == '+' {
        s.drop_first()
    } else {
        s
    }
}

/// What `str::parse::<usize>` gives: the value when the text is an optional
/// `+` followed by at least one decimal digit and the value fits.
pub open spec fn parse_usize_spec(s: Seq<char>) -> Option<usize> {
    let d = unsigned_digits(s);
    if d.len() > 0 && (forall|i: int| 0 <= i < d.len() ==> is_digit(#[trigger] d[i]))
        && digits_value(d) <= usize::MAX {
        Some(digits_value(d) as usize)
    } else {
        None
    }
}

proof fn lemma_digits_value_nonneg(s: Seq<char>)
    requires
        forall|i: int| 0 <= i < s.len() ==> is_digit(#[trigger] s[i]),
    ensures
        digits_value(s) >= 0,
    decreases s.len(),
{
    if s.len() > 0 {
        lemma_digits_value_nonneg(s.drop_last());
    }
}

proof fn lemma_digits_value_monotone(s: Seq<char>, i: int)
    requires
        0 <= i <= s.len(),
        forall|k: int| 0 <= k < s.len() ==> is_digit(#[trigger] s[k]),
    ensures
        digits_value(s.take(i)) <= digits_value(s),
    decreases s.len() - i,
{
    if i < s.len() {
        lemma_digits_value_monotone(s, i + 1);
        let t = s.take(i + 1);
        assert(t.drop_last() =~= s.take(i));
        assert(forall|k: int| 0 <= k < t.drop_last().len() ==> is_digit(#[trigger] t.drop_last()[k]));
        lemma_digits_value_nonneg(t.drop_last());
    } else {
        assert(s.take(i) =~= s);
    }
}

/// Parses a decimal index as `str::parse::<usize>` does.
pub fn parse_usize(s: &str) -> (r: Option<usize>)
    ensures
        r == parse_usize_spec(s@),
{
    let cs = chars_of(s);
    let start: usize = if cs.len() > 0 && cs[0] == '+' {
        1
    } else {
        0
    };
    let ghost d = unsigned_digits(s@);
    assert(d =~= cs@.skip(start as int));
    if start == cs.len() {
        return None;
    }
    let mut acc: u128 = 0;
    let mut i: usize = start;
    while i < cs.len()
        invariant
            start <= i <= cs.len(),
            cs@ == s@,
            d =~= cs@.skip(start as int),
            d == unsigned_digits(s@),
            forall|k: int| 0 <= k < i - start ==> is_digit(#[trigger] d[k]),
            acc as int == digits_value(d.take(i - start)),
            acc <= usize::MAX,
        decreases cs.len() - i,
    {
        let c = cs[i];
        assert(d[i - start] == c);
        if !('0' <= c && c <= '9') {
            assert(!is_digit(d[i - start]));
            assert(!(forall|k: int| 0 <= k < d.len() ==> is_digit(#[trigger] d[k])));
            assert(parse_usize_spec(s@).is_none());
            return None;
        }
        let dv = (c as u32 - '0' as u32) as u128;
        proof {
            let t = d.take(i - start + 1);
            assert(t.drop_last() =~= d.take(i - start));
            assert(t.last() == c);
            assert(digit_value(c) == dv);
        }
        acc = acc * 10 + dv;
        if acc > usize::MAX as u128 {
            proof {
                assert(forall|k: int| 0 <= k < i - start + 1 ==> is_digit(#[trigger] d[k]));
                assert(acc as int == digits_value(d.take(i - start + 1)));
                if forall|k: int| 0 <= k < d.len() ==> is_digit(#[trigger] d[k]) {
                    lemma_digits_value_monotone(d, i - start + 1);
                    assert(digits_value(d) > usize::MAX);
                }
                assert(parse_usize_spec(s@).is_none());
            }
            return None;
        }
        i = i + 1;
    }
    assert(d.take(i - start) =~= d);
    Some(acc as usize)
}

// ---------------------------------------------------------------------------
// Prefixes, suffixes and substrings.
/// `s` ends with `suffix`.
pub open spec fn ends_with(s: Seq<char>, suffix: Seq<char>) -> bool {
    suffix.len() <= s.len() && s.skip(s.len() - suffix.len()) == suffix
}

/// `pat` occurs in `s` at some position.
pub open spec fn contains_sub(s: Seq<char>, pat: Seq<char>) -> bool {
    exists|i: int| 0 <= i <= s.len() - pat.len() && #[trigger] s.subrange(i, i + pat.len()) == pat
}

fn chars_match_at(s: &[char], pat: &[char], at: usize) -> (r: bool)
    requires
        at + pat.len() <= s.len(),
    ensures
        r == (s@.subrange(at as int, at + pat.len()) == pat@),
{
    let mut k: usize = 0;
    while k < pat.len()
        invariant
            k <= pat.len(),
            at + pat.len() <= s.len(),
            forall|j: int| 0 <= j < k ==> s@[at + j] == pat@[j],
        decreases pat.len() - k,
    {
        if s[at + k] != pat[k] {
            assert(s@.subrange(at as int, at + pat.len())[k as int] != pat@[k as int]);
            return false;
        }
        k = k + 1;
    }
    assert(s@.subrange(at as int, at + pat.len()) =~= pat@);
    true
}

/// Whether `s` ends with `suffix`.
pub fn str_ends_with(s: &str, suffix: &str) -> (r: bool)
    ensures
        r == ends_with(s@, suffix@),
{
    let cs = chars_of(s);
    let cp = chars_of(suffix);
    if cp.len() > cs.len() {
        return false;
    }
    let r = chars_match_at(cs.as_slice(), cp.as_slice(), cs.len() - cp.len());
    assert(cs@.subrange(cs.len() - cp.len(), cs.len() as int) =~= cs@.skip(cs.len() - cp.len()));
    r
}

/// Whether `pat` occurs in `s`.
pub fn str_contains(s: &str, pat: &str) -> (r: bool)
    ensures
        r == contains_sub(s@, pat@),
{
    let cs = chars_of(s);
    let cp = chars_of(pat);
    if cp.len() > cs.len() {
        return false;
    }
    let last = cs.len() - cp.len();
    let mut i: usize = 0;
    loop
        invariant
            cs@ == s@,
            cp@ == pat@,
            last == cs.len() - cp.len(),
            i <= last,
            forall|j: int| 0 <= j < i ==> #[trigger] s@.subrange(j, j + pat@.len()) != pat@,
        decreases last - i,
    {
        if chars_match_at(cs.as_slice(), cp.as_slice(), i) {
            return true;
        }
        if i == last {
            return false;
        }
        i = i + 1;
    }
}

/// The position of the first occurrence of `c` in `s`.
pub open spec fn find_char(s: Seq<char>, c: char) -> Option<int>
    decreases s.len(),
{
    if s.len() == 0 {
        None
    } else if s[0] == c {
        Some(0)
    } else {
        match find_char(s.drop_first(), c) {
            Some(i) => Some(i + 1),
            None => None,
        }
    }
}

/// `find_char` gives a position holding `c` with no earlier `c`; `None`
/// means `c` does not occur.
pub proof fn lemma_find_char(s: Seq<char>, c: char)
    ensures
        match find_char(s, c) {
            Some(i) => 0 <= i < s.len() && s[i] == c && forall|j: int| 0 <= j < i ==> s[j] != c,
            None => forall|j: int| 0 <= j < s.len() ==> s[j] != c,
        },
    decreases s.len(),
{
    if s.len() > 0 && s[0] != c {
        lemma_find_char(s.drop_first(), c);
        match find_char(s.drop_first(), c) {
            Some(i) => {
                assert forall|j: int| 0 <= j < i + 1 implies s[j] != c by {
                    if j > 0 {
                        assert(s[j] == s.drop_first()[j - 1]);
                    }
                }
            },
            None => {
                assert forall|j: int| 0 <= j < s.len() implies s[j] != c by {
                    if j > 0 {
                        assert(s[j] == s.drop_first()[j - 1]);
                    }
                }
            },
        }
    }
}

/// Finds the first occurrence of `c` in `s`.
pub fn chars_find(s: &[char], c: char) -> (r: Option<usize>)
    ensures
        match r {
            Some(i) => find_char(s@, c) == Some(i as int),
            None => find_char(s@, c) is None,
        },
{
    let mut i: usize = 0;
    assert(s@.skip(0) =~= s@);
    while i < s.len()
        invariant
            i <= s.len(),
            find_char(s@, c) == (match find_char(s@.skip(i as int), c) {
                Some(k) => Some(k + i),
                None => None::<int>,
            }),
        decreases s.len() - i,
    {
        assert(s@.skip(i as int)[0] == s@[i as int]);
        if s[i] == c {
            return Some(i);
        }
        assert(s@.skip(i as int).drop_first() =~= s@.skip(i + 1));
        i = i + 1;
    }
    None
}

/// Removes every trailing `'\n'` and `'\r'`, as the token files are read.
pub open spec fn trim_line_ends_spec(s: Seq<char>) -> Seq<char>
    decreases s.len(),
{
    if s.len() > 0 && (s.last() == '\n' || s.last() == '\r') {
        trim_line_ends_spec(s.drop_last())
    } else {
        s
    }
}

/// Strips trailing line-ending characters from a token.
pub fn trim_line_ends(s: &str) -> (r: String)
    ensures
        r@ == trim_line_ends_spec(s@),
{
    let cs = chars_of(s);
    let mut n: usize = cs.len();
    assert(cs@.take(n as int) =~= cs@);
    while n > 0 && (cs[n - 1] == '\n' || cs[n - 1] == '\r')
        invariant
            n <= cs.len(),
            cs@ == s@,
            trim_line_ends_spec(s@) == trim_line_ends_spec(cs@.take(n as int)),
        decreases n,
    {
        assert(cs@.take(n as int).drop_last() =~= cs@.take(n - 1));
        n = n - 1;
    }
    let mut out = String::new();
    let mut i: usize = 0;
    while i < n
        invariant
            i <= n <= cs.len(),
            out@ == cs@.take(i as int),
        decreases n - i,
    {
        out.push(cs[i]);
        i = i + 1;
    }
    out
}


/// A copy of a list of strings.
pub fn copy_strings(v: &Vec<String>) -> (r: Vec<String>)
    ensures
        views_of(r@) == views_of(v@),
{
    let mut r: Vec<String> = Vec::new();
    let mut i: usize = 0;
    while i < v.len()
        invariant
            i <= v.len(),
            views_of(r@) == views_of(v@).take(i as int),
        decreases v.len() - i,
    {
        let ghost rv = views_of(r@);
        r.push(owned(v[i].as_str()));
        assert(views_of(r@) =~= rv.push(v@[i as int]@));
        assert(views_of(v@).take(i + 1) =~= views_of(v@).take(i as int).push(v@[i as int]@));
        i = i + 1;
    }
    assert(views_of(v@).take(v.len() as int) =~= views_of(v@));
    r
}

/// Pairs whose string keys are in ascending order.
pub open spec fn keys_sorted<T>(s: Seq<(Seq<char>, T)>) -> bool {
    forall|i: int, j: int| 0 <= i < j < s.len() ==> !seq_lt(#[trigger] s[j].0, #[trigger] s[i].0)
}

/// The views of keyed entries: each key's characters with its value.
pub open spec fn keyed_view<T>(v: Seq<(String, T)>) -> Seq<(Seq<char>, T)> {
    v.map_values(|e: (String, T)| (e.0@, e.1))
}

/// Pairs whose string keys are in strictly ascending order (so no key
/// occurs twice).
pub open spec fn keys_strictly_sorted<T>(s: Seq<(Seq<char>, T)>) -> bool {
    forall|i: int, j: int| 0 <= i < j < s.len() ==> seq_lt(#[trigger] s[i].0, #[trigger] s[j].0)
}

/// Whether the keys are in strictly ascending order.
pub fn keys_strictly_sorted_check<T>(v: &Vec<(String, T)>) -> (r: bool)
    ensures
        r == keys_strictly_sorted(keyed_view(v@)),
{
    let ghost kv = keyed_view(v@);
    let mut i: usize = 1;
    while i < v.len()
        invariant
            1 <= i,
            kv == keyed_view(v@),
            forall|a: int, b: int| 0 <= a < b < i && b < v.len() ==> seq_lt(#[trigger] kv[a].0, #[trigger] kv[b].0),
        decreases v.len() - i,
    {
        if !str_lt(v[i - 1].0.as_str(), v[i].0.as_str()) {
            assert(kv[i - 1].0 == v@[i - 1].0@ && kv[i as int].0 == v@[i as int].0@);
            return false;
        }
        proof {
            assert(kv[i - 1].0 == v@[i - 1].0@ && kv[i as int].0 == v@[i as int].0@);
            assert forall|a: int, b: int| 0 <= a < b < i + 1 && b < v.len() implies seq_lt(
                #[trigger] kv[a].0,
                #[trigger] kv[b].0,
            ) by {
                if b == i && a < i - 1 {
                    lemma_seq_lt_transitive(kv[a].0, kv[i - 1].0, kv[b].0);
                }
            }
        }
        i = i + 1;
    }
    true
}

/// Inserts an entry whose key is not present yet at the place that keeps
/// the keys strictly ascending; gives that place.
pub fn insert_by_key<T>(v: &mut Vec<(String, T)>, x: (String, T)) -> (pos: usize)
    requires
        keys_strictly_sorted(keyed_view(old(v)@)),
        forall|k: int| 0 <= k < old(v).len() ==> #[trigger] old(v)@[k].0@ != x.0@,
    ensures
        pos <= old(v).len(),
        final(v)@ == old(v)@.insert(pos as int, x),
        keys_strictly_sorted(keyed_view(final(v)@)),
{
    let ghost xk = x.0@;
    let cx = chars_of(x.0.as_str());
    let mut pos: usize = 0;
    while pos < v.len()
        invariant
            pos <= v.len(),
            cx@ == xk,
            forall|k: int| 0 <= k < v.len() ==> #[trigger] v@[k].0@ != xk,
            forall|k: int| 0 <= k < pos ==> seq_lt(#[trigger] v@[k].0@, xk),
        ensures
            pos <= v.len(),
            forall|k: int| 0 <= k < pos ==> seq_lt(#[trigger] v@[k].0@, xk),
            pos < v.len() ==> seq_lt(xk, v@[pos as int].0@),
        decreases v.len() - pos,
    {
        let cy = chars_of(v[pos].0.as_str());
        if chars_lt(cx.as_slice(), cy.as_slice()) {
            break;
        }
        proof {
            lemma_seq_lt_total(xk, v@[pos as int].0@);
        }
        pos = pos + 1;
    }
    let ghost ov = keyed_view(v@);
    v.insert(pos, x);
    proof {
        let nv = keyed_view(v@);
        assert(nv =~= ov.insert(pos as int, (xk, x.1)));
        assert forall|i: int, j: int| 0 <= i < j < nv.len() implies seq_lt(#[trigger] nv[i].0, #[trigger] nv[j].0) by {
            if j == pos {
                assert(nv[i] == ov[i]);
            } else if i == pos {
                assert(nv[j] == ov[j - 1]);
                if j - 1 > pos {
                    lemma_seq_lt_transitive(xk, ov[pos as int].0, ov[j - 1].0);
                }
            } else if i < pos && j > pos {
                assert(nv[i] == ov[i]);
                assert(nv[j] == ov[j - 1]);
                assert(seq_lt(xk, ov[pos as int].0));
                if j - 1 > pos {
                    lemma_seq_lt_transitive(xk, ov[pos as int].0, ov[j - 1].0);
                }
                lemma_seq_lt_transitive(ov[i].0, xk, ov[j - 1].0);
            } else if i > pos {
                assert(nv[i] == ov[i - 1]);
                assert(nv[j] == ov[j - 1]);
            } else {
                assert(nv[i] == ov[i]);
                assert(nv[j] == ov[j]);
            }
        }
    }
    pos
}

} // verus!
