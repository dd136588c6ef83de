//! Total-order comparison of version strings.
//!
//! A version string is split into segments at `'.'`. Segments are compared
//! position by position: when both segments are numeric (all decimal digits,
//! and small enough to evaluate exactly at run time) they compare as numbers,
//! otherwise they compare lexically, character by character. A missing
//! trailing segment is treated as the segment `"0"`. The comparison never
//! fails: a malformed segment merely falls back to the lexical rule.

use vstd::prelude::*;

verus! {

/// Outcome of comparing two version strings.
#[derive(Clone, Copy, Debug, PartialEq, Eq, Structural)]
pub enum Cmp {
    Less,
    Equal,
    Greater,
}

/// The mirror image of a comparison outcome.
pub open spec fn flip(c: Cmp) -> Cmp {
    match c {
        Cmp::Less => Cmp::Greater,
        Cmp::Equal => Cmp::Equal,
        Cmp::Greater => Cmp::Less,
    }
}

/// Index of the first `'.'` in `s`, or `s.len()` if there is none.
pub open spec fn first_dot(s: Seq<char>) -> int
    decreases s.len(),
{
    if s.len() == 0 {
        0
    } else if s[0] == '.' {
        0
    } else {
        1 + first_dot(s.drop_first())
    }
}

/// The first dot is at or before the end of the string, and nothing
/// before it is a dot.
proof fn lemma_first_dot_bounds(s: Seq<char>)
    ensures
        0 <= first_dot(s) <= s.len(),
        forall|j: int| 0 <= j < first_dot(s) ==> s[j] != '.',
        first_dot(s) < s.len() ==> s[first_dot(s)] == '.',
    decreases s.len(),
{
    if s.len() > 0 && s[0] != '.' {
        lemma_first_dot_bounds(s.drop_first());
        assert forall|j: int| 0 <= j < first_dot(s) implies s[j] != '.' by {
            if j > 0 {
                assert(s[j] == s.drop_first()[j - 1]);
            }
        }
    }
}

/// The segments of a version string: the maximal runs of characters
/// between occurrences of `'.'`. Never empty; `""` has the single
/// segment `""`.
pub open spec fn segments(s: Seq<char>) -> Seq<Seq<char>>
    decreases s.len(),
    via segments_decreases
{
    let d = first_dot(s);
    if d == s.len() {
        seq![s]
    } else {
        seq![s.take(d)] + segments(s.skip(d + 1))
    }
}

#[via_fn]
proof fn segments_decreases(s: Seq<char>) {
    lemma_first_dot_bounds(s);
}

/// Whether `c` is a decimal digit (code points 48 through 57).
pub open spec fn is_digit(c: char) -> bool {
    48 <= c as u32 <= 57
}

/// Whether the segment is a non-empty run of decimal digits.
pub open spec fn all_digits(s: Seq<char>) -> bool {
    s.len() > 0 && forall|i: int| 0 <= i < s.len() ==> is_digit(#[trigger] s[i])
}

/// Numeric value of a run of decimal digits.
pub open spec fn digits_val(s: Seq<char>) -> int
    decreases s.len(),
{
    if s.len() == 0 {
        0
    } else {
        digits_val(s.drop_last()) * 10 + (s.last() as u32 - 48)
    }
}

/// Whether a segment compares numerically: all digits, and small enough
/// that the comparison can evaluate it exactly at run time.
pub open spec fn is_numeric(s: Seq<char>) -> bool {
    all_digits(s) && digits_val(s) <= u64::MAX
}

/// Three-way comparison of two mathematical integers.
pub open spec fn int_cmp(a: int, b: int) -> Cmp {
    if a < b {
        Cmp::Less
    } else if a > b {
        Cmp::Greater
    } else {
        Cmp::Equal
    }
}

/// Lexical comparison of two character sequences, by code point.
pub open spec fn lex_cmp(a: Seq<char>, b: Seq<char>) -> Cmp
    decreases a.len(),
{
    if a.len() == 0 && b.len() == 0 {
        Cmp::Equal
    } else if a.len() == 0 {
        Cmp::Less
    } else if b.len() == 0 {
        Cmp::Greater
    } else if (a[0] as u32) < (b[0] as u32) {
        Cmp::Less
    } else if (a[0] as u32) > (b[0] as u32) {
        Cmp::Greater
    } else {
        lex_cmp(a.drop_first(), b.drop_first())
    }
}

/// Comparison of two segments: numeric when both sides are numeric,
/// lexical otherwise.
pub open spec fn seg_cmp(a: Seq<char>, b: Seq<char>) -> Cmp {
    if is_numeric(a) && is_numeric(b) {
        int_cmp(digits_val(a), digits_val(b))
    } else {
        lex_cmp(a, b)
    }
}

/// The segment standing in for a missing position: `"0"`.
pub open spec fn zero_segment() -> Seq<char> {
    seq!['0']
}

/// Segment list comparison: position by position, a missing trailing
/// segment reading as `"0"`; the first strict difference decides.
pub open spec fn cmp_segment_lists(x: Seq<Seq<char>>, y: Seq<Seq<char>>) -> Cmp
    decreases x.len() + y.len(),
{
    if x.len() == 0 && y.len() == 0 {
        Cmp::Equal
    } else {
        let xa = if x.len() > 0 {
            x[0]
        } else {
            zero_segment()
        };
        let ya = if y.len() > 0 {
            y[0]
        } else {
            zero_segment()
        };
        let rest_x = if x.len() > 0 {
            x.drop_first()
        } else {
            x
        };
        let rest_y = if y.len() > 0 {
            y.drop_first()
        } else {
            y
        };
        match seg_cmp(xa, ya) {
            Cmp::Equal => cmp_segment_lists(rest_x, rest_y),
            c => c,
        }
    }
}

/// Total-order comparison of two version strings.
pub open spec fn version_cmp(a: Seq<char>, b: Seq<char>) -> Cmp {
    cmp_segment_lists(segments(a), segments(b))
}

/// A position with no dot before it and a dot (or the end) at it is the
/// first dot.
proof fn lemma_first_dot_at(s: Seq<char>, k: int)
    requires
        0 <= k <= s.len(),
        forall|j: int| 0 <= j < k ==> s[j] != '.',
        k < s.len() ==> s[k] == '.',
    ensures
        first_dot(s) == k,
    decreases s.len(),
{
    if s.len() == 0 {
    } else if s[0] == '.' {
        assert(k == 0);
    } else {
        assert(k >= 1);
        assert forall|j: int| 0 <= j < k - 1 implies s.drop_first()[j] != '.' by {
            assert(s.drop_first()[j] == s[j + 1]);
        }
        lemma_first_dot_at(s.drop_first(), k - 1);
    }
}

/// The segments of `v`, as vectors of characters.
fn split_dots(v: &Vec<char>) -> (r: Vec<Vec<char>>)
    ensures
        r.deep_view() == segments(v@),
{
    let n = v.len();
    let mut r: Vec<Vec<char>> = Vec::new();
    let mut cur: Vec<char> = Vec::new();
    let mut start: usize = 0;
    let mut i: usize = 0;
    proof {
        assert(v@.skip(0) =~= v@);
        assert(r.deep_view() + segments(v@) =~= segments(v@));
        assert(cur@ =~= v@.subrange(0, 0));
    }
    while i < n
        invariant
            n == v@.len(),
            start <= i <= n,
            cur@ == v@.subrange(start as int, i as int),
            forall|j: int| start <= j < i ==> v@[j] != '.',
            segments(v@) == r.deep_view() + segments(v@.skip(start as int)),
        decreases n - i,
    {
        if v[i] == '.' {
            proof {
                let tail = v@.skip(start as int);
                assert forall|j: int| 0 <= j < i - start implies tail[j] != '.' by {
                    assert(tail[j] == v@[start + j]);
                }
                assert(tail[i - start] == v@[i as int]);
                lemma_first_dot_at(tail, i - start);
                assert(tail.take(i - start) =~= cur@);
                assert(tail.skip(i - start + 1) =~= v@.skip(i + 1));
                assert(segments(tail) == seq![cur@] + segments(v@.skip(i + 1)));
            }
            let ghost old_r = r.deep_view();
            r.push(cur);
            proof {
                assert(r.deep_view() =~~= old_r.push(cur@));
                assert(old_r + (seq![cur@] + segments(v@.skip(i + 1))) =~= old_r.push(cur@)
                    + segments(v@.skip(i + 1)));
            }
            cur = Vec::new();
            start = i + 1;
            proof {
                assert(cur@ =~= v@.subrange(start as int, start as int));
            }
        } else {
            cur.push(v[i]);
            proof {
                assert(cur@ =~= v@.subrange(start as int, i + 1));
            }
        }
        i = i + 1;
    }
    proof {
        let tail = v@.skip(start as int);
        assert forall|j: int| 0 <= j < n - start implies tail[j] != '.' by {
            assert(tail[j] == v@[start + j]);
        }
        lemma_first_dot_at(tail, n - start);
        assert(tail =~= cur@);
        assert(segments(tail) == seq![cur@]);
    }
    let ghost old_r = r.deep_view();
    r.push(cur);
    proof {
        assert(r.deep_view() =~~= old_r.push(cur@));
        assert(old_r + seq![cur@] =~= old_r.push(cur@));
    }
    r
}

/// Lexical comparison of two character vectors, by code point.
pub(crate) fn lex_cmp_exec(a: &Vec<char>, b: &Vec<char>) -> (c: Cmp)
    ensures
        c == lex_cmp(a@, b@),
{
    let mut i: usize = 0;
    proof {
        assert(a@.skip(0) =~= a@);
        assert(b@.skip(0) =~= b@);
    }
    loop
        invariant
            i <= a@.len(),
            i <= b@.len(),
            lex_cmp(a@, b@) == lex_cmp(a@.skip(i as int), b@.skip(i as int)),
        decreases a@.len() - i,
    {
        proof {
            if i < a@.len() {
                assert(a@.skip(i as int)[0] == a@[i as int]);
            }
            if i < b@.len() {
                assert(b@.skip(i as int)[0] == b@[i as int]);
            }
        }
        if i >= a.len() {
            if i >= b.len() {
                return Cmp::Equal;
            } else {
                return Cmp::Less;
            }
        } else if i >= b.len() {
            return Cmp::Greater;
        } else {
            let ca = a[i] as u32;
            let cb = b[i] as u32;
            if ca < cb {
                return Cmp::Less;
            } else if ca > cb {
                return Cmp::Greater;
            }
            proof {
                assert(a@.skip(i as int).drop_first() =~= a@.skip(i + 1));
                assert(b@.skip(i as int).drop_first() =~= b@.skip(i + 1));
            }
            i = i + 1;
        }
    }
}

/// The value of a run of digits is never negative.
proof fn lemma_digits_val_nonneg(s: Seq<char>)
    requires
        forall|j: int| 0 <= j < s.len() ==> is_digit(#[trigger] s[j]),
    ensures
        digits_val(s) >= 0,
    decreases s.len(),
{
    if s.len() > 0 {
        lemma_digits_val_nonneg(s.drop_last());
    }
}

/// Extending a run of digits on the right multiplies its value by ten and
/// adds the new digit.
proof fn lemma_digits_val_extend(s: Seq<char>, i: int)
    requires
        0 <= i < s.len(),
    ensures
        digits_val(s.take(i + 1)) == digits_val(s.take(i)) * 10 + (s[i] as u32 - 48),
{
    assert(s.take(i + 1).drop_last() =~= s.take(i));
    assert(s.take(i + 1).last() == s[i]);
}

/// A longer run of digits never has a smaller value.
proof fn lemma_digits_val_monotone(s: Seq<char>, i: int)
    requires
        0 <= i <= s.len(),
        forall|j: int| 0 <= j < s.len() ==> is_digit(#[trigger] s[j]),
    ensures
        digits_val(s.take(i)) <= digits_val(s),
    decreases s.len() - i,
{
    if i == s.len() {
        assert(s.take(i) =~= s);
    } else {
        lemma_digits_val_extend(s, i);
        assert forall|j: int| 0 <= j < s.take(i).len() implies is_digit(#[trigger] s.take(i)[j]) by {
            assert(s.take(i)[j] == s[j]);
        }
        lemma_digits_val_nonneg(s.take(i));
        lemma_digits_val_monotone(s, i + 1);
    }
}

/// The numeric value of a segment, when it is a non-empty run of digits
/// whose value fits the result type.
fn parse_numeric(s: &Vec<char>) -> (r: Option<u64>)
    ensures
        r is Some <==> is_numeric(s@),
        r matches Some(v) ==> v as int == digits_val(s@),
{
    let n = s.len();
    if n == 0 {
        return None;
    }
    let mut i: usize = 0;
    while i < n
        invariant
            n == s@.len(),
            i <= n,
            forall|j: int| 0 <= j < i ==> is_digit(#[trigger] s@[j]),
        decreases n - i,
    {
        let cv = s[i] as u32;
        if cv < 48 || cv > 57 {
            assert(!is_digit(s@[i as int]));
            return None;
        }
        i = i + 1;
    }
    let mut acc: u64 = 0;
    i = 0;
    while i < n
        invariant
            n == s@.len(),
            i <= n,
            forall|j: int| 0 <= j < n ==> is_digit(#[trigger] s@[j]),
            acc as int == digits_val(s@.take(i as int)),
        decreases n - i,
    {
        let cv = s[i] as u32;
        let d = (cv - 48) as u64;
        proof {
            lemma_digits_val_extend(s@, i as int);
        }
        let step = match acc.checked_mul(10) {
            Some(m) => m.checked_add(d),
            None => None,
        };
        match step {
            Some(v) => {
                acc = v;
            },
            None => {
                proof {
                    lemma_digits_val_monotone(s@, i + 1);
                }
                assert(digits_val(s@) > u64::MAX);
                return None;
            },
        }
        i = i + 1;
    }
    proof {
        assert(s@.take(n as int) =~= s@);
    }
    Some(acc)
}

/// Comparison of two segments, numeric where both sides allow it.
fn seg_cmp_exec(a: &Vec<char>, b: &Vec<char>) -> (c: Cmp)
    ensures
        c == seg_cmp(a@, b@),
{
    let na = parse_numeric(a);
    let nb = parse_numeric(b);
    match (na, nb) {
        (Some(x), Some(y)) => {
            if x < y {
                Cmp::Less
            } else if x > y {
                Cmp::Greater
            } else {
                Cmp::Equal
            }
        },
        _ => lex_cmp_exec(a, b),
    }
}

/// The suffix of a segment list from position `k` on.
spec fn seg_suffix(x: Seq<Seq<char>>, k: int) -> Seq<Seq<char>> {
    if k < x.len() {
        x.skip(k)
    } else {
        Seq::empty()
    }
}

/// Total-order comparison of two version strings: segment-wise, numeric
/// where both segments are numeric, lexical otherwise, a missing trailing
/// segment reading as `"0"`. Never fails.
pub fn compare(a: &str, b: &str) -> (c: Cmp)
    ensures
        c == version_cmp(a@, b@),
{
    let ca = chars_of(a);
    let cb = chars_of(b);
    let xs = split_dots(&ca);
    let ys = split_dots(&cb);
    let zero: Vec<char> = vec!['0'];
    proof {
        assert(zero@ =~= zero_segment());
    }
    let ghost gx = xs.deep_view();
    let ghost gy = ys.deep_view();
    let mut k: usize = 0;
    proof {
        assert(gx.len() > 0 && gx.skip(0) =~= gx);
        assert(gy.len() > 0 && gy.skip(0) =~= gy);
    }
    loop
        invariant
            gx == xs.deep_view(),
            gy == ys.deep_view(),
            k <= gx.len() || k <= gy.len(),
            zero@ == zero_segment(),
            version_cmp(a@, b@) == cmp_segment_lists(seg_suffix(gx, k as int), seg_suffix(gy, k as int)),
        decreases gx.len() + gy.len() - k,
    {
        if k >= xs.len() && k >= ys.len() {
            return Cmp::Equal;
        }
        proof {
            if (k as int) < gx.len() {
                assert(seg_suffix(gx, k as int)[0] == gx[k as int]);
                assert(seg_suffix(gx, k as int).drop_first() =~= seg_suffix(gx, k + 1));
                assert(gx[k as int] =~= xs@[k as int]@);
            }
            if (k as int) < gy.len() {
                assert(seg_suffix(gy, k as int)[0] == gy[k as int]);
                assert(seg_suffix(gy, k as int).drop_first() =~= seg_suffix(gy, k + 1));
                assert(gy[k as int] =~= ys@[k as int]@);
            }
        }
        let sc = if k < xs.len() && k < ys.len() {
            seg_cmp_exec(&xs[k], &ys[k])
        } else if k < xs.len() {
            seg_cmp_exec(&xs[k], &zero)
        } else {
            seg_cmp_exec(&zero, &ys[k])
        };
        match sc {
            Cmp::Equal => {
                k = k + 1;
            },
            c => {
                return c;
            },
        }
    }
}

/// Lexical comparison of a sequence with itself is a tie.
proof fn lemma_lex_cmp_refl(a: Seq<char>)
    ensures
        lex_cmp(a, a) == Cmp::Equal,
    decreases a.len(),
{
    if a.len() > 0 {
        lemma_lex_cmp_refl(a.drop_first());
    }
}

/// Swapping the sides of a lexical comparison mirrors its outcome.
pub proof fn lemma_lex_cmp_antisym(a: Seq<char>, b: Seq<char>)
    ensures
        lex_cmp(a, b) == flip(lex_cmp(b, a)),
    decreases a.len(),
{
    if a.len() > 0 && b.len() > 0 && a[0] as u32 == b[0] as u32 {
        lemma_lex_cmp_antisym(a.drop_first(), b.drop_first());
    }
}

/// A lexically strictly increasing chain is strictly increasing end to end.
pub proof fn lemma_lex_cmp_trans(a: Seq<char>, b: Seq<char>, c: Seq<char>)
    requires
        lex_cmp(a, b) == Cmp::Less,
        lex_cmp(b, c) == Cmp::Less,
    ensures
        lex_cmp(a, c) == Cmp::Less,
    decreases a.len(),
{
    if a.len() > 0 && b.len() > 0 && c.len() > 0 && a[0] as u32 == b[0] as u32 && b[0] as u32
        == c[0] as u32 {
        lemma_lex_cmp_trans(a.drop_first(), b.drop_first(), c.drop_first());
    }
}

/// Comparing a segment with itself is a tie.
proof fn lemma_seg_cmp_refl(a: Seq<char>)
    ensures
        seg_cmp(a, a) == Cmp::Equal,
{
    lemma_lex_cmp_refl(a);
}

/// Swapping the sides of a segment comparison mirrors its outcome.
proof fn lemma_seg_cmp_antisym(a: Seq<char>, b: Seq<char>)
    ensures
        seg_cmp(a, b) == flip(seg_cmp(b, a)),
{
    lemma_lex_cmp_antisym(a, b);
}

/// Comparing a segment list with itself is a tie.
proof fn lemma_cmp_segment_lists_refl(x: Seq<Seq<char>>)
    ensures
        cmp_segment_lists(x, x) == Cmp::Equal,
    decreases x.len(),
{
    if x.len() > 0 {
        lemma_seg_cmp_refl(x[0]);
        lemma_cmp_segment_lists_refl(x.drop_first());
    }
}

/// Swapping the sides of a segment list comparison mirrors its outcome.
proof fn lemma_cmp_segment_lists_antisym(x: Seq<Seq<char>>, y: Seq<Seq<char>>)
    ensures
        cmp_segment_lists(x, y) == flip(cmp_segment_lists(y, x)),
    decreases x.len() + y.len(),
{
    if x.len() == 0 && y.len() == 0 {
    } else {
        let xa = if x.len() > 0 {
            x[0]
        } else {
            zero_segment()
        };
        let ya = if y.len() > 0 {
            y[0]
        } else {
            zero_segment()
        };
        lemma_seg_cmp_antisym(xa, ya);
        if seg_cmp(xa, ya) == Cmp::Equal {
            let rest_x = if x.len() > 0 {
                x.drop_first()
            } else {
                x
            };
            let rest_y = if y.len() > 0 {
                y.drop_first()
            } else {
                y
            };
            lemma_cmp_segment_lists_antisym(rest_x, rest_y);
        }
    }
}

/// Every version string compares equal to itself.
pub proof fn lemma_compare_reflexive(a: Seq<char>)
    ensures
        version_cmp(a, a) == Cmp::Equal,
{
    lemma_cmp_segment_lists_refl(segments(a));
}

/// Swapping the operands of a version comparison mirrors its outcome:
/// `a` is below `b` exactly when `b` is above `a`.
pub proof fn lemma_compare_antisymmetric(a: Seq<char>, b: Seq<char>)
    ensures
        version_cmp(a, b) == flip(version_cmp(b, a)),
{
    lemma_cmp_segment_lists_antisym(segments(a), segments(b));
}

/// The characters of a string, as a vector.
pub fn chars_of(s: &str) -> (r: Vec<char>)
    ensures
        r@ == s@,
{
    let n = s.unicode_len();
    let mut r: Vec<char> = Vec::new();
    let mut i: usize = 0;
    while i < n
        invariant
            n == s@.len(),
            i <= n,
            r@ == s@.take(i as int),
        decreases n - i,
    {
        r.push(s.get_char(i));
        proof {
            assert(r@ =~= s@.take(i + 1 as int));
        }
        i = i + 1;
    }
    proof {
        assert(s@.take(n as int) =~= s@);
    }
    r
}

} // verus!
