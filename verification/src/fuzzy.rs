//! Similarity scoring for free-text search, derived from edit distance.
//!
//! The score of two strings lies between 0 and `SIMILARITY_SCALE`. It is the
//! scale multiplied by the share of the longer string that need not be edited
//! to turn one string into the other: identical strings score exactly the
//! scale, and only they do; strings with nothing in common score zero. The
//! score is a pure function of the two strings.

use crate::version::chars_of;
use vstd::arithmetic::div_mod::{
    lemma_div_by_multiple, lemma_div_pos_is_pos, lemma_multiply_divide_le,
    lemma_multiply_divide_lt,
};
use vstd::arithmetic::mul::{lemma_mul_inequality, lemma_mul_nonnegative};
use vstd::prelude::*;

verus! {

/// The score of two identical strings; all scores lie in `0 ..= SIMILARITY_SCALE`.
pub const SIMILARITY_SCALE: u64 = 1000;

/// The smaller of two integers.
pub open spec fn min2(a: int, b: int) -> int {
    if a <= b {
        a
    } else {
        b
    }
}

/// The larger of two integers.
pub open spec fn max2(a: int, b: int) -> int {
    if a >= b {
        a
    } else {
        b
    }
}

/// Edit distance between two character sequences: the least number of
/// character insertions, deletions and replacements that turns one into
/// the other.
pub open spec fn edit_distance(a: Seq<char>, b: Seq<char>) -> int
    decreases a.len() + b.len(),
{
    if a.len() == 0 {
        b.len() as int
    } else if b.len() == 0 {
        a.len() as int
    } else {
        let cost: int = if a.last() == b.last() {
            0
        } else {
            1
        };
        min2(
            min2(edit_distance(a.drop_last(), b) + 1, edit_distance(a, b.drop_last()) + 1),
            edit_distance(a.drop_last(), b.drop_last()) + cost,
        )
    }
}

/// Edit distance is never negative.
pub proof fn lemma_edit_distance_nonneg(a: Seq<char>, b: Seq<char>)
    ensures
        edit_distance(a, b) >= 0,
    decreases a.len() + b.len(),
{
    if a.len() > 0 && b.len() > 0 {
        lemma_edit_distance_nonneg(a.drop_last(), b);
        lemma_edit_distance_nonneg(a, b.drop_last());
        lemma_edit_distance_nonneg(a.drop_last(), b.drop_last());
    }
}

/// Edit distance never exceeds the longer length: replacing every
/// character and appending the rest always suffices.
pub proof fn lemma_edit_distance_le_max(a: Seq<char>, b: Seq<char>)
    ensures
        edit_distance(a, b) <= max2(a.len() as int, b.len() as int),
    decreases a.len() + b.len(),
{
    if a.len() > 0 && b.len() > 0 {
        lemma_edit_distance_le_max(a.drop_last(), b.drop_last());
        lemma_edit_distance_nonneg(a.drop_last(), b);
        lemma_edit_distance_nonneg(a, b.drop_last());
    }
}

/// Edit distance is zero exactly between equal sequences.
pub proof fn lemma_edit_distance_zero_iff(a: Seq<char>, b: Seq<char>)
    ensures
        edit_distance(a, b) == 0 <==> a == b,
    decreases a.len() + b.len(),
{
    if a.len() == 0 {
        if b.len() == 0 {
            assert(a =~= b);
        } else {
            assert(a != b);
        }
    } else if b.len() == 0 {
        assert(a != b);
    } else {
        lemma_edit_distance_nonneg(a.drop_last(), b);
        lemma_edit_distance_nonneg(a, b.drop_last());
        lemma_edit_distance_nonneg(a.drop_last(), b.drop_last());
        lemma_edit_distance_zero_iff(a.drop_last(), b.drop_last());
        if a == b {
            assert(a.drop_last() =~= b.drop_last());
        }
        if edit_distance(a, b) == 0 {
            assert(a.last() == b.last() && a.drop_last() == b.drop_last());
            assert forall|k: int| 0 <= k < a.len() - 1 implies a[k] == b[k] by {
                assert(a.drop_last()[k] == b.drop_last()[k]);
            }
            assert(a =~= b);
        }
    }
}

/// One step of the edit distance over prefixes: the distance of the
/// prefixes of lengths `i` and `j` in terms of the three shorter pairs.
proof fn lemma_edit_distance_step(a: Seq<char>, b: Seq<char>, i: int, j: int)
    requires
        1 <= i <= a.len(),
        1 <= j <= b.len(),
    ensures
        edit_distance(a.take(i), b.take(j)) == min2(
            min2(
                edit_distance(a.take(i - 1), b.take(j)) + 1,
                edit_distance(a.take(i), b.take(j - 1)) + 1,
            ),
            edit_distance(a.take(i - 1), b.take(j - 1)) + (if a[i - 1] == b[j - 1] {
                0int
            } else {
                1int
            }),
        ),
{
    assert(a.take(i).drop_last() =~= a.take(i - 1));
    assert(b.take(j).drop_last() =~= b.take(j - 1));
    assert(a.take(i).last() == a[i - 1]);
    assert(b.take(j).last() == b[j - 1]);
}

/// The similarity score of two character sequences.
pub open spec fn similarity(a: Seq<char>, b: Seq<char>) -> int {
    if a.len() == 0 && b.len() == 0 {
        SIMILARITY_SCALE as int
    } else {
        let m = max2(a.len() as int, b.len() as int);
        SIMILARITY_SCALE * (m - edit_distance(a, b)) / m
    }
}

/// Every similarity score lies between zero and the scale.
pub proof fn lemma_similarity_range(a: Seq<char>, b: Seq<char>)
    ensures
        0 <= similarity(a, b) <= SIMILARITY_SCALE,
{
    if a.len() == 0 && b.len() == 0 {
    } else {
        let m = max2(a.len() as int, b.len() as int);
        let d = edit_distance(a, b);
        lemma_edit_distance_nonneg(a, b);
        lemma_edit_distance_le_max(a, b);
        lemma_mul_nonnegative(SIMILARITY_SCALE as int, m - d);
        lemma_div_pos_is_pos(SIMILARITY_SCALE * (m - d), m);
        lemma_mul_inequality(m - d, m, SIMILARITY_SCALE as int);
        assert((m - d) * (SIMILARITY_SCALE as int) == SIMILARITY_SCALE * (m - d)) by (nonlinear_arith);
        assert(m * (SIMILARITY_SCALE as int) == SIMILARITY_SCALE * m) by (nonlinear_arith);
        lemma_multiply_divide_le(SIMILARITY_SCALE * (m - d), m, SIMILARITY_SCALE as int);
    }
}

/// A string is maximally similar to itself.
pub proof fn lemma_similarity_self(a: Seq<char>)
    ensures
        similarity(a, a) == SIMILARITY_SCALE,
{
    if a.len() > 0 {
        let m = a.len() as int;
        lemma_edit_distance_zero_iff(a, a);
        assert(SIMILARITY_SCALE * (m - 0) == (SIMILARITY_SCALE as int) * m);
        lemma_div_by_multiple(SIMILARITY_SCALE as int, m);
        assert(((SIMILARITY_SCALE as int) * m) / m == SIMILARITY_SCALE) by {
            assert((SIMILARITY_SCALE as int) * m == m * (SIMILARITY_SCALE as int))
                by (nonlinear_arith);
            lemma_div_by_multiple(SIMILARITY_SCALE as int, m);
        }
    }
}

/// Only a string itself attains the maximal score: any difference costs
/// at least one edit, and one edit already lowers the score.
pub proof fn lemma_similarity_max_iff(a: Seq<char>, b: Seq<char>)
    ensures
        similarity(a, b) == SIMILARITY_SCALE <==> a == b,
{
    if a == b {
        lemma_similarity_self(a);
    } else {
        assert(!(a.len() == 0 && b.len() == 0)) by {
            if a.len() == 0 && b.len() == 0 {
                assert(a =~= b);
            }
        }
        let m = max2(a.len() as int, b.len() as int);
        let d = edit_distance(a, b);
        lemma_edit_distance_zero_iff(a, b);
        lemma_edit_distance_nonneg(a, b);
        lemma_edit_distance_le_max(a, b);
        assert(1 <= d <= m);
        assert(SIMILARITY_SCALE * (m - d) < m * SIMILARITY_SCALE) by (nonlinear_arith)
            requires
                1 <= d <= m,
        ;
        lemma_multiply_divide_lt(SIMILARITY_SCALE * (m - d), m, SIMILARITY_SCALE as int);
    }
}

/// Between sequences that share no character, the edit distance is the
/// full length of the longer one: every position must be touched.
pub proof fn lemma_edit_distance_disjoint(a: Seq<char>, b: Seq<char>)
    requires
        forall|i: int, j: int|
            0 <= i < a.len() && 0 <= j < b.len() ==> #[trigger] a[i] != #[trigger] b[j],
    ensures
        edit_distance(a, b) == max2(a.len() as int, b.len() as int),
    decreases a.len() + b.len(),
{
    if a.len() > 0 && b.len() > 0 {
        assert forall|i: int, j: int|
            0 <= i < a.drop_last().len() && 0 <= j < b.len() implies #[trigger] a.drop_last()[i]
            != #[trigger] b[j] by {
            assert(a.drop_last()[i] == a[i]);
        }
        assert forall|i: int, j: int|
            0 <= i < a.len() && 0 <= j < b.drop_last().len() implies #[trigger] a[i]
            != #[trigger] b.drop_last()[j] by {
            assert(b.drop_last()[j] == b[j]);
        }
        assert forall|i: int, j: int|
            0 <= i < a.drop_last().len() && 0 <= j < b.drop_last().len() implies
            #[trigger] a.drop_last()[i] != #[trigger] b.drop_last()[j] by {
            assert(a.drop_last()[i] == a[i]);
            assert(b.drop_last()[j] == b[j]);
        }
        lemma_edit_distance_disjoint(a.drop_last(), b);
        lemma_edit_distance_disjoint(a, b.drop_last());
        lemma_edit_distance_disjoint(a.drop_last(), b.drop_last());
        assert(a.last() != b.last());
    }
}

/// Strings that share no character score zero.
pub proof fn lemma_similarity_disjoint_zero(a: Seq<char>, b: Seq<char>)
    requires
        a.len() > 0 || b.len() > 0,
        forall|i: int, j: int|
            0 <= i < a.len() && 0 <= j < b.len() ==> #[trigger] a[i] != #[trigger] b[j],
    ensures
        similarity(a, b) == 0,
{
    let m = max2(a.len() as int, b.len() as int);
    lemma_edit_distance_disjoint(a, b);
    assert(SIMILARITY_SCALE * (m - m) == 0);
    lemma_div_pos_is_pos(0, m);
    lemma_multiply_divide_lt(0, m, 1);
}

/// Edit distance between two character vectors, by dynamic programming
/// over prefix pairs.
fn edit_distance_exec(a: &Vec<char>, b: &Vec<char>) -> (d: usize)
    ensures
        d as int == edit_distance(a@, b@),
{
    let la = a.len();
    let lb = b.len();
    proof {
        assert(a@.take(0) =~= Seq::<char>::empty());
        assert(b@.take(0) =~= Seq::<char>::empty());
    }
    // prev[k] holds the distance of a's first i characters and b's first k.
    let mut prev: Vec<u128> = Vec::new();
    prev.push(0);
    let mut j: usize = 0;
    while j < lb
        invariant
            lb == b@.len(),
            j <= lb,
            prev@.len() == j + 1,
            forall|k: int| 0 <= k <= j ==> #[trigger] prev@[k] == edit_distance(
                a@.take(0),
                b@.take(k),
            ),
        decreases lb - j,
    {
        proof {
            assert(b@.take(j + 1).len() == j + 1);
        }
        prev.push((j as u128) + 1);
        j = j + 1;
    }
    let mut i: usize = 0;
    while i < la
        invariant
            la == a@.len(),
            lb == b@.len(),
            i <= la,
            prev@.len() == lb + 1,
            forall|k: int| 0 <= k <= lb ==> #[trigger] prev@[k] == edit_distance(
                a@.take(i as int),
                b@.take(k),
            ),
        decreases la - i,
    {
        let mut cur: Vec<u128> = Vec::new();
        proof {
            assert(b@.take(0) =~= Seq::<char>::empty());
            assert(a@.take(i + 1).len() == i + 1);
        }
        cur.push((i as u128) + 1);
        let mut j: usize = 0;
        while j < lb
            invariant
                la == a@.len(),
                lb == b@.len(),
                i < la,
                j <= lb,
                prev@.len() == lb + 1,
                forall|k: int| 0 <= k <= lb ==> #[trigger] prev@[k] == edit_distance(
                    a@.take(i as int),
                    b@.take(k),
                ),
                cur@.len() == j + 1,
                forall|k: int| 0 <= k <= j ==> #[trigger] cur@[k] == edit_distance(
                    a@.take(i + 1),
                    b@.take(k),
                ),
            decreases lb - j,
        {
            proof {
                lemma_edit_distance_step(a@, b@, i + 1, j + 1);
                lemma_edit_distance_nonneg(a@.take(i as int), b@.take(j + 1));
                lemma_edit_distance_nonneg(a@.take(i + 1), b@.take(j as int));
                lemma_edit_distance_nonneg(a@.take(i as int), b@.take(j as int));
                lemma_edit_distance_le_max(a@.take(i as int), b@.take(j + 1));
                lemma_edit_distance_le_max(a@.take(i + 1), b@.take(j as int));
                lemma_edit_distance_le_max(a@.take(i as int), b@.take(j as int));
            }
            let cost: u128 = if a[i] == b[j] {
                0
            } else {
                1
            };
            let del = prev[j + 1] + 1;
            let ins = cur[j] + 1;
            let sub = prev[j] + cost;
            let mut best = if del <= ins {
                del
            } else {
                ins
            };
            if sub < best {
                best = sub;
            }
            cur.push(best);
            j = j + 1;
        }
        prev = cur;
        i = i + 1;
    }
    proof {
        assert(a@.take(la as int) =~= a@);
        assert(b@.take(lb as int) =~= b@);
        lemma_edit_distance_nonneg(a@, b@);
        lemma_edit_distance_le_max(a@, b@);
    }
    prev[lb] as usize
}

/// The similarity score of two strings: `SIMILARITY_SCALE` times the share
/// of the longer string that need not be edited, rounded down. Identical
/// strings score exactly `SIMILARITY_SCALE`; only they do.
pub fn similarity_score(a: &str, b: &str) -> (s: u64)
    ensures
        s as int == similarity(a@, b@),
{
    let ca = chars_of(a);
    let cb = chars_of(b);
    let la = ca.len();
    let lb = cb.len();
    if la == 0 && lb == 0 {
        return SIMILARITY_SCALE;
    }
    let m = if la >= lb {
        la
    } else {
        lb
    };
    let d = edit_distance_exec(&ca, &cb);
    proof {
        lemma_edit_distance_nonneg(a@, b@);
        lemma_edit_distance_le_max(a@, b@);
        lemma_similarity_range(a@, b@);
    }
    let num = (SIMILARITY_SCALE as u128) * ((m - d) as u128);
    let q = num / (m as u128);
    q as u64
}

} // verus!
