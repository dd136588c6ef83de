//! Ordering and filtering of reconciled entries for presentation.
//!
//! With the installed-only flag set, entries whose action is `Install` are
//! dropped; the rest are kept. Without a query the kept entries are ordered
//! by package name, ascending and case-sensitive by code point. With a query
//! they are ordered by descending similarity of the package name to the
//! query, and entries of equal score keep their relative input order: the
//! sort is stable by construction.

use crate::fuzzy::{
    lemma_similarity_max_iff, lemma_similarity_range, lemma_similarity_self, similarity,
    similarity_score,
};
use crate::reconcile::{Action, ReconciledEntry};
use crate::version::{chars_of, lemma_lex_cmp_antisym, lemma_lex_cmp_trans, lex_cmp, lex_cmp_exec, Cmp};
use vstd::prelude::*;
use vstd::seq_lib::lemma_multiset_commutative;

verus! {

/// The name a ranked entry is ordered by: the catalog package's name.
pub open spec fn entry_name(e: ReconciledEntry) -> Seq<char> {
    e.catalog_package.name@
}

/// The view of an optional query string.
pub open spec fn query_view(q: Option<String>) -> Option<Seq<char>> {
    match q {
        None => None,
        Some(s) => Some(s@),
    }
}

/// Strict ordering of two entries: without a query, strictly smaller name;
/// with a query, strictly greater similarity of the name to the query.
pub open spec fn entry_before(q: Option<Seq<char>>, a: ReconciledEntry, b: ReconciledEntry) -> bool {
    match q {
        None => lex_cmp(entry_name(a), entry_name(b)) == Cmp::Less,
        Some(qs) => similarity(entry_name(a), qs) > similarity(entry_name(b), qs),
    }
}

/// Whether the filter keeps an entry: everything is kept unless only
/// installed entries are wanted, and installed means any action but
/// `Install`.
pub open spec fn keeps(installed_only: bool, e: ReconciledEntry) -> bool {
    !installed_only || e.action != Action::Install
}

/// The entries that survive the installed-only filter, in input order.
pub open spec fn filter_entries(installed_only: bool, s: Seq<ReconciledEntry>) -> Seq<
    ReconciledEntry,
> {
    s.filter(|e: ReconciledEntry| keeps(installed_only, e))
}

/// Insertion of `x` into `s` directly before the first entry that `x`
/// strictly precedes; entries `x` does not strictly precede stay in front
/// of it, which is what keeps the sort stable.
pub open spec fn insort(q: Option<Seq<char>>, s: Seq<ReconciledEntry>, x: ReconciledEntry) -> Seq<
    ReconciledEntry,
>
    decreases s.len(),
{
    if s.len() == 0 {
        seq![x]
    } else if entry_before(q, x, s[0]) {
        seq![x] + s
    } else {
        seq![s[0]] + insort(q, s.drop_first(), x)
    }
}

/// Stable insertion sort of the entries under `entry_before`.
pub open spec fn sort_entries(q: Option<Seq<char>>, s: Seq<ReconciledEntry>) -> Seq<
    ReconciledEntry,
>
    decreases s.len(),
{
    if s.len() == 0 {
        Seq::empty()
    } else {
        insort(q, sort_entries(q, s.drop_last()), s.last())
    }
}

/// The ranking: filter by the installed-only flag, then stable-sort by
/// name or by similarity to the query.
pub open spec fn rank_spec(
    s: Seq<ReconciledEntry>,
    installed_only: bool,
    q: Option<Seq<char>>,
) -> Seq<ReconciledEntry> {
    sort_entries(q, filter_entries(installed_only, s))
}

/// No two entries strictly precede each other.
proof fn lemma_before_asym(q: Option<Seq<char>>, a: ReconciledEntry, b: ReconciledEntry)
    requires
        entry_before(q, a, b),
    ensures
        !entry_before(q, b, a),
{
    if q is None {
        lemma_lex_cmp_antisym(entry_name(a), entry_name(b));
    }
}

/// Strict precedence of entries is transitive.
proof fn lemma_before_trans(
    q: Option<Seq<char>>,
    a: ReconciledEntry,
    b: ReconciledEntry,
    c: ReconciledEntry,
)
    requires
        entry_before(q, a, b),
        entry_before(q, b, c),
    ensures
        entry_before(q, a, c),
{
    if q is None {
        lemma_lex_cmp_trans(entry_name(a), entry_name(b), entry_name(c));
    }
}

/// No later entry strictly precedes an earlier one.
pub open spec fn sorted_entries(q: Option<Seq<char>>, s: Seq<ReconciledEntry>) -> bool {
    forall|i: int, j: int| 0 <= i < j < s.len() ==> !entry_before(q, #[trigger] s[j], #[trigger] s[i])
}

/// Inserting adds exactly the new entry to the contents.
proof fn lemma_insort_multiset(q: Option<Seq<char>>, s: Seq<ReconciledEntry>, x: ReconciledEntry)
    ensures
        insort(q, s, x).len() == s.len() + 1,
        insort(q, s, x).to_multiset() =~= s.to_multiset().insert(x),
    decreases s.len(),
{
    broadcast use vstd::seq_lib::group_to_multiset_ensures;

    if s.len() == 0 {
        assert(seq![x] =~= Seq::<ReconciledEntry>::empty().push(x));
        assert(s.to_multiset() =~= Seq::<ReconciledEntry>::empty().to_multiset());
    } else if entry_before(q, x, s[0]) {
        lemma_multiset_commutative(seq![x], s);
        assert(seq![x] =~= Seq::<ReconciledEntry>::empty().push(x));
    } else {
        lemma_insort_multiset(q, s.drop_first(), x);
        lemma_multiset_commutative(seq![s[0]], insort(q, s.drop_first(), x));
        lemma_multiset_commutative(seq![s[0]], s.drop_first());
        assert(s =~= seq![s[0]] + s.drop_first());
        assert(seq![s[0]] =~= Seq::<ReconciledEntry>::empty().push(s[0]));
    }
}

/// Sorting does not change the contents.
proof fn lemma_sort_multiset(q: Option<Seq<char>>, s: Seq<ReconciledEntry>)
    ensures
        sort_entries(q, s).len() == s.len(),
        sort_entries(q, s).to_multiset() =~= s.to_multiset(),
    decreases s.len(),
{
    broadcast use vstd::seq_lib::group_to_multiset_ensures;

    if s.len() > 0 {
        lemma_sort_multiset(q, s.drop_last());
        lemma_insort_multiset(q, sort_entries(q, s.drop_last()), s.last());
        assert(s =~= s.drop_last().push(s.last()));
    }
}

/// An entry of the sorted sequence is an entry of the input, and the other
/// way round.
proof fn lemma_sort_same_elements(q: Option<Seq<char>>, s: Seq<ReconciledEntry>)
    ensures
        forall|x: ReconciledEntry| #[trigger] sort_entries(q, s).contains(x) <==> s.contains(x),
{
    broadcast use vstd::seq_lib::group_to_multiset_ensures;

    lemma_sort_multiset(q, s);
    assert forall|x: ReconciledEntry|
        #[trigger] sort_entries(q, s).contains(x) <==> s.contains(x) by {
        assert(sort_entries(q, s).contains(x) <==> sort_entries(q, s).to_multiset().count(x) > 0);
        assert(s.contains(x) <==> s.to_multiset().count(x) > 0);
    }
}

/// Insertion keeps the sequence sorted.
proof fn lemma_insort_sorted(q: Option<Seq<char>>, s: Seq<ReconciledEntry>, x: ReconciledEntry)
    requires
        sorted_entries(q, s),
    ensures
        sorted_entries(q, insort(q, s, x)),
    decreases s.len(),
{
    broadcast use vstd::seq_lib::group_to_multiset_ensures;

    let out = insort(q, s, x);
    if s.len() == 0 {
    } else if entry_before(q, x, s[0]) {
        assert forall|i: int, j: int| 0 <= i < j < out.len() implies !entry_before(
            q,
            out[j],
            out[i],
        ) by {
            if i == 0 {
                // out[j] is s[j - 1]; x strictly precedes s[0], which is not
                // strictly after s[j - 1], so x comes first.
                if entry_before(q, s[j - 1], x) {
                    lemma_before_trans(q, s[j - 1], x, s[0]);
                    if j - 1 > 0 {
                        assert(entry_before(q, s[j - 1], s[0]));
                        assert(false);
                    } else {
                        lemma_before_asym(q, s[0], x);
                        assert(false);
                    }
                }
            }
        }
    } else {
        let rest = insort(q, s.drop_first(), x);
        assert forall|i: int, j: int| 0 <= i < j < s.drop_first().len() implies !entry_before(
            q,
            #[trigger] s.drop_first()[j],
            #[trigger] s.drop_first()[i],
        ) by {
            assert(s.drop_first()[j] == s[j + 1]);
            assert(s.drop_first()[i] == s[i + 1]);
        }
        lemma_insort_sorted(q, s.drop_first(), x);
        lemma_insort_multiset(q, s.drop_first(), x);
        assert forall|i: int, j: int| 0 <= i < j < out.len() implies !entry_before(
            q,
            out[j],
            out[i],
        ) by {
            if i == 0 {
                // out[j] is an entry of the inserted tail: either x itself,
                // which does not strictly precede s[0], or some s[k + 1],
                // which the sortedness of s puts at or after s[0].
                assert(out[j] == rest[j - 1]);
                assert(rest.contains(rest[j - 1]));
                assert(rest.to_multiset().contains(rest[j - 1]));
                if rest[j - 1] == x {
                    assert(!entry_before(q, x, s[0]));
                } else {
                    assert(s.drop_first().to_multiset().contains(rest[j - 1]));
                    assert(s.drop_first().contains(rest[j - 1]));
                    let k = choose|k: int|
                        0 <= k < s.drop_first().len() && s.drop_first()[k] == rest[j - 1];
                    assert(s[k + 1] == rest[j - 1]);
                    assert(!entry_before(q, s[k + 1], s[0]));
                }
            } else {
                assert(out[j] == rest[j - 1] && out[i] == rest[i - 1]);
            }
        }
    }
}

/// The sort really sorts: its result is sorted.
proof fn lemma_sort_sorted(q: Option<Seq<char>>, s: Seq<ReconciledEntry>)
    ensures
        sorted_entries(q, sort_entries(q, s)),
    decreases s.len(),
{
    if s.len() > 0 {
        lemma_sort_sorted(q, s.drop_last());
        lemma_insort_sorted(q, sort_entries(q, s.drop_last()), s.last());
    }
}

/// Inserting at the first position whose entry `x` strictly precedes is
/// exactly what `insort` does.
proof fn lemma_insort_at(
    q: Option<Seq<char>>,
    s: Seq<ReconciledEntry>,
    x: ReconciledEntry,
    p: int,
)
    requires
        0 <= p <= s.len(),
        forall|k: int| 0 <= k < p ==> !entry_before(q, x, #[trigger] s[k]),
        p < s.len() ==> entry_before(q, x, s[p]),
    ensures
        insort(q, s, x) == s.insert(p, x),
    decreases s.len(),
{
    if s.len() == 0 {
        assert(insort(q, s, x) =~= s.insert(0, x));
    } else if entry_before(q, x, s[0]) {
        assert(p == 0);
        assert(seq![x] + s =~= s.insert(0, x));
    } else {
        assert(p >= 1);
        assert forall|k: int| 0 <= k < p - 1 implies !entry_before(
            q,
            x,
            #[trigger] s.drop_first()[k],
        ) by {
            assert(s.drop_first()[k] == s[k + 1]);
        }
        assert(p - 1 < s.drop_first().len() ==> entry_before(q, x, s.drop_first()[p - 1]));
        lemma_insort_at(q, s.drop_first(), x, p - 1);
        assert(seq![s[0]] + s.drop_first().insert(p - 1, x) =~= s.insert(p, x));
    }
}

/// Whether `a` strictly precedes `b` in the ranking order given by `query`.
fn entry_before_exec(query: &Option<String>, a: &ReconciledEntry, b: &ReconciledEntry) -> (r: bool)
    ensures
        r == entry_before(query_view(*query), *a, *b),
{
    match query {
        None => {
            let ca = chars_of(a.catalog_package.name.as_str());
            let cb = chars_of(b.catalog_package.name.as_str());
            lex_cmp_exec(&ca, &cb) == Cmp::Less
        },
        Some(qs) => {
            let sa = similarity_score(a.catalog_package.name.as_str(), qs.as_str());
            let sb = similarity_score(b.catalog_package.name.as_str(), qs.as_str());
            sa > sb
        },
    }
}

/// The first position in `out` whose entry `x` strictly precedes, or the
/// length of `out` if there is none.
fn insertion_point(query: &Option<String>, out: &Vec<ReconciledEntry>, x: &ReconciledEntry) -> (p:
    usize)
    ensures
        p <= out@.len(),
        forall|k: int| 0 <= k < p ==> !entry_before(query_view(*query), *x, #[trigger] out@[k]),
        p < out@.len() ==> entry_before(query_view(*query), *x, out@[p as int]),
{
    let n = out.len();
    let mut p: usize = 0;
    while p < n
        invariant
            n == out@.len(),
            p <= n,
            forall|k: int| 0 <= k < p ==> !entry_before(query_view(*query), *x, #[trigger] out@[k]),
        decreases n - p,
    {
        if entry_before_exec(query, x, &out[p]) {
            return p;
        }
        p = p + 1;
    }
    p
}

/// Filter and order the entries for presentation: with `installed_only`,
/// keep only entries whose action is not `Install`; then, without a query,
/// sort ascending by name, and with one, sort by descending similarity of
/// the name to the query, entries of equal score keeping their input
/// order. Pure in its inputs; never fails.
pub fn rank(entries: &Vec<ReconciledEntry>, installed_only: bool, query: Option<String>) -> (r: Vec<
    ReconciledEntry,
>)
    ensures
        r@ == rank_spec(entries@, installed_only, query_view(query)),
{
    let n = entries.len();
    let mut kept: Vec<ReconciledEntry> = Vec::new();
    let mut i: usize = 0;
    proof {
        reveal(Seq::filter);
        assert(entries@.take(0) =~= Seq::<ReconciledEntry>::empty());
    }
    while i < n
        invariant
            n == entries@.len(),
            i <= n,
            kept@ == filter_entries(installed_only, entries@.take(i as int)),
        decreases n - i,
    {
        proof {
            reveal(Seq::filter);
            assert(entries@.take(i + 1).drop_last() =~= entries@.take(i as int));
            assert(entries@.take(i + 1).last() == entries@[i as int]);
        }
        if !installed_only || !(entries[i].action == Action::Install) {
            kept.push(entries[i].clone());
        }
        i = i + 1;
    }
    proof {
        assert(entries@.take(n as int) =~= entries@);
    }
    let m = kept.len();
    let mut out: Vec<ReconciledEntry> = Vec::new();
    let mut j: usize = 0;
    proof {
        assert(kept@.take(0) =~= Seq::<ReconciledEntry>::empty());
    }
    while j < m
        invariant
            m == kept@.len(),
            j <= m,
            out@ == sort_entries(query_view(query), kept@.take(j as int)),
        decreases m - j,
    {
        let x = kept[j].clone();
        let p = insertion_point(&query, &out, &x);
        proof {
            lemma_insort_at(query_view(query), out@, x, p as int);
            assert(kept@.take(j + 1).drop_last() =~= kept@.take(j as int));
            assert(kept@.take(j + 1).last() == kept@[j as int]);
        }
        out.insert(p, x);
        j = j + 1;
    }
    proof {
        assert(kept@.take(m as int) =~= kept@);
    }
    out
}

/// The filter keeps everything when only-installed is not asked for.
proof fn lemma_filter_identity(s: Seq<ReconciledEntry>)
    ensures
        filter_entries(false, s) == s,
    decreases s.len(),
{
    reveal(Seq::filter);
    if s.len() == 0 {
    } else {
        lemma_filter_identity(s.drop_last());
        assert(s.drop_last().push(s.last()) =~= s);
    }
}

/// An entry that strictly precedes every other entry is sorted to the
/// front.
proof fn lemma_sort_unique_best(q: Option<Seq<char>>, s: Seq<ReconciledEntry>, i0: int)
    requires
        0 <= i0 < s.len(),
        forall|k: int| 0 <= k < s.len() && k != i0 ==> entry_before(q, s[i0], #[trigger] s[k]),
    ensures
        sort_entries(q, s).len() == s.len(),
        sort_entries(q, s)[0] == s[i0],
    decreases s.len(),
{
    lemma_sort_multiset(q, s);
    let e = s[i0];
    if s.len() == 1 {
        assert(s.drop_last().len() == 0);
        assert(sort_entries(q, s.drop_last()) == Seq::<ReconciledEntry>::empty());
        assert(sort_entries(q, s) == insort(q, Seq::<ReconciledEntry>::empty(), s.last()));
        assert(sort_entries(q, s) == seq![s.last()]);
        assert(s.last() == s[i0]);
    } else {
        let s1 = s.drop_last();
        let x = s.last();
        let t = sort_entries(q, s1);
        lemma_sort_multiset(q, s1);
        assert(sort_entries(q, s) == insort(q, t, x));
        if i0 == s.len() - 1 {
            lemma_sort_same_elements(q, s1);
            assert(t.contains(t[0]));
            assert(s1.contains(t[0]));
            let k = choose|k: int| 0 <= k < s1.len() && s1[k] == t[0];
            assert(s[k] == t[0]);
            assert(entry_before(q, e, s[k]));
            assert(insort(q, t, x) == seq![x] + t);
        } else {
            assert forall|k: int| 0 <= k < s1.len() && k != i0 implies entry_before(
                q,
                s1[i0],
                #[trigger] s1[k],
            ) by {
                assert(s1[k] == s[k]);
            }
            lemma_sort_unique_best(q, s1, i0);
            assert(entry_before(q, e, x));
            lemma_before_asym(q, e, x);
            assert(insort(q, t, x) == seq![t[0]] + insort(q, t.drop_first(), x));
            assert((seq![t[0]] + insort(q, t.drop_first(), x))[0] == t[0]);
        }
    }
}

/// With the installed-only flag and no query, the ranking keeps exactly
/// the entries whose action is not `Install`, every kept entry indeed has
/// such an action, and the result is in ascending name order.
pub proof fn lemma_rank_installed_only(s: Seq<ReconciledEntry>)
    ensures
        forall|i: int| 0 <= i < rank_spec(s, true, None).len() ==> (#[trigger] rank_spec(
            s,
            true,
            None,
        )[i]).action != Action::Install,
        forall|i: int, j: int| 0 <= i < j < rank_spec(s, true, None).len() ==> lex_cmp(
            entry_name(rank_spec(s, true, None)[i]),
            entry_name(rank_spec(s, true, None)[j]),
        ) != Cmp::Greater,
        rank_spec(s, true, None).to_multiset() == filter_entries(true, s).to_multiset(),
        forall|i: int| 0 <= i < s.len() && (#[trigger] s[i]).action != Action::Install
            ==> rank_spec(s, true, None).contains(s[i]),
{
    broadcast use vstd::seq_lib::group_filter_ensures;

    let f = filter_entries(true, s);
    let r = rank_spec(s, true, None);
    lemma_sort_multiset(None, f);
    lemma_sort_same_elements(None, f);
    lemma_sort_sorted(None, f);
    assert forall|i: int|
        0 <= i < s.len() && (#[trigger] s[i]).action != Action::Install implies r.contains(
        s[i],
    ) by {
        assert(keeps(true, s[i]));
        assert(f.contains(s[i]));
    }
    assert forall|i: int| 0 <= i < r.len() implies (#[trigger] r[i]).action != Action::Install by {
        assert(r.contains(r[i]));
        assert(f.contains(r[i]));
        let k = choose|k: int| 0 <= k < f.len() && f[k] == r[i];
        assert(keeps(true, f[k]));
    }
    assert forall|i: int, j: int| 0 <= i < j < r.len() implies lex_cmp(
        entry_name(r[i]),
        entry_name(r[j]),
    ) != Cmp::Greater by {
        assert(!entry_before(None, r[j], r[i]));
        lemma_lex_cmp_antisym(entry_name(r[i]), entry_name(r[j]));
    }
}

/// With no filtering and a query equal to the name of exactly one entry,
/// that entry is ranked first: it alone attains the maximal similarity.
pub proof fn lemma_rank_exact_query_first(s: Seq<ReconciledEntry>, q: Seq<char>, i: int)
    requires
        0 <= i < s.len(),
        entry_name(s[i]) == q,
        forall|j: int| 0 <= j < s.len() && j != i ==> entry_name(#[trigger] s[j]) != q,
    ensures
        rank_spec(s, false, Some(q)).len() == s.len(),
        rank_spec(s, false, Some(q))[0] == s[i],
{
    lemma_filter_identity(s);
    assert forall|k: int| 0 <= k < s.len() && k != i implies entry_before(
        Some(q),
        s[i],
        #[trigger] s[k],
    ) by {
        lemma_similarity_self(q);
        lemma_similarity_max_iff(entry_name(s[k]), q);
        lemma_similarity_range(entry_name(s[k]), q);
    }
    lemma_sort_unique_best(Some(q), s, i);
}

} // verus!
