//! How well searches do: tallies of verdicts, and synthetic queries.

use vstd::prelude::*;
use crate::data::{Dataset, DatasetModel};
use crate::float_bits::F32Bits;
use crate::knn::{gives_one_key, more_clusters_than_all_are_all, nearest_clusters, one_tier_count, search_clusters, searches_count_alike, Query};
use crate::vector::SearchResult;

verus! {

/// Differences between the fraud counts of two searches.
#[derive(Debug, Clone, Copy, PartialEq, Eq, Structural)]
pub struct Accuracy {
    /// Queries that were searched for.
    pub queries: usize,
    /// Queries with different counts.
    pub mismatches: usize,
    /// Of these, those that only the tested search takes for frauds.
    pub false_positives: usize,
    /// Of these, all others.
    pub false_negatives: usize,
}

/// The number of queries with different counts.
pub open spec fn mismatches(exact: Seq<nat>, test: Seq<nat>) -> nat
    decreases exact.len(),
{
    if exact.len() == 0 {
        0
    } else {
        mismatches(exact.drop_last(), test) + if exact.last() != test[exact.len() - 1] {
            1nat
        } else {
            0nat
        }
    }
}

/// The number of queries that only the tested search takes for frauds.
pub open spec fn false_positives(exact: Seq<nat>, test: Seq<nat>) -> nat
    decreases exact.len(),
{
    if exact.len() == 0 {
        0
    } else {
        false_positives(exact.drop_last(), test) + if test[exact.len() - 1] >= 3 && exact.last()
            < 3 {
            1nat
        } else {
            0nat
        }
    }
}

/// No more queries are taken for frauds by the tested search alone than have
/// different counts.
pub proof fn false_positives_are_mismatches(exact: Seq<nat>, test: Seq<nat>)
    ensures
        false_positives(exact, test) <= mismatches(exact, test) <= exact.len(),
    decreases exact.len(),
{
    if exact.len() > 0 {
        false_positives_are_mismatches(exact.drop_last(), test);
    }
}

/// The counts may come out of searching the nearest `nprobe` clusters for each
/// query.
pub open spec fn are_counts<F: Fn(u32) -> F32Bits>(
    m: DatasetModel,
    queries: Seq<Query>,
    nprobe: nat,
    scale: F,
    counts: Seq<nat>,
) -> bool {
    &&& counts.len() == queries.len()
    &&& forall|i: int|
        0 <= i < queries.len() ==> one_tier_count(
            m,
            queries[i].scaled@,
            nearest_clusters(queries[i].dists@, m.k, nprobe),
            scale,
            #[trigger] counts[i],
        )
}

/// Compares the search of the nearest `nprobe_test` clusters with the search of
/// all of them.
pub fn accuracy_test<F: Fn(u32) -> F32Bits>(
    queries: &[Query],
    ds: &Dataset,
    nprobe_test: usize,
    scale: &F,
) -> (r: Accuracy)
    requires
        ds@.is_scannable(),
        ds@.k > 0,
        nprobe_test > 0,
        forall|i: int| 0 <= i < queries@.len() ==> ds@.k <= (#[trigger] queries@[i]).dists@.len(),
        forall|raw: u32| call_requires(*scale, (raw,)),
    ensures
        exists|exact: Seq<nat>, test: Seq<nat>|
            #[trigger] are_counts(ds@, queries@, ds@.k, *scale, exact)
                && #[trigger] are_counts(ds@, queries@, nprobe_test as nat, *scale, test)
                && r.mismatches == mismatches(exact, test) && r.false_positives == false_positives(
                exact,
                test,
            ),
        r.queries == queries@.len(),
        r.mismatches == r.false_positives + r.false_negatives,
{
    let ghost mut exact = Seq::<nat>::empty();
    let ghost mut test = Seq::<nat>::empty();
    let mut mismatched: usize = 0;
    let mut fp: usize = 0;
    let mut other: usize = 0;
    let mut i: usize = 0;
    while i < queries.len()
        invariant
            i <= queries@.len(),
            ds@.is_scannable(),
            ds@.k > 0,
            nprobe_test > 0,
            forall|i: int|
                0 <= i < queries@.len() ==> ds@.k <= (#[trigger] queries@[i]).dists@.len(),
            forall|raw: u32| call_requires(*scale, (raw,)),
            are_counts(ds@, queries@.take(i as int), ds@.k, *scale, exact),
            are_counts(ds@, queries@.take(i as int), nprobe_test as nat, *scale, test),
            mismatched == mismatches(exact, test),
            fp == false_positives(exact, test),
            mismatched == fp + other,
            mismatched <= i,
        decreases queries@.len() - i,
    {
        let query: &Query = &queries[i];
        let e: u8 = search_clusters(
            query.dists.as_slice(),
            &query.scaled,
            ds,
            ds.k,
            scale,
        );
        let t: u8 = search_clusters(
            query.dists.as_slice(),
            &query.scaled,
            ds,
            nprobe_test,
            scale,
        );
        proof {
            let more_exact = exact.push(e as nat);
            let more_test = test.push(t as nat);
            assert(more_exact.drop_last() =~= exact);
            tallies_look_at_the_front(exact, test, more_test);
            assert(are_counts(
                ds@,
                queries@.take(i + 1),
                ds@.k,
                *scale,
                more_exact,
            ));
            assert(are_counts(ds@, queries@.take(i + 1), nprobe_test as nat, *scale, more_test));
            exact = more_exact;
            test = more_test;
        }
        if e != t {
            mismatched = mismatched + 1;
            if t >= 3 && e < 3 {
                fp = fp + 1;
            } else {
                other = other + 1;
            }
        }
        i = i + 1;
    }
    assert(queries@.take(i as int) =~= queries@);
    Accuracy {
        queries: queries.len(),
        mismatches: mismatched,
        false_positives: fp,
        false_negatives: other,
    }
}

/// Searching all clusters is exact: where as many clusters are searched as there
/// are, or more, no count differs.
pub proof fn probing_all_clusters_is_exact<F: Fn(u32) -> F32Bits>(
    m: DatasetModel,
    queries: Seq<Query>,
    nprobe: nat,
    scale: F,
    exact: Seq<nat>,
    test: Seq<nat>,
)
    requires
        gives_one_key(scale),
        m.k <= nprobe,
        m.k <= usize::MAX,
        forall|i: int| 0 <= i < queries.len() ==> m.k <= (#[trigger] queries[i]).dists@.len(),
        are_counts(m, queries, m.k, scale, exact),
        are_counts(m, queries, nprobe, scale, test),
    ensures
        exact == test,
        mismatches(exact, test) == 0,
        false_positives(exact, test) == 0,
{
    assert forall|i: int| 0 <= i < exact.len() implies exact[i] == test[i] by {
        let dists = queries[i].dists@;
        let all = nearest_clusters(dists, m.k, m.k);
        more_clusters_than_all_are_all(dists, m.k, nprobe);
        searches_count_alike(m, queries[i].scaled@, all, scale, exact[i], test[i]);
    }
    assert(exact =~= test);
    equal_counts_do_not_mismatch(exact, test);
    false_positives_are_mismatches(exact, test);
}

proof fn equal_counts_do_not_mismatch(exact: Seq<nat>, test: Seq<nat>)
    requires
        exact.len() <= test.len(),
        forall|i: int| 0 <= i < exact.len() ==> exact[i] == #[trigger] test[i],
    ensures
        mismatches(exact, test) == 0,
    decreases exact.len(),
{
    if exact.len() > 0 {
        equal_counts_do_not_mismatch(exact.drop_last(), test);
        assert(test[exact.len() - 1] == exact.last());
    }
}

/// A tally looks at as many tested counts as there are exact ones.
proof fn tallies_look_at_the_front(exact: Seq<nat>, test: Seq<nat>, more: Seq<nat>)
    requires
        exact.len() <= test.len() <= more.len(),
        forall|i: int| 0 <= i < exact.len() ==> test[i] == #[trigger] more[i],
    ensures
        mismatches(exact, test) == mismatches(exact, more),
        false_positives(exact, test) == false_positives(exact, more),
    decreases exact.len(),
{
    if exact.len() > 0 {
        tallies_look_at_the_front(exact.drop_last(), test, more);
        assert(test[exact.len() - 1] == more[exact.len() - 1]);
    }
}

/// The number of frauds among results.
pub open spec fn fraud_results(results: Seq<SearchResult>) -> nat
    decreases results.len(),
{
    if results.len() == 0 {
        0
    } else {
        fraud_results(results.drop_last()) + if results.last().label == 1 {
            1nat
        } else {
            0nat
        }
    }
}

/// Counts the frauds among results.
pub fn count_fraud_results(results: &[SearchResult]) -> (r: usize)
    ensures
        r == fraud_results(results@),
        r <= results@.len(),
{
    let mut r: usize = 0;
    let mut i: usize = 0;
    while i < results.len()
        invariant
            i <= results@.len(),
            r == fraud_results(results@.take(i as int)),
            r <= i,
        decreases results@.len() - i,
    {
        assert(results@.take(i + 1).drop_last() =~= results@.take(i as int));
        if results[i].label == 1 {
            r = r + 1;
        }
        i = i + 1;
    }
    assert(results@.take(i as int) =~= results@);
    r
}

/// Whether a transaction is approved: if fewer than three fifths of its
/// neighbours are frauds, or if it has none.
pub fn is_approved(results: &[SearchResult]) -> (r: bool)
    requires
        results@.len() <= 5,
    ensures
        r == (results@.len() == 0 || 5 * fraud_results(results@) < 3 * results@.len()),
{
    let count: usize = count_fraud_results(results);
    results.len() == 0 || 5 * count < 3 * results.len()
}

/// How verdicts compare with what was expected.
#[derive(Debug, Clone, Copy, PartialEq, Eq, Structural)]
pub struct Tally {
    pub correct: usize,
    /// Approved, but not expected to be.
    pub false_positives: usize,
    /// Not approved, but expected to be.
    pub false_negatives: usize,
}

/// The number of verdicts, each with what was expected, that are so.
pub open spec fn verdicts(v: Seq<(bool, bool)>, approved: bool, expected: bool) -> nat
    decreases v.len(),
{
    if v.len() == 0 {
        0
    } else {
        verdicts(v.drop_last(), approved, expected) + if v.last() == (approved, expected) {
            1nat
        } else {
            0nat
        }
    }
}

/// Tallies verdicts, each with what was expected.
pub fn tally(v: &[(bool, bool)]) -> (r: Tally)
    ensures
        r.correct == verdicts(v@, true, true) + verdicts(v@, false, false),
        r.false_positives == verdicts(v@, true, false),
        r.false_negatives == verdicts(v@, false, true),
        r.correct + r.false_positives + r.false_negatives == v@.len(),
{
    let mut correct: usize = 0;
    let mut fp: usize = 0;
    let mut other: usize = 0;
    let mut i: usize = 0;
    while i < v.len()
        invariant
            i <= v@.len(),
            correct == verdicts(v@.take(i as int), true, true) + verdicts(
                v@.take(i as int),
                false,
                false,
            ),
            fp == verdicts(v@.take(i as int), true, false),
            other == verdicts(v@.take(i as int), false, true),
            correct + fp + other == i,
        decreases v@.len() - i,
    {
        assert(v@.take(i + 1).drop_last() =~= v@.take(i as int));
        let (approved, expected) = v[i];
        if approved == expected {
            correct = correct + 1;
        } else if approved {
            fp = fp + 1;
        } else {
            other = other + 1;
        }
        i = i + 1;
    }
    assert(v@.take(i as int) =~= v@);
    Tally { correct, false_positives: fp, false_negatives: other }
}

/// The next state of a small random generator.
pub open spec fn next_small_random(x: u32) -> u32 {
    ((x * 1664525 + 1013904223) % 0x1_0000_0000) as u32
}

/// Draws from the small random generator.
pub fn small_draw(x: u32) -> (r: u32)
    ensures
        r == next_small_random(x),
{
    ((x as u64 * 1664525 + 1013904223) % 0x1_0000_0000) as u32
}

/// The state after `t` draws from the small random generator.
pub open spec fn small_random(t: nat) -> u32
    decreases t,
{
    if t == 0 {
        0x1234_5678
    } else {
        next_small_random(small_random((t - 1) as nat))
    }
}

/// Twenty synthetic queries to warm up with: in each dimension 24 random bits,
/// to be read as a fraction.
pub fn warmup_queries() -> (r: Vec<[u32; 14]>)
    ensures
        r@.len() == 20,
        forall|i: int, d: int|
            0 <= i < 20 && 0 <= d < 14 ==> (#[trigger] r@[i]@[d]) == small_random(
                (14 * i + d + 1) as nat,
            ) as int / 256,
{
    let mut r: Vec<[u32; 14]> = Vec::new();
    let mut state: u32 = 0x1234_5678;
    let mut i: usize = 0;
    while i < 20
        invariant
            i <= 20,
            r@.len() == i,
            state == small_random((14 * i) as nat),
            forall|j: int, d: int|
                0 <= j < i && 0 <= d < 14 ==> (#[trigger] r@[j]@[d]) == small_random(
                    (14 * j + d + 1) as nat,
                ) as int / 256,
        decreases 20 - i,
    {
        let mut q: [u32; 14] = [0; 14];
        let mut d: usize = 0;
        while d < 14
            invariant
                d <= 14,
                state == small_random((14 * i + d) as nat),
                forall|e: int|
                    0 <= e < d ==> (#[trigger] q@[e]) == small_random((14 * i + e + 1) as nat) as int
                        / 256,
            decreases 14 - d,
        {
            state = small_draw(state);
            q[d] = state / 256;
            d = d + 1;
        }
        r.push(q);
        i = i + 1;
    }
    r
}

} // verus!
