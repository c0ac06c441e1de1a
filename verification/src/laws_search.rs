//! What the search engine finds, and how findings are counted.

use vstd::prelude::*;
use crate::evaluation::{fraud_results, mismatches, false_positives, verdicts};
use crate::float_bits::{is_nan, less, place, total_place, F32Bits, MAX_FINITE};
use crate::rank::{numbered, reordered_numbers, sorted_by_total, sorting_reorders, total_slot, total_slot_splits};
use crate::search::{are_nearest, as_hits, at_distances, at_most_five_are_kept, candidates, closest_centroids, farthest, farthest_is_highest, hits, keep_all, ranking, search_finds_the_nearest, search_returns, slots, Hit};
use crate::vector::{is_searchable, SearchResult, VectorSearch};

verus! {

/// Numbers compare by their patterns as they do by their values: of two without
/// a sign the larger pattern is the larger number, of two with a sign the
/// smaller one, one with a sign is below one without unless both are zero, and
/// what is no number compares with nothing.
pub proof fn patterns_compare_as_numbers(x: F32Bits, y: F32Bits)
    ensures
        x <= 0x7f80_0000 && y <= 0x7f80_0000 ==> (less(x, y) <==> x < y),
        0x8000_0000 <= x <= 0xff80_0000 && 0x8000_0000 <= y <= 0xff80_0000 ==> (less(x, y) <==> x
            > y),
        0x8000_0000 <= x <= 0xff80_0000 && y <= 0x7f80_0000 ==> (less(x, y) <==> !(x == 0x8000_0000
            && y == 0)) && !less(y, x),
        0x7f80_0000 < x < 0x8000_0000 || x > 0xff80_0000 ==> !less(x, y) && !less(y, x),
{
}

/// The total order puts patterns with a sign first, from the largest pattern
/// down, and then those without, from the smallest up.
pub proof fn the_total_order_is_of_patterns(x: F32Bits, y: F32Bits)
    ensures
        x < 0x8000_0000 && y < 0x8000_0000 ==> (total_place(x) < total_place(y) <==> x < y),
        x >= 0x8000_0000 && y >= 0x8000_0000 ==> (total_place(x) < total_place(y) <==> x > y),
        x >= 0x8000_0000 && y < 0x8000_0000 ==> total_place(x) < total_place(y),
{
}

/// Vector `v` lies in one of the clusters.
pub open spec fn is_candidate(
    extents: Seq<(usize, usize)>,
    clusters: Seq<usize>,
    v: int,
) -> bool {
    exists|p: int|
        #![trigger clusters[p]]
        0 <= p < clusters.len() && extents[clusters[p] as int].0 as int / 28 <= v
            < extents[clusters[p] as int].0 as int / 28 + extents[clusters[p] as int].1
}

/// The vectors that are searched are those of the clusters, and all of them.
pub proof fn all_vectors_of_clusters_are_searched(
    extents: Seq<(usize, usize)>,
    clusters: Seq<usize>,
    v: int,
)
    ensures
        candidates(extents, clusters).contains(v) <==> is_candidate(extents, clusters, v),
    decreases clusters.len(),
{
    if clusters.len() > 0 {
        let rest = clusters.drop_last();
        let before = candidates(extents, rest);
        let all = candidates(extents, clusters);
        let e = clusters.last() as int;
        let start = extents[e].0 as int / 28;
        all_vectors_of_clusters_are_searched(extents, rest, v);
        if all.contains(v) {
            let i = choose|i: int| 0 <= i < all.len() && all[i] == v;
            if i < before.len() {
                assert(before[i] == v);
                let p = choose|p: int|
                    #![trigger rest[p]]
                    0 <= p < rest.len() && extents[rest[p] as int].0 as int / 28 <= v
                        < extents[rest[p] as int].0 as int / 28 + extents[rest[p] as int].1;
                assert(clusters[p] == rest[p]);
            } else {
                assert(clusters[clusters.len() - 1] == clusters.last());
            }
        }
        if is_candidate(extents, clusters, v) {
            let p = choose|p: int|
                #![trigger clusters[p]]
                0 <= p < clusters.len() && extents[clusters[p] as int].0 as int / 28 <= v
                    < extents[clusters[p] as int].0 as int / 28 + extents[clusters[p] as int].1;
            if p < rest.len() {
                assert(rest[p] == clusters[p]);
                let i = choose|i: int| 0 <= i < before.len() && before[i] == v;
                assert(all[i] == v);
            } else {
                assert(all[before.len() + v - start] == v);
            }
        }
    }
}

/// Equally close centroids stay in their order.
proof fn sorted_centroids_keep_their_order(dists: Seq<F32Bits>, k: nat)
    requires
        k <= dists.len(),
        k <= usize::MAX,
    ensures
        forall|i: int, j: int|
            0 <= i < j < k && total_place(sorted_by_total(numbered(dists, k))[i].0) == total_place(
                sorted_by_total(numbered(dists, k))[j].0,
            ) ==> (#[trigger] sorted_by_total(numbered(dists, k))[i]).1 < (
            #[trigger] sorted_by_total(numbered(dists, k))[j]).1,
    decreases k,
{
    if k > 0 {
        let n = (k - 1) as nat;
        sorted_centroids_keep_their_order(dists, n);
        sorting_reorders(numbered(dists, n));
        assert(numbered(dists, k).drop_last() =~= numbered(dists, n));
        let r = sorted_by_total(numbered(dists, n));
        reordered_numbers(dists, n, r);
        let item = numbered(dists, k).last();
        total_slot_splits(r, item.0);
        let p = total_slot(r, item.0);
        let s = sorted_by_total(numbered(dists, k));
        assert(s == r.insert(p, item));
        assert forall|a: int, b: int| 0 <= a < b < k && total_place(s[a].0) == total_place(
            s[b].0,
        ) implies (#[trigger] s[a]).1 < (#[trigger] s[b]).1 by {
            assert(s[a] == if a < p {
                r[a]
            } else if a == p {
                item
            } else {
                r[a - 1]
            });
            assert(s[b] == if b < p {
                r[b]
            } else if b == p {
                item
            } else {
                r[b - 1]
            });
        }
    }
}

/// Centroids come closest first, the first of equally close ones first, and none
/// that is left out is closer than one that is not.
pub proof fn close_centroids_come_first(dists: Seq<F32Bits>, k: nat, n: nat, i: int, c: int)
    requires
        n <= k <= dists.len(),
        k <= usize::MAX,
        0 <= i < n,
        0 <= c < k,
        forall|j: int| 0 <= j < i ==> (#[trigger] closest_centroids(dists, k, n)[j]) != c,
    ensures
        ({
            let a = closest_centroids(dists, k, n)[i] as int;
            total_place(dists[a]) < total_place(dists[c]) || (dists[a] == dists[c] && a <= c)
        }),
{
    let r = sorted_by_total(numbered(dists, k));
    let closest = closest_centroids(dists, k, n);
    sorting_reorders(numbered(dists, k));
    reordered_numbers(dists, k, r);
    sorted_centroids_keep_their_order(dists, k);
    assert(r.contains((dists[c], c as usize)));
    let p = choose|p: int| 0 <= p < r.len() && r[p] == (dists[c], c as usize);
    if p < i {
        assert(closest[p] == c);
    }
    if i < p {
        assert(total_place(r[i].0) <= total_place(r[p].0));
    }
}

/// A result stands for vector `v`: it has its number, its label and its distance.
pub open spec fn stands_for<D: Fn(usize) -> F32Bits>(
    s: VectorSearch,
    distance: D,
    r: SearchResult,
    v: int,
) -> bool {
    &&& r.node_id == v
    &&& r.label == s.labels@[v]
    &&& call_ensures(distance, (v as usize,), r.distance)
}

/// A result stands for a vector of one of the clusters.
pub open spec fn stands_for_a_candidate<D: Fn(usize) -> F32Bits>(
    s: VectorSearch,
    clusters: Seq<usize>,
    distance: D,
    r: SearchResult,
) -> bool {
    exists|v: int|
        is_candidate(s.cluster_offsets@, clusters, v) && #[trigger] stands_for(s, distance, r, v)
}

/// The search returns the nearest vectors of the clusters that it searches,
/// nearest first: each result stands for one of them, there are five or as many
/// as there are vectors, and a vector that is not returned is no nearer than any
/// that is.
pub proof fn results_are_the_nearest_vectors<D: Fn(usize) -> F32Bits>(
    s: VectorSearch,
    clusters: Seq<usize>,
    distance: D,
    results: Seq<SearchResult>,
)
    requires
        is_searchable(s),
        s.labels@.len() <= u32::MAX,
        forall|p: int|
            0 <= p < clusters.len() ==> (#[trigger] clusters[p]) < s.cluster_offsets@.len(),
        search_returns(s, clusters, distance, results),
        forall|v: usize, x: F32Bits|
            #[trigger] call_ensures(distance, (v,), x) ==> !is_nan(x) && place(x) <= MAX_FINITE,
    ensures
        forall|i: int, j: int|
            0 <= i < j < results.len() ==> !less(
                (#[trigger] results[j]).distance,
                (#[trigger] results[i]).distance,
            ),
        forall|i: int|
            0 <= i < results.len() ==> stands_for_a_candidate(
                s,
                clusters,
                distance,
                #[trigger] results[i],
            ),
        forall|v: int|
            #[trigger] is_candidate(s.cluster_offsets@, clusters, v) ==> exists|r: SearchResult|
                #[trigger] stands_for(s, distance, r, v) && (results.contains(r) || (results.len()
                    == 5 && forall|i: int|
                    0 <= i < 5 ==> !less(r.distance, (#[trigger] results[i]).distance))),
        results.len() <= 5,
{
    broadcast use vstd::seq_lib::group_to_multiset_ensures;
    broadcast use vstd::multiset::group_multiset_axioms;

    let at = candidates(s.cluster_offsets@, clusters);
    search_finds_the_nearest(s, clusters, distance, results);
    let (keys, passed) = choose|keys: Seq<F32Bits>, passed: Seq<Hit>|
        #[trigger] at_distances(distance, at, keys) && #[trigger] are_nearest(
            results,
            hits(s.labels@, at, keys),
            passed,
        );
    let all = hits(s.labels@, at, keys);
    let found = as_hits(results);
    assert forall|j: int| 0 <= j < at.len() implies is_candidate(
        s.cluster_offsets@,
        clusters,
        #[trigger] at[j],
    ) && 0 <= at[j] < s.labels@.len() by {
        all_vectors_of_clusters_are_searched(s.cluster_offsets@, clusters, at[j]);
        assert(at.contains(at[j]));
        let p = choose|p: int|
            #![trigger clusters[p]]
            0 <= p < clusters.len() && s.cluster_offsets@[clusters[p] as int].0 as int / 28 <= at[j]
                < s.cluster_offsets@[clusters[p] as int].0 as int / 28
                + s.cluster_offsets@[clusters[p] as int].1;
        assert(s.cluster_offsets@[clusters[p] as int].0 as int / 28
            + s.cluster_offsets@[clusters[p] as int].1 <= s.labels@.len());
    }
    assert forall|i: int| 0 <= i < results.len() implies stands_for_a_candidate(
        s,
        clusters,
        distance,
        #[trigger] results[i],
    ) by {
        assert(found.to_multiset().count(found[i]) > 0);
        assert(all.to_multiset().count(found[i]) > 0);
        assert(all.contains(found[i]));
        let j = choose|j: int| 0 <= j < all.len() && all[j] == found[i];
        assert(call_ensures(distance, (at[j] as usize,), keys[j]));
        assert(stands_for(s, distance, results[i], at[j]));
    }
    assert forall|v: int| #[trigger] is_candidate(s.cluster_offsets@, clusters, v) implies exists|
        r: SearchResult,
    |
        #[trigger] stands_for(s, distance, r, v) && (results.contains(r) || (results.len() == 5
            && forall|i: int|
            0 <= i < 5 ==> !less(r.distance, (#[trigger] results[i]).distance))) by {
        all_vectors_of_clusters_are_searched(s.cluster_offsets@, clusters, v);
        let j = choose|j: int| 0 <= j < at.len() && at[j] == v;
        assert(call_ensures(distance, (at[j] as usize,), keys[j]));
        let r = SearchResult { node_id: v as u32, distance: keys[j], label: s.labels@[v] };
        assert(is_candidate(s.cluster_offsets@, clusters, at[j]));
        assert(stands_for(s, distance, r, v));
        assert(all.to_multiset().count(all[j]) > 0);
        if found.to_multiset().count(all[j]) > 0 {
            assert(found.contains(all[j]));
            let i = choose|i: int| 0 <= i < found.len() && found[i] == all[j];
            assert(results[i] == r);
        } else {
            assert(passed.to_multiset().count(all[j]) > 0);
            assert(passed.contains(all[j]));
            let e = choose|e: int| 0 <= e < passed.len() && passed[e] == all[j];
            assert(all.to_multiset().len() == all.len());
            assert(found.to_multiset().len() + passed.to_multiset().len()
                == all.to_multiset().len());
            assert(passed.to_multiset().len() == passed.len());
            assert forall|i: int| 0 <= i < 5 implies !less(
                r.distance,
                (#[trigger] results[i]).distance,
            ) by {
                assert(place(results[i].distance) <= place(passed[e].0));
            }
        }
    }
}

/// Frauds among results are those with label 1.
pub proof fn fraud_results_are_those_labelled_so(results: Seq<SearchResult>)
    ensures
        fraud_results(results) == results.filter(|r: SearchResult| r.label == 1).len(),
    decreases results.len(),
{
    reveal(Seq::filter);
    if results.len() > 0 {
        fraud_results_are_those_labelled_so(results.drop_last());
    }
}

/// Verdicts are counted one by one.
pub proof fn verdicts_are_counted(v: Seq<(bool, bool)>, approved: bool, expected: bool)
    ensures
        verdicts(v, approved, expected) == v.to_multiset().count((approved, expected)),
    decreases v.len(),
{
    broadcast use vstd::seq_lib::group_to_multiset_ensures;
    broadcast use vstd::multiset::group_multiset_axioms;

    if v.len() > 0 {
        let rest = v.drop_last();
        verdicts_are_counted(rest, approved, expected);
        assert(v =~= rest.push(v.last()));
    } else {
        assert(v =~= Seq::empty());
    }
}

/// Mismatches are the queries with different counts, and false positives those
/// that only the tested search takes for frauds.
pub proof fn mismatches_are_counted(exact: Seq<nat>, test: Seq<nat>)
    ensures
        mismatches(exact, test) == Seq::new(
            exact.len(),
            |i: int| exact[i] != test[i],
        ).to_multiset().count(true),
        false_positives(exact, test) == Seq::new(
            exact.len(),
            |i: int| exact[i] < 3 && test[i] >= 3,
        ).to_multiset().count(true),
    decreases exact.len(),
{
    broadcast use vstd::seq_lib::group_to_multiset_ensures;
    broadcast use vstd::multiset::group_multiset_axioms;

    let s = Seq::new(exact.len(), |i: int| exact[i] != test[i]);
    let u = Seq::new(exact.len(), |i: int| exact[i] < 3 && test[i] >= 3);
    if exact.len() == 0 {
        assert(s =~= Seq::empty());
        assert(u =~= Seq::empty());
    } else {
        let rest = exact.drop_last();
        let n = rest.len() as int;
        mismatches_are_counted(rest, test);
        let t = Seq::new(rest.len(), |i: int| rest[i] != test[i]);
        let w = Seq::new(rest.len(), |i: int| rest[i] < 3 && test[i] >= 3);
        assert(s =~= t.push(exact.last() != test[n]));
        assert(u =~= w.push(exact.last() < 3 && test[n] >= 3));
    }
}

/// Clusters are searched one after the other, each from its first vector on.
pub proof fn vectors_are_searched_in_order(
    extents: Seq<(usize, usize)>,
    first: Seq<usize>,
    c: usize,
    second: Seq<usize>,
    i: int,
)
    requires
        0 <= i < extents[c as int].1,
    ensures
        candidates(extents, first + seq![c] + second)[candidates(extents, first).len() + i]
            == extents[c as int].0 as int / 28 + i,
    decreases second.len(),
{
    let all = first + seq![c] + second;
    if second.len() == 0 {
        assert(all.drop_last() =~= first);
    } else {
        assert(all.drop_last() =~= first + seq![c] + second.drop_last());
        vectors_are_searched_in_order(extents, first, c, second.drop_last(), i);
        vectors_are_counted(extents, first, c, second.drop_last());
    }
}

proof fn vectors_are_counted(
    extents: Seq<(usize, usize)>,
    first: Seq<usize>,
    c: usize,
    second: Seq<usize>,
)
    ensures
        candidates(extents, first + seq![c] + second).len() >= candidates(extents, first).len()
            + extents[c as int].1,
    decreases second.len(),
{
    let all = first + seq![c] + second;
    if second.len() == 0 {
        assert(all.drop_last() =~= first);
    } else {
        assert(all.drop_last() =~= first + seq![c] + second.drop_last());
        vectors_are_counted(extents, first, c, second.drop_last());
    }
}

/// The first five hits are kept. From then on one that is not nearer than any
/// kept changes nothing, even if it is as near, and one that is nearer than the
/// farthest is kept.
pub proof fn only_nearer_hits_are_taken(all: Seq<Hit>, hit: Hit)
    ensures
        all.len() < 5 ==> keep_all(all.push(hit)) == keep_all(all).push(hit),
        all.len() >= 5 && (forall|i: int|
            0 <= i < 5 ==> !less(hit.0, (#[trigger] keep_all(all)[i]).0)) ==> keep_all(
            all.push(hit),
        ) == keep_all(all),
        all.len() >= 5 && !is_nan(hit.0) && (forall|i: int|
            0 <= i < 5 ==> !is_nan((#[trigger] keep_all(all)[i]).0)) && (exists|i: int|
            0 <= i < 5 && less(hit.0, (#[trigger] keep_all(all)[i]).0)) ==> keep_all(
            all.push(hit),
        ).contains(hit),
{
    let more = all.push(hit);
    assert(more.drop_last() =~= all);
    at_most_five_are_kept(all);
    let top = keep_all(all);
    if all.len() >= 5 {
        farthest_is_highest(top);
        let f = farthest(top);
        if less(hit.0, top[f].0) {
            assert(keep_all(more)[f] == hit);
        } else if exists|i: int| 0 <= i < 5 && less(hit.0, (#[trigger] top[i]).0) {
            let i = choose|i: int| 0 <= i < 5 && less(hit.0, (#[trigger] top[i]).0);
            assert(total_place(top[i].0) <= total_place(top[f].0));
        }
    }
}

/// Whatever the distances are, five results are returned or as many as there are
/// vectors, and they are sorted by the total order.
pub proof fn results_are_sorted_and_counted<D: Fn(usize) -> F32Bits>(
    s: VectorSearch,
    clusters: Seq<usize>,
    distance: D,
    results: Seq<SearchResult>,
)
    requires
        search_returns(s, clusters, distance, results),
    ensures
        ({
            let n = candidates(s.cluster_offsets@, clusters).len();
            results.len() == if n < 5 {
                n
            } else {
                5
            }
        }),
        forall|i: int, j: int|
            0 <= i < j < results.len() ==> total_place((#[trigger] results[i]).distance)
                <= total_place((#[trigger] results[j]).distance),
{
    let at = candidates(s.cluster_offsets@, clusters);
    let keys = choose|keys: Seq<F32Bits>|
        #[trigger] at_distances(distance, at, keys) && results == ranking(
            keep_all(hits(s.labels@, at, keys)),
        );
    let all = hits(s.labels@, at, keys);
    at_most_five_are_kept(all);
    let sorted = sorted_by_total(slots(keep_all(all)));
    sorting_reorders(slots(keep_all(all)));
    assert forall|i: int, j: int| 0 <= i < j < results.len() implies total_place(
        (#[trigger] results[i]).distance,
    ) <= total_place((#[trigger] results[j]).distance) by {
        assert(results[i].distance == sorted[i].0 && results[j].distance == sorted[j].0);
    }
}

} // verus!
