//! Searching the clusters closest to a query for its nearest vectors.

use vstd::prelude::*;
use crate::build_index::{low32, truncated};
use crate::float_bits::{float_less, is_nan, less, place, total_less, total_place, F32Bits, MAX_FINITE};
use crate::rank::{numbered, reordered_numbers, sort_by_total, sorted_by_total, sorting_reorders};
use crate::vector::{holds_stored, is_readable, is_searchable, loaded_index_is_searchable, offsets_ascend_far};
use crate::vector::{SearchResult, VectorSearch, N_CLUSTERS, VECTOR_BYTES};

verus! {

/// The `n` centroids closest to a query, closest first; of equally close ones
/// the first.
pub open spec fn closest_centroids(dists: Seq<F32Bits>, k: nat, n: nat) -> Seq<usize> {
    Seq::new(n, |i: int| sorted_by_total(numbered(dists, k))[i].1)
}

/// The closest centroids are centroids, and none of them is there twice.
pub proof fn closest_centroids_are_distinct(dists: Seq<F32Bits>, k: nat, n: nat)
    requires
        n <= k <= usize::MAX,
    ensures
        forall|i: int| 0 <= i < n ==> (#[trigger] closest_centroids(dists, k, n)[i]) < k,
        closest_centroids(dists, k, n).no_duplicates(),
{
    sorting_reorders(numbered(dists, k));
    reordered_numbers(dists, k, sorted_by_total(numbered(dists, k)));
}

/// A centroid that is left out is no closer than one that is returned.
pub proof fn left_out_centroids_are_no_closer(
    dists: Seq<F32Bits>,
    k: nat,
    n: nat,
    i: int,
    c: int,
)
    requires
        n <= k <= dists.len(),
        k <= usize::MAX,
        0 <= i < n,
        0 <= c < k,
        !closest_centroids(dists, k, n).contains(c as usize),
    ensures
        total_place(dists[closest_centroids(dists, k, n)[i] as int]) <= total_place(dists[c]),
{
    let r = sorted_by_total(numbered(dists, k));
    let closest = closest_centroids(dists, k, n);
    sorting_reorders(numbered(dists, k));
    reordered_numbers(dists, k, r);
    assert(r.contains((dists[c], c as usize)));
    let p = choose|p: int| 0 <= p < r.len() && r[p] == (dists[c], c as usize);
    if p < n {
        assert(closest[p] == c as usize);
    }
}

/// Finds the `n` of `k` centroids closest to a query.
pub fn find_closest_centroids(dists: &[F32Bits], k: usize, n: usize) -> (r: Vec<usize>)
    requires
        n <= k <= dists@.len(),
        k <= N_CLUSTERS,
    ensures
        r@ == closest_centroids(dists@, k as nat, n as nat),
        forall|i: int| 0 <= i < n ==> (#[trigger] r@[i]) < k,
{
    let mut all: Vec<(F32Bits, usize)> = Vec::new();
    let mut c: usize = 0;
    while c < k
        invariant
            c <= k <= dists@.len(),
            all@ == numbered(dists@, c as nat),
        decreases k - c,
    {
        all.push((dists[c], c));
        c = c + 1;
        assert(all@ =~= numbered(dists@, c as nat));
    }
    let sorted: Vec<(F32Bits, usize)> = sort_by_total(all.as_slice());
    proof {
        sorting_reorders(numbered(dists@, k as nat));
        closest_centroids_are_distinct(dists@, k as nat, n as nat);
    }
    let mut r: Vec<usize> = Vec::new();
    let mut i: usize = 0;
    while i < n
        invariant
            i <= n <= sorted@.len(),
            r@.len() == i,
            forall|j: int| 0 <= j < i ==> (#[trigger] r@[j]) == sorted@[j].1,
        decreases n - i,
    {
        r.push(sorted[i].1);
        i = i + 1;
    }
    assert(r@ =~= closest_centroids(dists@, k as nat, n as nat));
    r
}

/// The vectors of some clusters, in the order of the search.
pub open spec fn candidates(extents: Seq<(usize, usize)>, clusters: Seq<usize>) -> Seq<int>
    decreases clusters.len(),
{
    if clusters.len() == 0 {
        Seq::empty()
    } else {
        let (at, n) = extents[clusters.last() as int];
        candidates(extents, clusters.drop_last()) + Seq::new(n as nat, |j: int| at as int / 28 + j)
    }
}

/// A neighbour: its distance, its number and its label.
pub type Hit = (F32Bits, (u32, u8));

/// The last of those that stand highest in the total order.
pub open spec fn farthest(top: Seq<Hit>) -> int
    decreases top.len(),
{
    if top.len() <= 1 {
        0
    } else {
        let f = farthest(top.drop_last());
        if total_place(top[f].0) <= total_place(top.last().0) {
            top.len() - 1
        } else {
            f
        }
    }
}

/// The five kept after one more: the first five are kept, and from then on a
/// nearer one takes the place of the farthest.
pub open spec fn keep(top: Seq<Hit>, hit: Hit) -> Seq<Hit> {
    if top.len() < 5 {
        top.push(hit)
    } else if less(hit.0, top[farthest(top)].0) {
        top.update(farthest(top), hit)
    } else {
        top
    }
}

/// The five kept of all of `hits`.
pub open spec fn keep_all(hits: Seq<Hit>) -> Seq<Hit>
    decreases hits.len(),
{
    if hits.len() == 0 {
        Seq::empty()
    } else {
        keep(keep_all(hits.drop_last()), hits.last())
    }
}

/// The hits at some vectors, at the distances `keys`.
pub open spec fn hits(labels: Seq<u8>, at: Seq<int>, keys: Seq<F32Bits>) -> Seq<Hit> {
    Seq::new(at.len(), |i: int| (keys[i], (low32(at[i]), labels[at[i]])))
}

/// Five slots: those kept, and the largest distance in the others.
pub open spec fn slots(top: Seq<Hit>) -> Seq<Hit> {
    Seq::new(
        5,
        |i: int|
            if i < top.len() {
                top[i]
            } else {
                (MAX_FINITE, (0u32, 0u8))
            },
    )
}

/// What a search returns of those kept: all five slots sorted, of which as many
/// are returned as were kept.
pub open spec fn ranking(top: Seq<Hit>) -> Seq<SearchResult> {
    let sorted = sorted_by_total(slots(top));
    Seq::new(
        top.len(),
        |i: int|
            SearchResult { node_id: sorted[i].1.0, distance: sorted[i].0, label: sorted[i].1.1 },
    )
}

/// `keys` are what `distance` may give for the vectors `at`, one by one.
pub open spec fn at_distances<D: Fn(usize) -> F32Bits>(
    distance: D,
    at: Seq<int>,
    keys: Seq<F32Bits>,
) -> bool {
    &&& keys.len() == at.len()
    &&& forall|i: int|
        0 <= i < at.len() ==> call_ensures(distance, (at[i] as usize,), #[trigger] keys[i])
}

/// A search of some clusters may return `results`.
pub open spec fn search_returns<D: Fn(usize) -> F32Bits>(
    s: VectorSearch,
    clusters: Seq<usize>,
    distance: D,
    results: Seq<SearchResult>,
) -> bool {
    let at = candidates(s.cluster_offsets@, clusters);
    exists|keys: Seq<F32Bits>|
        #[trigger] at_distances(distance, at, keys) && results == ranking(
            keep_all(hits(s.labels@, at, keys)),
        )
}

/// The farthest of a list is in it, and none in it stands higher.
pub proof fn farthest_is_highest(top: Seq<Hit>)
    requires
        top.len() > 0,
    ensures
        0 <= farthest(top) < top.len(),
        forall|i: int|
            0 <= i < top.len() ==> total_place((#[trigger] top[i]).0) <= total_place(
                top[farthest(top)].0,
            ),
    decreases top.len(),
{
    if top.len() > 1 {
        let t = top.drop_last();
        farthest_is_highest(t);
        assert forall|i: int| 0 <= i < top.len() implies total_place((#[trigger] top[i]).0)
            <= total_place(top[farthest(top)].0) by {
            if i < t.len() {
                assert(top[i] == t[i]);
            }
        }
    }
}

/// Finds the last of those that stand highest in the total order.
fn find_farthest(top: &Vec<Hit>) -> (r: usize)
    requires
        top@.len() > 0,
    ensures
        r == farthest(top@),
        r < top@.len(),
{
    let mut f: usize = 0;
    let mut i: usize = 1;
    while i < top.len()
        invariant
            1 <= i <= top@.len(),
            f < i,
            f == farthest(top@.take(i as int)),
        decreases top@.len() - i,
    {
        assert(top@.take(i + 1).drop_last() =~= top@.take(i as int));
        if !total_less(top[i].0, top[f].0) {
            f = i;
        }
        i = i + 1;
    }
    assert(top@.take(i as int) =~= top@);
    f
}

/// Never more than five are kept.
pub proof fn at_most_five_are_kept(all: Seq<Hit>)
    ensures
        keep_all(all).len() == if all.len() < 5 {
            all.len()
        } else {
            5
        },
    decreases all.len(),
{
    if all.len() > 0 {
        let top = keep_all(all.drop_last());
        at_most_five_are_kept(all.drop_last());
        if top.len() > 0 {
            farthest_is_highest(top);
        }
    }
}

/// Those that were not kept, or not for long.
pub open spec fn passed_over(hits: Seq<Hit>) -> Seq<Hit>
    decreases hits.len(),
{
    if hits.len() == 0 {
        Seq::empty()
    } else {
        let top = keep_all(hits.drop_last());
        let passed = passed_over(hits.drop_last());
        if top.len() < 5 {
            passed
        } else if less(hits.last().0, top[farthest(top)].0) {
            passed.push(top[farthest(top)])
        } else {
            passed.push(hits.last())
        }
    }
}

/// Those kept and those passed over are together all that were found, each as
/// often as it was found.
pub proof fn kept_and_passed_over_are_all(all: Seq<Hit>)
    ensures
        keep_all(all).to_multiset().add(passed_over(all).to_multiset()) == all.to_multiset(),
        all.len() <= 5 ==> keep_all(all) == all && passed_over(all).len() == 0,
    decreases all.len(),
{
    broadcast use vstd::seq_lib::group_to_multiset_ensures;
    broadcast use vstd::multiset::group_multiset_axioms;

    if all.len() == 0 {
        assert(keep_all(all).to_multiset().add(passed_over(all).to_multiset())
            =~= all.to_multiset());
    } else {
        let rest = all.drop_last();
        let hit = all.last();
        let top = keep_all(rest);
        let passed = passed_over(rest);
        kept_and_passed_over_are_all(rest);
        at_most_five_are_kept(rest);
        assert(all =~= rest.push(hit));
        if top.len() >= 5 {
            let f = farthest(top);
            farthest_is_highest(top);
            if less(hit.0, top[f].0) {
                let kept = top.update(f, hit);
                assert(kept.to_multiset() =~= top.to_multiset().insert(hit).remove(top[f]));
                assert(kept.to_multiset().add(passed.push(top[f]).to_multiset())
                    =~= all.to_multiset());
            } else {
                assert(top.to_multiset().add(passed.push(hit).to_multiset())
                    =~= all.to_multiset());
            }
        } else {
            assert(top.push(hit).to_multiset().add(passed.to_multiset()) =~= all.to_multiset());
        }
    }
}

/// The five kept are the nearest: none passed over is nearer than one that was
/// kept.
pub proof fn the_nearest_are_kept(all: Seq<Hit>)
    requires
        forall|i: int| 0 <= i < all.len() ==> !is_nan((#[trigger] all[i]).0),
    ensures
        forall|i: int|
            0 <= i < keep_all(all).len() ==> !is_nan((#[trigger] keep_all(all)[i]).0),
        forall|i: int, j: int|
            0 <= i < keep_all(all).len() && 0 <= j < passed_over(all).len() ==> place(
                (#[trigger] keep_all(all)[i]).0,
            ) <= place((#[trigger] passed_over(all)[j]).0),
    decreases all.len(),
{
    if all.len() > 0 {
        let rest = all.drop_last();
        let hit = all.last();
        let top = keep_all(rest);
        let passed = passed_over(rest);
        assert forall|i: int| 0 <= i < rest.len() implies !is_nan((#[trigger] rest[i]).0) by {
            assert(rest[i] == all[i]);
        }
        the_nearest_are_kept(rest);
        at_most_five_are_kept(rest);
        kept_and_passed_over_are_all(rest);
        assert(!is_nan(hit.0)) by {
            assert(all[all.len() - 1] == hit);
        }
        if top.len() >= 5 {
            let f = farthest(top);
            farthest_is_highest(top);
            assert forall|i: int| 0 <= i < top.len() implies place((#[trigger] top[i]).0) <= place(
                top[f].0,
            ) by {
                assert(!is_nan(top[i].0) && !is_nan(top[f].0));
            }
            if less(hit.0, top[f].0) {
                assert(keep_all(all) == top.update(f, hit));
                assert(passed_over(all) == passed.push(top[f]));
            } else {
                assert(keep_all(all) == top);
                assert(passed_over(all) == passed.push(hit));
            }
        }
    }
}

/// An item that none of the others is above is sorted behind them.
proof fn highest_is_sorted_last(s: Seq<Hit>)
    requires
        s.len() > 0,
        forall|i: int|
            0 <= i < s.len() ==> total_place((#[trigger] s[i]).0) <= total_place(s.last().0),
    ensures
        sorted_by_total(s) == sorted_by_total(s.drop_last()).push(s.last()),
{
    broadcast use vstd::seq_lib::group_to_multiset_ensures;

    let t = s.drop_last();
    let r = sorted_by_total(t);
    sorting_reorders(t);
    if r.len() > 0 {
        assert(r.to_multiset().count(r.last()) > 0);
        assert(t.contains(r.last()));
        let i = choose|i: int| 0 <= i < t.len() && t[i] == r.last();
        assert(s[i] == r.last());
    }
    assert(sorted_by_total(s) =~= r.push(s.last()));
}

/// The slots that hold no neighbour are sorted behind those that hold one.
proof fn empty_slots_are_last(top: Seq<Hit>, n: nat)
    requires
        forall|i: int|
            0 <= i < top.len() ==> !is_nan((#[trigger] top[i]).0) && place(top[i].0) <= MAX_FINITE,
    ensures
        sorted_by_total(top + Seq::new(n, |i: int| (MAX_FINITE, (0u32, 0u8)))) == sorted_by_total(
            top,
        ) + Seq::new(n, |i: int| (MAX_FINITE, (0u32, 0u8))),
    decreases n,
{
    let all = top + Seq::new(n, |i: int| (MAX_FINITE, (0u32, 0u8)));
    if n == 0 {
        assert(all =~= top);
        assert(sorted_by_total(top) =~= sorted_by_total(top) + Seq::new(
            n,
            |i: int| (MAX_FINITE, (0u32, 0u8)),
        ));
    } else {
        let m = (n - 1) as nat;
        let before = top + Seq::new(m, |i: int| (MAX_FINITE, (0u32, 0u8)));
        assert(all.drop_last() =~= before);
        assert forall|i: int| 0 <= i < all.len() implies total_place((#[trigger] all[i]).0)
            <= total_place(all.last().0) by {
            if i < top.len() {
                assert(all[i] == top[i]);
            }
        }
        highest_is_sorted_last(all);
        empty_slots_are_last(top, m);
        assert(sorted_by_total(all) =~= sorted_by_total(top) + Seq::new(
            n,
            |i: int| (MAX_FINITE, (0u32, 0u8)),
        ));
    }
}

/// What is returned is those kept, sorted.
proof fn results_are_those_kept(top: Seq<Hit>)
    requires
        top.len() <= 5,
        top.len() < 5 ==> forall|i: int|
            0 <= i < top.len() ==> !is_nan((#[trigger] top[i]).0) && place(top[i].0) <= MAX_FINITE,
    ensures
        as_hits(ranking(top)) == sorted_by_total(top),
        sorted_by_total(top).len() == top.len(),
        as_hits(ranking(top)).to_multiset() == top.to_multiset(),
{
    let n = (5 - top.len()) as nat;
    assert(slots(top) =~= top + Seq::new(n, |i: int| (MAX_FINITE, (0u32, 0u8))));
    if n > 0 {
        empty_slots_are_last(top, n);
    } else {
        assert(slots(top) =~= top);
    }
    sorting_reorders(top);
    assert(as_hits(ranking(top)) =~= sorted_by_total(top));
}

/// What is returned is those kept, nearest first.
pub proof fn results_rank_those_kept(top: Seq<Hit>)
    requires
        top.len() <= 5,
        forall|i: int| 0 <= i < top.len() ==> !is_nan((#[trigger] top[i]).0),
        top.len() < 5 ==> forall|i: int|
            0 <= i < top.len() ==> place((#[trigger] top[i]).0) <= MAX_FINITE,
    ensures
        as_hits(ranking(top)).to_multiset() == top.to_multiset(),
        forall|i: int, j: int|
            0 <= i < j < top.len() ==> place((#[trigger] ranking(top)[i]).distance) <= place(
                (#[trigger] ranking(top)[j]).distance,
            ),
{
    broadcast use vstd::seq_lib::group_to_multiset_ensures;

    let sorted = sorted_by_total(top);
    results_are_those_kept(top);
    sorting_reorders(top);
    assert forall|i: int| 0 <= i < top.len() implies !is_nan((#[trigger] sorted[i]).0) by {
        assert(sorted.to_multiset().count(sorted[i]) > 0);
        assert(top.contains(sorted[i]));
    }
    assert forall|i: int, j: int| 0 <= i < j < top.len() implies place(
        (#[trigger] ranking(top)[i]).distance,
    ) <= place((#[trigger] ranking(top)[j]).distance) by {
        assert(as_hits(ranking(top))[i] == sorted[i]);
        assert(as_hits(ranking(top))[j] == sorted[j]);
    }
}

/// The hits that results stand for.
pub open spec fn as_hits(results: Seq<SearchResult>) -> Seq<Hit> {
    results.map_values(|r: SearchResult| (r.distance, (r.node_id, r.label)))
}

/// The results are the nearest of all that were found, nearest first, and
/// `passed` are the others.
pub open spec fn are_nearest(results: Seq<SearchResult>, all: Seq<Hit>, passed: Seq<Hit>) -> bool {
    &&& results.len() == if all.len() < 5 {
        all.len()
    } else {
        5
    }
    &&& as_hits(results).to_multiset().add(passed.to_multiset()) == all.to_multiset()
    &&& forall|i: int, j: int|
        0 <= i < j < results.len() ==> place((#[trigger] results[i]).distance) <= place(
            (#[trigger] results[j]).distance,
        )
    &&& forall|i: int, j: int|
        0 <= i < results.len() && 0 <= j < passed.len() ==> place(
            (#[trigger] results[i]).distance,
        ) <= place((#[trigger] passed[j]).0)
}

/// A search finds the nearest: where all distances are finite numbers, it
/// returns the five nearest of the vectors in the clusters that it searches, or
/// all of them where there are fewer.
pub proof fn search_finds_the_nearest<D: Fn(usize) -> F32Bits>(
    s: VectorSearch,
    clusters: Seq<usize>,
    distance: D,
    results: Seq<SearchResult>,
)
    requires
        search_returns(s, clusters, distance, results),
        forall|v: usize, x: F32Bits|
            #[trigger] call_ensures(distance, (v,), x) ==> !is_nan(x) && place(x) <= MAX_FINITE,
    ensures
        exists|keys: Seq<F32Bits>, passed: Seq<Hit>|
            #[trigger] at_distances(distance, candidates(s.cluster_offsets@, clusters), keys)
                && #[trigger] are_nearest(
                results,
                hits(s.labels@, candidates(s.cluster_offsets@, clusters), keys),
                passed,
            ),
{
    broadcast use vstd::seq_lib::group_to_multiset_ensures;

    let at = candidates(s.cluster_offsets@, clusters);
    let keys = choose|keys: Seq<F32Bits>|
        #[trigger] at_distances(distance, at, keys) && results == ranking(
            keep_all(hits(s.labels@, at, keys)),
        );
    let all = hits(s.labels@, at, keys);
    let top = keep_all(all);
    let passed = passed_over(all);
    assert forall|i: int| 0 <= i < all.len() implies !is_nan((#[trigger] all[i]).0) && place(
        all[i].0,
    ) <= MAX_FINITE by {
        assert(call_ensures(distance, (at[i] as usize,), keys[i]));
    }
    kept_and_passed_over_are_all(all);
    the_nearest_are_kept(all);
    at_most_five_are_kept(all);
    assert forall|i: int| 0 <= i < top.len() && top.len() < 5 implies place((#[trigger] top[i]).0)
        <= MAX_FINITE by {
        assert(top == all);
    }
    results_rank_those_kept(top);
    assert forall|i: int, j: int| 0 <= i < results.len() && 0 <= j < passed.len() implies place(
        (#[trigger] results[i]).distance,
    ) <= place((#[trigger] passed[j]).0) by {
        let hit = as_hits(results)[i];
        assert(as_hits(results).to_multiset().count(hit) > 0);
        assert(top.contains(hit));
        let e = choose|e: int| 0 <= e < top.len() && top[e] == hit;
        assert(place(top[e].0) <= place(passed[j].0));
    }
    assert(are_nearest(results, all, passed));
}

/// Keeps one more hit if it is among the five nearest.
fn keep_hit(top: &mut Vec<Hit>, hit: Hit)
    requires
        old(top)@.len() <= 5,
    ensures
        final(top)@ == keep(old(top)@, hit),
{
    if top.len() < 5 {
        top.push(hit);
    } else {
        let f: usize = find_farthest(top);
        if float_less(hit.0, top[f].0) {
            top.set(f, hit);
        }
    }
}

impl VectorSearch {
    /// Searches some clusters for the five nearest vectors.
    pub fn search_clusters<D: Fn(usize) -> F32Bits>(&self, clusters: &[usize], distance: &D) -> (r:
        Vec<SearchResult>)
        requires
            is_searchable(*self),
            forall|i: int|
                0 <= i < clusters@.len() ==> (#[trigger] clusters@[i]) < self.cluster_offsets@.len(),
            forall|v: usize| v < self.labels@.len() ==> call_requires(*distance, (v,)),
        ensures
            search_returns(*self, clusters@, *distance, r@),
            r@.len() <= 5,
    {
        let mut top: Vec<Hit> = Vec::new();
        let ghost extents = self.cluster_offsets@;
        let ghost mut keys = Seq::<F32Bits>::empty();
        let mut i: usize = 0;
        proof {
            assert(clusters@.take(0) =~= Seq::empty());
            assert(hits(self.labels@, candidates(extents, clusters@.take(0)), keys) =~= Seq::empty());
        }
        while i < clusters.len()
            invariant
                i <= clusters@.len(),
                extents == self.cluster_offsets@,
                is_searchable(*self),
                forall|i: int|
                    0 <= i < clusters@.len() ==> (#[trigger] clusters@[i]) < extents.len(),
                forall|v: usize| v < self.labels@.len() ==> call_requires(*distance, (v,)),
                at_distances(*distance, candidates(extents, clusters@.take(i as int)), keys),
                top@ == keep_all(
                    hits(self.labels@, candidates(extents, clusters@.take(i as int)), keys),
                ),
                top@.len() <= 5,
            decreases clusters@.len() - i,
        {
            let c: usize = clusters[i];
            let extent: (usize, usize) = self.cluster_offsets[c];
            let start: usize = extent.0 / VECTOR_BYTES;
            let n: usize = extent.1;
            let total: usize = self.labels.len();
            assert(extents[c as int].0 as int / 28 + extents[c as int].1 <= total);
            let ghost done = candidates(extents, clusters@.take(i as int));
            let ghost own = Seq::new(n as nat, |j: int| start + j);
            let mut j: usize = 0;
            assert(done + own.take(0) =~= done);
            while j < n
                invariant
                    j <= n,
                    start + n <= total,
                    total == self.labels@.len(),
                    own == Seq::new(n as nat, |j: int| start + j),
                    forall|v: usize| v < self.labels@.len() ==> call_requires(*distance, (v,)),
                    at_distances(*distance, done + own.take(j as int), keys),
                    top@ == keep_all(hits(self.labels@, done + own.take(j as int), keys)),
                    top@.len() <= 5,
                decreases n - j,
            {
                let v: usize = start + j;
                let key: F32Bits = distance(v);
                let hit: Hit = (key, (truncated(v), self.labels[v]));
                let ghost before = done + own.take(j as int);
                let ghost after = done + own.take(j + 1);
                let ghost old_hits = hits(self.labels@, before, keys);
                keep_hit(&mut top, hit);
                proof {
                    assert(after =~= before.push(v as int));
                    let more = keys.push(key);
                    assert(hits(self.labels@, after, more) =~= old_hits.push(hit));
                    assert(old_hits.push(hit).drop_last() =~= old_hits);
                    assert(at_distances(*distance, after, more));
                    at_most_five_are_kept(hits(self.labels@, after, more));
                    keys = more;
                }
                j = j + 1;
            }
            proof {
                assert(own.take(n as int) =~= own);
                assert(clusters@.take(i + 1).drop_last() =~= clusters@.take(i as int));
                assert(done + own =~= candidates(extents, clusters@.take(i + 1)));
            }
            i = i + 1;
        }
        assert(clusters@.take(i as int) =~= clusters@);
        let kept: usize = top.len();
        let ghost found = top@;
        let mut filled: Vec<Hit> = Vec::new();
        let mut s: usize = 0;
        while s < 5
            invariant
                s <= 5,
                top@ == found,
                kept == top@.len(),
                filled@ == slots(found).take(s as int),
            decreases 5 - s,
        {
            if s < kept {
                filled.push(top[s]);
            } else {
                filled.push((MAX_FINITE, (0, 0)));
            }
            s = s + 1;
            assert(filled@ =~= slots(found).take(s as int));
        }
        assert(filled@ =~= slots(found));
        let sorted: Vec<Hit> = sort_by_total(filled.as_slice());
        proof {
            sorting_reorders(slots(found));
        }
        let mut r: Vec<SearchResult> = Vec::new();
        let mut e: usize = 0;
        while e < kept
            invariant
                e <= kept <= 5,
                kept == found.len(),
                sorted@ == sorted_by_total(slots(found)),
                sorted@.len() == 5,
                r@ == ranking(found).take(e as int),
            decreases kept - e,
        {
            let hit: Hit = sorted[e];
            r.push(SearchResult { node_id: hit.1.0, distance: hit.0, label: hit.1.1 });
            e = e + 1;
            assert(r@ =~= ranking(found).take(e as int));
        }
        assert(r@ =~= ranking(found));
        r
    }

    /// Searches the `n_probe` clusters closest to a query for the five nearest
    /// vectors.
    ///
    /// `dists` are the distances of the query to the centroids, and `distance`
    /// is its distance to a vector.
    pub fn search_with_probe<D: Fn(usize) -> F32Bits>(
        &self,
        dists: &[F32Bits],
        n_probe: usize,
        distance: D,
    ) -> (r: Vec<SearchResult>)
        requires
            self.count > 0 ==> n_probe <= self.k <= dists@.len() && self.k <= N_CLUSTERS,
            self.cluster_offsets@.len() == self.k,
            is_searchable(*self),
            forall|v: usize| v < self.labels@.len() ==> call_requires(distance, (v,)),
        ensures
            if self.count == 0 {
                r@.len() == 0
            } else {
                search_returns(
                    *self,
                    closest_centroids(dists@, self.k as nat, n_probe as nat),
                    distance,
                    r@,
                )
            },
            r@.len() <= 5,
    {
        if self.count == 0 {
            return Vec::new();
        }
        let closest: Vec<usize> = find_closest_centroids(dists, self.k, n_probe);
        self.search_clusters(closest.as_slice(), &distance)
    }

    /// Searches the four clusters closest to a query for the five nearest
    /// vectors; the number asked for is not looked at.
    pub fn search<D: Fn(usize) -> F32Bits>(&self, dists: &[F32Bits], _k: usize, distance: D) -> (r:
        Vec<SearchResult>)
        requires
            self.count > 0 ==> 4 <= self.k <= dists@.len() && self.k <= N_CLUSTERS,
            self.cluster_offsets@.len() == self.k,
            is_searchable(*self),
            forall|v: usize| v < self.labels@.len() ==> call_requires(distance, (v,)),
        ensures
            if self.count == 0 {
                r@.len() == 0
            } else {
                search_returns(*self, closest_centroids(dists@, self.k as nat, 4), distance, r@)
            },
            r@.len() <= 5,
    {
        self.search_with_probe(dists, 4, distance)
    }
}

/// Each cluster ends before the next one starts.
pub open spec fn are_apart(extents: Seq<(usize, usize)>) -> bool {
    forall|c: int, e: int|
        0 <= c < e < extents.len() ==> (#[trigger] extents[c]).0 as int / 28 + extents[c].1 <= (
        #[trigger] extents[e]).0 as int / 28
}

/// Every candidate is a vector of one of the clusters.
proof fn candidates_are_in_clusters(extents: Seq<(usize, usize)>, clusters: Seq<usize>, i: int)
    requires
        0 <= i < candidates(extents, clusters).len(),
    ensures
        exists|p: int|
            #![trigger clusters[p]]
            0 <= p < clusters.len() && extents[clusters[p] as int].0 as int / 28 <= candidates(
                extents,
                clusters,
            )[i] < extents[clusters[p] as int].0 as int / 28 + extents[clusters[p] as int].1,
    decreases clusters.len(),
{
    let rest = clusters.drop_last();
    if i < candidates(extents, rest).len() {
        candidates_are_in_clusters(extents, rest, i);
        let p = choose|p: int|
            #![trigger rest[p]]
            0 <= p < rest.len() && extents[rest[p] as int].0 as int / 28 <= candidates(
                extents,
                rest,
            )[i] < extents[rest[p] as int].0 as int / 28 + extents[rest[p] as int].1;
        assert(clusters[p] == rest[p]);
    } else {
        assert(clusters[clusters.len() - 1] == clusters.last());
    }
}

/// No vector is a candidate twice, if no cluster is searched twice.
proof fn candidates_are_distinct(extents: Seq<(usize, usize)>, clusters: Seq<usize>)
    requires
        are_apart(extents),
        clusters.no_duplicates(),
        forall|p: int| 0 <= p < clusters.len() ==> (#[trigger] clusters[p]) < extents.len(),
    ensures
        candidates(extents, clusters).no_duplicates(),
    decreases clusters.len(),
{
    if clusters.len() > 0 {
        let rest = clusters.drop_last();
        let e = clusters.last() as int;
        let before = candidates(extents, rest);
        let all = candidates(extents, clusters);
        assert forall|p: int| 0 <= p < rest.len() implies (#[trigger] rest[p]) < extents.len() by {
            assert(rest[p] == clusters[p]);
        }
        assert(clusters[clusters.len() - 1] == clusters.last());
        candidates_are_distinct(extents, rest);
        assert forall|i: int, j: int| 0 <= i < before.len() <= j < all.len() implies all[i]
            != all[j] by {
            candidates_are_in_clusters(extents, rest, i);
            let p = choose|p: int|
                #![trigger rest[p]]
                0 <= p < rest.len() && extents[rest[p] as int].0 as int / 28 <= before[i]
                    < extents[rest[p] as int].0 as int / 28 + extents[rest[p] as int].1;
            let c = rest[p] as int;
            assert(clusters[p] == rest[p]);
            assert(c != e);
            if c < e {
                assert(extents[c].0 as int / 28 + extents[c].1 <= extents[e].0 as int / 28);
            } else {
                assert(extents[e].0 as int / 28 + extents[e].1 <= extents[c].0 as int / 28);
            }
        }
        assert forall|i: int, j: int| 0 <= i < all.len() && 0 <= j < all.len() && i != j implies
            all[i] != all[j] by {
            if i < before.len() && j < before.len() {
                assert(all[i] == before[i] && all[j] == before[j]);
            }
        }
    }
}

/// No number occurs twice.
pub open spec fn have_own_numbers(s: Seq<Hit>) -> bool {
    forall|i: int, j: int|
        0 <= i < j < s.len() ==> (#[trigger] s[i]).1.0 != (#[trigger] s[j]).1.0
}

/// Some of the hits with their own numbers have their own numbers.
proof fn some_have_own_numbers(some: Seq<Hit>, all: Seq<Hit>)
    requires
        have_own_numbers(all),
        forall|x: Hit| #[trigger] some.to_multiset().count(x) <= all.to_multiset().count(x),
    ensures
        have_own_numbers(some),
{
    broadcast use vstd::seq_lib::group_to_multiset_ensures;
    broadcast use vstd::multiset::group_multiset_axioms;

    assert(all.no_duplicates());
    all.lemma_multiset_has_no_duplicates();
    assert forall|x: Hit| some.to_multiset().contains(x) implies some.to_multiset().count(x)
        == 1 by {
        assert(some.to_multiset().count(x) <= all.to_multiset().count(x));
        assert(all.to_multiset().contains(x));
    }
    some.lemma_multiset_has_no_duplicates_conv();
    assert forall|i: int, j: int| 0 <= i < j < some.len() implies (#[trigger] some[i]).1.0 != (
    #[trigger] some[j]).1.0 by {
        assert(some.to_multiset().count(some[i]) > 0);
        assert(some.to_multiset().count(some[j]) > 0);
        assert(all.contains(some[i]) && all.contains(some[j]));
        let a = choose|a: int| 0 <= a < all.len() && all[a] == some[i];
        let b = choose|b: int| 0 <= b < all.len() && all[b] == some[j];
        if a < b {
            assert(all[a].1.0 != all[b].1.0);
        } else if b < a {
            assert(all[b].1.0 != all[a].1.0);
        }
    }
}

/// Where clusters are apart, none is searched twice and vectors can be numbered
/// in 32 bits, all results have different numbers. Distances that are no finite
/// numbers are left out where fewer than five vectors are searched.
pub proof fn results_are_distinct<D: Fn(usize) -> F32Bits>(
    s: VectorSearch,
    clusters: Seq<usize>,
    distance: D,
    results: Seq<SearchResult>,
)
    requires
        are_apart(s.cluster_offsets@),
        is_searchable(s),
        s.labels@.len() <= u32::MAX,
        clusters.no_duplicates(),
        forall|p: int|
            0 <= p < clusters.len() ==> (#[trigger] clusters[p]) < s.cluster_offsets@.len(),
        search_returns(s, clusters, distance, results),
        candidates(s.cluster_offsets@, clusters).len() >= 5 || forall|v: usize, x: F32Bits|
            #[trigger] call_ensures(distance, (v,), x) ==> !is_nan(x) && place(x) <= MAX_FINITE,
    ensures
        forall|i: int, j: int|
            0 <= i < j < results.len() ==> (#[trigger] results[i]).node_id != (
            #[trigger] results[j]).node_id,
{
    broadcast use vstd::seq_lib::group_to_multiset_ensures;
    broadcast use vstd::multiset::group_multiset_axioms;

    let extents = s.cluster_offsets@;
    let at = candidates(extents, clusters);
    let keys = choose|keys: Seq<F32Bits>|
        #[trigger] at_distances(distance, at, keys) && results == ranking(
            keep_all(hits(s.labels@, at, keys)),
        );
    let all = hits(s.labels@, at, keys);
    let top = keep_all(all);
    candidates_are_distinct(extents, clusters);
    assert forall|i: int, j: int| 0 <= i < j < all.len() implies (#[trigger] all[i]).1.0 != (
    #[trigger] all[j]).1.0 by {
        candidates_are_in_clusters(extents, clusters, i);
        candidates_are_in_clusters(extents, clusters, j);
        assert(at[i] != at[j]);
        assert(0 <= at[i] < s.labels@.len() && 0 <= at[j] < s.labels@.len());
    }
    kept_and_passed_over_are_all(all);
    at_most_five_are_kept(all);
    assert forall|i: int| 0 <= i < top.len() && top.len() < 5 implies !is_nan(
        (#[trigger] top[i]).0,
    ) && place(top[i].0) <= MAX_FINITE by {
        assert(top == all);
        assert(call_ensures(distance, (at[i] as usize,), keys[i]));
    }
    results_are_those_kept(top);
    let found = as_hits(results);
    assert forall|x: Hit| #[trigger] found.to_multiset().count(x) <= all.to_multiset().count(x) by {
        assert(top.to_multiset().add(passed_over(all).to_multiset()).count(x)
            == all.to_multiset().count(x));
    }
    some_have_own_numbers(found, all);
    assert forall|i: int, j: int| 0 <= i < j < results.len() implies (#[trigger] results[i]).node_id
        != (#[trigger] results[j]).node_id by {
        assert(found[i].1.0 != found[j].1.0);
    }
}

/// The clusters of a loaded index are apart, and its vectors can be numbered in
/// 32 bits.
pub proof fn loaded_clusters_are_apart<F: Fn(F32Bits) -> u16, G: Fn(i16) -> u16>(
    s: VectorSearch,
    b: Seq<u8>,
    float_to_half: F,
    scaled_to_half: G,
)
    requires
        is_readable(b),
        holds_stored(s, b, float_to_half, scaled_to_half),
    ensures
        are_apart(s.cluster_offsets@),
        s.labels@.len() <= u32::MAX,
{
    let extents = s.cluster_offsets@;
    assert forall|c: int, e: int| 0 <= c < e < extents.len() implies (
    #[trigger] extents[c]).0 as int / 28 + extents[c].1 <= (#[trigger] extents[e]).0 as int / 28 by {
        offsets_ascend_far(b, 0, c);
        offsets_ascend_far(b, c, c + 1);
        offsets_ascend_far(b, c + 1, e);
    }
}

/// The search of a loaded index returns no vector twice. Distances that are no
/// finite numbers are left out where fewer than five vectors are searched.
pub proof fn no_vector_is_found_twice<
    F: Fn(F32Bits) -> u16,
    G: Fn(i16) -> u16,
    D: Fn(usize) -> F32Bits,
>(
    s: VectorSearch,
    b: Seq<u8>,
    float_to_half: F,
    scaled_to_half: G,
    dists: Seq<F32Bits>,
    n_probe: nat,
    distance: D,
    results: Seq<SearchResult>,
)
    requires
        is_readable(b),
        holds_stored(s, b, float_to_half, scaled_to_half),
        n_probe <= s.k,
        search_returns(s, closest_centroids(dists, s.k as nat, n_probe), distance, results),
        candidates(
            s.cluster_offsets@,
            closest_centroids(dists, s.k as nat, n_probe),
        ).len() >= 5 || forall|v: usize, x: F32Bits|
            #[trigger] call_ensures(distance, (v,), x) ==> !is_nan(x) && place(x) <= MAX_FINITE,
    ensures
        forall|i: int, j: int|
            0 <= i < j < results.len() ==> (#[trigger] results[i]).node_id != (
            #[trigger] results[j]).node_id,
{
    loaded_index_is_searchable(s, b, float_to_half, scaled_to_half);
    loaded_clusters_are_apart(s, b, float_to_half, scaled_to_half);
    closest_centroids_are_distinct(dists, s.k as nat, n_probe);
    results_are_distinct(s, closest_centroids(dists, s.k as nat, n_probe), distance, results);
}

} // verus!
