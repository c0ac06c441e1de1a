//! What scoring a query comes to.

use vstd::prelude::*;
use crate::centroid_dists::{are_partial_sums, is_added, is_partial_dist, next_sum};
use crate::data::DatasetModel;
use crate::float_bits::{less, place, F32Bits, MAX_FINITE};
use crate::index::block_value;
use crate::knn::{
    cluster_places, frauds, gives_one_key, nearest_clusters, neighbours, no_neighbours,
    one_tier_count, places, raw_distance, raw_distances, reached_clusters_come_first,
    ranked_clusters, ranked_clusters_are_all, ranked_clusters_keep_their_order, ranking_key,
    is_prepared, places_join, scaled_by, scan_reaches, search_keeps_the_nearest, slot, squares,
    two_tier_count, two_tiers_count_as_one, Neighbour,
};
use crate::rank::{is_ranked, left_behind, offer, offer_all, one_more_offer, slot_splits};

verus! {

/// The value in dimension `d` of place `g`: blocks hold eight vectors, dimension
/// by dimension.
pub open spec fn stored(m: Seq<i16>, g: int, d: int) -> int {
    m[112 * (g / 8) + 8 * d + g % 8] as int
}

proof fn squares_are_of_stored_values(blocks: Seq<i16>, q: Seq<i16>, g: int, dims: nat)
    ensures
        squares(blocks, q, g, dims) >= 0,
        squares(blocks, q, g, dims) == 0 <==> forall|d: int|
            0 <= d < dims ==> stored(blocks, g, d) == #[trigger] q[d],
    decreases dims,
{
    if dims > 0 {
        let d = dims - 1;
        squares_are_of_stored_values(blocks, q, g, d as nat);
        let diff = stored(blocks, g, d) - q[d];
        assert(block_value(blocks, g, d) == stored(blocks, g, d));
        assert(diff * diff >= 0 && (diff * diff == 0 <==> diff == 0)) by (nonlinear_arith);
        if squares(blocks, q, g, dims) == 0 {
            assert forall|e: int| 0 <= e < dims implies stored(blocks, g, e) == #[trigger] q[e] by {
                assert(e == d || e < d);
            }
        }
    }
}

/// A query is at distance 0 from a place exactly if it has the values of that
/// place in all fourteen dimensions, negative ones included.
pub proof fn only_equal_vectors_are_at_no_distance(blocks: Seq<i16>, q: Seq<i16>, g: int)
    ensures
        squares(blocks, q, g, 14) == 0 <==> forall|d: int|
            0 <= d < 14 ==> stored(blocks, g, d) == #[trigger] q[d],
{
    squares_are_of_stored_values(blocks, q, g, 14);
}

proof fn one_value_moves_squares(
    blocks: Seq<i16>,
    q: Seq<i16>,
    g: int,
    dims: nat,
    d: int,
    x: i16,
)
    requires
        0 <= d < q.len(),
        dims <= q.len(),
    ensures
        squares(blocks, q.update(d, x), g, dims) == squares(blocks, q, g, dims) + if d < dims {
            (stored(blocks, g, d) - x) * (stored(blocks, g, d) - x) - (stored(blocks, g, d) - q[d])
                * (stored(blocks, g, d) - q[d])
        } else {
            0
        },
    decreases dims,
{
    if dims > 0 {
        let e = dims - 1;
        one_value_moves_squares(blocks, q, g, e as nat, d, x);
        assert(block_value(blocks, g, e) == stored(blocks, g, e));
        let a = stored(blocks, g, e) - q[e];
        let b = stored(blocks, g, e) - q.update(d, x)[e];
        assert(a * a >= 0 && b * b >= 0) by (nonlinear_arith);
    }
}

/// Changing the query in one dimension changes the distance by the difference of
/// two squares: that of the new difference and that of the old one.
pub proof fn distances_add_up_squares(blocks: Seq<i16>, q: Seq<i16>, g: int, d: int, x: i16)
    requires
        q.len() == 14,
        0 <= d < 14,
    ensures
        squares(blocks, q.update(d, x), g, 14) - squares(blocks, q, g, 14) == (stored(blocks, g, d)
            - x) * (stored(blocks, g, d) - x) - (stored(blocks, g, d) - q[d]) * (stored(
            blocks,
            g,
            d,
        ) - q[d]),
{
    one_value_moves_squares(blocks, q, g, 14, d, x);
}

/// A query that differs from a vector in one dimension only, by `t`, is at the
/// squared distance `t * t` from it, as it is computed too.
pub proof fn one_difference_is_squared(blocks: Seq<i16>, q: Seq<i16>, g: int, d: int)
    requires
        q.len() == 14,
        0 <= d < 14,
        forall|e: int| 0 <= e < 14 && e != d ==> stored(blocks, g, e) == #[trigger] q[e],
    ensures
        squares(blocks, q, g, 14) == (stored(blocks, g, d) - q[d]) * (stored(blocks, g, d) - q[d]),
        raw_distance(blocks, q, g) == (stored(blocks, g, d) - q[d]) * (stored(blocks, g, d) - q[d]),
{
    let v = stored(blocks, g, d) as i16;
    let p = q.update(d, v);
    only_equal_vectors_are_at_no_distance(blocks, p, g);
    assert(p.update(d, q[d]) =~= q);
    distances_add_up_squares(blocks, p, g, d, q[d]);
    let t = stored(blocks, g, d) - q[d];
    assert(0 <= t * t < 0x1_0000_0000) by (nonlinear_arith)
        requires
            -65535 <= t <= 65535,
    ;
}

/// The distance as computed is the sum of squares but for whole multiples of
/// 2^32.
pub proof fn computed_distances_wrap(blocks: Seq<i16>, q: Seq<i16>, g: int)
    ensures
        (squares(blocks, q, g, 14) - raw_distance(blocks, q, g)) % 0x1_0000_0000 == 0,
        squares(blocks, q, g, 14) < 0x1_0000_0000 ==> raw_distance(blocks, q, g) == squares(
            blocks,
            q,
            g,
            14,
        ),
{
}

/// Place `g` lies in one of the clusters, blocks taken whole at the start.
pub open spec fn is_searched(m: DatasetModel, probes: Seq<usize>, g: int) -> bool {
    exists|p: int|
        #![trigger probes[p]]
        0 <= p < probes.len() && m.offsets[probes[p] as int] as int / 8 * 8 <= g
            < m.offsets[probes[p] + 1]
}

/// The places that are searched are those of the clusters, and all of them.
pub proof fn all_places_of_clusters_are_searched(m: DatasetModel, probes: Seq<usize>, g: int)
    ensures
        places(m, probes).contains(g) <==> is_searched(m, probes, g),
    decreases probes.len(),
{
    if probes.len() > 0 {
        let rest = probes.drop_last();
        let own = cluster_places(m, probes.last() as int);
        let before = places(m, rest);
        let all = places(m, probes);
        all_places_of_clusters_are_searched(m, rest, g);
        if all.contains(g) {
            let i = choose|i: int| 0 <= i < all.len() && all[i] == g;
            if i < before.len() {
                assert(before[i] == g);
                let p = choose|p: int|
                    #![trigger rest[p]]
                    0 <= p < rest.len() && m.offsets[rest[p] as int] as int / 8 * 8 <= g
                        < m.offsets[rest[p] + 1];
                assert(probes[p] == rest[p]);
            } else {
                assert(own[i - before.len()] == g);
                assert(probes[probes.len() - 1] == probes.last());
            }
        }
        if is_searched(m, probes, g) {
            let p = choose|p: int|
                #![trigger probes[p]]
                0 <= p < probes.len() && m.offsets[probes[p] as int] as int / 8 * 8 <= g
                    < m.offsets[probes[p] + 1];
            if p < rest.len() {
                assert(rest[p] == probes[p]);
                let i = choose|i: int| 0 <= i < before.len() && before[i] == g;
                assert(all[i] == g);
            } else {
                let start = m.offsets[probes.last() as int] as int / 8 * 8;
                assert(own[g - start] == g);
                assert(all[before.len() + g - start] == g);
            }
        }
    }
}

/// The number of frauds in a list is the number of those with label 1.
pub proof fn frauds_are_those_labelled_so(best: Seq<Neighbour>)
    ensures
        frauds(best) == best.filter(|e: Neighbour| e.1.1 == 1).len(),
    decreases best.len(),
{
    reveal(Seq::filter);
    if best.len() > 0 {
        frauds_are_those_labelled_so(best.drop_last());
    }
}

/// The entry of a list stands for place `g`: it has its number, its label, and
/// the distance that is made of the sum of squares.
pub open spec fn stands_for<F: Fn(u32) -> F32Bits>(
    m: DatasetModel,
    q: Seq<i16>,
    scale: F,
    e: Neighbour,
    g: int,
) -> bool {
    &&& e.1.0 == g
    &&& e.1.1 == m.labels[g]
    &&& call_ensures(scale, (raw_distance(m.blocks, q, g),), e.0)
}

/// A list of five is what the search of some clusters is for: it is ranked by
/// distance, each entry is an empty slot or stands for a place that is searched,
/// and a place that is searched and not in it is no nearer than its last.
pub open spec fn are_five_nearest<F: Fn(u32) -> F32Bits>(
    m: DatasetModel,
    q: Seq<i16>,
    probes: Seq<usize>,
    scale: F,
    best: Seq<Neighbour>,
) -> bool {
    &&& best.len() == 5
    &&& forall|i: int, j: int|
        0 <= i < j < 5 ==> place((#[trigger] best[i]).0) <= place((#[trigger] best[j]).0)
    &&& forall|i: int|
        0 <= i < 5 ==> (#[trigger] best[i]) == (0x7f7f_ffffu32, (0u32, 0u8)) || exists|g: int|
            is_searched(m, probes, g) && #[trigger] stands_for(m, q, scale, best[i], g)
    &&& forall|g: int|
        #[trigger] is_searched(m, probes, g) ==> exists|e: Neighbour|
            #[trigger] stands_for(m, q, scale, e, g) && (best.contains(e) || !less(e.0, best[4].0))
    &&& clusters_are_apart(m) && probes.no_duplicates() ==> forall|i: int, j: int|
        0 <= i < j < 5 && best[i] != (0x7f7f_ffffu32, (0u32, 0u8)) && best[j] != (
            0x7f7f_ffffu32,
            (0u32, 0u8),
        ) ==> (#[trigger] best[i]).1.0 != (#[trigger] best[j]).1.0
}

/// Each cluster ends before the blocks of a later one start.
pub open spec fn clusters_are_apart(m: DatasetModel) -> bool {
    forall|c: int, e: int|
        0 <= c < e < m.k ==> (#[trigger] m.offsets[c + 1]) <= (#[trigger] m.offsets[e]) as int / 8
            * 8
}

/// Where clusters are apart and none is searched twice, no place is searched
/// twice.
pub proof fn no_place_is_searched_twice(m: DatasetModel, probes: Seq<usize>)
    requires
        clusters_are_apart(m),
        probes.no_duplicates(),
        forall|p: int| 0 <= p < probes.len() ==> (#[trigger] probes[p]) < m.k,
    ensures
        places(m, probes).no_duplicates(),
    decreases probes.len(),
{
    if probes.len() > 0 {
        let rest = probes.drop_last();
        let e = probes.last() as int;
        let before = places(m, rest);
        let own = cluster_places(m, e);
        let all = places(m, probes);
        assert(probes[probes.len() - 1] == probes.last());
        assert forall|p: int| 0 <= p < rest.len() implies (#[trigger] rest[p]) < m.k by {
            assert(rest[p] == probes[p]);
        }
        no_place_is_searched_twice(m, rest);
        assert forall|i: int, j: int| 0 <= i < before.len() <= j < all.len() implies all[i]
            != all[j] by {
            assert(all[i] == before[i] && all[j] == own[j - before.len()]);
            assert(before.contains(before[i]));
            all_places_of_clusters_are_searched(m, rest, before[i]);
            let p = choose|p: int|
                #![trigger rest[p]]
                0 <= p < rest.len() && m.offsets[rest[p] as int] as int / 8 * 8 <= before[i]
                    < m.offsets[rest[p] + 1];
            let c = rest[p] as int;
            assert(probes[p] == rest[p]);
            assert(c != e);
            if c < e {
                assert(m.offsets[c + 1] <= m.offsets[e] as int / 8 * 8);
            } else {
                assert(m.offsets[e + 1] <= m.offsets[c] as int / 8 * 8);
            }
        }
        assert forall|i: int, j: int| 0 <= i < all.len() && 0 <= j < all.len() && i != j implies
            all[i] != all[j] by {
            if i < before.len() && j < before.len() {
                assert(all[i] == before[i] && all[j] == before[j]);
            } else if i >= before.len() && j >= before.len() {
                assert(all[i] == own[i - before.len()] && all[j] == own[j - before.len()]);
            }
        }
    }
}

/// Of items that are there once at most, none is twice among those kept.
proof fn kept_once(
    from: Seq<Neighbour>,
    found: Seq<Neighbour>,
    best: Seq<Neighbour>,
    behind: Seq<Neighbour>,
    i: int,
    j: int,
)
    requires
        (best + behind).to_multiset() == (from + found).to_multiset(),
        forall|a: int, b: int|
            0 <= a < b < found.len() ==> (#[trigger] found[a]).1.0 != (#[trigger] found[b]).1.0,
        0 <= i < j < best.len(),
        !from.contains(best[i]),
        !from.contains(best[j]),
    ensures
        best[i].1.0 != best[j].1.0,
{
    broadcast use vstd::seq_lib::group_to_multiset_ensures;
    broadcast use vstd::multiset::group_multiset_axioms;

    let s = best + behind;
    let t = from + found;
    assert(s[i] == best[i] && s[j] == best[j]);
    assert(s.to_multiset().count(s[i]) > 0 && s.to_multiset().count(s[j]) > 0);
    assert(t.contains(s[i]) && t.contains(s[j]));
    let a = choose|a: int| 0 <= a < t.len() && t[a] == s[i];
    let b = choose|b: int| 0 <= b < t.len() && t[b] == s[j];
    if a < from.len() {
        assert(from[a] == s[i]);
    }
    if b < from.len() {
        assert(from[b] == s[j]);
    }
    let x = a - from.len();
    let y = b - from.len();
    assert(found[x] == best[i] && found[y] == best[j]);
    if best[i].1.0 == best[j].1.0 {
        assert(x == y);
        let e = best[i];
        let u = s.remove(i);
        assert(u[j - 1] == e);
        assert(u.to_multiset().count(e) > 0);
        assert(u.to_multiset() =~= s.to_multiset().remove(e));
        let v = t.remove(a);
        assert(v.to_multiset() =~= t.to_multiset().remove(e));
        assert(v.to_multiset().count(e) > 0);
        assert(v.contains(e));
        let z = choose|z: int| 0 <= z < v.len() && v[z] == e;
        let w = if z < a {
            z
        } else {
            z + 1
        };
        assert(t[w] == e && w != a);
        if w < from.len() {
            assert(from[w] == e);
        } else {
            let n = w - from.len();
            assert(found[n] == e);
            if n < x {
                assert(found[n].1.0 != found[x].1.0);
            } else {
                assert(found[x].1.0 != found[n].1.0);
            }
        }
    }
}

/// The counted frauds are those among the five nearest of all that is searched.
pub proof fn counted_frauds_are_among_the_nearest<F: Fn(u32) -> F32Bits>(
    m: DatasetModel,
    q: Seq<i16>,
    probes: Seq<usize>,
    scale: F,
    count: nat,
)
    requires
        m.is_scannable(),
        m.labels.len() <= 0x1_0000_0000,
        forall|p: int| 0 <= p < probes.len() ==> (#[trigger] probes[p]) < m.k,
        one_tier_count(m, q, probes, scale, count),
    ensures
        exists|best: Seq<Neighbour>|
            #[trigger] are_five_nearest(m, q, probes, scale, best) && count == best.filter(
                |e: Neighbour| e.1.1 == 1,
            ).len(),
{
    let best = choose|best: Seq<Neighbour>|
        #[trigger] scan_reaches(m, q, probes, scale, no_neighbours(), best) && count == frauds(
            best,
        );
    search_finds_five(m, q, probes, scale, best);
    frauds_are_those_labelled_so(best);
}

proof fn search_finds_five<F: Fn(u32) -> F32Bits>(
    m: DatasetModel,
    q: Seq<i16>,
    probes: Seq<usize>,
    scale: F,
    best: Seq<Neighbour>,
)
    requires
        m.is_scannable(),
        m.labels.len() <= 0x1_0000_0000,
        forall|p: int| 0 <= p < probes.len() ==> (#[trigger] probes[p]) < m.k,
        scan_reaches(m, q, probes, scale, no_neighbours(), best),
    ensures
        are_five_nearest(m, q, probes, scale, best),
{
    broadcast use vstd::seq_lib::group_to_multiset_ensures;

    let from = no_neighbours();
    let at = places(m, probes);
    search_keeps_the_nearest(m, q, probes, scale, from, best);
    let keys = choose|keys: Seq<F32Bits>|
        {
            let found = neighbours(m, at, keys);
            let behind = left_behind(from, found);
            &&& #[trigger] scaled_by(scale, raw_distances(m, q, at), keys)
            &&& (best + behind).to_multiset() == (from + found).to_multiset()
            &&& forall|i: int|
                0 <= i < behind.len() ==> !less((#[trigger] behind[i]).0, best.last().0)
        };
    let found = neighbours(m, at, keys);
    let behind = left_behind(from, found);
    let raws = raw_distances(m, q, at);
    assert forall|j: int| 0 <= j < at.len() implies is_searched(m, probes, at[j]) && 0 <= at[j]
        && stands_for(m, q, scale, #[trigger] found[j], at[j]) by {
        all_places_of_clusters_are_searched(m, probes, at[j]);
        assert(at.contains(at[j]));
        let p = choose|p: int|
            #![trigger probes[p]]
            0 <= p < probes.len() && m.offsets[probes[p] as int] as int / 8 * 8 <= at[j]
                < m.offsets[probes[p] + 1];
        let c = probes[p] as int;
        assert(m.offsets[c + 1] <= m.labels.len());
        assert(call_ensures(scale, (raws[j],), keys[j]));
    }
    assert forall|i: int| 0 <= i < 5 implies (#[trigger] best[i]) == (0x7f7f_ffffu32, (0u32, 0u8))
        || exists|g: int|
        is_searched(m, probes, g) && #[trigger] stands_for(m, q, scale, best[i], g) by {
        assert((best + behind)[i] == best[i]);
        assert((best + behind).to_multiset().count(best[i]) > 0);
        assert((from + found).contains(best[i]));
        let j = choose|j: int| 0 <= j < (from + found).len() && (from + found)[j] == best[i];
        if j >= 5 {
            assert(found[j - 5] == best[i]);
            assert(stands_for(m, q, scale, best[i], at[j - 5]));
        }
    }
    assert forall|g: int| #[trigger] is_searched(m, probes, g) implies exists|e: Neighbour|
        #[trigger] stands_for(m, q, scale, e, g) && (best.contains(e) || !less(e.0, best[4].0)) by {
        all_places_of_clusters_are_searched(m, probes, g);
        let j = choose|j: int| 0 <= j < at.len() && at[j] == g;
        let e = found[j];
        assert(stands_for(m, q, scale, e, g));
        assert((from + found)[5 + j] == e);
        assert((from + found).to_multiset().count(e) > 0);
        assert((best + behind).contains(e));
        let i = choose|i: int| 0 <= i < (best + behind).len() && (best + behind)[i] == e;
        if i < 5 {
            assert(best[i] == e);
        } else {
            assert(behind[i - 5] == e);
        }
    }
    if clusters_are_apart(m) && probes.no_duplicates() {
        no_place_is_searched_twice(m, probes);
        assert forall|a: int, b: int| 0 <= a < b < found.len() implies (#[trigger] found[a]).1.0
            != (#[trigger] found[b]).1.0 by {
            assert(stands_for(m, q, scale, found[a], at[a]));
            assert(stands_for(m, q, scale, found[b], at[b]));
        }
        assert forall|i: int, j: int|
            0 <= i < j < 5 && best[i] != (0x7f7f_ffffu32, (0u32, 0u8)) && best[j] != (
                0x7f7f_ffffu32,
                (0u32, 0u8),
            ) implies (#[trigger] best[i]).1.0 != (#[trigger] best[j]).1.0 by {
            kept_once(from, found, best, behind, i, j);
        }
    }
}

/// The search in two tiers counts what a search of the five nearest clusters
/// counts if that is 0, 1, 4 or 5, and else what a search of the ten nearest
/// counts.
pub proof fn ambiguous_queries_are_searched_further<F: Fn(u32) -> F32Bits>(
    m: DatasetModel,
    q: Seq<i16>,
    dists: Seq<F32Bits>,
    scale: F,
    count: nat,
    of_five: nat,
    of_ten: nat,
)
    requires
        gives_one_key(scale),
        two_tier_count(m, q, nearest_clusters(dists, m.k, 10), scale, count),
        one_tier_count(m, q, nearest_clusters(dists, m.k, 5), scale, of_five),
        one_tier_count(m, q, nearest_clusters(dists, m.k, 10), scale, of_ten),
    ensures
        of_five == 2 || of_five == 3 ==> count == of_ten,
        of_five != 2 && of_five != 3 ==> count == of_five,
{
    two_tiers_count_as_one(m, q, dists, scale, count, of_five, of_ten);
}

/// Clusters are searched nearest first, the first of equally near ones first,
/// and none that is left out is nearer than one that is searched.
pub proof fn near_clusters_are_searched_first(dists: Seq<F32Bits>, k: nat, n: nat, i: int, c: int)
    requires
        k <= dists.len(),
        k <= usize::MAX,
        0 <= i < n,
        i < k,
        0 <= c < k,
        less(dists[c], MAX_FINITE),
        forall|j: int| 0 <= j < i ==> (#[trigger] nearest_clusters(dists, k, n)[j]) != c,
    ensures
        ({
            let a = nearest_clusters(dists, k, n)[i] as int;
            less(dists[a], dists[c]) || (place(dists[a]) == place(dists[c]) && a <= c)
        }),
{
    let all = ranked_clusters(dists, k);
    let nearest = nearest_clusters(dists, k, n);
    ranked_clusters_are_all(dists, k);
    reached_clusters_come_first(dists, k);
    ranked_clusters_keep_their_order(dists, k);
    assert(all.contains((ranking_key(dists[c]), c as usize)));
    let p = choose|p: int| 0 <= p < all.len() && all[p] == (dists[c], c as usize);
    assert(forall|j: int| 0 <= j < nearest.len() ==> nearest[j] == slot(all[j]));
    if p < i {
        assert(nearest[p] == c);
    }
    assert(i <= p);
    if i < p {
        assert(place(all[i].0) <= place(all[p].0));
        assert(less(all[i].0, MAX_FINITE));
    }
}

/// The distance to a centroid adds up all fourteen dimensions: if numbers stand
/// for whole ones such that squaring and adding are exact, the distance stands
/// for the sum over the dimensions.
pub proof fn centroid_distances_add_up_all_dimensions<
    S: Fn(F32Bits, F32Bits) -> F32Bits,
    F: Fn(F32Bits, F32Bits, F32Bits) -> F32Bits,
    P: Fn(F32Bits, F32Bits, F32Bits) -> F32Bits,
>(
    square: S,
    fused: F,
    plain: P,
    query: Seq<F32Bits>,
    centroids: Seq<F32Bits>,
    k: nat,
    c: int,
    dist: F32Bits,
    value: spec_fn(F32Bits) -> int,
    gap: spec_fn(F32Bits, F32Bits) -> int,
)
    requires
        is_partial_dist(square, fused, plain, query, centroids, k, c, 14, dist),
        forall|a: F32Bits, b: F32Bits, r: F32Bits|
            #[trigger] call_ensures(square, (a, b), r) ==> value(r) == gap(a, b),
        forall|s: F32Bits, a: F32Bits, b: F32Bits, r: F32Bits|
            #[trigger] call_ensures(fused, (s, a, b), r) ==> value(r) == value(s) + gap(a, b),
        forall|s: F32Bits, a: F32Bits, b: F32Bits, r: F32Bits|
            #[trigger] call_ensures(plain, (s, a, b), r) ==> value(r) == value(s) + gap(a, b),
    ensures
        value(dist) == gap(centroids[c], query[0]) + gap(centroids[k + c], query[1]) + gap(
            centroids[2 * k + c],
            query[2],
        ) + gap(centroids[3 * k + c], query[3]) + gap(centroids[4 * k + c], query[4]) + gap(
            centroids[5 * k + c],
            query[5],
        ) + gap(centroids[6 * k + c], query[6]) + gap(centroids[7 * k + c], query[7]) + gap(
            centroids[8 * k + c],
            query[8],
        ) + gap(centroids[9 * k + c], query[9]) + gap(centroids[10 * k + c], query[10]) + gap(
            centroids[11 * k + c],
            query[11],
        ) + gap(centroids[12 * k + c], query[12]) + gap(centroids[13 * k + c], query[13]),
{
    let sums = choose|sums: Seq<F32Bits>|
        #[trigger] are_partial_sums(square, fused, plain, query, centroids, k, c, sums)
            && sums.len() == 14 && sums.last() == dist;
    assert forall|d: int| 0 <= d < 13 implies value(#[trigger] sums[d + 1]) == value(sums[d]) + gap(
        centroids[(d + 1) * k + c],
        query[d + 1],
    ) by {
        assert(next_sum(fused, plain, query, centroids, k, c, sums, d));
        assert(is_added(
            fused,
            plain,
            k,
            c,
            sums[d],
            centroids[(d + 1) * k + c],
            query[d + 1],
            sums[d + 1],
        ));
    }
    assert(value(sums[1]) == value(sums[0]) + gap(centroids[1 * k + c], query[1])) by {
        assert(sums[0int + 1] == sums[1]);
    }
    assert(value(sums[2]) == value(sums[1]) + gap(centroids[2 * k + c], query[2])) by {
        assert(sums[1int + 1] == sums[2]);
    }
    assert(value(sums[3]) == value(sums[2]) + gap(centroids[3 * k + c], query[3])) by {
        assert(sums[2int + 1] == sums[3]);
    }
    assert(value(sums[4]) == value(sums[3]) + gap(centroids[4 * k + c], query[4])) by {
        assert(sums[3int + 1] == sums[4]);
    }
    assert(value(sums[5]) == value(sums[4]) + gap(centroids[5 * k + c], query[5])) by {
        assert(sums[4int + 1] == sums[5]);
    }
    assert(value(sums[6]) == value(sums[5]) + gap(centroids[6 * k + c], query[6])) by {
        assert(sums[5int + 1] == sums[6]);
    }
    assert(value(sums[7]) == value(sums[6]) + gap(centroids[7 * k + c], query[7])) by {
        assert(sums[6int + 1] == sums[7]);
    }
    assert(value(sums[8]) == value(sums[7]) + gap(centroids[8 * k + c], query[8])) by {
        assert(sums[7int + 1] == sums[8]);
    }
    assert(value(sums[9]) == value(sums[8]) + gap(centroids[9 * k + c], query[9])) by {
        assert(sums[8int + 1] == sums[9]);
    }
    assert(value(sums[10]) == value(sums[9]) + gap(centroids[10 * k + c], query[10])) by {
        assert(sums[9int + 1] == sums[10]);
    }
    assert(value(sums[11]) == value(sums[10]) + gap(centroids[11 * k + c], query[11])) by {
        assert(sums[10int + 1] == sums[11]);
    }
    assert(value(sums[12]) == value(sums[11]) + gap(centroids[12 * k + c], query[12])) by {
        assert(sums[11int + 1] == sums[12]);
    }
    assert(value(sums[13]) == value(sums[12]) + gap(centroids[13 * k + c], query[13])) by {
        assert(sums[12int + 1] == sums[13]);
    }
}

/// Clusters are searched one after the other, each from its first place on.
pub proof fn places_are_searched_in_order(
    m: DatasetModel,
    first: Seq<usize>,
    c: usize,
    second: Seq<usize>,
    i: int,
)
    requires
        m.offsets[c as int] as int / 8 * 8 + i < m.offsets[c + 1],
        0 <= i,
    ensures
        places(m, first + seq![c] + second)[places(m, first).len() + i] == m.offsets[c as int]
            as int / 8 * 8 + i,
{
    let one = seq![c];
    places_join(m, first + one, second);
    places_join(m, first, one);
    assert(one.drop_last() =~= Seq::empty());
    assert(places(m, one.drop_last()).len() == 0);
    assert(places(m, one) =~= cluster_places(m, c as int));
    assert(places(m, first + one + second)[places(m, first).len() + i] == cluster_places(
        m,
        c as int,
    )[i]);
}

/// An item that is not nearer than the last of a list changes nothing, even if it
/// is as near. One that is nearer takes its place: all others stay, those that
/// are at most as far before it and those that are farther behind it.
pub proof fn only_nearer_items_are_taken<T>(best: Seq<(F32Bits, T)>, item: (F32Bits, T))
    requires
        is_ranked(best),
        best.len() > 0,
    ensures
        !less(item.0, best.last().0) ==> offer(best, item) == best,
        less(item.0, best.last().0) ==> exists|p: int|
            0 <= p < best.len() && offer(best, item) == #[trigger] best.drop_last().insert(p, item)
                && (forall|i: int| 0 <= i < p ==> !less(item.0, (#[trigger] best[i]).0)) && (forall|
                i: int,
            |
                p <= i < best.len() ==> less(item.0, (#[trigger] best[i]).0)),
{
    if less(item.0, best.last().0) {
        let t = best.drop_last();
        assert forall|i: int| 0 <= i < t.len() implies t[i] == best[i] by {}
        assert(is_ranked(t));
        slot_splits(t, item.0);
        let p = crate::rank::slot(t, item.0);
        assert forall|i: int| 0 <= i < p implies !less(item.0, (#[trigger] best[i]).0) by {
            assert(t[i] == best[i]);
        }
        assert forall|i: int| p <= i < best.len() implies less(item.0, (#[trigger] best[i]).0) by {
            if i < t.len() {
                assert(t[i] == best[i]);
                assert(place(item.0) < place(t[i].0));
            }
        }
        assert(offer(best, item) == best.drop_last().insert(p, item));
    }
}

/// Offers are made one after the other.
pub proof fn offers_are_made_in_turn<T>(
    best: Seq<(F32Bits, T)>,
    items: Seq<(F32Bits, T)>,
    item: (F32Bits, T),
)
    ensures
        offer_all(best, Seq::empty()) == best,
        offer_all(best, items.push(item)) == offer(offer_all(best, items), item),
{
    one_more_offer(best, items, item);
}

/// A search offers what stands at the places, one after the other, with the
/// distances made of the sums of squares.
pub proof fn searches_offer_what_stands_there<F: Fn(u32) -> F32Bits>(
    m: DatasetModel,
    q: Seq<i16>,
    probes: Seq<usize>,
    scale: F,
    from: Seq<Neighbour>,
    to: Seq<Neighbour>,
)
    requires
        scan_reaches(m, q, probes, scale, from, to),
    ensures
        exists|found: Seq<Neighbour>|
            found.len() == places(m, probes).len() && to == #[trigger] offer_all(from, found)
                && forall|i: int|
                0 <= i < found.len() ==> call_ensures(
                    scale,
                    (raw_distance(m.blocks, q, places(m, probes)[i]),),
                    (#[trigger] found[i]).0,
                ) && found[i].1.0 == places(m, probes)[i] as u32 && found[i].1.1 == m.labels[places(
                    m,
                    probes,
                )[i]],
{
    let at = places(m, probes);
    let raws = raw_distances(m, q, at);
    let keys = choose|keys: Seq<F32Bits>|
        #[trigger] scaled_by(scale, raws, keys) && to == offer_all(from, neighbours(m, at, keys));
    let found = neighbours(m, at, keys);
    assert forall|i: int| 0 <= i < found.len() implies call_ensures(
        scale,
        (raw_distance(m.blocks, q, at[i]),),
        (#[trigger] found[i]).0,
    ) && found[i].1.0 == at[i] as u32 && found[i].1.1 == m.labels[at[i]] by {
        assert(call_ensures(scale, (raws[i],), keys[i]));
    }
    assert(to == offer_all(from, found));
}

/// A query is searched for as it is: each of its numbers is scaled, whatever its
/// sign, and its distance to each centroid is of all its numbers.
pub proof fn queries_are_prepared_whole<
    S: Fn(F32Bits, F32Bits) -> F32Bits,
    F: Fn(F32Bits, F32Bits, F32Bits) -> F32Bits,
    P: Fn(F32Bits, F32Bits, F32Bits) -> F32Bits,
    R: Fn(F32Bits) -> i16,
>(
    square: S,
    fused: F,
    plain: P,
    round: R,
    m: DatasetModel,
    query: Seq<F32Bits>,
    dists: Seq<F32Bits>,
    scaled: Seq<i16>,
    d: int,
    c: int,
)
    requires
        is_prepared(square, fused, plain, round, m, query, dists, scaled),
        0 <= d < 14,
        0 <= c < m.k,
    ensures
        scaled.len() == 14,
        call_ensures(round, (query[d],), scaled[d]),
        dists.len() == m.k,
        is_partial_dist(square, fused, plain, query, m.centroids, m.k, c, 14, dists[c]),
{
    assert(call_ensures(round, (query[d],), scaled[d]));
    assert(is_partial_dist(square, fused, plain, query, m.centroids, m.k, c, 14, dists[c]));
}

/// Centroids of whole groups of eight are added up with one rounding, the others
/// with two.
pub proof fn whole_groups_are_rounded_once<
    F: Fn(F32Bits, F32Bits, F32Bits) -> F32Bits,
    P: Fn(F32Bits, F32Bits, F32Bits) -> F32Bits,
>(
    fused: F,
    plain: P,
    k: nat,
    c: int,
    before: F32Bits,
    centroid: F32Bits,
    query: F32Bits,
    after: F32Bits,
)
    requires
        is_added(fused, plain, k, c, before, centroid, query, after),
        0 <= c < k,
    ensures
        c < k - k % 8 ==> call_ensures(fused, (before, centroid, query), after),
        c >= k - k % 8 ==> call_ensures(plain, (before, centroid, query), after),
{
}

} // verus!
