//! Counting frauds among the nearest neighbours of a query.
//!
//! The distance of a query to a place is a whole number, the sum of the squared
//! differences of the scaled values. Neighbours are ranked by that number as a
//! single-precision number on the unscaled vectors; how the one becomes the
//! other is handed in as a function on bit patterns, and so is the arithmetic
//! behind the distances of the query to the centroids.

use vstd::prelude::*;
use crate::centroid_dists::{compute_centroid_dists, is_partial_dist};
use crate::data::{Dataset, DatasetModel};
use crate::float_bits::{float_less, less, place, F32Bits, MAX_FINITE};
use crate::index::{block_value, DIMS};
use crate::rank::{
    filled, first_sorted, front, is_ranked, left_behind, offer_all, offer_item,
    offers_keep_the_nearest, numbered, offers_keep_what_holds, one_more_offer, reordered_numbers,
    slot_splits, sorted_by_place, sorting_by_place_reorders,
};

verus! {

/// The number of neighbours that are kept.
pub const KNN_K: usize = 5;

/// The number of clusters that are always searched.
pub const FAST_N: usize = 5;

/// The number of clusters that are searched for ambiguous queries.
pub const FULL_N: usize = 10;

/// A neighbour: its distance, its place and its label.
pub type Neighbour = (F32Bits, (u32, u8));

/// The sum of the squared differences in the first `dims` dimensions between
/// the vector at place `g` and the query.
pub open spec fn squares(blocks: Seq<i16>, q: Seq<i16>, g: int, dims: nat) -> nat
    decreases dims,
{
    if dims == 0 {
        0
    } else {
        let d = (dims - 1) as nat;
        let diff = block_value(blocks, g, d as int) - q[d as int];
        squares(blocks, q, g, d) + (diff * diff) as nat
    }
}

/// The distance as it is computed, in 32 bits.
pub open spec fn raw_distance(blocks: Seq<i16>, q: Seq<i16>, g: int) -> u32 {
    (squares(blocks, q, g, 14) % 0x1_0000_0000) as u32
}

/// The places that are searched for one cluster: from the start of its first
/// block up to its end.
pub open spec fn cluster_places(m: DatasetModel, c: int) -> Seq<int> {
    let start = m.offsets[c] as int / 8 * 8;
    let end = m.offsets[c + 1] as int;
    Seq::new(
        (if start < end {
            end - start
        } else {
            0
        }) as nat,
        |i: int| start + i,
    )
}

/// The places that are searched for some clusters, in the order of the search.
pub open spec fn places(m: DatasetModel, probes: Seq<usize>) -> Seq<int>
    decreases probes.len(),
{
    if probes.len() == 0 {
        Seq::empty()
    } else {
        places(m, probes.drop_last()) + cluster_places(m, probes.last() as int)
    }
}

/// The distances of the query to some places.
pub open spec fn raw_distances(m: DatasetModel, q: Seq<i16>, at: Seq<int>) -> Seq<u32> {
    Seq::new(at.len(), |i: int| raw_distance(m.blocks, q, at[i]))
}

/// `keys` are what `scale` may make of `raws`, one by one.
pub open spec fn scaled_by<F: Fn(u32) -> F32Bits>(
    scale: F,
    raws: Seq<u32>,
    keys: Seq<F32Bits>,
) -> bool {
    &&& keys.len() == raws.len()
    &&& forall|i: int| 0 <= i < raws.len() ==> call_ensures(scale, (raws[i],), #[trigger] keys[i])
}

/// The neighbours at some places, at the distances `keys`.
pub open spec fn neighbours(m: DatasetModel, at: Seq<int>, keys: Seq<F32Bits>) -> Seq<Neighbour> {
    Seq::new(at.len(), |i: int| (keys[i], (at[i] as u32, m.labels[at[i]])))
}

/// Searching some clusters takes the list `from` to the list `to`: the
/// neighbours at all their places are offered to it, in the order of the
/// search.
pub open spec fn scan_reaches<F: Fn(u32) -> F32Bits>(
    m: DatasetModel,
    q: Seq<i16>,
    probes: Seq<usize>,
    scale: F,
    from: Seq<Neighbour>,
    to: Seq<Neighbour>,
) -> bool {
    exists|keys: Seq<F32Bits>|
        #[trigger] scaled_by(scale, raw_distances(m, q, places(m, probes)), keys) && to
            == offer_all(from, neighbours(m, places(m, probes), keys))
}

/// The list before any search: fillers at the largest distance.
pub open spec fn no_neighbours() -> Seq<Neighbour> {
    Seq::new(5, |i: int| (MAX_FINITE, (0u32, 0u8)))
}

/// The number of frauds in a list.
pub open spec fn frauds(best: Seq<Neighbour>) -> nat
    decreases best.len(),
{
    if best.len() == 0 {
        0
    } else {
        frauds(best.drop_last()) + if best.last().1.1 == 1 {
            1nat
        } else {
            0
        }
    }
}

/// The distance that a cluster is ranked by: those that are no number, or not
/// below the largest finite one, count as that one.
pub open spec fn ranking_key(dist: F32Bits) -> F32Bits {
    if less(dist, MAX_FINITE) {
        dist
    } else {
        MAX_FINITE
    }
}

/// The distances that clusters are ranked by.
pub open spec fn ranking_keys(dists: Seq<F32Bits>) -> Seq<F32Bits> {
    dists.map_values(|d: F32Bits| ranking_key(d))
}

/// The clusters ranked by their distances, nearest first; of equally near ones
/// the first.
pub open spec fn ranked_clusters(dists: Seq<F32Bits>, k: nat) -> Seq<(F32Bits, usize)> {
    sorted_by_place(numbered(ranking_keys(dists), k))
}

/// The cluster that a slot of the list of nearest clusters names: a cluster that
/// is not below the largest finite distance does not fill its slot, and an
/// unfilled slot names the first cluster.
pub open spec fn slot(e: (F32Bits, usize)) -> usize {
    if less(e.0, MAX_FINITE) {
        e.1
    } else {
        0
    }
}

/// The nearest `n` of `k` clusters, nearest first; all of them if there are
/// fewer.
pub open spec fn nearest_clusters(dists: Seq<F32Bits>, k: nat, n: nat) -> Seq<usize> {
    front(ranked_clusters(dists, k), n).map_values(|e: (F32Bits, usize)| slot(e))
}

/// The number of clusters that can fill a slot.
pub open spec fn within_reach(dists: Seq<F32Bits>, k: nat) -> nat
    decreases k,
{
    if k == 0 {
        0
    } else {
        within_reach(dists, (k - 1) as nat) + if less(dists[k - 1], MAX_FINITE) {
            1nat
        } else {
            0nat
        }
    }
}

/// The ranked clusters are all clusters, each once.
pub proof fn ranked_clusters_are_all(dists: Seq<F32Bits>, k: nat)
    requires
        k <= dists.len(),
        k <= usize::MAX,
    ensures
        ranked_clusters(dists, k).len() == k,
        is_ranked(ranked_clusters(dists, k)),
        forall|i: int|
            0 <= i < k ==> (#[trigger] ranked_clusters(dists, k)[i]).1 < k && ranked_clusters(
                dists,
                k,
            )[i].0 == ranking_key(dists[ranked_clusters(dists, k)[i].1 as int]),
        forall|i: int, j: int|
            0 <= i < j < k ==> (#[trigger] ranked_clusters(dists, k)[i]).1 != (
            #[trigger] ranked_clusters(dists, k)[j]).1,
        forall|c: int|
            0 <= c < k ==> ranked_clusters(dists, k).contains(
                (ranking_key(#[trigger] dists[c]), c as usize),
            ),
{
    let keys = ranking_keys(dists);
    let all = numbered(keys, k);
    sorting_by_place_reorders(all);
    reordered_numbers(keys, k, sorted_by_place(all));
    assert forall|c: int| 0 <= c < k implies ranked_clusters(dists, k).contains(
        (ranking_key(#[trigger] dists[c]), c as usize),
    ) by {
        assert(keys[c] == ranking_key(dists[c]));
    }
}

/// As many slots are named as asked for, or as there are clusters, and each
/// names a cluster. No cluster that fills a slot is named before, and where the
/// clusters in reach run out the first one is named.
pub proof fn slots_name_clusters(dists: Seq<F32Bits>, k: nat, n: nat)
    requires
        k <= dists.len(),
        k <= usize::MAX,
    ensures
        nearest_clusters(dists, k, n).len() == if n < k {
            n
        } else {
            k
        },
        forall|i: int|
            0 <= i < nearest_clusters(dists, k, n).len() ==> (#[trigger] nearest_clusters(
                dists,
                k,
                n,
            )[i]) < k,
        forall|i: int, j: int|
            0 <= i < j < nearest_clusters(dists, k, n).len() && j < within_reach(dists, k) ==> (
            #[trigger] nearest_clusters(dists, k, n)[i]) != (#[trigger] nearest_clusters(
                dists,
                k,
                n,
            )[j]),
        forall|i: int|
            within_reach(dists, k) <= i < nearest_clusters(dists, k, n).len() ==> (
            #[trigger] nearest_clusters(dists, k, n)[i]) == 0,
{
    ranked_clusters_are_all(dists, k);
    reached_clusters_come_first(dists, k);
    let all = ranked_clusters(dists, k);
    let r = front(all, n);
    let nearest = nearest_clusters(dists, k, n);
    assert forall|i: int| 0 <= i < r.len() implies (#[trigger] nearest[i]) == slot(all[i]) by {
        assert(r[i] == all[i]);
    }
}

/// Where every distance is below the largest finite one, no cluster is named
/// twice.
pub proof fn nearest_clusters_are_distinct(dists: Seq<F32Bits>, k: nat, n: nat)
    requires
        k <= dists.len(),
        k <= usize::MAX,
        forall|c: int| 0 <= c < k ==> less(#[trigger] dists[c], MAX_FINITE),
    ensures
        nearest_clusters(dists, k, n).no_duplicates(),
{
    all_are_within_reach(dists, k);
    slots_name_clusters(dists, k, n);
    let nearest = nearest_clusters(dists, k, n);
    assert forall|i: int, j: int| 0 <= i < nearest.len() && 0 <= j < nearest.len() && i != j implies
        nearest[i] != nearest[j] by {
        if i < j {
            assert(nearest[i] != nearest[j]);
        } else {
            assert(nearest[j] != nearest[i]);
        }
    }
}

proof fn all_are_within_reach(dists: Seq<F32Bits>, k: nat)
    requires
        forall|c: int| 0 <= c < k ==> less(#[trigger] dists[c], MAX_FINITE),
    ensures
        within_reach(dists, k) == k,
    decreases k,
{
    if k > 0 {
        all_are_within_reach(dists, (k - 1) as nat);
    }
}

/// The number of ranked clusters that fill a slot.
spec fn filling(s: Seq<(F32Bits, usize)>) -> nat
    decreases s.len(),
{
    if s.len() == 0 {
        0
    } else {
        filling(s.drop_last()) + if less(s.last().0, MAX_FINITE) {
            1nat
        } else {
            0nat
        }
    }
}

/// Ranked clusters that fill their slots come before those that do not.
proof fn filling_come_first(s: Seq<(F32Bits, usize)>)
    requires
        is_ranked(s),
        forall|i: int|
            0 <= i < s.len() ==> less((#[trigger] s[i]).0, MAX_FINITE) || s[i].0 == MAX_FINITE,
    ensures
        filling(s) <= s.len(),
        forall|i: int|
            0 <= i < s.len() ==> (less((#[trigger] s[i]).0, MAX_FINITE) <==> i < filling(s)),
    decreases s.len(),
{
    if s.len() > 0 {
        let t = s.drop_last();
        assert forall|i: int| 0 <= i < t.len() implies less((#[trigger] t[i]).0, MAX_FINITE)
            || t[i].0 == MAX_FINITE by {
            assert(t[i] == s[i]);
        }
        assert(is_ranked(t));
        filling_come_first(t);
        assert forall|i: int| 0 <= i < s.len() implies (less((#[trigger] s[i]).0, MAX_FINITE) <==> i
            < filling(s)) by {
            if i < t.len() {
                assert(t[i] == s[i]);
                assert(place(s[i].0) <= place(s.last().0));
            } else if t.len() > 0 && filling(t) < t.len() {
                assert(!less(t[t.len() - 1].0, MAX_FINITE));
                assert(place(s[t.len() - 1].0) <= place(s.last().0));
            }
        }
    }
}

/// The numbers of clusters that fill a slot, by their distances and by their
/// ranking keys.
proof fn reach_of_keys(dists: Seq<F32Bits>, k: nat)
    requires
        k <= dists.len(),
        k <= usize::MAX,
    ensures
        filling(numbered(ranking_keys(dists), k)) == within_reach(dists, k),
    decreases k,
{
    if k > 0 {
        let j = (k - 1) as nat;
        reach_of_keys(dists, j);
        let keys = ranking_keys(dists);
        assert(numbered(keys, k).drop_last() =~= numbered(keys, j));
        assert(numbered(keys, k).last().0 == keys[j as int]);
        assert(keys[j as int] == ranking_key(dists[j as int]));
    }
}

/// In the ranking equally near clusters stay in their order.
pub proof fn ranked_clusters_keep_their_order(dists: Seq<F32Bits>, k: nat)
    requires
        k <= dists.len(),
        k <= usize::MAX,
    ensures
        forall|i: int, j: int|
            0 <= i < j < k && place(ranked_clusters(dists, k)[i].0) == place(
                ranked_clusters(dists, k)[j].0,
            ) ==> (#[trigger] ranked_clusters(dists, k)[i]).1 < (#[trigger] ranked_clusters(
                dists,
                k,
            )[j]).1,
    decreases k,
{
    if k > 0 {
        let j = (k - 1) as nat;
        ranked_clusters_keep_their_order(dists, j);
        ranked_clusters_are_all(dists, j);
        let keys = ranking_keys(dists);
        assert(numbered(keys, k).drop_last() =~= numbered(keys, j));
        let r = ranked_clusters(dists, j);
        let item = numbered(keys, k).last();
        assert(item == (ranking_key(dists[j as int]), j as usize));
        slot_splits(r, item.0);
        let p = crate::rank::slot(r, item.0);
        let s = ranked_clusters(dists, k);
        assert(s == r.insert(p, item));
        assert forall|a: int, b: int| 0 <= a < b < k && place(s[a].0) == place(s[b].0) implies (
        #[trigger] s[a]).1 < (#[trigger] s[b]).1 by {
            assert(s[a] == if a < p {
                r[a]
            } else if a == p {
                item
            } else {
                r[a - 1]
            });
            assert(s[b] == if b < p {
                r[b]
            } else if b == p {
                item
            } else {
                r[b - 1]
            });
        }
    }
}

/// How many fill a slot does not depend on their order.
proof fn filling_counts(s: Seq<(F32Bits, usize)>)
    ensures
        filling(s) == s.to_multiset().filter(|e: (F32Bits, usize)| less(e.0, MAX_FINITE)).len(),
    decreases s.len(),
{
    broadcast use vstd::seq_lib::group_to_multiset_ensures;
    broadcast use vstd::multiset::group_multiset_axioms;

    let fills = |e: (F32Bits, usize)| less(e.0, MAX_FINITE);
    if s.len() == 0 {
        assert(s.to_multiset().filter(fills) =~= vstd::multiset::Multiset::empty());
    } else {
        let t = s.drop_last();
        filling_counts(t);
        assert(s =~= t.push(s.last()));
        assert(s.to_multiset() =~= t.to_multiset().insert(s.last()));
        if fills(s.last()) {
            assert(s.to_multiset().filter(fills) =~= t.to_multiset().filter(fills).insert(
                s.last(),
            ));
        } else {
            assert(s.to_multiset().filter(fills) =~= t.to_multiset().filter(fills));
        }
    }
}

/// In the ranking the clusters in reach come first.
pub proof fn reached_clusters_come_first(dists: Seq<F32Bits>, k: nat)
    requires
        k <= dists.len(),
        k <= usize::MAX,
    ensures
        forall|i: int|
            0 <= i < k ==> (less((#[trigger] ranked_clusters(dists, k)[i]).0, MAX_FINITE) <==> i
                < within_reach(dists, k)),
{
    ranked_clusters_are_all(dists, k);
    let all = numbered(ranking_keys(dists), k);
    let ranked = ranked_clusters(dists, k);
    sorting_by_place_reorders(all);
    filling_counts(all);
    filling_counts(ranked);
    reach_of_keys(dists, k);
    filling_come_first(ranked);
}

/// A cluster that is left out is no nearer than one that is not.
pub proof fn left_out_clusters_are_no_nearer(
    dists: Seq<F32Bits>,
    k: nat,
    n: nat,
    i: int,
    c: int,
)
    requires
        k <= dists.len(),
        k <= usize::MAX,
        0 <= i < nearest_clusters(dists, k, n).len(),
        0 <= c < k,
        !nearest_clusters(dists, k, n).contains(c as usize),
    ensures
        place(ranking_key(dists[nearest_clusters(dists, k, n)[i] as int])) <= place(
            ranking_key(dists[c]),
        ),
{
    ranked_clusters_are_all(dists, k);
    let all = ranked_clusters(dists, k);
    let nearest = nearest_clusters(dists, k, n);
    assert(all.contains((ranking_key(dists[c]), c as usize)));
    let p = choose|p: int| 0 <= p < all.len() && all[p] == (ranking_key(dists[c]), c as usize);
    assert(nearest[i] == slot(all[i]));
    if p < nearest.len() {
        assert(nearest[p] == slot(all[p]));
    }
    if p < nearest.len() || !less(all[i].0, MAX_FINITE) {
        // a cluster that fills its slot is named there, so this one does not
        assert(p > i ==> place(all[i].0) <= place(all[p].0));
        assert(!less(all[p].0, MAX_FINITE));
    } else {
        assert(place(all[i].0) <= place(all[p].0));
    }
}

/// Of the nearest clusters the first are the nearest of fewer.
pub proof fn nearest_clusters_start_alike(dists: Seq<F32Bits>, k: nat, n: nat, more: nat)
    requires
        n <= more,
    ensures
        front(nearest_clusters(dists, k, more), n) == nearest_clusters(dists, k, n),
{
    assert(front(nearest_clusters(dists, k, more), n) =~= nearest_clusters(dists, k, n));
}

/// Searching as many clusters as there are, or more, misses none that is below
/// the largest finite distance.
pub proof fn probing_all_clusters_misses_none(dists: Seq<F32Bits>, k: nat, n: nat, c: int)
    requires
        0 <= c < k <= n,
        k <= usize::MAX,
        k <= dists.len(),
        less(dists[c], MAX_FINITE),
    ensures
        nearest_clusters(dists, k, n).contains(c as usize),
        nearest_clusters(dists, k, n).len() == k,
{
    ranked_clusters_are_all(dists, k);
    let all = ranked_clusters(dists, k);
    assert(all.contains((ranking_key(dists[c]), c as usize)));
    let p = choose|p: int| 0 <= p < all.len() && all[p] == (ranking_key(dists[c]), c as usize);
    assert(nearest_clusters(dists, k, n)[p] == slot(all[p]));
}

/// The squared distance of the query to the vector at place `g`, in 32 bits.
pub fn raw_distance_at(blocks: &[i16], q: &[i16; 14], g: usize) -> (r: u32)
    requires
        g as int / 8 * 112 + 112 <= blocks@.len(),
    ensures
        r == raw_distance(blocks@, q@, g as int),
{
    let len: usize = blocks.len();
    let mut sum: u64 = 0;
    let mut d: usize = 0;
    let base: usize = g / 8 * 112 + g % 8;
    while d < DIMS
        invariant
            d <= 14,
            len == blocks@.len(),
            base == g as int / 8 * 112 + g as int % 8,
            g as int / 8 * 112 + 112 <= len,
            sum == squares(blocks@, q@, g as int, d as nat),
            sum <= d * 0xffff_ffff,
        decreases 14 - d,
    {
        let diff: i64 = blocks[base + d * 8] as i64 - q[d] as i64;
        assert(0 <= diff * diff <= 65535 * 65535) by (nonlinear_arith)
            requires
                -65535 <= diff <= 65535,
        ;
        sum = sum + (diff * diff) as u64;
        d = d + 1;
    }
    (sum % 0x1_0000_0000) as u32
}

/// The nearest `n` of the first `k` clusters, nearest first; all of them if there
/// are fewer.
pub fn top_k_indices(dists: &[F32Bits], k: usize, n: usize) -> (r: Vec<usize>)
    requires
        k <= dists@.len(),
        k > 0 ==> n > 0,
    ensures
        r@ == nearest_clusters(dists@, k as nat, n as nat),
        r@.len() == if n < k {
            n
        } else {
            k
        },
        forall|i: int| 0 <= i < r@.len() ==> (#[trigger] r@[i]) < k,
{
    let ghost keys = ranking_keys(dists@);
    let mut all: Vec<(F32Bits, usize)> = Vec::new();
    let mut c: usize = 0;
    while c < k
        invariant
            c <= k <= dists@.len(),
            keys == ranking_keys(dists@),
            all@ == numbered(keys, c as nat),
        decreases k - c,
    {
        let key: F32Bits = if float_less(dists[c], MAX_FINITE) {
            dists[c]
        } else {
            MAX_FINITE
        };
        all.push((key, c));
        c = c + 1;
        assert(all@ =~= numbered(keys, c as nat));
    }
    let best: Vec<(F32Bits, usize)> = first_sorted(all.as_slice(), n);
    let mut out: Vec<usize> = Vec::new();
    let mut j: usize = 0;
    while j < best.len()
        invariant
            j <= best@.len(),
            out@ == best@.take(j as int).map_values(|e: (F32Bits, usize)| slot(e)),
        decreases best@.len() - j,
    {
        let c: usize = if float_less(best[j].0, MAX_FINITE) {
            best[j].1
        } else {
            0
        };
        out.push(c);
        j = j + 1;
        assert(out@ =~= best@.take(j as int).map_values(|e: (F32Bits, usize)| slot(e)));
    }
    assert(best@.take(j as int) =~= best@);
    proof {
        slots_name_clusters(dists@, k as nat, n as nat);
    }
    out
}

/// Offers do not change the length of a list.
proof fn offers_len<T>(best: Seq<(F32Bits, T)>, items: Seq<(F32Bits, T)>)
    requires
        items.len() > 0 ==> best.len() > 0,
    ensures
        offer_all(best, items).len() == best.len(),
{
    if items.len() > 0 {
        offers_keep_what_holds(best, items, |e: (F32Bits, T)| true);
    }
}

/// Searches some clusters and offers what is found to the list.
pub fn scan_raw<F: Fn(u32) -> F32Bits>(
    probes: &[usize],
    ds: &Dataset,
    q: &[i16; 14],
    best: &mut Vec<Neighbour>,
    scale: &F,
)
    requires
        ds@.is_scannable(),
        forall|i: int| 0 <= i < probes@.len() ==> (#[trigger] probes@[i]) < ds@.k,
        old(best)@.len() > 0,
        forall|raw: u32| call_requires(*scale, (raw,)),
    ensures
        scan_reaches(ds@, q@, probes@, *scale, old(best)@, final(best)@),
        final(best)@.len() == old(best)@.len(),
{
    let ghost start = best@;
    let ghost mut keys = Seq::<F32Bits>::empty();
    let mut i: usize = 0;
    proof {
        assert(probes@.take(0) =~= Seq::empty());
        assert(neighbours(ds@, places(ds@, probes@.take(0)), keys) =~= Seq::empty());
    }
    while i < probes.len()
        invariant
            i <= probes@.len(),
            ds@.is_scannable(),
            forall|i: int| 0 <= i < probes@.len() ==> (#[trigger] probes@[i]) < ds@.k,
            forall|raw: u32| call_requires(*scale, (raw,)),
            start.len() > 0,
            best@.len() == start.len(),
            scaled_by(*scale, raw_distances(ds@, q@, places(ds@, probes@.take(i as int))), keys),
            best@ == offer_all(
                start,
                neighbours(ds@, places(ds@, probes@.take(i as int)), keys),
            ),
        decreases probes@.len() - i,
    {
        let c: usize = probes[i];
        let from: usize = ds.offsets[c] as usize / 8 * 8;
        let end: usize = ds.offsets[c + 1] as usize;
        let ghost done = places(ds@, probes@.take(i as int));
        let ghost own = cluster_places(ds@, c as int);
        let mut g: usize = from;
        assert(done + own.take(0) =~= done);
        while g < end
            invariant
                from <= g,
                from < end ==> g <= end,
                from >= end ==> g == from,
                own == cluster_places(ds@, c as int),
                from == ds@.offsets[c as int] as int / 8 * 8,
                end == ds@.offsets[c + 1],
                c < ds@.k,
                ds@.is_scannable(),
                forall|raw: u32| call_requires(*scale, (raw,)),
                start.len() > 0,
                best@.len() == start.len(),
                scaled_by(*scale, raw_distances(ds@, q@, done + own.take(g - from)), keys),
                best@ == offer_all(start, neighbours(ds@, done + own.take(g - from), keys)),
            decreases end - g,
        {
            assert(ds@.offsets[c + 1] <= ds@.labels.len());
            assert(g as int / 8 * 112 + 112 <= (end + 7) / 8 * 112);
            let raw: u32 = raw_distance_at(ds.blocks.as_slice(), q, g);
            let key: F32Bits = scale(raw);
            let ghost before = done + own.take(g - from);
            let ghost after = done + own.take(g - from + 1);
            let ghost items = neighbours(ds@, before, keys);
            offer_item(best, key, (g as u32, ds.labels[g]));
            proof {
                assert(after =~= before.push(g as int));
                let more = keys.push(key);
                let item = (key, (g as u32, ds@.labels[g as int]));
                assert(neighbours(ds@, after, more) =~= items.push(item));
                one_more_offer(start, items, item);
                offers_len(start, items.push(item));
                assert(raw_distances(ds@, q@, after) =~= raw_distances(ds@, q@, before).push(raw));
                assert(scaled_by(*scale, raw_distances(ds@, q@, after), more));
                keys = more;
            }
            g = g + 1;
        }
        proof {
            assert(own.take(g - from) =~= own);
            assert(probes@.take(i + 1).drop_last() =~= probes@.take(i as int));
        }
        i = i + 1;
    }
    assert(probes@.take(i as int) =~= probes@);
}

/// Counts the frauds in a list.
pub fn count_frauds(best: &Vec<Neighbour>) -> (r: usize)
    ensures
        r == frauds(best@),
        r <= best@.len(),
{
    let mut count: usize = 0;
    let mut i: usize = 0;
    assert(best@.take(0) =~= Seq::empty());
    while i < best.len()
        invariant
            i <= best@.len(),
            count == frauds(best@.take(i as int)),
            count <= i,
        decreases best@.len() - i,
    {
        assert(best@.take(i + 1).drop_last() =~= best@.take(i as int));
        if best[i].1.1 == 1 {
            count = count + 1;
        }
        i = i + 1;
    }
    assert(best@.take(i as int) =~= best@);
    count
}

/// The first tier settles a query that has nearly no or nearly only frauds
/// among its neighbours.
pub open spec fn is_settled(count: nat) -> bool {
    count <= 1 || count >= 4
}

/// The number of frauds that a search in two tiers may count: the nearest five
/// clusters decide, unless they leave the query ambiguous; then the next five
/// are searched as well, starting from the neighbours found.
pub open spec fn two_tier_count<F: Fn(u32) -> F32Bits>(
    m: DatasetModel,
    q: Seq<i16>,
    probes: Seq<usize>,
    scale: F,
    count: nat,
) -> bool {
    exists|fast: Seq<Neighbour>|
        #[trigger] scan_reaches(m, q, front(probes, 5), scale, no_neighbours(), fast)
            && if is_settled(frauds(fast)) {
            count == frauds(fast)
        } else {
            exists|full: Seq<Neighbour>|
                #[trigger] scan_reaches(
                    m,
                    q,
                    probes.skip(front(probes, 5).len() as int),
                    scale,
                    fast,
                    full,
                ) && count == frauds(full)
        }
}

/// The number of frauds that a search of some clusters may count.
pub open spec fn one_tier_count<F: Fn(u32) -> F32Bits>(
    m: DatasetModel,
    q: Seq<i16>,
    probes: Seq<usize>,
    scale: F,
    count: nat,
) -> bool {
    exists|best: Seq<Neighbour>|
        #[trigger] scan_reaches(m, q, probes, scale, no_neighbours(), best) && count == frauds(
            best,
        )
}

/// Counts the frauds among the five nearest neighbours of a query, searching
/// the five nearest clusters, and five more if those leave it ambiguous.
///
/// `dists` are the distances of the query to the centroids, `q` is the scaled
/// query, and `scale` makes a distance of a sum of squares.
pub fn search_in_tiers<F: Fn(u32) -> F32Bits>(
    dists: &[F32Bits],
    q: &[i16; 14],
    ds: &Dataset,
    scale: &F,
) -> (count: u8)
    requires
        ds@.is_scannable(),
        0 < ds@.k <= dists@.len(),
        forall|raw: u32| call_requires(*scale, (raw,)),
    ensures
        two_tier_count(ds@, q@, nearest_clusters(dists@, ds@.k, 10), *scale, count as nat),
        count <= 5,
{
    let probes: Vec<usize> = top_k_indices(dists, ds.k, FULL_N);
    let first: usize = if probes.len() < FAST_N {
        probes.len()
    } else {
        FAST_N
    };
    let fast: &[usize] = &probes[0..first];
    let rest: &[usize] = &probes[first..probes.len()];
    assert(fast@ =~= front(probes@, 5));
    assert(rest@ =~= probes@.skip(first as int));
    let mut best: Vec<Neighbour> = filled(KNN_K, (MAX_FINITE, (0, 0)));
    assert(best@ =~= no_neighbours());
    scan_raw(fast, ds, q, &mut best, scale);
    let fast_count: usize = count_frauds(&best);
    if fast_count <= 1 || fast_count >= 4 {
        return fast_count as u8;
    }
    scan_raw(rest, ds, q, &mut best, scale);
    count_frauds(&best) as u8
}

/// Counts the frauds among the five nearest neighbours of a query, searching
/// the nearest `nprobe` clusters.
pub fn search_clusters<F: Fn(u32) -> F32Bits>(
    dists: &[F32Bits],
    q: &[i16; 14],
    ds: &Dataset,
    nprobe: usize,
    scale: &F,
) -> (count: u8)
    requires
        ds@.is_scannable(),
        ds@.k <= dists@.len(),
        nprobe > 0 <==> ds@.k > 0,
        forall|raw: u32| call_requires(*scale, (raw,)),
    ensures
        one_tier_count(
            ds@,
            q@,
            nearest_clusters(dists@, ds@.k, nprobe as nat),
            *scale,
            count as nat,
        ),
        count <= 5,
{
    let probes: Vec<usize> = top_k_indices(dists, ds.k, nprobe);
    let mut best: Vec<Neighbour> = filled(KNN_K, (MAX_FINITE, (0, 0)));
    assert(best@ =~= no_neighbours());
    scan_raw(probes.as_slice(), ds, q, &mut best, scale);
    count_frauds(&best) as u8
}

/// A query as the index is searched for it: its distances to the centroids and
/// its scaled numbers.
pub struct Query {
    pub dists: Vec<F32Bits>,
    pub scaled: [i16; 14],
}

/// `dists` and `scaled` may be the distances of a query to the centroids and its
/// scaled numbers.
pub open spec fn is_prepared<
    S: Fn(F32Bits, F32Bits) -> F32Bits,
    F: Fn(F32Bits, F32Bits, F32Bits) -> F32Bits,
    P: Fn(F32Bits, F32Bits, F32Bits) -> F32Bits,
    R: Fn(F32Bits) -> i16,
>(
    square: S,
    fused: F,
    plain: P,
    round: R,
    m: DatasetModel,
    query: Seq<F32Bits>,
    dists: Seq<F32Bits>,
    scaled: Seq<i16>,
) -> bool {
    &&& dists.len() == m.k
    &&& forall|c: int|
        0 <= c < m.k ==> is_partial_dist(
            square,
            fused,
            plain,
            query,
            m.centroids,
            m.k,
            c,
            14,
            #[trigger] dists[c],
        )
    &&& scaled.len() == 14
    &&& forall|d: int| 0 <= d < 14 ==> call_ensures(round, (query[d],), #[trigger] scaled[d])
}

/// Prepares a query. `square`, `fused` and `plain` are those of
/// [`compute_centroid_dists`], and `round` scales a number.
pub fn prepare<
    S: Fn(F32Bits, F32Bits) -> F32Bits,
    F: Fn(F32Bits, F32Bits, F32Bits) -> F32Bits,
    P: Fn(F32Bits, F32Bits, F32Bits) -> F32Bits,
    R: Fn(F32Bits) -> i16,
>(query: &[F32Bits; 14], ds: &Dataset, square: &S, fused: &F, plain: &P, round: &R) -> (r: Query)
    requires
        ds@.centroids.len() == 14 * ds@.k,
        forall|c: F32Bits, q: F32Bits| call_requires(*square, (c, q)),
        forall|a: F32Bits, c: F32Bits, q: F32Bits| call_requires(*fused, (a, c, q)),
        forall|a: F32Bits, c: F32Bits, q: F32Bits| call_requires(*plain, (a, c, q)),
        forall|x: F32Bits| call_requires(*round, (x,)),
    ensures
        is_prepared(*square, *fused, *plain, *round, ds@, query@, r.dists@, r.scaled@),
{
    let dists: Vec<F32Bits> = compute_centroid_dists(query, ds, square, fused, plain);
    let mut scaled: [i16; 14] = [0; 14];
    let mut d: usize = 0;
    while d < DIMS
        invariant
            d <= 14,
            forall|x: F32Bits| call_requires(*round, (x,)),
            forall|e: int|
                0 <= e < d ==> call_ensures(*round, (query@[e],), #[trigger] scaled@[e]),
        decreases 14 - d,
    {
        scaled[d] = round(query[d]);
        d = d + 1;
    }
    Query { dists, scaled }
}

/// Counts the frauds among the five nearest neighbours of a query, searching
/// the five nearest clusters, and five more if those leave it ambiguous.
///
/// The query is prepared by [`prepare`], and `scale` makes a distance of a sum
/// of squares.
pub fn knn5_fraud_count<
    S: Fn(F32Bits, F32Bits) -> F32Bits,
    F: Fn(F32Bits, F32Bits, F32Bits) -> F32Bits,
    P: Fn(F32Bits, F32Bits, F32Bits) -> F32Bits,
    R: Fn(F32Bits) -> i16,
    C: Fn(u32) -> F32Bits,
>(
    query: &[F32Bits; 14],
    ds: &Dataset,
    square: &S,
    fused: &F,
    plain: &P,
    round: &R,
    scale: &C,
) -> (count: u8)
    requires
        ds@.is_scannable(),
        ds@.k > 0,
        ds@.centroids.len() == 14 * ds@.k,
        forall|c: F32Bits, q: F32Bits| call_requires(*square, (c, q)),
        forall|a: F32Bits, c: F32Bits, q: F32Bits| call_requires(*fused, (a, c, q)),
        forall|a: F32Bits, c: F32Bits, q: F32Bits| call_requires(*plain, (a, c, q)),
        forall|x: F32Bits| call_requires(*round, (x,)),
        forall|raw: u32| call_requires(*scale, (raw,)),
    ensures
        exists|dists: Seq<F32Bits>, scaled: Seq<i16>|
            #[trigger] is_prepared(*square, *fused, *plain, *round, ds@, query@, dists, scaled)
                && two_tier_count(
                ds@,
                scaled,
                nearest_clusters(dists, ds@.k, 10),
                *scale,
                count as nat,
            ),
        count <= 5,
{
    let q: Query = prepare(query, ds, square, fused, plain, round);
    search_in_tiers(q.dists.as_slice(), &q.scaled, ds, scale)
}

/// Counts the frauds among the five nearest neighbours of a query, searching
/// the nearest `nprobe` clusters.
pub fn knn5_fraud_count_nprobe<
    S: Fn(F32Bits, F32Bits) -> F32Bits,
    F: Fn(F32Bits, F32Bits, F32Bits) -> F32Bits,
    P: Fn(F32Bits, F32Bits, F32Bits) -> F32Bits,
    R: Fn(F32Bits) -> i16,
    C: Fn(u32) -> F32Bits,
>(
    query: &[F32Bits; 14],
    ds: &Dataset,
    nprobe: usize,
    square: &S,
    fused: &F,
    plain: &P,
    round: &R,
    scale: &C,
) -> (count: u8)
    requires
        ds@.is_scannable(),
        nprobe > 0 <==> ds@.k > 0,
        ds@.centroids.len() == 14 * ds@.k,
        forall|c: F32Bits, q: F32Bits| call_requires(*square, (c, q)),
        forall|a: F32Bits, c: F32Bits, q: F32Bits| call_requires(*fused, (a, c, q)),
        forall|a: F32Bits, c: F32Bits, q: F32Bits| call_requires(*plain, (a, c, q)),
        forall|x: F32Bits| call_requires(*round, (x,)),
        forall|raw: u32| call_requires(*scale, (raw,)),
    ensures
        exists|dists: Seq<F32Bits>, scaled: Seq<i16>|
            #[trigger] is_prepared(*square, *fused, *plain, *round, ds@, query@, dists, scaled)
                && one_tier_count(
                ds@,
                scaled,
                nearest_clusters(dists, ds@.k, nprobe as nat),
                *scale,
                count as nat,
            ),
        count <= 5,
{
    let q: Query = prepare(query, ds, square, fused, plain, round);
    search_clusters(q.dists.as_slice(), &q.scaled, ds, nprobe, scale)
}

/// The search keeps the nearest: whatever the distances were, the list is
/// ranked, together with what was left behind it is all that was found and the
/// fillers, and nothing left behind is nearer than the last one kept.
pub proof fn search_keeps_the_nearest<F: Fn(u32) -> F32Bits>(
    m: DatasetModel,
    q: Seq<i16>,
    probes: Seq<usize>,
    scale: F,
    from: Seq<Neighbour>,
    to: Seq<Neighbour>,
)
    requires
        scan_reaches(m, q, probes, scale, from, to),
        is_ranked(from),
        from.len() > 0,
    ensures
        is_ranked(to),
        to.len() == from.len(),
        exists|keys: Seq<F32Bits>|
            {
                let found = neighbours(m, places(m, probes), keys);
                let behind = left_behind(from, found);
                &&& #[trigger] scaled_by(scale, raw_distances(m, q, places(m, probes)), keys)
                &&& (to + behind).to_multiset() == (from + found).to_multiset()
                &&& forall|i: int|
                    0 <= i < behind.len() ==> !less(
                        (#[trigger] behind[i]).0,
                        to.last().0,
                    )
            },
{
    let keys = choose|keys: Seq<F32Bits>|
        #[trigger] scaled_by(scale, raw_distances(m, q, places(m, probes)), keys) && to
            == offer_all(from, neighbours(m, places(m, probes), keys));
    offers_keep_the_nearest(from, neighbours(m, places(m, probes), keys));
}

/// Searching some clusters and then others is searching all of them.
pub proof fn searches_join<F: Fn(u32) -> F32Bits>(
    m: DatasetModel,
    q: Seq<i16>,
    first: Seq<usize>,
    second: Seq<usize>,
    scale: F,
    from: Seq<Neighbour>,
    between: Seq<Neighbour>,
    to: Seq<Neighbour>,
)
    requires
        scan_reaches(m, q, first, scale, from, between),
        scan_reaches(m, q, second, scale, between, to),
    ensures
        scan_reaches(m, q, first + second, scale, from, to),
{
    let at1 = places(m, first);
    let at2 = places(m, second);
    let keys1 = choose|keys: Seq<F32Bits>|
        #[trigger] scaled_by(scale, raw_distances(m, q, at1), keys) && between == offer_all(
            from,
            neighbours(m, at1, keys),
        );
    let keys2 = choose|keys: Seq<F32Bits>|
        #[trigger] scaled_by(scale, raw_distances(m, q, at2), keys) && to == offer_all(
            between,
            neighbours(m, at2, keys),
        );
    places_join(m, first, second);
    let keys = keys1 + keys2;
    assert(raw_distances(m, q, at1 + at2) =~= raw_distances(m, q, at1) + raw_distances(m, q, at2));
    assert(neighbours(m, at1 + at2, keys) =~= neighbours(m, at1, keys1) + neighbours(m, at2, keys2));
    assert(scaled_by(scale, raw_distances(m, q, at1 + at2), keys));
    offers_join(from, neighbours(m, at1, keys1), neighbours(m, at2, keys2));
}

/// The places of more clusters come behind those of the first ones.
pub proof fn places_join(m: DatasetModel, first: Seq<usize>, second: Seq<usize>)
    ensures
        places(m, first + second) == places(m, first) + places(m, second),
    decreases second.len(),
{
    if second.len() == 0 {
        assert(first + second =~= first);
        assert(places(m, first) + places(m, second) =~= places(m, first));
    } else {
        let init = second.drop_last();
        places_join(m, first, init);
        assert((first + second).drop_last() =~= first + init);
        assert(places(m, first + second) =~= places(m, first) + places(m, second));
    }
}

/// Offering some items and then others is offering all of them.
proof fn offers_join<T>(
    best: Seq<(F32Bits, T)>,
    first: Seq<(F32Bits, T)>,
    second: Seq<(F32Bits, T)>,
)
    ensures
        offer_all(best, first + second) == offer_all(offer_all(best, first), second),
    decreases second.len(),
{
    if second.len() == 0 {
        assert(first + second =~= first);
    } else {
        let init = second.drop_last();
        offers_join(best, first, init);
        assert((first + second).drop_last() =~= first + init);
    }
}

/// As long as no difference exceeds 10000, the distance as computed is the sum
/// of squares itself and stays below 2^31.
pub proof fn distances_do_not_overflow(blocks: Seq<i16>, q: Seq<i16>, g: int)
    requires
        forall|d: int|
            0 <= d < 14 ==> -10000 <= (#[trigger] block_value(blocks, g, d)) - q[d] <= 10000,
    ensures
        raw_distance(blocks, q, g) == squares(blocks, q, g, 14),
        squares(blocks, q, g, 14) < 0x8000_0000,
{
    squares_bound(blocks, q, g, 14);
}

proof fn squares_bound(blocks: Seq<i16>, q: Seq<i16>, g: int, dims: nat)
    requires
        dims <= 14,
        forall|d: int|
            0 <= d < 14 ==> -10000 <= (#[trigger] block_value(blocks, g, d)) - q[d] <= 10000,
    ensures
        squares(blocks, q, g, dims) <= dims * 100_000_000,
    decreases dims,
{
    if dims > 0 {
        let d = (dims - 1) as nat;
        squares_bound(blocks, q, g, d);
        let diff = block_value(blocks, g, d as int) - q[d as int];
        assert(0 <= diff * diff <= 100_000_000) by (nonlinear_arith)
            requires
                -10000 <= diff <= 10000,
        ;
    }
}

/// A function gives one result for each argument.
pub open spec fn gives_one_key<F: Fn(u32) -> F32Bits>(scale: F) -> bool {
    forall|raw: u32, x: F32Bits, y: F32Bits|
        #[trigger] call_ensures(scale, (raw,), x) && #[trigger] call_ensures(scale, (raw,), y) ==> x
            == y
}

/// Where each sum of squares stands for one distance, a search comes to one
/// list.
proof fn searches_come_to_one_list<F: Fn(u32) -> F32Bits>(
    m: DatasetModel,
    q: Seq<i16>,
    probes: Seq<usize>,
    scale: F,
    from: Seq<Neighbour>,
    a: Seq<Neighbour>,
    b: Seq<Neighbour>,
)
    requires
        gives_one_key(scale),
        scan_reaches(m, q, probes, scale, from, a),
        scan_reaches(m, q, probes, scale, from, b),
    ensures
        a == b,
{
    let at = places(m, probes);
    let raws = raw_distances(m, q, at);
    let keys1 = choose|keys: Seq<F32Bits>|
        #[trigger] scaled_by(scale, raws, keys) && a == offer_all(from, neighbours(m, at, keys));
    let keys2 = choose|keys: Seq<F32Bits>|
        #[trigger] scaled_by(scale, raws, keys) && b == offer_all(from, neighbours(m, at, keys));
    assert forall|i: int| 0 <= i < keys1.len() implies keys1[i] == keys2[i] by {
        assert(call_ensures(scale, (raws[i],), keys1[i]));
        assert(call_ensures(scale, (raws[i],), keys2[i]));
    }
    assert(keys1 =~= keys2);
}

/// The search in two tiers counts what a search of the nearest five clusters
/// counts, where that settles the query, and else what a search of the nearest
/// ten counts.
pub proof fn two_tiers_count_as_one<F: Fn(u32) -> F32Bits>(
    m: DatasetModel,
    q: Seq<i16>,
    dists: Seq<F32Bits>,
    scale: F,
    count: nat,
    of_five: nat,
    of_ten: nat,
)
    requires
        gives_one_key(scale),
        two_tier_count(m, q, nearest_clusters(dists, m.k, 10), scale, count),
        one_tier_count(m, q, nearest_clusters(dists, m.k, 5), scale, of_five),
        one_tier_count(m, q, nearest_clusters(dists, m.k, 10), scale, of_ten),
    ensures
        count == if is_settled(of_five) {
            of_five
        } else {
            of_ten
        },
{
    let ten = nearest_clusters(dists, m.k, 10);
    let five = front(ten, 5);
    nearest_clusters_start_alike(dists, m.k, 5, 10);
    let fast = choose|fast: Seq<Neighbour>|
        #[trigger] scan_reaches(m, q, five, scale, no_neighbours(), fast) && if is_settled(
            frauds(fast),
        ) {
            count == frauds(fast)
        } else {
            exists|full: Seq<Neighbour>|
                #[trigger] scan_reaches(m, q, ten.skip(five.len() as int), scale, fast, full)
                    && count == frauds(full)
        };
    let best5 = choose|best: Seq<Neighbour>|
        #[trigger] scan_reaches(m, q, five, scale, no_neighbours(), best) && of_five == frauds(
            best,
        );
    searches_come_to_one_list(m, q, five, scale, no_neighbours(), fast, best5);
    if !is_settled(of_five) {
        let rest = ten.skip(five.len() as int);
        let full = choose|full: Seq<Neighbour>|
            #[trigger] scan_reaches(m, q, rest, scale, fast, full) && count == frauds(full);
        let best10 = choose|best: Seq<Neighbour>|
            #[trigger] scan_reaches(m, q, ten, scale, no_neighbours(), best) && of_ten == frauds(
                best,
            );
        searches_join(m, q, five, rest, scale, no_neighbours(), fast, full);
        assert(five + rest =~= ten);
        searches_come_to_one_list(m, q, ten, scale, no_neighbours(), full, best10);
    }
}

/// Where each sum of squares stands for one distance, a search of some clusters
/// counts one number of frauds.
pub proof fn searches_count_alike<F: Fn(u32) -> F32Bits>(
    m: DatasetModel,
    q: Seq<i16>,
    probes: Seq<usize>,
    scale: F,
    a: nat,
    b: nat,
)
    requires
        gives_one_key(scale),
        one_tier_count(m, q, probes, scale, a),
        one_tier_count(m, q, probes, scale, b),
    ensures
        a == b,
{
    let x = choose|best: Seq<Neighbour>|
        #[trigger] scan_reaches(m, q, probes, scale, no_neighbours(), best) && a == frauds(best);
    let y = choose|best: Seq<Neighbour>|
        #[trigger] scan_reaches(m, q, probes, scale, no_neighbours(), best) && b == frauds(best);
    searches_come_to_one_list(m, q, probes, scale, no_neighbours(), x, y);
}

/// Asking for more clusters than there are is asking for all.
pub proof fn more_clusters_than_all_are_all(dists: Seq<F32Bits>, k: nat, n: nat)
    requires
        k <= n,
        k <= dists.len(),
        k <= usize::MAX,
    ensures
        nearest_clusters(dists, k, n) == nearest_clusters(dists, k, k),
{
    ranked_clusters_are_all(dists, k);
    assert(nearest_clusters(dists, k, n) =~= nearest_clusters(dists, k, k));
}

} // verus!
