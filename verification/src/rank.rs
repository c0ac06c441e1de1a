//! Bounded lists of the nearest items.
//!
//! An item is kept with its distance, given as the bit pattern of a
//! single-precision number. Here are a list that is sorted at all times and drops
//! its last item for a nearer one, the first of all items in a stable sort, and
//! the stable sort by the total order.

use vstd::prelude::*;
use crate::float_bits::{F32Bits, float_less, is_nan, less, place, total_less, total_place};

verus! {

/// Where an item at distance `key` goes when it moves left from the end of `s`
/// past every item that is farther.
pub open spec fn slot<T>(s: Seq<(F32Bits, T)>, key: F32Bits) -> int
    decreases s.len(),
{
    if s.len() > 0 && less(key, s.last().0) {
        slot(s.drop_last(), key)
    } else {
        s.len() as int
    }
}

/// The list after `item` was offered to it: an item nearer than the last one
/// takes its place and moves left past all that are farther.
pub open spec fn offer<T>(best: Seq<(F32Bits, T)>, item: (F32Bits, T)) -> Seq<(F32Bits, T)> {
    if less(item.0, best.last().0) {
        best.drop_last().insert(slot(best.drop_last(), item.0), item)
    } else {
        best
    }
}

/// The list after all of `items` were offered to it, in their order.
pub open spec fn offer_all<T>(best: Seq<(F32Bits, T)>, items: Seq<(F32Bits, T)>) -> Seq<(F32Bits, T)>
    decreases items.len(),
{
    if items.len() == 0 {
        best
    } else {
        offer(offer_all(best, items.drop_last()), items.last())
    }
}

/// What the offers left behind: of each offer either the item itself or the
/// last one of the list, whose place it took.
pub open spec fn left_behind<T>(best: Seq<(F32Bits, T)>, items: Seq<(F32Bits, T)>) -> Seq<(F32Bits, T)>
    decreases items.len(),
{
    if items.len() == 0 {
        Seq::empty()
    } else {
        let before = offer_all(best, items.drop_last());
        let behind = left_behind(best, items.drop_last());
        if less(items.last().0, before.last().0) {
            behind.push(before.last())
        } else {
            behind.push(items.last())
        }
    }
}

/// No item is nearer than one to its left, and all distances are numbers.
pub open spec fn is_ranked<T>(s: Seq<(F32Bits, T)>) -> bool {
    &&& forall|i: int| 0 <= i < s.len() ==> !is_nan((#[trigger] s[i]).0)
    &&& forall|i: int, j: int|
        0 <= i < j < s.len() ==> place((#[trigger] s[i]).0) <= place((#[trigger] s[j]).0)
}

/// A slot lies within the list; all before it are at most as far, all from it
/// on are farther.
pub proof fn slot_splits<T>(s: Seq<(F32Bits, T)>, key: F32Bits)
    requires
        is_ranked(s),
        !is_nan(key),
    ensures
        0 <= slot(s, key) <= s.len(),
        forall|i: int| 0 <= i < slot(s, key) ==> place((#[trigger] s[i]).0) <= place(key),
        forall|i: int| slot(s, key) <= i < s.len() ==> place(key) < place((#[trigger] s[i]).0),
    decreases s.len(),
{
    if s.len() > 0 && less(key, s.last().0) {
        let t = s.drop_last();
        assert forall|i: int| 0 <= i < t.len() implies t[i] == s[i] by {}
        slot_splits(t, key);
    }
}

/// An offer keeps the list ranked and of its length, and never moves its last
/// item away.
pub proof fn offer_keeps_ranked<T>(best: Seq<(F32Bits, T)>, item: (F32Bits, T))
    requires
        is_ranked(best),
        best.len() > 0,
    ensures
        is_ranked(offer(best, item)),
        offer(best, item).len() == best.len(),
        place(offer(best, item).last().0) <= place(best.last().0),
{
    if less(item.0, best.last().0) {
        let t = best.drop_last();
        assert forall|i: int| 0 <= i < t.len() implies t[i] == best[i] by {}
        slot_splits(t, item.0);
        let p = slot(t, item.0);
        let r = t.insert(p, item);
        assert forall|i: int| 0 <= i < r.len() implies !is_nan((#[trigger] r[i]).0) by {
            assert(r[i] == if i < p { t[i] } else if i == p { item } else { t[i - 1] });
        }
        assert forall|i: int, j: int| 0 <= i < j < r.len() implies place((#[trigger] r[i]).0)
            <= place((#[trigger] r[j]).0) by {
            assert(r[i] == if i < p { t[i] } else if i == p { item } else { t[i - 1] });
            assert(r[j] == if j < p { t[j] } else if j == p { item } else { t[j - 1] });
        }
    }
}

/// The list keeps the nearest of all that it held and was offered: together
/// with what was left behind it is exactly those, it is ranked, and nothing
/// left behind is nearer than the last one kept.
pub proof fn offers_keep_the_nearest<T>(best: Seq<(F32Bits, T)>, items: Seq<(F32Bits, T)>)
    requires
        is_ranked(best),
        best.len() > 0,
    ensures
        is_ranked(offer_all(best, items)),
        offer_all(best, items).len() == best.len(),
        place(offer_all(best, items).last().0) <= place(best.last().0),
        (offer_all(best, items) + left_behind(best, items)).to_multiset() == (best
            + items).to_multiset(),
        forall|i: int|
            0 <= i < left_behind(best, items).len() ==> !less(
                (#[trigger] left_behind(best, items)[i]).0,
                offer_all(best, items).last().0,
            ),
    decreases items.len(),
{
    broadcast use vstd::seq_lib::group_to_multiset_ensures;
    if items.len() == 0 {
        assert(offer_all(best, items) + left_behind(best, items) =~= best + items);
    } else {
        let init = items.drop_last();
        offers_keep_the_nearest(best, init);
        let before = offer_all(best, init);
        let behind = left_behind(best, init);
        let item = items.last();
        let after = offer_all(best, items);
        let left = left_behind(best, items);
        offer_keeps_ranked(before, item);
        assert forall|i: int| 0 <= i < left.len() implies !less((#[trigger] left[i]).0, after.last().0) by {
            if i < behind.len() {
                assert(left[i] == behind[i]);
                assert(!less(behind[i].0, before.last().0));
            }
        }
        assert(best + items =~= (best + init).push(item));
        assert((best + items).to_multiset() =~= (best + init).to_multiset().insert(item));
        if less(item.0, before.last().0) {
            let t = before.drop_last();
            let p = slot(t, item.0);
            assert forall|i: int| 0 <= i < t.len() implies t[i] == before[i] by {}
            slot_splits(t, item.0);
            assert(after == t.insert(p, item));
            assert(before =~= t.push(before.last()));
            assert(after.to_multiset() =~= t.to_multiset().insert(item));
            assert(before.to_multiset() =~= t.to_multiset().insert(before.last()));
            assert(left.to_multiset() =~= behind.to_multiset().insert(before.last()));
            vstd::seq_lib::lemma_multiset_commutative(after, left);
            vstd::seq_lib::lemma_multiset_commutative(before, behind);
            assert((after + left).to_multiset() =~= (before + behind).to_multiset().insert(item));
        } else {
            assert(after + left =~= (before + behind).push(item));
        }
    }
}

/// Whatever holds of all that a list held and was offered holds of all in it.
pub proof fn offers_keep_what_holds<T>(
    best: Seq<(F32Bits, T)>,
    items: Seq<(F32Bits, T)>,
    holds: spec_fn((F32Bits, T)) -> bool,
)
    requires
        best.len() > 0,
        forall|i: int| 0 <= i < best.len() ==> holds(#[trigger] best[i]),
        forall|i: int| 0 <= i < items.len() ==> holds(#[trigger] items[i]),
    ensures
        offer_all(best, items).len() == best.len(),
        forall|i: int| 0 <= i < best.len() ==> holds(#[trigger] offer_all(best, items)[i]),
    decreases items.len(),
{
    if items.len() > 0 {
        let init = items.drop_last();
        offers_keep_what_holds(best, init, holds);
        let before = offer_all(best, init);
        let item = items.last();
        let after = offer_all(best, items);
        if less(item.0, before.last().0) {
            let t = before.drop_last();
            slot_within(t, item.0);
            let p = slot(t, item.0);
            assert forall|i: int| 0 <= i < best.len() implies holds(#[trigger] after[i]) by {
                assert(after[i] == if i < p { t[i] } else if i == p { item } else { t[i - 1] });
                if i < p {
                    assert(after[i] == before[i]);
                } else if i > p {
                    assert(after[i] == before[i - 1]);
                } else {
                    assert(holds(items[items.len() - 1]));
                }
            }
        }
    }
}

/// A slot lies within the list.
pub proof fn slot_within<T>(s: Seq<(F32Bits, T)>, key: F32Bits)
    ensures
        0 <= slot(s, key) <= s.len(),
    decreases s.len(),
{
    if s.len() > 0 && less(key, s.last().0) {
        slot_within(s.drop_last(), key);
    }
}

/// One more offer comes after all the others.
pub proof fn one_more_offer<T>(
    best: Seq<(F32Bits, T)>,
    items: Seq<(F32Bits, T)>,
    item: (F32Bits, T),
)
    ensures
        offer_all(best, items.push(item)) == offer(offer_all(best, items), item),
{
    assert(items.push(item).drop_last() =~= items);
}

/// Offers one item to the list: if it is nearer than the last one it takes its
/// place and moves left past all that are farther.
pub fn offer_item<T: Copy>(best: &mut Vec<(F32Bits, T)>, key: F32Bits, item: T)
    requires
        old(best)@.len() > 0,
    ensures
        final(best)@ == offer(old(best)@, (key, item)),
{
    let n: usize = best.len();
    if !float_less(key, best[n - 1].0) {
        return;
    }
    let ghost rest = best@.drop_last();
    best.set(n - 1, (key, item));
    assert(best@ =~= rest.insert(n - 1, (key, item)));
    assert(rest.take(n - 1) =~= rest);
    let mut j: usize = n - 1;
    while j > 0 && float_less(key, best[j - 1].0)
        invariant
            j < n,
            n == best@.len(),
            rest.len() == n - 1,
            best@ == rest.insert(j as int, (key, item)),
            slot(rest, key) == slot(rest.take(j as int), key),
        decreases j,
    {
        let moved: (F32Bits, T) = best[j - 1];
        assert(rest.take(j as int).drop_last() =~= rest.take(j - 1));
        best.set(j, moved);
        best.set(j - 1, (key, item));
        assert(best@ =~= rest.insert(j - 1, (key, item)));
        j = j - 1;
    }
    assert(j > 0 ==> best@[j - 1] == rest[j - 1]);
    assert(j > 0 ==> rest.take(j as int).last() == rest[j - 1]);
    assert(slot(rest.take(j as int), key) == j);
}

/// A list of `n` times the same filler.
pub fn filled<T: Copy>(n: usize, filler: (F32Bits, T)) -> (r: Vec<(F32Bits, T)>)
    ensures
        r@ == Seq::new(n as nat, |i: int| filler),
{
    let mut r: Vec<(F32Bits, T)> = Vec::new();
    let mut i: usize = 0;
    while i < n
        invariant
            i <= n,
            r@ == Seq::new(i as nat, |j: int| filler),
        decreases n - i,
    {
        r.push(filler);
        i = i + 1;
        assert(r@ =~= Seq::new(i as nat, |j: int| filler));
    }
    r
}

/// Where an item at distance `key` goes in a list that is sorted by the total
/// order, behind all that are not above it.
pub open spec fn total_slot<T>(s: Seq<(F32Bits, T)>, key: F32Bits) -> int
    decreases s.len(),
{
    if s.len() > 0 && total_place(key) < total_place(s.last().0) {
        total_slot(s.drop_last(), key)
    } else {
        s.len() as int
    }
}

/// The items sorted by the total order of their distances; equal ones stay in
/// their order.
pub open spec fn sorted_by_total<T>(s: Seq<(F32Bits, T)>) -> Seq<(F32Bits, T)>
    decreases s.len(),
{
    if s.len() == 0 {
        s
    } else {
        let r = sorted_by_total(s.drop_last());
        r.insert(total_slot(r, s.last().0), s.last())
    }
}

/// No item stands below one to its left.
pub open spec fn is_total_sorted<T>(s: Seq<(F32Bits, T)>) -> bool {
    forall|i: int, j: int|
        0 <= i < j < s.len() ==> total_place((#[trigger] s[i]).0) <= total_place(
            (#[trigger] s[j]).0,
        )
}

pub proof fn total_slot_splits<T>(s: Seq<(F32Bits, T)>, key: F32Bits)
    requires
        is_total_sorted(s),
    ensures
        0 <= total_slot(s, key) <= s.len(),
        forall|i: int|
            0 <= i < total_slot(s, key) ==> total_place((#[trigger] s[i]).0) <= total_place(key),
        forall|i: int|
            total_slot(s, key) <= i < s.len() ==> total_place(key) < total_place(
                (#[trigger] s[i]).0,
            ),
    decreases s.len(),
{
    if s.len() > 0 && total_place(key) < total_place(s.last().0) {
        let t = s.drop_last();
        assert forall|i: int| 0 <= i < t.len() implies t[i] == s[i] by {}
        total_slot_splits(t, key);
    }
}

/// Sorting reorders: the result holds the same items and is sorted.
pub proof fn sorting_reorders<T>(s: Seq<(F32Bits, T)>)
    ensures
        sorted_by_total(s).to_multiset() == s.to_multiset(),
        sorted_by_total(s).len() == s.len(),
        is_total_sorted(sorted_by_total(s)),
    decreases s.len(),
{
    broadcast use vstd::seq_lib::group_to_multiset_ensures;
    if s.len() > 0 {
        let t = s.drop_last();
        let item = s.last();
        sorting_reorders(t);
        let r = sorted_by_total(t);
        total_slot_splits(r, item.0);
        let p = total_slot(r, item.0);
        let q = r.insert(p, item);
        assert(s =~= t.push(item));
        assert forall|i: int, j: int| 0 <= i < j < q.len() implies total_place((#[trigger] q[i]).0)
            <= total_place((#[trigger] q[j]).0) by {
            assert(q[i] == if i < p { r[i] } else if i == p { item } else { r[i - 1] });
            assert(q[j] == if j < p { r[j] } else if j == p { item } else { r[j - 1] });
        }
    }
}

/// Sorts the items by the total order of their distances, keeping equal ones in
/// their order.
pub fn sort_by_total<T: Copy>(items: &[(F32Bits, T)]) -> (r: Vec<(F32Bits, T)>)
    ensures
        r@ == sorted_by_total(items@),
{
    let mut r: Vec<(F32Bits, T)> = Vec::new();
    let mut i: usize = 0;
    assert(items@.take(0) =~= Seq::empty());
    while i < items.len()
        invariant
            i <= items@.len(),
            r@ == sorted_by_total(items@.take(i as int)),
            r@.len() == i,
        decreases items@.len() - i,
    {
        let item: (F32Bits, T) = items[i];
        let ghost before = r@;
        let mut j: usize = r.len();
        proof {
            assert(items@.take(i + 1).drop_last() =~= items@.take(i as int));
            assert(before.take(j as int) =~= before);
        }
        while j > 0 && total_less(item.0, r[j - 1].0)
            invariant
                j <= r@.len(),
                r@ == before,
                total_slot(before, item.0) == total_slot(before.take(j as int), item.0),
            decreases j,
        {
            assert(before.take(j as int).drop_last() =~= before.take(j - 1));
            j = j - 1;
        }
        assert(j > 0 ==> before.take(j as int).last() == before[j - 1]);
        r.insert(j, item);
        i = i + 1;
    }
    assert(items@.take(i as int) =~= items@);
    r
}

/// The items sorted by their distances; equally far ones stay in their order.
pub open spec fn sorted_by_place<T>(s: Seq<(F32Bits, T)>) -> Seq<(F32Bits, T)>
    decreases s.len(),
{
    if s.len() == 0 {
        s
    } else {
        let r = sorted_by_place(s.drop_last());
        r.insert(slot(r, s.last().0), s.last())
    }
}

/// Inserting an item in its slot keeps a list ranked.
proof fn insert_keeps_ranked<T>(s: Seq<(F32Bits, T)>, item: (F32Bits, T))
    requires
        is_ranked(s),
        !is_nan(item.0),
    ensures
        is_ranked(s.insert(slot(s, item.0), item)),
{
    slot_splits(s, item.0);
    let p = slot(s, item.0);
    let q = s.insert(p, item);
    assert forall|i: int| 0 <= i < q.len() implies !is_nan((#[trigger] q[i]).0) by {
        assert(q[i] == if i < p { s[i] } else if i == p { item } else { s[i - 1] });
    }
    assert forall|i: int, j: int| 0 <= i < j < q.len() implies place((#[trigger] q[i]).0) <= place(
        (#[trigger] q[j]).0,
    ) by {
        assert(q[i] == if i < p { s[i] } else if i == p { item } else { s[i - 1] });
        assert(q[j] == if j < p { s[j] } else if j == p { item } else { s[j - 1] });
    }
}

/// Sorting by distance reorders: the result holds the same items and is ranked.
pub proof fn sorting_by_place_reorders<T>(s: Seq<(F32Bits, T)>)
    requires
        forall|i: int| 0 <= i < s.len() ==> !is_nan((#[trigger] s[i]).0),
    ensures
        sorted_by_place(s).to_multiset() == s.to_multiset(),
        sorted_by_place(s).len() == s.len(),
        is_ranked(sorted_by_place(s)),
    decreases s.len(),
{
    broadcast use vstd::seq_lib::group_to_multiset_ensures;

    if s.len() > 0 {
        let t = s.drop_last();
        let item = s.last();
        assert forall|i: int| 0 <= i < t.len() implies !is_nan((#[trigger] t[i]).0) by {
            assert(t[i] == s[i]);
        }
        assert(!is_nan(s[s.len() - 1].0));
        sorting_by_place_reorders(t);
        let r = sorted_by_place(t);
        slot_splits(r, item.0);
        insert_keeps_ranked(r, item);
        assert(s =~= t.push(item));
    }
}

/// The first `m` items, or all of them if there are fewer.
pub open spec fn front<T>(s: Seq<T>, m: nat) -> Seq<T> {
    if s.len() <= m {
        s
    } else {
        s.take(m as int)
    }
}

/// What stands in front after an insertion depends on what stood in front.
proof fn front_of_insertion<T>(s: Seq<(F32Bits, T)>, m: nat, item: (F32Bits, T))
    requires
        is_ranked(s),
        !is_nan(item.0),
    ensures
        front(s.insert(slot(s, item.0), item), m) == front(
            front(s, m).insert(slot(front(s, m), item.0), item),
            m,
        ),
{
    let f = front(s, m);
    slot_splits(s, item.0);
    let p = slot(s, item.0);
    if s.len() > m {
        assert forall|i: int| 0 <= i < f.len() implies f[i] == s[i] by {}
        assert(is_ranked(f));
        slot_splits(f, item.0);
        let q = slot(f, item.0);
        if p < m {
            if q < p {
                assert(place(item.0) < place(f[q].0));
            } else if p < q {
                assert(place(f[p].0) <= place(item.0));
            }
            assert(q == p);
        } else if q < m {
            assert(place(item.0) < place(f[q].0));
            assert(place(s[q].0) <= place(item.0));
        }
        assert(front(s.insert(p, item), m) =~= front(f.insert(q, item), m));
    }
}

/// Inserts an item in its slot and lets go of what no longer stands among the
/// first `m`.
fn insert_among<T: Copy>(best: &mut Vec<(F32Bits, T)>, m: usize, item: (F32Bits, T))
    requires
        old(best)@.len() <= m,
    ensures
        final(best)@ == front(
            old(best)@.insert(slot(old(best)@, item.0), item),
            m as nat,
        ),
{
    let n: usize = best.len();
    let ghost before = best@;
    proof {
        assert(before.take(n as int) =~= before);
        slot_within(before, item.0);
    }
    let mut j: usize = n;
    while j > 0 && float_less(item.0, best[j - 1].0)
        invariant
            j <= n,
            n == best@.len(),
            best@ == before,
            slot(before, item.0) == slot(before.take(j as int), item.0),
        decreases j,
    {
        assert(before.take(j as int).drop_last() =~= before.take(j - 1));
        j = j - 1;
    }
    assert(j > 0 ==> before.take(j as int).last() == before[j - 1]);
    assert(slot(before, item.0) == j);
    if j >= m {
        assert(before =~= front(before.insert(j as int, item), m as nat));
        return;
    }
    if n == m {
        best.truncate(n - 1);
        best.insert(j, item);
        assert(best@ =~= front(before.insert(j as int, item), m as nat));
    } else {
        best.insert(j, item);
    }
}

/// Finds the first `m` of all items when they are sorted by distance.
pub fn first_sorted<T: Copy>(items: &[(F32Bits, T)], m: usize) -> (r: Vec<(F32Bits, T)>)
    requires
        forall|i: int| 0 <= i < items@.len() ==> !is_nan((#[trigger] items@[i]).0),
    ensures
        r@ == front(sorted_by_place(items@), m as nat),
{
    let mut r: Vec<(F32Bits, T)> = Vec::new();
    let mut i: usize = 0;
    assert(items@.take(0) =~= Seq::empty());
    while i < items.len()
        invariant
            i <= items@.len(),
            forall|i: int| 0 <= i < items@.len() ==> !is_nan((#[trigger] items@[i]).0),
            r@ == front(sorted_by_place(items@.take(i as int)), m as nat),
        decreases items@.len() - i,
    {
        let item: (F32Bits, T) = items[i];
        proof {
            let t = items@.take(i as int);
            assert(items@.take(i + 1).drop_last() =~= t);
            sorting_by_place_reorders(t);
            front_of_insertion(sorted_by_place(t), m as nat, item);
        }
        insert_among(&mut r, m, item);
        i = i + 1;
    }
    assert(items@.take(i as int) =~= items@);
    r
}

/// The distances with their numbers.
pub open spec fn numbered(dists: Seq<F32Bits>, n: nat) -> Seq<(F32Bits, usize)> {
    Seq::new(n, |i: int| (dists[i], i as usize))
}

/// Reordering numbered distances neither loses a number nor gives one twice.
pub proof fn reordered_numbers(dists: Seq<F32Bits>, n: nat, r: Seq<(F32Bits, usize)>)
    requires
        n <= usize::MAX,
        r.to_multiset() == numbered(dists, n).to_multiset(),
    ensures
        r.len() == n,
        forall|i: int| 0 <= i < n ==> (#[trigger] r[i]).1 < n && r[i].0 == dists[r[i].1 as int],
        forall|i: int, j: int| 0 <= i < j < n ==> (#[trigger] r[i]).1 != (#[trigger] r[j]).1,
        forall|c: int| 0 <= c < n ==> r.contains((#[trigger] dists[c], c as usize)),
{
    broadcast use vstd::seq_lib::group_to_multiset_ensures;

    let all = numbered(dists, n);
    assert(r.to_multiset().len() == r.len());
    assert(all.to_multiset().len() == all.len());
    assert forall|i: int| 0 <= i < n implies (#[trigger] r[i]).1 < n && r[i].0
        == dists[r[i].1 as int] by {
        assert(r.to_multiset().count(r[i]) > 0);
        assert(all.contains(r[i]));
    }
    assert(all.no_duplicates());
    all.lemma_multiset_has_no_duplicates();
    r.lemma_multiset_has_no_duplicates_conv();
    assert forall|c: int| 0 <= c < n implies r.contains((#[trigger] dists[c], c as usize)) by {
        assert(all[c] == (dists[c], c as usize));
        assert(all.to_multiset().count(all[c]) > 0);
    }
}

} // verus!
