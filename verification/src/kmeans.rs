//! Clustering by k-means.
//!
//! Distances and averages are computed by functions that the caller hands in;
//! which centroid a vector goes to, where the seeds come from and when to stop
//! is decided here.

use vstd::prelude::*;
use crate::float_bits::{float_less, is_nan, less, place, F32Bits, MAX_FINITE};

verus! {

/// A vector, number by number.
pub type Row = [F32Bits; 14];

/// The smallest of some distances that is below the largest number, and where
/// it first stands; the largest number, at 0, if there is none.
pub open spec fn smallest(dists: Seq<F32Bits>) -> (F32Bits, int)
    decreases dists.len(),
{
    if dists.len() == 0 {
        (MAX_FINITE, 0)
    } else {
        let (best, at) = smallest(dists.drop_last());
        if less(dists.last(), best) {
            (dists.last(), dists.len() - 1)
        } else {
            (best, at)
        }
    }
}

/// The smallest distance is the smallest: no distance is below it, and those
/// before it are above it. Where none is below the largest number, it is the
/// largest number.
pub proof fn smallest_is_smallest(dists: Seq<F32Bits>)
    ensures
        !is_nan(smallest(dists).0),
        forall|i: int| 0 <= i < dists.len() ==> !less(#[trigger] dists[i], smallest(dists).0),
        (forall|i: int| 0 <= i < dists.len() ==> !less(#[trigger] dists[i], MAX_FINITE))
            <==> smallest(dists) == (MAX_FINITE, 0int),
        smallest(dists) != (MAX_FINITE, 0int) ==> {
            let (best, at) = smallest(dists);
            &&& 0 <= at < dists.len()
            &&& dists[at] == best
            &&& place(best) < place(MAX_FINITE)
            &&& forall|i: int| 0 <= i < at ==> less(best, #[trigger] dists[i]) || is_nan(dists[i])
        },
    decreases dists.len(),
{
    if dists.len() > 0 {
        let rest = dists.drop_last();
        smallest_is_smallest(rest);
        assert forall|i: int| 0 <= i < rest.len() implies rest[i] == dists[i] by {}
        let (best, at) = smallest(rest);
        assert(place(best) <= place(MAX_FINITE));
        assert forall|i: int| 0 <= i < dists.len() implies !less(
            #[trigger] dists[i],
            smallest(dists).0,
        ) by {
            if i < rest.len() {
                assert(!less(rest[i], best));
            }
        }
        if less(dists.last(), best) {
            assert(less(dists[dists.len() - 1], MAX_FINITE));
            assert forall|i: int| 0 <= i < rest.len() implies less(dists.last(), #[trigger] dists[i])
                || is_nan(dists[i]) by {
                assert(!less(rest[i], best));
            }
        } else if smallest(rest) != (MAX_FINITE, 0int) {
            assert(less(rest[at], MAX_FINITE));
            assert(less(dists[at], MAX_FINITE));
        } else {
            assert forall|i: int| 0 <= i < dists.len() implies !less(
                #[trigger] dists[i],
                MAX_FINITE,
            ) by {
                if i < rest.len() {
                    assert(!less(rest[i], MAX_FINITE));
                }
            }
        }
    }
}

/// `dists` may be the distances of a vector to centroids.
pub open spec fn are_distances<D: Fn(&Row, &Row) -> F32Bits>(
    dist: D,
    row: Row,
    centroids: Seq<Row>,
    dists: Seq<F32Bits>,
) -> bool {
    &&& dists.len() == centroids.len()
    &&& forall|c: int|
        0 <= c < centroids.len() ==> call_ensures(
            dist,
            (&row, &centroids[c]),
            #[trigger] dists[c],
        )
}

/// `found` may be the smallest distance of a vector to centroids and the
/// centroid that has it.
pub open spec fn is_nearest<D: Fn(&Row, &Row) -> F32Bits>(
    dist: D,
    row: Row,
    centroids: Seq<Row>,
    found: (F32Bits, int),
) -> bool {
    exists|dists: Seq<F32Bits>|
        #[trigger] are_distances(dist, row, centroids, dists) && found == smallest(dists)
}

/// Finds the smallest distance of a vector to centroids and the centroid that
/// has it.
pub fn nearest<D: Fn(&Row, &Row) -> F32Bits>(row: &Row, centroids: &Vec<Row>, dist: &D) -> (r: (
    F32Bits,
    usize,
))
    requires
        forall|a: &Row, b: &Row| call_requires(*dist, (a, b)),
    ensures
        is_nearest(*dist, *row, centroids@, (r.0, r.1 as int)),
        r.1 < centroids@.len() || r.1 == 0,
{
    let mut best: F32Bits = MAX_FINITE;
    let mut at: usize = 0;
    let mut c: usize = 0;
    let ghost mut dists = Seq::<F32Bits>::empty();
    while c < centroids.len()
        invariant
            c <= centroids@.len(),
            forall|a: &Row, b: &Row| call_requires(*dist, (a, b)),
            are_distances(*dist, *row, centroids@.take(c as int), dists),
            smallest(dists) == (best, at as int),
            at < c || at == 0,
        decreases centroids@.len() - c,
    {
        let d: F32Bits = dist(row, &centroids[c]);
        proof {
            let more = dists.push(d);
            assert(more.drop_last() =~= dists);
            assert(are_distances(*dist, *row, centroids@.take(c + 1), more));
            dists = more;
        }
        if float_less(d, best) {
            best = d;
            at = c;
        }
        c = c + 1;
    }
    assert(centroids@.take(c as int) =~= centroids@);
    (best, at)
}

/// The lowest 16 bits of a number.
pub open spec fn low16(x: int) -> u16 {
    (x % 0x1_0000) as u16
}

/// `best` may be the centroids that vectors are nearest to.
pub open spec fn are_nearest<D: Fn(&Row, &Row) -> F32Bits>(
    dist: D,
    rows: Seq<Row>,
    centroids: Seq<Row>,
    best: Seq<int>,
) -> bool {
    &&& best.len() == rows.len()
    &&& forall|i: int|
        0 <= i < rows.len() ==> nearest_at(dist, rows[i], centroids, #[trigger] best[i])
}

/// `c` may be the centroid that a vector is nearest to.
pub open spec fn nearest_at<D: Fn(&Row, &Row) -> F32Bits>(
    dist: D,
    row: Row,
    centroids: Seq<Row>,
    c: int,
) -> bool {
    exists|d: F32Bits| #[trigger] is_nearest(dist, row, centroids, (d, c))
}

/// The number of vectors that go to another centroid than before.
pub open spec fn moved(before: Seq<u16>, best: Seq<int>) -> nat
    decreases best.len(),
{
    if best.len() == 0 {
        0
    } else {
        moved(before, best.drop_last()) + if before[best.len() - 1] != best.last() {
            1nat
        } else {
            0nat
        }
    }
}

/// Vectors went to their nearest centroids, and `changed` of them moved.
pub open spec fn is_assignment<D: Fn(&Row, &Row) -> F32Bits>(
    dist: D,
    rows: Seq<Row>,
    centroids: Seq<Row>,
    before: Seq<u16>,
    after: Seq<u16>,
    changed: nat,
) -> bool {
    exists|best: Seq<int>|
        #[trigger] are_nearest(dist, rows, centroids, best) && assigns(before, after, best)
            && changed == moved(before, best)
}

/// The first vectors are assigned to these centroids, by 16 bits; the others
/// stay.
pub open spec fn assigns(before: Seq<u16>, after: Seq<u16>, best: Seq<int>) -> bool {
    &&& after.len() == before.len()
    &&& forall|i: int| 0 <= i < best.len() ==> (#[trigger] after[i]) == low16(best[i])
    &&& forall|i: int| best.len() <= i < after.len() ==> (#[trigger] after[i]) == before[i]
}

/// Assigns every vector to its nearest centroid, and counts those that moved.
pub fn assign_all<D: Fn(&Row, &Row) -> F32Bits>(
    vectors: &[Row],
    centroids: &Vec<Row>,
    assignments: &mut Vec<u16>,
    dist: &D,
) -> (changed: usize)
    requires
        vectors@.len() <= old(assignments)@.len(),
        forall|a: &Row, b: &Row| call_requires(*dist, (a, b)),
    ensures
        is_assignment(
            *dist,
            vectors@,
            centroids@,
            old(assignments)@,
            final(assignments)@,
            changed as nat,
        ),
        changed <= vectors@.len(),
        forall|i: int|
            0 <= i < vectors@.len() ==> (#[trigger] final(assignments)@[i]) < centroids@.len()
                || final(assignments)@[i] == 0,
{
    let ghost before = assignments@;
    let ghost mut best = Seq::<int>::empty();
    let mut changed: usize = 0;
    let mut i: usize = 0;
    while i < vectors.len()
        invariant
            i <= vectors@.len() <= before.len(),
            forall|a: &Row, b: &Row| call_requires(*dist, (a, b)),
            are_nearest(*dist, vectors@.take(i as int), centroids@, best),
            assigns(before, assignments@, best),
            changed == moved(before, best),
            changed <= i,
            forall|j: int|
                0 <= j < i ==> (#[trigger] best[j]) < centroids@.len() || best[j] == 0,
            forall|j: int| 0 <= j < i ==> 0 <= #[trigger] best[j],
        decreases vectors@.len() - i,
    {
        let found: (F32Bits, usize) = nearest(&vectors[i], centroids, dist);
        let c: usize = found.1;
        proof {
            let more = best.push(c as int);
            assert(more.drop_last() =~= best);
            assert(is_nearest(*dist, vectors@[i as int], centroids@, (found.0, c as int)));
            assert(nearest_at(*dist, vectors@[i as int], centroids@, c as int));
            assert(are_nearest(*dist, vectors@.take(i + 1), centroids@, more));
            best = more;
        }
        if assignments[i] as usize != c {
            changed = changed + 1;
            assignments.set(i, (c % 0x1_0000) as u16);
        }
        i = i + 1;
    }
    assert(vectors@.take(i as int) =~= vectors@);
    changed
}

/// A function gives one distance for each pair of vectors.
pub open spec fn gives_one_distance<D: Fn(&Row, &Row) -> F32Bits>(dist: D) -> bool {
    forall|a: Row, b: Row, x: F32Bits, y: F32Bits|
        #[trigger] call_ensures(dist, (&a, &b), x) && #[trigger] call_ensures(dist, (&a, &b), y)
            ==> x == y
}

/// Where each pair has one distance, a vector has one nearest centroid.
pub proof fn one_nearest<D: Fn(&Row, &Row) -> F32Bits>(
    dist: D,
    row: Row,
    centroids: Seq<Row>,
    c: int,
    e: int,
)
    requires
        gives_one_distance(dist),
        nearest_at(dist, row, centroids, c),
        nearest_at(dist, row, centroids, e),
    ensures
        c == e,
        0 <= c < centroids.len() || c == 0,
{
    let d1 = choose|d: F32Bits| #[trigger] is_nearest(dist, row, centroids, (d, c));
    let d2 = choose|d: F32Bits| #[trigger] is_nearest(dist, row, centroids, (d, e));
    let dists1 = choose|dists: Seq<F32Bits>|
        #[trigger] are_distances(dist, row, centroids, dists) && (d1, c) == smallest(dists);
    let dists2 = choose|dists: Seq<F32Bits>|
        #[trigger] are_distances(dist, row, centroids, dists) && (d2, e) == smallest(dists);
    assert forall|j: int| 0 <= j < dists1.len() implies dists1[j] == dists2[j] by {
        assert(call_ensures(dist, (&row, &centroids[j]), dists1[j]));
        assert(call_ensures(dist, (&row, &centroids[j]), dists2[j]));
    }
    assert(dists1 =~= dists2);
    smallest_is_smallest(dists1);
}

/// Where all vectors are at their centroids, none moved.
proof fn none_moved(before: Seq<u16>, best: Seq<int>)
    requires
        best.len() <= before.len(),
        forall|i: int| 0 <= i < best.len() ==> before[i] == #[trigger] best[i],
    ensures
        moved(before, best) == 0,
    decreases best.len(),
{
    if best.len() > 0 {
        let rest = best.drop_last();
        assert forall|i: int| 0 <= i < rest.len() implies before[i] == #[trigger] rest[i] by {
            assert(rest[i] == best[i]);
        }
        none_moved(before, rest);
        assert(before[best.len() - 1] == best[best.len() - 1]);
    }
}

/// Assigning twice changes nothing: where each pair of vectors has one distance,
/// a second assignment to the same centroids moves no vector.
pub proof fn assigning_twice_changes_nothing<D: Fn(&Row, &Row) -> F32Bits>(
    dist: D,
    rows: Seq<Row>,
    centroids: Seq<Row>,
    before: Seq<u16>,
    between: Seq<u16>,
    after: Seq<u16>,
    changed: nat,
    changed_again: nat,
)
    requires
        gives_one_distance(dist),
        rows.len() <= before.len(),
        centroids.len() <= 0x1_0000,
        is_assignment(dist, rows, centroids, before, between, changed),
        is_assignment(dist, rows, centroids, between, after, changed_again),
    ensures
        changed_again == 0,
        after == between,
{
    let best1 = choose|best: Seq<int>|
        #[trigger] are_nearest(dist, rows, centroids, best) && assigns(before, between, best)
            && changed == moved(before, best);
    let best2 = choose|best: Seq<int>|
        #[trigger] are_nearest(dist, rows, centroids, best) && assigns(between, after, best)
            && changed_again == moved(between, best);
    assert forall|i: int| 0 <= i < rows.len() implies best1[i] == #[trigger] best2[i] && between[i]
        == best2[i] && after[i] == between[i] by {
        assert(nearest_at(dist, rows[i], centroids, best1[i]));
        assert(nearest_at(dist, rows[i], centroids, best2[i]));
        one_nearest(dist, rows[i], centroids, best1[i], best2[i]);
        assert(between[i] == low16(best1[i]));
        assert(after[i] == low16(best2[i]));
    }
    none_moved(between, best2);
    assert forall|i: int| 0 <= i < after.len() implies after[i] == between[i] by {
        if i < rows.len() {
            assert(best1[i] == best2[i]);
        }
    }
    assert(after =~= between);
}

/// The vectors that are assigned to a centroid, in their order.
pub open spec fn cluster_rows(rows: Seq<Row>, assignments: Seq<usize>, c: int) -> Seq<Row>
    decreases assignments.len(),
{
    if assignments.len() == 0 {
        Seq::empty()
    } else {
        let rest = cluster_rows(rows, assignments.drop_last(), c);
        if assignments.last() == c {
            rest.push(rows[assignments.len() - 1])
        } else {
            rest
        }
    }
}

/// A row of zeros.
pub open spec fn zero_row() -> Seq<F32Bits> {
    Seq::new(14, |d: int| 0u32)
}

/// `centroid` may be the average of some vectors; that of none is zero.
pub open spec fn is_average<M: Fn(&Vec<Row>) -> Row>(mean: M, rows: Seq<Row>, centroid: Row) -> bool {
    if rows.len() == 0 {
        centroid@ == zero_row()
    } else {
        exists|v: Vec<Row>| v@ == rows && #[trigger] call_ensures(mean, (&v,), centroid)
    }
}

/// `centroids` may be the averages of the vectors that are assigned to them.
pub open spec fn are_averages<M: Fn(&Vec<Row>) -> Row>(
    mean: M,
    rows: Seq<Row>,
    assignments: Seq<usize>,
    centroids: Seq<Row>,
) -> bool {
    forall|c: int|
        0 <= c < centroids.len() ==> is_average(
            mean,
            cluster_rows(rows, assignments, c),
            #[trigger] centroids[c],
        )
}

/// Groups the vectors by the centroid that they are assigned to.
fn group(vectors: &[Row], assignments: &Vec<usize>, k: usize) -> (r: Vec<Vec<Row>>)
    requires
        assignments@.len() <= vectors@.len(),
        forall|i: int| 0 <= i < assignments@.len() ==> (#[trigger] assignments@[i]) < k,
    ensures
        r@.len() == k,
        forall|c: int|
            0 <= c < k ==> (#[trigger] r@[c])@ == cluster_rows(vectors@, assignments@, c),
{
    let mut r: Vec<Vec<Row>> = Vec::new();
    let mut c: usize = 0;
    while c < k
        invariant
            c <= k,
            r@.len() == c,
            forall|j: int|
                0 <= j < c ==> (#[trigger] r@[j])@ == cluster_rows(
                    vectors@,
                    assignments@.take(0),
                    j,
                ),
        decreases k - c,
    {
        r.push(Vec::new());
        assert(r@[c as int]@ =~= cluster_rows(vectors@, assignments@.take(0), c as int));
        c = c + 1;
    }
    let mut i: usize = 0;
    while i < assignments.len()
        invariant
            i <= assignments@.len() <= vectors@.len(),
            forall|i: int| 0 <= i < assignments@.len() ==> (#[trigger] assignments@[i]) < k,
            r@.len() == k,
            forall|c: int|
                0 <= c < k ==> (#[trigger] r@[c])@ == cluster_rows(
                    vectors@,
                    assignments@.take(i as int),
                    c,
                ),
        decreases assignments@.len() - i,
    {
        let a: usize = assignments[i];
        let ghost before = r@;
        r[a].push(vectors[i]);
        proof {
            assert(assignments@.take(i + 1).drop_last() =~= assignments@.take(i as int));
            assert forall|c: int| 0 <= c < k implies (#[trigger] r@[c])@ == cluster_rows(
                vectors@,
                assignments@.take(i + 1),
                c,
            ) by {
                assert(before[c]@ == cluster_rows(vectors@, assignments@.take(i as int), c));
            }
        }
        i = i + 1;
    }
    assert(assignments@.take(i as int) =~= assignments@);
    r
}

/// Moves every centroid to the average of the vectors that are assigned to it.
pub fn update_centroids<M: Fn(&Vec<Row>) -> Row>(
    vectors: &[Row],
    assignments: &Vec<usize>,
    k: usize,
    mean: &M,
) -> (r: Vec<Row>)
    requires
        assignments@.len() <= vectors@.len(),
        forall|i: int| 0 <= i < assignments@.len() ==> (#[trigger] assignments@[i]) < k,
        forall|v: &Vec<Row>| call_requires(*mean, (v,)),
    ensures
        r@.len() == k,
        are_averages(*mean, vectors@, assignments@, r@),
{
    let groups: Vec<Vec<Row>> = group(vectors, assignments, k);
    let mut r: Vec<Row> = Vec::new();
    let mut c: usize = 0;
    while c < k
        invariant
            c <= k,
            groups@.len() == k,
            forall|c: int|
                0 <= c < k ==> (#[trigger] groups@[c])@ == cluster_rows(vectors@, assignments@, c),
            forall|v: &Vec<Row>| call_requires(*mean, (v,)),
            r@.len() == c,
            are_averages(*mean, vectors@, assignments@, r@),
        decreases k - c,
    {
        let rows: &Vec<Row> = &groups[c];
        let centroid: Row = if rows.len() == 0 {
            [0; 14]
        } else {
            mean(rows)
        };
        proof {
            if rows@.len() == 0 {
                assert(centroid@ =~= zero_row());
            } else {
                assert(call_ensures(*mean, (rows,), centroid));
            }
        }
        r.push(centroid);
        c = c + 1;
    }
    r
}

/// Assignments by 16 bits, as positions.
pub open spec fn widened(assignments: Seq<u16>) -> Seq<usize> {
    assignments.map_values(|a: u16| a as usize)
}

fn widen(assignments: &Vec<u16>) -> (r: Vec<usize>)
    ensures
        r@ == widened(assignments@),
{
    let mut r: Vec<usize> = Vec::new();
    let mut i: usize = 0;
    while i < assignments.len()
        invariant
            i <= assignments@.len(),
            r@ == widened(assignments@).take(i as int),
        decreases assignments@.len() - i,
    {
        r.push(assignments[i] as usize);
        i = i + 1;
        assert(r@ =~= widened(assignments@).take(i as int));
    }
    assert(r@ =~= widened(assignments@));
    r
}

/// Centroids, and the centroids that vectors are assigned to.
pub ghost struct Clusters {
    pub centroids: Seq<Row>,
    pub assignments: Seq<u16>,
}

/// One round of clustering: vectors go to their nearest centroids, and centroids
/// to the averages of their vectors.
pub open spec fn is_round<D: Fn(&Row, &Row) -> F32Bits, M: Fn(&Vec<Row>) -> Row>(
    dist: D,
    mean: M,
    rows: Seq<Row>,
    before: Clusters,
    after: Clusters,
    changed: nat,
) -> bool {
    &&& is_assignment(
        dist,
        rows,
        before.centroids,
        before.assignments,
        after.assignments,
        changed,
    )
    &&& after.centroids.len() == before.centroids.len()
    &&& are_averages(mean, rows, widened(after.assignments), after.centroids)
}

/// Fewer than one vector in a thousand moved.
pub open spec fn is_settled(changed: nat, n: nat) -> bool {
    changed * 1000 < n
}

/// A run of rounds: one after the other, until the clusters are settled or there
/// were enough rounds.
pub open spec fn is_run<D: Fn(&Row, &Row) -> F32Bits, M: Fn(&Vec<Row>) -> Row>(
    dist: D,
    mean: M,
    rows: Seq<Row>,
    states: Seq<Clusters>,
    changes: Seq<nat>,
    rounds: nat,
) -> bool {
    &&& follow_each_other(dist, mean, rows, states, changes)
    &&& changes.len() <= rounds
    &&& forall|t: int|
        0 <= t < changes.len() - 1 ==> !is_settled(#[trigger] changes[t], rows.len())
    &&& changes.len() == rounds || (changes.len() > 0 && is_settled(changes.last(), rows.len()))
}

/// Each state comes from the one before by a round.
pub open spec fn follow_each_other<D: Fn(&Row, &Row) -> F32Bits, M: Fn(&Vec<Row>) -> Row>(
    dist: D,
    mean: M,
    rows: Seq<Row>,
    states: Seq<Clusters>,
    changes: Seq<nat>,
) -> bool {
    &&& states.len() == changes.len() + 1
    &&& forall|t: int|
        0 <= t < changes.len() ==> is_round(
            dist,
            mean,
            rows,
            states[t],
            states[t + 1],
            #[trigger] changes[t],
        )
}

/// Clusters may come out of at most so many rounds from these seeds, with all
/// vectors assigned to the first at the start.
pub open spec fn clusters_come_out<D: Fn(&Row, &Row) -> F32Bits, M: Fn(&Vec<Row>) -> Row>(
    dist: D,
    mean: M,
    rows: Seq<Row>,
    seeds: Seq<Row>,
    rounds: nat,
    out: Clusters,
) -> bool {
    exists|states: Seq<Clusters>, changes: Seq<nat>|
        #[trigger] is_run(dist, mean, rows, states, changes, rounds) && states[0] == Clusters {
            centroids: seeds,
            assignments: Seq::new(rows.len(), |i: int| 0u16),
        } && states.last() == out
}

/// Clusters vectors around seeds.
pub fn cluster<D: Fn(&Row, &Row) -> F32Bits, M: Fn(&Vec<Row>) -> Row>(
    vectors: &[Row],
    seeds: Vec<Row>,
    rounds: usize,
    dist: &D,
    mean: &M,
) -> (r: (Vec<Row>, Vec<u16>))
    requires
        seeds@.len() > 0,
        vectors@.len() * 1000 <= usize::MAX,
        forall|a: &Row, b: &Row| call_requires(*dist, (a, b)),
        forall|v: &Vec<Row>| call_requires(*mean, (v,)),
    ensures
        clusters_come_out(
            *dist,
            *mean,
            vectors@,
            seeds@,
            rounds as nat,
            (Clusters { centroids: r.0@, assignments: r.1@ }),
        ),
        r.0@.len() == seeds@.len(),
        r.1@.len() == vectors@.len(),
        forall|i: int| 0 <= i < vectors@.len() ==> (#[trigger] r.1@[i]) < seeds@.len(),
{
    let n: usize = vectors.len();
    let k: usize = seeds.len();
    let ghost first = seeds@;
    let mut centroids: Vec<Row> = seeds;
    let mut assignments: Vec<u16> = Vec::new();
    let mut i: usize = 0;
    while i < n
        invariant
            i <= n,
            assignments@ == Seq::new(i as nat, |i: int| 0u16),
        decreases n - i,
    {
        assignments.push(0);
        i = i + 1;
        assert(assignments@ =~= Seq::new(i as nat, |i: int| 0u16));
    }
    let ghost start = Clusters { centroids: first, assignments: assignments@ };
    let ghost mut states = seq![start];
    let ghost mut changes = Seq::<nat>::empty();
    let mut round: usize = 0;
    let mut settled: bool = false;
    while round < rounds && !settled
        invariant
            round <= rounds,
            n == vectors@.len(),
            n * 1000 <= usize::MAX,
            k > 0,
            centroids@.len() == k,
            assignments@.len() == n,
            forall|i: int| 0 <= i < n ==> (#[trigger] assignments@[i]) < k,
            forall|a: &Row, b: &Row| call_requires(*dist, (a, b)),
            forall|v: &Vec<Row>| call_requires(*mean, (v,)),
            changes.len() == round,
            follow_each_other(*dist, *mean, vectors@, states, changes),
            states[0] == start,
            states.last() == (Clusters { centroids: centroids@, assignments: assignments@ }),
            forall|t: int|
                0 <= t < changes.len() - 1 ==> !is_settled(#[trigger] changes[t], n as nat),
            settled == (changes.len() > 0 && is_settled(changes.last(), n as nat)),
        decreases rounds - round,
    {
        let changed: usize = assign_all(vectors, &centroids, &mut assignments, dist);
        let ghost old_states = states;
        let ghost old_changes = changes;
        let wide: Vec<usize> = widen(&assignments);
        centroids = update_centroids(vectors, &wide, k, mean);
        proof {
            let after = Clusters { centroids: centroids@, assignments: assignments@ };
            states = old_states.push(after);
            changes = old_changes.push(changed as nat);
            assert(is_round(*dist, *mean, vectors@, old_states.last(), after, changed as nat));
            assert forall|t: int| 0 <= t < changes.len() implies is_round(
                *dist,
                *mean,
                vectors@,
                states[t],
                states[t + 1],
                #[trigger] changes[t],
            ) by {
                if t < old_changes.len() {
                    assert(changes[t] == old_changes[t]);
                    assert(states[t] == old_states[t] && states[t + 1] == old_states[t + 1]);
                }
            }
            assert forall|t: int| 0 <= t < changes.len() - 1 implies !is_settled(
                #[trigger] changes[t],
                n as nat,
            ) by {
                assert(changes[t] == old_changes[t]);
                if t == old_changes.len() - 1 {
                    assert(old_changes.last() == old_changes[t]);
                }
            }
        }
        settled = changed * 1000 < n;
        round = round + 1;
    }
    assert(is_run(*dist, *mean, vectors@, states, changes, rounds as nat));
    (centroids, assignments)
}

} // verus!
