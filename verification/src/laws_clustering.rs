//! What clustering does with the vectors.

use vstd::prelude::*;
use crate::engine_clusters::{
    are_at_nearest, are_moves, are_seed_rounds, are_weights, bits, centroids_come_out, clusters_of,
    has_move, has_round, is_anywhere, is_hit, is_seed_round, is_weight, rows_at, Drawn, Refined,
};
use crate::float_bits::{is_nan, less, F32Bits, MAX_FINITE};
use crate::kmeans::{are_averages, are_distances, are_nearest, assigns, cluster_rows, clusters_come_out, gives_one_distance, is_assignment, is_average, is_nearest, is_round, is_run, low16, moved, nearest_at, one_nearest, smallest, smallest_is_smallest, widened, Clusters, Row};
use crate::seeding::{are_relaxed, first_free, first_reached, is_draw, is_seeding, random, relaxes_to, seeds_come_out, SEED};

verus! {

/// `at` are all positions that are assigned to cluster `c`, in ascending order.
pub open spec fn are_assigned(assignments: Seq<usize>, c: int, at: Seq<int>) -> bool {
    &&& forall|j: int|
        0 <= j < at.len() ==> 0 <= (#[trigger] at[j]) < assignments.len() && assignments[at[j]] == c
    &&& forall|i: int, j: int| 0 <= i < j < at.len() ==> (#[trigger] at[i]) < (#[trigger] at[j])
    &&& forall|i: int|
        0 <= i < assignments.len() && #[trigger] assignments[i] == c ==> at.contains(i)
}

/// The vectors that are averaged for a cluster are all those that are assigned
/// to it, each once and in their order.
pub proof fn all_assigned_vectors_are_averaged(rows: Seq<Row>, assignments: Seq<usize>, c: int)
    ensures
        exists|at: Seq<int>|
            #[trigger] are_assigned(assignments, c, at) && cluster_rows(rows, assignments, c)
                == at.map_values(|i: int| rows[i]),
    decreases assignments.len(),
{
    if assignments.len() == 0 {
        let at = Seq::<int>::empty();
        assert(are_assigned(assignments, c, at));
        assert(cluster_rows(rows, assignments, c) =~= at.map_values(|i: int| rows[i]));
    } else {
        let rest = assignments.drop_last();
        let n = rest.len() as int;
        all_assigned_vectors_are_averaged(rows, rest, c);
        let before = choose|at: Seq<int>|
            #[trigger] are_assigned(rest, c, at) && cluster_rows(rows, rest, c) == at.map_values(
                |i: int| rows[i],
            );
        let at = if assignments.last() == c {
            before.push(n)
        } else {
            before
        };
        assert forall|j: int| 0 <= j < at.len() implies 0 <= (#[trigger] at[j]) < assignments.len()
            && assignments[at[j]] == c by {
            if j < before.len() {
                assert(at[j] == before[j]);
                assert(assignments[at[j]] == rest[at[j]]);
            }
        }
        assert forall|i: int, j: int| 0 <= i < j < at.len() implies (#[trigger] at[i]) < (
        #[trigger] at[j]) by {
            assert(at[i] == before[i]);
            if j < before.len() {
                assert(at[j] == before[j]);
            }
        }
        assert forall|i: int|
            0 <= i < assignments.len() && #[trigger] assignments[i] == c implies at.contains(i) by {
            if i < n {
                assert(rest[i] == c);
                let j = choose|j: int| 0 <= j < before.len() && before[j] == i;
                assert(at[j] == i);
            } else {
                assert(at[before.len() as int] == i);
            }
        }
        assert(are_assigned(assignments, c, at));
        assert(cluster_rows(rows, assignments, c) =~= at.map_values(|i: int| rows[i]));
    }
}

/// A centroid is moved to the average of all vectors that are assigned to it,
/// and to the origin if there are none.
pub proof fn centroids_move_to_the_average_of_all<M: Fn(&Vec<Row>) -> Row>(
    mean: M,
    rows: Seq<Row>,
    assignments: Seq<usize>,
    centroids: Seq<Row>,
    c: int,
)
    requires
        are_averages(mean, rows, assignments, centroids),
        0 <= c < centroids.len(),
    ensures
        exists|at: Seq<int>|
            #[trigger] are_assigned(assignments, c, at) && if at.len() == 0 {
                forall|d: int| 0 <= d < 14 ==> (#[trigger] centroids[c]@[d]) == 0
            } else {
                exists|v: Vec<Row>|
                    v@ == at.map_values(|i: int| rows[i]) && #[trigger] call_ensures(
                        mean,
                        (&v,),
                        centroids[c],
                    )
            },
{
    all_assigned_vectors_are_averaged(rows, assignments, c);
    let own = cluster_rows(rows, assignments, c);
    let at = choose|at: Seq<int>|
        #[trigger] are_assigned(assignments, c, at) && own == at.map_values(|i: int| rows[i]);
    assert(own.len() == at.len());
    assert(is_average(mean, own, centroids[c]));
    if at.len() > 0 {
        let v = choose|v: Vec<Row>| v@ == own && #[trigger] call_ensures(mean, (&v,), centroids[c]);
        assert(call_ensures(mean, (&v,), centroids[c]));
    }
}

/// The number of vectors that are averaged for the first `k` clusters.
pub open spec fn averaged(rows: Seq<Row>, assignments: Seq<usize>, k: nat) -> nat
    decreases k,
{
    if k == 0 {
        0
    } else {
        averaged(rows, assignments, (k - 1) as nat) + cluster_rows(rows, assignments, k - 1).len()
    }
}

proof fn one_more_is_averaged(rows: Seq<Row>, assignments: Seq<usize>, k: nat)
    requires
        assignments.len() > 0,
    ensures
        averaged(rows, assignments, k) == averaged(rows, assignments.drop_last(), k)
            + if assignments.last() < k {
            1nat
        } else {
            0nat
        },
    decreases k,
{
    if k > 0 {
        one_more_is_averaged(rows, assignments, (k - 1) as nat);
    }
}

/// Over all clusters as many vectors are averaged as there are assignments.
pub proof fn no_vector_is_left_out_of_all_averages(
    rows: Seq<Row>,
    assignments: Seq<usize>,
    k: nat,
)
    requires
        forall|i: int| 0 <= i < assignments.len() ==> (#[trigger] assignments[i]) < k,
    ensures
        averaged(rows, assignments, k) == assignments.len(),
    decreases assignments.len(),
{
    if assignments.len() == 0 {
        nothing_is_averaged(rows, assignments, k);
    } else {
        let rest = assignments.drop_last();
        assert forall|i: int| 0 <= i < rest.len() implies (#[trigger] rest[i]) < k by {
            assert(rest[i] == assignments[i]);
        }
        assert(assignments[assignments.len() - 1] < k);
        no_vector_is_left_out_of_all_averages(rows, rest, k);
        one_more_is_averaged(rows, assignments, k);
    }
}

proof fn nothing_is_averaged(rows: Seq<Row>, assignments: Seq<usize>, k: nat)
    requires
        assignments.len() == 0,
    ensures
        averaged(rows, assignments, k) == 0,
    decreases k,
{
    if k > 0 {
        nothing_is_averaged(rows, assignments, (k - 1) as nat);
    }
}

/// The centroid that a vector is nearest to is nearest: no centroid is nearer,
/// and those before it are farther.
pub proof fn nearest_centroids_are_nearest<D: Fn(&Row, &Row) -> F32Bits>(
    dist: D,
    row: Row,
    centroids: Seq<Row>,
    c: int,
    e: int,
    x: F32Bits,
)
    requires
        gives_one_distance(dist),
        nearest_at(dist, row, centroids, c),
        0 <= e < centroids.len(),
        call_ensures(dist, (&row, &centroids[e]), x),
        less(x, MAX_FINITE),
    ensures
        0 <= c < centroids.len(),
        exists|y: F32Bits|
            #[trigger] call_ensures(dist, (&row, &centroids[c]), y) && !less(x, y) && !is_nan(y) && (
            e < c ==> less(y, x)),
{
    let d = choose|d: F32Bits| #[trigger] is_nearest(dist, row, centroids, (d, c));
    let dists = choose|dists: Seq<F32Bits>|
        #[trigger] are_distances(dist, row, centroids, dists) && (d, c) == smallest(dists);
    smallest_is_smallest(dists);
    assert(call_ensures(dist, (&row, &centroids[e]), dists[e]));
    assert(dists[e] == x);
    assert(less(dists[e], MAX_FINITE));
    assert(call_ensures(dist, (&row, &centroids[c]), dists[c]));
}

/// An assignment gives every vector its nearest centroid, and counts those that
/// got another than before.
pub proof fn assignments_are_to_the_nearest<D: Fn(&Row, &Row) -> F32Bits>(
    dist: D,
    rows: Seq<Row>,
    centroids: Seq<Row>,
    before: Seq<u16>,
    after: Seq<u16>,
    changed: nat,
    i: int,
)
    requires
        gives_one_distance(dist),
        is_assignment(dist, rows, centroids, before, after, changed),
        0 < centroids.len() <= 0x1_0000,
        rows.len() <= before.len(),
        0 <= i < rows.len(),
    ensures
        after.len() == before.len(),
        nearest_at(dist, rows[i], centroids, after[i] as int),
        changed == Seq::new(rows.len(), |j: int| before[j] != after[j]).to_multiset().count(true),
        forall|j: int| rows.len() <= j < before.len() ==> (#[trigger] after[j]) == before[j],
{
    let best = choose|best: Seq<int>|
        #[trigger] are_nearest(dist, rows, centroids, best) && assigns(before, after, best)
            && changed == moved(before, best);
    assert forall|j: int| 0 <= j < rows.len() implies 0 <= (#[trigger] best[j]) < centroids.len()
        && after[j] == best[j] by {
        assert(nearest_at(dist, rows[j], centroids, best[j]));
        one_nearest(dist, rows[j], centroids, best[j], best[j]);
        assert(after[j] == low16(best[j]));
    }
    assert(nearest_at(dist, rows[i], centroids, best[i]));
    moved_are_those_that_differ(before, best);
    assert(Seq::new(rows.len(), |j: int| before[j] != after[j]) =~= Seq::new(
        best.len(),
        |j: int| before[j] != best[j],
    ));
}

proof fn moved_are_those_that_differ(before: Seq<u16>, best: Seq<int>)
    ensures
        moved(before, best) == Seq::new(
            best.len(),
            |j: int| before[j] != best[j],
        ).to_multiset().count(true),
    decreases best.len(),
{
    broadcast use vstd::seq_lib::group_to_multiset_ensures;
    broadcast use vstd::multiset::group_multiset_axioms;

    let s = Seq::new(best.len(), |j: int| before[j] != best[j]);
    if best.len() == 0 {
        assert(s =~= Seq::empty());
    } else {
        let rest = best.drop_last();
        moved_are_those_that_differ(before, rest);
        let t = Seq::new(rest.len(), |j: int| before[j] != rest[j]);
        assert(s =~= t.push(before[best.len() - 1] != best.last()));
    }
}

/// A round of clustering gives every vector its nearest centroid and every
/// centroid the average of its vectors.
pub proof fn rounds_assign_and_average<D: Fn(&Row, &Row) -> F32Bits, M: Fn(&Vec<Row>) -> Row>(
    dist: D,
    mean: M,
    rows: Seq<Row>,
    before: Clusters,
    after: Clusters,
    changed: nat,
    i: int,
)
    requires
        gives_one_distance(dist),
        is_round(dist, mean, rows, before, after, changed),
        0 < before.centroids.len() <= 0x1_0000,
        rows.len() <= before.assignments.len(),
        0 <= i < rows.len(),
    ensures
        nearest_at(dist, rows[i], before.centroids, after.assignments[i] as int),
        after.centroids.len() == before.centroids.len(),
        are_averages(
            mean,
            rows,
            after.assignments.map_values(|a: u16| a as usize),
            after.centroids,
        ),
{
    assignments_are_to_the_nearest(
        dist,
        rows,
        before.centroids,
        before.assignments,
        after.assignments,
        changed,
        i,
    );
    assert(widened(after.assignments) == after.assignments.map_values(
        |a: u16| a as usize,
    ));
}

/// Clustering goes on as long as at least one vector in a thousand moves and
/// there are rounds left, and no longer.
pub proof fn rounds_stop_when_few_move<D: Fn(&Row, &Row) -> F32Bits, M: Fn(&Vec<Row>) -> Row>(
    dist: D,
    mean: M,
    rows: Seq<Row>,
    states: Seq<Clusters>,
    changes: Seq<nat>,
    rounds: nat,
)
    requires
        is_run(dist, mean, rows, states, changes, rounds),
    ensures
        states.len() == changes.len() + 1,
        changes.len() <= rounds,
        forall|t: int| 0 <= t < changes.len() - 1 ==> 1000 * (#[trigger] changes[t]) >= rows.len(),
        changes.len() < rounds ==> changes.len() > 0 && 1000 * changes.last() < rows.len(),
        forall|t: int|
            0 <= t < changes.len() ==> is_round(
                dist,
                mean,
                rows,
                states[t],
                states[t + 1],
                #[trigger] changes[t],
            ),
{
}

/// The first flag that is set and free: it is set, it is free, and none before it
/// is both.
pub proof fn first_free_is_first(flags: Seq<bool>, taken: Seq<int>)
    ensures
        first_free(flags, taken) matches Some(i) ==> 0 <= i < flags.len() && flags[i]
            && !taken.contains(i) && forall|j: int|
            0 <= j < i ==> !(#[trigger] flags[j]) || taken.contains(j),
        first_free(flags, taken) is None ==> forall|j: int|
            0 <= j < flags.len() ==> !(#[trigger] flags[j]) || taken.contains(j),
    decreases flags.len(),
{
    if flags.len() > 0 {
        let rest = flags.drop_last();
        first_free_is_first(rest, taken);
        assert forall|j: int| 0 <= j < rest.len() implies rest[j] == #[trigger] flags[j] by {}
    }
}

/// A draw by the distances adds one vector that is reached and was no seed yet,
/// the first of them, or none if there is none; it takes one random number.
pub proof fn hits_add_free_vectors<R: Fn(&Vec<F32Bits>, u64) -> Vec<bool>>(
    reach: R,
    weights: Vec<F32Bits>,
    before: Drawn,
    after: Drawn,
)
    requires
        is_hit(reach, weights, before, after),
    ensures
        after.draws == before.draws + 1,
        exists|flags: Vec<bool>|
            #[trigger] call_ensures(
                reach,
                (&weights, bits((before.draws + 1) as nat)),
                flags,
            ) && if after.seeds == before.seeds {
                forall|j: int|
                    0 <= j < flags@.len() ==> !(#[trigger] flags@[j]) || before.seeds.contains(j)
            } else {
                exists|i: int|
                    #![trigger before.seeds.push(i)]
                    after.seeds == before.seeds.push(i) && 0 <= i < flags@.len() && flags@[i]
                        && !before.seeds.contains(i) && forall|j: int|
                        0 <= j < i ==> !(#[trigger] flags@[j]) || before.seeds.contains(j)
            },
{
    let x = bits((before.draws + 1) as nat);
    let flags = choose|flags: Vec<bool>|
        #[trigger] call_ensures(reach, (&weights, x), flags) && after == (Drawn {
            seeds: match first_free(flags@, before.seeds) {
                Some(i) => before.seeds.push(i),
                None => before.seeds,
            },
            draws: before.draws + 1,
        });
    first_free_is_first(flags@, before.seeds);
    assert(call_ensures(reach, (&weights, x), flags));
    if let Some(i) = first_free(flags@, before.seeds) {
        assert(after.seeds == before.seeds.push(i));
        assert(after.seeds.len() != before.seeds.len());
    }
}

/// A weight is the distance to the nearest seed: no seed is nearer.
pub proof fn weights_are_distances_to_the_nearest<D: Fn(&Row, &Row) -> F32Bits>(
    dist: D,
    row: Row,
    seeds: Seq<Row>,
    weight: F32Bits,
    e: int,
    x: F32Bits,
)
    requires
        gives_one_distance(dist),
        is_weight(dist, row, seeds, weight),
        0 <= e < seeds.len(),
        call_ensures(dist, (&row, &seeds[e]), x),
    ensures
        !less(x, weight),
        less(x, MAX_FINITE) ==> exists|c: int|
            0 <= c < seeds.len() && #[trigger] call_ensures(dist, (&row, &seeds[c]), weight),
{
    let c = choose|c: int| #[trigger] is_nearest(dist, row, seeds, (weight, c));
    let dists = choose|dists: Seq<F32Bits>|
        #[trigger] are_distances(dist, row, seeds, dists) && (weight, c) == smallest(dists);
    smallest_is_smallest(dists);
    assert(call_ensures(dist, (&row, &seeds[e]), dists[e]));
    assert(dists[e] == x);
    if less(x, MAX_FINITE) {
        assert(less(dists[e], MAX_FINITE));
        assert(call_ensures(dist, (&row, &seeds[c]), dists[c]));
    }
}

/// The weights that a seed is drawn by are the distances to the nearest of the
/// seeds before it: 0 at a seed itself, and elsewhere no seed is nearer, and one
/// is as near unless none is below the largest distance.
pub proof fn seeds_are_drawn_by_distance<
    D: Fn(&Row, &Row) -> F32Bits,
    R: Fn(&Vec<F32Bits>, u64) -> Vec<bool>,
>(
    dist: D,
    reach: R,
    rows: Seq<Row>,
    seeds: Seq<int>,
    weights: Seq<Vec<F32Bits>>,
    t: int,
    i: int,
)
    requires
        gives_one_distance(dist),
        is_seeding(dist, reach, rows, seeds, weights),
        1 <= t < seeds.len(),
        0 <= i < rows.len(),
    ensures
        weights[t]@.len() == rows.len(),
        !is_nan(weights[t]@[i]),
        seeds.take(t).contains(i) ==> weights[t]@[i] == 0,
        !seeds.take(t).contains(i) ==> forall|j: int, x: F32Bits|
            0 <= j < t && #[trigger] call_ensures(dist, (&rows[i], &rows[seeds[j]]), x) ==> !less(
                x,
                weights[t]@[i],
            ),
        !seeds.take(t).contains(i) ==> weights[t]@[i] == 0x7f7f_ffff || exists|j: int|
            0 <= j < t && #[trigger] call_ensures(
                dist,
                (&rows[i], &rows[seeds[j]]),
                weights[t]@[i],
            ),
    decreases t,
{
    let now = seeds.take(t);
    let before = weights[t - 1]@;
    let after = weights[t]@;
    assert(is_draw(dist, reach, rows, now, before, weights[t], seeds[t]));
    assert(are_relaxed(dist, rows, now, before, after));
    assert(now.last() == seeds[t - 1]);
    if t > 1 {
        seeds_are_drawn_by_distance(dist, reach, rows, seeds, weights, t - 1, i);
    }
    if !now.contains(i) {
        let earlier = seeds.take(t - 1);
        if earlier.contains(i) {
            let j = choose|j: int| 0 <= j < earlier.len() && earlier[j] == i;
            assert(now[j] == i);
        }
        let row = rows[i];
        let seed = rows[seeds[t - 1]];
        assert(relaxes_to(dist, row, seed, before[i], after[i]));
        let d = choose|d: F32Bits|
            #[trigger] call_ensures(dist, (&row, &seed), d) && after[i] == if less(d, before[i]) {
                d
            } else {
                before[i]
            };
        assert forall|j: int, x: F32Bits|
            0 <= j < t && #[trigger] call_ensures(
                dist,
                (&rows[i], &rows[seeds[j]]),
                x,
            ) implies !less(x, after[i]) by {
            if j == t - 1 {
                assert(x == d);
            } else {
                assert(!less(x, before[i]));
            }
        }
        if less(d, before[i]) {
            assert(call_ensures(dist, (&rows[i], &rows[seeds[t - 1]]), after[i]));
        }
    } else {
        assert(after[i] == 0);
    }
}

/// The next seed is the first vector whose running sum is reached, or the first
/// of all if none is.
pub proof fn drawn_seeds_are_reached<
    D: Fn(&Row, &Row) -> F32Bits,
    R: Fn(&Vec<F32Bits>, u64) -> Vec<bool>,
>(
    dist: D,
    reach: R,
    rows: Seq<Row>,
    seeds: Seq<int>,
    before: Seq<F32Bits>,
    after: Vec<F32Bits>,
    at: int,
)
    requires
        is_draw(dist, reach, rows, seeds, before, after, at),
    ensures
        exists|x: u64, flags: Vec<bool>|
            #[trigger] call_ensures(reach, (&after, x), flags) && {
                ||| 0 <= at < flags@.len() && flags@[at] && forall|j: int|
                    0 <= j < at ==> !(#[trigger] flags@[j])
                ||| at == 0 && forall|j: int| 0 <= j < flags@.len() ==> !(#[trigger] flags@[j])
            },
{
    let x = (random(
        SEED,
        (seeds.len() + 1) as nat,
    ) as int / 2048) as u64;
    let flags = choose|flags: Vec<bool>|
        #[trigger] call_ensures(reach, (&after, x), flags) && at == first_reached(flags@);
    first_free_is_first(flags@, Seq::empty());
    assert(call_ensures(reach, (&after, x), flags));
}

/// There are as many clusters as asked for, but at least one, no more than
/// vectors, and no more than half as many where there are over a hundred.
pub proof fn clusters_are_as_many_as_asked_for(n: nat, k: nat)
    ensures
        clusters_of(n, k) >= 1,
        clusters_of(n, k) > 1 ==> clusters_of(n, k) <= k && clusters_of(n, k) <= n,
        n > 100 ==> 2 * clusters_of(n, k) <= n,
        1 <= k <= n <= 100 ==> clusters_of(n, k) == k,
        n > 100 && 1 <= k && 2 * k <= n ==> clusters_of(n, k) == k,
        1 <= n <= 100 && k > n ==> clusters_of(n, k) == n,
        n > 100 && 2 * k > n ==> clusters_of(n, k) == n / 2,
{
}

/// The search engine's clusters are refined move by move: in each move every
/// vector goes to its nearest centroid, at least one of them to another than
/// before, and every centroid to the average of its vectors. It goes on until
/// there were enough moves or every vector is at its nearest centroid.
pub proof fn centroids_are_refined_move_by_move<
    D: Fn(&Row, &Row) -> F32Bits,
    M: Fn(&Vec<Row>) -> Row,
>(
    dist: D,
    mean: M,
    rows: Seq<Row>,
    seeds: Seq<Row>,
    max_iter: nat,
    out: Seq<Row>,
)
    requires
        centroids_come_out(dist, mean, rows, seeds, max_iter, out),
    ensures
        exists|states: Seq<Refined>|
            #[trigger] is_refinement(dist, mean, rows, states) && states[0].centroids == seeds && (
            forall|i: int| 0 <= i < rows.len() ==> (#[trigger] states[0].assignments[i]) == 0)
                && states.last().centroids == out && states.len() <= max_iter + 1 && (states.len()
                == max_iter + 1 || forall|i: int|
                0 <= i < rows.len() ==> nearest_at(
                    dist,
                    rows[i],
                    out,
                    (#[trigger] states.last().assignments[i]) as int,
                )),
{
    let start = Refined { centroids: seeds, assignments: Seq::new(rows.len(), |i: int| 0usize) };
    let states = choose|states: Seq<Refined>|
        #[trigger] are_moves(dist, mean, rows, states) && states[0] == start
            && states.last().centroids == out && states.len() <= max_iter + 1 && (states.len()
            == max_iter + 1 || are_at_nearest(dist, rows, out, states.last().assignments));
    assert forall|t: int| 0 <= t < states.len() - 1 implies #[trigger] is_move(
        dist,
        mean,
        rows,
        states,
        t,
    ) by {
        assert(has_move(dist, mean, rows, states, t));
        at_nearest_are_nearest(dist, rows, states[t].centroids, states[t + 1].assignments);
    }
    assert(is_refinement(dist, mean, rows, states));
    if states.len() != max_iter + 1 {
        at_nearest_are_nearest(dist, rows, out, states.last().assignments);
    }
}

/// State `t` is moved to the next.
pub open spec fn is_move<D: Fn(&Row, &Row) -> F32Bits, M: Fn(&Vec<Row>) -> Row>(
    dist: D,
    mean: M,
    rows: Seq<Row>,
    states: Seq<Refined>,
    t: int,
) -> bool {
    &&& states[t + 1].assignments.len() == rows.len()
    &&& forall|i: int|
        0 <= i < rows.len() ==> nearest_at(
            dist,
            rows[i],
            states[t].centroids,
            (#[trigger] states[t + 1].assignments[i]) as int,
        )
    &&& states[t + 1].assignments != states[t].assignments
    &&& states[t + 1].centroids.len() == states[t].centroids.len()
    &&& are_averages(mean, rows, states[t + 1].assignments, states[t + 1].centroids)
}

/// Each state is moved to the next.
pub open spec fn is_refinement<D: Fn(&Row, &Row) -> F32Bits, M: Fn(&Vec<Row>) -> Row>(
    dist: D,
    mean: M,
    rows: Seq<Row>,
    states: Seq<Refined>,
) -> bool {
    &&& states.len() > 0
    &&& forall|t: int| 0 <= t < states.len() - 1 ==> #[trigger] is_move(dist, mean, rows, states, t)
}

proof fn at_nearest_are_nearest<D: Fn(&Row, &Row) -> F32Bits>(
    dist: D,
    rows: Seq<Row>,
    centroids: Seq<Row>,
    assignments: Seq<usize>,
)
    requires
        are_at_nearest(dist, rows, centroids, assignments),
    ensures
        assignments.len() == rows.len(),
        forall|i: int|
            0 <= i < rows.len() ==> nearest_at(
                dist,
                rows[i],
                centroids,
                (#[trigger] assignments[i]) as int,
            ),
{
    let best = assignments.map_values(|a: usize| a as int);
    assert(best.len() == assignments.len());
    assert forall|i: int| 0 <= i < rows.len() implies nearest_at(
        dist,
        rows[i],
        centroids,
        (#[trigger] assignments[i]) as int,
    ) by {
        assert(nearest_at(dist, rows[i], centroids, best[i]));
    }
}

/// The server's clusters come out of a run of rounds from the seeds, with every
/// vector in the first cluster at the start.
pub proof fn clusters_come_out_of_a_run<D: Fn(&Row, &Row) -> F32Bits, M: Fn(&Vec<Row>) -> Row>(
    dist: D,
    mean: M,
    rows: Seq<Row>,
    seeds: Seq<Row>,
    rounds: nat,
    out: Clusters,
)
    requires
        clusters_come_out(dist, mean, rows, seeds, rounds, out),
    ensures
        exists|states: Seq<Clusters>, changes: Seq<nat>|
            #[trigger] is_run(dist, mean, rows, states, changes, rounds) && states[0].centroids
                == seeds && states[0].assignments.len() == rows.len() && (forall|i: int|
                0 <= i < rows.len() ==> (#[trigger] states[0].assignments[i]) == 0)
                && states.last() == out,
{
    let start = Clusters { centroids: seeds, assignments: Seq::new(rows.len(), |i: int| 0u16) };
    let (states, changes) = choose|states: Seq<Clusters>, changes: Seq<nat>|
        #[trigger] is_run(dist, mean, rows, states, changes, rounds) && states[0] == start
            && states.last() == out;
    assert(is_run(dist, mean, rows, states, changes, rounds));
}

/// The first seed is drawn anywhere, and seeds are vectors of the sample.
pub proof fn seeds_are_vectors<
    D: Fn(&Row, &Row) -> F32Bits,
    R: Fn(&Vec<F32Bits>, u64) -> Vec<bool>,
>(dist: D, reach: R, rows: Seq<Row>, k: nat, out: Seq<Row>, j: int)
    requires
        seeds_come_out(dist, reach, rows, k, out),
        0 <= j < out.len(),
    ensures
        k > 0 ==> out.len() == k,
        k == 0 ==> out.len() == 1,
        rows.contains(out[j]),
        out[0] == rows[random(0xdead_beef_cafe_babe, 1) as int / 0x2_0000_0000 % rows.len() as int],
{
    let (seeds, weights) = choose|seeds: Seq<int>, weights: Seq<Vec<F32Bits>>|
        #[trigger] is_seeding(dist, reach, rows, seeds, weights) && out == seeds.map_values(
            |i: int| rows[i],
        );
    assert(0 <= seeds[j] < rows.len());
    assert(out[j] == rows[seeds[j]]);
}

/// As many seeds come out as were asked for, and one if none was.
pub proof fn seeds_are_as_many_as_asked_for<
    D: Fn(&Row, &Row) -> F32Bits,
    R: Fn(&Vec<F32Bits>, u64) -> Vec<bool>,
>(dist: D, reach: R, rows: Seq<Row>, k: nat, out: Seq<Row>)
    requires
        seeds_come_out(dist, reach, rows, k, out),
    ensures
        out.len() >= 1,
        out.len() >= k,
        out.len() == k || out.len() == 1,
{
}

/// A seed that is drawn anywhere stands where the function says, counted round
/// the sample.
pub proof fn seeds_anywhere_are_counted_round<A: Fn(u64, usize) -> usize>(
    anywhere: A,
    n: nat,
    t: nat,
    seed: int,
)
    requires
        0 < n <= usize::MAX,
        is_anywhere(anywhere, n, t, seed),
    ensures
        0 <= seed < n,
        exists|i: usize|
            #[trigger] call_ensures(
                anywhere,
                ((random(42, t) as int / 0x2_0000_0000) as u64, n as usize),
                i,
            ) && (i - seed) % (n as int) == 0,
{
    let i = choose|i: usize|
        #[trigger] call_ensures(anywhere, (bits(t), n as usize), i) && seed == i as int % n as int;
    vstd::arithmetic::div_mod::lemma_fundamental_div_mod(i as int, n as int);
    vstd::arithmetic::div_mod::lemma_mod_bound(i as int, n as int);
    let q = i as int / n as int;
    vstd::arithmetic::div_mod::lemma_mod_multiples_basic(q, n as int);
    assert(i - seed == q * (n as int)) by (nonlinear_arith)
        requires
            i as int == n as int * q + seed,
    ;
    assert(call_ensures(anywhere, (bits(t), n as usize), i));
}

/// The weights of a round are the distances of all vectors to the nearest of the
/// seeds drawn so far.
pub proof fn rounds_weigh_all_vectors<D: Fn(&Row, &Row) -> F32Bits>(
    dist: D,
    rows: Seq<Row>,
    seeds: Seq<int>,
    weights: Seq<F32Bits>,
    i: int,
)
    requires
        are_weights(dist, rows, seeds, weights),
        0 <= i < rows.len(),
    ensures
        weights.len() == rows.len(),
        is_weight(dist, rows[i], Seq::new(seeds.len(), |j: int| rows[seeds[j]]), weights[i]),
{
    assert(rows_at(rows, seeds) =~= Seq::new(seeds.len(), |j: int| rows[seeds[j]]));
    assert(is_weight(dist, rows[i], rows_at(rows, seeds), weights[i]));
}

/// A round draws by distance while some vector is away from the seeds, and
/// anywhere once none is.
pub proof fn rounds_go_by_the_spread<
    D: Fn(&Row, &Row) -> F32Bits,
    A: Fn(u64, usize) -> usize,
    W: Fn(&Vec<F32Bits>) -> bool,
    R: Fn(&Vec<F32Bits>, u64) -> Vec<bool>,
>(
    dist: D,
    anywhere: A,
    spread: W,
    reach: R,
    rows: Seq<Row>,
    k: nat,
    before: Drawn,
    after: Drawn,
)
    requires
        is_seed_round(dist, anywhere, spread, reach, rows, k, before, after),
    ensures
        (forall|w: Vec<F32Bits>| !#[trigger] call_ensures(spread, (&w,), false)) ==> exists|
            w: Vec<F32Bits>,
        |
            are_weights(dist, rows, before.seeds, w@) && #[trigger] is_hit(reach, w, before, after),
        (forall|w: Vec<F32Bits>| !#[trigger] call_ensures(spread, (&w,), true)) ==> after.seeds.len()
            == k && after.draws == before.draws + k - before.seeds.len() && after.seeds.take(
            before.seeds.len() as int,
        ) == before.seeds && forall|j: int|
            before.seeds.len() <= j < k ==> is_anywhere(
                anywhere,
                rows.len(),
                (before.draws + j - before.seeds.len() + 1) as nat,
                #[trigger] after.seeds[j],
            ),
{
}

/// The first seed is drawn anywhere, and rounds follow while seeds are missing.
pub proof fn rounds_follow_while_seeds_are_missing<
    D: Fn(&Row, &Row) -> F32Bits,
    A: Fn(u64, usize) -> usize,
    W: Fn(&Vec<F32Bits>) -> bool,
    R: Fn(&Vec<F32Bits>, u64) -> Vec<bool>,
>(
    dist: D,
    anywhere: A,
    spread: W,
    reach: R,
    rows: Seq<Row>,
    k: nat,
    states: Seq<Drawn>,
    t: int,
)
    requires
        are_seed_rounds(dist, anywhere, spread, reach, rows, k, states),
        0 <= t < states.len() - 1,
    ensures
        states[0].seeds.len() == 1,
        is_anywhere(anywhere, rows.len(), 1, states[0].seeds[0]),
        states[t].seeds.len() < k,
        is_seed_round(dist, anywhere, spread, reach, rows, k, states[t], states[t + 1]),
{
    assert(has_round(dist, anywhere, spread, reach, rows, k, states, t));
}

} // verus!
