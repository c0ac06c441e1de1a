//! Clustering the same vectors twice gives the same clusters.
//!
//! The functions that are handed in to clustering may be any functions. Where
//! each of them gives one result for equal arguments, so does clustering.

use vstd::prelude::*;
use crate::engine_clusters::{are_anywhere, are_at_nearest, are_moves, are_seed_rounds, are_weights, bits, centroids_come_out, clusters_of, has_move, has_round, is_anywhere, is_hit, is_seed_round, is_weight, kmeans_gives, rows_at, Drawn, Refined};
use crate::float_bits::{less, F32Bits};
use crate::kmeans::{are_averages, are_distances, cluster_rows, gives_one_distance, is_average, is_nearest, nearest_at, one_nearest, smallest, Row};
use crate::seeding::{are_relaxed, first_free, first_reached, is_draw, is_seeding, random, relaxes_to, seeds_come_out, SEED};

verus! {

/// A function gives one set of flags for equal weights and random bits.
pub open spec fn gives_one_reach<R: Fn(&Vec<F32Bits>, u64) -> Vec<bool>>(reach: R) -> bool {
    forall|v: Vec<F32Bits>, w: Vec<F32Bits>, x: u64, a: Vec<bool>, b: Vec<bool>|
        #[trigger] call_ensures(reach, (&v, x), a) && #[trigger] call_ensures(reach, (&w, x), b)
            && v@ == w@ ==> a@ == b@
}

/// A function gives one position for equal random bits and lengths.
pub open spec fn gives_one_position<A: Fn(u64, usize) -> usize>(anywhere: A) -> bool {
    forall|x: u64, n: usize, i: usize, j: usize|
        #[trigger] call_ensures(anywhere, (x, n), i) && #[trigger] call_ensures(
            anywhere,
            (x, n),
            j,
        ) ==> i == j
}

/// A function gives one answer for equal weights.
pub open spec fn gives_one_answer<W: Fn(&Vec<F32Bits>) -> bool>(spread: W) -> bool {
    forall|v: Vec<F32Bits>, w: Vec<F32Bits>, a: bool, b: bool|
        #[trigger] call_ensures(spread, (&v,), a) && #[trigger] call_ensures(spread, (&w,), b)
            && v@ == w@ ==> a == b
}

/// A function gives one average for equal vectors.
pub open spec fn gives_one_average<M: Fn(&Vec<Row>) -> Row>(mean: M) -> bool {
    forall|v: Vec<Row>, w: Vec<Row>, a: Row, b: Row|
        #[trigger] call_ensures(mean, (&v,), a) && #[trigger] call_ensures(mean, (&w,), b) && v@
            == w@ ==> a == b
}

/// Distances are relaxed in one way.
proof fn one_relaxation<D: Fn(&Row, &Row) -> F32Bits>(
    dist: D,
    rows: Seq<Row>,
    seeds: Seq<int>,
    before: Seq<F32Bits>,
    a: Seq<F32Bits>,
    b: Seq<F32Bits>,
)
    requires
        gives_one_distance(dist),
        are_relaxed(dist, rows, seeds, before, a),
        are_relaxed(dist, rows, seeds, before, b),
    ensures
        a == b,
{
    assert forall|i: int| 0 <= i < a.len() implies a[i] == b[i] by {
        let row = rows[i];
        let seed = rows[seeds.last()];
        if !seeds.contains(i) {
            assert(relaxes_to(dist, row, seed, before[i], a[i]));
            assert(relaxes_to(dist, row, seed, before[i], b[i]));
            let x = choose|d: F32Bits|
                #[trigger] call_ensures(dist, (&row, &seed), d) && a[i] == if less(d, before[i]) {
                    d
                } else {
                    before[i]
                };
            let y = choose|d: F32Bits|
                #[trigger] call_ensures(dist, (&row, &seed), d) && b[i] == if less(d, before[i]) {
                    d
                } else {
                    before[i]
                };
            assert(x == y);
        } else {
            assert(a[i] == 0 && b[i] == 0);
        }
    }
    assert(a =~= b);
}

/// The first `t` seeds, and the weights with them, are drawn in one way.
proof fn one_seeding<D: Fn(&Row, &Row) -> F32Bits, R: Fn(&Vec<F32Bits>, u64) -> Vec<bool>>(
    dist: D,
    reach: R,
    rows: Seq<Row>,
    a: (Seq<int>, Seq<Vec<F32Bits>>),
    b: (Seq<int>, Seq<Vec<F32Bits>>),
    t: int,
)
    requires
        gives_one_distance(dist),
        gives_one_reach(reach),
        is_seeding(dist, reach, rows, a.0, a.1),
        is_seeding(dist, reach, rows, b.0, b.1),
        1 <= t <= a.0.len(),
        t <= b.0.len(),
    ensures
        a.0.take(t) == b.0.take(t),
        a.1[t - 1]@ == b.1[t - 1]@,
    decreases t,
{
    if t == 1 {
        assert(a.0.take(1) =~= b.0.take(1));
    } else {
        let j = t - 1;
        one_seeding(dist, reach, rows, a, b, j);
        let seeds = a.0.take(j);
        assert(is_draw(dist, reach, rows, a.0.take(j), a.1[j - 1]@, a.1[j], a.0[j]));
        assert(is_draw(dist, reach, rows, b.0.take(j), b.1[j - 1]@, b.1[j], b.0[j]));
        one_relaxation(dist, rows, seeds, a.1[j - 1]@, a.1[j]@, b.1[j]@);
        let v = a.1[j];
        let w = b.1[j];
        let x = (random(SEED, (seeds.len() + 1) as nat) as int / 2048) as u64;
        let f = choose|flags: Vec<bool>|
            #[trigger] call_ensures(reach, (&v, x), flags) && a.0[j] == first_reached(flags@);
        let g = choose|flags: Vec<bool>|
            #[trigger] call_ensures(reach, (&w, x), flags) && b.0[j] == first_reached(flags@);
        assert(f@ == g@);
        assert(a.0.take(t) =~= a.0.take(j).push(a.0[j]));
        assert(b.0.take(t) =~= b.0.take(j).push(b.0[j]));
    }
}

/// Drawing seeds from the same vectors twice gives the same seeds.
pub proof fn seeds_come_out_alike<
    D: Fn(&Row, &Row) -> F32Bits,
    R: Fn(&Vec<F32Bits>, u64) -> Vec<bool>,
>(dist: D, reach: R, rows: Seq<Row>, k: nat, a: Seq<Row>, b: Seq<Row>)
    requires
        gives_one_distance(dist),
        gives_one_reach(reach),
        seeds_come_out(dist, reach, rows, k, a),
        seeds_come_out(dist, reach, rows, k, b),
    ensures
        a == b,
{
    let (s, v) = choose|seeds: Seq<int>, weights: Seq<Vec<F32Bits>>|
        #[trigger] is_seeding(dist, reach, rows, seeds, weights) && a == seeds.map_values(
            |i: int| rows[i],
        );
    let (t, w) = choose|seeds: Seq<int>, weights: Seq<Vec<F32Bits>>|
        #[trigger] is_seeding(dist, reach, rows, seeds, weights) && b == seeds.map_values(
            |i: int| rows[i],
        );
    assert(s.len() == a.len() && t.len() == b.len());
    one_seeding(dist, reach, rows, (s, v), (t, w), s.len() as int);
    assert(s.take(s.len() as int) =~= s);
    assert(t.take(s.len() as int) =~= t);
}

/// A vector has one distance to the nearest of its seeds.
proof fn one_weight<D: Fn(&Row, &Row) -> F32Bits>(
    dist: D,
    row: Row,
    seeds: Seq<Row>,
    a: F32Bits,
    b: F32Bits,
)
    requires
        gives_one_distance(dist),
        is_weight(dist, row, seeds, a),
        is_weight(dist, row, seeds, b),
    ensures
        a == b,
{
    let c = choose|c: int| #[trigger] is_nearest(dist, row, seeds, (a, c));
    let e = choose|c: int| #[trigger] is_nearest(dist, row, seeds, (b, c));
    let x = choose|dists: Seq<F32Bits>|
        #[trigger] are_distances(dist, row, seeds, dists) && (a, c) == smallest(dists);
    let y = choose|dists: Seq<F32Bits>|
        #[trigger] are_distances(dist, row, seeds, dists) && (b, e) == smallest(dists);
    assert forall|j: int| 0 <= j < x.len() implies x[j] == y[j] by {
        assert(call_ensures(dist, (&row, &seeds[j]), x[j]));
        assert(call_ensures(dist, (&row, &seeds[j]), y[j]));
    }
    assert(x =~= y);
}

/// One draw by the distances hits one vector.
proof fn one_hit<R: Fn(&Vec<F32Bits>, u64) -> Vec<bool>>(
    reach: R,
    v: Vec<F32Bits>,
    w: Vec<F32Bits>,
    before: Drawn,
    a: Drawn,
    b: Drawn,
)
    requires
        gives_one_reach(reach),
        v@ == w@,
        is_hit(reach, v, before, a),
        is_hit(reach, w, before, b),
    ensures
        a == b,
{
    let x = bits((before.draws + 1) as nat);
    let f = choose|flags: Vec<bool>|
        #[trigger] call_ensures(reach, (&v, x), flags) && a == (Drawn {
            seeds: match first_free(flags@, before.seeds) {
                Some(i) => before.seeds.push(i),
                None => before.seeds,
            },
            draws: before.draws + 1,
        });
    let g = choose|flags: Vec<bool>|
        #[trigger] call_ensures(reach, (&w, x), flags) && b == (Drawn {
            seeds: match first_free(flags@, before.seeds) {
                Some(i) => before.seeds.push(i),
                None => before.seeds,
            },
            draws: before.draws + 1,
        });
    assert(f@ == g@);
}

/// A seed that is drawn anywhere is drawn at one position.
proof fn one_anywhere<A: Fn(u64, usize) -> usize>(anywhere: A, n: nat, t: nat, a: int, b: int)
    requires
        gives_one_position(anywhere),
        is_anywhere(anywhere, n, t, a),
        is_anywhere(anywhere, n, t, b),
    ensures
        a == b,
{
    let i = choose|i: usize|
        #[trigger] call_ensures(anywhere, (bits(t), n as usize), i) && a == i as int % n as int;
    let j = choose|i: usize|
        #[trigger] call_ensures(anywhere, (bits(t), n as usize), i) && b == i as int % n as int;
    assert(i == j);
}

/// Missing seeds are filled up in one way.
proof fn one_filling<A: Fn(u64, usize) -> usize>(
    anywhere: A,
    n: nat,
    k: nat,
    before: Drawn,
    a: Drawn,
    b: Drawn,
)
    requires
        gives_one_position(anywhere),
        before.seeds.len() <= k,
        are_anywhere(anywhere, n, k, before, a),
        are_anywhere(anywhere, n, k, before, b),
    ensures
        a == b,
{
    let m = before.seeds.len() as int;
    assert forall|j: int| 0 <= j < k implies a.seeds[j] == b.seeds[j] by {
        if j < m {
            assert(a.seeds.take(m)[j] == a.seeds[j]);
            assert(b.seeds.take(m)[j] == b.seeds[j]);
        } else {
            let t = (before.draws + j - m + 1) as nat;
            one_anywhere(anywhere, n, t, a.seeds[j], b.seeds[j]);
        }
    }
    assert(a.seeds =~= b.seeds);
}

/// A round of drawing seeds has one outcome.
proof fn one_seed_round<
    D: Fn(&Row, &Row) -> F32Bits,
    A: Fn(u64, usize) -> usize,
    W: Fn(&Vec<F32Bits>) -> bool,
    R: Fn(&Vec<F32Bits>, u64) -> Vec<bool>,
>(
    dist: D,
    anywhere: A,
    spread: W,
    reach: R,
    rows: Seq<Row>,
    k: nat,
    before: Drawn,
    a: Drawn,
    b: Drawn,
)
    requires
        gives_one_distance(dist),
        gives_one_position(anywhere),
        gives_one_answer(spread),
        gives_one_reach(reach),
        before.seeds.len() <= k,
        is_seed_round(dist, anywhere, spread, reach, rows, k, before, a),
        is_seed_round(dist, anywhere, spread, reach, rows, k, before, b),
    ensures
        a == b,
{
    let (v, is_spread) = choose|weights: Vec<F32Bits>, is_spread: bool|
        are_weights(dist, rows, before.seeds, weights@) && #[trigger] call_ensures(
            spread,
            (&weights,),
            is_spread,
        ) && if is_spread {
            is_hit(reach, weights, before, a)
        } else {
            are_anywhere(anywhere, rows.len(), k, before, a)
        };
    let (w, is_spread_too) = choose|weights: Vec<F32Bits>, is_spread: bool|
        are_weights(dist, rows, before.seeds, weights@) && #[trigger] call_ensures(
            spread,
            (&weights,),
            is_spread,
        ) && if is_spread {
            is_hit(reach, weights, before, b)
        } else {
            are_anywhere(anywhere, rows.len(), k, before, b)
        };
    assert forall|i: int| 0 <= i < rows.len() implies v@[i] == w@[i] by {
        one_weight(dist, rows[i], rows_at(rows, before.seeds), v@[i], w@[i]);
    }
    assert(v@ =~= w@);
    assert(is_spread == is_spread_too);
    if is_spread {
        one_hit(reach, v, w, before, a, b);
    } else {
        one_filling(anywhere, rows.len(), k, before, a, b);
    }
}

/// Rounds of drawing seeds go through one series of states.
proof fn one_series_of_seeds<
    D: Fn(&Row, &Row) -> F32Bits,
    A: Fn(u64, usize) -> usize,
    W: Fn(&Vec<F32Bits>) -> bool,
    R: Fn(&Vec<F32Bits>, u64) -> Vec<bool>,
>(
    dist: D,
    anywhere: A,
    spread: W,
    reach: R,
    rows: Seq<Row>,
    k: nat,
    a: Seq<Drawn>,
    b: Seq<Drawn>,
    t: int,
)
    requires
        gives_one_distance(dist),
        gives_one_position(anywhere),
        gives_one_answer(spread),
        gives_one_reach(reach),
        are_seed_rounds(dist, anywhere, spread, reach, rows, k, a),
        are_seed_rounds(dist, anywhere, spread, reach, rows, k, b),
        0 <= t < a.len(),
        t < b.len(),
    ensures
        a[t] == b[t],
    decreases t,
{
    if t == 0 {
        one_anywhere(anywhere, rows.len(), 1, a[0].seeds[0], b[0].seeds[0]);
        assert(a[0].seeds =~= b[0].seeds);
    } else {
        let j = t - 1;
        one_series_of_seeds(dist, anywhere, spread, reach, rows, k, a, b, j);
        assert(has_round(dist, anywhere, spread, reach, rows, k, a, j));
        assert(has_round(dist, anywhere, spread, reach, rows, k, b, j));
        one_seed_round(dist, anywhere, spread, reach, rows, k, a[j], a[t], b[t]);
    }
}

/// Vectors are assigned to their nearest centroids in one way.
pub proof fn assignments_come_out_alike<D: Fn(&Row, &Row) -> F32Bits>(
    dist: D,
    rows: Seq<Row>,
    centroids: Seq<Row>,
    a: Seq<usize>,
    b: Seq<usize>,
)
    requires
        gives_one_distance(dist),
        are_at_nearest(dist, rows, centroids, a),
        are_at_nearest(dist, rows, centroids, b),
    ensures
        a == b,
{
    let x = a.map_values(|a: usize| a as int);
    let y = b.map_values(|a: usize| a as int);
    assert(x.len() == a.len() && y.len() == b.len());
    assert forall|i: int| 0 <= i < a.len() implies a[i] == b[i] by {
        assert(x[i] == a[i] && y[i] == b[i]);
        assert(nearest_at(dist, rows[i], centroids, x[i]));
        assert(nearest_at(dist, rows[i], centroids, y[i]));
        one_nearest(dist, rows[i], centroids, x[i], y[i]);
    }
    assert(a =~= b);
}

/// Vectors that are assigned to centroids have one series of averages.
proof fn averages_come_out_alike<M: Fn(&Vec<Row>) -> Row>(
    mean: M,
    rows: Seq<Row>,
    assignments: Seq<usize>,
    a: Seq<Row>,
    b: Seq<Row>,
)
    requires
        gives_one_average(mean),
        a.len() == b.len(),
        are_averages(mean, rows, assignments, a),
        are_averages(mean, rows, assignments, b),
    ensures
        a == b,
{
    assert forall|c: int| 0 <= c < a.len() implies a[c] == b[c] by {
        let own = cluster_rows(rows, assignments, c);
        let x = a[c];
        let y = b[c];
        assert(is_average(mean, own, x));
        assert(is_average(mean, own, y));
        if own.len() == 0 {
            assert(x =~= y);
        } else {
            let v = choose|v: Vec<Row>| v@ == own && #[trigger] call_ensures(mean, (&v,), x);
            let w = choose|v: Vec<Row>| v@ == own && #[trigger] call_ensures(mean, (&v,), y);
            assert(v@ == w@);
        }
    }
    assert(a =~= b);
}

/// Moves from the same start go through one series of states.
proof fn one_series_of_moves<D: Fn(&Row, &Row) -> F32Bits, M: Fn(&Vec<Row>) -> Row>(
    dist: D,
    mean: M,
    rows: Seq<Row>,
    a: Seq<Refined>,
    b: Seq<Refined>,
    t: int,
)
    requires
        gives_one_distance(dist),
        gives_one_average(mean),
        are_moves(dist, mean, rows, a),
        are_moves(dist, mean, rows, b),
        a[0] == b[0],
        0 <= t < a.len(),
        t < b.len(),
    ensures
        a[t] == b[t],
        a[t].centroids.len() == a[0].centroids.len(),
    decreases t,
{
    if t > 0 {
        let j = t - 1;
        one_series_of_moves(dist, mean, rows, a, b, j);
        assert(has_move(dist, mean, rows, a, j));
        assert(has_move(dist, mean, rows, b, j));
        assignments_come_out_alike(dist, rows, a[j].centroids, a[t].assignments, b[t].assignments);
        averages_come_out_alike(mean, rows, a[t].assignments, a[t].centroids, b[t].centroids);
    }
}

/// Moves that stopped do not go on elsewhere.
proof fn moves_stop_alike<D: Fn(&Row, &Row) -> F32Bits, M: Fn(&Vec<Row>) -> Row>(
    dist: D,
    mean: M,
    rows: Seq<Row>,
    max_iter: nat,
    a: Seq<Refined>,
    b: Seq<Refined>,
)
    requires
        gives_one_distance(dist),
        gives_one_average(mean),
        are_moves(dist, mean, rows, a),
        are_moves(dist, mean, rows, b),
        a[0] == b[0],
        b.len() <= max_iter + 1,
        a.len() == max_iter + 1 || are_at_nearest(
            dist,
            rows,
            a.last().centroids,
            a.last().assignments,
        ),
    ensures
        b.len() <= a.len(),
{
    if a.len() < b.len() {
        let t = a.len() - 1;
        one_series_of_moves(dist, mean, rows, a, b, t);
        assert(has_move(dist, mean, rows, b, t));
        assignments_come_out_alike(
            dist,
            rows,
            a[t].centroids,
            a[t].assignments,
            b[t + 1].assignments,
        );
    }
}

/// Moving the same seeds twice gives the same centroids, and as many as there
/// are seeds.
pub proof fn centroids_come_out_alike<D: Fn(&Row, &Row) -> F32Bits, M: Fn(&Vec<Row>) -> Row>(
    dist: D,
    mean: M,
    rows: Seq<Row>,
    seeds: Seq<Row>,
    max_iter: nat,
    a: Seq<Row>,
    b: Seq<Row>,
)
    requires
        gives_one_distance(dist),
        gives_one_average(mean),
        centroids_come_out(dist, mean, rows, seeds, max_iter, a),
        centroids_come_out(dist, mean, rows, seeds, max_iter, b),
    ensures
        a == b,
        a.len() == seeds.len(),
{
    let start = Refined { centroids: seeds, assignments: Seq::new(rows.len(), |i: int| 0usize) };
    let x = choose|states: Seq<Refined>|
        #[trigger] are_moves(dist, mean, rows, states) && states[0] == start
            && states.last().centroids == a && states.len() <= max_iter + 1 && (states.len()
            == max_iter + 1 || are_at_nearest(dist, rows, a, states.last().assignments));
    let y = choose|states: Seq<Refined>|
        #[trigger] are_moves(dist, mean, rows, states) && states[0] == start
            && states.last().centroids == b && states.len() <= max_iter + 1 && (states.len()
            == max_iter + 1 || are_at_nearest(dist, rows, b, states.last().assignments));
    moves_stop_alike(dist, mean, rows, max_iter, x, y);
    moves_stop_alike(dist, mean, rows, max_iter, y, x);
    one_series_of_moves(dist, mean, rows, x, y, x.len() - 1);
}

/// Clustering the same sample twice gives the same centroids: where the
/// functions that are handed in give one result for equal arguments, so does
/// k-means.
pub proof fn kmeans_comes_out_alike<
    D: Fn(&Row, &Row) -> F32Bits,
    A: Fn(u64, usize) -> usize,
    W: Fn(&Vec<F32Bits>) -> bool,
    R: Fn(&Vec<F32Bits>, u64) -> Vec<bool>,
    M: Fn(&Vec<Row>) -> Row,
>(
    dist: D,
    anywhere: A,
    spread: W,
    reach: R,
    mean: M,
    rows: Seq<Row>,
    k: nat,
    max_iter: nat,
    rounds: nat,
    a: Option<Seq<Row>>,
    b: Option<Seq<Row>>,
)
    requires
        gives_one_distance(dist),
        gives_one_position(anywhere),
        gives_one_answer(spread),
        gives_one_reach(reach),
        gives_one_average(mean),
        kmeans_gives(dist, anywhere, spread, reach, mean, rows, k, max_iter, rounds, a),
        kmeans_gives(dist, anywhere, spread, reach, mean, rows, k, max_iter, rounds, b),
    ensures
        a == b,
{
    let m = clusters_of(rows.len(), k);
    let x = seed_states(dist, anywhere, spread, reach, mean, rows, k, max_iter, rounds, a);
    let y = seed_states(dist, anywhere, spread, reach, mean, rows, k, max_iter, rounds, b);
    if x.len() < y.len() {
        let t = x.len() - 1;
        one_series_of_seeds(dist, anywhere, spread, reach, rows, m, x, y, t);
        assert(has_round(dist, anywhere, spread, reach, rows, m, y, t));
    } else if y.len() < x.len() {
        let t = y.len() - 1;
        one_series_of_seeds(dist, anywhere, spread, reach, rows, m, x, y, t);
        assert(has_round(dist, anywhere, spread, reach, rows, m, x, t));
    }
    one_series_of_seeds(dist, anywhere, spread, reach, rows, m, x, y, x.len() - 1);
    if let (Some(c), Some(e)) = (a, b) {
        let seeds = rows_at(rows, x.last().seeds);
        centroids_come_out_alike(dist, mean, rows, seeds, max_iter, c, e);
    }
}

/// The states that k-means goes through to draw its seeds: either all seeds are
/// there at the end, or all rounds were made.
proof fn seed_states<
    D: Fn(&Row, &Row) -> F32Bits,
    A: Fn(u64, usize) -> usize,
    W: Fn(&Vec<F32Bits>) -> bool,
    R: Fn(&Vec<F32Bits>, u64) -> Vec<bool>,
    M: Fn(&Vec<Row>) -> Row,
>(
    dist: D,
    anywhere: A,
    spread: W,
    reach: R,
    mean: M,
    rows: Seq<Row>,
    k: nat,
    max_iter: nat,
    rounds: nat,
    out: Option<Seq<Row>>,
) -> (states: Seq<Drawn>)
    requires
        gives_one_distance(dist),
        gives_one_average(mean),
        kmeans_gives(dist, anywhere, spread, reach, mean, rows, k, max_iter, rounds, out),
    ensures
        are_seed_rounds(
            dist,
            anywhere,
            spread,
            reach,
            rows,
            clusters_of(rows.len(), k),
            states,
        ),
        states.len() <= rounds + 1,
        out is Some <==> states.last().seeds.len() == clusters_of(rows.len(), k),
        out is None <==> states.last().seeds.len() < clusters_of(rows.len(), k),
        out is None ==> states.len() == rounds + 1,
        out matches Some(centroids) ==> centroids_come_out(
            dist,
            mean,
            rows,
            rows_at(rows, states.last().seeds),
            max_iter,
            centroids,
        ),
{
    let m = clusters_of(rows.len(), k);
    let states = choose|states: Seq<Drawn>|
        #[trigger] are_seed_rounds(dist, anywhere, spread, reach, rows, m, states)
            && states.len() <= rounds + 1 && match out {
            Some(centroids) => centroids.len() == m && centroids_come_out(
                dist,
                mean,
                rows,
                rows_at(rows, states.last().seeds),
                max_iter,
                centroids,
            ),
            None => states.len() == rounds + 1 && states.last().seeds.len() < m,
        };
    if let Some(c) = out {
        let seeds = rows_at(rows, states.last().seeds);
        centroids_come_out_alike(dist, mean, rows, seeds, max_iter, c, c);
        assert(seeds.len() == states.last().seeds.len());
    }
    states
}

} // verus!
