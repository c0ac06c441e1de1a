//! Clustering for the search engine.
//!
//! Seeds are drawn from a sample by their distances, and then moved until no
//! vector changes its centroid. As for the other index, numbers are compared
//! here and computed by functions that the caller hands in.

use vstd::prelude::*;
use crate::float_bits::F32Bits;
use crate::kmeans::{are_averages, are_nearest, is_nearest, nearest, nearest_at, update_centroids, Row};
use crate::seeding::{draw, first_free, random};

verus! {

/// The number of clusters: no more than there are vectors, half as many where
/// there are over a hundred, and at least one.
pub open spec fn clusters_of(n: nat, k: nat) -> nat {
    let most = if n > 100 {
        n / 2
    } else {
        n
    };
    let k = if k < most {
        k
    } else {
        most
    };
    if k > 1 {
        k
    } else {
        1
    }
}

/// Finds the number of clusters.
pub fn effective_k(n: usize, k: usize) -> (r: usize)
    ensures
        r == clusters_of(n as nat, k as nat),
{
    let most: usize = if n > 100 {
        n / 2
    } else {
        n
    };
    let k: usize = if k < most {
        k
    } else {
        most
    };
    if k > 1 {
        k
    } else {
        1
    }
}

/// The random bits of draw `t`.
pub open spec fn bits(t: nat) -> u64 {
    (random(42, t) as int / 0x2_0000_0000) as u64
}

/// `weights` may be the distances of vectors to the nearest of their seeds.
pub open spec fn are_weights<D: Fn(&Row, &Row) -> F32Bits>(
    dist: D,
    rows: Seq<Row>,
    seeds: Seq<int>,
    weights: Seq<F32Bits>,
) -> bool {
    &&& weights.len() == rows.len()
    &&& forall|i: int|
        0 <= i < rows.len() ==> is_weight(dist, rows[i], rows_at(rows, seeds), #[trigger] weights[i])
}

/// `weight` may be the distance of a vector to the nearest of the seeds.
pub open spec fn is_weight<D: Fn(&Row, &Row) -> F32Bits>(
    dist: D,
    row: Row,
    seeds: Seq<Row>,
    weight: F32Bits,
) -> bool {
    exists|c: int| #[trigger] is_nearest(dist, row, seeds, (weight, c))
}

/// The vectors at some positions.
pub open spec fn rows_at(rows: Seq<Row>, at: Seq<int>) -> Seq<Row> {
    at.map_values(|i: int| rows[i])
}

/// Seeds that were drawn, and how many draws that took.
pub ghost struct Drawn {
    pub seeds: Seq<int>,
    pub draws: nat,
}

/// One seed is drawn, or none if no vector that is not a seed yet is reached.
pub open spec fn is_hit<R: Fn(&Vec<F32Bits>, u64) -> Vec<bool>>(
    reach: R,
    weights: Vec<F32Bits>,
    before: Drawn,
    after: Drawn,
) -> bool {
    exists|flags: Vec<bool>|
        #[trigger] call_ensures(reach, (&weights, bits((before.draws + 1) as nat)), flags) && after
            == Drawn {
            seeds: match first_free(flags@, before.seeds) {
                Some(i) => before.seeds.push(i),
                None => before.seeds,
            },
            draws: before.draws + 1,
        }
}

/// Seed `j` is drawn anywhere.
pub open spec fn is_anywhere<A: Fn(u64, usize) -> usize>(
    anywhere: A,
    n: nat,
    t: nat,
    seed: int,
) -> bool {
    exists|i: usize|
        #[trigger] call_ensures(anywhere, (bits(t), n as usize), i) && seed == i as int % n as int
}

/// All seeds that are missing are drawn anywhere.
pub open spec fn are_anywhere<A: Fn(u64, usize) -> usize>(
    anywhere: A,
    n: nat,
    k: nat,
    before: Drawn,
    after: Drawn,
) -> bool {
    &&& after.seeds.len() == k
    &&& after.draws == before.draws + k - before.seeds.len()
    &&& after.seeds.take(before.seeds.len() as int) == before.seeds
    &&& forall|j: int|
        before.seeds.len() <= j < k ==> is_anywhere(
            anywhere,
            n,
            (before.draws + j - before.seeds.len() + 1) as nat,
            #[trigger] after.seeds[j],
        )
}

/// One round of drawing seeds: by their distances, or anywhere if all vectors
/// are at the seeds.
pub open spec fn is_seed_round<
    D: Fn(&Row, &Row) -> F32Bits,
    A: Fn(u64, usize) -> usize,
    W: Fn(&Vec<F32Bits>) -> bool,
    R: Fn(&Vec<F32Bits>, u64) -> Vec<bool>,
>(
    dist: D,
    anywhere: A,
    spread: W,
    reach: R,
    rows: Seq<Row>,
    k: nat,
    before: Drawn,
    after: Drawn,
) -> bool {
    exists|weights: Vec<F32Bits>, is_spread: bool|
        are_weights(dist, rows, before.seeds, weights@) && #[trigger] call_ensures(
            spread,
            (&weights,),
            is_spread,
        ) && if is_spread {
            is_hit(reach, weights, before, after)
        } else {
            are_anywhere(anywhere, rows.len(), k, before, after)
        }
}

/// Seeds are missing in state `t`, and the next state comes from it by a round.
pub open spec fn has_round<
    D: Fn(&Row, &Row) -> F32Bits,
    A: Fn(u64, usize) -> usize,
    W: Fn(&Vec<F32Bits>) -> bool,
    R: Fn(&Vec<F32Bits>, u64) -> Vec<bool>,
>(
    dist: D,
    anywhere: A,
    spread: W,
    reach: R,
    rows: Seq<Row>,
    k: nat,
    states: Seq<Drawn>,
    t: int,
) -> bool {
    &&& states[t].seeds.len() < k
    &&& is_seed_round(dist, anywhere, spread, reach, rows, k, states[t], states[t + 1])
}

/// Rounds of drawing seeds, one after the other, each while seeds are missing.
pub open spec fn are_seed_rounds<
    D: Fn(&Row, &Row) -> F32Bits,
    A: Fn(u64, usize) -> usize,
    W: Fn(&Vec<F32Bits>) -> bool,
    R: Fn(&Vec<F32Bits>, u64) -> Vec<bool>,
>(
    dist: D,
    anywhere: A,
    spread: W,
    reach: R,
    rows: Seq<Row>,
    k: nat,
    states: Seq<Drawn>,
) -> bool {
    &&& states.len() > 0
    &&& states[0].draws == 1
    &&& states[0].seeds.len() == 1
    &&& is_anywhere(anywhere, rows.len(), 1, states[0].seeds[0])
    &&& forall|t: int|
        0 <= t < states.len() - 1 ==> #[trigger] has_round(
            dist,
            anywhere,
            spread,
            reach,
            rows,
            k,
            states,
            t,
        )
}

/// Finds the distances of vectors to the nearest of their seeds.
fn weigh<D: Fn(&Row, &Row) -> F32Bits>(sample: &[Row], centroids: &Vec<Row>, dist: &D) -> (r: Vec<
    F32Bits,
>)
    requires
        forall|a: &Row, b: &Row| call_requires(*dist, (a, b)),
    ensures
        r@.len() == sample@.len(),
        forall|i: int|
            0 <= i < sample@.len() ==> is_weight(
                *dist,
                sample@[i],
                centroids@,
                #[trigger] r@[i],
            ),
{
    let mut r: Vec<F32Bits> = Vec::new();
    let mut i: usize = 0;
    while i < sample.len()
        invariant
            i <= sample@.len(),
            forall|a: &Row, b: &Row| call_requires(*dist, (a, b)),
            r@.len() == i,
            forall|j: int|
                0 <= j < i ==> is_weight(*dist, sample@[j], centroids@, #[trigger] r@[j]),
        decreases sample@.len() - i,
    {
        let found: (F32Bits, usize) = nearest(&sample[i], centroids, dist);
        assert(is_nearest(*dist, sample@[i as int], centroids@, (found.0, found.1 as int)));
        r.push(found.0);
        i = i + 1;
    }
    r
}

/// Finds where the first flag is set of those that are not taken.
fn find_free(flags: &Vec<bool>, chosen: &Vec<bool>, Ghost(taken): Ghost<Seq<int>>) -> (r: Option<
    usize,
>)
    requires
        flags@.len() == chosen@.len(),
        forall|i: int| 0 <= i < chosen@.len() ==> (#[trigger] chosen@[i]) == taken.contains(i),
    ensures
        match r {
            Some(i) => first_free(flags@, taken) == Some(i as int) && i < flags@.len(),
            None => first_free(flags@, taken) is None,
        },
{
    let mut found: Option<usize> = None;
    let mut i: usize = 0;
    while i < flags.len()
        invariant
            i <= flags@.len(),
            flags@.len() == chosen@.len(),
            forall|i: int| 0 <= i < chosen@.len() ==> (#[trigger] chosen@[i]) == taken.contains(i),
            match found {
                Some(p) => first_free(flags@.take(i as int), taken) == Some(p as int) && p < i,
                None => first_free(flags@.take(i as int), taken) is None,
            },
        decreases flags@.len() - i,
    {
        assert(flags@.take(i + 1).drop_last() =~= flags@.take(i as int));
        if found.is_none() && flags[i] && !chosen[i] {
            found = Some(i);
        }
        i = i + 1;
    }
    assert(flags@.take(i as int) =~= flags@);
    found
}

/// Draws anywhere all seeds that are missing.
fn fill<A: Fn(u64, usize) -> usize>(
    sample: &[Row],
    k: usize,
    rng: u64,
    anywhere: &A,
    centroids: &mut Vec<Row>,
    Ghost(before): Ghost<Drawn>,
) -> (after: Ghost<Drawn>)
    requires
        sample@.len() > 0,
        before.seeds.len() <= k,
        rng == random(42, before.draws),
        forall|x: u64, n: usize| call_requires(*anywhere, (x, n)),
        old(centroids)@ == rows_at(sample@, before.seeds),
    ensures
        are_anywhere(*anywhere, sample@.len(), k as nat, before, after@),
        final(centroids)@ == rows_at(sample@, after@.seeds),
{
    let n: usize = sample.len();
    let mut x: u64 = rng;
    let ghost mut now = before;
    assert(now.seeds.take(before.seeds.len() as int) =~= before.seeds);
    while centroids.len() < k
        invariant
            n == sample@.len() > 0,
            forall|x: u64, n: usize| call_requires(*anywhere, (x, n)),
            before.seeds.len() <= now.seeds.len() <= k,
            x == random(42, now.draws),
            are_anywhere(*anywhere, n as nat, now.seeds.len(), before, now),
            centroids@ == rows_at(sample@, now.seeds),
        decreases k - centroids@.len(),
    {
        x = draw(x);
        let i: usize = anywhere(x / 0x2_0000_0000, n);
        let at: usize = i % n;
        centroids.push(sample[at]);
        proof {
            let old_now = now;
            now = Drawn { seeds: old_now.seeds.push(at as int), draws: old_now.draws + 1 };
            assert(x / 0x2_0000_0000 == bits(now.draws));
            assert(call_ensures(*anywhere, (bits(now.draws), n), i));
            assert(is_anywhere(*anywhere, n as nat, now.draws, at as int));
            assert(now.seeds.take(before.seeds.len() as int) =~= before.seeds);
            assert forall|j: int| before.seeds.len() <= j < now.seeds.len() implies is_anywhere(
                *anywhere,
                n as nat,
                (before.draws + j - before.seeds.len() + 1) as nat,
                #[trigger] now.seeds[j],
            ) by {
                if j < old_now.seeds.len() {
                    assert(now.seeds[j] == old_now.seeds[j]);
                }
            }
            assert(centroids@ =~= rows_at(sample@, now.seeds));
        }
    }
    Ghost(now)
}

/// The flags mark the seeds.
spec fn marks(chosen: Seq<bool>, n: nat, seeds: Seq<int>) -> bool {
    &&& chosen.len() == n
    &&& forall|i: int| 0 <= i < n ==> (#[trigger] chosen[i]) == seeds.contains(i)
}

/// Marking one more seed.
proof fn one_more_mark(chosen: Seq<bool>, n: nat, seeds: Seq<int>, at: int)
    requires
        marks(chosen, n, seeds),
        0 <= at < n,
    ensures
        marks(chosen.update(at, true), n, seeds.push(at)),
{
    let more = seeds.push(at);
    assert forall|i: int| 0 <= i < n implies (#[trigger] chosen.update(at, true)[i])
        == more.contains(i) by {
        if seeds.contains(i) {
            let j = choose|j: int| 0 <= j < seeds.len() && seeds[j] == i;
            assert(more[j] == i);
        } else if i == at {
            assert(more[seeds.len() as int] == i);
        }
    }
}

/// One more round follows those before it.
proof fn one_more_round<
    D: Fn(&Row, &Row) -> F32Bits,
    A: Fn(u64, usize) -> usize,
    W: Fn(&Vec<F32Bits>) -> bool,
    R: Fn(&Vec<F32Bits>, u64) -> Vec<bool>,
>(
    dist: D,
    anywhere: A,
    spread: W,
    reach: R,
    rows: Seq<Row>,
    k: nat,
    states: Seq<Drawn>,
    now: Drawn,
)
    requires
        are_seed_rounds(dist, anywhere, spread, reach, rows, k, states),
        states.last().seeds.len() < k,
        is_seed_round(dist, anywhere, spread, reach, rows, k, states.last(), now),
    ensures
        are_seed_rounds(dist, anywhere, spread, reach, rows, k, states.push(now)),
{
    let more = states.push(now);
    assert(more[0] == states[0]);
    assert forall|t: int| 0 <= t < more.len() - 1 implies #[trigger] has_round(
        dist,
        anywhere,
        spread,
        reach,
        rows,
        k,
        more,
        t,
    ) by {
        assert(more[t] == states[t]);
        if t < states.len() - 1 {
            assert(has_round(dist, anywhere, spread, reach, rows, k, states, t));
            assert(more[t + 1] == states[t + 1]);
        }
    }
}

/// Draws one seed by the distances, if a vector that is not a seed yet is
/// reached.
fn draw_one<R: Fn(&Vec<F32Bits>, u64) -> Vec<bool>>(
    sample: &[Row],
    weights: &Vec<F32Bits>,
    reach: &R,
    rng: &mut u64,
    chosen: &mut Vec<bool>,
    centroids: &mut Vec<Row>,
    Ghost(before): Ghost<Drawn>,
) -> (after: Ghost<Drawn>)
    requires
        weights@.len() == sample@.len(),
        forall|w: &Vec<F32Bits>, x: u64| call_requires(*reach, (w, x)),
        forall|w: &Vec<F32Bits>, x: u64, flags: Vec<bool>|
            #[trigger] call_ensures(*reach, (w, x), flags) ==> flags@.len() == w@.len(),
        *old(rng) == random(42, before.draws),
        marks(old(chosen)@, sample@.len(), before.seeds),
        old(centroids)@ == rows_at(sample@, before.seeds),
    ensures
        is_hit(*reach, *weights, before, after@),
        after@.seeds.len() <= before.seeds.len() + 1,
        *final(rng) == random(42, after@.draws),
        marks(final(chosen)@, sample@.len(), after@.seeds),
        final(centroids)@ == rows_at(sample@, after@.seeds),
{
    *rng = draw(*rng);
    let flags: Vec<bool> = reach(weights, *rng / 0x2_0000_0000);
    let found: Option<usize> = find_free(&flags, chosen, Ghost(before.seeds));
    let ghost after = Drawn {
        seeds: match first_free(flags@, before.seeds) {
            Some(i) => before.seeds.push(i),
            None => before.seeds,
        },
        draws: before.draws + 1,
    };
    proof {
        assert(*rng / 0x2_0000_0000 == bits((before.draws + 1) as nat));
        assert(call_ensures(*reach, (weights, bits((before.draws + 1) as nat)), flags));
    }
    if let Some(at) = found {
        proof {
            one_more_mark(chosen@, sample@.len(), before.seeds, at as int);
        }
        centroids.push(sample[at]);
        chosen.set(at, true);
        assert(centroids@ =~= rows_at(sample@, after.seeds));
    }
    Ghost(after)
}

/// One round of drawing seeds.
fn seed_round<
    D: Fn(&Row, &Row) -> F32Bits,
    A: Fn(u64, usize) -> usize,
    W: Fn(&Vec<F32Bits>) -> bool,
    R: Fn(&Vec<F32Bits>, u64) -> Vec<bool>,
>(
    sample: &[Row],
    k: usize,
    dist: &D,
    anywhere: &A,
    spread: &W,
    reach: &R,
    rng: &mut u64,
    chosen: &mut Vec<bool>,
    centroids: &mut Vec<Row>,
    Ghost(before): Ghost<Drawn>,
) -> (after: Ghost<Drawn>)
    requires
        sample@.len() > 0,
        before.seeds.len() < k,
        forall|a: &Row, b: &Row| call_requires(*dist, (a, b)),
        forall|x: u64, n: usize| call_requires(*anywhere, (x, n)),
        forall|w: &Vec<F32Bits>| call_requires(*spread, (w,)),
        forall|w: &Vec<F32Bits>, x: u64| call_requires(*reach, (w, x)),
        forall|w: &Vec<F32Bits>, x: u64, flags: Vec<bool>|
            #[trigger] call_ensures(*reach, (w, x), flags) ==> flags@.len() == w@.len(),
        *old(rng) == random(42, before.draws),
        marks(old(chosen)@, sample@.len(), before.seeds),
        old(centroids)@ == rows_at(sample@, before.seeds),
    ensures
        is_seed_round(
            *dist,
            *anywhere,
            *spread,
            *reach,
            sample@,
            k as nat,
            before,
            after@,
        ),
        after@.seeds.len() <= k,
        final(centroids)@ == rows_at(sample@, after@.seeds),
        after@.seeds.len() < k ==> *final(rng) == random(42, after@.draws) && marks(
            final(chosen)@,
            sample@.len(),
            after@.seeds,
        ),
{
    let weights: Vec<F32Bits> = weigh(sample, centroids, dist);
    assert(are_weights(*dist, sample@, before.seeds, weights@));
    let is_spread: bool = spread(&weights);
    let after: Ghost<Drawn> = if is_spread {
        draw_one(sample, &weights, reach, rng, chosen, centroids, Ghost(before))
    } else {
        fill(sample, k, *rng, anywhere, centroids, Ghost(before))
    };
    assert(call_ensures(*spread, (&weights,), is_spread));
    after
}

/// Draws `k` seeds from the sample.
///
/// The first is drawn anywhere. Each later one is drawn by the distances of all
/// vectors to the nearest seed: `spread` tells whether their sum is above zero,
/// and `reach` which running sums reach a random part of it. Where no vector
/// that is not a seed yet is reached, it is drawn again. `None` if so many
/// rounds were not enough.
pub fn draw_seeds<
    D: Fn(&Row, &Row) -> F32Bits,
    A: Fn(u64, usize) -> usize,
    W: Fn(&Vec<F32Bits>) -> bool,
    R: Fn(&Vec<F32Bits>, u64) -> Vec<bool>,
>(
    sample: &[Row],
    k: usize,
    rounds: usize,
    dist: &D,
    anywhere: &A,
    spread: &W,
    reach: &R,
) -> (r: Option<Vec<Row>>)
    requires
        sample@.len() > 0,
        k > 0,
        forall|a: &Row, b: &Row| call_requires(*dist, (a, b)),
        forall|x: u64, n: usize| call_requires(*anywhere, (x, n)),
        forall|w: &Vec<F32Bits>| call_requires(*spread, (w,)),
        forall|w: &Vec<F32Bits>, x: u64| call_requires(*reach, (w, x)),
        forall|w: &Vec<F32Bits>, x: u64, flags: Vec<bool>|
            #[trigger] call_ensures(*reach, (w, x), flags) ==> flags@.len() == w@.len(),
    ensures
        exists|states: Seq<Drawn>|
            #[trigger] are_seed_rounds(
                *dist,
                *anywhere,
                *spread,
                *reach,
                sample@,
                k as nat,
                states,
            ) && states.len() <= rounds + 1 && match r {
                Some(seeds) => seeds@.len() == k && seeds@ == rows_at(
                    sample@,
                    states.last().seeds,
                ),
                None => states.len() == rounds + 1 && states.last().seeds.len() < k,
            },
{
    let n: usize = sample.len();
    let mut rng: u64 = draw(42);
    let any: usize = anywhere(rng / 0x2_0000_0000, n);
    let first: usize = any % n;
    let mut chosen: Vec<bool> = Vec::new();
    let mut i: usize = 0;
    while i < n
        invariant
            i <= n,
            chosen@.len() == i,
            forall|j: int| 0 <= j < i ==> (#[trigger] chosen@[j]) == (j == first),
        decreases n - i,
    {
        chosen.push(i == first);
        i = i + 1;
    }
    let mut centroids: Vec<Row> = Vec::new();
    centroids.push(sample[first]);
    let ghost mut now = Drawn { seeds: seq![first as int], draws: 1 };
    let ghost mut states = seq![now];
    proof {
        reveal_with_fuel(random, 2);
        assert(call_ensures(*anywhere, (bits(1), n), any));
        assert forall|i: int| 0 <= i < n implies (#[trigger] chosen@[i]) == now.seeds.contains(
            i,
        ) by {
            assert(now.seeds[0] == first);
        }
        assert(centroids@ =~= rows_at(sample@, now.seeds));
    }
    let mut round: usize = 0;
    while centroids.len() < k
        invariant
            sample@.len() > 0,
            k > 0,
            forall|a: &Row, b: &Row| call_requires(*dist, (a, b)),
            forall|x: u64, n: usize| call_requires(*anywhere, (x, n)),
            forall|w: &Vec<F32Bits>| call_requires(*spread, (w,)),
            forall|w: &Vec<F32Bits>, x: u64| call_requires(*reach, (w, x)),
            forall|w: &Vec<F32Bits>, x: u64, flags: Vec<bool>|
                #[trigger] call_ensures(*reach, (w, x), flags) ==> flags@.len() == w@.len(),
            round <= rounds,
            states.len() == round + 1,
            states.last() == now,
            are_seed_rounds(*dist, *anywhere, *spread, *reach, sample@, k as nat, states),
            now.seeds.len() <= k,
            centroids@ == rows_at(sample@, now.seeds),
            now.seeds.len() < k ==> rng == random(42, now.draws) && marks(
                chosen@,
                sample@.len(),
                now.seeds,
            ),
        decreases rounds - round,
    {
        if round >= rounds {
            return None;
        }
        let ghost before = now;
        let after: Ghost<Drawn> = seed_round(
            sample,
            k,
            dist,
            anywhere,
            spread,
            reach,
            &mut rng,
            &mut chosen,
            &mut centroids,
            Ghost(now),
        );
        proof {
            now = after@;
            one_more_round(
                *dist,
                *anywhere,
                *spread,
                *reach,
                sample@,
                k as nat,
                states,
                now,
            );
            states = states.push(now);
        }
        round = round + 1;
    }
    Some(centroids)
}

/// Every vector may be assigned to its nearest centroid so.
pub open spec fn are_at_nearest<D: Fn(&Row, &Row) -> F32Bits>(
    dist: D,
    rows: Seq<Row>,
    centroids: Seq<Row>,
    assignments: Seq<usize>,
) -> bool {
    are_nearest(dist, rows, centroids, assignments.map_values(|a: usize| a as int))
}

/// Assigns every vector to its nearest centroid, and tells whether one moved.
fn reassign<D: Fn(&Row, &Row) -> F32Bits>(
    sample: &[Row],
    centroids: &Vec<Row>,
    assignments: &mut Vec<usize>,
    dist: &D,
) -> (changed: bool)
    requires
        old(assignments)@.len() == sample@.len(),
        centroids@.len() > 0,
        forall|a: &Row, b: &Row| call_requires(*dist, (a, b)),
    ensures
        are_at_nearest(*dist, sample@, centroids@, final(assignments)@),
        changed == (final(assignments)@ != old(assignments)@),
        final(assignments)@.len() == sample@.len(),
        forall|i: int|
            0 <= i < sample@.len() ==> (#[trigger] final(assignments)@[i]) < centroids@.len(),
{
    let ghost before = assignments@;
    let mut changed: bool = false;
    let mut i: usize = 0;
    while i < sample.len()
        invariant
            i <= sample@.len(),
            before.len() == sample@.len(),
            assignments@.len() == sample@.len(),
            centroids@.len() > 0,
            forall|a: &Row, b: &Row| call_requires(*dist, (a, b)),
            forall|j: int|
                0 <= j < i ==> nearest_at(
                    *dist,
                    sample@[j],
                    centroids@,
                    (#[trigger] assignments@[j]) as int,
                ) && assignments@[j] < centroids@.len(),
            forall|j: int| i <= j < sample@.len() ==> (#[trigger] assignments@[j]) == before[j],
            changed == exists|j: int| 0 <= j < i && (#[trigger] assignments@[j]) != before[j],
        decreases sample@.len() - i,
    {
        let found: (F32Bits, usize) = nearest(&sample[i], centroids, dist);
        let c: usize = found.1;
        assert(is_nearest(*dist, sample@[i as int], centroids@, (found.0, c as int)));
        assert(nearest_at(*dist, sample@[i as int], centroids@, c as int));
        let ghost old_assignments = assignments@;
        let moves: bool = assignments[i] != c;
        assignments.set(i, c);
        proof {
            if moves {
                assert(assignments@[i as int] != before[i as int]);
            } else if changed {
                let j = choose|j: int|
                    0 <= j < i && (#[trigger] old_assignments[j]) != before[j];
                assert(assignments@[j] != before[j]);
            }
            assert forall|j: int| 0 <= j < i implies assignments@[j] == old_assignments[j] by {}
        }
        changed = changed || moves;
        i = i + 1;
    }
    proof {
        let best = assignments@.map_values(|a: usize| a as int);
        assert forall|j: int| 0 <= j < sample@.len() implies nearest_at(
            *dist,
            sample@[j],
            centroids@,
            #[trigger] best[j],
        ) by {
            assert(best[j] == assignments@[j] as int);
        }
        if !changed {
            assert(assignments@ =~= before);
        }
    }
    changed
}

/// Centroids, and the centroids that vectors are assigned to.
pub ghost struct Refined {
    pub centroids: Seq<Row>,
    pub assignments: Seq<usize>,
}

/// State `t` is moved to the next: some vectors go to another centroid, and the
/// centroids to the averages of their vectors.
pub open spec fn has_move<D: Fn(&Row, &Row) -> F32Bits, M: Fn(&Vec<Row>) -> Row>(
    dist: D,
    mean: M,
    rows: Seq<Row>,
    states: Seq<Refined>,
    t: int,
) -> bool {
    &&& are_at_nearest(dist, rows, states[t].centroids, states[t + 1].assignments)
    &&& states[t + 1].assignments != states[t].assignments
    &&& states[t + 1].centroids.len() == states[t].centroids.len()
    &&& are_averages(mean, rows, states[t + 1].assignments, states[t + 1].centroids)
}

/// Moves, one after the other.
pub open spec fn are_moves<D: Fn(&Row, &Row) -> F32Bits, M: Fn(&Vec<Row>) -> Row>(
    dist: D,
    mean: M,
    rows: Seq<Row>,
    states: Seq<Refined>,
) -> bool {
    &&& states.len() > 0
    &&& forall|t: int| 0 <= t < states.len() - 1 ==> #[trigger] has_move(dist, mean, rows, states, t)
}

/// Centroids may come out of at most so many moves from these seeds. It stops
/// before if no vector would go to another centroid.
pub open spec fn centroids_come_out<D: Fn(&Row, &Row) -> F32Bits, M: Fn(&Vec<Row>) -> Row>(
    dist: D,
    mean: M,
    rows: Seq<Row>,
    seeds: Seq<Row>,
    max_iter: nat,
    out: Seq<Row>,
) -> bool {
    exists|states: Seq<Refined>|
        #[trigger] are_moves(dist, mean, rows, states) && states[0] == Refined {
            centroids: seeds,
            assignments: Seq::new(rows.len(), |i: int| 0usize),
        } && states.last().centroids == out && states.len() <= max_iter + 1 && (states.len()
            == max_iter + 1 || are_at_nearest(dist, rows, out, states.last().assignments))
}

/// Where it stops before all moves were made, and after at least one, the
/// clusters are at rest: every vector is at its nearest centroid, and every
/// centroid is the average of its vectors.
pub proof fn early_stop_is_at_rest<D: Fn(&Row, &Row) -> F32Bits, M: Fn(&Vec<Row>) -> Row>(
    dist: D,
    mean: M,
    rows: Seq<Row>,
    states: Seq<Refined>,
)
    requires
        are_moves(dist, mean, rows, states),
        states.len() > 1,
        are_at_nearest(dist, rows, states.last().centroids, states.last().assignments),
    ensures
        are_averages(mean, rows, states.last().assignments, states.last().centroids),
        are_at_nearest(dist, rows, states.last().centroids, states.last().assignments),
{
    assert(has_move(dist, mean, rows, states, states.len() - 2));
}

/// Moves seeds until no vector changes its centroid, or there were enough moves.
pub fn refine<D: Fn(&Row, &Row) -> F32Bits, M: Fn(&Vec<Row>) -> Row>(
    sample: &[Row],
    seeds: Vec<Row>,
    max_iter: usize,
    dist: &D,
    mean: &M,
) -> (r: Vec<Row>)
    requires
        seeds@.len() > 0,
        forall|a: &Row, b: &Row| call_requires(*dist, (a, b)),
        forall|v: &Vec<Row>| call_requires(*mean, (v,)),
    ensures
        centroids_come_out(*dist, *mean, sample@, seeds@, max_iter as nat, r@),
        r@.len() == seeds@.len(),
{
    let n: usize = sample.len();
    let k: usize = seeds.len();
    let ghost first = seeds@;
    let mut centroids: Vec<Row> = seeds;
    let mut assignments: Vec<usize> = Vec::new();
    let mut i: usize = 0;
    while i < n
        invariant
            i <= n,
            assignments@ == Seq::new(i as nat, |i: int| 0usize),
        decreases n - i,
    {
        assignments.push(0);
        i = i + 1;
        assert(assignments@ =~= Seq::new(i as nat, |i: int| 0usize));
    }
    let ghost start = Refined { centroids: first, assignments: assignments@ };
    let ghost mut states = seq![start];
    let mut iter: usize = 0;
    let mut resting: bool = false;
    while iter < max_iter && !resting
        invariant
            iter <= max_iter,
            n == sample@.len(),
            k > 0,
            centroids@.len() == k,
            assignments@.len() == n,
            forall|a: &Row, b: &Row| call_requires(*dist, (a, b)),
            forall|v: &Vec<Row>| call_requires(*mean, (v,)),
            are_moves(*dist, *mean, sample@, states),
            states[0] == start,
            states.last() == (Refined { centroids: centroids@, assignments: assignments@ }),
            !resting ==> states.len() == iter + 1,
            states.len() <= iter + 1,
            resting ==> are_at_nearest(*dist, sample@, centroids@, assignments@),
        decreases max_iter - iter,
    {
        let ghost before = assignments@;
        let changed: bool = reassign(sample, &centroids, &mut assignments, dist);
        if changed {
            let ghost old_states = states;
            centroids = update_centroids(sample, &assignments, k, mean);
            proof {
                let after = Refined { centroids: centroids@, assignments: assignments@ };
                states = old_states.push(after);
                let last = old_states.len() - 1;
                assert(states[last] == old_states[last]);
                assert(has_move(*dist, *mean, sample@, states, last));
                assert forall|t: int| 0 <= t < states.len() - 1 implies #[trigger] has_move(
                    *dist,
                    *mean,
                    sample@,
                    states,
                    t,
                ) by {
                    if t < last {
                        assert(has_move(*dist, *mean, sample@, old_states, t));
                        assert(states[t] == old_states[t] && states[t + 1] == old_states[t + 1]);
                    }
                }
            }
        } else {
            resting = true;
        }
        iter = iter + 1;
    }
    centroids
}

/// What k-means may give for a sample: centroids that come out of the seeds that
/// were drawn, or none where so many rounds were not enough to draw them.
pub open spec fn kmeans_gives<
    D: Fn(&Row, &Row) -> F32Bits,
    A: Fn(u64, usize) -> usize,
    W: Fn(&Vec<F32Bits>) -> bool,
    R: Fn(&Vec<F32Bits>, u64) -> Vec<bool>,
    M: Fn(&Vec<Row>) -> Row,
>(
    dist: D,
    anywhere: A,
    spread: W,
    reach: R,
    mean: M,
    rows: Seq<Row>,
    k: nat,
    max_iter: nat,
    rounds: nat,
    out: Option<Seq<Row>>,
) -> bool {
    exists|states: Seq<Drawn>|
        #[trigger] are_seed_rounds(
            dist,
            anywhere,
            spread,
            reach,
            rows,
            clusters_of(rows.len(), k),
            states,
        ) && states.len() <= rounds + 1 && match out {
            Some(centroids) => centroids.len() == clusters_of(rows.len(), k) && centroids_come_out(
                dist,
                mean,
                rows,
                rows_at(rows, states.last().seeds),
                max_iter,
                centroids,
            ),
            None => states.len() == rounds + 1 && states.last().seeds.len() < clusters_of(
                rows.len(),
                k,
            ),
        }
}

/// Finds centroids of a sample by k-means. `None` if the seeds could not be
/// drawn in so many rounds.
pub fn kmeans_f32<
    D: Fn(&Row, &Row) -> F32Bits,
    A: Fn(u64, usize) -> usize,
    W: Fn(&Vec<F32Bits>) -> bool,
    R: Fn(&Vec<F32Bits>, u64) -> Vec<bool>,
    M: Fn(&Vec<Row>) -> Row,
>(
    sample: &[Row],
    k: usize,
    max_iter: usize,
    rounds: usize,
    dist: &D,
    anywhere: &A,
    spread: &W,
    reach: &R,
    mean: &M,
) -> (r: Option<Vec<Row>>)
    requires
        sample@.len() > 0,
        forall|a: &Row, b: &Row| call_requires(*dist, (a, b)),
        forall|x: u64, n: usize| call_requires(*anywhere, (x, n)),
        forall|w: &Vec<F32Bits>| call_requires(*spread, (w,)),
        forall|w: &Vec<F32Bits>, x: u64| call_requires(*reach, (w, x)),
        forall|w: &Vec<F32Bits>, x: u64, flags: Vec<bool>|
            #[trigger] call_ensures(*reach, (w, x), flags) ==> flags@.len() == w@.len(),
        forall|v: &Vec<Row>| call_requires(*mean, (v,)),
    ensures
        kmeans_gives(
            *dist,
            *anywhere,
            *spread,
            *reach,
            *mean,
            sample@,
            k as nat,
            max_iter as nat,
            rounds as nat,
            match r {
                Some(centroids) => Some(centroids@),
                None => None,
            },
        ),
{
    let k: usize = effective_k(sample.len(), k);
    match draw_seeds(sample, k, rounds, dist, anywhere, spread, reach) {
        Some(seeds) => Some(refine(sample, seeds, max_iter, dist, mean)),
        None => None,
    }
}

} // verus!
