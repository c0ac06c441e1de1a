//! Where clusters start: seeds drawn from the vectors.
//!
//! A vector is the likelier to be drawn the farther it is from the seeds drawn
//! before it. The sums of distances are formed by functions that the caller
//! hands in.

use vstd::prelude::*;
use crate::float_bits::{float_less, less, F32Bits, MAX_FINITE};
use crate::kmeans::Row;

verus! {

/// The next state of the random generator.
pub open spec fn next_random(x: u64) -> u64 {
    ((x * 6364136223846793005 + 1442695040888963407) % 0x1_0000_0000_0000_0000) as u64
}

/// The state of the random generator after `t` draws.
pub open spec fn random(seed: u64, t: nat) -> u64
    decreases t,
{
    if t == 0 {
        seed
    } else {
        next_random(random(seed, (t - 1) as nat))
    }
}

/// Draws from the random generator.
pub fn draw(x: u64) -> (r: u64)
    ensures
        r == next_random(x),
{
    ((x as u128 * 6364136223846793005 + 1442695040888963407) % 0x1_0000_0000_0000_0000) as u64
}

/// The start of the random generator of [`kmeans_plus_plus_init`].
pub const SEED: u64 = 0xdead_beef_cafe_babe;

/// Where the first flag is set of those that are not taken.
pub open spec fn first_free(flags: Seq<bool>, taken: Seq<int>) -> Option<int>
    decreases flags.len(),
{
    if flags.len() == 0 {
        None
    } else {
        match first_free(flags.drop_last(), taken) {
            Some(i) => Some(i),
            None => if flags.last() && !taken.contains(flags.len() - 1) {
                Some(flags.len() - 1)
            } else {
                None
            },
        }
    }
}

/// Where the first flag is set; 0 if none is.
pub open spec fn first_reached(flags: Seq<bool>) -> int {
    match first_free(flags, Seq::empty()) {
        Some(i) => i,
        None => 0,
    }
}

/// Finds where the first flag is set.
fn find_reached(flags: &Vec<bool>) -> (r: usize)
    requires
        flags@.len() > 0,
    ensures
        r == first_reached(flags@),
        r < flags@.len(),
{
    let mut found: Option<usize> = None;
    let mut i: usize = 0;
    while i < flags.len()
        invariant
            i <= flags@.len(),
            match found {
                Some(p) => first_free(flags@.take(i as int), Seq::empty()) == Some(p as int) && p
                    < i,
                None => first_free(flags@.take(i as int), Seq::empty()) is None,
            },
        decreases flags@.len() - i,
    {
        assert(flags@.take(i + 1).drop_last() =~= flags@.take(i as int));
        if found.is_none() && flags[i] {
            found = Some(i);
        }
        i = i + 1;
    }
    assert(flags@.take(i as int) =~= flags@);
    match found {
        Some(p) => p,
        None => 0,
    }
}

/// A distance after one more seed: the smaller one.
pub open spec fn relaxes_to<D: Fn(&Row, &Row) -> F32Bits>(
    dist: D,
    row: Row,
    seed: Row,
    before: F32Bits,
    after: F32Bits,
) -> bool {
    exists|d: F32Bits|
        #[trigger] call_ensures(dist, (&row, &seed), d) && after == if less(d, before) {
            d
        } else {
            before
        }
}

/// The distances to the nearest seed after one more seed, from those before it.
pub open spec fn are_relaxed<D: Fn(&Row, &Row) -> F32Bits>(
    dist: D,
    rows: Seq<Row>,
    seeds: Seq<int>,
    before: Seq<F32Bits>,
    after: Seq<F32Bits>,
) -> bool {
    &&& before.len() == rows.len()
    &&& after.len() == rows.len()
    &&& forall|i: int|
        0 <= i < rows.len() ==> if seeds.contains(i) {
            #[trigger] after[i] == 0
        } else {
            relaxes_to(dist, rows[i], rows[seeds.last()], before[i], after[i])
        }
}

/// Seeds may be drawn at these positions: the first anywhere, and each later
/// one by the distances to those before it.
pub open spec fn is_seeding<D: Fn(&Row, &Row) -> F32Bits, R: Fn(&Vec<F32Bits>, u64) -> Vec<bool>>(
    dist: D,
    reach: R,
    rows: Seq<Row>,
    seeds: Seq<int>,
    weights: Seq<Vec<F32Bits>>,
) -> bool {
    &&& seeds.len() > 0
    &&& weights.len() == seeds.len()
    &&& seeds[0] == random(SEED, 1) as int / 0x2_0000_0000 % rows.len() as int
    &&& weights[0]@ == Seq::new(rows.len(), |i: int| MAX_FINITE)
    &&& forall|t: int| 0 <= t < seeds.len() ==> 0 <= #[trigger] seeds[t] < rows.len()
    &&& forall|t: int|
        1 <= t < seeds.len() ==> is_draw(
            dist,
            reach,
            rows,
            seeds.take(t),
            weights[t - 1]@,
            weights[t],
            #[trigger] seeds[t],
        )
}

/// One more seed may be drawn at `at`.
pub open spec fn is_draw<D: Fn(&Row, &Row) -> F32Bits, R: Fn(&Vec<F32Bits>, u64) -> Vec<bool>>(
    dist: D,
    reach: R,
    rows: Seq<Row>,
    seeds: Seq<int>,
    before: Seq<F32Bits>,
    after: Vec<F32Bits>,
    at: int,
) -> bool {
    &&& are_relaxed(dist, rows, seeds, before, after@)
    &&& exists|flags: Vec<bool>|
        #[trigger] call_ensures(
            reach,
            (&after, (random(SEED, (seeds.len() + 1) as nat) as int / 2048) as u64),
            flags,
        ) && at == first_reached(flags@)
}

/// Seeds may come out of drawing `k` of them, or one if `k` is 0.
pub open spec fn seeds_come_out<
    D: Fn(&Row, &Row) -> F32Bits,
    R: Fn(&Vec<F32Bits>, u64) -> Vec<bool>,
>(dist: D, reach: R, rows: Seq<Row>, k: nat, out: Seq<Row>) -> bool {
    &&& out.len() == if k > 0 {
        k
    } else {
        1
    }
    &&& exists|seeds: Seq<int>, weights: Seq<Vec<F32Bits>>|
        #[trigger] is_seeding(dist, reach, rows, seeds, weights) && out == seeds.map_values(
            |i: int| rows[i],
        )
}

/// Takes one more seed into account.
fn relax<D: Fn(&Row, &Row) -> F32Bits>(
    vectors: &[Row],
    last: &Row,
    chosen: &Vec<bool>,
    dists: &Vec<F32Bits>,
    dist: &D,
    Ghost(seeds): Ghost<Seq<int>>,
) -> (r: Vec<F32Bits>)
    requires
        chosen@.len() == vectors@.len(),
        dists@.len() == vectors@.len(),
        seeds.len() > 0,
        0 <= seeds.last() < vectors@.len(),
        *last == vectors@[seeds.last()],
        forall|i: int| 0 <= i < chosen@.len() ==> (#[trigger] chosen@[i]) == seeds.contains(i),
        forall|a: &Row, b: &Row| call_requires(*dist, (a, b)),
    ensures
        are_relaxed(*dist, vectors@, seeds, dists@, r@),
{
    let mut r: Vec<F32Bits> = Vec::new();
    let mut i: usize = 0;
    while i < vectors.len()
        invariant
            i <= vectors@.len(),
            chosen@.len() == vectors@.len(),
            dists@.len() == vectors@.len(),
            *last == vectors@[seeds.last()],
            forall|i: int| 0 <= i < chosen@.len() ==> (#[trigger] chosen@[i]) == seeds.contains(i),
            forall|a: &Row, b: &Row| call_requires(*dist, (a, b)),
            r@.len() == i,
            forall|j: int|
                0 <= j < i ==> if seeds.contains(j) {
                    #[trigger] r@[j] == 0
                } else {
                    relaxes_to(*dist, vectors@[j], vectors@[seeds.last()], dists@[j], r@[j])
                },
        decreases vectors@.len() - i,
    {
        if chosen[i] {
            r.push(0);
        } else {
            let d: F32Bits = dist(&vectors[i], last);
            if float_less(d, dists[i]) {
                r.push(d);
            } else {
                r.push(dists[i]);
            }
            assert(relaxes_to(
                *dist,
                vectors@[i as int],
                vectors@[seeds.last()],
                dists@[i as int],
                r@[i as int],
            ));
        }
        i = i + 1;
    }
    r
}

/// Draws `k` seeds from the vectors, or one if `k` is 0.
///
/// `reach` gets the distance of each vector to its nearest seed and 53 random
/// bits, and tells which running sums of the distances reach that part of their
/// sum.
pub fn kmeans_plus_plus_init<
    D: Fn(&Row, &Row) -> F32Bits,
    R: Fn(&Vec<F32Bits>, u64) -> Vec<bool>,
>(vectors: &[Row], k: usize, dist: &D, reach: &R) -> (r: Vec<Row>)
    requires
        vectors@.len() > 0,
        forall|a: &Row, b: &Row| call_requires(*dist, (a, b)),
        forall|w: &Vec<F32Bits>, x: u64| call_requires(*reach, (w, x)),
        forall|w: &Vec<F32Bits>, x: u64, flags: Vec<bool>|
            #[trigger] call_ensures(*reach, (w, x), flags) ==> flags@.len() == w@.len(),
    ensures
        seeds_come_out(*dist, *reach, vectors@, k as nat, r@),
{
    let n: usize = vectors.len();
    let mut rng: u64 = draw(SEED);
    let first: usize = ((rng / 0x2_0000_0000) % (n as u64)) as usize;
    let mut chosen: Vec<bool> = Vec::new();
    let mut dists: Vec<F32Bits> = Vec::new();
    let mut i: usize = 0;
    while i < n
        invariant
            i <= n,
            chosen@.len() == i,
            dists@.len() == i,
            forall|j: int| 0 <= j < i ==> (#[trigger] chosen@[j]) == (j == first),
            forall|j: int| 0 <= j < i ==> (#[trigger] dists@[j]) == MAX_FINITE,
        decreases n - i,
    {
        chosen.push(i == first);
        dists.push(MAX_FINITE);
        i = i + 1;
    }
    let mut centroids: Vec<Row> = Vec::new();
    centroids.push(vectors[first]);
    let mut last: usize = first;
    let ghost mut seeds = seq![first as int];
    let ghost mut weights = seq![dists];
    proof {
        reveal_with_fuel(random, 2);
        assert(dists@ =~= Seq::new(n as nat, |i: int| MAX_FINITE));
        assert forall|i: int| 0 <= i < n implies (#[trigger] chosen@[i]) == seeds.contains(i) by {
            assert(seeds[0] == first);
        }
        assert(centroids@ =~= seeds.map_values(|i: int| vectors@[i]));
    }
    while centroids.len() < k
        invariant
            n == vectors@.len() > 0,
            forall|a: &Row, b: &Row| call_requires(*dist, (a, b)),
            forall|w: &Vec<F32Bits>, x: u64| call_requires(*reach, (w, x)),
            forall|w: &Vec<F32Bits>, x: u64, flags: Vec<bool>|
                #[trigger] call_ensures(*reach, (w, x), flags) ==> flags@.len() == w@.len(),
            1 <= centroids@.len(),
            centroids@.len() <= k || centroids@.len() == 1,
            is_seeding(*dist, *reach, vectors@, seeds, weights),
            centroids@ == seeds.map_values(|i: int| vectors@[i]),
            last == seeds.last(),
            weights.last() == dists,
            chosen@.len() == n,
            dists@.len() == n,
            forall|i: int| 0 <= i < n ==> (#[trigger] chosen@[i]) == seeds.contains(i),
            rng == random(SEED, seeds.len()),
        decreases k - centroids@.len(),
    {
        let after: Vec<F32Bits> = relax(
            vectors,
            &vectors[last],
            &chosen,
            &dists,
            dist,
            Ghost(seeds),
        );
        rng = draw(rng);
        let flags: Vec<bool> = reach(&after, rng / 2048);
        let at: usize = find_reached(&flags);
        centroids.push(vectors[at]);
        chosen.set(at, true);
        last = at;
        proof {
            let old_seeds = seeds;
            let old_weights = weights;
            seeds = old_seeds.push(at as int);
            weights = old_weights.push(after);
            assert(seeds.take(old_seeds.len() as int) =~= old_seeds);
            assert(call_ensures(
                *reach,
                (&after, (random(SEED, (old_seeds.len() + 1) as nat) as int / 2048) as u64),
                flags,
            ));
            assert(is_draw(*dist, *reach, vectors@, old_seeds, dists@, after, at as int));
            assert forall|t: int| 1 <= t < seeds.len() implies is_draw(
                *dist,
                *reach,
                vectors@,
                seeds.take(t),
                weights[t - 1]@,
                weights[t],
                #[trigger] seeds[t],
            ) by {
                if t < old_seeds.len() {
                    assert(seeds[t] == old_seeds[t]);
                    assert(seeds.take(t) =~= old_seeds.take(t));
                }
            }
            assert forall|i: int| 0 <= i < n implies (#[trigger] chosen@[i]) == seeds.contains(
                i,
            ) by {
                if old_seeds.contains(i) {
                    let j = choose|j: int| 0 <= j < old_seeds.len() && old_seeds[j] == i;
                    assert(seeds[j] == i);
                } else if i == at {
                    assert(seeds[old_seeds.len() as int] == i);
                }
            }
            assert(centroids@ =~= seeds.map_values(|i: int| vectors@[i]));
        }
        dists = after;
    }
    centroids
}

} // verus!
