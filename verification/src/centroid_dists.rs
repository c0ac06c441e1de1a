//! The distances of a query to the centroids of the server's index.
//!
//! Which numbers are added up in which order is decided here; the sums are
//! formed by functions that the caller hands in.

use vstd::prelude::*;
use crate::data::Dataset;
use crate::float_bits::F32Bits;

verus! {

/// One more dimension of a distance. Centroids are taken in groups of eight, with
/// one rounding for each dimension; those that are left over are taken one by
/// one, with two.
pub open spec fn is_added<
    F: Fn(F32Bits, F32Bits, F32Bits) -> F32Bits,
    P: Fn(F32Bits, F32Bits, F32Bits) -> F32Bits,
>(
    fused: F,
    plain: P,
    k: nat,
    c: int,
    before: F32Bits,
    centroid: F32Bits,
    query: F32Bits,
    after: F32Bits,
) -> bool {
    if c < k / 8 * 8 {
        call_ensures(fused, (before, centroid, query), after)
    } else {
        call_ensures(plain, (before, centroid, query), after)
    }
}

/// `sums` may be the distances of a query to centroid `c` in the first
/// dimension, in the first two, and so on.
pub open spec fn are_partial_sums<
    S: Fn(F32Bits, F32Bits) -> F32Bits,
    F: Fn(F32Bits, F32Bits, F32Bits) -> F32Bits,
    P: Fn(F32Bits, F32Bits, F32Bits) -> F32Bits,
>(
    square: S,
    fused: F,
    plain: P,
    query: Seq<F32Bits>,
    centroids: Seq<F32Bits>,
    k: nat,
    c: int,
    sums: Seq<F32Bits>,
) -> bool {
    &&& sums.len() > 0
    &&& call_ensures(square, (centroids[c], query[0]), sums[0])
    &&& forall|d: int|
        0 <= d < sums.len() - 1 ==> #[trigger] next_sum(
            fused,
            plain,
            query,
            centroids,
            k,
            c,
            sums,
            d,
        )
}

/// The partial sum behind that of dimension `d`.
pub open spec fn next_sum<
    F: Fn(F32Bits, F32Bits, F32Bits) -> F32Bits,
    P: Fn(F32Bits, F32Bits, F32Bits) -> F32Bits,
>(
    fused: F,
    plain: P,
    query: Seq<F32Bits>,
    centroids: Seq<F32Bits>,
    k: nat,
    c: int,
    sums: Seq<F32Bits>,
    d: int,
) -> bool {
    is_added(
        fused,
        plain,
        k,
        c,
        sums[d],
        centroids[(d + 1) * k + c],
        query[d + 1],
        sums[d + 1],
    )
}

/// `dist` may be the distance of a query to centroid `c` in the first `dims`
/// dimensions.
pub open spec fn is_partial_dist<
    S: Fn(F32Bits, F32Bits) -> F32Bits,
    F: Fn(F32Bits, F32Bits, F32Bits) -> F32Bits,
    P: Fn(F32Bits, F32Bits, F32Bits) -> F32Bits,
>(
    square: S,
    fused: F,
    plain: P,
    query: Seq<F32Bits>,
    centroids: Seq<F32Bits>,
    k: nat,
    c: int,
    dims: nat,
    dist: F32Bits,
) -> bool {
    exists|sums: Seq<F32Bits>|
        #[trigger] are_partial_sums(square, fused, plain, query, centroids, k, c, sums)
            && sums.len() == dims && sums.last() == dist
}

/// Adding a dimension to a distance.
proof fn one_more_dimension<
    S: Fn(F32Bits, F32Bits) -> F32Bits,
    F: Fn(F32Bits, F32Bits, F32Bits) -> F32Bits,
    P: Fn(F32Bits, F32Bits, F32Bits) -> F32Bits,
>(
    square: S,
    fused: F,
    plain: P,
    query: Seq<F32Bits>,
    centroids: Seq<F32Bits>,
    k: nat,
    c: int,
    dims: nat,
    before: F32Bits,
    after: F32Bits,
)
    requires
        is_partial_dist(square, fused, plain, query, centroids, k, c, dims, before),
        is_added(
            fused,
            plain,
            k,
            c,
            before,
            centroids[dims * k + c],
            query[dims as int],
            after,
        ),
    ensures
        is_partial_dist(square, fused, plain, query, centroids, k, c, dims + 1, after),
{
    let sums = choose|sums: Seq<F32Bits>|
        #[trigger] are_partial_sums(square, fused, plain, query, centroids, k, c, sums)
            && sums.len() == dims && sums.last() == before;
    let more = sums.push(after);
    assert forall|d: int| 0 <= d < more.len() - 1 implies #[trigger] next_sum(
        fused,
        plain,
        query,
        centroids,
        k,
        c,
        more,
        d,
    ) by {
        if d < sums.len() - 1 {
            assert(next_sum(fused, plain, query, centroids, k, c, sums, d));
        }
    }
    assert(are_partial_sums(square, fused, plain, query, centroids, k, c, more));
}

/// Computes the distances of a query to the centroids, dimension by dimension.
///
/// `square` squares the difference of two numbers; `fused` and `plain` add such
/// a square to a number, with one rounding and with two.
pub fn compute_centroid_dists<
    S: Fn(F32Bits, F32Bits) -> F32Bits,
    F: Fn(F32Bits, F32Bits, F32Bits) -> F32Bits,
    P: Fn(F32Bits, F32Bits, F32Bits) -> F32Bits,
>(query: &[F32Bits; 14], ds: &Dataset, square: &S, fused: &F, plain: &P) -> (r: Vec<F32Bits>)
    requires
        ds@.centroids.len() == 14 * ds@.k,
        forall|c: F32Bits, q: F32Bits| call_requires(*square, (c, q)),
        forall|a: F32Bits, c: F32Bits, q: F32Bits| call_requires(*fused, (a, c, q)),
        forall|a: F32Bits, c: F32Bits, q: F32Bits| call_requires(*plain, (a, c, q)),
    ensures
        r@.len() == ds@.k,
        forall|c: int|
            0 <= c < ds@.k ==> is_partial_dist(
                *square,
                *fused,
                *plain,
                query@,
                ds@.centroids,
                ds@.k,
                c,
                14,
                #[trigger] r@[c],
            ),
{
    let k: usize = ds.k;
    let whole: usize = k / 8 * 8;
    let ghost cs = ds@.centroids;
    let mut r: Vec<F32Bits> = Vec::new();
    let mut c: usize = 0;
    while c < k
        invariant
            c <= k,
            k == ds.k,
            cs == ds@.centroids,
            cs.len() == 14 * k,
            forall|c: F32Bits, q: F32Bits| call_requires(*square, (c, q)),
            r@.len() == c,
            forall|j: int|
                0 <= j < c ==> is_partial_dist(
                    *square,
                    *fused,
                    *plain,
                    query@,
                    cs,
                    k as nat,
                    j,
                    1,
                    #[trigger] r@[j],
                ),
        decreases k - c,
    {
        let d: F32Bits = square(ds.centroids[c], query[0]);
        proof {
            let sums = seq![d];
            assert(are_partial_sums(
                *square,
                *fused,
                *plain,
                query@,
                cs,
                k as nat,
                c as int,
                sums,
            ));
        }
        r.push(d);
        c = c + 1;
    }
    let mut dim: usize = 1;
    while dim < 14
        invariant
            1 <= dim <= 14,
            k == ds.k,
            whole == k / 8 * 8,
            cs == ds@.centroids,
            cs.len() == 14 * k,
            forall|a: F32Bits, c: F32Bits, q: F32Bits| call_requires(*fused, (a, c, q)),
            forall|a: F32Bits, c: F32Bits, q: F32Bits| call_requires(*plain, (a, c, q)),
            r@.len() == k,
            forall|j: int|
                0 <= j < k ==> is_partial_dist(
                    *square,
                    *fused,
                    *plain,
                    query@,
                    cs,
                    k as nat,
                    j,
                    dim as nat,
                    #[trigger] r@[j],
                ),
        decreases 14 - dim,
    {
        assert(dim * k + k <= 14 * k) by (nonlinear_arith)
            requires
                dim < 14,
        ;
        let len: usize = ds.centroids.len();
        let base: usize = dim * k;
        let mut c: usize = 0;
        while c < k
            invariant
                c <= k,
                1 <= dim < 14,
                k == ds.k,
                whole == k / 8 * 8,
                base == dim * k,
                base + k <= len,
                len == cs.len(),
                cs == ds@.centroids,
                forall|a: F32Bits, c: F32Bits, q: F32Bits| call_requires(*fused, (a, c, q)),
                forall|a: F32Bits, c: F32Bits, q: F32Bits| call_requires(*plain, (a, c, q)),
                r@.len() == k,
                forall|j: int|
                    0 <= j < k ==> is_partial_dist(
                        *square,
                        *fused,
                        *plain,
                        query@,
                        cs,
                        k as nat,
                        j,
                        if j < c {
                            (dim + 1) as nat
                        } else {
                            dim as nat
                        },
                        #[trigger] r@[j],
                    ),
            decreases k - c,
        {
            let before: F32Bits = r[c];
            let centroid: F32Bits = ds.centroids[base + c];
            let after: F32Bits = if c < whole {
                fused(before, centroid, query[dim])
            } else {
                plain(before, centroid, query[dim])
            };
            proof {
                one_more_dimension(
                    *square,
                    *fused,
                    *plain,
                    query@,
                    cs,
                    k as nat,
                    c as int,
                    dim as nat,
                    before,
                    after,
                );
            }
            r.set(c, after);
            c = c + 1;
        }
        dim = dim + 1;
    }
    r
}

} // verus!
