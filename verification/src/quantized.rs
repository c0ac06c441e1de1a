//! The companion file of an index: its vectors with one byte for each number.

use vstd::prelude::*;
use crate::build_index::{low32, truncated};
use crate::bytes::{push_all, push_u32, push_u32s, u32_bytes, u32s_bytes};
use crate::float_bits::{float_less, is_nan, less, place, F32Bits, MAX_FINITE};
use crate::gz::{gunzipped, gzip, gzipped};
use crate::index::DIMS;
use crate::kmeans::{smallest, Row};

verus! {

/// The pattern of the smallest finite number.
pub const MIN_FINITE: F32Bits = 0xff7f_ffff;

/// The greatest of some numbers that is above the smallest finite one; that one
/// if there is none.
pub open spec fn greatest_of(values: Seq<F32Bits>) -> F32Bits
    decreases values.len(),
{
    if values.len() == 0 {
        MIN_FINITE
    } else {
        let best = greatest_of(values.drop_last());
        if less(best, values.last()) {
            values.last()
        } else {
            best
        }
    }
}

/// No number is above the greatest.
pub proof fn greatest_is_greatest(values: Seq<F32Bits>)
    ensures
        !is_nan(greatest_of(values)),
        place(greatest_of(values)) >= place(MIN_FINITE),
        forall|i: int| 0 <= i < values.len() ==> !less(greatest_of(values), #[trigger] values[i]),
    decreases values.len(),
{
    if values.len() > 0 {
        let rest = values.drop_last();
        greatest_is_greatest(rest);
        assert forall|i: int| 0 <= i < values.len() implies !less(
            greatest_of(values),
            #[trigger] values[i],
        ) by {
            if i < rest.len() {
                assert(values[i] == rest[i]);
            }
        }
    }
}

/// The numbers of all vectors in one dimension.
pub open spec fn column(rows: Seq<Row>, d: int) -> Seq<F32Bits> {
    rows.map_values(|row: Row| row@[d])
}

/// Finds the least and the greatest number in each dimension.
pub fn value_ranges(rows: &[Row]) -> (r: (Row, Row))
    ensures
        forall|d: int| 0 <= d < 14 ==> (#[trigger] r.0@[d]) == smallest(column(rows@, d)).0,
        forall|d: int| 0 <= d < 14 ==> (#[trigger] r.1@[d]) == greatest_of(column(rows@, d)),
{
    let mut least: Row = [MAX_FINITE; 14];
    let mut greatest: Row = [MIN_FINITE; 14];
    let mut i: usize = 0;
    while i < rows.len()
        invariant
            i <= rows@.len(),
            forall|d: int|
                0 <= d < 14 ==> (#[trigger] least@[d]) == smallest(
                    column(rows@.take(i as int), d),
                ).0,
            forall|d: int|
                0 <= d < 14 ==> (#[trigger] greatest@[d]) == greatest_of(
                    column(rows@.take(i as int), d),
                ),
        decreases rows@.len() - i,
    {
        let mut d: usize = 0;
        while d < DIMS
            invariant
                d <= 14,
                i < rows@.len(),
                forall|e: int|
                    0 <= e < 14 ==> (#[trigger] least@[e]) == smallest(
                        column(
                            rows@.take(
                                if e < d {
                                    i + 1
                                } else {
                                    i as int
                                },
                            ),
                            e,
                        ),
                    ).0,
                forall|e: int|
                    0 <= e < 14 ==> (#[trigger] greatest@[e]) == greatest_of(
                        column(
                            rows@.take(
                                if e < d {
                                    i + 1
                                } else {
                                    i as int
                                },
                            ),
                            e,
                        ),
                    ),
            decreases 14 - d,
        {
            let value: F32Bits = rows[i][d];
            proof {
                let more = column(rows@.take(i + 1), d as int);
                assert(more.drop_last() =~= column(rows@.take(i as int), d as int));
                assert(more.last() == value);
            }
            if float_less(value, least[d]) {
                least[d] = value;
            }
            if float_less(greatest[d], value) {
                greatest[d] = value;
            }
            d = d + 1;
        }
        i = i + 1;
    }
    assert(rows@.take(i as int) =~= rows@);
    (least, greatest)
}

/// Makes bytes of vectors, one vector after the other in the given order.
/// `to_byte` gets a number and the least and the greatest of its dimension.
pub fn quantize<Q: Fn(F32Bits, F32Bits, F32Bits) -> u8>(
    rows: &[Row],
    order: &Vec<usize>,
    least: &Row,
    greatest: &Row,
    to_byte: &Q,
) -> (r: Vec<u8>)
    requires
        order@.len() * 14 <= usize::MAX,
        forall|p: int| 0 <= p < order@.len() ==> (#[trigger] order@[p]) < rows@.len(),
        forall|x: F32Bits, a: F32Bits, b: F32Bits| call_requires(*to_byte, (x, a, b)),
    ensures
        r@.len() == order@.len() * 14,
        forall|i: int|
            0 <= i < r@.len() ==> call_ensures(
                *to_byte,
                (rows@[order@[i / 14] as int]@[i % 14], least@[i % 14], greatest@[i % 14]),
                #[trigger] r@[i],
            ),
{
    let mut r: Vec<u8> = Vec::new();
    let mut p: usize = 0;
    while p < order.len()
        invariant
            p <= order@.len(),
            forall|p: int| 0 <= p < order@.len() ==> (#[trigger] order@[p]) < rows@.len(),
            forall|x: F32Bits, a: F32Bits, b: F32Bits| call_requires(*to_byte, (x, a, b)),
            r@.len() == p * 14,
            forall|i: int|
                0 <= i < r@.len() ==> call_ensures(
                    *to_byte,
                    (rows@[order@[i / 14] as int]@[i % 14], least@[i % 14], greatest@[i % 14]),
                    #[trigger] r@[i],
                ),
        decreases order@.len() - p,
    {
        let v: usize = order[p];
        let mut d: usize = 0;
        while d < DIMS
            invariant
                d <= 14,
                p < order@.len(),
                v == order@[p as int],
                v < rows@.len(),
                forall|x: F32Bits, a: F32Bits, b: F32Bits| call_requires(*to_byte, (x, a, b)),
                r@.len() == p * 14 + d,
                forall|i: int|
                    0 <= i < r@.len() ==> call_ensures(
                        *to_byte,
                        (rows@[order@[i / 14] as int]@[i % 14], least@[i % 14], greatest@[i % 14]),
                        #[trigger] r@[i],
                    ),
            decreases 14 - d,
        {
            assert((p * 14 + d) / 14 == p && (p * 14 + d) % 14 == d);
            r.push(to_byte(rows[v][d], least[d], greatest[d]));
            d = d + 1;
        }
        p = p + 1;
    }
    r
}

/// The companion file of byte-sized vectors: its magic, the number of vectors
/// and of dimensions, the least and the greatest value of each dimension, and
/// the values.
pub open spec fn quantized_file(
    count: nat,
    least: Seq<F32Bits>,
    greatest: Seq<F32Bits>,
    values: Seq<u8>,
) -> Seq<u8> {
    seq![0x51u8, 0x49, 0x38, 0x56] + u32_bytes(low32(count as int)) + u32_bytes(14) + u32s_bytes(
        least,
    ) + u32s_bytes(greatest) + values
}

/// Writes the companion file of byte-sized vectors as a gzip stream.
pub fn write_quantized(
    count: usize,
    least: &[F32Bits; 14],
    greatest: &[F32Bits; 14],
    values: &[u8],
) -> (r: Vec<u8>)
    ensures
        r@ == gzipped(quantized_file(count as nat, least@, greatest@, values@), 9),
        gunzipped(r@) == (quantized_file(count as nat, least@, greatest@, values@), true),
{
    let mut b: Vec<u8> = Vec::new();
    b.push(0x51);
    b.push(0x49);
    b.push(0x38);
    b.push(0x56);
    assert(b@ =~= seq![0x51u8, 0x49, 0x38, 0x56]);
    push_u32(&mut b, truncated(count));
    push_u32(&mut b, 14);
    push_u32s(&mut b, least.as_slice());
    push_u32s(&mut b, greatest.as_slice());
    push_all(&mut b, values);
    gzip(b.as_slice(), 9)
}

} // verus!
