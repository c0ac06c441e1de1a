//! How an index lays its vectors out and is written to bytes.
//!
//! Vectors are grouped by cluster. Each cluster is padded to whole blocks of
//! eight; a block holds its eight vectors dimension by dimension, eight values
//! after eight values.

use vstd::prelude::*;
use crate::bytes::{push_all, push_i16s, push_u32, push_u32s, i16s_bytes, u32_at, u32_bytes, u32s_bytes};
use crate::float_bits::F32Bits;

verus! {

/// The number of dimensions of a vector.
pub const DIMS: usize = 14;

/// The positions at which cluster `c` is assigned, in ascending order.
pub open spec fn members(assignments: Seq<u16>, c: int) -> Seq<usize>
    decreases assignments.len(),
{
    if assignments.len() == 0 {
        Seq::empty()
    } else {
        let r = members(assignments.drop_last(), c);
        if assignments.last() == c {
            r.push((assignments.len() - 1) as usize)
        } else {
            r
        }
    }
}

/// The members of each of `k` clusters.
pub open spec fn member_lists(assignments: Seq<u16>, k: nat) -> Seq<Seq<usize>> {
    Seq::new(k, |c: int| members(assignments, c))
}

/// The views of a vector of vectors.
pub open spec fn views(lists: Seq<Vec<usize>>) -> Seq<Seq<usize>> {
    Seq::new(lists.len(), |c: int| lists[c]@)
}

/// Groups the positions by the cluster assigned to them.
pub fn cluster_lists(assignments: &[u16], k: usize) -> (lists: Vec<Vec<usize>>)
    requires
        forall|i: int| 0 <= i < assignments@.len() ==> (#[trigger] assignments@[i]) < k,
    ensures
        views(lists@) == member_lists(assignments@, k as nat),
{
    let mut lists: Vec<Vec<usize>> = Vec::new();
    let mut c: usize = 0;
    while c < k
        invariant
            c <= k,
            lists@.len() == c,
            forall|j: int| 0 <= j < c ==> (#[trigger] lists@[j])@ == members(assignments@.take(0), j),
        decreases k - c,
    {
        lists.push(Vec::new());
        assert(lists@[c as int]@ =~= members(assignments@.take(0), c as int));
        c = c + 1;
    }
    let mut i: usize = 0;
    while i < assignments.len()
        invariant
            i <= assignments@.len(),
            lists@.len() == k,
            forall|i: int| 0 <= i < assignments@.len() ==> (#[trigger] assignments@[i]) < k,
            forall|j: int|
                0 <= j < k ==> (#[trigger] lists@[j])@ == members(assignments@.take(i as int), j),
        decreases assignments@.len() - i,
    {
        let a: usize = assignments[i] as usize;
        assert(assignments@.take(i + 1).drop_last() =~= assignments@.take(i as int));
        lists[a].push(i);
        i = i + 1;
    }
    assert(assignments@.take(i as int) =~= assignments@);
    assert(views(lists@) =~= member_lists(assignments@, k as nat));
    lists
}

/// `n` rounded up to whole blocks.
pub open spec fn padded(n: nat) -> nat {
    (n + 7) / 8 * 8
}

/// The labels of one cluster, padded with 0.
pub open spec fn cluster_labels(list: Seq<usize>, labels: Seq<u8>) -> Seq<u8> {
    Seq::new(
        padded(list.len()),
        |p: int|
            if p < list.len() {
                labels[list[p] as int]
            } else {
                0
            },
    )
}

/// The blocks of one cluster: position `p` of the cluster lies in block `p / 8`
/// at lane `p % 8`, once in each dimension; lanes past the end hold 0.
pub open spec fn cluster_blocks(list: Seq<usize>, rows: Seq<[i16; 14]>) -> Seq<i16> {
    Seq::new(
        padded(list.len()) * 14,
        |i: int|
            {
                let p = i / 112 * 8 + i % 8;
                if p < list.len() {
                    rows[list[p] as int]@[i % 112 / 8]
                } else {
                    0
                }
            },
    )
}

/// The labels of all clusters, one cluster after the other.
pub open spec fn laid_labels(lists: Seq<Seq<usize>>, labels: Seq<u8>) -> Seq<u8>
    decreases lists.len(),
{
    if lists.len() == 0 {
        Seq::empty()
    } else {
        laid_labels(lists.drop_last(), labels) + cluster_labels(lists.last(), labels)
    }
}

/// The blocks of all clusters, one cluster after the other.
pub open spec fn laid_blocks(lists: Seq<Seq<usize>>, rows: Seq<[i16; 14]>) -> Seq<i16>
    decreases lists.len(),
{
    if lists.len() == 0 {
        Seq::empty()
    } else {
        laid_blocks(lists.drop_last(), rows) + cluster_blocks(lists.last(), rows)
    }
}

/// The number of places that all clusters take, padding included.
pub open spec fn laid_len(lists: Seq<Seq<usize>>) -> nat
    decreases lists.len(),
{
    if lists.len() == 0 {
        0
    } else {
        laid_len(lists.drop_last()) + padded(lists.last().len())
    }
}

/// The value in dimension `d` of the vector at place `g`.
pub open spec fn block_value(blocks: Seq<i16>, g: int, d: int) -> i16 {
    blocks[g / 8 * 112 + d * 8 + g % 8]
}

/// All places hold a label, and all whole blocks hold their values.
pub proof fn laid_lengths(lists: Seq<Seq<usize>>, labels: Seq<u8>, rows: Seq<[i16; 14]>)
    ensures
        laid_labels(lists, labels).len() == laid_len(lists),
        laid_blocks(lists, rows).len() == laid_len(lists) * 14,
        laid_len(lists) % 8 == 0,
    decreases lists.len(),
{
    if lists.len() > 0 {
        laid_lengths(lists.drop_last(), labels, rows);
    }
}

/// The places of the first `c` clusters lie within those of all.
pub proof fn laid_len_grows(lists: Seq<Seq<usize>>, c: int)
    requires
        0 <= c <= lists.len(),
    ensures
        laid_len(lists.take(c)) <= laid_len(lists),
        c < lists.len() ==> laid_len(lists.take(c)) + padded(lists[c].len()) == laid_len(
            lists.take(c + 1),
        ),
    decreases lists.len(),
{
    if c == lists.len() {
        assert(lists.take(c) =~= lists);
    } else {
        assert(lists.take(c + 1).drop_last() =~= lists.take(c));
        if c + 1 == lists.len() {
            assert(lists.take(c + 1) =~= lists);
        } else {
            laid_len_grows(lists.drop_last(), c);
            assert(lists.drop_last().take(c) =~= lists.take(c));
        }
    }
}

/// The place of a value: `p` places behind a whole number of blocks.
proof fn value_place(start: int, p: int, d: int)
    requires
        start % 8 == 0,
        0 <= start,
        0 <= p,
        0 <= d < 14,
    ensures
        (start + p) / 8 * 112 + d * 8 + (start + p) % 8 == start * 14 + (p / 8 * 112 + d * 8 + p
            % 8),
        (p / 8 * 112 + d * 8 + p % 8) / 112 * 8 + (p / 8 * 112 + d * 8 + p % 8) % 8 == p,
        (p / 8 * 112 + d * 8 + p % 8) % 112 / 8 == d,
{
    let q = p / 8;
    let v = p % 8;
    let s = start / 8;
    assert(p == 8 * q + v && start == 8 * s);
    assert((start + p) / 8 == s + q && (start + p) % 8 == v);
    let i = q * 112 + d * 8 + v;
    assert(i / 112 == q && i % 112 == d * 8 + v && i % 8 == v);
}

/// Every vector is where its cluster starts plus its position in the cluster:
/// its label stands there, and so do its values, dimension by dimension.
pub proof fn every_vector_is_laid(
    lists: Seq<Seq<usize>>,
    labels: Seq<u8>,
    rows: Seq<[i16; 14]>,
    c: int,
    p: int,
)
    requires
        0 <= c < lists.len(),
        0 <= p < lists[c].len(),
    ensures
        laid_len(lists.take(c)) + p < laid_len(lists),
        laid_labels(lists, labels)[laid_len(lists.take(c)) + p] == labels[lists[c][p] as int],
        forall|d: int|
            0 <= d < 14 ==> (#[trigger] block_value(
                laid_blocks(lists, rows),
                laid_len(lists.take(c)) + p,
                d,
            )) == rows[lists[c][p] as int]@[d],
    decreases lists.len(),
{
    let front = lists.drop_last();
    laid_lengths(front, labels, rows);
    laid_lengths(lists.take(c), labels, rows);
    laid_len_grows(lists, c);
    let start = laid_len(lists.take(c)) as int;
    let g = start + p;
    let blocks = laid_blocks(lists, rows);
    let row = rows[lists[c][p] as int]@;
    if c + 1 == lists.len() {
        assert(lists.take(c) =~= front);
        assert forall|d: int| 0 <= d < 14 implies (#[trigger] block_value(blocks, g, d)) == row[d] by {
            value_place(start, p, d);
            let i = p / 8 * 112 + d * 8 + p % 8;
            let own = cluster_blocks(lists[c], rows);
            assert(own[i] == row[d]);
            assert(blocks[laid_blocks(front, rows).len() + i] == own[i]);
        }
    } else {
        assert(front.take(c) =~= lists.take(c));
        every_vector_is_laid(front, labels, rows, c, p);
        assert forall|d: int| 0 <= d < 14 implies (#[trigger] block_value(blocks, g, d)) == row[d] by {
            assert(block_value(laid_blocks(front, rows), g, d) == row[d]);
            value_place(0, g, d);
            place_within(laid_len(front) as int, g, d);
        }
    }
}

/// A value of a place below `len` lies below the values of `len` places.
pub proof fn place_within(len: int, g: int, d: int)
    requires
        len % 8 == 0,
        0 <= g < len,
        0 <= d < 14,
    ensures
        0 <= g / 8 * 112 + d * 8 + g % 8 < len * 14,
{
    assert(g / 8 < len / 8);
}

/// Appends one cluster, padded to whole blocks.
pub fn lay_out_cluster(
    list: &Vec<usize>,
    rows: &[[i16; 14]],
    labels: &[u8],
    out_labels: &mut Vec<u8>,
    out_blocks: &mut Vec<i16>,
)
    requires
        forall|p: int| 0 <= p < list@.len() ==> (#[trigger] list@[p]) < rows@.len(),
        forall|p: int| 0 <= p < list@.len() ==> (#[trigger] list@[p]) < labels@.len(),
        list@.len() + 7 <= usize::MAX,
    ensures
        final(out_labels)@ == old(out_labels)@ + cluster_labels(list@, labels@),
        final(out_blocks)@ == old(out_blocks)@ + cluster_blocks(list@, rows@),
{
    let n: usize = list.len();
    let blocks: usize = (n + 7) / 8;
    let ghost labels0 = out_labels@;
    let ghost blocks0 = out_blocks@;
    let ghost want = cluster_blocks(list@, rows@);
    let ghost want_labels = cluster_labels(list@, labels@);
    let mut b: usize = 0;
    assert(out_labels@ =~= labels0 + want_labels.take(0));
    assert(out_blocks@ =~= blocks0 + want.take(0));
    while b < blocks
        invariant
            b <= blocks,
            blocks == (n + 7) / 8,
            n == list@.len(),
            n + 7 <= usize::MAX,
            forall|p: int| 0 <= p < list@.len() ==> (#[trigger] list@[p]) < rows@.len(),
            forall|p: int| 0 <= p < list@.len() ==> (#[trigger] list@[p]) < labels@.len(),
            want == cluster_blocks(list@, rows@),
            want_labels == cluster_labels(list@, labels@),
            out_labels@ == labels0 + want_labels.take(b * 8),
            out_blocks@ == blocks0 + want.take(b * 112),
        decreases blocks - b,
    {
        let mut d: usize = 0;
        while d < DIMS
            invariant
                d <= 14,
                b < blocks,
                blocks == (n + 7) / 8,
                n == list@.len(),
                n + 7 <= usize::MAX,
                forall|p: int| 0 <= p < list@.len() ==> (#[trigger] list@[p]) < rows@.len(),
                want == cluster_blocks(list@, rows@),
                out_blocks@ == blocks0 + want.take(b * 112 + d * 8),
            decreases 14 - d,
        {
            let mut v: usize = 0;
            while v < 8
                invariant
                    v <= 8,
                    d < 14,
                    b < blocks,
                    blocks == (n + 7) / 8,
                    n == list@.len(),
                    n + 7 <= usize::MAX,
                    forall|p: int| 0 <= p < list@.len() ==> (#[trigger] list@[p]) < rows@.len(),
                    want == cluster_blocks(list@, rows@),
                    out_blocks@ == blocks0 + want.take(b * 112 + d * 8 + v),
                decreases 8 - v,
            {
                let p: usize = b * 8 + v;
                let ghost i = b * 112 + d * 8 + v;
                proof {
                    assert(p as int / 8 == b && p as int % 8 == v);
                    value_place(0, p as int, d as int);
                    place_within(padded(n as nat) as int, p as int, d as int);
                    assert(i / 112 * 8 + i % 8 == p && i % 112 / 8 == d);
                    assert(want.take(i + 1) =~= want.take(i).push(want[i]));
                }
                let value: i16 = if p < n {
                    rows[list[p]][d]
                } else {
                    0
                };
                out_blocks.push(value);
                assert(value == want[i]);
                assert(out_blocks@ =~= blocks0 + want.take(i + 1));
                v = v + 1;
            }
            d = d + 1;
        }
        let mut v: usize = 0;
        while v < 8
            invariant
                v <= 8,
                b < blocks,
                blocks == (n + 7) / 8,
                n == list@.len(),
                n + 7 <= usize::MAX,
                forall|p: int| 0 <= p < list@.len() ==> (#[trigger] list@[p]) < labels@.len(),
                want_labels == cluster_labels(list@, labels@),
                out_labels@ == labels0 + want_labels.take(b * 8 + v),
            decreases 8 - v,
        {
            let p: usize = b * 8 + v;
            let label: u8 = if p < n {
                labels[list[p]]
            } else {
                0
            };
            out_labels.push(label);
            assert(out_labels@ =~= labels0 + want_labels.take(b * 8 + v + 1));
            v = v + 1;
        }
        b = b + 1;
    }
    assert(want.take(b * 112) =~= want);
    assert(want_labels.take(b * 8) =~= want_labels);
}

/// The labels and the blocks of all clusters, and where each cluster ends.
pub struct Layout {
    pub labels: Vec<u8>,
    pub blocks: Vec<i16>,
    pub ends: Vec<usize>,
}

/// Every member of every list is below `n`.
pub open spec fn lists_within(lists: Seq<Seq<usize>>, n: nat) -> bool {
    forall|c: int, p: int|
        0 <= c < lists.len() && 0 <= p < lists[c].len() ==> (#[trigger] lists[c][p]) < n
}

/// Lays all clusters out, one after the other.
pub fn lay_out(lists: &Vec<Vec<usize>>, rows: &[[i16; 14]], labels: &[u8]) -> (r: Layout)
    requires
        lists_within(views(lists@), rows@.len()),
        lists_within(views(lists@), labels@.len()),
        forall|c: int| 0 <= c < lists@.len() ==> (#[trigger] lists@[c])@.len() + 7 <= usize::MAX,
    ensures
        r.labels@ == laid_labels(views(lists@), labels@),
        r.blocks@ == laid_blocks(views(lists@), rows@),
        r.ends@ == Seq::new(
            lists@.len(),
            |c: int| laid_len(views(lists@).take(c + 1)) as usize,
        ),
        laid_len(views(lists@)) * 14 <= usize::MAX,
{
    let mut out_labels: Vec<u8> = Vec::new();
    let mut out_blocks: Vec<i16> = Vec::new();
    let mut ends: Vec<usize> = Vec::new();
    let ghost all = views(lists@);
    let mut c: usize = 0;
    assert(all.take(0) =~= Seq::empty());
    while c < lists.len()
        invariant
            c <= lists@.len(),
            all == views(lists@),
            lists_within(all, rows@.len()),
            lists_within(all, labels@.len()),
            forall|c: int| 0 <= c < lists@.len() ==> (#[trigger] lists@[c])@.len() + 7 <= usize::MAX,
            out_labels@ == laid_labels(all.take(c as int), labels@),
            out_blocks@ == laid_blocks(all.take(c as int), rows@),
            ends@ == Seq::new(c as nat, |j: int| laid_len(all.take(j + 1)) as usize),
        decreases lists@.len() - c,
    {
        assert(all[c as int] == lists@[c as int]@);
        assert forall|p: int| 0 <= p < lists@[c as int]@.len() implies (#[trigger] lists@[c as int]@[p])
            < rows@.len() && lists@[c as int]@[p] < labels@.len() by {
            assert(all[c as int][p] < rows@.len());
            assert(all[c as int][p] < labels@.len());
        }
        lay_out_cluster(&lists[c], rows, labels, &mut out_labels, &mut out_blocks);
        assert(all.take(c + 1).drop_last() =~= all.take(c as int));
        proof {
            laid_lengths(all.take(c + 1), labels@, rows@);
        }
        ends.push(out_labels.len());
        c = c + 1;
        assert(ends@ =~= Seq::new(c as nat, |j: int| laid_len(all.take(j + 1)) as usize));
    }
    assert(all.take(c as int) =~= all);
    proof {
        laid_lengths(all, labels@, rows@);
    }
    let total: usize = out_blocks.len();
    Layout { labels: out_labels, blocks: out_blocks, ends }
}

/// The centroids dimension by dimension: first that dimension of all of them,
/// then the next.
pub open spec fn by_dimension(centroids: Seq<[F32Bits; 14]>) -> Seq<F32Bits> {
    Seq::new(
        14 * centroids.len(),
        |i: int| centroids[i % centroids.len() as int]@[i / centroids.len() as int],
    )
}

/// Transposes the centroids.
pub fn transpose(centroids: &[[F32Bits; 14]]) -> (r: Vec<F32Bits>)
    ensures
        r@ == by_dimension(centroids@),
{
    let k: usize = centroids.len();
    let ghost want = by_dimension(centroids@);
    let mut r: Vec<F32Bits> = Vec::new();
    let mut d: usize = 0;
    assert(r@ =~= want.take(0));
    while d < DIMS
        invariant
            d <= 14,
            k == centroids@.len(),
            want == by_dimension(centroids@),
            r@ == want.take(d * k),
        decreases 14 - d,
    {
        let mut c: usize = 0;
        while c < k
            invariant
                c <= k,
                d < 14,
                k == centroids@.len(),
                want == by_dimension(centroids@),
                r@ == want.take(d * k + c),
            decreases k - c,
        {
            let ghost i = d * k + c;
            proof {
                vstd::arithmetic::div_mod::lemma_fundamental_div_mod_converse(
                    i,
                    k as int,
                    d as int,
                    c as int,
                );
                assert(d * k + k <= 14 * k) by (nonlinear_arith)
                    requires
                        d < 14,
                ;
                assert(want[i] == centroids@[c as int]@[d as int]);
                assert(want.take(i + 1) =~= want.take(i).push(want[i]));
            }
            r.push(centroids[c][d]);
            c = c + 1;
        }
        assert(d * k + k == (d + 1) * k) by (nonlinear_arith);
        d = d + 1;
    }
    assert(want.take(14 * k) =~= want);
    r
}

/// The four bytes that an index starts with.
pub open spec fn magic() -> Seq<u8> {
    seq![0x49u8, 0x56, 0x46, 0x31]
}

/// Whether the bytes start as an index does.
pub fn starts_with_magic(b: &[u8]) -> (r: bool)
    requires
        b@.len() >= 4,
    ensures
        r == (b@.take(4) == magic()),
{
    let r: bool = b[0] == 0x49 && b[1] == 0x56 && b[2] == 0x46 && b[3] == 0x31;
    proof {
        if r {
            assert(b@.take(4) =~= magic());
        } else if b@.take(4) == magic() {
            assert(b@.take(4)[0] == magic()[0]);
            assert(b@.take(4)[1] == magic()[1]);
            assert(b@.take(4)[2] == magic()[2]);
            assert(b@.take(4)[3] == magic()[3]);
        }
    }
    r
}

/// An index as bytes: the magic, the numbers of vectors, of clusters and of
/// dimensions, the centroids, the offsets, the labels and the blocks.
pub open spec fn encoded(
    n: u32,
    k: u32,
    centroids: Seq<F32Bits>,
    offsets: Seq<u32>,
    labels: Seq<u8>,
    blocks: Seq<i16>,
) -> Seq<u8> {
    magic() + u32_bytes(n) + u32_bytes(k) + u32_bytes(14) + u32s_bytes(centroids) + u32s_bytes(
        offsets,
    ) + labels + i16s_bytes(blocks)
}

/// Writes an index to bytes.
pub fn encode(
    n: u32,
    k: u32,
    centroids: &[F32Bits],
    offsets: &[u32],
    labels: &[u8],
    blocks: &[i16],
) -> (r: Vec<u8>)
    ensures
        r@ == encoded(n, k, centroids@, offsets@, labels@, blocks@),
{
    let mut r: Vec<u8> = Vec::new();
    r.push(0x49);
    r.push(0x56);
    r.push(0x46);
    r.push(0x31);
    assert(r@ =~= magic());
    push_u32(&mut r, n);
    push_u32(&mut r, k);
    push_u32(&mut r, 14);
    push_u32s(&mut r, centroids);
    push_u32s(&mut r, offsets);
    push_all(&mut r, labels);
    push_i16s(&mut r, blocks);
    r
}

/// The header of an encoded index and the offsets of its parts.
pub proof fn encoded_header(
    n: u32,
    k: u32,
    centroids: Seq<F32Bits>,
    offsets: Seq<u32>,
    labels: Seq<u8>,
    blocks: Seq<i16>,
    after: Seq<u8>,
)
    ensures
        ({
            let b = encoded(n, k, centroids, offsets, labels, blocks) + after;
            &&& b.len() == 16 + 4 * centroids.len() + 4 * offsets.len() + labels.len() + 2
                * blocks.len() + after.len()
            &&& b.take(4) == magic()
            &&& u32_at(b, 4) == n
            &&& u32_at(b, 8) == k
            &&& u32_at(b, 12) == 14
        }),
{
    let b = encoded(n, k, centroids, offsets, labels, blocks) + after;
    assert(b.take(4) =~= magic());
    assert(b.subrange(4, 8) =~= u32_bytes(n));
    assert(b.subrange(8, 12) =~= u32_bytes(k));
    assert(b.subrange(12, 16) =~= u32_bytes(14));
    assert forall|j: int| 0 <= j < 4 implies b[4 + j] == u32_bytes(n)[j] && b[8 + j] == u32_bytes(
        k,
    )[j] && b[12 + j] == u32_bytes(14)[j] by {
        assert(b.subrange(4, 8)[j] == b[4 + j]);
        assert(b.subrange(8, 12)[j] == b[8 + j]);
        assert(b.subrange(12, 16)[j] == b[12 + j]);
    }
    crate::bytes::u32_round_trip(n);
    crate::bytes::u32_round_trip(k);
    crate::bytes::u32_round_trip(14);
}

} // verus!
