//! What the search engine loads of the index that was written for it.

use vstd::prelude::*;
use crate::build_index::{block_offsets, engine_index, low32};
use crate::bytes::{i16_at, i16s_at, i16s_bytes, i16s_round_trip, u32_at, u32_bytes, u32s_at, u32s_bytes, u32s_round_trip};
use crate::float_bits::F32Bits;
use crate::index::{block_value, by_dimension, encoded, encoded_header, every_vector_is_laid, laid_blocks, laid_labels, laid_len, laid_len_grows, laid_lengths, magic, member_lists, members, place_within};
use crate::vector::{blocks_start, centroid_bits, clipped, cluster_extent, first_place, is_readable, labels_start, loaded_count, loaded_label, scaled_value, stored_blocks, stored_count, stored_k, stored_offsets};

verus! {

/// The bytes are those of an index that was written with these parts.
#[verifier::opaque]
spec fn has_parts(
    b: Seq<u8>,
    count: nat,
    k: nat,
    offsets: Seq<u32>,
    labels: Seq<u8>,
    blocks: Seq<i16>,
) -> bool {
    &&& b.take(4) == magic()
    &&& u32_at(b, 12) == 14
    &&& stored_count(b) == count
    &&& stored_k(b) == k
    &&& stored_offsets(b) == offsets
    &&& blocks_start(b) == labels_start(b) + labels.len()
    &&& b.len() == blocks_start(b) + 2 * blocks.len()
    &&& b.subrange(labels_start(b), blocks_start(b)) == labels
    &&& i16s_at(b, blocks_start(b), blocks.len()) == blocks
}

/// Offsets, labels and blocks are read where they were written.
proof fn parts_are_read(head: Seq<u8>, offsets: Seq<u32>, labels: Seq<u8>, blocks: Seq<i16>)
    ensures
        ({
            let b = head + u32s_bytes(offsets) + labels + i16s_bytes(blocks);
            let start = head.len() as int + 4 * offsets.len();
            &&& u32s_at(b, head.len() as int, offsets.len()) == offsets
            &&& b.subrange(start, start + labels.len()) == labels
            &&& i16s_at(b, start + labels.len(), blocks.len()) == blocks
        }),
{
    let b = head + u32s_bytes(offsets) + labels + i16s_bytes(blocks);
    let start = head.len() as int + 4 * offsets.len();
    assert(b =~= head + u32s_bytes(offsets) + (labels + i16s_bytes(blocks)));
    u32s_round_trip(head, offsets, labels + i16s_bytes(blocks));
    let front = head + u32s_bytes(offsets) + labels;
    assert(b =~= front + i16s_bytes(blocks) + Seq::empty());
    i16s_round_trip(front, blocks, Seq::empty());
    assert(b.subrange(start, start + labels.len()) =~= labels);
}

/// Bytes with a header and with parts in their places.
proof fn placed_parts(
    b: Seq<u8>,
    n: u32,
    k: u32,
    offsets: Seq<u32>,
    labels: Seq<u8>,
    blocks: Seq<i16>,
)
    requires
        b.take(4) == magic(),
        u32_at(b, 4) == n,
        u32_at(b, 8) == k,
        u32_at(b, 12) == 14,
        offsets.len() == k + 1,
        labels.len() == 8 * offsets[k as int],
        u32s_at(b, 16 + 56 * k as int, (k + 1) as nat) == offsets,
        b.subrange(20 + 60 * k as int, 20 + 60 * k + labels.len()) == labels,
        i16s_at(b, 20 + 60 * k + labels.len(), blocks.len()) == blocks,
        b.len() == 20 + 60 * k + labels.len() + 2 * blocks.len(),
    ensures
        has_parts(b, n as nat, k as nat, offsets, labels, blocks),
{
    reveal(has_parts);
    assert(labels_start(b) == 20 + 60 * k);
    assert(stored_offsets(b) == offsets);
    assert(blocks_start(b) == 20 + 60 * k + labels.len());
}

/// The header of what is written, and its length.
proof fn written_header(
    n: u32,
    k: u32,
    centroids: Seq<F32Bits>,
    offsets: Seq<u32>,
    labels: Seq<u8>,
    blocks: Seq<i16>,
)
    ensures
        ({
            let b = encoded(n, k, centroids, offsets, labels, blocks);
            &&& b.len() == 16 + 4 * centroids.len() + 4 * offsets.len() + labels.len() + 2
                * blocks.len()
            &&& b.take(4) == magic()
            &&& u32_at(b, 4) == n
            &&& u32_at(b, 8) == k
            &&& u32_at(b, 12) == 14
        }),
{
    let b = encoded(n, k, centroids, offsets, labels, blocks);
    encoded_header(n, k, centroids, offsets, labels, blocks, Seq::empty());
    nothing_behind(b);
}

proof fn nothing_behind(b: Seq<u8>)
    ensures
        b + Seq::<u8>::empty() == b,
{
    assert(b + Seq::<u8>::empty() =~= b);
}

proof fn regrouped(head: Seq<u8>, a: Seq<u8>, b: Seq<u8>, c: Seq<u8>, d: Seq<u8>)
    ensures
        head + a + b + c + d == head + a + (b + c + d),
{
    assert(head + a + b + c + d =~= head + a + (b + c + d));
}

/// What stands before the centroids.
spec fn header(n: u32, k: u32) -> Seq<u8> {
    magic() + u32_bytes(n) + u32_bytes(k) + u32_bytes(14)
}

proof fn header_len(n: u32, k: u32)
    ensures
        header(n, k).len() == 16,
{
}

/// What is written has its parts where they are read.
proof fn encoded_is_read(
    n: u32,
    k: u32,
    centroids: Seq<F32Bits>,
    offsets: Seq<u32>,
    labels: Seq<u8>,
    blocks: Seq<i16>,
)
    requires
        centroids.len() == 14 * k,
        offsets.len() == k + 1,
    ensures
        ({
            let b = encoded(n, k, centroids, offsets, labels, blocks);
            &&& u32s_at(b, 16, centroids.len()) == centroids
            &&& u32s_at(b, 16 + 56 * k as int, (k + 1) as nat) == offsets
            &&& b.subrange(20 + 60 * k as int, 20 + 60 * k + labels.len()) == labels
            &&& i16s_at(b, 20 + 60 * k + labels.len(), blocks.len()) == blocks
        }),
{
    let cents = u32s_bytes(centroids);
    header_len(n, k);
    let head = header(n, k);
    regrouped(head, cents, u32s_bytes(offsets), labels, i16s_bytes(blocks));
    u32s_round_trip(head, centroids, u32s_bytes(offsets) + labels + i16s_bytes(blocks));
    assert((head + cents).len() == 16 + 56 * k);
    parts_are_read(head + cents, offsets, labels, blocks);
}

/// What is written is read as it was.
proof fn encoded_has_parts(
    n: u32,
    k: u32,
    centroids: Seq<F32Bits>,
    offsets: Seq<u32>,
    labels: Seq<u8>,
    blocks: Seq<i16>,
)
    requires
        centroids.len() == 14 * k,
        offsets.len() == k + 1,
        labels.len() == 8 * offsets[k as int],
    ensures
        has_parts(
            encoded(n, k, centroids, offsets, labels, blocks),
            n as nat,
            k as nat,
            offsets,
            labels,
            blocks,
        ),
{
    let b = encoded(n, k, centroids, offsets, labels, blocks);
    written_header(n, k, centroids, offsets, labels, blocks);
    encoded_is_read(n, k, centroids, offsets, labels, blocks);
    placed_parts(b, n, k, offsets, labels, blocks);
}

/// The centroids of what is written are read as they were.
proof fn encoded_centroids(
    n: u32,
    centroids: Seq<[F32Bits; 14]>,
    offsets: Seq<u32>,
    labels: Seq<u8>,
    blocks: Seq<i16>,
    c: int,
    d: int,
)
    requires
        centroids.len() <= u32::MAX,
        offsets.len() == centroids.len() + 1,
        0 <= c < centroids.len(),
        0 <= d < 14,
    ensures
        centroid_bits(
            encoded(
                n,
                centroids.len() as u32,
                by_dimension(centroids),
                offsets,
                labels,
                blocks,
            ),
            14 * c + d,
        ) == centroids[c]@[d],
{
    let k = centroids.len() as int;
    let flat = by_dimension(centroids);
    let b = encoded(n, k as u32, flat, offsets, labels, blocks);
    written_header(n, k as u32, flat, offsets, labels, blocks);
    encoded_is_read(n, k as u32, flat, offsets, labels, blocks);
    flat_centroid(centroids, b, c, d);
}

/// Where a centroid stands among all, dimension by dimension.
proof fn flat_centroid(centroids: Seq<[F32Bits; 14]>, b: Seq<u8>, c: int, d: int)
    requires
        0 <= c < centroids.len(),
        0 <= d < 14,
        stored_k(b) == centroids.len(),
        u32s_at(b, 16, by_dimension(centroids).len()) == by_dimension(centroids),
    ensures
        centroid_bits(b, 14 * c + d) == centroids[c]@[d],
{
    let k = centroids.len() as int;
    let flat = by_dimension(centroids);
    let i = d * k + c;
    assert(0 <= i < 14 * k) by (nonlinear_arith)
        requires
            i == d * k + c,
            0 <= c < k,
            0 <= d < 14,
    ;
    vstd::arithmetic::div_mod::lemma_fundamental_div_mod_converse(i, k, d, c);
    assert(flat[i] == centroids[c]@[d]);
    assert(u32s_at(b, 16, flat.len())[i] == u32_at(b, 16 + 4 * i));
    assert((14 * c + d) % 14 == d && (14 * c + d) / 14 == c);
}

/// An offset in blocks is that in places.
proof fn block_offset_counts_places(lists: Seq<Seq<usize>>, c: int)
    requires
        laid_len(lists) * 14 <= u32::MAX,
        0 <= c <= lists.len(),
    ensures
        8 * block_offsets(lists)[c] == laid_len(lists.take(c)),
{
    laid_len_grows(lists, c);
    laid_lengths(lists.take(c), Seq::empty(), Seq::empty());
}

/// The parts of the search engine's index, as they are read.
proof fn written_parts(
    rows: Seq<[i16; 14]>,
    labels: Seq<u8>,
    assignments: Seq<u16>,
    centroids: Seq<[F32Bits; 14]>,
    count: nat,
)
    requires
        count <= u32::MAX,
        centroids.len() <= u32::MAX,
        laid_len(member_lists(assignments, centroids.len())) * 14 <= u32::MAX,
    ensures
        ({
            let lists = member_lists(assignments, centroids.len());
            has_parts(
                engine_index(rows, labels, assignments, centroids, count),
                count,
                centroids.len(),
                block_offsets(lists),
                laid_labels(lists, labels),
                laid_blocks(lists, rows),
            )
        }),
{
    let lists = member_lists(assignments, centroids.len());
    let k = centroids.len() as int;
    laid_lengths(lists, labels, rows);
    block_offset_counts_places(lists, k);
    assert(lists.take(k) =~= lists);
    encoded_has_parts(
        count as u32,
        k as u32,
        by_dimension(centroids),
        block_offsets(lists),
        laid_labels(lists, labels),
        laid_blocks(lists, rows),
    );
}

/// Bytes with the parts of laid clusters hold an index that can be loaded.
proof fn parts_are_readable(
    b: Seq<u8>,
    count: nat,
    lists: Seq<Seq<usize>>,
    labels: Seq<u8>,
    rows: Seq<[i16; 14]>,
)
    requires
        has_parts(
            b,
            count,
            lists.len(),
            block_offsets(lists),
            laid_labels(lists, labels),
            laid_blocks(lists, rows),
        ),
        count * 28 <= usize::MAX,
        laid_len(lists) * 14 <= u32::MAX,
    ensures
        is_readable(b),
        first_place(b) == 0,
        8 * stored_blocks(b) == laid_len(lists),
{
    reveal(has_parts);
    let total = laid_len(lists) as int;
    laid_lengths(lists, labels, rows);
    assert forall|c: int| 0 <= c < stored_k(b) implies (#[trigger] stored_offsets(b)[c])
        <= stored_offsets(b)[c + 1] by {
        block_offset_counts_places(lists, c);
        block_offset_counts_places(lists, c + 1);
        laid_len_grows(lists, c);
    }
    block_offset_counts_places(lists, 0);
    assert(lists.take(0) =~= Seq::empty());
    assert(first_place(b) == 0);
    assert(8 * stored_blocks(b) == total);
    if loaded_count(b) > 0 {
        place_within(total, loaded_count(b) - 1, 13);
    }
}

/// A written index can be loaded, as long as its values can be counted in 32
/// bits.
pub proof fn written_index_is_readable(
    rows: Seq<[i16; 14]>,
    labels: Seq<u8>,
    assignments: Seq<u16>,
    centroids: Seq<[F32Bits; 14]>,
    count: nat,
)
    requires
        count <= u32::MAX,
        count * 28 <= usize::MAX,
        centroids.len() <= u32::MAX,
        laid_len(member_lists(assignments, centroids.len())) * 14 <= u32::MAX,
    ensures
        is_readable(engine_index(rows, labels, assignments, centroids, count)),
{
    let b = engine_index(rows, labels, assignments, centroids, count);
    let lists = member_lists(assignments, centroids.len());
    written_parts(rows, labels, assignments, centroids, count);
    parts_are_readable(b, count, lists, labels, rows);
}

/// Where a laid cluster is loaded.
proof fn laid_cluster_is_loaded(
    b: Seq<u8>,
    count: nat,
    lists: Seq<Seq<usize>>,
    labels: Seq<u8>,
    rows: Seq<[i16; 14]>,
    c: int,
    p: int,
)
    requires
        has_parts(
            b,
            count,
            lists.len(),
            block_offsets(lists),
            laid_labels(lists, labels),
            laid_blocks(lists, rows),
        ),
        count * 28 <= usize::MAX,
        laid_len(lists) * 14 <= u32::MAX,
        0 <= c < lists.len(),
        0 <= p < lists[c].len(),
        laid_len(lists.take(c)) + p < count,
    ensures
        cluster_extent(b, c).0 == 28 * laid_len(lists.take(c)),
        p < cluster_extent(b, c).1,
{
    parts_are_readable(b, count, lists, labels, rows);
    reveal(has_parts);
    block_offset_counts_places(lists, c);
    block_offset_counts_places(lists, c + 1);
    laid_len_grows(lists, c);
    let from = laid_len(lists.take(c)) as int;
    let to = laid_len(lists.take(c + 1)) as int;
    assert(from + p < to);
    assert(clipped(b, 8 * stored_offsets(b)[c]) == from);
    assert(clipped(b, 8 * stored_offsets(b)[c + 1]) == if to < count {
        to
    } else {
        count as int
    });
}

/// A value is loaded from where it was laid.
proof fn laid_value_is_loaded(b: Seq<u8>, blocks: Seq<i16>, total: int, g: int, d: int)
    requires
        i16s_at(b, blocks_start(b), blocks.len()) == blocks,
        blocks.len() == total * 14,
        total % 8 == 0,
        first_place(b) == 0,
        0 <= g < total,
        0 <= d < 14,
    ensures
        scaled_value(b, 14 * g + d) == block_value(blocks, g, d),
{
    let at = g / 8 * 112 + d * 8 + g % 8;
    place_within(total, g, d);
    assert((14 * g + d) / 14 == g && (14 * g + d) % 14 == d);
    assert(i16s_at(b, blocks_start(b), blocks.len())[at] == i16_at(b, blocks_start(b) + 2 * at));
}

/// Labels and blocks are loaded from their parts.
proof fn part_is_loaded(
    b: Seq<u8>,
    count: nat,
    k: nat,
    offsets: Seq<u32>,
    labels: Seq<u8>,
    blocks: Seq<i16>,
    g: int,
)
    requires
        has_parts(b, count, k, offsets, labels, blocks),
        first_place(b) == 0,
        8 * stored_blocks(b) == labels.len(),
        0 <= g < count,
        g < labels.len(),
    ensures
        loaded_label(b, g) == labels[g],
        i16s_at(b, blocks_start(b), blocks.len()) == blocks,
{
    reveal(has_parts);
    assert(b.subrange(labels_start(b), blocks_start(b))[g] == b[labels_start(b) + g]);
}

/// What is loaded at a place below the number of vectors is what was laid there.
proof fn laid_place_is_loaded(
    b: Seq<u8>,
    count: nat,
    lists: Seq<Seq<usize>>,
    labels: Seq<u8>,
    rows: Seq<[i16; 14]>,
    g: int,
)
    requires
        has_parts(
            b,
            count,
            lists.len(),
            block_offsets(lists),
            laid_labels(lists, labels),
            laid_blocks(lists, rows),
        ),
        count * 28 <= usize::MAX,
        laid_len(lists) * 14 <= u32::MAX,
        0 <= g < count,
        g < laid_len(lists),
    ensures
        loaded_label(b, g) == laid_labels(lists, labels)[g],
        i16s_at(b, blocks_start(b), laid_blocks(lists, rows).len()) == laid_blocks(lists, rows),
        first_place(b) == 0,
{
    parts_are_readable(b, count, lists, labels, rows);
    laid_lengths(lists, labels, rows);
    let all = laid_labels(lists, labels);
    part_is_loaded(b, count, lists.len(), block_offsets(lists), all, laid_blocks(lists, rows), g);
}

/// A vector whose place is below the number of vectors is loaded: it stands in
/// its cluster, at its place, with its label and its values. Padding takes up
/// places too, so as many places at the end are left out as padding takes up.
pub proof fn written_vectors_are_loaded(
    rows: Seq<[i16; 14]>,
    labels: Seq<u8>,
    assignments: Seq<u16>,
    centroids: Seq<[F32Bits; 14]>,
    count: nat,
    c: int,
    p: int,
)
    requires
        count <= u32::MAX,
        count * 28 <= usize::MAX,
        centroids.len() <= u32::MAX,
        laid_len(member_lists(assignments, centroids.len())) * 14 <= u32::MAX,
        0 <= c < centroids.len(),
        0 <= p < members(assignments, c).len(),
        laid_len(member_lists(assignments, centroids.len()).take(c)) + p < count,
    ensures
        ({
            let b = engine_index(rows, labels, assignments, centroids, count);
            let start = laid_len(member_lists(assignments, centroids.len()).take(c));
            let i = members(assignments, c)[p] as int;
            &&& cluster_extent(b, c).0 == 28 * start
            &&& p < cluster_extent(b, c).1
            &&& loaded_label(b, start + p) == labels[i]
            &&& forall|d: int|
                0 <= d < 14 ==> (#[trigger] scaled_value(b, 14 * (start + p) + d)) == rows[i]@[d]
        }),
{
    let b = engine_index(rows, labels, assignments, centroids, count);
    let lists = member_lists(assignments, centroids.len());
    assert(lists[c] == members(assignments, c));
    written_parts(rows, labels, assignments, centroids, count);
    laid_cluster_is_loaded(b, count, lists, labels, rows, c, p);
    every_vector_is_laid(lists, labels, rows, c, p);
    let g = laid_len(lists.take(c)) + p;
    laid_place_is_loaded(b, count, lists, labels, rows, g);
    laid_lengths(lists, labels, rows);
    assert forall|d: int| 0 <= d < 14 implies (#[trigger] scaled_value(b, 14 * g + d))
        == rows[lists[c][p] as int]@[d] by {
        assert(block_value(laid_blocks(lists, rows), g, d) == rows[lists[c][p] as int]@[d]);
        laid_value_is_loaded(b, laid_blocks(lists, rows), laid_len(lists) as int, g, d);
    }
}

/// The centroids are loaded as they were written: dimension `d` of centroid `c`
/// stands at `14 * c + d`.
pub proof fn written_centroids_are_loaded(
    rows: Seq<[i16; 14]>,
    labels: Seq<u8>,
    assignments: Seq<u16>,
    centroids: Seq<[F32Bits; 14]>,
    count: nat,
    c: int,
    d: int,
)
    requires
        count <= u32::MAX,
        centroids.len() <= u32::MAX,
        0 <= c < centroids.len(),
        0 <= d < 14,
    ensures
        centroid_bits(
            engine_index(rows, labels, assignments, centroids, count),
            14 * c + d,
        ) == centroids[c]@[d],
{
    let lists = member_lists(assignments, centroids.len());
    encoded_centroids(
        count as u32,
        centroids,
        block_offsets(lists),
        laid_labels(lists, labels),
        laid_blocks(lists, rows),
        c,
        d,
    );
}

/// The numbers of vectors and clusters are stored as they were written.
pub proof fn written_header_is_stored(
    rows: Seq<[i16; 14]>,
    labels: Seq<u8>,
    assignments: Seq<u16>,
    centroids: Seq<[F32Bits; 14]>,
    count: nat,
)
    requires
        count <= u32::MAX,
        centroids.len() <= u32::MAX,
    ensures
        stored_count(engine_index(rows, labels, assignments, centroids, count)) == count,
        stored_k(engine_index(rows, labels, assignments, centroids, count)) == centroids.len(),
{
    let lists = member_lists(assignments, centroids.len());
    assert(low32(count as int) == count as u32);
    encoded_counts(
        low32(count as int),
        centroids.len() as u32,
        by_dimension(centroids),
        block_offsets(lists),
        laid_labels(lists, labels),
        laid_blocks(lists, rows),
    );
}

proof fn encoded_counts(
    n: u32,
    k: u32,
    centroids: Seq<F32Bits>,
    offsets: Seq<u32>,
    labels: Seq<u8>,
    blocks: Seq<i16>,
)
    ensures
        stored_count(encoded(n, k, centroids, offsets, labels, blocks)) == n,
        stored_k(encoded(n, k, centroids, offsets, labels, blocks)) == k,
{
    written_header(n, k, centroids, offsets, labels, blocks);
}

/// A place below the number of vectors is loaded.
pub proof fn written_places_are_loaded(
    rows: Seq<[i16; 14]>,
    labels: Seq<u8>,
    assignments: Seq<u16>,
    centroids: Seq<[F32Bits; 14]>,
    count: nat,
    c: int,
    p: int,
)
    requires
        count <= u32::MAX,
        count * 28 <= usize::MAX,
        centroids.len() <= u32::MAX,
        laid_len(member_lists(assignments, centroids.len())) * 14 <= u32::MAX,
        0 <= c < centroids.len(),
        0 <= p < members(assignments, c).len(),
        laid_len(member_lists(assignments, centroids.len()).take(c)) + p < count,
    ensures
        laid_len(member_lists(assignments, centroids.len()).take(c)) + p < loaded_count(
            engine_index(rows, labels, assignments, centroids, count),
        ),
{
    let b = engine_index(rows, labels, assignments, centroids, count);
    let lists = member_lists(assignments, centroids.len());
    assert(lists[c] == members(assignments, c));
    written_parts(rows, labels, assignments, centroids, count);
    parts_are_readable(b, count, lists, labels, rows);
    every_vector_is_laid(lists, labels, rows, c, p);
    written_header_is_stored(rows, labels, assignments, centroids, count);
}

} // verus!
