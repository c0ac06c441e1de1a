//! What an index holds, and what is read of one.

use vstd::prelude::*;
use vstd::utf8::encode_utf8;
use crate::build_index::{
    engine_index, every_position_is_a_member, in_cluster_order, low32, members_are_positions,
    server_index,
};
use crate::bytes::{i16_at, u32_at, u32_bytes, u32_round_trip, u32s_at, u32s_bytes, u32s_round_trip};
use crate::data::{
    decode_outcome, init_gives, load_gives_back_what_was_written, offsets_end, stream_outcome,
    DatasetModel, LoadError,
};
use crate::dataset::{label_code, names_gz};
use crate::float_bits::{is_nan, less, place, F32Bits};
use crate::gz::read_exactly;
use crate::index::{
    block_value, cluster_blocks, encoded_header, laid_blocks, laid_labels, laid_len,
    laid_len_grows, laid_lengths, magic, member_lists, members, padded, place_within,
};
use crate::kmeans::{smallest, smallest_is_smallest, Row};
use crate::quantized::{column, greatest_is_greatest, greatest_of, quantized_file};
use crate::reload::{
    written_centroids_are_loaded, written_header_is_stored, written_places_are_loaded,
    written_vectors_are_loaded,
};
use crate::text::ascii;
use crate::vector::{centroid_bits, holds_stored, is_readable, scaled_value, VectorSearch};

verus! {

/// Clusters are padded to whole blocks of eight, and by less than a block.
pub proof fn clusters_are_padded_to_blocks(n: nat)
    ensures
        padded(n) % 8 == 0,
        n <= padded(n) < n + 8,
{
}

/// The members of a cluster are all positions that it is assigned at, in
/// ascending order.
pub proof fn members_are_all_assigned(assignments: Seq<u16>, c: int)
    requires
        assignments.len() <= usize::MAX,
    ensures
        forall|p: int|
            0 <= p < members(assignments, c).len() ==> (#[trigger] members(assignments, c)[p])
                < assignments.len() && assignments[members(assignments, c)[p] as int] == c,
        forall|i: int|
            0 <= i < assignments.len() && #[trigger] assignments[i] == c ==> members(
                assignments,
                c,
            ).contains(i as usize),
        forall|p: int, q: int|
            0 <= p < q < members(assignments, c).len() ==> (#[trigger] members(assignments, c)[p])
                < (#[trigger] members(assignments, c)[q]),
    decreases assignments.len(),
{
    members_are_positions(assignments, c);
    assert forall|i: int| 0 <= i < assignments.len() && #[trigger] assignments[i] == c implies members(
        assignments,
        c,
    ).contains(i as usize) by {
        every_position_is_a_member(assignments, i);
    }
    if assignments.len() > 0 {
        let rest = assignments.drop_last();
        members_are_all_assigned(rest, c);
        let m = members(assignments, c);
        let r = members(rest, c);
        assert forall|p: int, q: int| 0 <= p < q < m.len() implies (#[trigger] m[p]) < (
        #[trigger] m[q]) by {
            assert(m[p] == r[p]);
            if q < r.len() {
                assert(m[q] == r[q]);
            }
        }
    }
}

/// A place behind the members of its cluster holds nothing: label 0, and 0 in
/// every dimension.
pub proof fn padding_is_empty(
    lists: Seq<Seq<usize>>,
    labels: Seq<u8>,
    rows: Seq<[i16; 14]>,
    c: int,
    p: int,
)
    requires
        0 <= c < lists.len(),
        lists[c].len() <= p < padded(lists[c].len()),
    ensures
        laid_labels(lists, labels)[laid_len(lists.take(c)) + p] == 0,
        forall|d: int|
            0 <= d < 14 ==> (#[trigger] block_value(
                laid_blocks(lists, rows),
                laid_len(lists.take(c)) + p,
                d,
            )) == 0,
    decreases lists.len(),
{
    let front = lists.drop_last();
    laid_lengths(front, labels, rows);
    laid_lengths(lists.take(c), labels, rows);
    laid_len_grows(lists, c);
    let start = laid_len(lists.take(c)) as int;
    let g = start + p;
    let blocks = laid_blocks(lists, rows);
    if c + 1 == lists.len() {
        assert(lists.take(c) =~= front);
        let own = cluster_blocks(lists[c], rows);
        assert forall|d: int| 0 <= d < 14 implies (#[trigger] block_value(blocks, g, d)) == 0 by {
            let i = p / 8 * 112 + d * 8 + p % 8;
            value_stands(start, p, d);
            place_within(padded(lists[c].len()) as int, p, d);
            assert(own[i] == 0);
            assert(blocks[laid_blocks(front, rows).len() + i] == own[i]);
        }
    } else {
        assert(front.take(c) =~= lists.take(c));
        assert(front[c] == lists[c]);
        padding_is_empty(front, labels, rows, c, p);
        laid_len_grows(front, c);
        laid_len_grows(front, c + 1);
        assert forall|d: int| 0 <= d < 14 implies (#[trigger] block_value(blocks, g, d)) == 0 by {
            assert(block_value(laid_blocks(front, rows), g, d) == 0);
            place_within(laid_len(front) as int, g, d);
        }
    }
}

proof fn value_stands(start: int, p: int, d: int)
    requires
        start % 8 == 0,
        0 <= start,
        0 <= p,
        0 <= d < 14,
    ensures
        (start + p) / 8 * 112 + d * 8 + (start + p) % 8 == start * 14 + (p / 8 * 112 + d * 8 + p
            % 8),
        (p / 8 * 112 + d * 8 + p % 8) / 112 * 8 + (p / 8 * 112 + d * 8 + p % 8) % 8 == p,
{
    let q = p / 8;
    let v = p % 8;
    let s = start / 8;
    assert(p == 8 * q + v && start == 8 * s);
    assert((start + p) / 8 == s + q && (start + p) % 8 == v);
    let i = q * 112 + d * 8 + v;
    assert(i / 112 == q && i % 8 == v);
}

/// The server's index counts what it indexed: its clusters follow each other
/// from place 0 on, each takes its members and less than a block of padding, the
/// numbers of vectors and clusters are those given, and the centroids stand
/// dimension by dimension.
pub proof fn indexes_count_what_they_hold(
    rows: Seq<[i16; 14]>,
    labels: Seq<u8>,
    assignments: Seq<u16>,
    centroids: Seq<[F32Bits; 14]>,
    n: nat,
    c: int,
    d: int,
)
    requires
        n <= u32::MAX,
        laid_len(member_lists(assignments, centroids.len())) <= u32::MAX,
        0 <= c < centroids.len(),
        0 <= d < 14,
    ensures
        ({
            let m = server_index(rows, labels, assignments, centroids, n);
            let own = members(assignments, c).len();
            &&& m.n == n
            &&& m.k == centroids.len()
            &&& m.offsets.len() == centroids.len() + 1
            &&& m.offsets[0] == 0
            &&& m.offsets[c] as int % 8 == 0
            &&& own <= m.offsets[c + 1] - m.offsets[c] < own + 8
            &&& m.offsets[m.k as int] == m.padded_n
            &&& m.labels.len() == m.padded_n
            &&& m.blocks.len() == 14 * m.padded_n
            &&& m.centroids[d * m.k + c] == centroids[c]@[d]
        }),
{
    let m = server_index(rows, labels, assignments, centroids, n);
    let k = centroids.len() as int;
    let lists = member_lists(assignments, centroids.len());
    laid_lengths(lists, labels, rows);
    laid_lengths(lists.take(c), labels, rows);
    laid_len_grows(lists, c);
    laid_len_grows(lists, c + 1);
    assert(lists.take(0) =~= Seq::empty());
    assert(lists.take(k) =~= lists);
    assert(lists[c] == members(assignments, c));
    let i = d * k + c;
    assert(0 <= i < 14 * k) by (nonlinear_arith)
        requires
            i == d * k + c,
            0 <= c < k,
            0 <= d < 14,
    ;
    vstd::arithmetic::div_mod::lemma_fundamental_div_mod_converse(i, k, d, c);
}

/// An index that was cut off is not loaded, wherever it was cut.
pub proof fn cut_off_indexes_are_refused(m: DatasetModel, cut: int)
    requires
        m.has_its_sizes(),
        0 <= cut < m.to_bytes().len(),
    ensures
        decode_outcome(m.to_bytes().take(cut)) == Err::<DatasetModel, LoadError>(LoadError::Io),
{
    let whole = m.to_bytes();
    let b = whole.take(cut);
    let n = m.n as u32;
    let k = m.k as u32;
    encoded_header(n, k, m.centroids, m.offsets, m.labels, m.blocks, Seq::empty());
    assert(whole + Seq::<u8>::empty() =~= whole);
    load_gives_back_what_was_written(m, Seq::empty());
    if cut >= 4 {
        assert(b.take(4) =~= whole.take(4));
        if cut >= 16 {
            let start = offsets_end(k);
            assert(u32_at(b, 8) == u32_at(whole, 8) && u32_at(b, 12) == u32_at(whole, 12));
            if cut >= start {
                assert(u32_at(b, start - 4) == u32_at(whole, start - 4));
                assert(decode_outcome(whole)->Ok_0.padded_n == u32_at(whole, start - 4));
            }
        }
    }
}

/// Bytes that start otherwise than with "IVF1" are no index, and an index is of
/// fourteen dimensions.
pub proof fn other_files_are_refused(b: Seq<u8>)
    ensures
        b.len() >= 4 && !(b[0] == 73 && b[1] == 86 && b[2] == 70 && b[3] == 49) ==> decode_outcome(
            b,
        ) == Err::<DatasetModel, LoadError>(LoadError::BadMagic),
        b.len() >= 16 && b[0] == 73 && b[1] == 86 && b[2] == 70 && b[3] == 49 && !(b[12] == 14
            && b[13] == 0 && b[14] == 0 && b[15] == 0) ==> decode_outcome(b) == Err::<
            DatasetModel,
            LoadError,
        >(LoadError::BadDims),
        b.len() < 4 ==> decode_outcome(b) == Err::<DatasetModel, LoadError>(LoadError::Io),
        b.len() < 16 ==> decode_outcome(b) is Err,
{
    if b.len() >= 4 {
        let t = b.take(4);
        if t == magic() {
            assert(t[0] == b[0] && t[1] == b[1] && t[2] == b[2] && t[3] == b[3]);
            assert(magic()[0] == 73 && magic()[1] == 86 && magic()[2] == 70 && magic()[3] == 49);
        } else if b[0] == 73 && b[1] == 86 && b[2] == 70 && b[3] == 49 {
            assert(t =~= magic());
        }
    }
}

/// Numbers in an index are written least byte first, and those of 16 bits are
/// signed.
pub proof fn numbers_are_little_endian(b: Seq<u8>, p: int)
    ensures
        u32_at(b, p) == b[p] + 256 * (b[p + 1] + 256 * (b[p + 2] + 256 * b[p + 3])),
        b[p + 1] < 128 ==> i16_at(b, p) == b[p] + 256 * b[p + 1],
        b[p + 1] >= 128 ==> i16_at(b, p) == b[p] + 256 * b[p + 1] - 65536,
{
}

/// The order of the clusters holds every position once: as many as there are
/// assignments, and each of them.
pub proof fn cluster_order_holds_every_position(assignments: Seq<u16>, k: nat, i: int)
    requires
        assignments.len() <= usize::MAX,
        forall|j: int| 0 <= j < assignments.len() ==> (#[trigger] assignments[j]) < k,
        0 <= i < assignments.len(),
    ensures
        in_cluster_order(member_lists(assignments, k)).contains(i as usize),
        in_cluster_order(member_lists(assignments, k)).len() == assignments.len(),
{
    let lists = member_lists(assignments, k);
    let c = assignments[i] as int;
    every_position_is_a_member(assignments, i);
    assert(lists[c] == members(assignments, c));
    ordered_members(lists, c, i as usize);
    ordered_len(assignments, k);
}

proof fn ordered_members(lists: Seq<Seq<usize>>, c: int, x: usize)
    requires
        0 <= c < lists.len(),
        lists[c].contains(x),
    ensures
        in_cluster_order(lists).contains(x),
    decreases lists.len(),
{
    let front = lists.drop_last();
    let before = in_cluster_order(front);
    let all = in_cluster_order(lists);
    if c == lists.len() - 1 {
        let p = choose|p: int| 0 <= p < lists[c].len() && lists[c][p] == x;
        assert(all[before.len() + p] == x);
    } else {
        assert(front[c] == lists[c]);
        ordered_members(front, c, x);
        let p = choose|p: int| 0 <= p < before.len() && before[p] == x;
        assert(all[p] == x);
    }
}

proof fn ordered_len(assignments: Seq<u16>, k: nat)
    requires
        forall|j: int| 0 <= j < assignments.len() ==> (#[trigger] assignments[j]) < k,
    ensures
        in_cluster_order(member_lists(assignments, k)).len() == assignments.len(),
    decreases assignments.len(),
{
    if assignments.len() == 0 {
        no_members(assignments, k);
    } else {
        let rest = assignments.drop_last();
        assert forall|j: int| 0 <= j < rest.len() implies (#[trigger] rest[j]) < k by {
            assert(rest[j] == assignments[j]);
        }
        assert(assignments[assignments.len() - 1] < k);
        ordered_len(rest, k);
        one_more_member(assignments, k);
    }
}

proof fn no_members(assignments: Seq<u16>, k: nat)
    requires
        assignments.len() == 0,
    ensures
        in_cluster_order(member_lists(assignments, k)).len() == 0,
    decreases k,
{
    let lists = member_lists(assignments, k);
    if k > 0 {
        no_members(assignments, (k - 1) as nat);
        assert(lists.drop_last() =~= member_lists(assignments, (k - 1) as nat));
    }
}

proof fn one_more_member(assignments: Seq<u16>, k: nat)
    requires
        assignments.len() > 0,
    ensures
        in_cluster_order(member_lists(assignments, k)).len() == in_cluster_order(
            member_lists(assignments.drop_last(), k),
        ).len() + if assignments.last() < k {
            1nat
        } else {
            0nat
        },
    decreases k,
{
    if k > 0 {
        let j = (k - 1) as nat;
        one_more_member(assignments, j);
        let rest = assignments.drop_last();
        assert(member_lists(assignments, k).drop_last() =~= member_lists(assignments, j));
        assert(member_lists(rest, k).drop_last() =~= member_lists(rest, j));
        assert(member_lists(assignments, k).last() == members(assignments, j as int));
        assert(member_lists(rest, k).last() == members(rest, j as int));
    }
}

/// Frauds are labelled 1, and everything else 0.
pub proof fn only_frauds_are_labelled_so(label: Seq<char>)
    ensures
        label_code(label) == 1 <==> label == "fraud"@,
        label_code(label) == 0 <==> label != "fraud"@,
{
}

/// A path names a gzip file exactly if it ends with ".gz".
pub proof fn gzip_files_end_so(path: Seq<char>)
    ensures
        ({
            let b = encode_utf8(path);
            let n = b.len() as int;
            names_gz(path) <==> n >= 3 && b[n - 3] == 46 && b[n - 2] == 103 && b[n - 1] == 122
        }),
{
    reveal_strlit(".gz");
    let b = encode_utf8(path);
    let n = b.len() as int;
    let end = ascii(".gz"@);
    assert(end.len() == 3 && end[0] == 46 && end[1] == 103 && end[2] == 122);
    if n >= 3 {
        let last = b.skip(n - 3);
        assert(last[0] == b[n - 3] && last[1] == b[n - 2] && last[2] == b[n - 1]);
        if last[0] == 46 && last[1] == 103 && last[2] == 122 {
            assert(last =~= end);
        }
    }
}

/// The range of a dimension is that of its numbers: none is below or above it,
/// and both ends are numbers of that dimension where it has finite ones.
pub proof fn ranges_are_of_the_values(rows: Seq<Row>, d: int, i: int)
    requires
        0 <= d < 14,
        0 <= i < rows.len(),
        !is_nan(rows[i]@[d]),
        place(rows[i]@[d]) < 0x7f7f_ffff,
        place(rows[i]@[d]) > -0x7f7f_ffff,
    ensures
        !less(rows[i]@[d], smallest(column(rows, d)).0),
        !less(greatest_of(column(rows, d)), rows[i]@[d]),
        exists|j: int| 0 <= j < rows.len() && (#[trigger] rows[j])@[d] == smallest(column(rows, d)).0,
        exists|j: int| 0 <= j < rows.len() && (#[trigger] rows[j])@[d] == greatest_of(column(rows, d)),
{
    let values = column(rows, d);
    assert(values[i] == rows[i]@[d]);
    smallest_is_smallest(values);
    greatest_is_greatest(values);
    assert(less(values[i], 0x7f7f_ffff));
    let at = smallest(values).1;
    assert(rows[at]@[d] == values[at]);
    greatest_is_a_value(values, i);
    let j = choose|j: int| 0 <= j < values.len() && values[j] == greatest_of(values);
    assert(rows[j]@[d] == values[j]);
}

proof fn greatest_is_a_value(values: Seq<F32Bits>, i: int)
    requires
        0 <= i < values.len(),
        !is_nan(values[i]),
        place(values[i]) > -0x7f7f_ffff,
    ensures
        exists|j: int| 0 <= j < values.len() && values[j] == greatest_of(values),
    decreases values.len(),
{
    let rest = values.drop_last();
    let best = greatest_of(rest);
    greatest_is_greatest(rest);
    if less(best, values.last()) {
        assert(values[values.len() - 1] == greatest_of(values));
    } else {
        if i < rest.len() {
            assert(rest[i] == values[i]);
            greatest_is_a_value(rest, i);
        } else {
            one_is_above(rest);
        }
        let j = choose|j: int| 0 <= j < rest.len() && rest[j] == best;
        assert(values[j] == greatest_of(values));
    }
}

proof fn one_is_above(values: Seq<F32Bits>)
    requires
        place(greatest_of(values)) > -0x7f7f_ffff,
    ensures
        exists|j: int| 0 <= j < values.len() && values[j] == greatest_of(values),
    decreases values.len(),
{
    if values.len() > 0 {
        let rest = values.drop_last();
        if less(greatest_of(rest), values.last()) {
            assert(values[values.len() - 1] == greatest_of(values));
        } else {
            one_is_above(rest);
            let j = choose|j: int| 0 <= j < rest.len() && rest[j] == greatest_of(rest);
            assert(values[j] == greatest_of(values));
        }
    }
}

/// The companion file starts with "QI8V", the number of vectors and that of
/// dimensions; then come the ends of the ranges, and then the values.
pub proof fn companion_files_hold_their_parts(
    count: nat,
    least: Seq<F32Bits>,
    greatest: Seq<F32Bits>,
    values: Seq<u8>,
)
    requires
        count <= u32::MAX,
        least.len() == 14,
        greatest.len() == 14,
    ensures
        ({
            let f = quantized_file(count, least, greatest, values);
            &&& f.len() == 124 + values.len()
            &&& f[0] == 81 && f[1] == 73 && f[2] == 56 && f[3] == 86
            &&& u32_at(f, 4) == count
            &&& u32_at(f, 8) == 14
            &&& u32s_at(f, 12, 14) == least
            &&& u32s_at(f, 68, 14) == greatest
            &&& f.skip(124) == values
        }),
{
    let f = quantized_file(count, least, greatest, values);
    let start = seq![0x51u8, 0x49, 0x38, 0x56];
    let n = low32(count as int);
    let head = start + u32_bytes(n) + u32_bytes(14);
    assert(head.len() == 12);
    u32_round_trip(n);
    u32_round_trip(14);
    assert(f.subrange(4, 8) =~= u32_bytes(n));
    assert(f.subrange(8, 12) =~= u32_bytes(14));
    assert forall|j: int| 0 <= j < 4 implies f[4 + j] == u32_bytes(n)[j] && f[8 + j] == u32_bytes(
        14,
    )[j] by {
        assert(f.subrange(4, 8)[j] == f[4 + j]);
        assert(f.subrange(8, 12)[j] == f[8 + j]);
    }
    companion_ranges(head, least, greatest, values);
    assert(f.skip(124) =~= values);
}

proof fn companion_ranges(
    head: Seq<u8>,
    least: Seq<F32Bits>,
    greatest: Seq<F32Bits>,
    values: Seq<u8>,
)
    requires
        head.len() == 12,
        least.len() == 14,
        greatest.len() == 14,
    ensures
        ({
            let f = head + u32s_bytes(least) + u32s_bytes(greatest) + values;
            u32s_at(f, 12, 14) == least && u32s_at(f, 68, 14) == greatest
        }),
{
    let a = u32s_bytes(least);
    let b = u32s_bytes(greatest);
    let f = head + a + b + values;
    assert(f =~= head + a + (b + values));
    u32s_round_trip(head, least, b + values);
    assert((head + a).len() == 68);
    u32s_round_trip(head + a, greatest, values);
}

/// What the search engine loads of an index that was written: a vector stands in
/// its cluster at its place, with its label, and its values and the centroids
/// are made half-precision numbers of what was written.
pub proof fn engines_hold_what_was_written<F: Fn(F32Bits) -> u16, G: Fn(i16) -> u16>(
    s: VectorSearch,
    rows: Seq<[i16; 14]>,
    labels: Seq<u8>,
    assignments: Seq<u16>,
    centroids: Seq<[F32Bits; 14]>,
    count: nat,
    float_to_half: F,
    scaled_to_half: G,
    c: int,
    p: int,
    d: int,
)
    requires
        count <= u32::MAX,
        count * 28 <= usize::MAX,
        centroids.len() <= u32::MAX,
        laid_len(member_lists(assignments, centroids.len())) * 14 <= u32::MAX,
        holds_stored(
            s,
            engine_index(rows, labels, assignments, centroids, count),
            float_to_half,
            scaled_to_half,
        ),
        0 <= c < centroids.len(),
        0 <= p < members(assignments, c).len(),
        laid_len(member_lists(assignments, centroids.len()).take(c)) + p < count,
        0 <= d < 14,
    ensures
        ({
            let v = laid_len(member_lists(assignments, centroids.len()).take(c)) + p;
            let i = members(assignments, c)[p] as int;
            &&& s.k == centroids.len()
            &&& s.count == count
            &&& s.cluster_offsets@.len() == centroids.len()
            &&& s.cluster_offsets@[c].0 == 28 * (v - p)
            &&& p < s.cluster_offsets@[c].1
            &&& s.labels@.len() == count
            &&& s.labels@[v] == labels[i]
            &&& call_ensures(scaled_to_half, (rows[i]@[d],), s.vectors@[14 * v + d])
            &&& call_ensures(float_to_half, (centroids[c]@[d],), s.centroids@[14 * c + d])
        }),
{
    let b = engine_index(rows, labels, assignments, centroids, count);
    let lists = member_lists(assignments, centroids.len());
    let v = laid_len(lists.take(c)) + p;
    let i = members(assignments, c)[p] as int;
    written_vectors_are_loaded(rows, labels, assignments, centroids, count, c, p);
    written_centroids_are_loaded(rows, labels, assignments, centroids, count, c, d);
    written_header_is_stored(rows, labels, assignments, centroids, count);
    written_places_are_loaded(rows, labels, assignments, centroids, count, c, p);
    assert(scaled_value(b, 14 * v + d) == rows[i]@[d]);
    assert(call_ensures(scaled_to_half, (scaled_value(b, 14 * v + d),), s.vectors@[14 * v + d]));
    assert(call_ensures(
        float_to_half,
        (centroid_bits(b, 14 * c + d),),
        s.centroids@[14 * c + d],
    ));
}

/// Bytes that start otherwise than with "IVF1", or are of other than fourteen
/// dimensions, are no index for the search engine.
pub proof fn other_files_are_no_engine_index(b: Seq<u8>)
    requires
        is_readable(b),
    ensures
        b.len() >= 16,
        b[0] == 73 && b[1] == 86 && b[2] == 70 && b[3] == 49,
        b[12] == 14 && b[13] == 0 && b[14] == 0 && b[15] == 0,
{
    let t = b.take(4);
    assert(t[0] == b[0] && t[1] == b[1] && t[2] == b[2] && t[3] == b[3]);
    assert(magic()[0] == 73 && magic()[1] == 86 && magic()[2] == 70 && magic()[3] == 49);
}

/// A gzip stream of which four other bytes are read is refused for its start, and
/// one of which sixteen bytes are read that name other dimensions for those. What
/// cannot be read is refused as such, and what is loaded was read whole.
pub proof fn streams_are_refused_for_what_was_read(gz: Seq<u8>)
    ensures
        (read_exactly(gz, 4) matches Some(start) && start != magic()) ==> stream_outcome(gz)
            == Err::<DatasetModel, LoadError>(LoadError::BadMagic),
        read_exactly(gz, 4) is None ==> stream_outcome(gz) == Err::<DatasetModel, LoadError>(
            LoadError::Io,
        ),
        read_exactly(gz, 4) == Some(magic()) && read_exactly(gz, 16) is None ==> stream_outcome(gz)
            == Err::<DatasetModel, LoadError>(LoadError::Io),
        read_exactly(gz, 4) == Some(magic()) ==> (read_exactly(gz, 16) matches Some(header)
            ==> u32_at(header, 12) != 14 ==> stream_outcome(gz) == Err::<DatasetModel, LoadError>(
            LoadError::BadDims,
        )),
        stream_outcome(gz) matches Ok(m) ==> exists|n: nat|
            (#[trigger] read_exactly(gz, n)) matches Some(whole) && decode_outcome(whole) == Ok::<
                DatasetModel,
                LoadError,
            >(m),
{
}

/// Loading keeps the index that was read, and hands on the error if there is
/// none.
pub proof fn loading_keeps_the_index_or_fails(
    outcome: Result<DatasetModel, LoadError>,
    r: Result<(), LoadError>,
    loaded: Option<DatasetModel>,
)
    requires
        init_gives(outcome, r, loaded),
    ensures
        r is Ok <==> outcome is Ok,
        loaded is Some <==> outcome is Ok,
        outcome matches Ok(m) ==> loaded == Some(m),
        outcome matches Err(e) ==> r == Err::<(), LoadError>(e),
{
}

} // verus!
