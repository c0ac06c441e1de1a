//! Writing an index from clustered vectors.
//!
//! Two kinds of index are written. They differ in the unit of their offsets:
//! the server's index counts places, the search engine's counts blocks.

use vstd::prelude::*;
use crate::data::{decode_outcome, load_gives_back_what_was_written, DatasetModel, LoadError};
use crate::float_bits::F32Bits;
use crate::gz::{gunzipped, gzip, gzipped};
use crate::index::{block_value, by_dimension, cluster_lists, encode, encoded, every_vector_is_laid, laid_blocks, laid_labels, laid_len, laid_len_grows, laid_lengths, lay_out, lists_within, member_lists, members, transpose, views, Layout};

verus! {

/// The number of clusters of the server's index.
pub const K: usize = 4096;

/// The largest number of rounds of clustering for the server's index.
pub const N_ITER: usize = 25;

/// The number of vectors that the search engine's clusters are found on.
pub const SAMPLE_SIZE: usize = 50_000;

/// The largest number of rounds of clustering for the search engine's index.
pub const KMEANS_ITERS: usize = 20;

/// The lowest 32 bits of a length.
pub open spec fn low32(x: int) -> u32 {
    (x % 0x1_0000_0000) as u32
}

/// The lowest 32 bits of a length.
pub fn truncated(x: usize) -> (r: u32)
    ensures
        r == low32(x as int),
{
    ((x as u64) % 0x1_0000_0000) as u32
}

/// What the offsets of an index count.
#[derive(Debug, Clone, Copy, PartialEq, Eq, Structural)]
pub enum OffsetUnit {
    Places,
    Blocks,
}

/// The offset behind `len` places.
pub open spec fn offset_behind(unit: OffsetUnit, len: nat) -> u32 {
    match unit {
        OffsetUnit::Places => low32(len as int),
        OffsetUnit::Blocks => low32(len as int * 14) / 112,
    }
}

/// Where each cluster starts, and where the last one ends.
pub open spec fn cluster_offsets(unit: OffsetUnit, lists: Seq<Seq<usize>>) -> Seq<u32> {
    Seq::new(lists.len() + 1, |c: int| offset_behind(unit, laid_len(lists.take(c))))
}

/// Offsets in places.
pub open spec fn place_offsets(lists: Seq<Seq<usize>>) -> Seq<u32> {
    cluster_offsets(OffsetUnit::Places, lists)
}

/// Offsets in blocks.
pub open spec fn block_offsets(lists: Seq<Seq<usize>>) -> Seq<u32> {
    cluster_offsets(OffsetUnit::Blocks, lists)
}

/// An index as the server reads it, of vectors that were assigned to clusters.
pub open spec fn server_index(
    rows: Seq<[i16; 14]>,
    labels: Seq<u8>,
    assignments: Seq<u16>,
    centroids: Seq<[F32Bits; 14]>,
    n: nat,
) -> DatasetModel {
    let lists = member_lists(assignments, centroids.len());
    DatasetModel {
        centroids: by_dimension(centroids),
        offsets: place_offsets(lists),
        labels: laid_labels(lists, labels),
        blocks: laid_blocks(lists, rows),
        k: centroids.len(),
        n: low32(n as int) as nat,
        padded_n: laid_len(lists),
    }
}

/// A member is a position at which its cluster is assigned, and there are no
/// more members than positions.
pub proof fn members_are_positions(assignments: Seq<u16>, c: int)
    requires
        assignments.len() <= usize::MAX,
    ensures
        members(assignments, c).len() <= assignments.len(),
        forall|p: int|
            0 <= p < members(assignments, c).len() ==> (#[trigger] members(assignments, c)[p])
                < assignments.len() && assignments[members(assignments, c)[p] as int] == c,
    decreases assignments.len(),
{
    if assignments.len() > 0 {
        let t = assignments.drop_last();
        members_are_positions(t, c);
        assert forall|p: int| 0 <= p < members(assignments, c).len() implies (#[trigger] members(
            assignments,
            c,
        )[p]) < assignments.len() && assignments[members(assignments, c)[p] as int] == c by {
            if p < members(t, c).len() {
                assert(members(assignments, c)[p] == members(t, c)[p]);
            }
        }
    }
}

/// Every position is a member of the cluster that is assigned to it.
pub proof fn every_position_is_a_member(assignments: Seq<u16>, i: int)
    requires
        0 <= i < assignments.len() <= usize::MAX,
    ensures
        members(assignments, assignments[i] as int).contains(i as usize),
    decreases assignments.len(),
{
    let c = assignments[i] as int;
    let t = assignments.drop_last();
    let r = members(t, c);
    let all = members(assignments, c);
    if i == assignments.len() - 1 {
        assert(all == r.push(i as usize));
        assert(all[r.len() as int] == i as usize);
    } else {
        every_position_is_a_member(t, i);
        let p = choose|p: int| 0 <= p < r.len() && r[p] == i as usize;
        assert(all[p] == r[p]);
    }
}

/// The two conditions under which clusters can be laid out.
proof fn lists_can_be_laid(assignments: Seq<u16>, k: nat)
    requires
        assignments.len() + 7 <= usize::MAX,
    ensures
        lists_within(member_lists(assignments, k), assignments.len()),
        forall|c: int|
            0 <= c < k ==> (#[trigger] member_lists(assignments, k)[c]).len() + 7 <= usize::MAX,
{
    let lists = member_lists(assignments, k);
    assert forall|c: int| 0 <= c < k implies (#[trigger] lists[c]).len() + 7 <= usize::MAX by {
        members_are_positions(assignments, c);
    }
    assert forall|c: int, p: int|
        0 <= c < lists.len() && 0 <= p < lists[c].len() implies (#[trigger] lists[c][p])
        < assignments.len() by {
        members_are_positions(assignments, c);
    }
}

/// The bytes of an index of vectors that were assigned to clusters.
fn encode_clusters(
    unit: OffsetUnit,
    rows: &[[i16; 14]],
    labels: &[u8],
    assignments: &[u16],
    centroids: &[[F32Bits; 14]],
    n: usize,
) -> (r: Vec<u8>)
    requires
        assignments@.len() <= rows@.len(),
        assignments@.len() <= labels@.len(),
        assignments@.len() + 7 <= usize::MAX,
        centroids@.len() <= u32::MAX,
        forall|i: int| 0 <= i < assignments@.len() ==> (#[trigger] assignments@[i]) < centroids@.len(),
    ensures
        ({
            let lists = member_lists(assignments@, centroids@.len());
            r@ == encoded(
                low32(n as int),
                centroids@.len() as u32,
                by_dimension(centroids@),
                cluster_offsets(unit, lists),
                laid_labels(lists, labels@),
                laid_blocks(lists, rows@),
            )
        }),
{
    let k: usize = centroids.len();
    let lists: Vec<Vec<usize>> = cluster_lists(assignments, k);
    let ghost ls = member_lists(assignments@, k as nat);
    proof {
        lists_can_be_laid(assignments@, k as nat);
        assert(views(lists@).len() == k);
        assert forall|c: int| 0 <= c < lists@.len() implies (#[trigger] lists@[c])@.len() + 7
            <= usize::MAX by {
            assert(views(lists@)[c] == lists@[c]@);
            assert(ls[c].len() + 7 <= usize::MAX);
        }
    }
    let layout: Layout = lay_out(&lists, rows, labels);
    let mut offsets: Vec<u32> = Vec::new();
    offsets.push(0);
    let mut c: usize = 0;
    assert(ls.take(0) =~= Seq::empty());
    assert(offsets@ =~= cluster_offsets(unit, ls).take(1));
    while c < layout.ends.len()
        invariant
            c <= layout.ends@.len(),
            layout.ends@ == Seq::new(ls.len(), |c: int| laid_len(ls.take(c + 1)) as usize),
            laid_len(ls) * 14 <= usize::MAX,
            offsets@ == cluster_offsets(unit, ls).take(c + 1),
        decreases layout.ends@.len() - c,
    {
        proof {
            laid_len_grows(ls, c + 1);
        }
        let end: usize = layout.ends[c];
        let offset: u32 = match unit {
            OffsetUnit::Places => truncated(end),
            OffsetUnit::Blocks => truncated(end * 14) / 112,
        };
        offsets.push(offset);
        c = c + 1;
        assert(offsets@ =~= cluster_offsets(unit, ls).take(c + 1));
    }
    assert(offsets@ =~= cluster_offsets(unit, ls));
    encode(
        truncated(n),
        k as u32,
        transpose(centroids).as_slice(),
        offsets.as_slice(),
        layout.labels.as_slice(),
        layout.blocks.as_slice(),
    )
}

/// The bytes of an index as the server reads it, of any number of clusters.
pub fn index_bytes(
    rows: &[[i16; 14]],
    labels: &[u8],
    assignments: &[u16],
    centroids: &[[F32Bits; 14]],
    n: usize,
) -> (r: Vec<u8>)
    requires
        assignments@.len() <= rows@.len(),
        assignments@.len() <= labels@.len(),
        assignments@.len() + 7 <= usize::MAX,
        centroids@.len() <= u32::MAX,
        forall|i: int| 0 <= i < assignments@.len() ==> (#[trigger] assignments@[i]) < centroids@.len(),
    ensures
        r@ == server_index(rows@, labels@, assignments@, centroids@, n as nat).to_bytes(),
{
    encode_clusters(OffsetUnit::Places, rows, labels, assignments, centroids, n)
}

/// The server's index as a gzip stream. It has [`K`] clusters; centroids behind
/// the first [`K`] are not looked at.
pub fn write_index(
    rows: &[[i16; 14]],
    labels: &[u8],
    assignments: &[u16],
    centroids: &[[F32Bits; 14]],
    n: usize,
) -> (r: Vec<u8>)
    requires
        assignments@.len() <= rows@.len(),
        assignments@.len() <= labels@.len(),
        assignments@.len() + 7 <= usize::MAX,
        centroids@.len() >= K,
        forall|i: int| 0 <= i < assignments@.len() ==> (#[trigger] assignments@[i]) < K,
    ensures
        r@ == gzipped(
            server_index(
                rows@,
                labels@,
                assignments@,
                centroids@.take(K as int),
                n as nat,
            ).to_bytes(),
            6,
        ),
        gunzipped(r@) == (
            server_index(
                rows@,
                labels@,
                assignments@,
                centroids@.take(K as int),
                n as nat,
            ).to_bytes(),
            true,
        ),
{
    let first: &[[F32Bits; 14]] = &centroids[0..K];
    assert(first@ =~= centroids@.take(K as int));
    let bytes: Vec<u8> = index_bytes(rows, labels, assignments, first, n);
    gzip(bytes.as_slice(), 6)
}

/// The written index has the sizes that an index must have.
proof fn written_index_has_its_sizes(
    rows: Seq<[i16; 14]>,
    labels: Seq<u8>,
    assignments: Seq<u16>,
    centroids: Seq<[F32Bits; 14]>,
    n: nat,
)
    requires
        centroids.len() <= u32::MAX,
        laid_len(member_lists(assignments, centroids.len())) <= u32::MAX,
    ensures
        server_index(rows, labels, assignments, centroids, n).has_its_sizes(),
{
    let k = centroids.len();
    let lists = member_lists(assignments, k);
    let m = server_index(rows, labels, assignments, centroids, n);
    laid_lengths(lists, labels, rows);
    assert(lists.take(k as int) =~= lists);
    assert(m.offsets[k as int] == laid_len(lists));
}

/// The written index can be scanned.
proof fn written_index_can_be_scanned(
    rows: Seq<[i16; 14]>,
    labels: Seq<u8>,
    assignments: Seq<u16>,
    centroids: Seq<[F32Bits; 14]>,
    n: nat,
)
    requires
        centroids.len() <= u32::MAX,
        laid_len(member_lists(assignments, centroids.len())) <= u32::MAX,
    ensures
        server_index(rows, labels, assignments, centroids, n).is_scannable(),
{
    let k = centroids.len();
    let lists = member_lists(assignments, k);
    let m = server_index(rows, labels, assignments, centroids, n);
    laid_lengths(lists, labels, rows);
    assert forall|j: int| 0 <= j < k implies (#[trigger] m.offsets[j + 1]) <= m.labels.len() && (
    m.offsets[j + 1] + 7) / 8 * 112 <= m.blocks.len() by {
        laid_len_grows(lists, j + 1);
        laid_lengths(lists.take(j + 1), labels, rows);
        let end = laid_len(lists.take(j + 1));
        assert(m.offsets[j + 1] == end);
        assert((end + 7) / 8 * 112 == end * 14);
    }
}

/// An indexed vector stands in its cluster.
proof fn indexed_vector_has_its_place(
    rows: Seq<[i16; 14]>,
    labels: Seq<u8>,
    assignments: Seq<u16>,
    centroids: Seq<[F32Bits; 14]>,
    n: nat,
    i: int,
) -> (g: int)
    requires
        assignments.len() <= usize::MAX,
        laid_len(member_lists(assignments, centroids.len())) <= u32::MAX,
        0 <= i < assignments.len(),
        assignments[i] < centroids.len(),
    ensures
        ({
            let m = server_index(rows, labels, assignments, centroids, n);
            let c = assignments[i] as int;
            &&& m.offsets[c] <= g < m.offsets[c + 1]
            &&& m.labels[g] == labels[i]
            &&& forall|d: int|
                0 <= d < 14 ==> (#[trigger] block_value(m.blocks, g, d)) == rows[i]@[d]
        }),
{
    let lists = member_lists(assignments, centroids.len());
    let c = assignments[i] as int;
    every_position_is_a_member(assignments, i);
    assert(lists[c] == members(assignments, c));
    let p = choose|p: int| 0 <= p < lists[c].len() && lists[c][p] == i as usize;
    every_vector_is_laid(lists, labels, rows, c, p);
    laid_len_grows(lists, c);
    laid_len_grows(lists, c + 1);
    laid_len(lists.take(c)) + p
}

/// What was indexed is found again: as long as the places can be counted in 32
/// bits, loading the written index gives an index that can be scanned and in
/// which every vector stands in its cluster, with its label and its values.
pub proof fn indexed_vectors_are_found_again(
    rows: Seq<[i16; 14]>,
    labels: Seq<u8>,
    assignments: Seq<u16>,
    centroids: Seq<[F32Bits; 14]>,
    n: nat,
    i: int,
)
    requires
        assignments.len() + 7 <= usize::MAX,
        centroids.len() <= u32::MAX,
        forall|j: int| 0 <= j < assignments.len() ==> (#[trigger] assignments[j]) < centroids.len(),
        laid_len(member_lists(assignments, centroids.len())) <= u32::MAX,
        0 <= i < assignments.len(),
    ensures
        ({
            let m = server_index(rows, labels, assignments, centroids, n);
            let c = assignments[i] as int;
            &&& decode_outcome(m.to_bytes()) == Ok::<DatasetModel, LoadError>(m)
            &&& m.is_scannable()
            &&& exists|g: int|
                #![trigger m.labels[g]]
                m.offsets[c] <= g < m.offsets[c + 1] && m.labels[g] == labels[i] && forall|d: int|
                    0 <= d < 14 ==> (#[trigger] block_value(m.blocks, g, d)) == rows[i]@[d]
        }),
{
    let m = server_index(rows, labels, assignments, centroids, n);
    written_index_has_its_sizes(rows, labels, assignments, centroids, n);
    written_index_can_be_scanned(rows, labels, assignments, centroids, n);
    load_gives_back_what_was_written(m, Seq::empty());
    assert(m.to_bytes() + Seq::<u8>::empty() =~= m.to_bytes());
    let g = indexed_vector_has_its_place(rows, labels, assignments, centroids, n, i);
    assert(m.labels[g] == labels[i]);
}

/// The search engine's index of vectors that were assigned to clusters, as
/// bytes.
pub open spec fn engine_index(
    rows: Seq<[i16; 14]>,
    labels: Seq<u8>,
    assignments: Seq<u16>,
    centroids: Seq<[F32Bits; 14]>,
    count: nat,
) -> Seq<u8> {
    let lists = member_lists(assignments, centroids.len());
    encoded(
        low32(count as int),
        centroids.len() as u32,
        by_dimension(centroids),
        block_offsets(lists),
        laid_labels(lists, labels),
        laid_blocks(lists, rows),
    )
}

/// The bytes of the search engine's index.
pub fn engine_bytes(
    rows: &[[i16; 14]],
    labels: &[u8],
    assignments: &[u16],
    centroids: &[[F32Bits; 14]],
    count: usize,
) -> (r: Vec<u8>)
    requires
        assignments@.len() <= rows@.len(),
        assignments@.len() <= labels@.len(),
        assignments@.len() + 7 <= usize::MAX,
        centroids@.len() <= u32::MAX,
        forall|i: int| 0 <= i < assignments@.len() ==> (#[trigger] assignments@[i]) < centroids@.len(),
    ensures
        r@ == engine_index(rows@, labels@, assignments@, centroids@, count as nat),
{
    encode_clusters(OffsetUnit::Blocks, rows, labels, assignments, centroids, count)
}

/// The search engine's index as a gzip stream.
pub fn write_engine_index(
    rows: &[[i16; 14]],
    labels: &[u8],
    assignments: &[u16],
    centroids: &[[F32Bits; 14]],
    count: usize,
) -> (r: Vec<u8>)
    requires
        assignments@.len() <= rows@.len(),
        assignments@.len() <= labels@.len(),
        assignments@.len() + 7 <= usize::MAX,
        centroids@.len() <= u32::MAX,
        forall|i: int| 0 <= i < assignments@.len() ==> (#[trigger] assignments@[i]) < centroids@.len(),
    ensures
        r@ == gzipped(engine_index(rows@, labels@, assignments@, centroids@, count as nat), 9),
        gunzipped(r@) == (
            engine_index(rows@, labels@, assignments@, centroids@, count as nat),
            true,
        ),
{
    let bytes: Vec<u8> = engine_bytes(rows, labels, assignments, centroids, count);
    gzip(bytes.as_slice(), 9)
}

/// The positions of the sample: `size` of them, evenly spread from the start.
pub fn sample_positions(count: usize, size: usize) -> (r: Vec<usize>)
    requires
        size > 0,
    ensures
        r@.len() == size,
        forall|i: int| 0 <= i < size ==> (#[trigger] r@[i]) == i * (count as int / size as int),
        count > 0 ==> forall|i: int| 0 <= i < size ==> (#[trigger] r@[i]) < count,
{
    let step: usize = count / size;
    let mut r: Vec<usize> = Vec::new();
    let mut i: usize = 0;
    while i < size
        invariant
            i <= size,
            size > 0,
            step == count as int / size as int,
            r@.len() == i,
            forall|j: int| 0 <= j < i ==> (#[trigger] r@[j]) == j * step,
            count > 0 ==> forall|j: int| 0 <= j < i ==> (#[trigger] r@[j]) < count,
        decreases size - i,
    {
        proof {
            vstd::arithmetic::div_mod::lemma_fundamental_div_mod(count as int, size as int);
            assert(i * step <= size * step - step) by (nonlinear_arith)
                requires
                    i < size,
                    step >= 0,
            ;
            if step == 0 {
                assert(i * step == 0) by (nonlinear_arith)
                    requires
                        step == 0,
                ;
            }
        }
        r.push(i * step);
        i = i + 1;
    }
    r
}

/// The members of all clusters, one cluster after the other.
pub open spec fn in_cluster_order(lists: Seq<Seq<usize>>) -> Seq<usize>
    decreases lists.len(),
{
    if lists.len() == 0 {
        Seq::empty()
    } else {
        in_cluster_order(lists.drop_last()) + lists.last()
    }
}

/// Lists the members of all clusters, one cluster after the other.
pub fn cluster_order(lists: &Vec<Vec<usize>>) -> (r: Vec<usize>)
    ensures
        r@ == in_cluster_order(views(lists@)),
{
    let ghost all = views(lists@);
    let mut r: Vec<usize> = Vec::new();
    let mut c: usize = 0;
    assert(all.take(0) =~= Seq::empty());
    while c < lists.len()
        invariant
            c <= lists@.len(),
            all == views(lists@),
            r@ == in_cluster_order(all.take(c as int)),
        decreases lists@.len() - c,
    {
        let ghost before = r@;
        let mut p: usize = 0;
        assert(r@ =~= before + lists@[c as int]@.take(0));
        while p < lists[c].len()
            invariant
                c < lists@.len(),
                p <= lists@[c as int]@.len(),
                r@ == before + lists@[c as int]@.take(p as int),
            decreases lists@[c as int]@.len() - p,
        {
            r.push(lists[c][p]);
            assert(r@ =~= before + lists@[c as int]@.take(p + 1));
            p = p + 1;
        }
        assert(lists@[c as int]@.take(p as int) =~= all[c as int]);
        assert(all.take(c + 1).drop_last() =~= all.take(c as int));
        c = c + 1;
    }
    assert(all.take(c as int) =~= all);
    r
}

} // verus!
