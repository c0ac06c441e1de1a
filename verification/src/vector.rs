//! The search engine: an inverted-file index over half-precision vectors.

use vstd::prelude::*;
use crate::bytes::{i16_at, read_i16, read_u32, read_u32s, u32_at, u32s_at};
use crate::data::offsets_end;
use crate::float_bits::F32Bits;
use crate::gz::{gunzip, gunzipped};
use crate::index::{magic, starts_with_magic};

verus! {

/// The largest number of clusters.
pub const N_CLUSTERS: usize = 512;

/// The bytes of a vector: two for each dimension.
pub const VECTOR_BYTES: usize = 28;

/// Vector search over clusters found by k-means.
/// Vectors and centroids are stored as half-precision bit patterns.
pub struct VectorSearch {
    pub vectors: Vec<u16>,
    pub labels: Vec<u8>,
    pub centroids: Vec<u16>,
    /// Of each cluster, the byte of `vectors` that it starts at and its number of
    /// vectors.
    pub cluster_offsets: Vec<(usize, usize)>,
    pub k: usize,
    pub total_blocks: usize,
    pub count: usize,
}

/// One neighbour that a search found.
#[derive(Debug, Clone, Copy, PartialEq, Eq, Structural)]
pub struct SearchResult {
    pub node_id: u32,
    pub distance: F32Bits,
    pub label: u8,
}

/// The parts of an index in bytes.
pub open spec fn stored_count(b: Seq<u8>) -> nat {
    u32_at(b, 4) as nat
}

pub open spec fn stored_k(b: Seq<u8>) -> nat {
    u32_at(b, 8) as nat
}

/// Where each cluster starts, and where the last one ends, in blocks.
pub open spec fn stored_offsets(b: Seq<u8>) -> Seq<u32> {
    u32s_at(b, 16 + 56 * stored_k(b) as int, stored_k(b) + 1)
}

pub open spec fn stored_blocks(b: Seq<u8>) -> nat {
    stored_offsets(b)[stored_k(b) as int] as nat
}

/// Where the labels start.
pub open spec fn labels_start(b: Seq<u8>) -> int {
    offsets_end(u32_at(b, 8))
}

/// Where the blocks start.
pub open spec fn blocks_start(b: Seq<u8>) -> int {
    labels_start(b) + 8 * stored_blocks(b)
}

/// A place, but no more than the number of vectors.
pub open spec fn clipped(b: Seq<u8>, g: int) -> int {
    if g < stored_count(b) {
        g
    } else {
        stored_count(b) as int
    }
}

/// The first place that is loaded.
pub open spec fn first_place(b: Seq<u8>) -> int {
    clipped(b, 8 * stored_offsets(b)[0])
}

/// The number of places that are loaded.
pub open spec fn loaded_count(b: Seq<u8>) -> int {
    clipped(b, 8 * stored_blocks(b) as int) - first_place(b)
}

/// Where the value in dimension `d` of place `g` stands.
pub open spec fn value_at(b: Seq<u8>, g: int, d: int) -> int {
    blocks_start(b) + 2 * (g / 8 * 112 + d * 8 + g % 8)
}

/// The header is that of an index, and its parts up to the labels are there.
pub open spec fn has_front(b: Seq<u8>) -> bool {
    &&& b.len() >= 16
    &&& b.take(4) == magic()
    &&& u32_at(b, 12) == 14
    &&& labels_start(b) <= b.len()
    &&& blocks_start(b) <= b.len()
}

/// The clusters follow each other.
pub open spec fn offsets_ascend(b: Seq<u8>) -> bool {
    forall|c: int|
        0 <= c < stored_k(b) ==> (#[trigger] stored_offsets(b)[c]) <= stored_offsets(b)[c + 1]
}

/// Every place that is loaded has its values.
pub open spec fn has_loaded_values(b: Seq<u8>) -> bool {
    loaded_count(b) > 0 ==> value_at(b, first_place(b) + loaded_count(b) - 1, 13) + 2 <= b.len()
}

/// The bytes hold an index that can be loaded: the header is right, all parts
/// are there, the clusters follow each other, and every place that is loaded
/// has its values.
pub open spec fn is_readable(b: Seq<u8>) -> bool {
    &&& has_front(b)
    &&& (b.len() - blocks_start(b)) % 2 == 0
    &&& offsets_ascend(b)
    &&& has_loaded_values(b)
    &&& stored_count(b) * 28 <= usize::MAX
}

/// The offsets never fall, however far apart.
pub proof fn offsets_ascend_far(b: Seq<u8>, c: int, e: int)
    requires
        offsets_ascend(b),
        0 <= c <= e <= stored_k(b),
    ensures
        stored_offsets(b)[c] <= stored_offsets(b)[e],
    decreases e - c,
{
    if c < e {
        offsets_ascend_far(b, c, e - 1);
        assert(stored_offsets(b)[e - 1] <= stored_offsets(b)[e]);
    }
}

/// What is stored of place `g` lies before what is stored of a later one.
proof fn values_ascend(b: Seq<u8>, g: int, h: int, d: int)
    requires
        0 <= g <= h,
        0 <= d < 14,
    ensures
        blocks_start(b) <= value_at(b, g, d) <= value_at(b, h, 13),
{
    assert(g / 8 <= h / 8);
    if g / 8 == h / 8 {
        assert(g % 8 <= h % 8);
    } else {
        assert(g / 8 + 1 <= h / 8);
    }
}

/// Whether the header is that of an index and its parts up to the labels are
/// there.
fn front_is_readable(b: &[u8]) -> (r: bool)
    ensures
        r == has_front(b@),
{
    let len: usize = b.len();
    if len < 16 || !starts_with_magic(b) || read_u32(b, 12) != 14 {
        return false;
    }
    let k: u64 = read_u32(b, 8) as u64;
    let start: u64 = 20 + 60 * k;
    if (len as u64) < start {
        return false;
    }
    let total: u64 = read_u32(b, start as usize - 4) as u64 * 8;
    assert(total == 8 * stored_blocks(b@));
    start + total <= len as u64
}

/// Whether no offset falls.
fn offsets_are_ascending(offsets: &Vec<u32>) -> (r: bool)
    requires
        offsets@.len() > 0,
    ensures
        r == forall|c: int|
            0 <= c < offsets@.len() - 1 ==> (#[trigger] offsets@[c]) <= offsets@[c + 1],
{
    let mut c: usize = 0;
    while c < offsets.len() - 1
        invariant
            c <= offsets@.len() - 1,
            offsets@.len() > 0,
            forall|j: int| 0 <= j < c ==> (#[trigger] offsets@[j]) <= offsets@[j + 1],
        decreases offsets@.len() - c,
    {
        if offsets[c] > offsets[c + 1] {
            assert(offsets@[c as int] > offsets@[c + 1]);
            return false;
        }
        c = c + 1;
    }
    true
}

/// Whether every place that is loaded has its values.
fn loaded_values_are_there(b: &[u8], offsets: &Vec<u32>, k: usize) -> (r: bool)
    requires
        has_front(b@),
        offsets_ascend(b@),
        k == stored_k(b@),
        offsets@ == stored_offsets(b@),
    ensures
        r == has_loaded_values(b@),
{
    proof {
        offsets_ascend_far(b@, 0, k as int);
    }
    let count: u64 = read_u32(b, 4) as u64;
    let first: u64 = offsets[0] as u64 * 8;
    let total: u64 = offsets[k] as u64 * 8;
    let end: u64 = if total < count {
        total
    } else {
        count
    };
    if first >= end {
        return true;
    }
    let last: u64 = end - 1;
    let start: u64 = 20 + 60 * (k as u64) + total;
    assert(start == blocks_start(b@));
    assert(last == first_place(b@) + loaded_count(b@) - 1);
    start + 2 * (last / 8 * 112 + 104 + last % 8) + 2 <= b.len() as u64
}

/// Whether the bytes hold an index that can be loaded.
pub fn index_is_readable(b: &[u8]) -> (r: bool)
    ensures
        r == is_readable(b@),
{
    let len: usize = b.len();
    if !front_is_readable(b) {
        return false;
    }
    let count: u64 = read_u32(b, 4) as u64;
    let k: usize = read_u32(b, 8) as usize;
    let offsets: Vec<u32> = read_u32s(b, 16 + 56 * k, k + 1);
    assert(offsets@ == stored_offsets(b@));
    if !offsets_are_ascending(&offsets) {
        assert(!offsets_ascend(b@));
        return false;
    }
    assert(offsets_ascend(b@));
    let rest: u64 = len as u64 - (20 + 60 * (k as u64)) - offsets[k] as u64 * 8;
    assert(rest == b@.len() - blocks_start(b@));
    rest % 2 == 0 && count * 28 <= usize::MAX as u64 && loaded_values_are_there(b, &offsets, k)
}

/// The stored bits of entry `i` of the centroids, vector by vector.
pub open spec fn centroid_bits(b: Seq<u8>, i: int) -> F32Bits {
    u32_at(b, 16 + 4 * ((i % 14) * stored_k(b) + i / 14))
}

/// The stored value of entry `i` of the vectors that are loaded.
pub open spec fn scaled_value(b: Seq<u8>, i: int) -> i16 {
    i16_at(b, value_at(b, first_place(b) + i / 14, i % 14))
}

/// The byte of the vectors that cluster `c` starts at, and its number of vectors.
pub open spec fn cluster_extent(b: Seq<u8>, c: int) -> (usize, usize) {
    let from = clipped(b, 8 * stored_offsets(b)[c]);
    let to = clipped(b, 8 * stored_offsets(b)[c + 1]);
    (((from - first_place(b)) * 28) as usize, (to - from) as usize)
}

/// The label of vector `v`.
pub open spec fn loaded_label(b: Seq<u8>, v: int) -> u8 {
    if v < loaded_count(b) {
        b[labels_start(b) + first_place(b) + v]
    } else {
        0
    }
}

/// What is loaded from bytes: the places from the first cluster on, in their
/// order, as many as there are vectors; each number through the function that
/// makes a half-precision number of it. Vectors past those are all zero.
pub open spec fn holds_stored<F: Fn(F32Bits) -> u16, G: Fn(i16) -> u16>(
    s: VectorSearch,
    b: Seq<u8>,
    float_to_half: F,
    scaled_to_half: G,
) -> bool {
    &&& s.k == stored_k(b)
    &&& s.count == stored_count(b)
    &&& s.total_blocks == stored_blocks(b)
    &&& s.centroids@.len() == 14 * stored_k(b)
    &&& forall|i: int|
        0 <= i < 14 * stored_k(b) ==> call_ensures(
            float_to_half,
            (centroid_bits(b, i),),
            #[trigger] s.centroids@[i],
        )
    &&& s.vectors@.len() == 14 * stored_count(b)
    &&& forall|i: int|
        0 <= i < 14 * loaded_count(b) ==> call_ensures(
            scaled_to_half,
            (scaled_value(b, i),),
            #[trigger] s.vectors@[i],
        )
    &&& forall|i: int|
        14 * loaded_count(b) <= i < 14 * stored_count(b) ==> (#[trigger] s.vectors@[i]) == 0
    &&& s.labels@ == Seq::new(stored_count(b), |v: int| loaded_label(b, v))
    &&& s.cluster_offsets@ == Seq::new(stored_k(b), |c: int| cluster_extent(b, c))
}

/// The place of a centroid entry lies within the stored centroids.
proof fn centroid_entry_within(i: int, k: int)
    requires
        0 <= i < 14 * k,
    ensures
        0 <= (i % 14) * k + i / 14 < 14 * k,
{
    let d = i % 14;
    let c = i / 14;
    assert(c < k);
    assert(0 <= d * k <= 13 * k) by (nonlinear_arith)
        requires
            0 <= d <= 13,
            0 <= k,
    ;
}

/// The places that are loaded lie within the labels, and there are no more of
/// them than vectors.
proof fn loaded_within(b: Seq<u8>)
    requires
        offsets_ascend(b),
    ensures
        0 <= first_place(b),
        0 <= loaded_count(b),
        first_place(b) + loaded_count(b) <= stored_count(b),
        first_place(b) + loaded_count(b) <= 8 * stored_blocks(b) || loaded_count(b) == 0,
{
    offsets_ascend_far(b, 0, stored_k(b) as int);
}

/// Every cluster has a label for each of its vectors.
pub open spec fn is_searchable(s: VectorSearch) -> bool {
    forall|c: int|
        0 <= c < s.cluster_offsets@.len() ==> (#[trigger] s.cluster_offsets@[c]).0 as int / 28
            + s.cluster_offsets@[c].1 <= s.labels@.len()
}

/// A loaded index can be searched: every cluster lies within the labels.
pub proof fn loaded_index_is_searchable<F: Fn(F32Bits) -> u16, G: Fn(i16) -> u16>(
    s: VectorSearch,
    b: Seq<u8>,
    float_to_half: F,
    scaled_to_half: G,
)
    requires
        is_readable(b),
        holds_stored(s, b, float_to_half, scaled_to_half),
    ensures
        is_searchable(s),
        s.cluster_offsets@.len() == s.k,
{
    assert forall|c: int| 0 <= c < s.cluster_offsets@.len() implies (
    #[trigger] s.cluster_offsets@[c]).0 as int / 28 + s.cluster_offsets@[c].1 <= s.labels@.len() by {
        offsets_ascend_far(b, 0, c);
        offsets_ascend_far(b, c, c + 1);
    }
}

impl VectorSearch {
    fn load_centroids<F: Fn(F32Bits) -> u16>(b: &[u8], k: usize, float_to_half: &F) -> (r: Vec<u16>)
        requires
            is_readable(b@),
            k == stored_k(b@),
            forall|x: F32Bits| call_requires(*float_to_half, (x,)),
        ensures
            r@.len() == 14 * k,
            forall|i: int|
                0 <= i < 14 * k ==> call_ensures(
                    *float_to_half,
                    (centroid_bits(b@, i),),
                    #[trigger] r@[i],
                ),
    {
        let len: usize = b.len();
        let n: usize = 14 * k;
        let mut r: Vec<u16> = Vec::new();
        let mut i: usize = 0;
        while i < n
            invariant
                i <= n,
                n == 14 * k,
                len == b@.len(),
                k == stored_k(b@),
                20 + 60 * k <= len,
                forall|x: F32Bits| call_requires(*float_to_half, (x,)),
                r@.len() == i,
                forall|j: int|
                    0 <= j < i ==> call_ensures(
                        *float_to_half,
                        (centroid_bits(b@, j),),
                        #[trigger] r@[j],
                    ),
            decreases n - i,
        {
            proof {
                centroid_entry_within(i as int, k as int);
                assert(0 <= (i as int % 14) * k) by (nonlinear_arith)
                    requires
                        0 <= i,
                        0 <= k,
                ;
            }
            let at: usize = 16 + 4 * ((i % 14) * k + i / 14);
            let bits: F32Bits = read_u32(b, at);
            r.push(float_to_half(bits));
            i = i + 1;
        }
        r
    }

    fn load_vectors<G: Fn(i16) -> u16>(
        b: &[u8],
        start: usize,
        first: usize,
        loaded: usize,
        count: usize,
        scaled_to_half: &G,
    ) -> (r: Vec<u16>)
        requires
            is_readable(b@),
            start == blocks_start(b@),
            first == first_place(b@),
            loaded == loaded_count(b@),
            count == stored_count(b@),
            forall|x: i16| call_requires(*scaled_to_half, (x,)),
        ensures
            r@.len() == 14 * count,
            forall|i: int|
                0 <= i < 14 * loaded ==> call_ensures(
                    *scaled_to_half,
                    (scaled_value(b@, i),),
                    #[trigger] r@[i],
                ),
            forall|i: int| 14 * loaded <= i < 14 * count ==> (#[trigger] r@[i]) == 0,
    {
        proof {
            loaded_within(b@);
        }
        let len: usize = b.len();
        let mut r: Vec<u16> = Vec::new();
        let mut i: usize = 0;
        while i < 14 * loaded
            invariant
                i <= 14 * loaded,
                14 * loaded <= 14 * count <= usize::MAX,
                is_readable(b@),
                len == b@.len(),
                start == blocks_start(b@),
                first == first_place(b@),
                loaded == loaded_count(b@),
                first + loaded <= count,
                forall|x: i16| call_requires(*scaled_to_half, (x,)),
                r@.len() == i,
                forall|j: int|
                    0 <= j < i ==> call_ensures(
                        *scaled_to_half,
                        (scaled_value(b@, j),),
                        #[trigger] r@[j],
                    ),
            decreases 14 * loaded - i,
        {
            let g: usize = first + i / 14;
            let d: usize = i % 14;
            proof {
                values_ascend(b@, g as int, first + loaded - 1, d as int);
            }
            let value: i16 = read_i16(b, start + 2 * (g / 8 * 112 + d * 8 + g % 8));
            r.push(scaled_to_half(value));
            i = i + 1;
        }
        while i < 14 * count
            invariant
                14 * loaded <= i <= 14 * count,
                14 * count <= usize::MAX,
                r@.len() == i,
                forall|j: int|
                    0 <= j < 14 * loaded ==> call_ensures(
                        *scaled_to_half,
                        (scaled_value(b@, j),),
                        #[trigger] r@[j],
                    ),
                forall|j: int| 14 * loaded <= j < i ==> (#[trigger] r@[j]) == 0,
            decreases 14 * count - i,
        {
            r.push(0);
            i = i + 1;
        }
        r
    }

    fn load_labels(b: &[u8], start: usize, first: usize, loaded: usize, count: usize) -> (r: Vec<u8>)
        requires
            is_readable(b@),
            start == labels_start(b@),
            first == first_place(b@),
            loaded == loaded_count(b@),
            count == stored_count(b@),
        ensures
            r@ == Seq::new(stored_count(b@), |v: int| loaded_label(b@, v)),
    {
        proof {
            loaded_within(b@);
        }
        let len: usize = b.len();
        let mut r: Vec<u8> = Vec::new();
        let mut v: usize = 0;
        while v < count
            invariant
                v <= count,
                is_readable(b@),
                len == b@.len(),
                start == labels_start(b@),
                first == first_place(b@),
                loaded == loaded_count(b@),
                count == stored_count(b@),
                first + loaded <= 8 * stored_blocks(b@) || loaded == 0,
                r@.len() == v,
                forall|j: int| 0 <= j < v ==> (#[trigger] r@[j]) == loaded_label(b@, j),
            decreases count - v,
        {
            if v < loaded {
                r.push(b[start + first + v]);
            } else {
                r.push(0);
            }
            v = v + 1;
        }
        assert(r@ =~= Seq::new(stored_count(b@), |v: int| loaded_label(b@, v)));
        r
    }

    fn load_extents(b: &[u8], offsets: &Vec<u32>, first: usize, count: usize, k: usize) -> (r: Vec<
        (usize, usize),
    >)
        requires
            is_readable(b@),
            offsets@ == stored_offsets(b@),
            first == first_place(b@),
            count == stored_count(b@),
            k == stored_k(b@),
        ensures
            r@ == Seq::new(stored_k(b@), |c: int| cluster_extent(b@, c)),
    {
        let mut r: Vec<(usize, usize)> = Vec::new();
        let mut c: usize = 0;
        while c < k
            invariant
                c <= k,
                is_readable(b@),
                offsets@ == stored_offsets(b@),
                first == first_place(b@),
                count == stored_count(b@),
                k == stored_k(b@),
                r@.len() == c,
                forall|j: int| 0 <= j < c ==> (#[trigger] r@[j]) == cluster_extent(b@, j),
            decreases k - c,
        {
            proof {
                offsets_ascend_far(b@, 0, c as int);
                offsets_ascend_far(b@, c as int, c + 1);
            }
            let from: usize = clip(offsets[c], count);
            let to: usize = clip(offsets[c + 1], count);
            r.push(((from - first) * VECTOR_BYTES, to - from));
            c = c + 1;
        }
        assert(r@ =~= Seq::new(stored_k(b@), |c: int| cluster_extent(b@, c)));
        r
    }

    /// Loads an index from bytes that hold one.
    ///
    /// The file stores single-precision centroids and vectors scaled to whole
    /// numbers; the two functions make half-precision numbers of them.
    pub fn from_bytes<F: Fn(F32Bits) -> u16, G: Fn(i16) -> u16>(
        b: &[u8],
        float_to_half: F,
        scaled_to_half: G,
    ) -> (r: VectorSearch)
        requires
            is_readable(b@),
            forall|x: F32Bits| call_requires(float_to_half, (x,)),
            forall|x: i16| call_requires(scaled_to_half, (x,)),
        ensures
            holds_stored(r, b@, float_to_half, scaled_to_half),
            is_searchable(r),
    {
        let len: usize = b.len();
        let count: usize = read_u32(b, 4) as usize;
        let k: usize = read_u32(b, 8) as usize;
        let offsets: Vec<u32> = read_u32s(b, 16 + 56 * k, k + 1);
        proof {
            loaded_within(b@);
        }
        let total: usize = offsets[k] as usize;
        let start: usize = 20 + 60 * k;
        let first: usize = clip(offsets[0], count);
        let loaded: usize = clip(offsets[k], count) - first;
        let vectors: Vec<u16> = VectorSearch::load_vectors(
            b,
            start + 8 * total,
            first,
            loaded,
            count,
            &scaled_to_half,
        );
        let labels: Vec<u8> = VectorSearch::load_labels(b, start, first, loaded, count);
        let centroids: Vec<u16> = VectorSearch::load_centroids(b, k, &float_to_half);
        let cluster_offsets: Vec<(usize, usize)> = VectorSearch::load_extents(
            b,
            &offsets,
            first,
            count,
            k,
        );
        let r: VectorSearch = VectorSearch {
            vectors,
            labels,
            centroids,
            cluster_offsets,
            k,
            total_blocks: total,
            count,
        };
        proof {
            loaded_index_is_searchable(r, b@, float_to_half, scaled_to_half);
        }
        r
    }

    /// Loads an index from a gzip stream, if the stream is whole and holds one.
    pub fn load<F: Fn(F32Bits) -> u16, G: Fn(i16) -> u16>(
        index_gz: &[u8],
        float_to_half: F,
        scaled_to_half: G,
    ) -> (r: Option<VectorSearch>)
        requires
            forall|x: F32Bits| call_requires(float_to_half, (x,)),
            forall|x: i16| call_requires(scaled_to_half, (x,)),
        ensures
            r is Some <==> gunzipped(index_gz@).1 && is_readable(gunzipped(index_gz@).0),
            r matches Some(s) ==> holds_stored(
                s,
                gunzipped(index_gz@).0,
                float_to_half,
                scaled_to_half,
            ) && is_searchable(s),
    {
        let stream: (Vec<u8>, bool) = gunzip(index_gz);
        if stream.1 && index_is_readable(stream.0.as_slice()) {
            Some(VectorSearch::from_bytes(stream.0.as_slice(), float_to_half, scaled_to_half))
        } else {
            None
        }
    }

    /// The bytes that the parts of the index take.
    pub fn memory_usage(&self) -> (r: usize)
        requires
            self.vectors@.len() * 2 + self.labels@.len() + self.centroids@.len() * 2
                + self.cluster_offsets@.len() * 16 <= usize::MAX,
        ensures
            r == self.vectors@.len() * 2 + self.labels@.len() + self.centroids@.len() * 2
                + self.cluster_offsets@.len() * 16,
    {
        self.vectors.len() * 2 + self.labels.len() + self.centroids.len() * 2
            + self.cluster_offsets.len() * 16
    }
}

/// Eight times an offset, but no more than the number of vectors.
fn clip(offset: u32, count: usize) -> (r: usize)
    ensures
        r == if 8 * offset < count {
            8 * offset
        } else {
            count as int
        },
{
    let places: u64 = offset as u64 * 8;
    if places < count as u64 {
        places as usize
    } else {
        count
    }
}

} // verus!
