//! The index that the server searches, and the state it keeps of it.

use vstd::prelude::*;
use crate::bytes::{copy_range, i16s_at, i16s_bytes, i16s_round_trip, read_i16s, read_u32, read_u32s, u32_at, u32_bytes, u32s_at, u32s_bytes, u32s_round_trip};
use crate::float_bits::F32Bits;
use crate::gz::{gunzip_exact, gunzipped, read_exactly};
use crate::index::{encoded, encoded_header, magic, starts_with_magic};

verus! {

/// An inverted-file index.
pub struct Dataset {
    /// Centroids, dimension by dimension: dimension `d` of centroid `c` stands
    /// at `d * k + c`.
    pub centroids: Vec<F32Bits>,
    /// Where each cluster starts, and behind the last where it ends.
    pub offsets: Vec<u32>,
    /// One label for each place, padding included.
    pub labels: Vec<u8>,
    /// Blocks of eight vectors, each dimension by dimension.
    pub blocks: Vec<i16>,
    /// The number of clusters.
    pub k: usize,
    /// The number of vectors that were indexed.
    pub n: usize,
    /// The number of places, padding included.
    pub padded_n: usize,
}

/// The contents of a [`Dataset`].
#[verifier::ext_equal]
pub struct DatasetModel {
    pub centroids: Seq<F32Bits>,
    pub offsets: Seq<u32>,
    pub labels: Seq<u8>,
    pub blocks: Seq<i16>,
    pub k: nat,
    pub n: nat,
    pub padded_n: nat,
}

impl View for Dataset {
    type V = DatasetModel;

    open spec fn view(&self) -> DatasetModel {
        DatasetModel {
            centroids: self.centroids@,
            offsets: self.offsets@,
            labels: self.labels@,
            blocks: self.blocks@,
            k: self.k as nat,
            n: self.n as nat,
            padded_n: self.padded_n as nat,
        }
    }
}

/// Why an index could not be loaded.
#[derive(Debug, Clone, Copy, PartialEq, Eq, Structural)]
pub enum LoadError {
    /// The stream ended, or broke, before the index did.
    Io,
    /// The stream does not start as an index does.
    BadMagic,
    /// The vectors do not have fourteen dimensions.
    BadDims,
}

impl DatasetModel {
    /// The parts have the sizes that the header and the offsets give them.
    pub open spec fn has_its_sizes(self) -> bool {
        &&& self.n <= u32::MAX
        &&& self.k <= u32::MAX
        &&& self.centroids.len() == 14 * self.k
        &&& self.offsets.len() == self.k + 1
        &&& self.padded_n == self.offsets[self.k as int]
        &&& self.labels.len() == self.padded_n
        &&& self.blocks.len() == self.padded_n / 8 * 112
    }

    /// Every cluster ends within the labels, and its last block is there whole.
    pub open spec fn is_scannable(self) -> bool {
        &&& self.offsets.len() == self.k + 1
        &&& forall|c: int|
            0 <= c < self.k ==> (#[trigger] self.offsets[c + 1]) <= self.labels.len()
                && (self.offsets[c + 1] + 7) / 8 * 112 <= self.blocks.len()
    }

    /// The bytes that stand for the index.
    pub open spec fn to_bytes(self) -> Seq<u8> {
        encoded(
            self.n as u32,
            self.k as u32,
            self.centroids,
            self.offsets,
            self.labels,
            self.blocks,
        )
    }
}

/// The length of an index up to the end of its offsets.
pub open spec fn offsets_end(k: u32) -> int {
    20 + 60 * k
}

/// What loading an index from the bytes of a stream gives.
pub open spec fn decode_outcome(b: Seq<u8>) -> Result<DatasetModel, LoadError> {
    if b.len() < 4 {
        Err(LoadError::Io)
    } else if b.take(4) != magic() {
        Err(LoadError::BadMagic)
    } else if b.len() < 16 {
        Err(LoadError::Io)
    } else if u32_at(b, 12) != 14 {
        Err(LoadError::BadDims)
    } else {
        let k = u32_at(b, 8);
        let start = offsets_end(k);
        if b.len() < start {
            Err(LoadError::Io)
        } else {
            let places = u32_at(b, start - 4);
            if b.len() < start + places + places / 8 * 224 {
                Err(LoadError::Io)
            } else {
                Ok(
                    DatasetModel {
                        centroids: u32s_at(b, 16, 14 * k as nat),
                        offsets: u32s_at(b, 16 + 56 * k, (k + 1) as nat),
                        labels: b.subrange(start, start + places),
                        blocks: i16s_at(b, start + places, (places / 8 * 112) as nat),
                        k: k as nat,
                        n: u32_at(b, 4) as nat,
                        padded_n: places as nat,
                    },
                )
            }
        }
    }
}

/// The length of an index that starts with `b`, which ends with the offsets.
pub open spec fn index_end(b: Seq<u8>) -> int {
    let places = u32_at(b, b.len() - 4);
    b.len() + places + places / 8 * 224
}

/// The first `n` bytes of a gzip stream, if they can be read and held.
pub open spec fn first_bytes(gz: Seq<u8>, n: int) -> Option<Seq<u8>> {
    if n <= isize::MAX {
        read_exactly(gz, n as nat)
    } else {
        None
    }
}

/// What loading an index from a gzip stream gives. What is there decides, as
/// [`decode_outcome`] says, and no more is read than the index takes: first what
/// it starts with, then its header, then all up to the end of the offsets, then
/// the whole.
pub open spec fn stream_outcome(gz: Seq<u8>) -> Result<DatasetModel, LoadError> {
    match first_bytes(gz, 4) {
        None => Err(LoadError::Io),
        Some(start) => if start != magic() {
            Err(LoadError::BadMagic)
        } else {
            match first_bytes(gz, 16) {
                None => Err(LoadError::Io),
                Some(header) => if u32_at(header, 12) != 14 {
                    Err(LoadError::BadDims)
                } else {
                    match first_bytes(gz, offsets_end(u32_at(header, 8))) {
                        None => Err(LoadError::Io),
                        Some(b) => match first_bytes(gz, index_end(b)) {
                            None => Err(LoadError::Io),
                            Some(whole) => decode_outcome(whole),
                        },
                    }
                },
            }
        },
    }
}

/// Reads the first `n` bytes of a gzip stream.
fn read_first(gz: &[u8], n: u64) -> (r: Option<Vec<u8>>)
    ensures
        match r {
            Some(b) => first_bytes(gz@, n as int) == Some(b@) && b@.len() == n,
            None => first_bytes(gz@, n as int) is None,
        },
        gunzipped(gz@).1 && n > gunzipped(gz@).0.len() ==> r is None,
        gunzipped(gz@).1 && n <= gunzipped(gz@).0.len() && n <= isize::MAX ==> r is Some,
        gunzipped(gz@).1 ==> (r matches Some(b) ==> b@ == gunzipped(gz@).0.take(n as int)),
{
    if n <= isize::MAX as u64 {
        gunzip_exact(gz, n as usize)
    } else {
        None
    }
}

/// The front of a stream that holds a whole index decodes as the stream does.
proof fn front_decodes_alike(g: Seq<u8>)
    requires
        g.len() >= 16,
        g.take(4) == magic(),
        u32_at(g, 12) == 14,
        g.len() >= offsets_end(u32_at(g, 8)),
        g.len() >= index_end(g.take(offsets_end(u32_at(g, 8)))),
    ensures
        decode_outcome(g.take(index_end(g.take(offsets_end(u32_at(g, 8)))))) == decode_outcome(g),
{
    let k = u32_at(g, 8);
    let start = offsets_end(k);
    let end = index_end(g.take(start));
    let f = g.take(end);
    let places = u32_at(g, start - 4);
    assert(u32_at(g.take(start), start - 4) == places);
    assert(f.take(4) =~= g.take(4));
    assert(u32_at(f, 4) == u32_at(g, 4) && u32_at(f, 8) == k && u32_at(f, 12) == 14);
    assert(u32_at(f, start - 4) == places);
    assert(u32s_at(f, 16, 14 * k as nat) =~= u32s_at(g, 16, 14 * k as nat));
    assert(u32s_at(f, 16 + 56 * k, (k + 1) as nat) =~= u32s_at(g, 16 + 56 * k, (k + 1) as nat));
    assert(f.subrange(start, start + places) =~= g.subrange(start, start + places));
    assert(i16s_at(f, start + places, (places / 8 * 112) as nat) =~= i16s_at(
        g,
        start + places,
        (places / 8 * 112) as nat,
    ));
}

/// The outcome of a load, by the contents of what was loaded.
pub open spec fn outcome_model(r: Result<Dataset, LoadError>) -> Result<DatasetModel, LoadError> {
    match r {
        Ok(ds) => Ok(ds@),
        Err(e) => Err(e),
    }
}

impl Dataset {
    /// Loads an index from the bytes of a stream. Bytes behind the index are
    /// not looked at.
    pub fn decode(b: &[u8]) -> (r: Result<Dataset, LoadError>)
        ensures
            outcome_model(r) == decode_outcome(b@),
            r matches Ok(ds) ==> ds@.has_its_sizes(),
    {
        let len: usize = b.len();
        if len < 4 {
            return Err(LoadError::Io);
        }
        if !starts_with_magic(b) {
            return Err(LoadError::BadMagic);
        }
        if len < 16 {
            return Err(LoadError::Io);
        }
        let n: u32 = read_u32(b, 4);
        let k: u32 = read_u32(b, 8);
        let d: u32 = read_u32(b, 12);
        if d != 14 {
            return Err(LoadError::BadDims);
        }
        let start: u64 = 20 + 60 * (k as u64);
        if (len as u64) < start {
            return Err(LoadError::Io);
        }
        let start: usize = start as usize;
        let k: usize = k as usize;
        let centroids: Vec<F32Bits> = read_u32s(b, 16, 14 * k);
        let offsets: Vec<u32> = read_u32s(b, 16 + 56 * k, k + 1);
        let places: u32 = offsets[k];
        assert(places == u32_at(b@, start - 4));
        let end: u64 = start as u64 + places as u64 + (places / 8) as u64 * 224;
        if (len as u64) < end {
            return Err(LoadError::Io);
        }
        let padded_n: usize = places as usize;
        let labels: Vec<u8> = copy_range(b, start, start + padded_n);
        let blocks: Vec<i16> = read_i16s(b, start + padded_n, padded_n / 8 * 112);
        let ds = Dataset { centroids, offsets, labels, blocks, k, n: n as usize, padded_n };
        Ok(ds)
    }

    /// Loads an index from a gzip stream. No more of the stream is read than the
    /// index takes.
    pub fn load_embedded(index_gz: &[u8]) -> (r: Result<Dataset, LoadError>)
        ensures
            outcome_model(r) == stream_outcome(index_gz@),
            gunzipped(index_gz@).1 && gunzipped(index_gz@).0.len() <= isize::MAX ==> outcome_model(r)
                == decode_outcome(gunzipped(index_gz@).0),
            r matches Ok(ds) ==> ds@.has_its_sizes(),
    {
        let ghost g = gunzipped(index_gz@).0;
        let start: Vec<u8> = match read_first(index_gz, 4) {
            Some(b) => b,
            None => return Err(LoadError::Io),
        };
        assert(start@.take(4) =~= start@);
        if !starts_with_magic(start.as_slice()) {
            return Err(LoadError::BadMagic);
        }
        let header: Vec<u8> = match read_first(index_gz, 16) {
            Some(b) => b,
            None => return Err(LoadError::Io),
        };
        if read_u32(header.as_slice(), 12) != 14 {
            return Err(LoadError::BadDims);
        }
        let k: u32 = read_u32(header.as_slice(), 8);
        let through_offsets: Vec<u8> = match read_first(index_gz, 20 + 60 * (k as u64)) {
            Some(b) => b,
            None => return Err(LoadError::Io),
        };
        let len: usize = through_offsets.len();
        let places: u32 = read_u32(through_offsets.as_slice(), len - 4);
        let end: u64 = len as u64 + places as u64 + (places / 8) as u64 * 224;
        match read_first(index_gz, end) {
            Some(whole) => {
                proof {
                    if gunzipped(index_gz@).1 {
                        front_decodes_alike(g);
                    }
                }
                Dataset::decode(whole.as_slice())
            },
            None => Err(LoadError::Io),
        }
    }

    /// Whether every cluster can be scanned: its labels and its blocks are all
    /// there.
    pub fn is_scannable(&self) -> (r: bool)
        ensures
            r == self@.is_scannable(),
    {
        let m: usize = self.offsets.len();
        if m == 0 || m - 1 != self.k {
            return false;
        }
        let mut c: usize = 0;
        while c < self.k
            invariant
                c <= self.k,
                self@.offsets.len() == self.k + 1,
                forall|j: int|
                    0 <= j < c ==> (#[trigger] self@.offsets[j + 1]) <= self@.labels.len() && (
                    self@.offsets[j + 1] + 7) / 8 * 112 <= self@.blocks.len(),
            decreases self.k - c,
        {
            let end: u64 = self.offsets[c + 1] as u64;
            if end > self.labels.len() as u64 || (end + 7) / 8 * 112 > self.blocks.len() as u64 {
                assert(self@.offsets[c + 1] == end);
                return false;
            }
            c = c + 1;
        }
        true
    }
}

/// Loading gives back what was written, whatever follows it in the stream.
pub proof fn load_gives_back_what_was_written(m: DatasetModel, after: Seq<u8>)
    requires
        m.has_its_sizes(),
    ensures
        decode_outcome(m.to_bytes() + after) == Ok::<DatasetModel, LoadError>(m),
{
    let n = m.n as u32;
    let k = m.k as u32;
    let b = m.to_bytes() + after;
    let head = magic() + u32_bytes(n) + u32_bytes(k) + u32_bytes(14);
    let cents = u32s_bytes(m.centroids);
    let offs = u32s_bytes(m.offsets);
    let blks = i16s_bytes(m.blocks);
    encoded_header(n, k, m.centroids, m.offsets, m.labels, m.blocks, after);
    let places = m.offsets[m.k as int];
    let start = offsets_end(k);
    assert(head.len() == 16);
    assert(b =~= head + cents + (offs + m.labels + blks + after));
    u32s_round_trip(head, m.centroids, offs + m.labels + blks + after);
    assert(b =~= (head + cents) + offs + (m.labels + blks + after));
    u32s_round_trip(head + cents, m.offsets, m.labels + blks + after);
    assert(u32s_at(b, 16 + 56 * k, (k + 1) as nat) == m.offsets);
    assert(u32s_at(b, 16 + 56 * k, (k + 1) as nat)[m.k as int] == u32_at(b, start - 4));
    assert(b.subrange(start, start + places) =~= m.labels);
    assert(b =~= (head + cents + offs + m.labels) + blks + after);
    i16s_round_trip(head + cents + offs + m.labels, m.blocks, after);
}

/// What the server knows of its index.
pub struct Service {
    dataset: Option<Dataset>,
    ready: bool,
}

impl Service {
    #[verifier::type_invariant]
    spec fn ready_only_with_a_dataset(self) -> bool {
        self.ready ==> self.dataset is Some
    }

    /// The index, once it was loaded.
    pub closed spec fn loaded(self) -> Option<DatasetModel> {
        match self.dataset {
            Some(ds) => Some(ds@),
            None => None,
        }
    }

    /// Requests are answered.
    pub closed spec fn ready(self) -> bool {
        self.ready
    }

    /// A server that has just started.
    pub fn new() -> (r: Service)
        ensures
            r.loaded() is None,
            !r.ready(),
    {
        Service { dataset: None, ready: false }
    }

    /// Says that the index was loaded and warmed up.
    pub fn set_ready(&mut self)
        requires
            old(self).loaded() is Some,
        ensures
            final(self).loaded() == old(self).loaded(),
            final(self).ready(),
    {
        self.ready = true;
    }
}

/// What loading gives: the index is kept, or the error is returned and there is
/// none.
pub open spec fn init_gives(
    outcome: Result<DatasetModel, LoadError>,
    r: Result<(), LoadError>,
    loaded: Option<DatasetModel>,
) -> bool {
    match outcome {
        Ok(m) => r is Ok && loaded == Some(m),
        Err(e) => r == Err::<(), LoadError>(e) && loaded is None,
    }
}

/// Loads the index, once.
pub fn init(service: &mut Service, index_gz: &[u8]) -> (r: Result<(), LoadError>)
    requires
        old(service).loaded() is None,
    ensures
        init_gives(stream_outcome(index_gz@), r, final(service).loaded()),
        gunzipped(index_gz@).1 && gunzipped(index_gz@).0.len() <= isize::MAX ==> init_gives(
            decode_outcome(gunzipped(index_gz@).0),
            r,
            final(service).loaded(),
        ),
        final(service).ready() == old(service).ready(),
{
    match Dataset::load_embedded(index_gz) {
        Ok(ds) => {
            service.dataset = Some(ds);
            Ok(())
        },
        Err(e) => Err(e),
    }
}

/// The index that was loaded.
pub fn dataset(service: &Service) -> (r: &Dataset)
    requires
        service.loaded() is Some,
    ensures
        Some(r@) == service.loaded(),
{
    service.dataset.as_ref().unwrap()
}

/// Whether requests are answered; if so, the index was loaded.
pub fn is_ready(service: &Service) -> (r: bool)
    ensures
        r == service.ready(),
        r ==> service.loaded() is Some,
{
    proof {
        use_type_invariant(service);
    }
    service.ready
}

} // verus!
