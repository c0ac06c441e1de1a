//! The gzip codec.

use vstd::prelude::*;

verus! {

/// What a gzip stream holds, and whether it can be read to its end without a
/// fault. Of a stream with a fault only that is spoken of.
pub uninterp spec fn gunzipped(data: Seq<u8>) -> (Seq<u8>, bool);

/// The bytes that an exact read of `n` bytes from the start of a gzip stream
/// delivers, if it succeeds.
pub uninterp spec fn read_exactly(data: Seq<u8>, n: nat) -> Option<Seq<u8>>;

/// The gzip stream of `data` at a compression level.
pub uninterp spec fn gzipped(data: Seq<u8>, level: u32) -> Seq<u8>;

/// Calls `flate2::read::GzDecoder` over `data` and reads it with
/// `Read::read_to_end`. The claims are that whether the read ends without an
/// error depends on `data` alone, and so do the bytes that it delivers if it
/// does. Nothing is claimed of the bytes that it delivers before an error: the
/// decoder drops those of the call that fails, and how many those are depends on
/// the sizes of the buffers that the read chooses.
#[verifier::external_body]
pub(crate) fn gunzip(data: &[u8]) -> (r: (Vec<u8>, bool))
    ensures
        r.1 == gunzipped(data@).1,
        r.1 ==> r.0@ == gunzipped(data@).0,
{
    let mut out: Vec<u8> = Vec::new();
    let ended = std::io::Read::read_to_end(&mut flate2::read::GzDecoder::new(data), &mut out).is_ok();
    (out, ended)
}

/// Calls `flate2::read::GzDecoder` over `data` and reads `n` bytes with
/// `Read::read_exact`. The claims are that whether it delivers them, and which
/// they are, depends on `data` and `n` alone, and that of a stream without a
/// fault it delivers the first `n` bytes, if there are so many. A fault behind
/// the bytes asked for may or may not be met: the decoder works ahead of what is
/// read from it. More bytes than a vector can hold are not asked for.
#[verifier::external_body]
pub(crate) fn gunzip_exact(data: &[u8], n: usize) -> (r: Option<Vec<u8>>)
    requires
        n <= isize::MAX,
    ensures
        r is Some <==> read_exactly(data@, n as nat) is Some,
        r matches Some(b) ==> read_exactly(data@, n as nat) == Some(b@) && b@.len() == n,
        gunzipped(data@).1 ==> (r is Some <==> n <= gunzipped(data@).0.len()),
        gunzipped(data@).1 ==> (r matches Some(b) ==> b@ == gunzipped(data@).0.take(n as int)),
{
    let mut out: Vec<u8> = vec![0; n];
    match std::io::Read::read_exact(&mut flate2::read::GzDecoder::new(data), &mut out) {
        Ok(()) => Some(out),
        Err(_) => None,
    }
}

/// Calls `flate2::write::GzEncoder` into a fresh vector, writes `data` whole
/// and finishes the stream; a vector takes every write, so neither step fails.
/// The claims are that the stream depends on `data` and the level alone, and
/// that reading it to its end gives `data` back.
#[verifier::external_body]
pub(crate) fn gzip(data: &[u8], level: u32) -> (r: Vec<u8>)
    requires
        level <= 9,
    ensures
        r@ == gzipped(data@, level),
        gunzipped(r@) == (data@, true),
{
    let mut encoder = flate2::write::GzEncoder::new(Vec::new(), flate2::Compression::new(level));
    std::io::Write::write_all(&mut encoder, data).expect("write to a vector");
    encoder.finish().expect("write to a vector")
}

} // verus!
