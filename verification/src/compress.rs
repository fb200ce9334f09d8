//! Object payload compression. Records are stored zstd-compressed; the
//! compressed frame is a deterministic function of the record bytes, so
//! content-addressed writes stay byte-identical.

use vstd::prelude::*;

verus! {

/// The compression level every object record is written with.
pub const COMPRESSION_LEVEL: i32 = 6;

/// The zstd frame produced by compressing a byte string at this library's
/// fixed level; a function of the bytes alone.
pub uninterp spec fn zstd_frame_of(data: Seq<u8>) -> Seq<u8>;

/// Relies on zstd's `encode_all`: single-threaded compression at a fixed
/// level is a deterministic function of the input bytes, and reading from
/// an in-memory slice and writing to a `Vec` at this valid level cannot
/// fail, so a frame is always returned.
#[verifier::external_body]
pub(crate) fn zstd_compress(data: &Vec<u8>) -> (r: Option<Vec<u8>>)
    ensures
        r is Some,
        r matches Some(frame) ==> frame@ == zstd_frame_of(data@),
{
    zstd::stream::encode_all(data.as_slice(), COMPRESSION_LEVEL).ok()
}

/// Relies on zstd's `decode_all`: decompressing a zstd frame returns
/// exactly the bytes that were compressed into it (compression is
/// lossless).
#[verifier::external_body]
pub(crate) fn zstd_decompress(data: &Vec<u8>) -> (r: Option<Vec<u8>>)
    ensures
        forall|b: Seq<u8>| data@ == zstd_frame_of(b) ==> r is Some && r->Some_0@ == b,
{
    zstd::stream::decode_all(data.as_slice()).ok()
}

} // verus!
