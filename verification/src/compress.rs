//! The compression layer around the serialized snapshot.  The
//! compressor is an outside collaborator: only the lossless round trip
//! and the determinism of decompression are relied on here.

use vstd::prelude::*;

use crate::error::Error;

verus! {

/// What decompressing a byte string yields: the decompressed content of
/// a valid frame, or nothing.  The frame format fully determines this,
/// on every machine.
pub uninterp spec fn zstd_inflate(frame: Seq<u8>) -> Option<Seq<u8>>;

/// Relies on zstd::stream::encode_all: its output is a frame whose
/// decompression yields exactly the input (lossless compression).
#[verifier::external_body]
pub(crate) fn compress(data: &[u8], level: i32) -> (r: Result<Vec<u8>, Error>)
    ensures
        match r {
            Ok(frame) => zstd_inflate(frame@) == Some(data@),
            Err(e) => e == Error::Compress,
        },
{
    match zstd::encode_all(data, level) {
        Ok(v) => Ok(v),
        Err(_) => Err(Error::Compress),
    }
}

/// Relies on zstd::stream::decode_all: it reconstructs the content that
/// a valid frame compresses, and fails exactly on input that is not a
/// valid frame.
#[verifier::external_body]
pub(crate) fn decompress(data: &[u8]) -> (r: Result<Vec<u8>, Error>)
    ensures
        match r {
            Ok(out) => zstd_inflate(data@) == Some(out@),
            Err(e) => zstd_inflate(data@) is None && e == Error::Corrupt,
        },
{
    match zstd::decode_all(data) {
        Ok(v) => Ok(v),
        Err(_) => Err(Error::Corrupt),
    }
}

} // verus!
