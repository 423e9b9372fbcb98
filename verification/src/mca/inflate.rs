//! The two stream formats that a chunk or a sidecar file may be packed in.

use flate2::read::{GzDecoder, ZlibDecoder};
use vstd::prelude::*;

verus! {

/// `std::io::Error`, the error of a reader; it is carried, never looked
/// into.
#[verifier::external_type_specification]
#[verifier::external_body]
pub struct ExIoError(std::io::Error);

/// What a `flate2::read::ZlibDecoder` over these bytes yields when it is
/// read to its end, `None` where the read fails.
pub uninterp spec fn spec_zlib_decode(data: Seq<u8>) -> Option<Seq<u8>>;

/// What a `flate2::read::GzDecoder` over these bytes yields when it is read
/// to its end, `None` where the read fails.
pub uninterp spec fn spec_gzip_decode(data: Seq<u8>) -> Option<Seq<u8>>;

/// `flate2::read::ZlibDecoder::new` over the bytes, read to the end: what
/// comes out, and whether anything does, depends on the bytes alone.
#[verifier::external_body]
pub(crate) fn zlib_decode(data: &[u8]) -> (r: Result<Vec<u8>, std::io::Error>)
    ensures
        r is Ok <==> spec_zlib_decode(data@) is Some,
        r matches Ok(v) ==> spec_zlib_decode(data@) == Some(v@),
{
    let mut decoder = ZlibDecoder::new(data);
    let mut out = Vec::new();
    std::io::copy(&mut decoder, &mut out)?;
    Ok(out)
}

/// `flate2::read::GzDecoder::new` over the bytes, read to the end: what
/// comes out, and whether anything does, depends on the bytes alone.
#[verifier::external_body]
pub(crate) fn gzip_decode(data: &[u8]) -> (r: Result<Vec<u8>, std::io::Error>)
    ensures
        r is Ok <==> spec_gzip_decode(data@) is Some,
        r matches Ok(v) ==> spec_gzip_decode(data@) == Some(v@),
{
    let mut decoder = GzDecoder::new(data);
    let mut out = Vec::new();
    std::io::copy(&mut decoder, &mut out)?;
    Ok(out)
}

} // verus!
