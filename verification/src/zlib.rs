//! Compression of stored objects: zlib streams, written and read by `flate2`.

use vstd::prelude::*;
use crate::error::Error;

verus! {

/// The zlib stream that `flate2` writes for `data` at its default level.
pub uninterp spec fn zlib_deflated(data: Seq<u8>) -> Seq<u8>;

/// What `flate2` reads out of `stream`, or nothing when it reports an error.
pub uninterp spec fn zlib_inflated(stream: Seq<u8>) -> Option<Seq<u8>>;

/// Declares `std::io::Error`, in which the decoder reports its failures.
/// Nothing is known of what such a value holds.
#[verifier::external_type_specification]
#[verifier::external_body]
pub struct ExIoError(std::io::Error);

/// Feeds `data` to a `flate2::write::ZlibEncoder` over a `Vec` at
/// `Compression::default()` and takes the finished stream.
///
/// The contract names the stream and claims that `flate2` reads `data` back
/// out of it: the crate's encoder and decoder are each other's inverse.
/// Writing into a `Vec` does not fail, so the two results are unwrapped.
#[verifier::external_body]
fn deflate(data: &[u8]) -> (stream: Vec<u8>)
    ensures
        stream@ == zlib_deflated(data@),
        zlib_inflated(stream@) == Some(data@),
{
    let mut encoder = flate2::write::ZlibEncoder::new(Vec::new(), flate2::Compression::default());
    std::io::Write::write_all(&mut encoder, data).unwrap();
    encoder.finish().unwrap()
}

/// Reads a `flate2::read::ZlibDecoder` over `stream` to its end.
///
/// The contract names the outcome: the bytes read, or nothing when the
/// decoder reports an error (a bad header, a corrupt or an incomplete
/// stream).
#[verifier::external_body]
fn inflate(stream: &[u8]) -> (data: Result<Vec<u8>, std::io::Error>)
    ensures
        match data {
            Ok(bytes) => zlib_inflated(stream@) == Some(bytes@),
            Err(_) => zlib_inflated(stream@).is_none(),
        },
{
    let mut bytes = Vec::new();
    std::io::Read::read_to_end(&mut flate2::read::ZlibDecoder::new(stream), &mut bytes)?;
    Ok(bytes)
}

/// Compresses `data` for storage.
///
/// Decompressing the result gives `data` back.
pub fn compress(data: &[u8]) -> (stream: Vec<u8>)
    ensures
        stream@ == zlib_deflated(data@),
        zlib_inflated(stream@) == Some(data@),
{
    deflate(data)
}

/// Decompresses what `compress` wrote.
///
/// Fails with `CorruptObject` exactly when `stream` is not a valid zlib stream.
pub fn decompress(stream: &[u8]) -> (data: Result<Vec<u8>, Error>)
    ensures
        match data {
            Ok(bytes) => zlib_inflated(stream@) == Some(bytes@),
            Err(e) => e == Error::CorruptObject && zlib_inflated(stream@).is_none(),
        },
{
    match inflate(stream) {
        Ok(bytes) => Ok(bytes),
        Err(_) => Err(Error::CorruptObject),
    }
}

} // verus!
