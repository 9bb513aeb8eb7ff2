//! The inflate stage: zlib decompression of the decrypted segment.

use crate::error::CryptoError;
use flate2::read::ZlibDecoder;
use std::io::Read;
use vstd::prelude::*;

verus! {

/// The bytes that the first zlib stream in `data` inflates to; `None` where
/// `data` does not start with a complete, well-formed zlib stream.
pub uninterp spec fn zlib_inflated(data: Seq<u8>) -> Option<Seq<u8>>;

/// Reads a `flate2::read::ZlibDecoder` over `data` to its end with
/// `read_to_end`, appending to `out`: the inflated bytes of the zlib stream,
/// or `None` where the decoder reports an incomplete or corrupt stream.
/// Running out of memory is not told apart from that.
#[verifier::external_body]
fn inflate_into(data: &[u8], out: Vec<u8>) -> (r: Option<Vec<u8>>)
    ensures
        match zlib_inflated(data@) {
            Some(inflated) => r matches Some(filled) && filled@ == out@ + inflated,
            None => r.is_none(),
        },
{
    let mut out = out;
    match ZlibDecoder::new(data).read_to_end(&mut out) {
        Ok(_) => Some(out),
        Err(_) => None,
    }
}

/// Inflates a zlib stream. `size_hint` is the expected size of the result;
/// it only sizes the buffer and is never checked against what comes out.
pub fn inflate(data: &[u8], size_hint: usize) -> (r: Result<Vec<u8>, CryptoError>)
    ensures
        match zlib_inflated(data@) {
            Some(inflated) => r matches Ok(out) && out@ == inflated,
            None => r == Err::<Vec<u8>, CryptoError>(CryptoError::Decompress),
        },
{
    let mut out: Vec<u8> = Vec::new();
    let _ = out.try_reserve(size_hint);
    match inflate_into(data, out) {
        Some(filled) => Ok(filled),
        None => Err(CryptoError::Decompress),
    }
}

} // verus!
