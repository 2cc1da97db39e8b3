use vstd::prelude::*;

use std::io::{Read, Write};

use crate::GitError;

verus! {

/// The zlib stream that compressing a byte sequence at the default level
/// produces. Compression is lossless, so `zlib_inflate_of` recovers the input;
/// the compressor itself is not written out here.
pub uninterp spec fn zlib_compress_of(data: Seq<u8>) -> Seq<u8>;

/// What decompressing a byte sequence yields: the decompressed bytes, or
/// nothing when the bytes are not a well-formed zlib stream.
pub uninterp spec fn zlib_inflate_of(data: Seq<u8>) -> Option<Seq<u8>>;

/// Relies on flate2's ZlibEncoder at the default compression level: writing a
/// buffer to a Vec-backed encoder cannot fail, and the resulting stream
/// decompresses back to the exact input (compression is lossless).
#[verifier::external_body]
pub(crate) fn zlib_compress(data: &Vec<u8>) -> (r: Vec<u8>)
    ensures
        r@ == zlib_compress_of(data@),
        zlib_inflate_of(r@) == Some(data@),
{
    let mut encoder = flate2::write::ZlibEncoder::new(Vec::new(), flate2::Compression::default());
    encoder.write_all(data.as_slice()).expect("writing to a Vec cannot fail");
    encoder.finish().expect("writing to a Vec cannot fail")
}

/// Relies on flate2's ZlibDecoder: reading to the end yields the decompressed
/// bytes of a well-formed zlib stream and fails on any other input.
#[verifier::external_body]
pub(crate) fn zlib_decompress(data: &Vec<u8>) -> (r: Result<Vec<u8>, GitError>)
    ensures
        match r {
            Ok(v) => zlib_inflate_of(data@) == Some(v@),
            Err(e) => zlib_inflate_of(data@) is None && e == GitError::Corrupt,
        },
{
    let mut decoder = flate2::read::ZlibDecoder::new(data.as_slice());
    let mut out: Vec<u8> = Vec::new();
    match decoder.read_to_end(&mut out) {
        Ok(_) => Ok(out),
        Err(_) => Err(GitError::Corrupt),
    }
}

} // verus!
