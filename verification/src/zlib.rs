//! Compression of stored objects in the zlib format.

use vstd::prelude::*;

verus! {

/// What the zlib encoder makes of a byte string at its default level, where it succeeds.
pub uninterp spec fn zlib_encoded(data: Seq<u8>) -> Option<Seq<u8>>;

/// What the zlib decoder makes of a byte string, where that is a zlib stream.
pub uninterp spec fn zlib_decoded(data: Seq<u8>) -> Option<Seq<u8>>;

/// `ZlibEncoder` of the crate flate2, writing into a vector at the default level.
/// Trusted: the result depends on the input alone.
#[verifier::external_body]
pub(crate) fn deflate(data: &[u8]) -> (r: Option<Vec<u8>>)
    ensures
        match r {
            Some(out) => zlib_encoded(data@) == Some(out@),
            None => zlib_encoded(data@) is None,
        },
{
    let mut encoder = flate2::write::ZlibEncoder::new(Vec::new(), flate2::Compression::default());
    match std::io::Write::write_all(&mut encoder, data) {
        Ok(()) => encoder.finish().ok(),
        Err(_) => None,
    }
}

/// `ZlibDecoder` of the crate flate2, read to its end. Trusted: the result depends on the
/// input alone.
#[verifier::external_body]
pub(crate) fn inflate(data: &[u8]) -> (r: Option<Vec<u8>>)
    ensures
        match r {
            Some(out) => zlib_decoded(data@) == Some(out@),
            None => zlib_decoded(data@) is None,
        },
{
    let mut out = Vec::new();
    match std::io::Read::read_to_end(&mut flate2::bufread::ZlibDecoder::new(data), &mut out) {
        Ok(_) => Some(out),
        Err(_) => None,
    }
}

/// What is stored for a byte string: what the encoder makes of it, where the decoder makes
/// the byte string of that again. `None` where the encoder fails or the decoder does not
/// give the byte string back.
pub open spec fn packed(data: Seq<u8>) -> Option<Seq<u8>> {
    match zlib_encoded(data) {
        None => None,
        Some(stored) => if zlib_decoded(stored) == Some(data) {
            Some(stored)
        } else {
            None
        },
    }
}

/// Compresses `data`, and makes sure that the decoder gives `data` back.
pub fn pack(data: &[u8]) -> (r: Option<Vec<u8>>)
    ensures
        match r {
            Some(stored) => packed(data@) == Some(stored@),
            None => packed(data@) is None,
        },
{
    let stored = match deflate(data) {
        Some(stored) => stored,
        None => {
            return None;
        },
    };
    match inflate(stored.as_slice()) {
        Some(back) => {
            if crate::bytes::bytes_eq(back.as_slice(), data) {
                Some(stored)
            } else {
                None
            }
        },
        None => None,
    }
}

} // verus!
