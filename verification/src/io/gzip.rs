//! gzip encode/decode for `.gz` FITS files.
use vstd::prelude::*;
use crate::compress::gzip_tile::{gunzip_of, gzip_decode, gzip_encode, gzip_stream};
use crate::error::FitsError;
use crate::status::{READ_ERROR, WRITE_ERROR};

verus! {

/// Starts with the gzip magic `1F 8B`.
pub open spec fn has_gzip_magic(b: Seq<u8>) -> bool {
    b.len() >= 2 && b[0] == 0x1f && b[1] == 0x8b
}

/// gzip magic `1F 8B`.
pub fn is_gzip(bytes: &[u8]) -> (r: bool)
    ensures
        r == has_gzip_magic(bytes@),
{
    bytes.len() >= 2 && bytes[0] == 0x1f && bytes[1] == 0x8b
}

/// Decompress a gzip bitstream into the raw FITS bytes.
pub fn decompress(bytes: &[u8]) -> (r: Result<Vec<u8>, FitsError>)
    ensures
        r matches Ok(v) ==> gunzip_of(bytes@) == Some(v@),
        r is Ok <==> gunzip_of(bytes@) is Some,
        r matches Err(e) ==> e.status == READ_ERROR && e.message_list().len() == 1,
{
    match gzip_decode(bytes) {
        Ok(v) => Ok(v),
        Err(m) => Err(FitsError::with_message(READ_ERROR, m.as_str())),
    }
}

/// Compress raw FITS bytes as gzip (default zlib level 6).
pub fn compress(bytes: &[u8]) -> (r: Result<Vec<u8>, FitsError>)
    ensures
        r is Ok,
        r matches Ok(v) ==> v@ == gzip_stream(bytes@, 6) && gunzip_of(v@) == Some(bytes@),
        r matches Err(e) ==> e.status == WRITE_ERROR && e.message_list().len() == 1,
{
    match gzip_encode(bytes, 6) {
        Ok(v) => Ok(v),
        Err(m) => Err(FitsError::with_message(WRITE_ERROR, m.as_str())),
    }
}

/// Law: a `.gz` image written by [`compress`] reads back by [`decompress`]
/// as the same bytes, whenever both succeed.
pub proof fn lemma_gzip_roundtrip(raw: Seq<u8>, gz: Seq<u8>, back: Seq<u8>)
    requires
        gz == gzip_stream(raw, 6),
        gunzip_of(gz) == Some(raw),
        gunzip_of(gz) == Some(back),
    ensures
        back == raw,
{
}

} // verus!
