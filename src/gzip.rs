//! Recognising gzip-compressed input by its two leading magic bytes, and
//! decompressing it.
use std::io::Read;
use vstd::prelude::*;

verus! {

/// First byte of every gzip member.
pub const GZIP_MAGIC_0: u8 = 0x1f;

/// Second byte of every gzip member.
pub const GZIP_MAGIC_1: u8 = 0x8b;

/// Whether the bytes open with the gzip magic pair.
pub open spec fn starts_with_gzip_magic(data: Seq<u8>) -> bool {
    data.len() >= 2 && data[0] == GZIP_MAGIC_0 && data[1] == GZIP_MAGIC_1
}

/// Decides whether the data is gzip-compressed. Fewer than two bytes cannot be
/// sniffed: `None` is returned then, and never a guess.
pub fn is_gzip_magic(data: &[u8]) -> (r: Option<bool>)
    ensures
        r is None <==> data@.len() < 2,
        r matches Some(z) ==> z == starts_with_gzip_magic(data@),
{
    if data.len() < 2 {
        None
    } else {
        Some(data[0] == GZIP_MAGIC_0 && data[1] == GZIP_MAGIC_1)
    }
}

/// What decompressing the first gzip member of the bytes gives: `None` when
/// the stream is not well-formed gzip.
pub uninterp spec fn gunzip_of(data: Seq<u8>) -> Option<Seq<u8>>;

/// Relies on `flate2::read::GzDecoder` read to the end: it decodes the first
/// gzip member of the bytes, or fails on a malformed stream.
#[verifier::external_body]
pub(crate) fn gunzip(data: &[u8]) -> (r: Option<Vec<u8>>)
    ensures
        r is Some <==> gunzip_of(data@) is Some,
        r matches Some(v) ==> gunzip_of(data@) == Some(v@),
{
    let mut out = Vec::new();
    match flate2::read::GzDecoder::new(data).read_to_end(&mut out) {
        Ok(_) => Some(out),
        Err(_) => None,
    }
}

} // verus!
