//! Transparent decompression: detect the gzip magic number once, at open
//! time, and decompress only then.

use vstd::prelude::*;

verus! {

/// The first gzip magic byte (0x1F).
pub const GZ_MAGIC_0: u8 = 31;

/// The second gzip magic byte (0x8B).
pub const GZ_MAGIC_1: u8 = 139;

/// Whether the stream begins with the two-byte gzip magic number.
pub open spec fn has_gzip_magic(s: Seq<u8>) -> bool {
    s.len() >= 2 && s[0] == GZ_MAGIC_0 && s[1] == GZ_MAGIC_1
}

/// What gzip decompression yields on `s`: the decompressed bytes, or
/// nothing when `s` is not a stream the decoder accepts. The outcome is a
/// function of the bytes alone.
pub uninterp spec fn gunzip_of(s: Seq<u8>) -> Option<Seq<u8>>;

/// Relies on flate2::read::MultiGzDecoder: reading it to the end yields the
/// concatenated decompression of all gzip members of `data`, or an error on
/// a stream it cannot decode; either way the bytes alone decide.
#[verifier::external_body]
fn gunzip(data: &Vec<u8>) -> (r: Option<Vec<u8>>)
    ensures
        match r {
            Some(v) => gunzip_of(data@) == Some(v@),
            None => gunzip_of(data@) is None,
        },
{
    let mut dec = flate2::read::MultiGzDecoder::new(data.as_slice());
    let mut out: Vec<u8> = Vec::new();
    match std::io::Read::read_to_end(&mut dec, &mut out) {
        Ok(_) => Some(out),
        Err(_) => None,
    }
}

/// Whether `data` carries the gzip magic number.
pub fn detect_gzip(data: &Vec<u8>) -> (r: bool)
    ensures
        r == has_gzip_magic(data@),
{
    data.len() >= 2 && data[0] == GZ_MAGIC_0 && data[1] == GZ_MAGIC_1
}

/// The byte stream a run actually parses: `s` itself, or its decompression
/// when it begins with the gzip magic; nothing when that decompression
/// fails. The decision is made once and is not re-evaluated.
pub open spec fn payload_of(s: Seq<u8>) -> Option<Seq<u8>> {
    if has_gzip_magic(s) {
        gunzip_of(s)
    } else {
        Some(s)
    }
}

/// Resolve input bytes to the FASTQ payload: decompress when the gzip
/// magic is present, hand the bytes through unchanged otherwise.
pub fn decode_payload(data: Vec<u8>) -> (r: Option<Vec<u8>>)
    ensures
        match r {
            Some(v) => payload_of(data@) == Some(v@),
            None => payload_of(data@) is None,
        },
{
    if detect_gzip(&data) {
        gunzip(&data)
    } else {
        Some(data)
    }
}

} // verus!
