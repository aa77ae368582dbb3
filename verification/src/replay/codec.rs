use vstd::prelude::*;

use base64::engine::general_purpose::URL_SAFE;
use base64::Engine;
use flate2::read::GzDecoder;
use flate2::write::GzEncoder;
use flate2::Compression;
use std::io::{Read, Write};

verus! {

/// I/O error of the compression streams.
#[verifier::external_type_specification]
#[verifier::external_body]
pub struct ExIoError(std::io::Error);

/// Error of base64 decoding.
#[verifier::external_type_specification]
#[verifier::external_body]
pub struct ExDecodeError(base64::DecodeError);

/// The gzip stream that flate2's `GzEncoder` writes for some bytes at the default
/// compression level (fixed header: no time stamp, unknown system).
pub uninterp spec fn gzip_compressed(data: Seq<u8>) -> Seq<u8>;

/// What flate2's `GzDecoder` reads from some bytes to their end: `None` when it
/// reports an error.
pub uninterp spec fn gunzipped(data: Seq<u8>) -> Option<Seq<u8>>;

/// The URL-safe, padded base64 text of some bytes (base64's `URL_SAFE` engine).
pub uninterp spec fn base64_url(data: Seq<u8>) -> Seq<char>;

/// What base64's `URL_SAFE` engine decodes from a text: `None` when it reports an
/// error.
pub uninterp spec fn base64_decoded(text: Seq<char>) -> Option<Seq<u8>>;

/// Compress bytes with flate2's `GzEncoder` (default level) into a `Vec`.
/// Claimed: it succeeds (std's `Write` for `Vec` never fails, and `finish` only passes
/// on the writer's errors); the result is the gzip stream of the input, decoding that
/// stream gives the input back, and it holds at least the 10-byte header and 8-byte
/// trailer of the format.
#[verifier::external_body]
pub(crate) fn gzip(data: &[u8]) -> (r: Result<Vec<u8>, std::io::Error>)
    ensures
        r is Ok,
        r matches Ok(v) ==> v@ == gzip_compressed(data@) && gunzipped(v@) == Some(data@)
            && v@.len() >= 18,
{
    let mut encoder = GzEncoder::new(Vec::new(), Compression::default());
    encoder.write_all(data)?;
    encoder.finish()
}

/// Decompress a gzip stream with flate2's `GzDecoder`, reading to the end.
/// Claimed: the result is what the decoder reads (see `gunzipped`).
#[verifier::external_body]
pub(crate) fn gunzip(data: &[u8]) -> (r: Result<Vec<u8>, std::io::Error>)
    ensures
        match r {
            Ok(v) => gunzipped(data@) == Some(v@),
            Err(_) => gunzipped(data@) is None,
        },
{
    let mut decoder = GzDecoder::new(data);
    let mut raw = Vec::new();
    decoder.read_to_end(&mut raw)?;
    Ok(raw)
}

/// Encode bytes with base64's `URL_SAFE` engine (padded).
/// Claimed: the result is the base64 text of the input, four characters for every
/// three bytes begun, and decoding it gives the input back.
#[verifier::external_body]
pub(crate) fn base64_encode(data: &[u8]) -> (r: String)
    ensures
        r@ == base64_url(data@),
        r@.len() == 4 * ((data@.len() + 2) / 3),
        base64_decoded(r@) == Some(data@),
{
    URL_SAFE.encode(data)
}

/// Decode text with base64's `URL_SAFE` engine.
/// Claimed: the result is what the engine decodes (see `base64_decoded`).
#[verifier::external_body]
pub(crate) fn base64_decode(text: &str) -> (r: Result<Vec<u8>, base64::DecodeError>)
    ensures
        match r {
            Ok(v) => base64_decoded(text@) == Some(v@),
            Err(_) => base64_decoded(text@) is None,
        },
{
    URL_SAFE.decode(text.as_bytes())
}

} // verus!
