//! The two compressed forms of a shard, made by outside encoders.

use vstd::prelude::*;

verus! {

#[verifier::external_type_specification]
#[verifier::external_body]
pub struct ExIoError(std::io::Error);

/// The gzip stream that flate2 writes for `data` at its best compression
/// level, with the default header (no name, zero timestamp).
pub uninterp spec fn gzip_best_of(data: Seq<u8>) -> Seq<u8>;

/// The Brotli stream that the brotli encoder writes for `data` with its
/// default parameters.
pub uninterp spec fn brotli_default_of(data: Seq<u8>) -> Seq<u8>;

/// Relies on flate2's `GzEncoder` with `Compression::best()`, writing into
/// memory: on success the result is the gzip stream of `data`, which
/// depends on `data` alone.
#[verifier::external_body]
pub(crate) fn gzip_best(data: &[u8]) -> (r: Result<Vec<u8>, std::io::Error>)
    ensures
        r matches Ok(v) ==> v@ == gzip_best_of(data@),
{
    let mut enc = flate2::write::GzEncoder::new(Vec::new(), flate2::Compression::best());
    std::io::Write::write_all(&mut enc, data)?;
    enc.finish()
}

/// Relies on `brotli::BrotliCompress` with `BrotliEncoderInitParams()`,
/// writing into memory: on success the result is the Brotli stream of
/// `data`, which depends on `data` alone.
#[verifier::external_body]
pub(crate) fn brotli_default(data: &[u8]) -> (r: Result<Vec<u8>, std::io::Error>)
    ensures
        r matches Ok(v) ==> v@ == brotli_default_of(data@),
{
    let mut input = std::io::Cursor::new(data);
    let mut out: Vec<u8> = Vec::new();
    brotli::BrotliCompress(&mut input, &mut out, &brotli::enc::BrotliEncoderInitParams())?;
    Ok(out)
}

} // verus!
