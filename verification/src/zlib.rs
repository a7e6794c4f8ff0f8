//! Zlib streams, compressed and inflated by the `flate2` crate.
//!
//! Nothing in this module is proved. The two functions call `flate2`, and
//! their contracts are what the rest of the library takes on trust about it.

use std::io::Read;
use std::io::Write;
use vstd::prelude::*;

verus! {

/// What `flate2::read::ZlibDecoder` yields when it is read on `data` until
/// it stops. `Ok` holds all the inflated bytes of a stream that was read to
/// its end. `Err` holds the bytes that had been read when the decoder
/// reported an error: the stream is damaged or cut short behind them. The
/// decoder hands its bytes over in steps, and what it inflated in the step
/// that met the damage is not among them.
pub uninterp spec fn zlib_inflated(data: Seq<u8>) -> Result<Seq<u8>, Seq<u8>>;

/// The zlib stream that `flate2::write::ZlibEncoder` makes of `data` at
/// `Compression::best()`, or `None` where the encoder reports an error.
pub uninterp spec fn zlib_deflated(data: Seq<u8>) -> Option<Seq<u8>>;

/// Inflates a zlib stream with `flate2::read::ZlibDecoder`, read by
/// `read_to_end`.
///
/// The contract only names the outcome: all the bytes of the stream, or,
/// where the decoder reported an error, the bytes that `read_to_end` had
/// appended before it.
#[verifier::external_body]
pub(crate) fn inflate(data: &[u8]) -> (r: Result<Vec<u8>, Vec<u8>>)
    ensures
        match r {
            Ok(v) => zlib_inflated(data@) matches Ok(all) && all == v@,
            Err(v) => zlib_inflated(data@) matches Err(read) && read == v@,
        },
{
    let mut out = Vec::new();
    match flate2::read::ZlibDecoder::new(data).read_to_end(&mut out) {
        Ok(_) => Ok(out),
        Err(_) => Err(out),
    }
}

/// Compresses `data` into a zlib stream with `flate2::write::ZlibEncoder` at
/// `Compression::best()`, finished by `finish`.
///
/// The contract names the stream, and claims one thing of it: inflating it
/// gives `data` again. `None` stands for an error reported by the encoder.
#[verifier::external_body]
pub(crate) fn deflate(data: &[u8]) -> (r: Option<Vec<u8>>)
    ensures
        match r {
            Some(z) => zlib_deflated(data@) == Some(z@),
            None => zlib_deflated(data@) is None,
        },
        r matches Some(z) ==> (zlib_inflated(z@) matches Ok(back) && back == data@),
{
    let mut encoder = flate2::write::ZlibEncoder::new(Vec::new(), flate2::Compression::best());
    match encoder.write_all(data) {
        Ok(()) => encoder.finish().ok(),
        Err(_) => None,
    }
}

} // verus!
