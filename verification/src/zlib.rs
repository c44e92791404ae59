//! Inflating zlib streams.

use vstd::prelude::*;

verus! {

/// What comes out of a zlib stream when it is inflated into at most `limit`
/// bytes, or `None` where the stream is broken or holds more than that.
pub uninterp spec fn zlib_inflated(data: Seq<u8>, limit: usize) -> Option<Seq<u8>>;

/// Inflates a zlib stream by calling
/// `miniz_oxide::inflate::decompress_to_vec_zlib_with_limit`.
///
/// Believed, not proved: the call's answer depends on `data` and `limit`
/// alone, so it can be named; `None` stands for each of its failures (a
/// broken or truncated stream, a checksum that does not match, output
/// beyond the limit).
#[verifier::external_body]
pub(crate) fn inflate(data: &[u8], limit: usize) -> (r: Option<Vec<u8>>)
    ensures
        match r {
            Some(out) => zlib_inflated(data@, limit) == Some(out@),
            None => zlib_inflated(data@, limit) is None,
        },
{
    match miniz_oxide::inflate::decompress_to_vec_zlib_with_limit(data, limit) {
        Ok(out) => Some(out),
        Err(_) => None,
    }
}

} // verus!
