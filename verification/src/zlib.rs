//! The compression wrapper of the loose object store and the pack stream.
//!
//! zlib decoding is deterministic and a stream marks its own end, so the
//! content and length of the stream beginning at a position are a
//! function of the bytes alone. `inflate_prefix_of` names that result,
//! and both trusted items below are stated against it.

use vstd::prelude::*;
use crate::GitError;
#[allow(unused_imports)]
use std::io::Read;
#[allow(unused_imports)]
use std::io::Write;

verus! {

/// What decoding one zlib stream of `data` starting at `pos` yields:
/// `Some((content, end))` when a complete valid stream begins there and
/// runs up to (but not past) `end`, else `None`. Decoding is
/// deterministic, so this is a function of `data` and `pos` alone.
pub uninterp spec fn inflate_prefix_of(data: Seq<u8>, pos: int) -> Option<(Seq<u8>, int)>;

/// Relies on flate2's `write::ZlibEncoder`: compressing into a `Vec`
/// cannot fail, and the output is exactly one zlib stream that decodes
/// back to the input.
#[verifier::external_body]
pub fn zlib_deflate(data: &Vec<u8>) -> (r: Vec<u8>)
    ensures
        inflate_prefix_of(r@, 0) == Some((data@, r@.len() as int)),
{
    let mut encoder = flate2::write::ZlibEncoder::new(Vec::new(), flate2::Compression::fast());
    encoder.write_all(data.as_slice()).unwrap();
    encoder.finish().unwrap()
}

/// Relies on flate2's `bufread::ZlibDecoder` with `total_in`: reading to
/// the end decodes exactly the zlib stream that starts at `data[start]`,
/// `total_in` counts the compressed bytes it consumed, and a truncated or
/// corrupt stream reports an error. The call returns exactly the named
/// decode result.
#[verifier::external_body]
pub fn zlib_inflate_prefix(data: &Vec<u8>, start: usize) -> (r: Result<(Vec<u8>, usize), GitError>)
    requires
        start <= data@.len(),
    ensures
        match r {
            Ok((payload, used)) => {
                &&& used <= data@.len() - start
                &&& inflate_prefix_of(data@, start as int) == Some((payload@, start + used))
            },
            Err(e) => {
                &&& e == GitError::CorruptObject
                &&& inflate_prefix_of(data@, start as int) is None
            },
        },
{
    let mut decoder = flate2::bufread::ZlibDecoder::new(&data[start..]);
    let mut payload = Vec::new();
    match decoder.read_to_end(&mut payload) {
        Ok(_) => Ok((payload, decoder.total_in() as usize)),
        Err(_) => Err(GitError::CorruptObject),
    }
}

} // verus!
