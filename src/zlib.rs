use flate2::read::ZlibDecoder;
use flate2::write::ZlibEncoder;
use flate2::Compression;
use std::io::{Read, Write};
use vstd::prelude::*;

verus! {

/// The zlib stream that `flate2` produces for a byte sequence at the default
/// compression level.
pub uninterp spec fn zlib_of(data: Seq<u8>) -> Seq<u8>;

/// What `flate2` inflates a byte sequence to: `None` for a corrupt or
/// truncated zlib stream.
pub uninterp spec fn inflate_of(compressed: Seq<u8>) -> Option<Seq<u8>>;

/// Inflating `compressed` gave `r`, which holds the uncompressed input of every
/// zlib stream equal to `compressed`.
pub open spec fn inflates_to(r: Option<Vec<u8>>, compressed: Seq<u8>) -> bool {
    forall|x: Seq<u8>| #[trigger] zlib_of(x) == compressed ==> (r matches Some(d) && d@ == x)
}

/// Relies on `flate2::write::ZlibEncoder` over a `Vec<u8>` at
/// `Compression::default()`: `write_all` then `finish` yield the zlib stream of
/// the input. Neither call fails here: the encoder reports an error only when
/// its sink does, and writing to a `Vec` never fails.
#[verifier::external_body]
pub(crate) fn zlib_compress(data: &[u8]) -> (r: Option<Vec<u8>>)
    ensures
        r is Some,
        r matches Some(c) ==> c@ == zlib_of(data@),
{
    let mut encoder = ZlibEncoder::new(Vec::new(), Compression::default());
    match encoder.write_all(data) {
        Ok(()) => encoder.finish().ok(),
        Err(_) => None,
    }
}

/// Relies on `flate2::read::ZlibDecoder` and `read_to_end`: the result depends
/// on the compressed bytes alone; a stream that the encoder above produced
/// inflates back to the encoder's input; a corrupt or truncated stream gives
/// `None`.
#[verifier::external_body]
pub(crate) fn zlib_decompress(compressed: &[u8]) -> (r: Option<Vec<u8>>)
    ensures
        r is None <==> inflate_of(compressed@) is None,
        r matches Some(d) ==> inflate_of(compressed@) == Some(d@),
        inflates_to(r, compressed@),
{
    let mut out = Vec::new();
    match ZlibDecoder::new(compressed).read_to_end(&mut out) {
        Ok(_) => Some(out),
        Err(_) => None,
    }
}

} // verus!
