//! The zlib streams that carry the scanline bytes, through flate2.
use vstd::prelude::*;

verus! {

/// What flate2's zlib decoder yields when read to the end of `bytes`:
/// `None` where it reports a corrupt or incomplete stream.
pub uninterp spec fn inflate_of(bytes: Seq<u8>) -> Option<Seq<u8>>;

/// Relies on flate2::bufread::ZlibDecoder, read to its end: the
/// decompressed bytes, or an error for a corrupt or incomplete stream.
#[verifier::external_body]
pub(crate) fn zlib_decompress(bytes: &[u8]) -> (r: Option<Vec<u8>>)
    ensures
        match inflate_of(bytes@) {
            Some(d) => r matches Some(v) && v@ == d,
            None => r is None,
        },
{
    let mut out = Vec::new();
    let mut dec = flate2::bufread::ZlibDecoder::new(bytes);
    match std::io::Read::read_to_end(&mut dec, &mut out) {
        Ok(_) => Some(out),
        Err(_) => None,
    }
}

/// What flate2's zlib encoder at the default level yields when read to its
/// end over `bytes`: `None` where it reports an error.
pub uninterp spec fn deflate_of(bytes: Seq<u8>) -> Option<Seq<u8>>;

/// Relies on flate2::bufread::ZlibEncoder at the default level, read to its
/// end: a zlib stream that the decoder turns back into `bytes`.
#[verifier::external_body]
pub(crate) fn zlib_compress(bytes: &[u8]) -> (r: Option<Vec<u8>>)
    ensures
        match deflate_of(bytes@) {
            Some(c) => r matches Some(v) && v@ == c,
            None => r is None,
        },
        r matches Some(c) ==> inflate_of(c@) == Some(bytes@),
{
    let mut out = Vec::new();
    let mut enc = flate2::bufread::ZlibEncoder::new(bytes, flate2::Compression::default());
    match std::io::Read::read_to_end(&mut enc, &mut out) {
        Ok(_) => Some(out),
        Err(_) => None,
    }
}

} // verus!
