//! Zlib compression of stored objects.

use vstd::prelude::*;

verus! {

/// The zlib stream that `flate2` writes for `data` at its fast level.
pub uninterp spec fn zlib_fast_of(data: Seq<u8>) -> Seq<u8>;

/// What `flate2` decodes from `data`: the bytes of the zlib stream, or
/// `None` where it is not a complete, valid stream.
pub uninterp spec fn zlib_inflate_of(data: Seq<u8>) -> Option<Seq<u8>>;

/// Relies on `flate2::write::ZlibEncoder` with `Compression::fast()`,
/// writing into a `Vec`: the zlib stream of `data`. Writing into a `Vec`
/// cannot fail, and the compressor fails only on a corrupt stream state.
#[verifier::external_body]
pub(crate) fn zlib_compress(data: &[u8]) -> (r: Vec<u8>)
    ensures
        r@ == zlib_fast_of(data@),
{
    let mut e = flate2::write::ZlibEncoder::new(Vec::new(), flate2::Compression::fast());
    std::io::Write::write_all(&mut e, data).unwrap();
    e.finish().unwrap()
}

/// Relies on `flate2::read::ZlibDecoder` read to the end: its result is a
/// function of `data`, and a zlib stream that the encoder wrote for some
/// bytes decodes to exactly those bytes.
#[verifier::external_body]
pub(crate) fn zlib_decompress(data: &[u8]) -> (r: Option<Vec<u8>>)
    ensures
        r is None ==> zlib_inflate_of(data@) is None,
        r is Some ==> zlib_inflate_of(data@) == Some(r->0@),
        forall|raw: Seq<u8>| data@ == #[trigger] zlib_fast_of(raw) ==> r is Some && r->0@ == raw,
{
    let mut out = Vec::new();
    let mut d = flate2::read::ZlibDecoder::new(data);
    std::io::Read::read_to_end(&mut d, &mut out).ok()?;
    Some(out)
}

} // verus!
