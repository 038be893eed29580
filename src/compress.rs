//! LZMA compression of whole byte strings, through the `lzma_rs` crate.
use vstd::prelude::*;

verus! {

/// The LZMA stream (default options: unknown size in the header, end marker
/// at the end) that `lzma_rs::lzma_compress` writes for the given bytes.
pub uninterp spec fn lzma_of(data: Seq<u8>) -> Seq<u8>;

/// Relies on `lzma_rs::lzma_compress` with its default options: the stream it
/// writes depends on the input bytes alone. It fails only when its reader or
/// writer fails, and reading from a slice and writing to a `Vec` cannot fail.
#[verifier::external_body]
pub(crate) fn compress_bytes(data: &[u8]) -> (r: Option<Vec<u8>>)
    ensures
        r is Some && r->0@ == lzma_of(data@),
{
    let mut input: &[u8] = data;
    let mut out: Vec<u8> = Vec::new();
    match lzma_rs::lzma_compress(&mut input, &mut out) {
        Ok(()) => Some(out),
        Err(_) => None,
    }
}

/// What `lzma_rs::lzma_decompress` (default options) makes of the given
/// bytes: the decoded bytes, or nothing where it reports an error.
pub uninterp spec fn unlzma_of(data: Seq<u8>) -> Option<Seq<u8>>;

/// Relies on `lzma_rs::lzma_decompress` with its default options (no memory
/// limit): its outcome depends on the input bytes alone, and it is lossless,
/// so a stream that `lzma_compress` wrote decodes to exactly the bytes it
/// was written from.
#[verifier::external_body]
pub(crate) fn decompress_bytes(data: &[u8]) -> (r: Option<Vec<u8>>)
    ensures
        r is None <==> unlzma_of(data@) is None,
        r matches Some(v) ==> unlzma_of(data@) == Some(v@),
        r is None ==> forall|s: Seq<u8>| #[trigger] lzma_of(s) != data@,
        r matches Some(v) ==> forall|s: Seq<u8>| #[trigger] lzma_of(s) == data@ ==> v@ == s,
{
    let mut input: &[u8] = data;
    let mut out: Vec<u8> = Vec::new();
    match lzma_rs::lzma_decompress(&mut input, &mut out) {
        Ok(()) => Some(out),
        Err(_) => None,
    }
}

} // verus!
