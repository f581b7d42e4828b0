//! LZ4 compression of page payloads, through `lz4_flex`.
use vstd::prelude::*;
use lz4_flex::block::DecompressError;
use super::chunk_store::StoreError;

verus! {

#[verifier::external_type_specification]
#[verifier::external_body]
pub struct ExDecompressError(DecompressError);

/// What `lz4_flex::compress_prepend_size` returns for the given bytes.
pub uninterp spec fn spec_lz4_compress(data: Seq<u8>) -> Seq<u8>;

/// What `lz4_flex::decompress_size_prepended` returns for the given bytes, if it succeeds.
pub uninterp spec fn spec_lz4_decompress(data: Seq<u8>) -> Option<Seq<u8>>;

/// `lz4_flex::compress_prepend_size`: the result is named `spec_lz4_compress` of the input.
/// Nothing is stated of its length.
#[verifier::external_body]
pub fn compress(data: &[u8]) -> (r: Vec<u8>)
    ensures
        r@ == spec_lz4_compress(data@),
{
    lz4_flex::compress_prepend_size(data)
}

/// `lz4_flex::decompress_size_prepended`: succeeds with `spec_lz4_decompress` of the
/// input where that is defined, and gives back the original bytes of anything that
/// `compress_prepend_size` produced from fewer than 2^32 bytes (the crate's documented
/// round trip; the prepended size is a `u32`, so a longer original is not recovered).
/// Not stated: the allocation of the prepended size, which may be large for corrupt
/// input.
#[verifier::external_body]
fn lz4_decompress(data: &[u8]) -> (r: Result<Vec<u8>, DecompressError>)
    ensures
        r matches Ok(v) ==> spec_lz4_decompress(data@) == Some(v@),
        r is Err ==> spec_lz4_decompress(data@) is None,
        forall|orig: Seq<u8>| #![trigger spec_lz4_compress(orig)] orig.len() <= u32::MAX && data@ == spec_lz4_compress(orig)
            ==> r is Ok && r.unwrap()@ == orig,
{
    lz4_flex::decompress_size_prepended(data)
}

/// Decompresses a payload produced by `compress` (from fewer than 2^32 bytes).
pub fn decompress(data: &[u8]) -> (r: Result<Vec<u8>, StoreError>)
    ensures
        r matches Ok(v) ==> spec_lz4_decompress(data@) == Some(v@),
        r is Err ==> (spec_lz4_decompress(data@) is None && r == Err::<Vec<u8>, StoreError>(StoreError::Decompress)),
        forall|orig: Seq<u8>| orig.len() <= u32::MAX && data@ == spec_lz4_compress(orig) ==> (r matches Ok(v) && v@ == orig),
{
    match lz4_decompress(data) {
        Ok(v) => Ok(v),
        Err(_) => Err(StoreError::Decompress),
    }
}

} // verus!
