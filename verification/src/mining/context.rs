//! Sizing the mining run's working memory from the buffer pool's budget.
use vstd::prelude::*;

verus! {

/// The bytes set aside for one chunk of utility lists: a quarter of the pool's budget.
pub fn chunk_bytes(pool_budget: usize) -> (r: usize)
    ensures
        r == pool_budget / 4,
{
    pool_budget / 4
}

/// How many single-item utility lists of `avg_ul_bytes` bytes each fit in a chunk of
/// `chunk_bytes` bytes: at least one, and without limit for lists of no size.
pub fn items_per_chunk(chunk_bytes: usize, avg_ul_bytes: usize) -> (r: usize)
    ensures
        avg_ul_bytes == 0 ==> r == usize::MAX,
        avg_ul_bytes > 0 ==> r == (if chunk_bytes / avg_ul_bytes >= 1 { chunk_bytes / avg_ul_bytes } else { 1 }),
{
    if avg_ul_bytes == 0 {
        return usize::MAX;
    }
    let n = chunk_bytes / avg_ul_bytes;
    if n >= 1 { n } else { 1 }
}

} // verus!
