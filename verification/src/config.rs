use vstd::prelude::*;

verus! {

/// Memory budget of the buffer pool.
#[derive(Debug, Clone, Copy)]
pub struct MemoryBudget {
    pub bytes: usize,
}

impl MemoryBudget {
    /// `n` gibibytes.
    pub fn gb(n: usize) -> (r: Self)
        requires
            n * 1073741824 <= usize::MAX,
        ensures
            r.bytes == n * 1073741824,
    {
        MemoryBudget { bytes: n * 1024 * 1024 * 1024 }
    }

    /// `n` mebibytes.
    pub fn mb(n: usize) -> (r: Self)
        requires
            n * 1048576 <= usize::MAX,
        ensures
            r.bytes == n * 1048576,
    {
        MemoryBudget { bytes: n * 1024 * 1024 }
    }
}

/// Top-level experiment configuration; paths are kept as text.
#[derive(Debug, Clone)]
pub struct ExperimentConfig {
    pub budget: MemoryBudget,
    pub min_utility: i64,
    pub page_size_bytes: usize,
    pub chunk_store_root: String,
    pub output_path: String,
}

impl Default for ExperimentConfig {
    /// One gibibyte of budget, threshold 1000, 64 KiB pages, chunks under `chunks`,
    /// results in `output.txt`.
    fn default() -> (r: Self)
        ensures
            r.budget.bytes == 1073741824,
            r.min_utility == 1000,
            r.page_size_bytes == 65536,
            r.chunk_store_root@ == "chunks"@,
            r.output_path@ == "output.txt"@,
    {
        ExperimentConfig {
            budget: MemoryBudget::gb(1),
            min_utility: 1000,
            page_size_bytes: 64 * 1024,
            chunk_store_root: "chunks".to_string(),
            output_path: "output.txt".to_string(),
        }
    }
}

} // verus!
