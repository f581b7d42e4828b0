//! Experiment configuration: one run, or a series of runs over several budgets.
use vstd::prelude::*;

verus! {

/// Configuration of a single experiment run; paths are kept as text.
#[derive(Debug, Clone)]
pub struct ExperimentConfig {
    pub budget_bytes: usize,
    pub dataset_path: String,
    pub min_utility: i64,
    pub chunk_store_root: String,
    pub output_path: String,
    /// If set, the output is checked against this reference listing.
    pub reference_path: Option<String>,
    pub enable_prefetch: bool,
}

/// A series of runs of one dataset, one per budget.
#[derive(Debug, Clone)]
pub struct ExperimentRunner {
    pub budgets: Vec<usize>,
    pub dataset_path: String,
    pub min_utility: i64,
    pub output_root: String,
    pub chunk_store_root: String,
    pub reference_path: Option<String>,
}

} // verus!
