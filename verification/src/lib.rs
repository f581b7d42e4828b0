//! Out-of-core high-utility itemset mining: the verified core.
pub mod types;
pub mod config;
pub mod progress;
pub mod storage;
pub mod mining;
pub mod preprocessing;
pub mod buffer_pool;
pub mod experiment;
pub mod prefetch;

use vstd::prelude::*;

verus! {

} // verus!
