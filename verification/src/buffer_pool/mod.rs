//! The buffer pool: frames of pages in memory under a byte budget.
pub mod metrics;
pub mod policy;
pub mod lru;
pub mod frame;
pub mod pool;
