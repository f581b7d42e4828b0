//! The interface of an eviction policy.
use vstd::prelude::*;
use crate::types::{PageId, PageMeta};

verus! {

/// Chooses which resident page to evict. Told of every access, insertion and eviction.
pub trait EvictionPolicy {
    /// Page `id` was accessed.
    fn on_access(&mut self, id: PageId);
    /// Page `id` became resident.
    fn on_insert(&mut self, id: PageId);
    /// Page `id` was evicted.
    fn on_evict(&mut self, id: PageId);
    /// A victim among the given resident frames; never a pinned one.
    fn pick_victim(&self, frames: &[(PageId, PageMeta)]) -> (r: Option<PageId>)
        ensures
            r matches Some(v) ==> exists|i: int|
                0 <= i < frames@.len() && (#[trigger] frames@[i]).0 == v && frames@[i].1.pin_count == 0,
    ;
}

} // verus!
