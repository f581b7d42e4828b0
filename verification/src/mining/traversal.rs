//! What the search knows of the extensions of the current node.
use vstd::prelude::*;
use crate::types::{ItemId, Utility, PageId};

verus! {

/// One candidate extension at the current node of the search.
#[derive(Debug, Clone, Copy)]
pub struct CandidateExtension {
    pub item: ItemId,
    /// Page of the extension's utility-list body.
    pub ul_page_id: PageId,
    /// `sum_iutils + sum_rutils` of the extension's utility list.
    pub twu: Utility,
    /// `sum_iutils` of the extension's utility list.
    pub sum_iutils: Utility,
    /// Estimated cost of loading the page, in nanoseconds (0 if unknown).
    pub load_cost_ns: u32,
}

} // verus!
