use vstd::prelude::*;
use super::{Utility, PageId};
use super::itemset::{Itemset, itemset_items};

verus! {

/// One entry of a utility list: the internal utility of the itemset in a
/// transaction and the remaining utility after it.
#[derive(Debug, Clone, Copy, PartialEq, Eq, Structural)]
pub struct ULEntry {
    pub tid: u32,
    pub iutils: Utility,
    pub rutils: Utility,
}

/// Whether a utility-list body is kept on disk or can be rebuilt from its parents.
#[derive(Debug, Clone, Copy, PartialEq, Eq, Structural)]
pub enum RecomputeFlag {
    /// Materialized on disk.
    Materialized,
    /// Can be recomputed from parent utility lists.
    Recomputable,
}

/// Header of a utility list; the body lives in RAM or on disk.
pub struct UtilityList {
    /// The itemset (prefix plus current item).
    pub itemset: Itemset,
    /// Sum of internal utilities over all transactions.
    pub sum_iutils: Utility,
    /// Sum of remaining utilities over all transactions.
    pub sum_rutils: Utility,
    /// Number of body entries.
    pub len: u32,
    /// Page holding the body, or 0 if the body is in RAM.
    pub page_id: PageId,
    /// Whether the body is resident.
    pub resident: bool,
    /// Recompute or reload.
    pub recompute: RecomputeFlag,
}

impl UtilityList {
    /// The items of the itemset.
    pub open spec fn items(&self) -> Seq<u32> {
        itemset_items(&self.itemset)
    }

    /// The upper bound `sum_iutils + sum_rutils`.
    pub open spec fn spec_twu(&self) -> int {
        self.sum_iutils + self.sum_rutils
    }

    /// Upper bound on the utility of this itemset and its extensions.
    pub fn twu(&self) -> (r: Utility)
        requires
            i64::MIN <= self.spec_twu() <= i64::MAX,
        ensures
            r == self.spec_twu(),
    {
        self.sum_iutils + self.sum_rutils
    }

    /// True if the upper bound is below `min_utility`.
    pub fn can_prune(&self, min_utility: Utility) -> (r: bool)
        requires
            i64::MIN <= self.spec_twu() <= i64::MAX,
        ensures
            r == (self.spec_twu() < min_utility),
    {
        self.twu() < min_utility
    }

    /// True if the itemset itself reaches `min_utility`.
    pub fn is_high_utility(&self, min_utility: Utility) -> (r: bool)
        ensures
            r == (self.sum_iutils >= min_utility),
    {
        self.sum_iutils >= min_utility
    }
}

} // verus!
