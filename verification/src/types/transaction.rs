use vstd::prelude::*;

verus! {

/// Item identifier.
pub type ItemId = u32;

/// Utility value; signed so that negative utilities can be represented.
pub type Utility = i64;

/// A single item and its utility inside a transaction.
#[derive(Debug, Clone, Copy, PartialEq, Eq, Structural)]
pub struct ItemEntry {
    pub item: ItemId,
    pub utility: Utility,
}

/// A transaction as read from the SPMF text format.
#[derive(Debug, Clone)]
pub struct RawTransaction {
    pub tid: u32,
    pub transaction_utility: Utility,
    pub items: Vec<ItemEntry>,
}

/// A borrowed view of a transaction whose entries live elsewhere.
pub struct Transaction<'a> {
    pub tid: u32,
    pub transaction_utility: Utility,
    pub items: &'a [ItemEntry],
}

impl<'a> Transaction<'a> {
    /// Builds a view from its parts.
    pub fn from_raw_parts(tid: u32, tu: Utility, items: &'a [ItemEntry]) -> (r: Self)
        ensures
            r.tid == tid,
            r.transaction_utility == tu,
            r.items@ == items@,
    {
        Transaction { tid, transaction_utility: tu, items }
    }
}

} // verus!
