use vstd::prelude::*;

verus! {

/// Identifier of a page in the chunk store.
pub type PageId = u64;

/// Metadata of one buffer-pool frame; always resident.
#[derive(Debug, Clone)]
pub struct PageMeta {
    pub page_id: PageId,
    /// Payload size in bytes.
    pub size_bytes: u32,
    /// Modified since the last flush.
    pub dirty: bool,
    /// Active pins; eviction is blocked while positive.
    pub pin_count: u16,
    /// Tick of the last access.
    pub last_access_tick: u64,
    /// Number of accesses.
    pub access_count: u32,
    /// Bit pattern (IEEE 754 single precision) of the predicted access probability.
    pub predicted_access_prob_bits: u32,
    /// Depth in the search at which the page was created.
    pub traversal_depth: u16,
    /// Estimated reload cost in nanoseconds.
    pub reload_cost_ns: u32,
    /// Estimated recompute cost in nanoseconds.
    pub recompute_cost_ns: u32,
    /// Parent page, if any.
    pub parent_page: Option<PageId>,
}

impl PageMeta {
    /// Fresh metadata: clean, unpinned, never accessed.
    pub fn new(page_id: PageId, size_bytes: u32) -> (m: Self)
        ensures
            m.page_id == page_id,
            m.size_bytes == size_bytes,
            !m.dirty,
            m.pin_count == 0,
            m.last_access_tick == 0,
            m.access_count == 0,
            m.predicted_access_prob_bits == 0,
            m.traversal_depth == 0,
            m.reload_cost_ns == 0,
            m.recompute_cost_ns == 0,
            m.parent_page is None,
    {
        PageMeta {
            page_id,
            size_bytes,
            dirty: false,
            pin_count: 0,
            last_access_tick: 0,
            access_count: 0,
            predicted_access_prob_bits: 0,
            traversal_depth: 0,
            reload_cost_ns: 0,
            recompute_cost_ns: 0,
            parent_page: None,
        }
    }

    /// True if the page is pinned and must not be evicted.
    pub fn is_pinned(&self) -> (r: bool)
        ensures
            r == (self.pin_count > 0),
    {
        self.pin_count > 0
    }

    /// True if recomputing is known and cheaper than reloading.
    pub fn prefer_recompute(&self) -> (r: bool)
        ensures
            r == (self.recompute_cost_ns > 0 && self.recompute_cost_ns < self.reload_cost_ns),
    {
        self.recompute_cost_ns > 0 && self.recompute_cost_ns < self.reload_cost_ns
    }
}

} // verus!
