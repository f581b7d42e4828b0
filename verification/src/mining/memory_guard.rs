//! Budget for memory that lives outside the buffer pool, with spilling to the store.
use vstd::prelude::*;
use crate::types::PageId;
use crate::storage::chunk_store::{ChunkStore, StoreError};
use crate::storage::page_layout::PageFlags;

verus! {

/// The bytes in use after a reservation of `bytes`, and whether it was granted:
/// granted exactly when the new total stays within the budget.
pub open spec fn spec_try_alloc(used: usize, budget: usize, bytes: usize) -> (usize, bool) {
    if used + bytes <= budget {
        ((used + bytes) as usize, true)
    } else {
        (used, false)
    }
}

/// The bytes in use after releasing `bytes`; never below zero.
pub open spec fn spec_free(used: usize, bytes: usize) -> usize {
    if bytes <= used { (used - bytes) as usize } else { 0 }
}

/// Tracks the bytes allocated outside the buffer pool against a budget, and moves
/// data to the store and back when the budget does not allow keeping it.
pub struct MemoryGuard<S: ChunkStore> {
    used: usize,
    budget: usize,
    store: S,
}

impl<S: ChunkStore> MemoryGuard<S> {
    /// Bytes currently accounted for.
    pub closed spec fn used_view(&self) -> usize {
        self.used
    }

    /// The budget in bytes.
    pub closed spec fn budget_view(&self) -> usize {
        self.budget
    }

    /// A guard with nothing allocated.
    pub fn new(budget: usize, store: S) -> (r: Self)
        ensures
            r.used_view() == 0,
            r.budget_view() == budget,
    {
        MemoryGuard { used: 0, budget, store }
    }

    /// Reserves `bytes` if the total stays within the budget; returns whether it did.
    pub fn try_alloc(&mut self, bytes: usize) -> (r: bool)
        ensures
            (final(self).used_view(), r) == spec_try_alloc(old(self).used_view(), old(self).budget_view(), bytes),
            final(self).budget_view() == old(self).budget_view(),
    {
        if bytes <= self.budget && self.used <= self.budget - bytes {
            self.used = self.used + bytes;
            true
        } else {
            false
        }
    }

    /// Accounts for `bytes` that are already allocated, whatever the budget; the count
    /// wraps around at the top of its range.
    pub fn force_alloc(&mut self, bytes: usize)
        ensures
            final(self).used_view() == vstd::wrapping::usize_specs::wrapping_add(old(self).used_view(), bytes),
            final(self).budget_view() == old(self).budget_view(),
    {
        self.used = self.used.wrapping_add(bytes);
    }

    /// Releases `bytes`, or everything if fewer are in use.
    pub fn free(&mut self, bytes: usize)
        ensures
            final(self).used_view() == spec_free(old(self).used_view(), bytes),
            final(self).budget_view() == old(self).budget_view(),
    {
        let take = if bytes < self.used { bytes } else { self.used };
        self.used = self.used - take;
    }

    /// Bytes currently allocated.
    pub fn used(&self) -> (r: usize)
        ensures
            r == self.used_view(),
    {
        self.used
    }

    /// Bytes left before the budget is reached (zero when it is exceeded).
    pub fn remaining(&self) -> (r: usize)
        ensures
            r == (if self.used_view() <= self.budget_view() { self.budget_view() - self.used_view() } else { 0 }),
    {
        self.budget.saturating_sub(self.used)
    }

    /// The budget in bytes.
    pub fn budget(&self) -> (r: usize)
        ensures
            r == self.budget_view(),
    {
        self.budget
    }

    /// Writes `data` to a fresh page of the store and returns its id.
    pub fn spill(&self, data: &[u8]) -> (r: Result<PageId, StoreError>) {
        let page_id = self.store.next_page_id();
        match self.store.write_page(page_id, data, PageFlags::empty()) {
            Ok(()) => Ok(page_id),
            Err(e) => Err(e),
        }
    }

    /// Reads a spilled page back from the store.
    pub fn load(&self, page_id: PageId) -> (r: Result<Vec<u8>, StoreError>) {
        let mut buf: Vec<u8> = Vec::new();
        match self.store.read_page(page_id, &mut buf) {
            Ok(_) => Ok(buf),
            Err(e) => Err(e),
        }
    }

    /// Reads a spilled page back and removes it from the store; a failed removal is
    /// ignored.
    pub fn load_and_delete(&self, page_id: PageId) -> (r: Result<Vec<u8>, StoreError>) {
        match self.load(page_id) {
            Ok(buf) => {
                let _ = self.store.delete_page(page_id);
                Ok(buf)
            },
            Err(e) => Err(e),
        }
    }
}

/// A granted reservation followed by the release of the same amount leaves the
/// count where it was.
pub proof fn law_alloc_then_free_restores(used: usize, budget: usize, bytes: usize)
    requires
        spec_try_alloc(used, budget, bytes).1,
    ensures
        spec_free(spec_try_alloc(used, budget, bytes).0, bytes) == used,
{
}

/// Starting within the budget, reservations alone never leave it.
pub proof fn law_try_alloc_keeps_budget(used: usize, budget: usize, bytes: usize)
    requires
        used <= budget,
    ensures
        spec_try_alloc(used, budget, bytes).0 <= budget,
{
}

} // verus!
