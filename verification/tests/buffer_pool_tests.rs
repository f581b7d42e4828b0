use pocket_huim::types::PageMeta;
use pocket_huim::buffer_pool::lru::LruPolicy;
use pocket_huim::buffer_pool::policy::EvictionPolicy;
use pocket_huim::buffer_pool::metrics::BufferPoolMetrics;
use pocket_huim::buffer_pool::pool::BufferPool;
use pocket_huim::buffer_pool::frame::Frame;
use pocket_huim::storage::{ChunkStore, StoreError, PageFlags};
use pocket_huim::types::PageId;
use std::cell::{Cell, RefCell};
use std::collections::HashMap;

struct MemStore {
    pages: RefCell<HashMap<PageId, Vec<u8>>>,
    writes: Cell<u32>,
}

impl MemStore {
    fn new() -> Self {
        MemStore { pages: RefCell::new(HashMap::new()), writes: Cell::new(0) }
    }
}

impl ChunkStore for MemStore {
    fn write_page(&self, id: PageId, data: &[u8], _flags: PageFlags) -> Result<(), StoreError> {
        self.writes.set(self.writes.get() + 1);
        self.pages.borrow_mut().insert(id, data.to_vec());
        Ok(())
    }
    fn read_page(&self, id: PageId, buf: &mut Vec<u8>) -> Result<PageFlags, StoreError> {
        match self.pages.borrow().get(&id) {
            Some(p) => {
                buf.clear();
                buf.extend_from_slice(p);
                Ok(PageFlags::empty())
            }
            None => Err(StoreError::Io),
        }
    }
    fn delete_page(&self, id: PageId) -> Result<(), StoreError> {
        self.pages.borrow_mut().remove(&id);
        Ok(())
    }
    fn page_exists(&self, id: PageId) -> bool {
        self.pages.borrow().contains_key(&id)
    }
    fn page_byte_size(&self, id: PageId) -> Option<u64> {
        self.pages.borrow().get(&id).map(|p| p.len() as u64)
    }
    fn next_page_id(&self) -> PageId {
        1
    }
}

#[test]
fn evicts_least_recently_used() {
    let mut p = LruPolicy::new();
    p.on_insert(1);
    p.on_insert(2);
    p.on_access(1);

    let m1 = PageMeta::new(1, 0);
    let m2 = PageMeta::new(2, 0);

    let frames = vec![(1, m1.clone()), (2, m2.clone())];
    assert_eq!(p.pick_victim(&frames), Some(2));
}

#[test]
fn lru_pinned_page_not_evicted() {
    let mut p = LruPolicy::new();
    p.on_insert(1);
    p.on_insert(2);
    p.on_access(1);

    let m1 = PageMeta::new(1, 0);
    let mut m2 = PageMeta::new(2, 0);
    m2.pin_count = 1;

    let frames = vec![(1, m1.clone()), (2, m2.clone())];
    assert_eq!(p.pick_victim(&frames), Some(1));
}

#[test]
fn lru_all_pinned_returns_none() {
    let mut p = LruPolicy::new();
    p.on_insert(1);

    let mut m1 = PageMeta::new(1, 0);
    m1.pin_count = 1;

    let frames = vec![(1, m1.clone())];
    assert_eq!(p.pick_victim(&frames), None);
}

#[test]
fn lru_forgets_evicted_pages() {
    let mut p = LruPolicy::default();
    p.on_insert(1);
    p.on_insert(2);
    p.on_evict(1);
    let frames = vec![(1, PageMeta::new(1, 0)), (2, PageMeta::new(2, 0))];
    assert_eq!(p.pick_victim(&frames), Some(2));
    p.on_evict(2);
    assert_eq!(p.pick_victim(&frames), None);
}

#[test]
fn test_metrics() {
    let mut m = BufferPoolMetrics::new();
    m.record_hit();
    m.record_hit();
    m.record_miss();
    assert_eq!(m.hits, 2);
    assert_eq!(m.misses, 1);
    let hit_rate = m.hits as f64 / (m.hits + m.misses) as f64;
    let miss_rate = m.misses as f64 / (m.hits + m.misses) as f64;
    assert_eq!(hit_rate, 2.0 / 3.0);
    assert_eq!(miss_rate, 1.0 / 3.0);
    m.update_peak(100);
    m.update_peak(50);
    assert_eq!(m.peak_bytes, 100);
}

#[test]
fn metrics_counters_wrap() {
    let mut m = BufferPoolMetrics::new();
    m.record_bytes_read(u64::MAX);
    m.record_bytes_read(2);
    assert_eq!(m.bytes_read, 1);
    m.record_bytes_written(7);
    m.record_eviction();
    m.record_dirty_flush();
    assert_eq!((m.bytes_written, m.evictions, m.dirty_flushes), (7, 1, 1));
}

#[test]
fn pool_insert_then_pin_hits() {
    let mut pool = BufferPool::new(100, MemStore::new(), LruPolicy::new());
    pool.insert_page(7, vec![1, 2, 3]).unwrap();
    assert_eq!(pool.used_bytes(), 3);
    let g = pool.pin(7).unwrap();
    assert_eq!(g.page_id(), 7);
    assert_eq!(g.as_slice(), &[1, 2, 3]);
    assert_eq!(pool.metrics.hits, 1);
    assert_eq!(pool.metrics.misses, 0);
    pool.release(g);
    assert_eq!(pool.budget_remaining(), 97);
}

#[test]
fn pool_miss_reads_the_store() {
    let store = MemStore::new();
    store.write_page(5, &[9, 9], PageFlags::empty()).unwrap();
    let mut pool = BufferPool::new(100, store, LruPolicy::new());
    let g = pool.pin(5).unwrap();
    assert_eq!(g.as_slice(), &[9, 9]);
    assert_eq!(pool.metrics.misses, 1);
    assert_eq!(pool.metrics.bytes_read, 2);
    assert_eq!(pool.used_bytes(), 2);
    assert_eq!(pool.metrics.peak_bytes, 2);
}

#[test]
fn pool_missing_page_is_an_error() {
    let mut pool = BufferPool::new(100, MemStore::new(), LruPolicy::new());
    assert_eq!(pool.pin(42).err(), Some(StoreError::Io));
}

#[test]
fn pool_evicts_to_stay_within_budget_and_flushes_dirty_pages() {
    let mut pool = BufferPool::new(10, MemStore::new(), LruPolicy::new());
    pool.insert_page(1, vec![0; 6]).unwrap();
    pool.insert_page(2, vec![0; 6]).unwrap();
    assert_eq!(pool.used_bytes(), 6);
    assert_eq!(pool.metrics.evictions, 1);
    assert_eq!(pool.metrics.dirty_flushes, 1);
    // The evicted page was written back and can be read again.
    let g = pool.pin(1).unwrap();
    assert_eq!(g.as_slice().len(), 6);
    assert_eq!(pool.metrics.evictions, 2);
}

#[test]
fn pool_full_of_pinned_pages_refuses() {
    let mut pool = BufferPool::new(10, MemStore::new(), LruPolicy::new());
    pool.insert_page(1, vec![0; 6]).unwrap();
    let _g = pool.pin(1).unwrap();
    assert_eq!(pool.insert_page(2, vec![0; 6]), Err(StoreError::PoolFull));
    assert_eq!(pool.used_bytes(), 6);
}

#[test]
fn pool_write_through_a_mutable_pin() {
    let mut pool = BufferPool::new(100, MemStore::new(), LruPolicy::new());
    pool.insert_page(3, vec![0, 0, 0]).unwrap();
    pool.flush(3).unwrap();
    let mut g = pool.pin_mut(3).unwrap();
    g.write(1, &[7, 8]);
    assert_eq!(g.as_slice(), &[0, 7, 8]);
    pool.release_mut(g);
    let r = pool.pin(3).unwrap();
    assert_eq!(r.as_slice(), &[0, 7, 8]);
}

#[test]
fn pool_budget_can_be_lowered() {
    let mut pool = BufferPool::new(100, MemStore::new(), LruPolicy::new());
    pool.insert_page(1, vec![0; 50]).unwrap();
    pool.set_budget(10);
    assert_eq!(pool.budget_bytes(), 10);
    assert_eq!(pool.budget_remaining(), 0);
    pool.insert_page(2, vec![0; 5]).unwrap();
    assert_eq!(pool.used_bytes(), 5);
}

#[test]
fn frame_new_has_fresh_metadata() {
    let f = Frame::new(4, vec![1, 2]);
    assert_eq!(f.meta.page_id, 4);
    assert_eq!(f.meta.size_bytes, 2);
    assert_eq!(f.meta.pin_count, 0);
    assert!(!f.meta.dirty);
}

#[test]
fn pool_mark_dirty_writes_the_page_back_on_eviction() {
    let mut pool = BufferPool::new(10, MemStore::new(), LruPolicy::new());
    pool.insert_page(1, vec![1; 6]).unwrap();
    pool.flush(1).unwrap();
    let clean = pool.metrics.dirty_flushes;
    pool.insert_page(2, vec![2; 6]).unwrap();
    assert_eq!(pool.metrics.evictions, 1);
    assert_eq!(pool.metrics.dirty_flushes, clean);
    pool.flush(2).unwrap();
    let before = pool.metrics.dirty_flushes;
    pool.mark_dirty(2);
    pool.insert_page(3, vec![3; 6]).unwrap();
    assert_eq!(pool.metrics.evictions, 2);
    assert_eq!(pool.metrics.dirty_flushes, before + 1);
}

/// Evicts the unpinned page with the smallest predicted-probability bits.
struct LowestPrediction;

impl EvictionPolicy for LowestPrediction {
    fn on_access(&mut self, _id: PageId) {}
    fn on_insert(&mut self, _id: PageId) {}
    fn on_evict(&mut self, _id: PageId) {}
    fn pick_victim(&self, frames: &[(PageId, PageMeta)]) -> Option<PageId> {
        frames
            .iter()
            .filter(|(_, m)| m.pin_count == 0)
            .min_by_key(|(_, m)| m.predicted_access_prob_bits)
            .map(|(id, _)| *id)
    }
}

#[test]
fn pool_predictions_reach_the_policy() {
    let mut pool = BufferPool::new(9, MemStore::new(), LowestPrediction);
    pool.insert_page(1, vec![1; 3]).unwrap();
    pool.insert_page(2, vec![2; 3]).unwrap();
    pool.insert_page(3, vec![3; 3]).unwrap();
    pool.set_predicted_prob_bits(1, 5);
    pool.set_predicted_prob_bits(2, 1);
    pool.set_predicted_prob_bits(3, 9);
    pool.insert_page(4, vec![4; 3]).unwrap();
    assert_eq!(pool.metrics.evictions, 1);
    let misses = pool.metrics.misses;
    let _a = pool.pin(1).unwrap();
    let _b = pool.pin(3).unwrap();
    assert_eq!(pool.metrics.misses, misses);
    let _c = pool.pin(2);
    assert_eq!(pool.metrics.misses, misses + 1);
}

#[test]
fn pool_safety_net_caps_the_budget() {
    let mib = 1024 * 1024;
    let mut pool = BufferPool::new(1024 * mib, MemStore::new(), LruPolicy::new());
    pool.apply_safety_net(600 * mib as u64);
    assert_eq!(pool.budget_bytes(), 100 * mib);
    pool.apply_safety_net(64 * 1024 * mib as u64);
    assert_eq!(pool.budget_bytes(), 100 * mib);
    pool.apply_safety_net(400 * mib as u64);
    assert_eq!(pool.budget_bytes(), 0);
}

#[test]
fn pool_frame_metas_list_every_resident_page() {
    let mut pool = BufferPool::new(100, MemStore::new(), LruPolicy::new());
    pool.insert_page(3, vec![1]).unwrap();
    pool.insert_page(4, vec![2, 2]).unwrap();
    let mut ids: Vec<PageId> = pool.frame_metas().iter().map(|(id, _)| *id).collect();
    ids.sort();
    assert_eq!(ids, vec![3, 4]);
}

#[test]
fn pool_evict_page_writes_back_and_frees_the_chosen_page() {
    let mut pool = BufferPool::new(100, MemStore::new(), LruPolicy::new());
    pool.insert_page(3, vec![1]).unwrap();
    pool.insert_page(4, vec![2, 2]).unwrap();
    assert_eq!(pool.evict_page(None), Ok(None));
    assert_eq!(pool.used_bytes(), 3);
    assert_eq!(pool.evict_page(Some(4)), Ok(Some(4)));
    assert_eq!(pool.used_bytes(), 1);
    assert_eq!(pool.metrics.dirty_flushes, 1);
    let mut ids: Vec<PageId> = pool.frame_metas().iter().map(|(id, _)| *id).collect();
    ids.sort();
    assert_eq!(ids, vec![3]);
    // The written-back page is read again from the store.
    let g = pool.pin(4).unwrap();
    assert_eq!(g.as_slice(), &[2, 2]);
}

// Inserting a page id that is already resident replaces its frame and accounts the new
// bytes on top of the old ones, so the accounting may exceed the resident bytes.
#[test]
fn pool_reinsert_accounts_both_frames() {
    let mut pool = BufferPool::new(100, MemStore::new(), LruPolicy::new());
    pool.insert_page(7, vec![1, 2, 3]).unwrap();
    pool.insert_page(7, vec![4, 5, 6]).unwrap();
    assert_eq!(pool.used_bytes(), 6);
    let g = pool.pin(7).unwrap();
    assert_eq!(g.as_slice(), &[4, 5, 6]);
    pool.release(g);
}
