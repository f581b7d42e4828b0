//! The buffer pool: resident frames of pages under a byte budget, read from and written
//! back to a chunk store, with an eviction policy choosing which unpinned page leaves.
use vstd::prelude::*;
use dashmap::DashMap;
use std::time::Instant;
use crate::types::{PageId, PageMeta};
use crate::storage::chunk_store::{ChunkStore, StoreError};
use crate::storage::page_layout::PageFlags;
use super::frame::{Frame, PinGuard, PinMutGuard};
use super::metrics::{BufferPoolMetrics, wrap_add};
use super::policy::EvictionPolicy;

verus! {

#[verifier::external_type_specification]
#[verifier::external_body]
#[verifier::reject_recursive_types(K)]
#[verifier::reject_recursive_types(V)]
#[verifier::reject_recursive_types(S)]
pub struct ExDashMap<K, V, S>(DashMap<K, V, S>);

#[verifier::external_type_specification]
#[verifier::external_body]
pub struct ExInstant(Instant);

/// The frames a map of the pool holds, by page id.
pub uninterp spec fn frames_view(m: DashMap<PageId, Frame>) -> Map<PageId, Frame>;

/// `DashMap::new`: a map holding no frame.
#[verifier::external_body]
fn frames_new() -> (m: DashMap<PageId, Frame>)
    ensures
        frames_view(m).dom().is_empty(),
{
    DashMap::new()
}

/// `DashMap::insert`: `id` now maps to `f`; the frame it mapped to before, if any, is
/// returned.
#[verifier::external_body]
fn frames_insert(m: &mut DashMap<PageId, Frame>, id: PageId, f: Frame) -> (r: Option<Frame>)
    ensures
        frames_view(*final(m)) == frames_view(*old(m)).insert(id, f),
        r == (if frames_view(*old(m)).contains_key(id) { Some(frames_view(*old(m))[id]) } else { None }),
{
    m.insert(id, f)
}

/// `DashMap::remove`: `id` no longer maps to a frame; its entry is returned, if it had one.
#[verifier::external_body]
fn frames_remove(m: &mut DashMap<PageId, Frame>, id: PageId) -> (r: Option<(PageId, Frame)>)
    ensures
        frames_view(*final(m)) == frames_view(*old(m)).remove(id),
        r == (if frames_view(*old(m)).contains_key(id) { Some((id, frames_view(*old(m))[id])) } else { None }),
{
    m.remove(&id)
}

/// `DashMap::iter`: each entry's page id with a copy of its frame's metadata, in the
/// order the map yields them (which the contract leaves open).
#[verifier::external_body]
fn frames_metas(m: &DashMap<PageId, Frame>) -> (r: Vec<(PageId, PageMeta)>)
    ensures
        forall|i: int| 0 <= i < r@.len() ==> {
            &&& frames_view(*m).contains_key((#[trigger] r@[i]).0)
            &&& r@[i].1 == frames_view(*m)[r@[i].0].meta
        },
        forall|k: PageId| #[trigger] frames_view(*m).contains_key(k) ==> exists|i: int| 0 <= i < r@.len() && r@[i].0 == k,
{
    m.iter().map(|e| (*e.key(), e.value().meta.clone())).collect()
}

/// `Instant::now`: the current instant.
#[verifier::external_body]
fn instant_now() -> Instant {
    Instant::now()
}

/// `Instant::elapsed`, in nanoseconds.
#[verifier::external_body]
fn elapsed_nanos(t: &Instant) -> u128 {
    t.elapsed().as_nanos()
}

/// The summed page sizes of the frames named by `ids`.
pub open spec fn sizes_sum(ids: Seq<PageId>, m: Map<PageId, Frame>) -> int
    decreases ids.len(),
{
    if ids.len() == 0 {
        0
    } else {
        sizes_sum(ids.drop_last(), m) + m[ids.last()].data@.len()
    }
}

proof fn lemma_sizes_nonneg(ids: Seq<PageId>, m: Map<PageId, Frame>)
    ensures
        sizes_sum(ids, m) >= 0,
    decreases ids.len(),
{
    if ids.len() > 0 {
        lemma_sizes_nonneg(ids.drop_last(), m);
    }
}

/// Changing the frame of one id changes the sum by the difference of their sizes, once
/// for each time `ids` names it.
proof fn lemma_sizes_update(ids: Seq<PageId>, m: Map<PageId, Frame>, k: PageId, f: Frame)
    requires
        ids.no_duplicates(),
        m.contains_key(k) || !ids.contains(k),
    ensures
        sizes_sum(ids, m.insert(k, f)) == sizes_sum(ids, m) + (if ids.contains(k) {
            f.data@.len() - m[k].data@.len()
        } else {
            0
        }),
    decreases ids.len(),
{
    if ids.len() > 0 {
        let d = ids.drop_last();
        assert(d.no_duplicates());
        if ids.last() == k {
            assert(!d.contains(k));
        } else if d.contains(k) {
            assert(ids.contains(k));
        }
        lemma_sizes_update(d, m, k, f);
        if ids.contains(k) && ids.last() != k {
            let i = choose|i: int| 0 <= i < ids.len() && ids[i] == k;
            assert(d[i] == k);
        }
    }
}

/// Removing an id (named once) from the ids and its frame from the map takes its size off
/// the sum.
proof fn lemma_sizes_remove(ids: Seq<PageId>, m: Map<PageId, Frame>, i: int)
    requires
        ids.no_duplicates(),
        0 <= i < ids.len(),
    ensures
        sizes_sum(ids.remove(i), m.remove(ids[i])) == sizes_sum(ids, m) - m[ids[i]].data@.len(),
    decreases ids.len(),
{
    let k = ids[i];
    let r = ids.remove(i);
    if i == ids.len() - 1 {
        assert(r =~= ids.drop_last());
        lemma_sizes_other(r, m, k);
    } else {
        let d = ids.drop_last();
        assert(d.no_duplicates());
        assert(r.drop_last() =~= d.remove(i));
        assert(r.last() == ids.last());
        lemma_sizes_remove(d, m, i);
        assert(ids.last() != k);
    }
}

/// The sum does not depend on the frames of ids it does not name.
proof fn lemma_sizes_other(ids: Seq<PageId>, m: Map<PageId, Frame>, k: PageId)
    requires
        !ids.contains(k),
    ensures
        sizes_sum(ids, m.remove(k)) == sizes_sum(ids, m),
    decreases ids.len(),
{
    if ids.len() > 0 {
        let d = ids.drop_last();
        assert(!d.contains(k)) by {
            if d.contains(k) {
                let j = choose|j: int| 0 <= j < d.len() && d[j] == k;
                assert(ids[j] == k);
            }
        }
        lemma_sizes_other(d, m, k);
        assert(ids[ids.len() - 1] != k);
    }
}

/// Putting back a frame of the same size keeps the ids naming exactly the resident pages
/// and the accounting covering them.
proof fn lemma_reinsert(ids: Seq<PageId>, m0: Map<PageId, Frame>, id: PageId, nf: Frame, used: int)
    requires
        ids.no_duplicates(),
        forall|k: PageId| #[trigger] ids.contains(k) <==> m0.contains_key(k),
        sizes_sum(ids, m0) <= used,
        m0.contains_key(id),
        nf.data@.len() == m0[id].data@.len(),
    ensures
        forall|k: PageId| #[trigger] ids.contains(k) <==> m0.insert(id, nf).contains_key(k),
        sizes_sum(ids, m0.insert(id, nf)) <= used,
{
    lemma_sizes_update(ids, m0, id, nf);
    assert(m0.insert(id, nf).dom() =~= m0.dom());
}

/// Bytes left to the rest of the system when the budget is capped to available memory.
pub const SAFETY_MARGIN_BYTES: u64 = 524288000;

/// `requested`, capped to `available` less `SAFETY_MARGIN_BYTES` (zero when there is
/// less), taken as a `usize`.
pub open spec fn safe_budget(requested: usize, available: u64) -> usize {
    let safe = (if available >= SAFETY_MARGIN_BYTES { (available - SAFETY_MARGIN_BYTES) as u64 } else { 0u64 }) as usize;
    if safe < requested { safe } else { requested }
}

/// Resident frames of pages under a byte budget, read from `store` and written back to
/// it when a dirty page leaves; `eviction` chooses which unpinned page leaves when room
/// is needed.
pub struct BufferPool<S: ChunkStore, P: EvictionPolicy> {
    pub budget_bytes: usize,
    used_bytes: usize,
    frames: DashMap<PageId, Frame>,
    eviction: P,
    store: S,
    pub metrics: BufferPoolMetrics,
    tick: u64,
    ids: Ghost<Seq<PageId>>,
}

impl<S: ChunkStore, P: EvictionPolicy> BufferPool<S, P> {
    /// The resident frames, by page id.
    pub closed spec fn resident(&self) -> Map<PageId, Frame> {
        frames_view(self.frames)
    }

    /// The bytes accounted to resident pages.
    pub closed spec fn used(&self) -> usize {
        self.used_bytes
    }

    /// The budget in bytes.
    pub closed spec fn budget(&self) -> usize {
        self.budget_bytes
    }

    /// The pool's counters.
    pub closed spec fn stats(&self) -> BufferPoolMetrics {
        self.metrics
    }

    /// The number of resident pages.
    pub closed spec fn count(&self) -> nat {
        self.ids@.len()
    }

    /// The accounting covers every resident page: the bytes accounted are at least the
    /// summed sizes of the resident pages.
    pub closed spec fn wf(&self) -> bool {
        &&& self.ids@.no_duplicates()
        &&& forall|k: PageId| #[trigger] self.ids@.contains(k) <==> frames_view(self.frames).contains_key(k)
        &&& sizes_sum(self.ids@, frames_view(self.frames)) <= self.used_bytes
    }

    /// An empty pool with a budget of `budget_bytes`.
    pub fn new(budget_bytes: usize, store: S, eviction: P) -> (r: Self)
        ensures
            r.wf(),
            r.resident() == Map::<PageId, Frame>::empty(),
            r.used() == 0,
            r.budget() == budget_bytes,
            r.stats().hits == 0 && r.stats().misses == 0 && r.stats().evictions == 0,
            r.stats().dirty_flushes == 0 && r.stats().bytes_read == 0 && r.stats().bytes_written == 0,
            r.stats().peak_bytes == 0,
    {
        let frames = frames_new();
        proof {
            assert(frames_view(frames) =~= Map::<PageId, Frame>::empty());
        }
        let r = BufferPool {
            budget_bytes,
            used_bytes: 0,
            frames,
            eviction,
            store,
            metrics: BufferPoolMetrics::new(),
            tick: 0,
            ids: Ghost(Seq::empty()),
        };
        r
    }

    pub fn used_bytes(&self) -> (r: usize)
        ensures
            r == self.used(),
    {
        self.used_bytes
    }

    pub fn budget_bytes(&self) -> (r: usize)
        ensures
            r == self.budget(),
    {
        self.budget_bytes
    }

    /// The budget left, zero once the accounted bytes reach it.
    pub fn budget_remaining(&self) -> (r: usize)
        ensures
            r == (if self.used() <= self.budget() { self.budget() - self.used() } else { 0 }),
    {
        if self.used_bytes <= self.budget_bytes {
            self.budget_bytes - self.used_bytes
        } else {
            0
        }
    }

    /// Sets the budget; resident pages stay until room is next needed.
    pub fn set_budget(&mut self, bytes: usize)
        requires
            old(self).wf(),
        ensures
            final(self).wf(),
            final(self).budget() == bytes,
            final(self).resident() == old(self).resident(),
            final(self).used() == old(self).used(),
    {
        self.budget_bytes = bytes;
    }

    /// Caps the budget to the memory the machine has available (`available` bytes), less
    /// `SAFETY_MARGIN_BYTES` left to the rest of the system.
    pub fn apply_safety_net(&mut self, available: u64)
        requires
            old(self).wf(),
        ensures
            final(self).wf(),
            final(self).budget() == safe_budget(old(self).budget(), available),
            final(self).resident() == old(self).resident(),
            final(self).used() == old(self).used(),
    {
        let safe = available.saturating_sub(SAFETY_MARGIN_BYTES) as usize;
        let requested = self.budget_bytes;
        let capped = if safe < requested { safe } else { requested };
        self.set_budget(capped);
    }

    /// The next tick of the access clock (wrapping).
    fn next_tick(&mut self) -> (r: u64)
        ensures
            final(self).frames == old(self).frames,
            final(self).used_bytes == old(self).used_bytes,
            final(self).budget() == old(self).budget(),
            final(self).ids == old(self).ids,
            final(self).stats() == old(self).stats(),
            r == old(self).tick,
            final(self).tick == vstd::wrapping::u64_specs::wrapping_add(old(self).tick, 1),
    {
        let t = self.tick;
        self.tick = self.tick.wrapping_add(1);
        t
    }

    /// Writes a resident dirty page back to the store and marks it clean; nothing for a
    /// clean or absent page. On a store error nothing changes.
    pub fn flush(&mut self, page_id: PageId) -> (r: Result<(), StoreError>)
        requires
            old(self).wf(),
        ensures
            final(self).wf(),
            final(self).used() == old(self).used(),
            final(self).budget() == old(self).budget(),
            final(self).resident().dom() == old(self).resident().dom(),
            forall|k: PageId| #[trigger] final(self).resident().contains_key(k) ==> {
                &&& final(self).resident()[k].data == old(self).resident()[k].data
                &&& final(self).resident()[k].meta.pin_count == old(self).resident()[k].meta.pin_count
            },
            r is Ok && old(self).resident().contains_key(page_id) ==> !final(self).resident()[page_id].meta.dirty,
            r is Err ==> final(self).resident() == old(self).resident(),
            forall|k: PageId| k != page_id && #[trigger] final(self).resident().contains_key(k) ==> final(self).resident()[k] == old(self).resident()[k],
            final(self).count() == old(self).count(),
            !(old(self).resident().contains_key(page_id) && old(self).resident()[page_id].meta.dirty) ==> r is Ok,
    {
        let ghost m0 = self.resident();
        match frames_remove(&mut self.frames, page_id) {
            Some((_, f)) => {
                if f.meta.dirty {
                    let written = self.store.write_page(page_id, f.data.as_slice(), PageFlags::empty());
                    let len = f.data.len() as u64;
                    match written {
                        Ok(()) => {
                            self.metrics.record_dirty_flush();
                            self.metrics.record_bytes_written(len);
                            let Frame { data, meta } = f;
                            let mut meta = meta;
                            meta.dirty = false;
                            let nf = Frame { data, meta };
                            let _ = frames_insert(&mut self.frames, page_id, nf);
                            proof {
                                assert(m0.remove(page_id).insert(page_id, nf) =~= m0.insert(page_id, nf));
                                lemma_sizes_update(self.ids@, m0, page_id, nf);
                                assert(frames_view(self.frames).dom() =~= m0.dom());
                            }
                            Ok(())
                        },
                        Err(e) => {
                            let _ = frames_insert(&mut self.frames, page_id, f);
                            proof {
                                assert(m0.remove(page_id).insert(page_id, f) =~= m0);
                            }
                            Err(e)
                        },
                    }
                } else {
                    let _ = frames_insert(&mut self.frames, page_id, f);
                    proof {
                        assert(m0.remove(page_id).insert(page_id, f) =~= m0);
                    }
                    Ok(())
                }
            },
            None => {
                proof {
                    assert(m0.remove(page_id) =~= m0);
                }
                Ok(())
            },
        }
    }

    /// Every resident page, each with a copy of its metadata, in the order the frame map
    /// yields them: what the eviction policy chooses from.
    pub fn frame_metas(&self) -> (r: Vec<(PageId, PageMeta)>)
        ensures
            forall|i: int| 0 <= i < r@.len() ==> {
                &&& self.resident().contains_key((#[trigger] r@[i]).0)
                &&& r@[i].1 == self.resident()[r@[i].0].meta
            },
            forall|k: PageId| #[trigger] self.resident().contains_key(k) ==> exists|i: int| 0 <= i < r@.len() && r@[i].0 == k,
    {
        frames_metas(&self.frames)
    }

    /// Evicts the page the policy chose, if any: it is written back first if dirty (a
    /// refused write comes back as the error, with nothing evicted), then it leaves the
    /// pool and its bytes leave the accounting. `None` leaves the pool as it is.
    pub fn evict_page(&mut self, victim: Option<PageId>) -> (r: Result<Option<PageId>, StoreError>)
        requires
            old(self).wf(),
            victim matches Some(v) ==> old(self).resident().contains_key(v) && old(self).resident()[v].meta.pin_count == 0,
        ensures
            final(self).wf(),
            final(self).budget() == old(self).budget(),
            victim is None ==> r == Ok::<Option<PageId>, StoreError>(None) && final(self).resident() == old(self).resident()
                && final(self).used() == old(self).used() && final(self).count() == old(self).count(),
            victim matches Some(v) ==> match r {
                Ok(e) => {
                    &&& e == Some(v)
                    &&& final(self).resident() == old(self).resident().remove(v)
                    &&& final(self).used() == old(self).used() - old(self).resident()[v].data@.len()
                    &&& final(self).count() + 1 == old(self).count()
                },
                Err(_) => {
                    &&& old(self).resident()[v].meta.dirty
                    &&& final(self).resident() == old(self).resident()
                    &&& final(self).used() == old(self).used()
                    &&& final(self).count() == old(self).count()
                },
            },
            victim matches Some(v) && !old(self).resident()[v].meta.dirty ==> r is Ok,
    {
        let victim = match victim {
            None => {
                return Ok(None);
            },
            Some(v) => v,
        };
        let ghost m0 = self.resident();
        match self.flush(victim) {
            Ok(()) => {},
            Err(e) => {
                return Err(e);
            },
        }
        let ghost m1 = self.resident();
        let ghost ids1 = self.ids@;
        let removed = frames_remove(&mut self.frames, victim);
        let size: usize = match removed {
            Some((_, f)) => f.data.len(),
            None => 0,
        };
        proof {
            assert(ids1.contains(victim));
            let i = choose|i: int| 0 <= i < ids1.len() && ids1[i] == victim;
            lemma_sizes_remove(ids1, m1, i);
            lemma_sizes_nonneg(ids1.remove(i), m1.remove(victim));
            self.ids@ = ids1.remove(i);
            assert(forall|k: PageId| #[trigger] ids1.contains(k) <==> m1.contains_key(k));
            assert forall|k: PageId| #[trigger] self.ids@.contains(k) <==> frames_view(self.frames).contains_key(k) by {
                if self.ids@.contains(k) {
                    let j = choose|j: int| 0 <= j < self.ids@.len() && self.ids@[j] == k;
                    let jj = if j < i { j } else { j + 1 };
                    assert(ids1[jj] == k);
                    assert(jj != i);
                    assert(k != victim);
                    assert(ids1.contains(k));
                    assert(m1.contains_key(k));
                }
                if frames_view(self.frames).contains_key(k) {
                    assert(m1.contains_key(k));
                    assert(k != victim);
                    assert(ids1.contains(k));
                    let j = choose|j: int| 0 <= j < ids1.len() && ids1[j] == k;
                    assert(j != i);
                    let jj = if j < i { j } else { j - 1 };
                    assert(self.ids@[jj] == k);
                }
            }
            assert(self.ids@.no_duplicates());
            assert(self.resident() =~= m0.remove(victim));
        }
        self.used_bytes = self.used_bytes - size;
        self.eviction.on_evict(victim);
        self.metrics.record_eviction();
        Ok(Some(victim))
    }

    /// Evicts one page chosen by the policy among the resident ones: it is never pinned,
    /// it is written back first if dirty, and its bytes leave the accounting. `None` when
    /// the policy names no victim.
    pub fn evict_one(&mut self) -> (r: Result<Option<PageId>, StoreError>)
        requires
            old(self).wf(),
        ensures
            final(self).wf(),
            final(self).budget() == old(self).budget(),
            r matches Ok(Some(v)) ==> {
                &&& old(self).resident().contains_key(v)
                &&& old(self).resident()[v].meta.pin_count == 0
                &&& final(self).resident().dom() == old(self).resident().dom().remove(v)
                &&& final(self).used() == old(self).used() - old(self).resident()[v].data@.len()
            },
            r matches Ok(Some(v)) ==> final(self).count() + 1 == old(self).count(),
            r matches Ok(None) ==> final(self).resident() == old(self).resident() && final(self).used() == old(self).used(),
            forall|k: PageId| #[trigger] final(self).resident().contains_key(k) ==> {
                &&& old(self).resident().contains_key(k)
                &&& final(self).resident()[k].data == old(self).resident()[k].data
                &&& final(self).resident()[k].meta.pin_count == old(self).resident()[k].meta.pin_count
            },
            final(self).resident().dom().subset_of(old(self).resident().dom()),
            final(self).used() <= old(self).used(),
            (forall|k: PageId| #[trigger] old(self).resident().contains_key(k) ==> !old(self).resident()[k].meta.dirty) ==> r is Ok,
    {
        let metas = self.frame_metas();
        let candidate = self.eviction.pick_victim(metas.as_slice());
        proof {
            if candidate is Some {
                let i = choose|i: int| 0 <= i < metas@.len() && (#[trigger] metas@[i]).0 == candidate->0 && metas@[i].1.pin_count == 0;
                assert(self.resident().contains_key(metas@[i].0));
            }
        }
        self.evict_page(candidate)
    }

    /// Makes room for `size` more bytes: evicts until the accounted bytes plus `size` fit
    /// the budget. Fails when the policy names no victim.
    fn make_room(&mut self, size: usize) -> (r: Result<(), StoreError>)
        requires
            old(self).wf(),
        ensures
            final(self).wf(),
            final(self).budget() == old(self).budget(),
            r is Ok ==> final(self).used() + size <= final(self).budget(),
            forall|k: PageId| #[trigger] final(self).resident().contains_key(k) ==> {
                &&& old(self).resident().contains_key(k)
                &&& final(self).resident()[k].data == old(self).resident()[k].data
                &&& final(self).resident()[k].meta.pin_count == old(self).resident()[k].meta.pin_count
            },
            final(self).resident().dom().subset_of(old(self).resident().dom()),
            old(self).used() + size <= old(self).budget() ==> r is Ok && final(self).resident() == old(self).resident()
                && final(self).used() == old(self).used(),
    {
        loop
            invariant
                self.wf(),
                self.budget_bytes == old(self).budget(),
                forall|k: PageId| #[trigger] self.resident().contains_key(k) ==> {
                    &&& old(self).resident().contains_key(k)
                    &&& self.resident()[k].data == old(self).resident()[k].data
                    &&& self.resident()[k].meta.pin_count == old(self).resident()[k].meta.pin_count
                },
                self.resident().dom().subset_of(old(self).resident().dom()),
                old(self).used() + size <= old(self).budget() ==> self.resident() == old(self).resident()
                    && self.used_bytes == old(self).used(),
            ensures
                self.wf(),
                self.budget_bytes == old(self).budget(),
                r_ok_fits(self.used_bytes, size, self.budget_bytes),
                forall|k: PageId| #[trigger] self.resident().contains_key(k) ==> {
                    &&& old(self).resident().contains_key(k)
                    &&& self.resident()[k].data == old(self).resident()[k].data
                    &&& self.resident()[k].meta.pin_count == old(self).resident()[k].meta.pin_count
                },
                self.resident().dom().subset_of(old(self).resident().dom()),
                old(self).used() + size <= old(self).budget() ==> self.resident() == old(self).resident()
                    && self.used_bytes == old(self).used(),
            decreases self.count(),
        {
            let fits = match self.used_bytes.checked_add(size) {
                Some(t) => t <= self.budget_bytes,
                None => false,
            };
            if fits {
                break;
            }
            match self.evict_one() {
                Ok(Some(_)) => {},
                Ok(None) => {
                    return Err(StoreError::PoolFull);
                },
                Err(e) => {
                    return Err(e);
                },
            }
        }
        Ok(())
    }

    /// Makes `data` resident as page `page_id` once room is made for it, with `pin_count`
    /// pins, accessed once, at the next tick, dirty if `dirty`, with `reload_ns` as its
    /// reload cost; the bytes are accounted.
    fn make_resident(&mut self, page_id: PageId, data: Vec<u8>, pin_count: u16, dirty: bool, reload_ns: u32) -> (r: Result<(), StoreError>)
        requires
            old(self).wf(),
        ensures
            final(self).wf(),
            final(self).budget() == old(self).budget(),
            r is Ok ==> {
                &&& final(self).resident().contains_key(page_id)
                &&& final(self).resident()[page_id].data@ == data@
                &&& final(self).resident()[page_id].meta.pin_count == pin_count
                &&& final(self).resident()[page_id].meta.dirty == dirty
                &&& final(self).resident()[page_id].meta.access_count == 1
                &&& final(self).used() <= final(self).budget()
            },
            forall|k: PageId| k != page_id && #[trigger] final(self).resident().contains_key(k) ==> {
                &&& old(self).resident().contains_key(k)
                &&& final(self).resident()[k].data == old(self).resident()[k].data
                &&& final(self).resident()[k].meta.pin_count == old(self).resident()[k].meta.pin_count
            },
            old(self).used() + data@.len() <= old(self).budget() ==> r is Ok,
            r is Err ==> final(self).resident().dom().subset_of(old(self).resident().dom()),
    {
        let size = data.len();
        match self.make_room(size) {
            Ok(()) => {},
            Err(e) => {
                return Err(e);
            },
        }
        let tick = self.next_tick();
        let mut frame = Frame::new(page_id, data);
        frame.meta.pin_count = pin_count;
        frame.meta.access_count = 1;
        frame.meta.last_access_tick = tick;
        frame.meta.dirty = dirty;
        frame.meta.reload_cost_ns = reload_ns;
        self.used_bytes = self.used_bytes + size;
        self.metrics.update_peak(self.used_bytes as u64);
        let ghost m0 = self.resident();
        let ghost ids0 = self.ids@;
        let _ = frames_insert(&mut self.frames, page_id, frame);
        proof {
            lemma_sizes_nonneg(ids0, m0);
            assert(forall|k: PageId| #[trigger] ids0.contains(k) <==> m0.contains_key(k));
            if ids0.contains(page_id) {
                lemma_sizes_update(ids0, m0, page_id, frame);
                assert(m0.insert(page_id, frame).dom() =~= m0.dom());
            } else {
                lemma_sizes_update(ids0, m0, page_id, frame);
                let ids1 = ids0.push(page_id);
                assert(ids1.drop_last() =~= ids0);
                assert(sizes_sum(ids1, m0.insert(page_id, frame)) == sizes_sum(ids0, m0.insert(page_id, frame)) + size);
                self.ids@ = ids1;
                assert forall|k: PageId| #[trigger] self.ids@.contains(k) <==> frames_view(self.frames).contains_key(k) by {
                    if self.ids@.contains(k) && k != page_id {
                        let j = choose|j: int| 0 <= j < ids1.len() && ids1[j] == k;
                        assert(ids0[j] == k);
                        assert(ids0.contains(k));
                        assert(m0.contains_key(k));
                    }
                    if frames_view(self.frames).contains_key(k) {
                        if k == page_id {
                            assert(ids1[ids0.len() as int] == k);
                        } else {
                            assert(ids0.contains(k));
                            let j = choose|j: int| 0 <= j < ids0.len() && ids0[j] == k;
                            assert(ids1[j] == k);
                        }
                    }
                }
                assert(self.ids@.no_duplicates()) by {
                    assert forall|a: int, b: int| 0 <= a < b < ids1.len() implies ids1[a] != ids1[b] by {
                        if b == ids0.len() {
                            assert(ids0.contains(ids1[a]));
                        }
                    }
                }
            }
        }
        self.eviction.on_insert(page_id);
        Ok(())
    }

    /// Reads a page that is not resident from the store, timing the read; its size is
    /// counted as read.
    fn load(&mut self, page_id: PageId) -> (r: Result<(Vec<u8>, u32), StoreError>)
        requires
            old(self).wf(),
        ensures
            final(self).wf(),
            final(self).resident() == old(self).resident(),
            final(self).used() == old(self).used(),
            final(self).budget() == old(self).budget(),
            r matches Ok((buf, _)) ==> final(self).stats() == (BufferPoolMetrics {
                misses: wrap_add(old(self).stats().misses, 1),
                bytes_read: wrap_add(old(self).stats().bytes_read, buf@.len() as u64),
                ..old(self).stats()
            }),
            r is Err ==> final(self).stats() == (BufferPoolMetrics { misses: wrap_add(old(self).stats().misses, 1), ..old(self).stats() }),
    {
        self.metrics.record_miss();
        let mut buf: Vec<u8> = Vec::new();
        let t0 = instant_now();
        match self.store.read_page(page_id, &mut buf) {
            Ok(_) => {},
            Err(e) => {
                return Err(e);
            },
        }
        let ns = elapsed_nanos(&t0);
        let load_ns: u32 = if ns > 0xffff_ffffu128 { 0xffff_ffffu32 } else { ns as u32 };
        self.metrics.record_bytes_read(buf.len() as u64);
        Ok((buf, load_ns))
    }

    /// Pins a resident page: one more pin, one more access, at the next tick.
    fn pin_resident(&mut self, page_id: PageId) -> (r: Option<Vec<u8>>)
        requires
            old(self).wf(),
            old(self).resident().contains_key(page_id) ==> old(self).resident()[page_id].meta.pin_count < u16::MAX,
        ensures
            final(self).wf(),
            final(self).used() == old(self).used(),
            final(self).budget() == old(self).budget(),
            final(self).resident().dom() == old(self).resident().dom(),
            r is Some <==> old(self).resident().contains_key(page_id),
            r matches Some(d) ==> {
                &&& d@ == old(self).resident()[page_id].data@
                &&& final(self).resident()[page_id].meta.pin_count == old(self).resident()[page_id].meta.pin_count + 1
            },
            forall|k: PageId| #[trigger] final(self).resident().contains_key(k) ==> {
                &&& final(self).resident()[k].data == old(self).resident()[k].data
                &&& k != page_id ==> final(self).resident()[k].meta.pin_count == old(self).resident()[k].meta.pin_count
            },
    {
        let ghost m0 = self.resident();
        match frames_remove(&mut self.frames, page_id) {
            Some((_, f)) => {
                let tick = self.next_tick();
                let Frame { data, meta } = f;
                let mut meta = meta;
                meta.pin_count = meta.pin_count + 1;
                meta.access_count = meta.access_count.wrapping_add(1);
                meta.last_access_tick = tick;
                let copy = vstd::slice::slice_to_vec(data.as_slice());
                let nf = Frame { data, meta };
                let _ = frames_insert(&mut self.frames, page_id, nf);
                proof {
                    assert(m0.remove(page_id).insert(page_id, nf) =~= m0.insert(page_id, nf));
                    lemma_reinsert(self.ids@, m0, page_id, nf, self.used_bytes as int);
                }
                self.metrics.record_hit();
                self.eviction.on_access(page_id);
                Some(copy)
            },
            None => {
                proof {
                    assert(m0.remove(page_id) =~= m0);
                }
                None
            },
        }
    }

    /// Pins a page for reading. A resident page gets one more pin; otherwise it is read
    /// from the store, room is made for it by eviction, and it becomes resident with one
    /// pin. The guard holds the page's bytes. Fails when the store fails or no room can
    /// be made; pages of others keep their pins and bytes.
    pub fn pin(&mut self, page_id: PageId) -> (r: Result<PinGuard, StoreError>)
        requires
            old(self).wf(),
            old(self).resident().contains_key(page_id) ==> old(self).resident()[page_id].meta.pin_count < u16::MAX,
        ensures
            final(self).wf(),
            final(self).budget() == old(self).budget(),
            r matches Ok(g) ==> {
                &&& g.id() == page_id
                &&& final(self).resident().contains_key(page_id)
                &&& g.bytes() == final(self).resident()[page_id].data@
            },
            r is Ok && old(self).resident().contains_key(page_id) ==> {
                &&& final(self).resident()[page_id].meta.pin_count == old(self).resident()[page_id].meta.pin_count + 1
                &&& final(self).resident()[page_id].data == old(self).resident()[page_id].data
                &&& final(self).used() == old(self).used()
            },
            r is Ok && !old(self).resident().contains_key(page_id) ==> {
                &&& final(self).resident()[page_id].meta.pin_count == 1
                &&& final(self).used() <= final(self).budget()
            },
            forall|k: PageId| k != page_id && #[trigger] final(self).resident().contains_key(k) ==> {
                &&& old(self).resident().contains_key(k)
                &&& final(self).resident()[k].data == old(self).resident()[k].data
                &&& final(self).resident()[k].meta.pin_count == old(self).resident()[k].meta.pin_count
            },
            old(self).resident().contains_key(page_id) ==> r is Ok,
    {
        match self.pin_resident(page_id) {
            Some(copy) => {
                return Ok(PinGuard::new(page_id, copy));
            },
            None => {},
        }
        let (buf, load_ns) = match self.load(page_id) {
            Ok(v) => v,
            Err(e) => {
                return Err(e);
            },
        };
        let copy = vstd::slice::slice_to_vec(buf.as_slice());
        match self.make_resident(page_id, buf, 1, false, load_ns) {
            Ok(()) => Ok(PinGuard::new(page_id, copy)),
            Err(e) => Err(e),
        }
    }

    /// Pins a page for writing, as `pin` does for reading; the guard's bytes are stored
    /// back by `release_mut`.
    pub fn pin_mut(&mut self, page_id: PageId) -> (r: Result<PinMutGuard, StoreError>)
        requires
            old(self).wf(),
            old(self).resident().contains_key(page_id) ==> old(self).resident()[page_id].meta.pin_count < u16::MAX,
        ensures
            final(self).wf(),
            final(self).budget() == old(self).budget(),
            r matches Ok(g) ==> {
                &&& g.id() == page_id
                &&& final(self).resident().contains_key(page_id)
                &&& g.bytes() == final(self).resident()[page_id].data@
            },
            r is Ok && old(self).resident().contains_key(page_id) ==> {
                &&& final(self).resident()[page_id].meta.pin_count == old(self).resident()[page_id].meta.pin_count + 1
                &&& final(self).resident()[page_id].data == old(self).resident()[page_id].data
                &&& final(self).used() == old(self).used()
            },
            r is Ok && !old(self).resident().contains_key(page_id) ==> {
                &&& final(self).resident()[page_id].meta.pin_count == 1
                &&& final(self).used() <= final(self).budget()
            },
            forall|k: PageId| k != page_id && #[trigger] final(self).resident().contains_key(k) ==> {
                &&& old(self).resident().contains_key(k)
                &&& final(self).resident()[k].data == old(self).resident()[k].data
                &&& final(self).resident()[k].meta.pin_count == old(self).resident()[k].meta.pin_count
            },
            old(self).resident().contains_key(page_id) ==> r is Ok,
    {
        match self.pin_resident(page_id) {
            Some(copy) => {
                return Ok(PinMutGuard::new(page_id, copy));
            },
            None => {},
        }
        let (buf, load_ns) = match self.load(page_id) {
            Ok(v) => v,
            Err(e) => {
                return Err(e);
            },
        };
        let copy = vstd::slice::slice_to_vec(buf.as_slice());
        match self.make_resident(page_id, buf, 1, false, load_ns) {
            Ok(()) => Ok(PinMutGuard::new(page_id, copy)),
            Err(e) => Err(e),
        }
    }

    /// Makes a newly created page resident, unpinned and dirty (so that it is written to
    /// the store when it leaves), once room is made for it by eviction.
    pub fn insert_page(&mut self, page_id: PageId, data: Vec<u8>) -> (r: Result<(), StoreError>)
        requires
            old(self).wf(),
        ensures
            final(self).wf(),
            final(self).budget() == old(self).budget(),
            r is Ok ==> {
                &&& final(self).resident().contains_key(page_id)
                &&& final(self).resident()[page_id].data@ == data@
                &&& final(self).resident()[page_id].meta.pin_count == 0
                &&& final(self).resident()[page_id].meta.dirty
                &&& final(self).used() <= final(self).budget()
            },
            forall|k: PageId| k != page_id && #[trigger] final(self).resident().contains_key(k) ==> {
                &&& old(self).resident().contains_key(k)
                &&& final(self).resident()[k].data == old(self).resident()[k].data
                &&& final(self).resident()[k].meta.pin_count == old(self).resident()[k].meta.pin_count
            },
            old(self).used() + data@.len() <= old(self).budget() ==> r is Ok,
            r is Err ==> final(self).resident().dom().subset_of(old(self).resident().dom()),
            r is Err && !old(self).resident().contains_key(page_id) ==> !final(self).resident().contains_key(page_id),
    {
        self.make_resident(page_id, data, 0, true, 50_000)
    }

    /// One pin fewer on a resident page (none below zero); nothing for an absent page.
    pub fn unpin(&mut self, page_id: PageId)
        requires
            old(self).wf(),
        ensures
            final(self).wf(),
            final(self).budget() == old(self).budget(),
            final(self).used() == old(self).used(),
            final(self).resident().dom() == old(self).resident().dom(),
            old(self).resident().contains_key(page_id) ==> final(self).resident()[page_id].meta.pin_count == (
                if old(self).resident()[page_id].meta.pin_count > 0 { old(self).resident()[page_id].meta.pin_count - 1 } else { 0 }),
            forall|k: PageId| #[trigger] final(self).resident().contains_key(k) ==> {
                &&& final(self).resident()[k].data == old(self).resident()[k].data
                &&& final(self).resident()[k].meta.dirty == old(self).resident()[k].meta.dirty
                &&& k != page_id ==> final(self).resident()[k].meta.pin_count == old(self).resident()[k].meta.pin_count
            },
    {
        let ghost m0 = self.resident();
        match frames_remove(&mut self.frames, page_id) {
            Some((_, f)) => {
                let Frame { data, meta } = f;
                let mut meta = meta;
                meta.pin_count = if meta.pin_count > 0 { meta.pin_count - 1 } else { 0 };
                let nf = Frame { data, meta };
                let _ = frames_insert(&mut self.frames, page_id, nf);
                proof {
                    assert(m0.remove(page_id).insert(page_id, nf) =~= m0.insert(page_id, nf));
                    lemma_reinsert(self.ids@, m0, page_id, nf, self.used_bytes as int);
                }
            },
            None => {
                proof {
                    assert(m0.remove(page_id) =~= m0);
                }
            },
        }
    }

    /// Marks a resident page dirty; nothing for an absent page.
    pub fn mark_dirty(&mut self, page_id: PageId)
        requires
            old(self).wf(),
        ensures
            final(self).wf(),
            final(self).budget() == old(self).budget(),
            final(self).used() == old(self).used(),
            final(self).resident().dom() == old(self).resident().dom(),
            old(self).resident().contains_key(page_id) ==> final(self).resident()[page_id].meta.dirty,
            forall|k: PageId| #[trigger] final(self).resident().contains_key(k) ==> {
                &&& final(self).resident()[k].data == old(self).resident()[k].data
                &&& final(self).resident()[k].meta.pin_count == old(self).resident()[k].meta.pin_count
                &&& k != page_id ==> final(self).resident()[k].meta.dirty == old(self).resident()[k].meta.dirty
            },
    {
        let ghost m0 = self.resident();
        match frames_remove(&mut self.frames, page_id) {
            Some((_, f)) => {
                let Frame { data, meta } = f;
                let mut meta = meta;
                meta.dirty = true;
                let nf = Frame { data, meta };
                let _ = frames_insert(&mut self.frames, page_id, nf);
                proof {
                    assert(m0.remove(page_id).insert(page_id, nf) =~= m0.insert(page_id, nf));
                    lemma_reinsert(self.ids@, m0, page_id, nf, self.used_bytes as int);
                }
            },
            None => {
                proof {
                    assert(m0.remove(page_id) =~= m0);
                }
            },
        }
    }

    /// Records the predicted access probability of a resident page, as the bit pattern of
    /// an IEEE 754 single; nothing for an absent page.
    pub fn set_predicted_prob_bits(&mut self, page_id: PageId, bits: u32)
        requires
            old(self).wf(),
        ensures
            final(self).wf(),
            final(self).budget() == old(self).budget(),
            final(self).used() == old(self).used(),
            final(self).resident().dom() == old(self).resident().dom(),
            old(self).resident().contains_key(page_id) ==> final(self).resident()[page_id].meta.predicted_access_prob_bits == bits,
            forall|k: PageId| #[trigger] final(self).resident().contains_key(k) ==> {
                &&& final(self).resident()[k].data == old(self).resident()[k].data
                &&& final(self).resident()[k].meta.pin_count == old(self).resident()[k].meta.pin_count
                &&& final(self).resident()[k].meta.dirty == old(self).resident()[k].meta.dirty
            },
    {
        let ghost m0 = self.resident();
        match frames_remove(&mut self.frames, page_id) {
            Some((_, f)) => {
                let Frame { data, meta } = f;
                let mut meta = meta;
                meta.predicted_access_prob_bits = bits;
                let nf = Frame { data, meta };
                let _ = frames_insert(&mut self.frames, page_id, nf);
                proof {
                    assert(m0.remove(page_id).insert(page_id, nf) =~= m0.insert(page_id, nf));
                    lemma_reinsert(self.ids@, m0, page_id, nf, self.used_bytes as int);
                }
            },
            None => {
                proof {
                    assert(m0.remove(page_id) =~= m0);
                }
            },
        }
    }

    /// Gives back the pin of a page pinned for reading.
    pub fn release(&mut self, guard: PinGuard)
        requires
            old(self).wf(),
        ensures
            final(self).wf(),
            final(self).budget() == old(self).budget(),
            final(self).used() == old(self).used(),
            final(self).resident().dom() == old(self).resident().dom(),
            old(self).resident().contains_key(guard.id()) ==> final(self).resident()[guard.id()].meta.pin_count == (
                if old(self).resident()[guard.id()].meta.pin_count > 0 {
                    old(self).resident()[guard.id()].meta.pin_count - 1
                } else {
                    0
                }),
    {
        self.unpin(guard.page_id());
    }

    /// Stores the bytes of a page pinned for writing back into its frame (when it is
    /// resident with the same length), marks it dirty and gives back the pin.
    pub fn release_mut(&mut self, guard: PinMutGuard)
        requires
            old(self).wf(),
        ensures
            final(self).wf(),
            final(self).budget() == old(self).budget(),
            final(self).used() == old(self).used(),
            final(self).resident().dom() == old(self).resident().dom(),
            old(self).resident().contains_key(guard.id()) ==> {
                &&& final(self).resident()[guard.id()].meta.dirty
                &&& old(self).resident()[guard.id()].data@.len() == guard.bytes().len()
                    ==> final(self).resident()[guard.id()].data@ == guard.bytes()
                &&& final(self).resident()[guard.id()].meta.pin_count == (
                    if old(self).resident()[guard.id()].meta.pin_count > 0 {
                        old(self).resident()[guard.id()].meta.pin_count - 1
                    } else {
                        0
                    })
            },
    {
        let (page_id, bytes) = guard.into_parts();
        let ghost m0 = self.resident();
        match frames_remove(&mut self.frames, page_id) {
            Some((_, f)) => {
                let Frame { data, meta } = f;
                let mut meta = meta;
                meta.dirty = true;
                meta.pin_count = if meta.pin_count > 0 { meta.pin_count - 1 } else { 0 };
                let nf = if data.len() == bytes.len() {
                    Frame { data: bytes, meta }
                } else {
                    Frame { data, meta }
                };
                let _ = frames_insert(&mut self.frames, page_id, nf);
                proof {
                    assert(m0.remove(page_id).insert(page_id, nf) =~= m0.insert(page_id, nf));
                    lemma_reinsert(self.ids@, m0, page_id, nf, self.used_bytes as int);
                }
            },
            None => {
                proof {
                    assert(m0.remove(page_id) =~= m0);
                }
            },
        }
    }
}

/// The accounted bytes plus `size` fit the budget.
pub open spec fn r_ok_fits(used: usize, size: usize, budget: usize) -> bool {
    used + size <= budget
}

} // verus!
