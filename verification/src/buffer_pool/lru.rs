//! Least-recently-used eviction.
use vstd::prelude::*;
use std::collections::HashMap;
use crate::types::{PageId, PageMeta};
use super::policy::EvictionPolicy;

verus! {

broadcast use vstd::std_specs::hash::group_hash_axioms;

/// A frame that least-recently-used eviction may choose: unpinned, with a recorded
/// access time below the largest value.
pub open spec fn lru_candidate(times: Map<PageId, u64>, f: (PageId, PageMeta)) -> bool {
    f.1.pin_count == 0 && times.contains_key(f.0) && times[f.0] < u64::MAX
}

/// What least-recently-used eviction chooses: `None` when no frame is a candidate,
/// else the first candidate frame whose access time is the smallest.
pub open spec fn lru_victim(times: Map<PageId, u64>, frames: Seq<(PageId, PageMeta)>, r: Option<PageId>) -> bool {
    &&& r is None <==> forall|i: int| 0 <= i < frames.len() ==> !lru_candidate(times, #[trigger] frames[i])
    &&& r matches Some(v) ==> exists|k: int| {
        &&& 0 <= k < frames.len()
        &&& #[trigger] frames[k].0 == v
        &&& lru_candidate(times, frames[k])
        &&& forall|j: int| 0 <= j < frames.len() && lru_candidate(times, #[trigger] frames[j])
            ==> times[v] <= times[frames[j].0]
        &&& forall|j: int| 0 <= j < k && lru_candidate(times, #[trigger] frames[j])
            ==> times[v] < times[frames[j].0]
    }
}

/// Evicts the unpinned page whose last access is oldest; the first such frame wins a tie.
pub struct LruPolicy {
    clock: u64,
    last_access: HashMap<PageId, u64>,
}

impl LruPolicy {
    /// The logical clock, advanced by every access and insertion (wrapping at the top).
    pub closed spec fn clock_view(&self) -> u64 {
        self.clock
    }

    /// The clock value of each page's last access or insertion.
    pub closed spec fn times(&self) -> Map<PageId, u64> {
        self.last_access@
    }

    /// No page recorded, clock at zero.
    pub fn new() -> (r: Self)
        ensures
            r.clock_view() == 0,
            r.times() == Map::<PageId, u64>::empty(),
    {
        LruPolicy { clock: 0, last_access: HashMap::new() }
    }

    fn touch(&mut self, id: PageId)
        ensures
            final(self).clock_view() == vstd::wrapping::u64_specs::wrapping_add(old(self).clock_view(), 1),
            final(self).times() == old(self).times().insert(id, final(self).clock_view()),
    {
        self.clock = self.clock.wrapping_add(1);
        self.last_access.insert(id, self.clock);
    }

    /// The first candidate frame with the oldest access time, or `None` if there is no
    /// candidate.
    fn oldest(&self, frames: &[(PageId, PageMeta)]) -> (r: Option<PageId>)
        ensures
            lru_victim(self.times(), frames@, r),
    {
        let mut min_time: u64 = u64::MAX;
        let mut victim: Option<PageId> = None;
        let ghost mut vk: int = 0;
        let mut i: usize = 0;
        while i < frames.len()
            invariant
                i <= frames@.len(),
                victim is None ==> min_time == u64::MAX
                    && forall|j: int| 0 <= j < i ==> !lru_candidate(self.times(), #[trigger] frames@[j]),
                victim matches Some(v) ==> {
                    &&& 0 <= vk < i
                    &&& frames@[vk].0 == v
                    &&& lru_candidate(self.times(), frames@[vk])
                    &&& self.times()[v] == min_time
                    &&& forall|j: int| 0 <= j < i && lru_candidate(self.times(), #[trigger] frames@[j])
                        ==> min_time <= self.times()[frames@[j].0]
                    &&& forall|j: int| 0 <= j < vk && lru_candidate(self.times(), #[trigger] frames@[j])
                        ==> min_time < self.times()[frames@[j].0]
                },
            decreases frames@.len() - i,
        {
            let id = frames[i].0;
            if frames[i].1.pin_count == 0 {
                match self.last_access.get(&id) {
                    Some(t) => {
                        let time = *t;
                        if time < min_time {
                            proof {
                                vk = i as int;
                            }
                            min_time = time;
                            victim = Some(id);
                        }
                    },
                    None => {},
                }
            }
            i += 1;
        }
        proof {
            if let Some(v) = victim {
                assert(frames@[vk].0 == v);
            }
        }
        victim
    }
}

impl Default for LruPolicy {
    fn default() -> (r: Self)
        ensures
            r.clock_view() == 0,
            r.times() == Map::<PageId, u64>::empty(),
    {
        LruPolicy::new()
    }
}

impl EvictionPolicy for LruPolicy {
    /// Records the access at the next clock value.
    fn on_access(&mut self, id: PageId)
        ensures
            final(self).clock_view() == vstd::wrapping::u64_specs::wrapping_add(old(self).clock_view(), 1),
            final(self).times() == old(self).times().insert(id, final(self).clock_view()),
    {
        self.touch(id);
    }

    /// Records the insertion at the next clock value.
    fn on_insert(&mut self, id: PageId)
        ensures
            final(self).clock_view() == vstd::wrapping::u64_specs::wrapping_add(old(self).clock_view(), 1),
            final(self).times() == old(self).times().insert(id, final(self).clock_view()),
    {
        self.touch(id);
    }

    /// Forgets the page.
    fn on_evict(&mut self, id: PageId)
        ensures
            final(self).clock_view() == old(self).clock_view(),
            final(self).times() == old(self).times().remove(id),
    {
        self.last_access.remove(&id);
    }

    /// The first unpinned frame with the oldest recorded access.
    fn pick_victim(&self, frames: &[(PageId, PageMeta)]) -> (r: Option<PageId>)
        ensures
            lru_victim(self.times(), frames@, r),
    {
        self.oldest(frames)
    }
}

} // verus!
