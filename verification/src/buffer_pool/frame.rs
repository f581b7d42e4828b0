//! Frames of the buffer pool, and the handles of pinned pages.
use vstd::prelude::*;
use crate::types::{PageId, PageMeta};

verus! {

/// Metadata of a page that has just become resident: clean, unpinned, never accessed.
pub open spec fn is_fresh_meta(m: PageMeta, page_id: PageId, size_bytes: u32) -> bool {
    &&& m.page_id == page_id
    &&& m.size_bytes == size_bytes
    &&& !m.dirty
    &&& m.pin_count == 0
    &&& m.last_access_tick == 0
    &&& m.access_count == 0
    &&& m.predicted_access_prob_bits == 0
    &&& m.traversal_depth == 0
    &&& m.reload_cost_ns == 0
    &&& m.recompute_cost_ns == 0
    &&& m.parent_page is None
}

/// A resident page: its bytes and its metadata.
pub struct Frame {
    pub data: Vec<u8>,
    pub meta: PageMeta,
}

impl Frame {
    /// A frame holding `data` as page `page_id`, with fresh metadata of its size.
    pub fn new(page_id: PageId, data: Vec<u8>) -> (f: Self)
        ensures
            f.data@ == data@,
            is_fresh_meta(f.meta, page_id, data@.len() as u32),
    {
        let size = data.len() as u32;
        Frame { data, meta: PageMeta::new(page_id, size) }
    }
}

/// A page pinned for reading: its id and its bytes as they were when it was pinned. The
/// pin is given back with `BufferPool::release`.
pub struct PinGuard {
    page_id: PageId,
    data: Vec<u8>,
}

impl PinGuard {
    /// The id of the pinned page.
    pub closed spec fn id(&self) -> PageId {
        self.page_id
    }

    /// The bytes of the pinned page.
    pub closed spec fn bytes(&self) -> Seq<u8> {
        self.data@
    }

    pub(crate) fn new(page_id: PageId, data: Vec<u8>) -> (g: Self)
        ensures
            g.id() == page_id,
            g.bytes() == data@,
    {
        PinGuard { page_id, data }
    }

    pub fn page_id(&self) -> (r: PageId)
        ensures
            r == self.id(),
    {
        self.page_id
    }

    /// The bytes of the pinned page.
    pub fn as_slice(&self) -> (r: &[u8])
        ensures
            r@ == self.bytes(),
    {
        self.data.as_slice()
    }
}

/// A page pinned for writing: its id and its bytes, which may be overwritten in place;
/// `BufferPool::release_mut` stores them back into the frame, marks the page dirty and
/// gives the pin back.
pub struct PinMutGuard {
    page_id: PageId,
    data: Vec<u8>,
}

impl PinMutGuard {
    /// The id of the pinned page.
    pub closed spec fn id(&self) -> PageId {
        self.page_id
    }

    /// The bytes of the pinned page, with the writes made so far.
    pub closed spec fn bytes(&self) -> Seq<u8> {
        self.data@
    }

    pub(crate) fn new(page_id: PageId, data: Vec<u8>) -> (g: Self)
        ensures
            g.id() == page_id,
            g.bytes() == data@,
    {
        PinMutGuard { page_id, data }
    }

    pub fn page_id(&self) -> (r: PageId)
        ensures
            r == self.id(),
    {
        self.page_id
    }

    /// The bytes of the pinned page.
    pub fn as_slice(&self) -> (r: &[u8])
        ensures
            r@ == self.bytes(),
    {
        self.data.as_slice()
    }

    /// Overwrites the bytes from `offset` on with `src`; the page keeps its length.
    pub fn write(&mut self, offset: usize, src: &[u8])
        requires
            offset + src@.len() <= old(self).bytes().len(),
        ensures
            final(self).id() == old(self).id(),
            final(self).bytes().len() == old(self).bytes().len(),
            forall|i: int| 0 <= i < old(self).bytes().len() ==> #[trigger] final(self).bytes()[i] == (
                if offset <= i < offset + src@.len() { src@[i - offset] } else { old(self).bytes()[i] }),
    {
        let mut k: usize = 0;
        while k < src.len()
            invariant
                offset + src@.len() <= self.data@.len(),
                self.page_id == old(self).page_id,
                self.data@.len() == old(self).data@.len(),
                k <= src@.len(),
                forall|i: int| 0 <= i < old(self).data@.len() ==> #[trigger] self.data@[i] == (
                    if offset <= i < offset + k { src@[i - offset] } else { old(self).data@[i] }),
            decreases src@.len() - k,
        {
            let n = self.data.len();
            assert(offset + k < n);
            self.data.set(offset + k, src[k]);
            k += 1;
        }
    }

    /// The id and the bytes, for storing back.
    pub(crate) fn into_parts(self) -> (r: (PageId, Vec<u8>))
        ensures
            r.0 == self.id(),
            r.1@ == self.bytes(),
    {
        (self.page_id, self.data)
    }
}

} // verus!
