//! Packing filtered transactions into fixed-size pages, and the directory that finds them.
use vstd::prelude::*;
use crate::types::PageId;
use crate::storage::{ChunkStore, StoreError};
use crate::storage::page_layout::PageFlags;
use crate::storage::le_bytes::{spec_u32_le, spec_i64_le, push_u32_le, push_i64_le, push_all, lemma_le_lengths};
use crate::types::ItemEntry;
use super::twu_filter::FilteredTransaction;

verus! {

/// The transactions with ids `start_tid..=end_tid` are stored on page `page_id`.
#[derive(Debug, Clone, Copy, PartialEq, Eq, Structural)]
pub struct PageDirectoryEntry {
    pub start_tid: u32,
    pub end_tid: u32,
    pub page_id: PageId,
    pub byte_offset: u32,
}

/// Entries ordered by strictly increasing `start_tid`, one per start.
pub open spec fn dir_sorted(s: Seq<PageDirectoryEntry>) -> bool {
    forall|i: int, j: int| 0 <= i < j < s.len() ==> s[i].start_tid < s[j].start_tid
}

/// The entry that starts at `start`, if any.
pub open spec fn dir_lookup(s: Seq<PageDirectoryEntry>, start: u32) -> Option<PageDirectoryEntry> {
    if exists|i: int| 0 <= i < s.len() && (#[trigger] s[i]).start_tid == start {
        let i = choose|i: int| 0 <= i < s.len() && (#[trigger] s[i]).start_tid == start;
        Some(s[i])
    } else {
        None
    }
}

/// Finds, for a transaction id, the page that holds it.
#[derive(Debug)]
pub struct PageDirectory {
    entries: Vec<PageDirectoryEntry>,
}

impl PageDirectory {
    /// The entries, ordered by start.
    pub closed spec fn view(&self) -> Seq<PageDirectoryEntry> {
        self.entries@
    }

    #[verifier::type_invariant]
    spec fn inv(&self) -> bool {
        dir_sorted(self.entries@)
    }

    /// An empty directory.
    pub fn new() -> (r: Self)
        ensures
            r.view().len() == 0,
    {
        PageDirectory { entries: Vec::new() }
    }

    /// Records `entry`, replacing any entry with the same start.
    pub fn add(&mut self, entry: PageDirectoryEntry)
        ensures
            dir_sorted(final(self).view()),
            forall|k: u32| #[trigger] dir_lookup(final(self).view(), k)
                == if k == entry.start_tid { Some(entry) } else { dir_lookup(old(self).view(), k) },
    {
        proof {
            use_type_invariant(&*self);
        }
        let ghost old_s = self.entries@;
        let mut p: usize = 0;
        while p < self.entries.len() && self.entries[p].start_tid < entry.start_tid
            invariant
                old_s == self.entries@,
                p <= old_s.len(),
                forall|i: int| 0 <= i < p ==> (#[trigger] old_s[i]).start_tid < entry.start_tid,
            decreases old_s.len() - p,
        {
            p += 1;
        }
        let mut entries: Vec<PageDirectoryEntry> = Vec::new();
        std::mem::swap(&mut entries, &mut self.entries);
        let replace = p < entries.len() && entries[p].start_tid == entry.start_tid;
        if replace {
            entries.set(p, entry);
        } else {
            entries.insert(p, entry);
        }
        proof {
            let s = entries@;
            assert(dir_sorted(s)) by {
                assert forall|i: int, j: int| 0 <= i < j < s.len() implies s[i].start_tid < s[j].start_tid by {
                    if replace {
                        if i != p && j != p {
                            assert(s[i] == old_s[i] && s[j] == old_s[j]);
                        } else if i == p {
                            assert(s[j] == old_s[j]);
                        } else {
                            assert(s[i] == old_s[i]);
                        }
                    } else {
                        if i < p && j < p {
                            assert(s[i] == old_s[i] && s[j] == old_s[j]);
                        } else if i < p && j == p {
                            assert(s[i] == old_s[i]);
                        } else if i < p {
                            assert(s[i] == old_s[i] && s[j] == old_s[j - 1]);
                        } else if i == p {
                            assert(s[j] == old_s[j - 1]);
                            if j - 1 > p {
                                assert(old_s[p as int].start_tid < old_s[j - 1].start_tid);
                            }
                        } else {
                            assert(s[i] == old_s[i - 1] && s[j] == old_s[j - 1]);
                        }
                    }
                }
            }
            assert forall|k: u32| #[trigger] dir_lookup(s, k)
                == if k == entry.start_tid { Some(entry) } else { dir_lookup(old_s, k) } by {
                if k == entry.start_tid {
                    assert(s[p as int].start_tid == k);
                    lemma_lookup_at(s, p as int);
                } else {
                    if exists|i: int| 0 <= i < old_s.len() && (#[trigger] old_s[i]).start_tid == k {
                        let i = choose|i: int| 0 <= i < old_s.len() && (#[trigger] old_s[i]).start_tid == k;
                        lemma_lookup_at(old_s, i);
                        let ni = if replace || i < p { i } else { i + 1 };
                        assert(s[ni] == old_s[i]);
                        lemma_lookup_at(s, ni);
                    } else {
                        assert forall|i: int| 0 <= i < s.len() implies (#[trigger] s[i]).start_tid != k by {
                            if replace {
                                if i != p {
                                    assert(s[i] == old_s[i]);
                                }
                            } else if i < p {
                                assert(s[i] == old_s[i]);
                            } else if i > p {
                                assert(s[i] == old_s[i - 1]);
                            }
                        }
                    }
                }
            }
        }
        self.entries = entries;
    }

    /// The entry whose range holds `tid`: the one with the largest start at most `tid`,
    /// if `tid` is not past its end.
    pub fn find_page(&self, tid: u32) -> (r: Option<&PageDirectoryEntry>)
        ensures
            match r {
                Some(e) => exists|i: int| 0 <= i < self.view().len() && #[trigger] self.view()[i] == *e
                    && e.start_tid <= tid && tid <= e.end_tid
                    && (i + 1 == self.view().len() || self.view()[i + 1].start_tid > tid),
                None => forall|i: int| 0 <= i < self.view().len() && (#[trigger] self.view()[i]).start_tid <= tid
                    ==> ((i + 1 < self.view().len() && self.view()[i + 1].start_tid <= tid) || self.view()[i].end_tid < tid),
            },
    {
        proof {
            use_type_invariant(self);
        }
        let n = self.entries.len();
        let mut p: usize = 0;
        while p < n && self.entries[p].start_tid <= tid
            invariant
                n == self.entries@.len(),
                p <= n,
                forall|i: int| 0 <= i < p ==> (#[trigger] self.entries@[i]).start_tid <= tid,
            decreases n - p,
        {
            p += 1;
        }
        if p == 0 {
            return None;
        }
        let e = &self.entries[p - 1];
        if tid <= e.end_tid {
            proof {
                assert(self.view()[p - 1] == *e);
                assert(p - 1 + 1 == self.view().len() || self.view()[p - 1 + 1].start_tid > tid);
            }
            Some(e)
        } else {
            proof {
                assert forall|i: int| 0 <= i < n && (#[trigger] self.entries@[i]).start_tid <= tid implies
                    ((i + 1 < n && self.entries@[i + 1].start_tid <= tid) || self.entries@[i].end_tid < tid) by {
                    if i < p - 1 {
                        assert(self.entries@[i + 1].start_tid <= tid);
                    } else if i > p - 1 {
                        assert(self.entries@[p as int].start_tid <= self.entries@[i].start_tid);
                    }
                }
            }
            None
        }
    }

    /// Number of entries.
    pub fn entry_count(&self) -> (r: usize)
        ensures
            r == self.view().len(),
    {
        self.entries.len()
    }
}

proof fn lemma_lookup_at(s: Seq<PageDirectoryEntry>, i: int)
    requires
        dir_sorted(s),
        0 <= i < s.len(),
    ensures
        dir_lookup(s, s[i].start_tid) == Some(s[i]),
{
    let k = s[i].start_tid;
    assert(exists|j: int| 0 <= j < s.len() && (#[trigger] s[j]).start_tid == k);
    let j = choose|j: int| 0 <= j < s.len() && (#[trigger] s[j]).start_tid == k;
    if j != i {
        if j < i {
            assert(s[j].start_tid < s[i].start_tid);
        } else {
            assert(s[i].start_tid < s[j].start_tid);
        }
    }
}

} // verus!

verus! {

impl Default for PageDirectory {
    fn default() -> (r: Self)
        ensures
            r.view().len() == 0,
    {
        PageDirectory::new()
    }
}

/// The 16 bytes of one entry inside a page: item, four zero bytes, utility.
pub open spec fn spec_item_bytes(e: ItemEntry) -> Seq<u8> {
    spec_u32_le(e.item) + seq![0u8, 0u8, 0u8, 0u8] + spec_i64_le(e.utility)
}

/// The bytes of the entries, one after another.
pub open spec fn spec_items_bytes(s: Seq<ItemEntry>) -> Seq<u8>
    decreases s.len(),
{
    if s.len() == 0 { Seq::empty() } else { spec_items_bytes(s.drop_last()) + spec_item_bytes(s.last()) }
}

/// The bytes of one transaction inside a page: tid, transaction utility, item count, entries.
pub open spec fn spec_tx_bytes(tid: u32, tu: i64, items: Seq<ItemEntry>) -> Seq<u8> {
    spec_u32_le(tid) + spec_i64_le(tu) + spec_u32_le(items.len() as u32) + spec_items_bytes(items)
}

/// Packs transactions into pages of about `page_size_bytes` and records which page
/// holds which transactions. A page starts with the count of its transactions.
pub struct Chunker<'s, S: ChunkStore> {
    store: &'s S,
    page_size_bytes: usize,
    current_page_buf: Vec<u8>,
    current_page_id: PageId,
    current_page_start_tid: u32,
    current_page_end_tid: u32,
    tx_count_in_page: u32,
    directory: PageDirectory,
}

impl<'s, S: ChunkStore> Chunker<'s, S> {
    /// Bytes of the page being filled; its first four bytes are reserved for the count.
    pub closed spec fn buf(&self) -> Seq<u8> {
        self.current_page_buf@
    }

    /// The directory of the pages written so far.
    pub closed spec fn dir(&self) -> Seq<PageDirectoryEntry> {
        self.directory.view()
    }

    pub closed spec fn page_size(&self) -> usize {
        self.page_size_bytes
    }

    pub closed spec fn page_id(&self) -> PageId {
        self.current_page_id
    }

    pub closed spec fn count(&self) -> u32 {
        self.tx_count_in_page
    }

    pub closed spec fn start_tid(&self) -> u32 {
        self.current_page_start_tid
    }

    pub closed spec fn end_tid(&self) -> u32 {
        self.current_page_end_tid
    }

    /// The page buffer holds at least the reserved count bytes.
    pub closed spec fn wf(&self) -> bool {
        self.current_page_buf@.len() >= 4
    }

    /// A chunker writing to `store`, with a fresh page id from it.
    pub fn new(store: &'s S, page_size_bytes: usize) -> (r: Self)
        ensures
            r.buf() == seq![0u8, 0u8, 0u8, 0u8],
            r.page_size() == page_size_bytes,
            r.count() == 0,
            r.start_tid() == 0,
            r.end_tid() == 0,
            r.dir().len() == 0,
            r.wf(),
    {
        let page_id = store.next_page_id();
        let mut buf: Vec<u8> = Vec::new();
        buf.push(0u8);
        buf.push(0u8);
        buf.push(0u8);
        buf.push(0u8);
        Chunker {
            store,
            page_size_bytes,
            current_page_buf: buf,
            current_page_id: page_id,
            current_page_start_tid: 0,
            current_page_end_tid: 0,
            tx_count_in_page: 0,
            directory: PageDirectory::new(),
        }
    }

    /// The bytes of a filtered transaction.
    fn serialize_tx(tx: &FilteredTransaction) -> (r: Vec<u8>)
        ensures
            r@ == spec_tx_bytes(tx.tid, tx.transaction_utility, tx.items@),
    {
        let mut buf: Vec<u8> = Vec::new();
        push_u32_le(&mut buf, tx.tid);
        push_i64_le(&mut buf, tx.transaction_utility);
        push_u32_le(&mut buf, tx.items.len() as u32);
        let ghost head = buf@;
        let mut i: usize = 0;
        while i < tx.items.len()
            invariant
                i <= tx.items@.len(),
                buf@ == head + spec_items_bytes(tx.items@.take(i as int)),
            decreases tx.items@.len() - i,
        {
            let e = tx.items[i];
            push_u32_le(&mut buf, e.item);
            buf.push(0u8);
            buf.push(0u8);
            buf.push(0u8);
            buf.push(0u8);
            push_i64_le(&mut buf, e.utility);
            proof {
                let t = tx.items@.take(i + 1);
                assert(t.drop_last() =~= tx.items@.take(i as int));
                assert(buf@ =~= head + spec_items_bytes(t));
            }
            i += 1;
        }
        proof {
            assert(tx.items@.take(tx.items@.len() as int) =~= tx.items@);
        }
        buf
    }

    /// Appends a transaction to the current page, first writing the page out if it
    /// holds a transaction and the new one would not fit.
    pub fn add_transaction(&mut self, tx: &FilteredTransaction) -> (r: Result<(), StoreError>)
        requires
            old(self).wf(),
            old(self).count() < u32::MAX,
            old(self).buf().len() + spec_tx_bytes(tx.tid, tx.transaction_utility, tx.items@).len() <= usize::MAX,
        ensures
            ({
                let bytes = spec_tx_bytes(tx.tid, tx.transaction_utility, tx.items@);
                let flushing = old(self).count() > 0 && old(self).buf().len() + bytes.len() > old(self).page_size();
                let entry = PageDirectoryEntry {
                    start_tid: old(self).start_tid(),
                    end_tid: old(self).end_tid(),
                    page_id: old(self).page_id(),
                    byte_offset: 0,
                };
                &&& final(self).page_size() == old(self).page_size()
                &&& final(self).wf()
                &&& !flushing ==> r is Ok
                &&& r is Err ==> flushing && final(self).dir() == old(self).dir()
                    && final(self).count() == old(self).count()
                &&& r is Ok ==> {
                    &&& final(self).end_tid() == tx.tid
                    &&& if flushing {
                        &&& final(self).buf() == seq![0u8, 0u8, 0u8, 0u8] + bytes
                        &&& final(self).count() == 1
                        &&& final(self).start_tid() == tx.tid
                        &&& dir_sorted(final(self).dir())
                        &&& forall|k: u32| #[trigger] dir_lookup(final(self).dir(), k)
                            == if k == entry.start_tid { Some(entry) } else { dir_lookup(old(self).dir(), k) }
                    } else {
                        &&& final(self).buf() == old(self).buf() + bytes
                        &&& final(self).count() == old(self).count() + 1
                        &&& final(self).start_tid() == (if old(self).count() == 0 { tx.tid } else { old(self).start_tid() })
                        &&& final(self).dir() == old(self).dir()
                        &&& final(self).page_id() == old(self).page_id()
                    }
                }
            }),
    {
        let tx_bytes = Self::serialize_tx(tx);
        if self.tx_count_in_page > 0 && self.current_page_buf.len() + tx_bytes.len() > self.page_size_bytes {
            match self.flush_page() {
                Ok(()) => {},
                Err(e) => {
                    return Err(e);
                },
            }
        }
        if self.tx_count_in_page == 0 {
            self.current_page_start_tid = tx.tid;
        }
        self.current_page_end_tid = tx.tid;
        self.tx_count_in_page = self.tx_count_in_page + 1;
        let mut buf: Vec<u8> = Vec::new();
        std::mem::swap(&mut buf, &mut self.current_page_buf);
        push_all(&mut buf, tx_bytes.as_slice());
        self.current_page_buf = buf;
        Ok(())
    }

    /// Writes the current page (if it holds a transaction) with its count, records it in
    /// the directory, and starts a fresh page with a new id.
    pub fn flush_page(&mut self) -> (r: Result<(), StoreError>)
        requires
            old(self).wf(),
        ensures
            final(self).wf(),
            final(self).page_size() == old(self).page_size(),
            old(self).count() == 0 ==> r is Ok && final(self).buf() == old(self).buf()
                && final(self).count() == 0 && final(self).dir() == old(self).dir()
                && final(self).page_id() == old(self).page_id()
                && final(self).start_tid() == old(self).start_tid() && final(self).end_tid() == old(self).end_tid(),
            old(self).count() > 0 && r is Err ==> final(self).dir() == old(self).dir()
                && final(self).count() == old(self).count()
                && final(self).buf() == spec_u32_le(old(self).count()) + old(self).buf().skip(4),
            old(self).count() > 0 && r is Ok ==> {
                let entry = PageDirectoryEntry {
                    start_tid: old(self).start_tid(),
                    end_tid: old(self).end_tid(),
                    page_id: old(self).page_id(),
                    byte_offset: 0,
                };
                &&& final(self).buf() == seq![0u8, 0u8, 0u8, 0u8]
                &&& final(self).count() == 0
                &&& final(self).start_tid() == old(self).start_tid()
                &&& final(self).end_tid() == old(self).end_tid()
                &&& dir_sorted(final(self).dir())
                &&& forall|k: u32| #[trigger] dir_lookup(final(self).dir(), k)
                    == if k == entry.start_tid { Some(entry) } else { dir_lookup(old(self).dir(), k) }
            },
    {
        if self.tx_count_in_page == 0 {
            return Ok(());
        }
        let mut page: Vec<u8> = Vec::new();
        push_u32_le(&mut page, self.tx_count_in_page);
        let n = self.current_page_buf.len();
        push_all(&mut page, &self.current_page_buf.as_slice()[4..n]);
        proof {
            lemma_le_lengths();
        }
        self.current_page_buf = page;
        match self.store.write_page(self.current_page_id, self.current_page_buf.as_slice(), PageFlags::tx_chunk()) {
            Ok(()) => {},
            Err(e) => {
                proof {
                    assert(self.current_page_buf@ =~= spec_u32_le(old(self).count()) + old(self).buf().skip(4));
                }
                return Err(e);
            },
        }
        self.directory.add(PageDirectoryEntry {
            start_tid: self.current_page_start_tid,
            end_tid: self.current_page_end_tid,
            page_id: self.current_page_id,
            byte_offset: 0,
        });
        let new_page_id = self.store.next_page_id();
        self.current_page_id = new_page_id;
        let mut fresh: Vec<u8> = Vec::new();
        fresh.push(0u8);
        fresh.push(0u8);
        fresh.push(0u8);
        fresh.push(0u8);
        self.current_page_buf = fresh;
        self.tx_count_in_page = 0;
        Ok(())
    }

    /// The directory of the pages written so far.
    pub fn directory(&self) -> (r: &PageDirectory)
        ensures
            r.view() == self.dir(),
    {
        &self.directory
    }

    /// Writes any remaining page and returns the directory.
    pub fn finalize(self) -> (r: Result<PageDirectory, StoreError>)
        requires
            self.wf(),
        ensures
            r matches Ok(d) ==> dir_sorted(d.view()),
            self.count() == 0 ==> (r matches Ok(d) && d.view() == self.dir()),
            self.count() > 0 ==> (r matches Ok(d) ==> forall|k: u32| #[trigger] dir_lookup(d.view(), k)
                == if k == self.start_tid() {
                    Some(PageDirectoryEntry { start_tid: self.start_tid(), end_tid: self.end_tid(), page_id: self.page_id(), byte_offset: 0 })
                } else {
                    dir_lookup(self.dir(), k)
                }),
    {
        let mut this = self;
        match this.flush_page() {
            Ok(()) => {},
            Err(e) => {
                return Err(e);
            },
        }
        proof {
            use_type_invariant(&this.directory);
        }
        Ok(this.directory)
    }
}

} // verus!
