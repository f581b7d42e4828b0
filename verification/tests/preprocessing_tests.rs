use std::cell::{Cell, RefCell};
use std::collections::HashMap;
use pocket_huim::types::{ItemEntry, RawTransaction, PageId};
use pocket_huim::storage::{ChunkStore, StoreError, PageFlags};
use pocket_huim::preprocessing::db_reader::{DbReader, ParseError, parse_spmf_line};
use pocket_huim::preprocessing::twu_filter::{TwuFilter, FilteredTransaction};
use pocket_huim::preprocessing::chunker::{Chunker, PageDirectory, PageDirectoryEntry};
use pocket_huim::preprocessing::synthetic::{build_transaction, synthetic_transaction, SYNTHETIC_ITEMS};

struct MemStore {
    pages: RefCell<HashMap<PageId, Vec<u8>>>,
    next: Cell<PageId>,
}

impl MemStore {
    fn new() -> Self {
        MemStore { pages: RefCell::new(HashMap::new()), next: Cell::new(1) }
    }
}

impl ChunkStore for MemStore {
    fn write_page(&self, id: PageId, data: &[u8], _flags: PageFlags) -> Result<(), StoreError> {
        self.pages.borrow_mut().insert(id, data.to_vec());
        Ok(())
    }
    fn read_page(&self, id: PageId, buf: &mut Vec<u8>) -> Result<PageFlags, StoreError> {
        match self.pages.borrow().get(&id) {
            Some(p) => {
                buf.clear();
                buf.extend_from_slice(p);
                Ok(PageFlags::empty())
            }
            None => Err(StoreError::Io),
        }
    }
    fn delete_page(&self, id: PageId) -> Result<(), StoreError> {
        self.pages.borrow_mut().remove(&id);
        Ok(())
    }
    fn page_exists(&self, id: PageId) -> bool {
        self.pages.borrow().contains_key(&id)
    }
    fn page_byte_size(&self, id: PageId) -> Option<u64> {
        self.pages.borrow().get(&id).map(|p| p.len() as u64)
    }
    fn next_page_id(&self) -> PageId {
        let id = self.next.get();
        self.next.set(id + 1);
        id
    }
}

fn read_all(data: &str) -> Vec<Result<RawTransaction, ParseError>> {
    let mut reader = DbReader::new(data.as_bytes().to_vec());
    let mut out = Vec::new();
    while let Some(r) = reader.next() {
        out.push(r);
    }
    out
}

fn tx(tid: u32, tu: i64, items: &[(u32, i64)]) -> RawTransaction {
    RawTransaction {
        tid,
        transaction_utility: tu,
        items: items.iter().map(|(item, util)| ItemEntry { item: *item, utility: *util }).collect(),
    }
}

fn filtered_tx(tid: u32, tu: i64, items: &[(u32, i64)]) -> FilteredTransaction {
    FilteredTransaction {
        tid,
        transaction_utility: tu,
        items: items.iter().map(|(item, util)| ItemEntry { item: *item, utility: *util }).collect(),
    }
}

#[test]
fn parse_simple_transaction() {
    let data = "1 3 5:100:30 10 60\n";
    let mut reader = DbReader::new(data.as_bytes().to_vec());
    let tx = reader.next().unwrap().unwrap();
    assert_eq!(tx.tid, 0);
    assert_eq!(tx.transaction_utility, 100);
    assert_eq!(tx.items.len(), 3);
    assert_eq!(tx.items[0].item, 1); assert_eq!(tx.items[0].utility, 30);
    assert_eq!(tx.items[1].item, 3); assert_eq!(tx.items[1].utility, 10);
    assert_eq!(tx.items[2].item, 5); assert_eq!(tx.items[2].utility, 60);
}

#[test]
fn skip_blank_lines_and_comments() {
    let data = "\n# comment\n2 4:50:20 30\n";
    let mut reader = DbReader::new(data.as_bytes().to_vec());
    let tx = reader.next().unwrap().unwrap();
    assert_eq!(tx.tid, 0);
    assert_eq!(tx.items.len(), 2);
    assert!(reader.next().is_none());
}

#[test]
fn multiple_transactions_tids_increment() {
    let data = "1:10:10\n2:20:20\n3:30:30\n";
    let txs: Vec<_> = read_all(data).into_iter().map(|r| r.unwrap()).collect();
    assert_eq!(txs.len(), 3);
    assert_eq!(txs[0].tid, 0);
    assert_eq!(txs[1].tid, 1);
    assert_eq!(txs[2].tid, 2);
}

#[test]
fn item_utility_count_mismatch_is_error() {
    let data = "1 2:10:5\n";
    let mut reader = DbReader::new(data.as_bytes().to_vec());
    let result = reader.next().unwrap();
    assert!(result.is_err());
}

#[test]
fn empty_database_returns_none() {
    let data = "";
    let mut reader = DbReader::new(data.as_bytes().to_vec());
    assert!(reader.next().is_none());
}

#[test]
fn parse_errors_name_their_cause() {
    assert_eq!(parse_spmf_line(b"1 2", 0).map(|_| ()), Err(ParseError::MissingTransactionUtility));
    assert_eq!(parse_spmf_line(b"1 2:5", 0).map(|_| ()), Err(ParseError::MissingUtilities));
    assert_eq!(parse_spmf_line(b"x:5:1", 0).map(|_| ()), Err(ParseError::BadItem));
    assert_eq!(parse_spmf_line(b"1:y:1", 0).map(|_| ()), Err(ParseError::BadTransactionUtility));
    assert_eq!(parse_spmf_line(b"1:5:z", 0).map(|_| ()), Err(ParseError::BadUtility));
    assert_eq!(parse_spmf_line(b"1 2:5:1", 0).map(|_| ()), Err(ParseError::CountMismatch));
    let t = parse_spmf_line(b" 7  8 : -3 : -1 -2 ", 9);
    assert!(t.is_err() || t.as_ref().unwrap().tid == 9);
}

#[test]
fn invalid_utf8_line_is_reported_and_skipped() {
    let mut data = b"1:1:1\n".to_vec();
    data.extend_from_slice(&[0xff, 0xfe, b'\n']);
    data.extend_from_slice(b"2:2:2\n");
    let mut reader = DbReader::new(data);
    assert_eq!(reader.next().unwrap().unwrap().tid, 0);
    assert_eq!(reader.next().unwrap().map(|_| ()), Err(ParseError::InvalidUtf8));
    let t = reader.next().unwrap().unwrap();
    assert_eq!(t.tid, 1);
    assert_eq!(t.items[0].item, 2);
}

#[test]
fn twu_computed_correctly() {
    let txs = vec![
        tx(0, 100, &[(1, 30), (2, 70)]),
        tx(1, 200, &[(1, 50), (3, 150)]),
    ];
    let filter = TwuFilter::new(0);
    let result = filter.compute(&txs);
    assert_eq!(*result.twu.get(&1).unwrap(), 300);
    assert_eq!(*result.twu.get(&2).unwrap(), 100);
    assert_eq!(*result.twu.get(&3).unwrap(), 200);
}

// Each item's TWU fits in an i64 though the database weighs more than i64::MAX.
#[test]
fn twu_of_heavy_disjoint_transactions() {
    let big = 5_000_000_000_000_000_000i64;
    let txs = vec![
        tx(0, big, &[(1, 1)]),
        tx(1, big, &[(2, 1)]),
    ];
    let result = TwuFilter::new(0).compute(&txs);
    assert_eq!(*result.twu.get(&1).unwrap(), big);
    assert_eq!(*result.twu.get(&2).unwrap(), big);
    assert_eq!(result.ordered_items.len(), 2);
}

#[test]
fn items_below_threshold_filtered() {
    let txs = vec![
        tx(0, 100, &[(1, 100)]),
        tx(1, 50, &[(2, 50)]),
    ];
    let filter = TwuFilter::new(75);
    let result = filter.compute(&txs);
    assert!(result.passes(1));
    assert!(!result.passes(2));
}

#[test]
fn ordered_items_ascending_twu() {
    let txs = vec![
        tx(0, 300, &[(1, 100), (2, 200)]),
        tx(1, 100, &[(3, 100)]),
    ];
    let filter = TwuFilter::new(0);
    let result = filter.compute(&txs);
    let twus: Vec<i64> = result.ordered_items.iter().map(|(_, t)| *t).collect();
    for w in twus.windows(2) { assert!(w[0] <= w[1]); }
}

#[test]
fn apply_filters_and_reorders() {
    let txs_data = vec![
        tx(0, 100, &[(1, 30), (2, 70)]),
    ];
    let filter = TwuFilter::new(0);
    let result = filter.compute(&txs_data);
    let raw = tx(99, 100, &[(2, 70), (1, 30)]);
    let filtered = result.apply(&raw).unwrap();
    assert!(filtered.items.len() <= 2);
}

#[test]
fn apply_returns_none_if_all_filtered() {
    let txs = vec![tx(0, 100, &[(1, 100)])];
    let filter = TwuFilter::new(200);
    let result = filter.compute(&txs);
    let raw = tx(0, 100, &[(1, 100)]);
    assert!(result.apply(&raw).is_none());
}

#[test]
fn apply_orders_by_ascending_twu_stably() {
    let txs = vec![
        tx(0, 10, &[(1, 5), (2, 5)]),
        tx(1, 50, &[(2, 25), (3, 25)]),
    ];
    let result = TwuFilter::new(0).compute(&txs);
    let raw = tx(7, 60, &[(2, 1), (3, 2), (1, 3)]);
    let f = result.apply(&raw).unwrap();
    let order: Vec<u32> = f.items.iter().map(|e| e.item).collect();
    assert_eq!(order, vec![1, 3, 2]);
    assert_eq!(f.tid, 7);
}

#[test]
fn directory_find_page() {
    let mut dir = PageDirectory::default();
    dir.add(PageDirectoryEntry { start_tid: 0, end_tid: 9, page_id: 1, byte_offset: 0 });
    dir.add(PageDirectoryEntry { start_tid: 10, end_tid: 19, page_id: 2, byte_offset: 0 });
    assert_eq!(dir.find_page(5).unwrap().page_id, 1);
    assert_eq!(dir.find_page(10).unwrap().page_id, 2);
    assert_eq!(dir.find_page(15).unwrap().page_id, 2);
    assert!(dir.find_page(20).is_none());
}

#[test]
fn directory_replaces_same_start() {
    let mut dir = PageDirectory::new();
    dir.add(PageDirectoryEntry { start_tid: 5, end_tid: 6, page_id: 1, byte_offset: 0 });
    dir.add(PageDirectoryEntry { start_tid: 5, end_tid: 8, page_id: 2, byte_offset: 0 });
    assert_eq!(dir.entry_count(), 1);
    assert_eq!(dir.find_page(8).unwrap().page_id, 2);
    assert!(dir.find_page(4).is_none());
}

#[test]
fn chunker_serializes_and_flushes() {
    let store = MemStore::new();
    let mut chunker = Chunker::new(&store, 4096);
    for i in 0..5u32 {
        let tx = filtered_tx(i, 100, &[(1, 50), (2, 50)]);
        chunker.add_transaction(&tx).unwrap();
    }
    let page_dir = chunker.finalize().unwrap();
    assert_eq!(page_dir.entry_count(), 1);
    assert_eq!(page_dir.find_page(0).unwrap().start_tid, 0);
    assert_eq!(page_dir.find_page(4).unwrap().end_tid, 4);
}

#[test]
fn chunker_splits_pages_when_full() {
    let store = MemStore::new();
    let mut chunker = Chunker::new(&store, 100);
    for i in 0..6u32 {
        let tx = filtered_tx(i, 100, &[(i + 1, 50)]);
        chunker.add_transaction(&tx).unwrap();
    }
    let page_dir = chunker.finalize().unwrap();
    assert!(page_dir.entry_count() > 1, "Should have split into multiple pages");
}

#[test]
fn chunker_page_layout() {
    let store = MemStore::new();
    let mut chunker = Chunker::new(&store, 4096);
    chunker.add_transaction(&filtered_tx(3, 40, &[(9, 40)])).unwrap();
    let page_id = chunker.finalize().unwrap().find_page(3).unwrap().page_id;
    let mut page = Vec::new();
    store.read_page(page_id, &mut page).unwrap();
    let mut expect = Vec::new();
    expect.extend_from_slice(&1u32.to_le_bytes());
    expect.extend_from_slice(&3u32.to_le_bytes());
    expect.extend_from_slice(&40i64.to_le_bytes());
    expect.extend_from_slice(&1u32.to_le_bytes());
    expect.extend_from_slice(&9u32.to_le_bytes());
    expect.extend_from_slice(&[0, 0, 0, 0]);
    expect.extend_from_slice(&40i64.to_le_bytes());
    assert_eq!(page, expect);
}

#[test]
fn synthetic_transactions_are_well_formed() {
    let mut rng = rand::thread_rng();
    let mut lengths = std::collections::HashSet::new();
    let mut seen = std::collections::HashSet::new();
    for _ in 0..500 {
        let t = synthetic_transaction(&mut rng);
        assert!(!t.items.is_empty() && t.items.len() < 50);
        assert_eq!(t.items.len(), t.utilities.len());
        assert!(t.items.windows(2).all(|w| w[0] < w[1]));
        assert!(t.items.iter().all(|&i| i >= 1 && i < SYNTHETIC_ITEMS));
        assert!(t.utilities.iter().all(|&u| (10..1000).contains(&u)));
        assert_eq!(t.total, t.utilities.iter().map(|&u| u as u64).sum::<u64>());
        lengths.insert(t.items.len());
        seen.extend(t.items.iter().copied());
    }
    assert!(lengths.len() > 1);
    assert!(seen.len() > 100);
    assert!(seen.iter().any(|&i| i >= 500));
}

// Items come out sorted and distinct; each item keeps the utility of its first draw, in
// draw order; the total is their sum.
#[test]
fn synthetic_draws_build_a_transaction() {
    let t = build_transaction(&vec![(5, 20), (3, 30), (5, 99), (7, 10)]);
    assert_eq!(t.items, vec![3, 5, 7]);
    assert_eq!(t.utilities, vec![20, 30, 10]);
    assert_eq!(t.total, 60);
}
