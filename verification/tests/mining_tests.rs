use std::cell::{Cell, RefCell};
use std::collections::HashMap;
use pocket_huim::types::{ItemEntry, RawTransaction, PageId, ULEntry};
use pocket_huim::types::itemset::Itemset;
use pocket_huim::storage::{ChunkStore, StoreError, PageFlags};
use pocket_huim::mining::memory_guard::MemoryGuard;
use pocket_huim::mining::eucs::Eucs;
use pocket_huim::mining::ul_join::{serialize_ul_body, deserialize_ul_body, join_utility_lists, UlBody};
use pocket_huim::mining::exact_utility::{exact_utilities, select_huis, verify_candidates, MiningError};
use pocket_huim::mining::two_phase::{TwoPhase, TxEntry, serialize_entries, deserialize_entries};
use pocket_huim::mining::up_growth::{UpGrowth, UpGrowthPlus};
use pocket_huim::mining::ihup::Ihup;
use pocket_huim::mining::hui_trie::HuiTrie;
use pocket_huim::mining::ul_search::HupMiner;
use pocket_huim::mining::tku::Tku;
use pocket_huim::mining::context::{chunk_bytes, items_per_chunk};
use pocket_huim::mining::up_tree::UpTree;
use pocket_huim::mining::wrapped::{HuimGa, HuimBpso, MhuiAco, Shuim, IncFhm};
use pocket_huim::mining::huim_mmu::HuimMmu;
use pocket_huim::mining::efim_closed::{EfimClosed, OriginalTx, ProjTx};

struct MemStore {
    pages: RefCell<HashMap<PageId, Vec<u8>>>,
    next: Cell<PageId>,
}

impl MemStore {
    fn new() -> Self {
        MemStore { pages: RefCell::new(HashMap::new()), next: Cell::new(1) }
    }
}

impl ChunkStore for MemStore {
    fn write_page(&self, id: PageId, data: &[u8], _flags: PageFlags) -> Result<(), StoreError> {
        self.pages.borrow_mut().insert(id, data.to_vec());
        Ok(())
    }
    fn read_page(&self, id: PageId, buf: &mut Vec<u8>) -> Result<PageFlags, StoreError> {
        match self.pages.borrow().get(&id) {
            Some(p) => {
                buf.clear();
                buf.extend_from_slice(p);
                Ok(PageFlags::empty())
            }
            None => Err(StoreError::Io),
        }
    }
    fn delete_page(&self, id: PageId) -> Result<(), StoreError> {
        self.pages.borrow_mut().remove(&id);
        Ok(())
    }
    fn page_exists(&self, id: PageId) -> bool {
        self.pages.borrow().contains_key(&id)
    }
    fn page_byte_size(&self, id: PageId) -> Option<u64> {
        self.pages.borrow().get(&id).map(|p| p.len() as u64)
    }
    fn next_page_id(&self) -> PageId {
        let id = self.next.get();
        self.next.set(id + 1);
        id
    }
}

fn tx(tid: u32, tu: i64, items: &[(u32, i64)]) -> RawTransaction {
    RawTransaction {
        tid,
        transaction_utility: tu,
        items: items.iter().map(|(i, u)| ItemEntry { item: *i, utility: *u }).collect(),
    }
}

fn entry(tid: u32, i: i64, r: i64) -> ULEntry {
    ULEntry { tid, iutils: i, rutils: r }
}

fn big_guard() -> MemoryGuard<MemStore> {
    MemoryGuard::new(1 << 40, MemStore::new())
}

fn sample_db() -> Vec<RawTransaction> {
    vec![
        tx(0, 16, &[(1, 5), (2, 10), (3, 1)]),
        tx(1, 16, &[(1, 10), (3, 6)]),
        tx(2, 7, &[(2, 4), (3, 3)]),
    ]
}

fn expected_huis() -> Vec<(Vec<u32>, i64)> {
    let mut v = vec![
        (vec![1], 15),
        (vec![1, 2], 15),
        (vec![1, 3], 22),
        (vec![2, 3], 18),
        (vec![1, 2, 3], 16),
    ];
    v.sort();
    v
}

fn normalized(mut huis: Vec<(Vec<u32>, i64)>) -> Vec<(Vec<u32>, i64)> {
    for h in huis.iter_mut() {
        h.0.sort();
    }
    huis.sort();
    huis
}

#[test]
fn eucs_basic() {
    let txs = vec![
        tx(0, 100, &[(1, 50), (2, 50)]),
        tx(0, 200, &[(1, 100), (3, 100)]),
    ];
    let mut guard = big_guard();
    let eucs = Eucs::build(&txs, &mut guard);
    assert!(!eucs.can_prune(1, 2, 100));
    assert!(eucs.can_prune(1, 2, 101));
    assert!(!eucs.can_prune(1, 3, 200));
    assert!(eucs.can_prune(2, 3, 1));
}

// A pair's running value fits in an i64 though the update outweighs what the pair held.
#[test]
fn eucs_adds_a_heavy_update_to_a_negative_pair() {
    let mut guard = big_guard();
    let mut e = Eucs::new();
    assert!(e.add_transaction(&[1, 2], -100, &mut guard));
    assert!(e.add_transaction(&[2, 1], i64::MAX - 50, &mut guard));
    assert_eq!(e.pair_count(), 1);
    assert!(!e.can_prune(1, 2, i64::MAX - 150));
    assert!(e.can_prune(1, 2, i64::MAX - 149));
}

#[test]
fn eucs_symmetric_key() {
    let txs = vec![tx(0, 100, &[(5, 50), (3, 50)])];
    let mut guard = big_guard();
    let eucs = Eucs::build(&txs, &mut guard);
    assert!(!eucs.can_prune(3, 5, 100));
    assert!(!eucs.can_prune(5, 3, 100));
}

#[test]
fn eucs_charges_guard_per_new_pair() {
    let txs = vec![
        tx(0, 10, &[(1, 1), (2, 1), (3, 1)]),
        tx(1, 10, &[(1, 1), (2, 1)]),
    ];
    let mut guard = big_guard();
    let eucs = Eucs::build(&txs, &mut guard);
    assert_eq!(eucs.pair_count(), 3);
    assert_eq!(guard.used(), 3 * 32);
    assert!(!eucs.can_prune(1, 2, 20));
    assert!(eucs.can_prune(1, 2, 21));
}

#[test]
fn eucs_stops_when_guard_refuses() {
    let txs = vec![tx(0, 10, &[(1, 1), (2, 1), (3, 1)])];
    let mut guard = MemoryGuard::new(64, MemStore::new());
    let eucs = Eucs::build(&txs, &mut guard);
    assert_eq!(eucs.pair_count(), 2);
    assert_eq!(guard.used(), 64);
    // The build was cut short: its sums may miss transactions, so nothing is pruned.
    assert!(!eucs.can_prune(2, 3, 1));
    assert!(!eucs.can_prune(1, 2, 11));
    let mut e2 = Eucs::new();
    assert!(!e2.add_transaction(&[7, 8, 9], 5, &mut guard));
    assert_eq!(e2.pair_count(), 0);
}

#[test]
fn memory_guard_accounting() {
    let mut g = MemoryGuard::new(100, MemStore::new());
    assert!(g.try_alloc(60));
    assert!(!g.try_alloc(41));
    assert_eq!(g.used(), 60);
    assert_eq!(g.remaining(), 40);
    g.free(60);
    assert_eq!(g.used(), 0);
    g.force_alloc(150);
    assert_eq!(g.used(), 150);
    assert_eq!(g.remaining(), 0);
    g.free(1000);
    assert_eq!(g.used(), 0);
    assert_eq!(g.budget(), 100);
}

#[test]
fn memory_guard_spill_and_load() {
    let g = MemoryGuard::new(100, MemStore::new());
    let id = g.spill(&[1, 2, 3]).unwrap();
    assert_eq!(g.load(id).unwrap(), vec![1, 2, 3]);
    assert_eq!(g.load_and_delete(id).unwrap(), vec![1, 2, 3]);
    assert_eq!(g.load(id), Err(StoreError::Io));
}

#[test]
fn serialize_deserialize_roundtrip() {
    let entries = vec![
        entry(1, 30, 70),
        entry(3, 50, 20),
        entry(5, 40, 0),
    ];
    let bytes = serialize_ul_body(&entries);
    let decoded = deserialize_ul_body(&bytes);
    assert_eq!(entries.len(), decoded.len());
    for (a, b) in entries.iter().zip(decoded.iter()) {
        assert_eq!(a.tid, b.tid);
        assert_eq!(a.iutils, b.iutils);
        assert_eq!(a.rutils, b.rutils);
    }
}

#[test]
fn join_1itemset_basic() {
    let px = vec![entry(1, 30, 70), entry(2, 20, 50), entry(3, 40, 10)];
    let py = vec![entry(1, 10, 0), entry(3, 50, 0), entry(4, 60, 0)];
    let store = MemStore::new();
    let (ul, body) = join_utility_lists(Itemset::from_slice(&[1, 2]), &[], &px, &py, &store).unwrap();
    assert_eq!(ul.len, 2);
    assert_eq!(ul.sum_iutils, 130);
    assert_eq!(ul.sum_rutils, 0);
    match body {
        UlBody::InMemory(entries) => {
            assert_eq!(entries.len(), 2);
        }
        UlBody::OnDisk(_) => {}
    }
}

#[test]
fn join_empty_intersection() {
    let px = vec![entry(1, 10, 5)];
    let py = vec![entry(2, 20, 5)];
    let store = MemStore::new();
    let (ul, _) = join_utility_lists(Itemset::from_slice(&[1, 2]), &[], &px, &py, &store).unwrap();
    assert_eq!(ul.len, 0);
    assert_eq!(ul.sum_iutils, 0);
}

#[test]
fn join_with_prefix_subtracts_prefix_utility() {
    let p = vec![entry(1, 5, 0), entry(3, 7, 0)];
    let px = vec![entry(1, 15, 9), entry(3, 17, 4)];
    let py = vec![entry(1, 25, 2), entry(2, 1, 1), entry(3, 27, 3)];
    let store = MemStore::new();
    let (ul, body) = join_utility_lists(Itemset::from_slice(&[1, 2, 3]), &p, &px, &py, &store).unwrap();
    assert_eq!(ul.sum_iutils, (15 + 25 - 5) + (17 + 27 - 7));
    assert_eq!(ul.sum_rutils, 5);
    assert_eq!(ul.itemset.to_vec(), vec![1, 2, 3]);
    match body {
        UlBody::InMemory(v) => assert_eq!(v, vec![entry(1, 35, 2), entry(3, 37, 3)]),
        UlBody::OnDisk(_) => panic!("small body must stay in memory"),
    }
}

#[test]
fn join_large_body_goes_to_store() {
    let px: Vec<ULEntry> = (0..300u32).map(|t| entry(t, 1, 1)).collect();
    let py: Vec<ULEntry> = (0..300u32).map(|t| entry(t, 2, 0)).collect();
    let store = MemStore::new();
    let (ul, body) = join_utility_lists(Itemset::from_slice(&[1, 2]), &[], &px, &py, &store).unwrap();
    assert_eq!(ul.sum_iutils, 900);
    match body {
        UlBody::OnDisk(id) => {
            assert_eq!(ul.page_id, id);
            let mut buf = Vec::new();
            store.read_page(id, &mut buf).unwrap();
            assert_eq!(deserialize_ul_body(&buf).len(), 300);
        }
        UlBody::InMemory(_) => panic!("large body must be written"),
    }
}

#[test]
fn exact_utility_phase() {
    let txs = sample_db();
    let cands = vec![vec![1, 3], vec![2], vec![4], vec![3, 3]];
    let u = exact_utilities(&txs, &cands).unwrap();
    assert_eq!(u, vec![22, 14, 0, 20]);
    let kept = select_huis(cands.clone(), &u, 15);
    assert_eq!(kept, vec![(vec![1, 3], 22), (vec![3, 3], 20)]);
    let v = verify_candidates(&txs, cands, 15).unwrap();
    assert_eq!(v, kept);
}

#[test]
fn exact_utility_overflow_is_reported() {
    let txs = vec![tx(0, 0, &[(1, i64::MAX), (2, 1)])];
    assert_eq!(exact_utilities(&txs, &vec![vec![1, 2]]), Err(MiningError::UtilityOverflow));
}

#[test]
fn tx_entries_roundtrip() {
    let entries = vec![TxEntry { tx_idx: 3, util: -4 }, TxEntry { tx_idx: 9, util: 1 << 40 }];
    let bytes = serialize_entries(&entries);
    assert_eq!(bytes.len(), 24);
    let back = deserialize_entries(&bytes);
    assert_eq!(back.len(), 2);
    assert_eq!(back[0].tx_idx, 3);
    assert_eq!(back[0].util, -4);
    assert_eq!(back[1].tx_idx, 9);
    assert_eq!(back[1].util, 1 << 40);
}

#[test]
fn two_phase_finds_all_huis() {
    let txs = sample_db();
    let mut g = big_guard();
    let huis = TwoPhase::new().mine(&txs, 15, &mut g).unwrap();
    assert_eq!(normalized(huis), expected_huis());
}

#[test]
fn two_phase_gives_nothing_when_guard_refuses() {
    let txs = sample_db();
    let mut g = MemoryGuard::new(8, MemStore::new());
    let huis = TwoPhase::new().mine(&txs, 15, &mut g).unwrap();
    assert!(huis.is_empty());
}

// The node utility of the tree is the utility of the item and the items after it on
// the path, so item 2 (last on its paths) gathers only 10 + 4 and is not explored.
#[test]
fn up_growth_reports_exact_utilities() {
    let txs = sample_db();
    let mut g = big_guard();
    let huis = normalized(UpGrowth::new().mine(&txs, 15, &mut g).unwrap());
    assert_eq!(huis, vec![(vec![1], 15), (vec![1, 3], 22)]);
    for h in &huis {
        assert!(expected_huis().contains(h));
    }
}

#[test]
fn up_growth_plus_reports_exact_utilities() {
    let txs = sample_db();
    let mut g = big_guard();
    let huis = normalized(UpGrowthPlus::new().mine(&txs, 15, &mut g).unwrap());
    assert_eq!(huis, vec![(vec![1], 15), (vec![1, 3], 22)]);
    for h in &huis {
        assert!(expected_huis().contains(h));
    }
}

#[test]
fn ihup_finds_all_huis() {
    let txs = sample_db();
    let mut g = big_guard();
    let huis = Ihup::new().mine(&txs, 15, &mut g).unwrap();
    assert_eq!(normalized(huis), expected_huis());
}

#[test]
fn hui_trie_finds_all_huis() {
    let txs = sample_db();
    let mut g = big_guard();
    let huis = HuiTrie::new().mine(&txs, 15, &mut g).unwrap();
    assert_eq!(normalized(huis), expected_huis());
}

#[test]
fn hui_trie_reports_budget_refusal() {
    let txs = sample_db();
    let mut g = MemoryGuard::new(10, MemStore::new());
    assert_eq!(HuiTrie::new().mine(&txs, 15, &mut g), Err(MiningError::MemoryBudgetExceeded));
}

#[test]
fn miners_agree_at_high_threshold() {
    let txs = sample_db();
    let mut g = big_guard();
    let a = normalized(TwoPhase::new().mine(&txs, 20, &mut g).unwrap());
    let b = normalized(UpGrowth::new().mine(&txs, 20, &mut g).unwrap());
    let c = normalized(Ihup::new().mine(&txs, 20, &mut g).unwrap());
    assert_eq!(a, vec![(vec![1, 3], 22)]);
    assert_eq!(a, b);
    assert_eq!(a, c);
}

#[test]
fn hup_miner_finds_all_huis() {
    let txs = sample_db();
    let huis = HupMiner::new(false).mine(&txs, 15).unwrap();
    assert_eq!(normalized(huis), expected_huis());
}

// Without k, single items whose utility plus remaining utility is below the threshold
// take no part in the search, not even as the second item of a pair: item 3 gathers
// 10 + 0, so {1, 3}, {2, 3} and {1, 2, 3} are not met.
fn single_items_kept_huis() -> Vec<(Vec<u32>, i64)> {
    vec![(vec![1], 15), (vec![1, 2], 15)]
}

#[test]
fn tku_threshold_mode_reports_exact_utilities() {
    let txs = sample_db();
    let mut g = big_guard();
    let huis = normalized(Tku::new(false).mine(&txs, 15, None, &mut g).unwrap());
    assert_eq!(huis, single_items_kept_huis());
    for h in &huis {
        assert!(expected_huis().contains(h));
    }
}

#[test]
fn tku_top_k_ranks_the_best_itemsets() {
    let txs = sample_db();
    let mut g = big_guard();
    let mut huis = Tku::new(true).mine(&txs, 1000, Some(3), &mut g).unwrap();
    for h in huis.iter_mut() {
        h.0.sort();
    }
    assert_eq!(huis, vec![(vec![1, 3], 22), (vec![2, 3], 18), (vec![1, 2, 3], 16)]);
}

#[test]
fn tku_top_k_larger_than_the_itemsets() {
    let txs = sample_db();
    let mut g = big_guard();
    let huis = Tku::new(false).mine(&txs, 0, Some(100), &mut g).unwrap();
    assert_eq!(huis.len(), 7);
    for w in huis.windows(2) {
        assert!(w[0].1 >= w[1].1);
    }
    assert_eq!(huis[0].1, 22);
}

#[test]
fn tku_top_one_of_a_single_transaction() {
    let txs = vec![tx(0, 3, &[(1, 1), (2, 2)])];
    let mut g = big_guard();
    let huis = normalized(Tku::new(false).mine(&txs, 1, Some(1), &mut g).unwrap());
    assert_eq!(huis, vec![(vec![1, 2], 3)]);
}

// Fewer than `k` results: nothing was let go, so every single item is among them.
#[test]
fn tku_top_k_short_result_keeps_every_single_item() {
    let txs = sample_db();
    let mut g = big_guard();
    let huis = normalized(Tku::new(false).mine(&txs, 0, Some(100), &mut g).unwrap());
    assert!(huis.len() < 100);
    assert!(huis.contains(&(vec![1], 15)));
    assert!(huis.contains(&(vec![2], 14)));
    assert!(huis.contains(&(vec![3], 10)));
}

// A single item left out of the top-k ranks no higher than anything kept.
#[test]
fn tku_top_k_single_items_left_out_rank_lower() {
    let txs = sample_db();
    let mut g = big_guard();
    let huis = normalized(Tku::new(false).mine(&txs, 0, Some(3), &mut g).unwrap());
    assert_eq!(huis.len(), 3);
    for (item, u) in [(1u32, 15i64), (2, 14), (3, 10)] {
        assert!(huis.contains(&(vec![item], u)) || huis.iter().all(|h| h.1 >= u));
    }
}

// Threshold mode: every single item whose utility reaches the threshold is reported.
#[test]
fn tku_threshold_mode_reports_heavy_single_items() {
    let txs = sample_db();
    let mut g = big_guard();
    let huis = normalized(Tku::new(false).mine(&txs, 10, None, &mut g).unwrap());
    assert!(huis.contains(&(vec![1], 15)));
    assert!(huis.contains(&(vec![2], 14)));
    assert!(huis.contains(&(vec![3], 10)));
}

#[test]
fn tku_top_zero_is_empty() {
    let txs = sample_db();
    let mut g = big_guard();
    assert!(Tku::new(false).mine(&txs, 0, Some(0), &mut g).unwrap().is_empty());
}

// A pair structure cut short by the guard prunes nothing, so the result is the one a
// complete structure gives.
#[test]
fn tku_incomplete_pair_structure_prunes_nothing() {
    let txs = sample_db();
    let mut g = MemoryGuard::new(0, MemStore::new());
    let huis = Tku::new(false).mine(&txs, 15, None, &mut g).unwrap();
    let mut big = big_guard();
    let want = Tku::new(false).mine(&txs, 15, None, &mut big).unwrap();
    assert_eq!(huis, want);
    assert!(huis.len() > 1);
}

#[test]
fn wrapped_miners_are_exact() {
    let txs = sample_db();
    let mut g = big_guard();
    let want = expected_huis();
    assert_eq!(normalized(HuimGa::new(false).mine(&txs, 15, &mut g).unwrap()), want);
    assert_eq!(normalized(HuimBpso::new(false).mine(&txs, 15, &mut g).unwrap()), want);
    assert_eq!(normalized(MhuiAco::new(true).mine(&txs, 15, &mut g).unwrap()), want);
    assert_eq!(normalized(Shuim::new(false).mine(&txs, 15, &mut g).unwrap()), want);
    assert_eq!(normalized(IncFhm::new(true).mine(&txs, 15, &mut g).unwrap()), want);
    let mut h = big_guard();
    assert_eq!(normalized(HuimGa::new(false).mine(&txs, 20, &mut h).unwrap()), vec![(vec![1, 3], 22)]);
}

#[test]
fn wrapped_miner_refused_by_the_guard_reports_nothing() {
    let txs = sample_db();
    let mut g = MemoryGuard::new(8, MemStore::new());
    assert!(IncFhm::new(false).mine(&txs, 15, &mut g).unwrap().is_empty());
    assert_eq!(g.used(), 0);
}

#[test]
fn huim_mmu_single_window_is_one_search() {
    let txs = sample_db();
    let mut g = big_guard();
    let huis = HuimMmu::new(false).mine(&txs, 15, &mut g).unwrap();
    assert_eq!(normalized(huis), expected_huis());
}

// 1500 transactions: the windows are [0, 1000), [500, 1500) and what remains, [1000, 1500).
#[test]
fn huim_mmu_slides_half_a_window() {
    let txs: Vec<RawTransaction> = (0..1500u32).map(|t| tx(t, 1, &[(7, 1)])).collect();
    let mut g = big_guard();
    let huis = HuimMmu::new(false).mine(&txs, 1, &mut g).unwrap();
    assert_eq!(huis, vec![(vec![7], 1000), (vec![7], 1000), (vec![7], 500)]);
}

#[test]
fn huim_mmu_empty_stream() {
    let mut g = big_guard();
    assert!(HuimMmu::new(false).mine(&[], 1, &mut g).unwrap().is_empty());
}

#[test]
fn efim_closed_finds_all_huis() {
    let txs = sample_db();
    let mut g = big_guard();
    let huis = EfimClosed::new().mine(&txs, 15, &mut g).unwrap();
    assert_eq!(huis.len(), 5);
    assert_eq!(normalized(huis), expected_huis());
}

// Items 1 and 2 have the same TWU, so each transaction keeps them in its own order: each
// itemset counts only the transactions where its items are met in the search's order.
#[test]
fn efim_closed_counts_items_met_in_order() {
    let txs = vec![tx(0, 10, &[(1, 5), (2, 5)]), tx(1, 10, &[(2, 5), (1, 5)])];
    let mut g = big_guard();
    let huis = EfimClosed::new().mine(&txs, 1, &mut g).unwrap();
    assert_eq!(huis, vec![(vec![1], 10), (vec![1, 2], 10), (vec![2], 10), (vec![2, 1], 10)]);
}

#[test]
fn efim_closed_releases_its_charges() {
    let txs = sample_db();
    let mut g = big_guard();
    let _ = EfimClosed::new().mine(&txs, 15, &mut g).unwrap();
    assert_eq!(g.used(), 0);
}

#[test]
fn efim_closed_records_are_plain_values() {
    let t = OriginalTx { items: vec![2, 1], utilities: vec![10, 5], remaining_utilities: vec![5, 0] };
    let c = t.clone();
    assert_eq!(c.remaining_utilities, vec![5, 0]);
    let p = ProjTx { tx_idx: 3, offset: 1, prefix_utility: 10, path_utility: 15 };
    let q = p;
    assert_eq!(q.path_utility - q.prefix_utility, 5);
}

// An extension whose own bound (utility plus remaining utility) falls below the
// threshold is dropped from the list the deeper search joins with, so a superset that
// needs it is never formed. Here {1, 3} is dropped (2 + 0 < 12) and {1, 2, 3}, of
// utility 12, is missed, though its items come in id order; Two-Phase finds it.
#[test]
fn hup_miner_drops_an_extension_a_superset_needs() {
    let txs = vec![tx(0, 12, &[(1, 1), (2, 10), (3, 1)])];
    let huis = HupMiner::new(false).mine(&txs, 12).unwrap();
    assert!(huis.is_empty());
    let mut g = big_guard();
    let all = TwoPhase::new().mine(&txs, 12, &mut g).unwrap();
    assert_eq!(all, vec![(vec![1, 2, 3], 12)]);
}

// The same with a transaction that lists 3 before 2: {1, 2} is dropped (2 + 0 < 7)
// and {1, 2, 3}, of utility 7, is missed.
#[test]
fn hup_miner_misses_an_itemset_whatever_the_item_order() {
    let txs = vec![tx(0, 7, &[(1, 1), (3, 5), (2, 1)])];
    let huis = HupMiner::new(false).mine(&txs, 7).unwrap();
    assert!(huis.is_empty());
    let mut g = big_guard();
    let all = TwoPhase::new().mine(&txs, 7, &mut g).unwrap();
    assert_eq!(all, vec![(vec![1, 2, 3], 7)]);
}

// The global tree gives each node the utility of its item and of the items below it on
// the path, so the node of item 2 under item 1 carries 1, below the threshold, and {1, 2}
// (utility 11) never becomes a candidate.
#[test]
fn up_growth_misses_an_itemset_above_a_light_item() {
    let txs = vec![tx(0, 11, &[(1, 10), (2, 1)])];
    let mut g = big_guard();
    assert!(UpGrowth::new().mine(&txs, 11, &mut g).unwrap().is_empty());
    assert!(UpGrowthPlus::new().mine(&txs, 11, &mut g).unwrap().is_empty());
    assert_eq!(TwoPhase::new().mine(&txs, 11, &mut g).unwrap(), vec![(vec![1, 2], 11)]);
    assert_eq!(normalized(Ihup::new().mine(&txs, 11, &mut g).unwrap()), vec![(vec![1, 2], 11)]);
}

/// Small databases drawn from a fixed seed: up to five transactions over items 1 to 5,
/// in shuffled order, with utilities 1 to 9 and the exact transaction utility.
fn generated_databases(count: usize) -> Vec<(Vec<RawTransaction>, i64)> {
    let mut seed: u64 = 12345;
    let mut next = move || {
        seed = seed.wrapping_mul(6364136223846793005).wrapping_add(1442695040888963407);
        (seed >> 33) as u32
    };
    let mut out = Vec::new();
    for _ in 0..count {
        let ntx = 1 + next() % 5;
        let mut txs = Vec::new();
        for t in 0..ntx {
            let mut items: Vec<(u32, i64)> = Vec::new();
            for it in 1..=5u32 {
                if next() % 2 == 0 {
                    items.push((it, (1 + next() % 9) as i64));
                }
            }
            if items.is_empty() {
                items.push((1 + next() % 5, 3));
            }
            let l = items.len();
            for a in 0..l {
                let b = (next() as usize) % l;
                items.swap(a, b);
            }
            let tu: i64 = items.iter().map(|x| x.1).sum();
            txs.push(tx(t, tu, &items));
        }
        out.push((txs, (1 + next() % 30) as i64));
    }
    out
}

#[test]
fn tree_miners_agree_with_two_phase_on_generated_databases() {
    for (txs, min) in generated_databases(500) {
        let mut g = big_guard();
        let want = normalized(TwoPhase::new().mine(&txs, min, &mut g).unwrap());
        assert_eq!(normalized(Ihup::new().mine(&txs, min, &mut g).unwrap()), want);
        assert_eq!(normalized(HuiTrie::new().mine(&txs, min, &mut g).unwrap()), want);
        assert_eq!(normalized(IncFhm::new(false).mine(&txs, min, &mut g).unwrap()), want);
    }
}

#[test]
fn efim_closed_agrees_with_two_phase_on_ascending_transactions() {
    for (mut txs, min) in generated_databases(500) {
        for t in txs.iter_mut() {
            t.items.sort_by_key(|e| e.item);
        }
        let mut g = big_guard();
        let want = normalized(TwoPhase::new().mine(&txs, min, &mut g).unwrap());
        assert_eq!(normalized(EfimClosed::new().mine(&txs, min, &mut g).unwrap()), want);
    }
}

// Every single item whose utility reaches the threshold is reported on its own.
#[test]
fn hup_miner_reports_every_heavy_single_item() {
    let txs = vec![
        tx(0, 20, &[(1, 9), (2, 4), (3, 7)]),
        tx(1, 15, &[(2, 3), (3, 12)]),
        tx(2, 6, &[(1, 6)]),
    ];
    let huis = HupMiner::new(false).mine(&txs, 15).unwrap();
    assert!(huis.iter().any(|h| h.0 == vec![1] && h.1 == 15));
    assert!(huis.iter().any(|h| h.0 == vec![3] && h.1 == 19));
    assert!(!huis.iter().any(|h| h.0 == vec![2]));
}

// Each node of an inserted path gains the utility less the earlier items' utilities;
// a shared prefix is reused, and a new branch starts below the root.
#[test]
fn up_tree_insert_path_places_the_utilities() {
    let mut g = big_guard();
    let mut t = UpTree::new(vec![1, 2, 3]);
    t.insert_path(&[(1, 5), (2, 3), (3, 2)], 10, true, false, &mut g).unwrap();
    assert_eq!(t.node_count(), 4);
    assert_eq!((t.node(1).item, t.node(1).nu, t.node(1).parent), (1, 10, 0));
    assert_eq!((t.node(2).item, t.node(2).nu, t.node(2).parent), (2, 5, 1));
    assert_eq!((t.node(3).item, t.node(3).nu, t.node(3).parent), (3, 2, 2));
    t.insert_path(&[(1, 4), (2, 1)], 5, true, false, &mut g).unwrap();
    assert_eq!(t.node_count(), 4);
    assert_eq!(t.node(1).nu, 15);
    assert_eq!(t.node(2).nu, 6);
    assert_eq!(t.node(3).nu, 2);
    t.insert_path(&[(2, 1)], 7, false, false, &mut g).unwrap();
    assert_eq!(t.node_count(), 5);
    assert_eq!((t.node(4).item, t.node(4).nu, t.node(4).parent), (2, 7, 0));
}

// With charging, each new node takes its bytes from the guard; a refusal stops the
// insertion with the guard full.
#[test]
fn up_tree_insert_path_charges_each_new_node() {
    let mut g = MemoryGuard::new(48, MemStore::new());
    let mut t = UpTree::new(vec![1, 2, 3]);
    t.insert_path(&[(1, 1), (2, 1)], 5, false, true, &mut g).unwrap();
    assert_eq!(g.used(), 48);
    t.insert_path(&[(1, 1), (2, 1)], 5, false, true, &mut g).unwrap();
    assert_eq!(g.used(), 48);
    assert_eq!(t.insert_path(&[(3, 1)], 5, false, true, &mut g), Err(MiningError::MemoryBudgetExceeded));
    assert_eq!(g.used(), 48);
    t.insert_path(&[(3, 1)], 5, false, false, &mut g).unwrap();
    assert_eq!(g.used(), 48);
    assert_eq!(t.node_count(), 4);
}

// Two-Phase lists {1} before {1, 2}: the search's order.
#[test]
fn two_phase_lists_in_search_order() {
    let txs = vec![tx(0, 11, &[(1, 10), (2, 1)])];
    let mut g = big_guard();
    let huis = TwoPhase::new().mine(&txs, 5, &mut g).unwrap();
    assert_eq!(huis, vec![(vec![1], 10), (vec![1, 2], 11)]);
}

// Below a common first item, the itemsets one item longer come before the longer ones.
#[test]
fn two_phase_order_on_the_sample() {
    let txs = sample_db();
    let mut g = big_guard();
    let huis = TwoPhase::new().mine(&txs, 1, &mut g).unwrap();
    let sets: Vec<Vec<u32>> = huis.iter().map(|h| h.0.clone()).collect();
    let pos = |s: &[u32]| sets.iter().position(|x| x.as_slice() == s).unwrap();
    for s in &sets {
        for t in &sets {
            if s.len() < t.len() && t.starts_with(s) {
                assert!(pos(s) < pos(t));
            }
        }
    }
}

#[test]
fn items_per_chunk_sizes_the_chunk() {
    assert_eq!(chunk_bytes(1 << 20), 1 << 18);
    assert_eq!(items_per_chunk(1000, 0), usize::MAX);
    assert_eq!(items_per_chunk(1000, 300), 3);
    assert_eq!(items_per_chunk(100, 300), 1);
}

// UP-Growth's node utilities drop by the utilities of the items above each node, so a
// pair whose later item carries little utility is not met: {1, 2} (utility 11) is missed.
#[test]
fn up_growth_misses_a_pair_below_a_light_item() {
    let txs = vec![tx(0, 11, &[(1, 10), (2, 1)])];
    let mut g = big_guard();
    let huis = normalized(UpGrowth::new().mine(&txs, 5, &mut g).unwrap());
    assert_eq!(huis, vec![(vec![1], 10)]);
}

// EFIM-Closed looks for an itemset's items in order in each sorted transaction; with
// equal TWUs the transactions keep their own orders, so {1, 2} is not found in both.
#[test]
fn efim_closed_misses_an_itemset_listed_in_two_orders() {
    let txs = vec![tx(0, 4, &[(1, 2), (2, 2)]), tx(1, 4, &[(2, 2), (1, 2)])];
    let mut g = big_guard();
    let huis = EfimClosed::new().mine(&txs, 6, &mut g).unwrap();
    assert!(huis.is_empty());
}
