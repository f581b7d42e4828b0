use pocket_huim::types::{ItemEntry, RawTransaction, ULEntry, UtilityList, RecomputeFlag, PageMeta, Transaction};
use pocket_huim::types::itemset::Itemset;

#[test]
fn item_entry_size_is_16() {
    assert_eq!(std::mem::size_of::<ItemEntry>(), 16);
}

#[test]
fn item_entry_alignment() {
    assert_eq!(std::mem::align_of::<ItemEntry>(), 8);
}

#[test]
fn raw_transaction_roundtrip() {
    let tx = RawTransaction {
        tid: 42,
        transaction_utility: 100,
        items: vec![
            ItemEntry { item: 1, utility: 30 },
            ItemEntry { item: 3, utility: 70 },
        ],
    };
    assert_eq!(tx.items.len(), 2);
    assert_eq!(tx.items[0].item, 1);
    assert_eq!(tx.items[1].utility, 70);
}

#[test]
fn utility_list_twu() {
    let ul = UtilityList {
        itemset: Itemset::from_slice(&[1, 2]),
        sum_iutils: 300,
        sum_rutils: 500,
        len: 10,
        page_id: 42,
        resident: false,
        recompute: RecomputeFlag::Materialized,
    };
    assert_eq!(ul.twu(), 800);
    assert!(!ul.can_prune(700));
    assert!(ul.can_prune(900));
    assert!(!ul.is_high_utility(400));
    assert!(ul.is_high_utility(200));
}

#[test]
fn smallvec_inline_capacity() {
    let mut sv = Itemset::from_slice(&[]);
    for i in 0..8u32 {
        sv.push(i);
    }
    assert!(!sv.spilled());
}

#[test]
fn itemset_spills_past_eight_items() {
    let mut sv = Itemset::from_slice(&[1, 2, 3, 4, 5, 6, 7, 8]);
    assert!(!sv.spilled());
    sv.push(9);
    assert_eq!(sv.len(), 9);
    assert!(sv.spilled());
    assert_eq!(sv.to_vec(), vec![1, 2, 3, 4, 5, 6, 7, 8, 9]);
    let copy = sv.duplicate();
    assert_eq!(copy.to_vec(), sv.to_vec());
}

#[test]
fn ul_entry_fields() {
    let e = ULEntry { tid: 7, iutils: 30, rutils: 70 };
    assert_eq!(e.tid, 7);
    assert_eq!(e.iutils + e.rutils, 100);
}

#[test]
fn page_meta_new() {
    let m = PageMeta::new(99, 65536);
    assert_eq!(m.page_id, 99);
    assert_eq!(m.size_bytes, 65536);
    assert!(!m.dirty);
    assert_eq!(m.pin_count, 0);
    assert!(!m.is_pinned());
}

#[test]
fn page_meta_pinned() {
    let mut m = PageMeta::new(1, 4096);
    m.pin_count = 1;
    assert!(m.is_pinned());
    m.pin_count = 0;
    assert!(!m.is_pinned());
}

#[test]
fn prefer_recompute_logic() {
    let mut m = PageMeta::new(1, 4096);
    m.reload_cost_ns = 1_000_000;
    m.recompute_cost_ns = 100_000;
    assert!(m.prefer_recompute());

    m.recompute_cost_ns = 5_000_000;
    assert!(!m.prefer_recompute());
}

#[test]
fn transaction_view_keeps_parts() {
    let items = [ItemEntry { item: 4, utility: 9 }];
    let t = Transaction::from_raw_parts(3, 9, &items);
    assert_eq!(t.tid, 3);
    assert_eq!(t.transaction_utility, 9);
    assert_eq!(t.items.len(), 1);
}
