//! Transactions that list their items in ascending order keep, once their passing
//! entries are stably sorted by TWU, the order of (TWU, item). In such rows an itemset
//! whose items are found one after another in that order carries its exact utility.
use vstd::prelude::*;
use crate::types::{ItemId, Utility, ItemEntry, RawTransaction};
use crate::preprocessing::twu_filter::{
    kept_items, stable_sort, insert_stable, lemma_kept_contains_pub, lemma_insert_stable_contains,
    lemma_stable_sort_contains, law_filtered_entries,
};
use super::exact_utility::{item_utility, cand_tx_utility, db_utility};
use super::two_phase::{lemma_single_lookup, lemma_absent_lookup};
use super::efim_closed::{scan, first_from, row_items, ordered_utility, efim_rows, lemma_first_from};

verus! {

/// The entries' items increase strictly.
pub open spec fn ascending_items(items: Seq<ItemEntry>) -> bool {
    forall|i: int, j: int| 0 <= i < j < items.len() ==> items[i].item < items[j].item
}

/// Every transaction lists its items in strictly increasing order.
pub open spec fn db_ascending(txs: Seq<RawTransaction>) -> bool {
    forall|t: int| 0 <= t < txs.len() ==> ascending_items(#[trigger] txs[t].items@)
}

/// `a` comes before `b` in the order of (TWU, item).
pub open spec fn rank_before(m: Map<ItemId, Utility>, a: ItemId, b: ItemId) -> bool {
    m[a] < m[b] || (m[a] == m[b] && a < b)
}

/// The entries' items increase strictly in the order of (TWU, item).
pub open spec fn rank_sorted(r: Seq<ItemEntry>, m: Map<ItemId, Utility>) -> bool {
    forall|i: int, j: int| 0 <= i < j < r.len() ==> rank_before(m, r[i].item, r[j].item)
}

/// The items increase strictly in the order of (TWU, item).
pub open spec fn rank_increasing(p: Seq<ItemId>, m: Map<ItemId, Utility>) -> bool {
    forall|i: int, j: int| 0 <= i < j < p.len() ==> rank_before(m, p[i], p[j])
}

proof fn lemma_kept_ascending(items: Seq<ItemEntry>, m: Map<ItemId, Utility>)
    requires
        ascending_items(items),
    ensures
        ascending_items(kept_items(items, m)),
    decreases items.len(),
{
    if items.len() > 0 {
        let d = items.drop_last();
        assert(ascending_items(d));
        lemma_kept_ascending(d, m);
        let k0 = kept_items(d, m);
        if m.contains_key(items.last().item) {
            let k = k0.push(items.last());
            assert forall|i: int, j: int| 0 <= i < j < k.len() implies k[i].item < k[j].item by {
                if j == k.len() - 1 {
                    assert(k0.contains(k0[i]));
                    lemma_kept_contains_pub(d, m, k0[i]);
                    let q = choose|q: int| 0 <= q < d.len() && d[q] == k0[i];
                    assert(items[q] == d[q]);
                } else {
                    assert(k[i] == k0[i] && k[j] == k0[j]);
                }
            }
        }
    }
}

proof fn lemma_insert_rank(t: Seq<ItemEntry>, e: ItemEntry, m: Map<ItemId, Utility>)
    requires
        rank_sorted(t, m),
        forall|k: int| 0 <= k < t.len() ==> (#[trigger] t[k]).item < e.item,
    ensures
        rank_sorted(insert_stable(t, e, m), m),
    decreases t.len(),
{
    let r = insert_stable(t, e, m);
    if t.len() == 0 {
    } else if m[t.last().item] <= m[e.item] {
        assert forall|i: int, j: int| 0 <= i < j < r.len() implies rank_before(m, r[i].item, r[j].item) by {
            if j == r.len() - 1 {
                assert(r[i] == t[i]);
                if i < t.len() - 1 {
                    assert(rank_before(m, t[i].item, t.last().item));
                }
                assert(t[i].item < e.item);
            } else {
                assert(r[i] == t[i] && r[j] == t[j]);
            }
        }
    } else {
        let d = t.drop_last();
        assert(rank_sorted(d, m));
        assert forall|k: int| 0 <= k < d.len() implies (#[trigger] d[k]).item < e.item by {
            assert(d[k] == t[k]);
        }
        lemma_insert_rank(d, e, m);
        let s = insert_stable(d, e, m);
        assert(r == s.push(t.last()));
        assert forall|i: int, j: int| 0 <= i < j < r.len() implies rank_before(m, r[i].item, r[j].item) by {
            if j == r.len() - 1 {
                assert(r[i] == s[i]);
                assert(s.contains(s[i]));
                lemma_insert_stable_contains(d, e, m, s[i]);
                if s[i] != e {
                    let q = choose|q: int| 0 <= q < d.len() && d[q] == s[i];
                    assert(t[q] == d[q]);
                }
            } else {
                assert(r[i] == s[i] && r[j] == s[j]);
            }
        }
    }
}

/// The stable sort by TWU of entries with increasing items is ordered by (TWU, item).
proof fn lemma_sort_rank(s: Seq<ItemEntry>, m: Map<ItemId, Utility>)
    requires
        ascending_items(s),
    ensures
        rank_sorted(stable_sort(s, m), m),
    decreases s.len(),
{
    if s.len() > 0 {
        let d = s.drop_last();
        assert(ascending_items(d));
        lemma_sort_rank(d, m);
        let t = stable_sort(d, m);
        assert forall|k: int| 0 <= k < t.len() implies (#[trigger] t[k]).item < s.last().item by {
            assert(t.contains(t[k]));
            lemma_stable_sort_contains(d, m, t[k]);
            let q = choose|q: int| 0 <= q < d.len() && d[q] == t[k];
            assert(s[q] == d[q]);
        }
        lemma_insert_rank(t, s.last(), m);
    }
}

/// A lookup that finds `x` finds one of its entries.
pub(crate) proof fn lemma_lookup_some(items: Seq<ItemEntry>, x: ItemId)
    ensures
        item_utility(items, x) matches Some(u) ==> exists|k: int| 0 <= k < items.len() && (#[trigger] items[k]).item == x && items[k].utility == u,
    decreases items.len(),
{
    if items.len() > 0 {
        if items.last().item == x {
            assert(items[items.len() - 1] == items.last());
        } else {
            let d = items.drop_last();
            lemma_lookup_some(d, x);
            if let Some(u) = item_utility(items, x) {
                let k = choose|k: int| 0 <= k < d.len() && (#[trigger] d[k]).item == x && d[k].utility == u;
                assert(items[k] == d[k]);
            }
        }
    }
}

/// Every item of an itemset with a utility in a transaction occurs there.
proof fn lemma_cand_items(items: Seq<ItemEntry>, p: Seq<ItemId>)
    ensures
        cand_tx_utility(items, p) is Some ==> forall|j: int| 0 <= j < p.len() ==> item_utility(items, #[trigger] p[j]) is Some,
    decreases p.len(),
{
    if p.len() > 0 {
        let q = p.drop_last();
        lemma_cand_items(items, q);
        if cand_tx_utility(items, p) is Some {
            assert forall|j: int| 0 <= j < p.len() implies item_utility(items, #[trigger] p[j]) is Some by {
                if j < q.len() {
                    assert(p[j] == q[j]);
                }
            }
        }
    }
}

/// In a row ordered by (TWU, item), the scan of `p` succeeds exactly for itemsets in
/// that order whose items all occur, and finds their utility.
pub proof fn lemma_scan_rank(r: Seq<ItemEntry>, p: Seq<ItemId>, m: Map<ItemId, Utility>)
    requires
        rank_sorted(r, m),
    ensures
        scan(r, p) matches Some(res) ==> {
            &&& cand_tx_utility(r, p) == Some(res.1)
            &&& rank_increasing(p, m)
            &&& p.len() > 0 ==> 0 < res.0 <= r.len() && r[res.0 - 1].item == p.last()
            &&& p.len() == 0 ==> res.0 == 0
        },
        rank_increasing(p, m) && cand_tx_utility(r, p) is Some ==> scan(r, p) is Some,
    decreases p.len(),
{
    assert(super::two_phase::distinct_items(r)) by {
        assert forall|i: int, j: int| 0 <= i < j < r.len() implies r[i].item != r[j].item by {
            assert(rank_before(m, r[i].item, r[j].item));
        }
    }
    if p.len() > 0 {
        let q = p.drop_last();
        let x = p.last();
        lemma_scan_rank(r, q, m);
        let items = row_items(r);
        if let Some(res) = scan(r, p) {
            let rq = scan(r, q).unwrap();
            lemma_first_from(items, x, rq.0);
            let pos = first_from(items, x, rq.0).unwrap();
            assert(items[pos] == r[pos].item);
            lemma_single_lookup(r, x, pos);
            assert forall|i: int, j: int| 0 <= i < j < p.len() implies rank_before(m, p[i], p[j]) by {
                if j < p.len() - 1 {
                    assert(p[i] == q[i] && p[j] == q[j]);
                } else {
                    assert(p[j] == x);
                    assert(r[pos].item == x);
                    let lq = rq.0 - 1;
                    assert(r[lq].item == q.last());
                    assert(rank_before(m, r[lq].item, r[pos].item));
                    if i < q.len() - 1 {
                        assert(rank_before(m, q[i], q[q.len() - 1]));
                    }
                    assert(p[i] == q[i]);
                }
            }
        }
        if rank_increasing(p, m) && cand_tx_utility(r, p) is Some {
            assert(rank_increasing(q, m)) by {
                assert forall|i: int, j: int| 0 <= i < j < q.len() implies rank_before(m, q[i], q[j]) by {
                    assert(p[i] == q[i] && p[j] == q[j]);
                }
            }
            let rq = scan(r, q).unwrap();
            lemma_lookup_some(r, x);
            let k = choose|k: int| 0 <= k < r.len() && (#[trigger] r[k]).item == x;
            assert(k >= rq.0) by {
                if q.len() > 0 {
                    let lq = rq.0 - 1;
                    assert(r[lq].item == q.last());
                    assert(rank_before(m, p[q.len() - 1], p[p.len() - 1]));
                    assert(p[q.len() - 1] == q.last());
                    if k < lq {
                        assert(rank_before(m, r[k].item, r[lq].item));
                    }
                }
            }
            lemma_first_from(items, x, rq.0);
            assert(items[k] == x);
        }
    }
}

/// In the sorted row of an ascending transaction, a passing item looks up the utility it
/// has in the transaction.
proof fn lemma_row_lookup(items: Seq<ItemEntry>, m: Map<ItemId, Utility>, x: ItemId)
    requires
        ascending_items(items),
        m.contains_key(x),
    ensures
        item_utility(stable_sort(kept_items(items, m), m), x) == item_utility(items, x),
{
    let row = stable_sort(kept_items(items, m), m);
    lemma_kept_ascending(items, m);
    lemma_sort_rank(kept_items(items, m), m);
    assert(super::two_phase::distinct_items(row)) by {
        assert forall|i: int, j: int| 0 <= i < j < row.len() implies row[i].item != row[j].item by {
            assert(rank_before(m, row[i].item, row[j].item));
        }
    }
    assert(super::two_phase::distinct_items(items)) by {
        assert forall|i: int, j: int| 0 <= i < j < items.len() implies items[i].item != items[j].item by {
            assert(items[i].item < items[j].item);
        }
    }
    if exists|k: int| 0 <= k < items.len() && (#[trigger] items[k]).item == x {
        let k = choose|k: int| 0 <= k < items.len() && (#[trigger] items[k]).item == x;
        lemma_single_lookup(items, x, k);
        assert(items.contains(items[k]));
        law_filtered_entries(items, m, items[k]);
        let j = choose|j: int| 0 <= j < row.len() && row[j] == items[k];
        lemma_single_lookup(row, x, j);
    } else {
        lemma_absent_lookup(items, x);
        assert forall|j: int| 0 <= j < row.len() implies (#[trigger] row[j]).item != x by {
            if row[j].item == x {
                assert(row.contains(row[j]));
                law_filtered_entries(items, m, row[j]);
                let k = choose|k: int| 0 <= k < items.len() && items[k] == row[j];
                assert(items[k].item == x);
            }
        }
        lemma_absent_lookup(row, x);
    }
}

/// In the sorted row of an ascending transaction, an itemset of passing items has the
/// utility it has in the transaction.
proof fn lemma_row_cand(items: Seq<ItemEntry>, m: Map<ItemId, Utility>, p: Seq<ItemId>)
    requires
        ascending_items(items),
        forall|j: int| 0 <= j < p.len() ==> m.contains_key(#[trigger] p[j]),
    ensures
        cand_tx_utility(stable_sort(kept_items(items, m), m), p) == cand_tx_utility(items, p),
    decreases p.len(),
{
    if p.len() > 0 {
        let q = p.drop_last();
        assert forall|j: int| 0 <= j < q.len() implies m.contains_key(#[trigger] q[j]) by {
            assert(q[j] == p[j]);
        }
        lemma_row_cand(items, m, q);
        assert(m.contains_key(p[p.len() - 1]));
        lemma_row_lookup(items, m, p.last());
    }
}

/// Over the rows of ascending transactions, the utility found in order of an itemset of
/// passing items in the order of (TWU, item) is its utility in the database.
pub proof fn lemma_ordered_is_db(txs: Seq<RawTransaction>, m: Map<ItemId, Utility>, p: Seq<ItemId>)
    requires
        db_ascending(txs),
        p.len() > 0,
        rank_increasing(p, m),
        forall|j: int| 0 <= j < p.len() ==> m.contains_key(#[trigger] p[j]),
    ensures
        ordered_utility(efim_rows(txs, m), p) == db_utility(txs, p),
    decreases txs.len(),
{
    if txs.len() > 0 {
        let d = txs.drop_last();
        assert(db_ascending(d)) by {
            assert forall|t: int| 0 <= t < d.len() implies ascending_items(#[trigger] d[t].items@) by {
                assert(d[t] == txs[t]);
            }
        }
        lemma_ordered_is_db(d, m, p);
        let tx = txs.last();
        assert(ascending_items(tx.items@)) by {
            assert(txs[txs.len() - 1] == tx);
        }
        let k = kept_items(tx.items@, m);
        let prev = efim_rows(d, m);
        let rows = efim_rows(txs, m);
        if k.len() > 0 {
            let row = stable_sort(k, m);
            assert(rows == prev + seq![row]);
            assert(rows.drop_last() =~= prev);
            assert(rows.last() == row);
            lemma_kept_ascending(tx.items@, m);
            lemma_sort_rank(k, m);
            lemma_scan_rank(row, p, m);
            lemma_row_cand(tx.items@, m, p);
        } else {
            assert(rows =~= prev);
            if cand_tx_utility(tx.items@, p) is Some {
                lemma_lookup_some(tx.items@, p.last());
                let j = choose|j: int| 0 <= j < tx.items@.len() && (#[trigger] tx.items@[j]).item == p.last();
                assert(m.contains_key(p[p.len() - 1]));
                assert(tx.items@.contains(tx.items@[j]));
                lemma_kept_contains_pub(tx.items@, m, tx.items@[j]);
                assert(k.contains(tx.items@[j]));
            }
        }
    }
}

/// An itemset found in order in one of the rows of ascending transactions is in the
/// order of (TWU, item), and its items pass.
pub proof fn lemma_found_is_rank(txs: Seq<RawTransaction>, m: Map<ItemId, Utility>, p: Seq<ItemId>, i: int)
    requires
        db_ascending(txs),
        0 <= i < efim_rows(txs, m).len(),
        scan(efim_rows(txs, m)[i], p) is Some,
    ensures
        rank_increasing(p, m),
        forall|j: int| 0 <= j < p.len() ==> m.contains_key(#[trigger] p[j]),
    decreases txs.len(),
{
    let d = txs.drop_last();
    assert(db_ascending(d)) by {
        assert forall|t: int| 0 <= t < d.len() implies ascending_items(#[trigger] d[t].items@) by {
            assert(d[t] == txs[t]);
        }
    }
    let tx = txs.last();
    assert(ascending_items(tx.items@)) by {
        assert(txs[txs.len() - 1] == tx);
    }
    let k = kept_items(tx.items@, m);
    let prev = efim_rows(d, m);
    let rows = efim_rows(txs, m);
    if i < prev.len() {
        if k.len() > 0 {
            assert(rows == prev + seq![stable_sort(k, m)]);
        } else {
            assert(rows =~= prev);
        }
        assert(rows[i] == prev[i]);
        lemma_found_is_rank(d, m, p, i);
    } else {
        let row = stable_sort(k, m);
        if k.len() == 0 {
            assert(rows =~= prev);
        }
        assert(rows == prev + seq![row]);
        assert(rows[i] == row);
        lemma_kept_ascending(tx.items@, m);
        lemma_sort_rank(k, m);
        lemma_scan_rank(row, p, m);
        lemma_cand_items(row, p);
        assert forall|j: int| 0 <= j < p.len() implies m.contains_key(#[trigger] p[j]) by {
            assert(item_utility(row, p[j]) is Some);
            lemma_lookup_some(row, p[j]);
            let q = choose|q: int| 0 <= q < row.len() && (#[trigger] row[q]).item == p[j];
            assert(row.contains(row[q]));
            law_filtered_entries(tx.items@, m, row[q]);
        }
    }
}

} // verus!
