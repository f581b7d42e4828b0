//! Upper bounds on itemset utilities: in a database whose utilities are non-negative and
//! whose transaction utilities cover their entries, the summed transaction utility of the
//! transactions holding an itemset bounds the utility of every itemset holding it.
use vstd::prelude::*;
use crate::types::{ItemId, ItemEntry, RawTransaction};
use crate::preprocessing::twu_filter::{
    tx_contrib, spec_twu, passing, occurs, occurs_in, abs_weight, lemma_twu_bound, kept_items, stable_sort,
    insert_stable, lemma_kept_contains_pub, lemma_stable_sort_contains,
};
use super::exact_utility::{item_utility, cand_tx_utility, db_utility};
use super::two_phase::{tid_list, list_sum, distinct_items, db_distinct, lemma_absent_lookup, lemma_tid_list_shape,
    lemma_list_sum_is_utility, lemma_list_sum_append};

verus! {

/// The utilities of the entries, summed.
pub open spec fn entries_total(items: Seq<ItemEntry>) -> int
    decreases items.len(),
{
    if items.len() == 0 { 0 } else { entries_total(items.drop_last()) + items.last().utility }
}

/// Every entry's utility is non-negative, and each transaction's utility covers the
/// utilities of its entries.
pub open spec fn db_nonneg(txs: Seq<RawTransaction>) -> bool {
    forall|t: int| 0 <= t < txs.len() ==> {
        &&& forall|k: int| 0 <= k < (#[trigger] txs[t]).items@.len() ==> txs[t].items@[k].utility >= 0
        &&& txs[t].transaction_utility >= entries_total(txs[t].items@)
    }
}

/// The summed transaction utilities of the listed transactions.
pub open spec fn list_tu(txs: Seq<RawTransaction>, l: Seq<(u32, int)>) -> int
    decreases l.len(),
{
    if l.len() == 0 { 0 } else { list_tu(txs, l.drop_last()) + txs[l.last().0 as int].transaction_utility }
}

/// The utilities that the items of `c` look up, summed (a missing item counts zero).
pub open spec fn lookup_sum(items: Seq<ItemEntry>, c: Seq<ItemId>) -> int
    decreases c.len(),
{
    if c.len() == 0 {
        0
    } else {
        lookup_sum(items, c.drop_last()) + match item_utility(items, c.last()) {
            Some(u) => u as int,
            None => 0,
        }
    }
}

/// Every item of `p` is an item of `c`.
pub open spec fn items_within(p: Seq<ItemId>, c: Seq<ItemId>) -> bool {
    forall|i: int| 0 <= i < p.len() ==> c.contains(#[trigger] p[i])
}

/// An itemset's utility in a transaction is defined exactly when each of its items
/// occurs there, and is then the sum of their utilities.
pub proof fn lemma_cand_some(items: Seq<ItemEntry>, c: Seq<ItemId>)
    ensures
        cand_tx_utility(items, c) is Some <==> forall|i: int| 0 <= i < c.len() ==> item_utility(items, #[trigger] c[i]) is Some,
        cand_tx_utility(items, c) matches Some(u) ==> u == lookup_sum(items, c),
    decreases c.len(),
{
    if c.len() > 0 {
        let d = c.drop_last();
        lemma_cand_some(items, d);
        if cand_tx_utility(items, c) is Some {
            assert(cand_tx_utility(items, d) is Some);
            assert forall|i: int| 0 <= i < c.len() implies item_utility(items, #[trigger] c[i]) is Some by {
                if i < d.len() {
                    assert(c[i] == d[i]);
                    assert(item_utility(items, d[i]) is Some);
                }
            }
        }
        if forall|i: int| 0 <= i < c.len() ==> item_utility(items, #[trigger] c[i]) is Some {
            assert(item_utility(items, c[c.len() - 1]) is Some);
            assert forall|i: int| 0 <= i < d.len() implies item_utility(items, #[trigger] d[i]) is Some by {
                assert(c[i] == d[i]);
                assert(item_utility(items, c[i]) is Some);
            }
            assert(cand_tx_utility(items, d) is Some);
        }
    }
}

/// If every item of `p` is an item of `c`, a transaction holding `c` holds `p`.
pub proof fn lemma_cand_within(items: Seq<ItemEntry>, p: Seq<ItemId>, c: Seq<ItemId>)
    requires
        items_within(p, c),
        cand_tx_utility(items, c) is Some,
    ensures
        cand_tx_utility(items, p) is Some,
{
    lemma_cand_some(items, c);
    lemma_cand_some(items, p);
    assert forall|i: int| 0 <= i < p.len() implies item_utility(items, #[trigger] p[i]) is Some by {
        assert(c.contains(p[i]));
        let j = choose|j: int| 0 <= j < c.len() && c[j] == p[i];
        assert(item_utility(items, c[j]) is Some);
    }
}

/// Looking up in all entries adds the last entry's utility, once, when its item is one of
/// `c`'s, to looking up in the entries before it.
proof fn lemma_lookup_split(items: Seq<ItemEntry>, c: Seq<ItemId>)
    requires
        items.len() > 0,
        distinct_items(items),
        c.no_duplicates(),
    ensures
        lookup_sum(items, c) == lookup_sum(items.drop_last(), c) + (if c.contains(items.last().item) {
            items.last().utility as int
        } else {
            0
        }),
    decreases c.len(),
{
    let y = items.last().item;
    let dl = items.drop_last();
    if c.len() > 0 {
        let d = c.drop_last();
        assert(d.no_duplicates());
        lemma_lookup_split(items, d);
        assert forall|k: int| 0 <= k < dl.len() implies (#[trigger] dl[k]).item != y by {
            assert(items[k].item != items[items.len() - 1].item);
        }
        lemma_absent_lookup(dl, y);
        let z = c.last();
        if z == y {
            assert(!d.contains(y)) by {
                if d.contains(y) {
                    let j = choose|j: int| 0 <= j < d.len() && d[j] == y;
                    assert(c[j] == c[c.len() - 1]);
                }
            }
            assert(c.contains(y)) by {
                assert(c[c.len() - 1] == y);
            }
        } else {
            assert(c.contains(y) <==> d.contains(y)) by {
                if c.contains(y) {
                    let j = choose|j: int| 0 <= j < c.len() && c[j] == y;
                    assert(j < d.len());
                    assert(d[j] == y);
                }
                if d.contains(y) {
                    let j = choose|j: int| 0 <= j < d.len() && d[j] == y;
                    assert(c[j] == y);
                }
            }
        }
    }
}

/// In a transaction without repeated items and with non-negative utilities, the items of
/// an itemset without repeats look up at most the transaction's summed utilities.
proof fn lemma_lookup_bound(items: Seq<ItemEntry>, c: Seq<ItemId>)
    requires
        distinct_items(items),
        forall|k: int| 0 <= k < items.len() ==> (#[trigger] items[k]).utility >= 0,
        c.no_duplicates(),
    ensures
        lookup_sum(items, c) <= entries_total(items),
    decreases items.len(),
{
    if items.len() == 0 {
        lemma_lookup_empty(items, c);
    } else {
        let dl = items.drop_last();
        assert(distinct_items(dl));
        assert forall|k: int| 0 <= k < dl.len() implies (#[trigger] dl[k]).utility >= 0 by {
            assert(items[k].utility >= 0);
        }
        lemma_lookup_bound(dl, c);
        lemma_lookup_split(items, c);
        assert(items[items.len() - 1].utility >= 0);
    }
}

proof fn lemma_lookup_empty(items: Seq<ItemEntry>, c: Seq<ItemId>)
    requires
        items.len() == 0,
    ensures
        lookup_sum(items, c) == 0,
    decreases c.len(),
{
    if c.len() > 0 {
        lemma_lookup_empty(items, c.drop_last());
    }
}

/// In a transaction without repeated items, with non-negative utilities covered by its
/// transaction utility, an itemset without repeats has at most that utility.
pub proof fn lemma_tx_bound(tx: RawTransaction, c: Seq<ItemId>)
    requires
        distinct_items(tx.items@),
        forall|k: int| 0 <= k < tx.items@.len() ==> tx.items@[k].utility >= 0,
        tx.transaction_utility >= entries_total(tx.items@),
        c.no_duplicates(),
    ensures
        cand_tx_utility(tx.items@, c) matches Some(u) ==> u <= tx.transaction_utility,
{
    lemma_cand_some(tx.items@, c);
    assert forall|k: int| 0 <= k < tx.items@.len() implies (#[trigger] tx.items@[k]).utility >= 0 by {}
    lemma_lookup_bound(tx.items@, c);
}

pub proof fn lemma_list_tu_push(txs: Seq<RawTransaction>, l: Seq<(u32, int)>, e: (u32, int))
    ensures
        list_tu(txs, l.push(e)) == list_tu(txs, l) + txs[e.0 as int].transaction_utility,
{
    assert(l.push(e).drop_last() =~= l);
}

/// A transaction holding `c` holds `p` and transaction utilities are non-negative: the
/// transactions holding `p` weigh at least as much as those holding `c`.
pub proof fn lemma_list_tu_mono(txs: Seq<RawTransaction>, p: Seq<ItemId>, c: Seq<ItemId>, n: int)
    requires
        0 <= n <= txs.len(),
        n <= u32::MAX,
        forall|t: int| 0 <= t < n && cand_tx_utility(txs[t].items@, c) is Some ==> cand_tx_utility(txs[t].items@, p) is Some,
        forall|t: int| 0 <= t < n ==> (#[trigger] txs[t]).transaction_utility >= 0,
    ensures
        list_tu(txs, tid_list(txs, p, n)) >= list_tu(txs, tid_list(txs, c, n)),
    decreases n,
{
    if n > 0 {
        lemma_list_tu_mono(txs, p, c, n - 1);
        let t = n - 1;
        assert(txs[t].transaction_utility >= 0);
        match cand_tx_utility(txs[t].items@, p) {
            Some(u) => {
                assert(tid_list(txs, p, n) =~= tid_list(txs, p, n - 1).push((t as u32, u)));
                lemma_list_tu_push(txs, tid_list(txs, p, n - 1), (t as u32, u));
            },
            None => {
                assert(tid_list(txs, p, n) =~= tid_list(txs, p, n - 1));
            },
        }
        match cand_tx_utility(txs[t].items@, c) {
            Some(u) => {
                assert(tid_list(txs, c, n) =~= tid_list(txs, c, n - 1).push((t as u32, u)));
                lemma_list_tu_push(txs, tid_list(txs, c, n - 1), (t as u32, u));
            },
            None => {
                assert(tid_list(txs, c, n) =~= tid_list(txs, c, n - 1));
            },
        }
    }
}

/// The transactions holding `c` weigh at least `c`'s utility in them.
pub proof fn lemma_list_tu_covers(txs: Seq<RawTransaction>, c: Seq<ItemId>, n: int)
    requires
        0 <= n <= txs.len(),
        n <= u32::MAX,
        db_distinct(txs),
        db_nonneg(txs),
        c.no_duplicates(),
    ensures
        list_tu(txs, tid_list(txs, c, n)) >= list_sum(tid_list(txs, c, n)),
    decreases n,
{
    if n > 0 {
        lemma_list_tu_covers(txs, c, n - 1);
        let t = n - 1;
        match cand_tx_utility(txs[t].items@, c) {
            Some(u) => {
                assert(distinct_items(txs[t].items@));
                lemma_tx_bound(txs[t], c);
                let e = (t as u32, u);
                assert(tid_list(txs, c, n) =~= tid_list(txs, c, n - 1).push(e));
                lemma_list_tu_push(txs, tid_list(txs, c, n - 1), e);
                assert(tid_list(txs, c, n - 1).push(e).drop_last() =~= tid_list(txs, c, n - 1));
            },
            None => {
                assert(tid_list(txs, c, n) =~= tid_list(txs, c, n - 1));
            },
        }
    }
}

/// The transactions holding `p` weigh at least the utility of every itemset `c` (without
/// repeats) whose items include `p`'s, in a database without repeated items whose
/// utilities are non-negative and covered by the transaction utilities.
pub proof fn lemma_weight_bounds_utility(txs: Seq<RawTransaction>, p: Seq<ItemId>, c: Seq<ItemId>)
    requires
        txs.len() <= u32::MAX,
        db_distinct(txs),
        db_nonneg(txs),
        c.no_duplicates(),
        items_within(p, c),
    ensures
        list_tu(txs, tid_list(txs, p, txs.len() as int)) >= db_utility(txs, c),
        db_utility(txs, c) > 0 ==> tid_list(txs, p, txs.len() as int).len() > 0,
{
    let n = txs.len() as int;
    assert forall|t: int| 0 <= t < n && cand_tx_utility(txs[t].items@, c) is Some
        implies cand_tx_utility(txs[t].items@, p) is Some by {
        lemma_cand_within(txs[t].items@, p, c);
    }
    assert forall|t: int| 0 <= t < n implies (#[trigger] txs[t]).transaction_utility >= 0 by {
        lemma_entries_nonneg(txs[t].items@);
    }
    lemma_list_tu_mono(txs, p, c, n);
    lemma_list_tu_covers(txs, c, n);
    lemma_list_sum_is_utility(txs, c, n);
    assert(txs.take(n) =~= txs);
    if db_utility(txs, c) > 0 {
        let l = tid_list(txs, c, n);
        if l.len() == 0 {
            assert(list_sum(l) == 0);
        }
        lemma_tid_list_shape(txs, c, n);
        let t = l[0].0 as int;
        assert(cand_tx_utility(txs[t].items@, c) is Some);
        lemma_cand_within(txs[t].items@, p, c);
        lemma_tid_list_shape(txs, p, n);
        let a = choose|a: int| 0 <= a < tid_list(txs, p, n).len() && tid_list(txs, p, n)[a].0 == t;
    }
}

proof fn lemma_entries_nonneg(items: Seq<ItemEntry>)
    requires
        forall|k: int| 0 <= k < items.len() ==> items[k].utility >= 0,
    ensures
        entries_total(items) >= 0,
    decreases items.len(),
{
    if items.len() > 0 {
        let d = items.drop_last();
        assert forall|k: int| 0 <= k < d.len() implies d[k].utility >= 0 by {
            assert(d[k] == items[k]);
        }
        lemma_entries_nonneg(d);
        assert(items[items.len() - 1].utility >= 0);
    }
}

/// In a transaction without repeated items, an item's TWU contribution is the transaction
/// utility when it occurs, else zero.
proof fn lemma_contrib_distinct(items: Seq<ItemEntry>, x: ItemId, tu: i64)
    requires
        distinct_items(items),
    ensures
        tx_contrib(items, x, tu) == (if item_utility(items, x) is Some { tu as int } else { 0 }),
    decreases items.len(),
{
    if items.len() > 0 {
        let d = items.drop_last();
        assert(distinct_items(d));
        lemma_contrib_distinct(d, x, tu);
        if items.last().item == x {
            assert forall|k: int| 0 <= k < d.len() implies (#[trigger] d[k]).item != x by {
                assert(items[k].item != items[items.len() - 1].item);
            }
            lemma_absent_lookup(d, x);
        }
    }
}

/// Without repeated items, an item's TWU is the weight of the transactions holding it.
pub proof fn lemma_twu_is_weight(txs: Seq<RawTransaction>, x: ItemId, n: int)
    requires
        0 <= n <= txs.len(),
        n <= u32::MAX,
        db_distinct(txs),
    ensures
        spec_twu(txs.take(n), x) == list_tu(txs, tid_list(txs, seq![x], n)),
    decreases n,
{
    if n > 0 {
        lemma_twu_is_weight(txs, x, n - 1);
        let t = n - 1;
        assert(txs.take(n).drop_last() =~= txs.take(n - 1));
        assert(txs.take(n).last() == txs[t]);
        lemma_contrib_distinct(txs[t].items@, x, txs[t].transaction_utility);
        lemma_cand_some(txs[t].items@, seq![x]);
        match cand_tx_utility(txs[t].items@, seq![x]) {
            Some(u) => {
                assert(tid_list(txs, seq![x], n) =~= tid_list(txs, seq![x], n - 1).push((t as u32, u)));
                lemma_list_tu_push(txs, tid_list(txs, seq![x], n - 1), (t as u32, u));
                assert(item_utility(txs[t].items@, seq![x][0]) is Some);
            },
            None => {
                assert(tid_list(txs, seq![x], n) =~= tid_list(txs, seq![x], n - 1));
                if item_utility(txs[t].items@, x) is Some {
                    assert(forall|i: int| 0 <= i < 1 ==> item_utility(txs[t].items@, #[trigger] seq![x][i]) is Some);
                }
            },
        }
    } else {
        assert(txs.take(0) =~= Seq::<RawTransaction>::empty());
    }
}

/// An item that a lookup finds occurs among the entries.
proof fn lemma_lookup_occurs(items: Seq<ItemEntry>, y: ItemId)
    requires
        item_utility(items, y) is Some,
    ensures
        occurs_in(items, y),
    decreases items.len(),
{
    if items.last().item == y {
        assert(items[items.len() - 1].item == y);
    } else {
        lemma_lookup_occurs(items.drop_last(), y);
        let k = choose|k: int| 0 <= k < items.drop_last().len() && (#[trigger] items.drop_last()[k]).item == y;
        assert(items[k].item == y);
    }
}

/// Every item of an itemset (without repeats) whose utility reaches a positive threshold
/// passes the TWU filter at that threshold, in a database without repeated items whose
/// utilities are non-negative and covered by the transaction utilities.
pub proof fn lemma_owed_item_passes(txs: Seq<RawTransaction>, min_utility: i64, c: Seq<ItemId>, y: ItemId)
    requires
        txs.len() <= u32::MAX,
        db_distinct(txs),
        db_nonneg(txs),
        min_utility > 0,
        c.no_duplicates(),
        c.contains(y),
        db_utility(txs, c) >= min_utility,
    ensures
        passing(txs, min_utility, y),
{
    let n = txs.len() as int;
    let p = seq![y];
    assert(items_within(p, c)) by {
        assert forall|i: int| 0 <= i < p.len() implies c.contains(#[trigger] p[i]) by {}
    }
    lemma_weight_bounds_utility(txs, p, c);
    lemma_twu_is_weight(txs, y, n);
    assert(txs.take(n) =~= txs);
    let l = tid_list(txs, p, n);
    lemma_tid_list_shape(txs, p, n);
    let t = l[0].0 as int;
    assert(cand_tx_utility(txs[t].items@, p) is Some);
    lemma_cand_some(txs[t].items@, p);
    assert(item_utility(txs[t].items@, p[0]) is Some);
    lemma_lookup_occurs(txs[t].items@, y);
    assert(occurs(txs, y));
}

/// With non-negative utilities, a lookup finds a non-negative utility.
proof fn lemma_lookup_nonneg(items: Seq<ItemEntry>, x: ItemId)
    requires
        forall|k: int| 0 <= k < items.len() ==> (#[trigger] items[k]).utility >= 0,
    ensures
        item_utility(items, x) matches Some(u) ==> u >= 0,
    decreases items.len(),
{
    if items.len() > 0 {
        let d = items.drop_last();
        assert forall|k: int| 0 <= k < d.len() implies (#[trigger] d[k]).utility >= 0 by {
            assert(d[k] == items[k]);
        }
        lemma_lookup_nonneg(d, x);
        assert(items[items.len() - 1].utility >= 0);
    }
}

/// With non-negative utilities, an itemset's utility in a transaction is non-negative.
pub(crate) proof fn lemma_cand_nonneg(items: Seq<ItemEntry>, c: Seq<ItemId>)
    requires
        forall|k: int| 0 <= k < items.len() ==> (#[trigger] items[k]).utility >= 0,
    ensures
        cand_tx_utility(items, c) matches Some(u) ==> u >= 0,
    decreases c.len(),
{
    if c.len() > 0 {
        lemma_cand_nonneg(items, c.drop_last());
        lemma_lookup_nonneg(items, c.last());
    }
}

/// With non-negative utilities, every utility of a list is non-negative.
pub proof fn lemma_tid_list_nonneg(txs: Seq<RawTransaction>, c: Seq<ItemId>, n: int)
    requires
        0 <= n <= txs.len(),
        db_nonneg(txs),
    ensures
        forall|k: int| 0 <= k < tid_list(txs, c, n).len() ==> (#[trigger] tid_list(txs, c, n)[k]).1 >= 0,
    decreases n,
{
    if n > 0 {
        lemma_tid_list_nonneg(txs, c, n - 1);
        let t = n - 1;
        assert forall|k: int| 0 <= k < txs[t].items@.len() implies (#[trigger] txs[t].items@[k]).utility >= 0 by {}
        lemma_cand_nonneg(txs[t].items@, c);
        let a = tid_list(txs, c, n - 1);
        let b = match cand_tx_utility(txs[t].items@, c) {
            Some(u) => seq![(t as u32, u)],
            None => Seq::<(u32, int)>::empty(),
        };
        assert forall|k: int| 0 <= k < (a + b).len() implies (#[trigger] (a + b)[k]).1 >= 0 by {
            if k < a.len() {
                assert((a + b)[k] == a[k]);
            } else {
                assert((a + b)[k] == b[k - a.len()]);
            }
        }
    }
}

/// A list whose utilities are non-negative: its partial sums stay between zero and its sum.
pub proof fn lemma_list_sum_take(l: Seq<(u32, int)>, k: int)
    requires
        0 <= k <= l.len(),
        forall|i: int| 0 <= i < l.len() ==> (#[trigger] l[i]).1 >= 0,
    ensures
        0 <= list_sum(l.take(k)) <= list_sum(l),
    decreases l.len() - k,
{
    let h = l.take(k);
    assert forall|i: int| 0 <= i < h.len() implies (#[trigger] h[i]).1 >= 0 by {
        assert(h[i] == l[i]);
    }
    lemma_list_sum_nonneg(h);
    if k < l.len() {
        lemma_list_sum_take(l, k + 1);
        assert(l.take(k + 1).drop_last() =~= h);
        assert(l.take(k + 1).last() == l[k]);
    } else {
        assert(h =~= l);
    }
}

proof fn lemma_list_sum_nonneg(l: Seq<(u32, int)>)
    requires
        forall|i: int| 0 <= i < l.len() ==> (#[trigger] l[i]).1 >= 0,
    ensures
        list_sum(l) >= 0,
    decreases l.len(),
{
    if l.len() > 0 {
        let d = l.drop_last();
        assert forall|i: int| 0 <= i < d.len() implies (#[trigger] d[i]).1 >= 0 by {
            assert(d[i] == l[i]);
        }
        lemma_list_sum_nonneg(d);
        assert(l[l.len() - 1].1 >= 0);
    }
}

proof fn lemma_list_tu_nonneg(txs: Seq<RawTransaction>, c: Seq<ItemId>, m: int)
    requires
        0 <= m <= txs.len(),
        m <= u32::MAX,
        db_nonneg(txs),
    ensures
        list_tu(txs, tid_list(txs, c, m)) >= 0,
    decreases m,
{
    if m > 0 {
        lemma_list_tu_nonneg(txs, c, m - 1);
        let t = m - 1;
        lemma_entries_nonneg(txs[t].items@);
        if let Some(u) = cand_tx_utility(txs[t].items@, c) {
            let e = (t as u32, u);
            assert(tid_list(txs, c, m) =~= tid_list(txs, c, m - 1).push(e));
            lemma_list_tu_push(txs, tid_list(txs, c, m - 1), e);
        } else {
            assert(tid_list(txs, c, m) =~= tid_list(txs, c, m - 1));
        }
    } else {
        assert(tid_list(txs, c, 0) =~= Seq::<(u32, int)>::empty());
    }
}

/// With non-negative transaction utilities, the weight of an itemset's list over the
/// first `m` transactions is at most that over the first `n`.
proof fn lemma_list_tu_prefix(txs: Seq<RawTransaction>, c: Seq<ItemId>, m: int, n: int)
    requires
        0 <= m <= n <= txs.len(),
        n <= u32::MAX,
        db_nonneg(txs),
    ensures
        0 <= list_tu(txs, tid_list(txs, c, m)) <= list_tu(txs, tid_list(txs, c, n)),
    decreases n,
{
    if n > m {
        lemma_list_tu_prefix(txs, c, m, n - 1);
        let t = n - 1;
        lemma_entries_nonneg(txs[t].items@);
        if let Some(u) = cand_tx_utility(txs[t].items@, c) {
            let e = (t as u32, u);
            assert(tid_list(txs, c, n) =~= tid_list(txs, c, n - 1).push(e));
            lemma_list_tu_push(txs, tid_list(txs, c, n - 1), e);
        } else {
            assert(tid_list(txs, c, n) =~= tid_list(txs, c, n - 1));
        }
    } else {
        lemma_list_tu_nonneg(txs, c, m);
    }
}

/// In a database without repeated items, with non-negative utilities covered by the
/// transaction utilities, the utility and the weight of the list of a non-empty itemset
/// without repeats, over any first transactions, lie between zero and the database's
/// weight.
pub proof fn lemma_sums_fit(txs: Seq<RawTransaction>, c: Seq<ItemId>, m: int)
    requires
        0 <= m <= txs.len(),
        txs.len() <= u32::MAX,
        db_distinct(txs),
        db_nonneg(txs),
        c.len() > 0,
        c.no_duplicates(),
    ensures
        0 <= list_sum(tid_list(txs, c, m)) <= list_tu(txs, tid_list(txs, c, m)),
        list_tu(txs, tid_list(txs, c, m)) <= abs_weight(txs),
{
    let n = txs.len() as int;
    lemma_tid_list_nonneg(txs, c, m);
    lemma_list_sum_nonneg(tid_list(txs, c, m));
    lemma_list_tu_covers(txs, c, m);
    lemma_list_tu_prefix(txs, c, m, n);
    let p = seq![c[0]];
    assert(items_within(p, c)) by {
        assert(c.contains(c[0]));
    }
    assert forall|t: int| 0 <= t < n && cand_tx_utility(txs[t].items@, c) is Some
        implies cand_tx_utility(txs[t].items@, p) is Some by {
        lemma_cand_within(txs[t].items@, p, c);
    }
    assert forall|t: int| 0 <= t < n implies (#[trigger] txs[t]).transaction_utility >= 0 by {
        lemma_entries_nonneg(txs[t].items@);
    }
    lemma_list_tu_mono(txs, p, c, n);
    lemma_twu_is_weight(txs, c[0], n);
    assert(txs.take(n) =~= txs);
    lemma_twu_bound(txs, c[0]);
}

proof fn lemma_insert_stable_total(t: Seq<ItemEntry>, e: ItemEntry, key: Map<ItemId, i64>)
    ensures
        entries_total(insert_stable(t, e, key)) == entries_total(t) + e.utility,
    decreases t.len(),
{
    let r = insert_stable(t, e, key);
    if t.len() == 0 {
        assert(r == seq![e]);
        assert(r.drop_last() =~= Seq::<ItemEntry>::empty());
        assert(entries_total(Seq::<ItemEntry>::empty()) == 0);
        assert(entries_total(r) == entries_total(r.drop_last()) + r.last().utility);
    } else if key[t.last().item] <= key[e.item] {
        assert(r == t.push(e));
        assert(r.drop_last() =~= t);
        assert(entries_total(r) == entries_total(r.drop_last()) + r.last().utility);
    } else {
        let s = insert_stable(t.drop_last(), e, key);
        lemma_insert_stable_total(t.drop_last(), e, key);
        assert(r == s.push(t.last()));
        assert(r.drop_last() =~= s);
        assert(r.last() == t.last());
    }
}

/// Sorting keeps the summed utility.
pub proof fn lemma_stable_sort_total(s: Seq<ItemEntry>, key: Map<ItemId, i64>)
    ensures
        entries_total(stable_sort(s, key)) == entries_total(s),
    decreases s.len(),
{
    if s.len() > 0 {
        lemma_stable_sort_total(s.drop_last(), key);
        lemma_insert_stable_total(stable_sort(s.drop_last(), key), s.last(), key);
    }
}

/// With non-negative utilities, keeping some entries keeps at most their sum.
pub proof fn lemma_kept_total(items: Seq<ItemEntry>, m: Map<ItemId, i64>)
    requires
        forall|k: int| 0 <= k < items.len() ==> (#[trigger] items[k]).utility >= 0,
    ensures
        0 <= entries_total(kept_items(items, m)) <= entries_total(items),
    decreases items.len(),
{
    if items.len() > 0 {
        let d = items.drop_last();
        assert forall|k: int| 0 <= k < d.len() implies (#[trigger] d[k]).utility >= 0 by {
            assert(d[k] == items[k]);
        }
        lemma_kept_total(d, m);
        assert(items[items.len() - 1].utility >= 0);
        if m.contains_key(items.last().item) {
            assert(kept_items(items, m).drop_last() =~= kept_items(d, m));
        }
    }
}

/// With non-negative utilities, a prefix sums to between zero and the whole.
pub proof fn lemma_entries_take(s: Seq<ItemEntry>, k: int)
    requires
        0 <= k <= s.len(),
        forall|i: int| 0 <= i < s.len() ==> (#[trigger] s[i]).utility >= 0,
    ensures
        0 <= entries_total(s.take(k)) <= entries_total(s),
    decreases s.len() - k,
{
    let h = s.take(k);
    assert forall|i: int| 0 <= i < h.len() implies (#[trigger] h[i]).utility >= 0 by {
        assert(h[i] == s[i]);
    }
    lemma_entries_nonneg(h);
    if k < s.len() {
        lemma_entries_take(s, k + 1);
        assert(s.take(k + 1).drop_last() =~= h);
        assert(s.take(k + 1).last() == s[k]);
    } else {
        assert(h =~= s);
    }
}

/// The filtered, sorted entries of a transaction of a database with non-negative
/// utilities covered by the transaction utilities: non-negative, summing to at most the
/// transaction utility.
pub proof fn lemma_filtered_total(tx: RawTransaction, m: Map<ItemId, i64>)
    requires
        forall|k: int| 0 <= k < tx.items@.len() ==> (#[trigger] tx.items@[k]).utility >= 0,
        tx.transaction_utility >= entries_total(tx.items@),
    ensures
        forall|k: int| 0 <= k < stable_sort(kept_items(tx.items@, m), m).len()
            ==> (#[trigger] stable_sort(kept_items(tx.items@, m), m)[k]).utility >= 0,
        entries_total(stable_sort(kept_items(tx.items@, m), m)) <= tx.transaction_utility,
{
    let items = tx.items@;
    let kept = kept_items(items, m);
    let f = stable_sort(kept, m);
    lemma_kept_total(items, m);
    lemma_stable_sort_total(kept, m);
    assert forall|k: int| 0 <= k < f.len() implies (#[trigger] f[k]).utility >= 0 by {
        assert(f.contains(f[k]));
        lemma_stable_sort_contains(kept, m, f[k]);
        lemma_kept_contains_pub(items, m, f[k]);
        let q = choose|q: int| 0 <= q < items.len() && items[q] == f[k];
    }
}

} // verus!
