//! Two-Phase over a vertical database: per item, the list of transactions holding it
//! with its utility there; itemsets grow depth-first by intersecting such lists.
use vstd::prelude::*;
use crate::preprocessing::twu_filter::lemma_weight_twu_fits;
use crate::types::{ItemId, Utility, RawTransaction, ItemEntry};
use crate::storage::chunk_store::ChunkStore;
use crate::storage::le_bytes::{spec_u32_le, spec_i64_le, push_u32_le, push_i64_le, read_u32_le, read_i64_le, lemma_le_lengths, lemma_le_injective};
use crate::preprocessing::twu_filter::{TwuFilter, abs_weight, passing};
use super::memory_guard::{MemoryGuard, spec_try_alloc};
use super::utility_bounds::{
    list_tu, lemma_list_tu_push, db_nonneg, items_within, lemma_weight_bounds_utility, lemma_owed_item_passes,
    lemma_sums_fit, lemma_tid_list_nonneg, lemma_list_sum_take,
};
use super::exact_utility::{Hui, MiningError, item_utility, cand_tx_utility, db_utility, sound_huis};
use super::up_tree::{sort_pairs, pair_before};

verus! {

/// Two-Phase: TWU pruning over a vertical database, searched depth-first.
pub struct TwoPhase;

/// A transaction index with a utility: an entry of an item's list, or of the list of a
/// grown itemset.
#[derive(Clone, Copy, Debug)]
pub struct TxEntry {
    pub tx_idx: u32,
    pub util: Utility,
}

/// Node lists of at least this many bytes are kept encoded, as a page would hold them.
pub const NODE_PAGE_THRESHOLD_BYTES: usize = 4096;

/// The 12 bytes of an entry: index, then utility (little-endian).
pub open spec fn entry_bytes(e: TxEntry) -> Seq<u8> {
    spec_u32_le(e.tx_idx) + spec_i64_le(e.util)
}

/// The bytes of a list of entries, one after another.
pub open spec fn entries_bytes(s: Seq<TxEntry>) -> Seq<u8>
    decreases s.len(),
{
    if s.len() == 0 { Seq::empty() } else { entries_bytes(s.drop_last()) + entry_bytes(s.last()) }
}

proof fn lemma_entries_bytes(s: Seq<TxEntry>)
    ensures
        entries_bytes(s).len() == 12 * s.len(),
        forall|i: int| 0 <= i < s.len() ==> #[trigger] entries_bytes(s).subrange(12 * i, 12 * i + 12) == entry_bytes(s[i]),
    decreases s.len(),
{
    lemma_le_lengths();
    if s.len() > 0 {
        lemma_entries_bytes(s.drop_last());
        let b = entries_bytes(s);
        let a = entries_bytes(s.drop_last());
        assert forall|i: int| 0 <= i < s.len() implies #[trigger] b.subrange(12 * i, 12 * i + 12) == entry_bytes(s[i]) by {
            if i < s.len() - 1 {
                assert(b.subrange(12 * i, 12 * i + 12) =~= a.subrange(12 * i, 12 * i + 12));
            } else {
                assert(b.subrange(12 * i, 12 * i + 12) =~= entry_bytes(s.last()));
            }
        }
    }
}

/// Encodes entries as bytes.
pub fn serialize_entries(entries: &[TxEntry]) -> (r: Vec<u8>)
    ensures
        r@ == entries_bytes(entries@),
{
    let mut buf: Vec<u8> = Vec::new();
    let mut i: usize = 0;
    while i < entries.len()
        invariant
            i <= entries@.len(),
            buf@ == entries_bytes(entries@.subrange(0, i as int)),
        decreases entries@.len() - i,
    {
        let e = entries[i];
        push_u32_le(&mut buf, e.tx_idx);
        push_i64_le(&mut buf, e.util);
        proof {
            let t = entries@.subrange(0, i as int + 1);
            assert(t.drop_last() =~= entries@.subrange(0, i as int));
            assert(buf@ =~= entries_bytes(t));
        }
        i += 1;
    }
    proof {
        assert(entries@.subrange(0, entries@.len() as int) =~= entries@);
    }
    buf
}

/// Decodes entries from bytes whose length is a multiple of 12; decoding an encoding
/// gives the entries back.
pub fn deserialize_entries(bytes: &[u8]) -> (r: Vec<TxEntry>)
    requires
        bytes@.len() % 12 == 0,
    ensures
        r@.len() == bytes@.len() / 12,
        forall|s: Seq<TxEntry>| #[trigger] entries_bytes(s) == bytes@ ==> r@ == s,
{
    let len = bytes.len();
    let n = len / 12;
    let mut out: Vec<TxEntry> = Vec::new();
    let mut k: usize = 0;
    while k < n
        invariant
            n == bytes@.len() / 12,
            len == bytes@.len(),
            bytes@.len() % 12 == 0,
            k <= n,
            out@.len() == k,
            forall|i: int| 0 <= i < k ==> #[trigger] entry_bytes(out@[i]) == bytes@.subrange(12 * i, 12 * i + 12),
        decreases n - k,
    {
        proof {
            assert(k * 12 + 12 <= bytes@.len()) by (nonlinear_arith)
                requires
                    k < n,
                    n == bytes@.len() / 12,
                    bytes@.len() % 12 == 0,
            ;
        }
        let base = k * 12;
        let tx_idx = read_u32_le(bytes, base);
        let util = read_i64_le(bytes, base + 4);
        let e = TxEntry { tx_idx, util };
        proof {
            lemma_le_lengths();
            assert(entry_bytes(e) =~= bytes@.subrange(12 * k, 12 * k + 12));
        }
        out.push(e);
        k += 1;
    }
    proof {
        assert forall|s: Seq<TxEntry>| #[trigger] entries_bytes(s) == bytes@ implies out@ == s by {
            lemma_entries_bytes(s);
            lemma_le_lengths();
            lemma_le_injective();
            assert forall|i: int| 0 <= i < s.len() implies out@[i] == s[i] by {
                let a = out@[i];
                let b = s[i];
                let ba = entry_bytes(a);
                let bb = entry_bytes(b);
                assert(ba == bb);
                assert(ba.subrange(0, 4) =~= spec_u32_le(a.tx_idx));
                assert(bb.subrange(0, 4) =~= spec_u32_le(b.tx_idx));
                assert(ba.subrange(4, 12) =~= spec_i64_le(a.util));
                assert(bb.subrange(4, 12) =~= spec_i64_le(b.util));
            }
            assert(out@ =~= s);
        }
    }
    out
}

/// Decoding what was encoded gives the entries back.
pub proof fn law_entries_roundtrip(s: Seq<TxEntry>)
    ensures
        entries_bytes(s).len() % 12 == 0,
        entries_bytes(s).len() / 12 == s.len(),
{
    lemma_entries_bytes(s);
}

/// No item occurs twice among the entries.
pub open spec fn distinct_items(items: Seq<ItemEntry>) -> bool {
    forall|i: int, j: int| 0 <= i < j < items.len() ==> items[i].item != items[j].item
}

/// No transaction holds an item twice.
pub open spec fn db_distinct(txs: Seq<RawTransaction>) -> bool {
    forall|t: int| 0 <= t < txs.len() ==> distinct_items(#[trigger] txs[t].items@)
}

/// The list of `x` over the first `n` transactions: for each transaction holding every
/// item of `x`, its index and the utility of `x` there, in index order.
pub open spec fn tid_list(txs: Seq<RawTransaction>, x: Seq<ItemId>, n: int) -> Seq<(u32, int)>
    decreases n,
{
    if n <= 0 {
        Seq::empty()
    } else {
        tid_list(txs, x, n - 1) + match cand_tx_utility(txs[n - 1].items@, x) {
            Some(u) => seq![((n - 1) as u32, u)],
            None => Seq::<(u32, int)>::empty(),
        }
    }
}

/// The machine entries hold the list.
pub open spec fn matches_list(v: Seq<TxEntry>, l: Seq<(u32, int)>) -> bool {
    &&& v.len() == l.len()
    &&& forall|k: int| 0 <= k < v.len() ==> (#[trigger] v[k]).tx_idx == l[k].0 && v[k].util == l[k].1
}

/// Sum of the utilities of a list.
pub open spec fn list_sum(l: Seq<(u32, int)>) -> int
    decreases l.len(),
{
    if l.len() == 0 { 0 } else { list_sum(l.drop_last()) + l.last().1 }
}

pub(crate) proof fn lemma_list_sum_append(a: Seq<(u32, int)>, b: Seq<(u32, int)>)
    ensures
        list_sum(a + b) == list_sum(a) + list_sum(b),
    decreases b.len(),
{
    if b.len() == 0 {
        assert(a + b =~= a);
    } else {
        assert((a + b).drop_last() =~= a + b.drop_last());
        lemma_list_sum_append(a, b.drop_last());
    }
}

/// The utility of `x` summed over its list is its database utility.
pub(crate) proof fn lemma_list_sum_is_utility(txs: Seq<RawTransaction>, x: Seq<ItemId>, n: int)
    requires
        0 <= n <= txs.len(),
    ensures
        list_sum(tid_list(txs, x, n)) == db_utility(txs.take(n), x),
    decreases n,
{
    if n > 0 {
        lemma_list_sum_is_utility(txs, x, n - 1);
        assert(txs.take(n).drop_last() =~= txs.take(n - 1));
        assert(txs.take(n).last() == txs[n - 1]);
        match cand_tx_utility(txs[n - 1].items@, x) {
            Some(u) => {
                let tail = seq![((n - 1) as u32, u)];
                assert(tid_list(txs, x, n) == tid_list(txs, x, n - 1) + tail);
                lemma_list_sum_append(tid_list(txs, x, n - 1), tail);
                assert(tail.drop_last() =~= Seq::<(u32, int)>::empty());
                assert(list_sum(tail) == list_sum(tail.drop_last()) + tail.last().1);
            },
            None => {
                assert(tid_list(txs, x, n) =~= tid_list(txs, x, n - 1));
            },
        }
    } else {
        assert(txs.take(0) =~= Seq::<RawTransaction>::empty());
    }
}

/// The list's indices increase, stay below `n`, and are exactly the transactions
/// holding `x`.
pub(crate) proof fn lemma_tid_list_shape(txs: Seq<RawTransaction>, x: Seq<ItemId>, n: int)
    requires
        0 <= n <= txs.len(),
        n <= u32::MAX,
    ensures
        forall|a: int, b: int| 0 <= a < b < tid_list(txs, x, n).len() ==> tid_list(txs, x, n)[a].0 < tid_list(txs, x, n)[b].0,
        forall|a: int| 0 <= a < tid_list(txs, x, n).len() ==> (tid_list(txs, x, n)[a].0 as int) < n
            && cand_tx_utility(txs[tid_list(txs, x, n)[a].0 as int].items@, x) == Some(tid_list(txs, x, n)[a].1),
        forall|t: int| 0 <= t < n && cand_tx_utility(txs[t].items@, x) is Some
            ==> exists|a: int| 0 <= a < tid_list(txs, x, n).len() && tid_list(txs, x, n)[a].0 == t,
    decreases n,
{
    if n > 0 {
        lemma_tid_list_shape(txs, x, n - 1);
        let prev = tid_list(txs, x, n - 1);
        let cur = tid_list(txs, x, n);
        assert forall|a: int| 0 <= a < prev.len() implies cur[a] == prev[a] by {}
        assert forall|t: int| 0 <= t < n && cand_tx_utility(txs[t].items@, x) is Some
            implies exists|a: int| 0 <= a < cur.len() && cur[a].0 == t by {
            if t < n - 1 {
                let a = choose|a: int| 0 <= a < prev.len() && prev[a].0 == t;
                assert(cur[a] == prev[a]);
            } else {
                assert(cur[cur.len() - 1].0 == t);
            }
        }
    }
}

/// One entry of the list of `x` per transaction holding it, with the utility the item
/// lookup gives, when `x` is a single item and items are distinct.
pub(crate) proof fn lemma_single_lookup(items: Seq<ItemEntry>, o: ItemId, k: int)
    requires
        distinct_items(items),
        0 <= k < items.len(),
        items[k].item == o,
    ensures
        item_utility(items, o) == Some(items[k].utility),
    decreases items.len(),
{
    if k < items.len() - 1 {
        assert(items.last().item != o) by {
            assert(items[items.len() - 1].item != items[k].item);
        }
        assert(distinct_items(items.drop_last()));
        lemma_single_lookup(items.drop_last(), o, k);
    }
}

pub(crate) proof fn lemma_absent_lookup(items: Seq<ItemEntry>, o: ItemId)
    requires
        forall|k: int| 0 <= k < items.len() ==> (#[trigger] items[k]).item != o,
    ensures
        item_utility(items, o) is None,
    decreases items.len(),
{
    if items.len() > 0 {
        assert(items[items.len() - 1].item != o);
        lemma_absent_lookup(items.drop_last(), o);
    }
}

/// The vertical list of item `o`: for each transaction, in order, one entry per entry
/// with item `o`.
fn build_row(transactions: &[RawTransaction], o: ItemId) -> (r: Vec<TxEntry>)
    requires
        transactions@.len() <= u32::MAX,
    ensures
        forall|k: int| 0 <= k < r@.len() ==> (#[trigger] r@[k]).tx_idx < transactions@.len(),
        db_distinct(transactions@) ==> matches_list(r@, tid_list(transactions@, seq![o], transactions@.len() as int)),
{
    let mut row: Vec<TxEntry> = Vec::new();
    let mut t: usize = 0;
    while t < transactions.len()
        invariant
            t <= transactions@.len(),
            transactions@.len() <= u32::MAX,
            forall|k: int| 0 <= k < row@.len() ==> (#[trigger] row@[k]).tx_idx < t,
            db_distinct(transactions@) ==> matches_list(row@, tid_list(transactions@, seq![o], t as int)),
        decreases transactions@.len() - t,
    {
        let items = transactions[t].items.as_slice();
        let ghost before = row@;
        let mut k: usize = 0;
        let ghost mut hit: int = -1;
        while k < items.len()
            invariant
                k <= items@.len(),
                items@ == transactions@[t as int].items@,
                t < transactions@.len(),
                transactions@.len() <= u32::MAX,
                forall|q: int| 0 <= q < row@.len() ==> (#[trigger] row@[q]).tx_idx <= t,
                db_distinct(transactions@) ==> {
                    &&& (hit == -1 ==> row@ == before && forall|q: int| 0 <= q < k ==> (#[trigger] items@[q]).item != o)
                    &&& (hit != -1 ==> 0 <= hit < k && items@[hit].item == o
                        && row@ == before.push(TxEntry { tx_idx: t as u32, util: items@[hit].utility }))
                },
            decreases items@.len() - k,
        {
            if items[k].item == o {
                proof {
                    if db_distinct(transactions@) && hit != -1 {
                        assert(distinct_items(transactions@[t as int].items@));
                        assert(items@[hit].item != items@[k as int].item);
                    }
                    hit = k as int;
                }
                row.push(TxEntry { tx_idx: t as u32, util: items[k].utility });
            }
            k = k + 1;
        }
        proof {
            if db_distinct(transactions@) {
                assert(distinct_items(transactions@[t as int].items@));
                let c = seq![o];
                assert(c.drop_last() =~= Seq::<ItemId>::empty());
                assert(c.last() == o);
                if hit != -1 {
                    lemma_single_lookup(items@, o, hit);
                } else {
                    lemma_absent_lookup(items@, o);
                }
                let l = tid_list(transactions@, c, t + 1);
                let l0 = tid_list(transactions@, c, t as int);
                assert(transactions@[(t + 1) - 1] == transactions@[t as int]);
                assert(cand_tx_utility(items@, c.drop_last()) == Some(0int));
                if hit != -1 {
                    assert(cand_tx_utility(items@, c) == Some(items@[hit].utility as int));
                    assert(l =~= l0.push((t as u32, items@[hit].utility as int)));
                } else {
                    assert(cand_tx_utility(items@, c) is None);
                    assert(l =~= l0);
                }
                assert(matches_list(row@, l));
            }
        }
        t = t + 1;
    }
    row
}

/// Index of the entry at position `i` of a list, or `n` past its end.
pub open spec fn head_at(l: Seq<(u32, int)>, i: int, n: int) -> int {
    if i < l.len() { l[i].0 as int } else { n }
}

/// The smaller of two heads.
pub open spec fn min_int(a: int, b: int) -> int {
    if a <= b { a } else { b }
}

pub(crate) proof fn lemma_skip_empty(txs: Seq<RawTransaction>, x: Seq<ItemId>, a: int, b: int)
    requires
        0 <= a <= b,
        forall|t: int| a <= t < b ==> cand_tx_utility(txs[t].items@, x) is None,
    ensures
        tid_list(txs, x, b) == tid_list(txs, x, a),
    decreases b - a,
{
    if b > a {
        lemma_skip_empty(txs, x, a, b - 1);
        assert(tid_list(txs, x, b) =~= tid_list(txs, x, b - 1));
    }
}

pub(crate) proof fn lemma_push_none(items: Seq<ItemEntry>, x: Seq<ItemId>, e: ItemId)
    requires
        cand_tx_utility(items, x) is None || item_utility(items, e) is None,
    ensures
        cand_tx_utility(items, x.push(e)) is None,
{
    assert(x.push(e).drop_last() =~= x);
}

pub(crate) proof fn lemma_single_cand(items: Seq<ItemEntry>, e: ItemId)
    ensures
        cand_tx_utility(items, seq![e]) == match item_utility(items, e) {
            Some(u) => Some(u as int),
            None => None::<int>,
        },
{
    let c = seq![e];
    assert(c.drop_last() =~= Seq::<ItemId>::empty());
    assert(cand_tx_utility(items, c.drop_last()) == Some(0int));
    assert(c.last() == e);
}

proof fn lemma_push_some(items: Seq<ItemEntry>, x: Seq<ItemId>, e: ItemId, ux: int, ue: int)
    requires
        cand_tx_utility(items, x) == Some(ux),
        cand_tx_utility(items, seq![e]) == Some(ue),
    ensures
        cand_tx_utility(items, x.push(e)) == Some(ux + ue),
{
    assert(x.push(e).drop_last() =~= x);
    assert(x.push(e).last() == e);
    lemma_single_cand(items, e);
}

proof fn lemma_single_none(items: Seq<ItemEntry>, e: ItemId)
    requires
        cand_tx_utility(items, seq![e]) is None,
    ensures
        item_utility(items, e) is None,
{
    lemma_single_cand(items, e);
}

pub(crate) proof fn lemma_tid_list_at(txs: Seq<RawTransaction>, x: Seq<ItemId>, n: int, a: int)
    requires
        0 <= n <= txs.len(),
        n <= u32::MAX,
        0 <= a < tid_list(txs, x, n).len(),
    ensures
        (tid_list(txs, x, n)[a].0 as int) < n,
        cand_tx_utility(txs[tid_list(txs, x, n)[a].0 as int].items@, x) == Some(tid_list(txs, x, n)[a].1),
{
    lemma_tid_list_shape(txs, x, n);
}

/// The entries of `tids` and `ext` with the same transaction, with their utilities
/// added; the summed transaction utilities of those transactions (`tx_twus`), and the
/// summed new utilities. When the inputs are the lists of `x` and of the item `e`, the
/// result is the list of `x` extended by `e`, and its utility.
fn intersect(
    tids: &Vec<TxEntry>,
    ext: &Vec<TxEntry>,
    tx_twus: &Vec<Utility>,
    Ghost(txs): Ghost<Seq<RawTransaction>>,
    Ghost(x): Ghost<Seq<ItemId>>,
    Ghost(e): Ghost<ItemId>,
    Ghost(exact_lists): Ghost<bool>,
) -> (r: Result<(Vec<TxEntry>, Utility, Utility), MiningError>)
    requires
        txs.len() == tx_twus@.len(),
        txs.len() <= u32::MAX,
        forall|k: int| 0 <= k < tids@.len() ==> (#[trigger] tids@[k]).tx_idx < txs.len(),
        forall|k: int| 0 <= k < ext@.len() ==> (#[trigger] ext@[k]).tx_idx < txs.len(),
        exact_lists ==> matches_list(tids@, tid_list(txs, x, txs.len() as int)),
        exact_lists ==> matches_list(ext@, tid_list(txs, seq![e], txs.len() as int)),
        forall|t: int| 0 <= t < txs.len() ==> #[trigger] tx_twus@[t] == txs[t].transaction_utility,
    ensures
        r matches Ok((next, twu, exact)) ==> {
            &&& forall|k: int| 0 <= k < next@.len() ==> (#[trigger] next@[k]).tx_idx < txs.len()
            &&& exact_lists ==> matches_list(next@, tid_list(txs, x.push(e), txs.len() as int))
                && exact == list_sum(tid_list(txs, x.push(e), txs.len() as int))
                && twu == list_tu(txs, tid_list(txs, x.push(e), txs.len() as int))
        },
        exact_lists && db_distinct(txs) && db_nonneg(txs) && abs_weight(txs) <= i64::MAX
            && strictly_increasing(x.push(e)) ==> r is Ok,
{
    let ghost n = txs.len() as int;
    let ghost l = tid_list(txs, x, n);
    let ghost mm = tid_list(txs, seq![e], n);
    let ghost xe = x.push(e);
    let ghost fits = exact_lists && db_distinct(txs) && db_nonneg(txs) && abs_weight(txs) <= i64::MAX
        && strictly_increasing(xe);
    proof {
        lemma_tid_list_shape(txs, x, n);
        lemma_tid_list_shape(txs, seq![e], n);
    }
    let mut next: Vec<TxEntry> = Vec::new();
    let mut twu: Utility = 0;
    let mut exact: Utility = 0;
    let mut i: usize = 0;
    let mut j: usize = 0;
    proof {
        if exact_lists {
            let m = min_int(head_at(l, 0, n), head_at(mm, 0, n));
            assert forall|t: int| 0 <= t < m implies cand_tx_utility(txs[t].items@, xe) is None by {
                if cand_tx_utility(txs[t].items@, x) is Some {
                    let a = choose|a: int| 0 <= a < l.len() && l[a].0 == t;
                    assert(l[0].0 <= l[a].0) by {
                        if a > 0 {
                            assert(l[0].0 < l[a].0);
                        }
                    }
                }
                if cand_tx_utility(txs[t].items@, seq![e]) is Some {
                    let a = choose|a: int| 0 <= a < mm.len() && mm[a].0 == t;
                    assert(mm[0].0 <= mm[a].0) by {
                        if a > 0 {
                            assert(mm[0].0 < mm[a].0);
                        }
                    }
                    lemma_single_none(txs[t].items@, e);
                    assert(false);
                }
                lemma_push_none(txs[t].items@, x, e);
            }
            lemma_skip_empty(txs, xe, 0, m);
            assert(tid_list(txs, xe, 0) =~= Seq::<(u32, int)>::empty());
        }
    }
    while i < tids.len() && j < ext.len()
        invariant
            txs.len() == tx_twus@.len(),
            txs.len() <= u32::MAX,
            n == txs.len(),
            l == tid_list(txs, x, n),
            mm == tid_list(txs, seq![e], n),
            xe == x.push(e),
            i <= tids@.len(),
            j <= ext@.len(),
            forall|k: int| 0 <= k < tids@.len() ==> (#[trigger] tids@[k]).tx_idx < txs.len(),
            forall|k: int| 0 <= k < ext@.len() ==> (#[trigger] ext@[k]).tx_idx < txs.len(),
            forall|k: int| 0 <= k < next@.len() ==> (#[trigger] next@[k]).tx_idx < txs.len(),
            exact_lists ==> matches_list(tids@, l),
            exact_lists ==> matches_list(ext@, mm),
            exact_lists ==> {
                let m = min_int(head_at(l, i as int, n), head_at(mm, j as int, n));
                &&& forall|k: int| 0 <= k < i ==> (l[k].0 as int) < m
                &&& forall|k: int| 0 <= k < j ==> (mm[k].0 as int) < m
                &&& matches_list(next@, tid_list(txs, xe, m))
                &&& exact == list_sum(tid_list(txs, xe, m))
                &&& twu == list_tu(txs, tid_list(txs, xe, m))
            },
            forall|t: int| 0 <= t < txs.len() ==> #[trigger] tx_twus@[t] == txs[t].transaction_utility,
            fits == (exact_lists && db_distinct(txs) && db_nonneg(txs) && abs_weight(txs) <= i64::MAX
                && strictly_increasing(xe)),
        decreases tids@.len() - i + ext@.len() - j,
    {
        let p = tids[i];
        let q = ext[j];
        if p.tx_idx == q.tx_idx {
            proof {
                if fits {
                    let t = p.tx_idx as int;
                    lemma_tid_list_at(txs, x, n, i as int);
                    lemma_tid_list_at(txs, seq![e], n, j as int);
                    assert(p == tids@[i as int] && q == ext@[j as int]);
                    lemma_push_some(txs[t].items@, x, e, l[i as int].1, mm[j as int].1);
                    lemma_tid_list_nonneg(txs, x, n);
                    lemma_tid_list_nonneg(txs, seq![e], n);
                    lemma_increasing_no_dups(xe);
                    assert(head_at(l, i as int, n) == t && head_at(mm, j as int, n) == t);
                    let ent = (t as u32, l[i as int].1 + mm[j as int].1);
                    assert(tid_list(txs, xe, t + 1) =~= tid_list(txs, xe, t).push(ent));
                    assert(tid_list(txs, xe, t).push(ent).drop_last() =~= tid_list(txs, xe, t));
                    lemma_list_tu_push(txs, tid_list(txs, xe, t), ent);
                    lemma_sums_fit(txs, xe, t);
                    lemma_sums_fit(txs, xe, t + 1);
                    assert(0 <= p.util + q.util <= i64::MAX);
                    assert(0 <= exact + p.util + q.util <= i64::MAX);
                    assert(0 <= twu + tx_twus@[t] <= i64::MAX);
                }
            }
            let new_util = match p.util.checked_add(q.util) {
                Some(v) => v,
                None => {
                    return Err(MiningError::UtilityOverflow);
                },
            };
            let ghost m_old = p.tx_idx as int;
            proof {
                if exact_lists {
                    lemma_tid_list_shape(txs, x, n);
                    lemma_tid_list_shape(txs, seq![e], n);
                    let t = p.tx_idx as int;
                    lemma_tid_list_at(txs, x, n, i as int);
                    lemma_tid_list_at(txs, seq![e], n, j as int);
                    assert(cand_tx_utility(txs[t].items@, x) == Some(l[i as int].1));
                    assert(cand_tx_utility(txs[t].items@, seq![e]) == Some(mm[j as int].1));
                    lemma_push_some(txs[t].items@, x, e, l[i as int].1, mm[j as int].1);
                    let m = min_int(head_at(l, i + 1, n), head_at(mm, j + 1, n));
                    assert(t < m) by {
                        if i + 1 < l.len() {
                            assert(l[i as int].0 < l[i + 1].0);
                        }
                        if j + 1 < mm.len() {
                            assert(mm[j as int].0 < mm[j + 1].0);
                        }
                    }
                    assert forall|t2: int| t + 1 <= t2 < m implies cand_tx_utility(txs[t2].items@, xe) is None by {
                        if cand_tx_utility(txs[t2].items@, x) is Some {
                            let a = choose|a: int| 0 <= a < l.len() && l[a].0 == t2;
                            if a <= i {
                                if a < i {
                                    assert(l[a].0 < l[i as int].0);
                                }
                            } else {
                                if a > i + 1 {
                                    assert(l[i + 1].0 < l[a].0);
                                }
                            }
                        }
                        lemma_push_none(txs[t2].items@, x, e);
                    }
                    lemma_skip_empty(txs, xe, t + 1, m);
                    let tl = tid_list(txs, xe, t + 1);
                    assert(tl =~= tid_list(txs, xe, t).push((t as u32, l[i as int].1 + mm[j as int].1)));
                    lemma_list_sum_append(tid_list(txs, xe, t), seq![(t as u32, l[i as int].1 + mm[j as int].1)]);
                    assert(tid_list(txs, xe, t).push((t as u32, l[i as int].1 + mm[j as int].1))
                        =~= tid_list(txs, xe, t) + seq![(t as u32, l[i as int].1 + mm[j as int].1)]);
                    assert(seq![(t as u32, l[i as int].1 + mm[j as int].1)].drop_last() =~= Seq::<(u32, int)>::empty());
                }
            }
            let new_exact = match exact.checked_add(new_util) {
                Some(v) => v,
                None => {
                    return Err(MiningError::UtilityOverflow);
                },
            };
            let new_twu = match twu.checked_add(tx_twus[p.tx_idx as usize]) {
                Some(v) => v,
                None => {
                    return Err(MiningError::UtilityOverflow);
                },
            };
            let ghost old_next = next@;
            next.push(TxEntry { tx_idx: p.tx_idx, util: new_util });
            exact = new_exact;
            twu = new_twu;
            i = i + 1;
            j = j + 1;
            proof {
                if exact_lists {
                    let t = p.tx_idx as int;
                    let m = min_int(head_at(l, i as int, n), head_at(mm, j as int, n));
                    let m0 = min_int(head_at(l, i - 1, n), head_at(mm, j - 1, n));
                    assert(m0 == t);
                    let ent = (t as u32, l[i - 1].1 + mm[j - 1].1);
                    assert(tid_list(txs, xe, m) == tid_list(txs, xe, t).push(ent));
                    assert(matches_list(next@, tid_list(txs, xe, m))) by {
                        assert(next@ == old_next.push(TxEntry { tx_idx: p.tx_idx, util: new_util }));
                        assert forall|k: int| 0 <= k < next@.len() implies (#[trigger] next@[k]).tx_idx == tid_list(txs, xe, m)[k].0
                            && next@[k].util == tid_list(txs, xe, m)[k].1 by {
                            if k < old_next.len() {
                                assert(next@[k] == old_next[k]);
                            }
                        }
                    }
                    assert(list_sum(tid_list(txs, xe, m)) == list_sum(tid_list(txs, xe, t)) + ent.1) by {
                        assert(tid_list(txs, xe, t).push(ent).drop_last() =~= tid_list(txs, xe, t));
                    }
                    lemma_list_tu_push(txs, tid_list(txs, xe, t), ent);
                    assert(tx_twus@[t] == txs[t].transaction_utility);
                }
            }
        } else if p.tx_idx < q.tx_idx {
            proof {
                if exact_lists {
                    lemma_tid_list_shape(txs, x, n);
                    lemma_tid_list_shape(txs, seq![e], n);
                    let t = p.tx_idx as int;
                    let m = min_int(head_at(l, i + 1, n), head_at(mm, j as int, n));
                    assert forall|t2: int| t <= t2 < m implies cand_tx_utility(txs[t2].items@, xe) is None by {
                        if t2 == t {
                            if cand_tx_utility(txs[t2].items@, seq![e]) is Some {
                                let a = choose|a: int| 0 <= a < mm.len() && mm[a].0 == t2;
                                if a >= j {
                                    if a > j {
                                        assert(mm[j as int].0 < mm[a].0);
                                    }
                                }
                            } else {
                                lemma_single_none(txs[t2].items@, e);
                            }
                        } else if cand_tx_utility(txs[t2].items@, x) is Some {
                            let a = choose|a: int| 0 <= a < l.len() && l[a].0 == t2;
                            if a <= i {
                                if a < i {
                                    assert(l[a].0 < l[i as int].0);
                                }
                            } else {
                                if a > i + 1 {
                                    assert(l[i + 1].0 < l[a].0);
                                }
                            }
                        }
                        if cand_tx_utility(txs[t2].items@, seq![e]) is None {
                            lemma_single_none(txs[t2].items@, e);
                        }
                        lemma_push_none(txs[t2].items@, x, e);
                    }
                    if i + 1 < l.len() {
                        assert(l[i as int].0 < l[i + 1].0);
                    }
                    lemma_skip_empty(txs, xe, t, m);
                }
            }
            i = i + 1;
        } else {
            proof {
                if exact_lists {
                    lemma_tid_list_shape(txs, x, n);
                    lemma_tid_list_shape(txs, seq![e], n);
                    let t = q.tx_idx as int;
                    let m = min_int(head_at(l, i as int, n), head_at(mm, j + 1, n));
                    assert forall|t2: int| t <= t2 < m implies cand_tx_utility(txs[t2].items@, xe) is None by {
                        if t2 == t {
                            if cand_tx_utility(txs[t2].items@, x) is Some {
                                let a = choose|a: int| 0 <= a < l.len() && l[a].0 == t2;
                                if a >= i {
                                    if a > i {
                                        assert(l[i as int].0 < l[a].0);
                                    }
                                }
                            }
                        } else if cand_tx_utility(txs[t2].items@, seq![e]) is Some {
                            let a = choose|a: int| 0 <= a < mm.len() && mm[a].0 == t2;
                            if a <= j {
                                if a < j {
                                    assert(mm[a].0 < mm[j as int].0);
                                }
                            } else {
                                if a > j + 1 {
                                    assert(mm[j + 1].0 < mm[a].0);
                                }
                            }
                        }
                        if cand_tx_utility(txs[t2].items@, seq![e]) is None {
                            lemma_single_none(txs[t2].items@, e);
                        }
                        lemma_push_none(txs[t2].items@, x, e);
                    }
                    if j + 1 < mm.len() {
                        assert(mm[j as int].0 < mm[j + 1].0);
                    }
                    lemma_skip_empty(txs, xe, t, m);
                }
            }
            j = j + 1;
        }
    }
    proof {
        if exact_lists {
            lemma_tid_list_shape(txs, x, n);
            lemma_tid_list_shape(txs, seq![e], n);
            let m = min_int(head_at(l, i as int, n), head_at(mm, j as int, n));
            assert forall|t2: int| m <= t2 < n implies cand_tx_utility(txs[t2].items@, xe) is None by {
                if cand_tx_utility(txs[t2].items@, x) is Some && cand_tx_utility(txs[t2].items@, seq![e]) is Some {
                    let a = choose|a: int| 0 <= a < l.len() && l[a].0 == t2;
                    let b = choose|b: int| 0 <= b < mm.len() && mm[b].0 == t2;
                    if i == tids@.len() {
                        assert(a < i);
                    } else {
                        assert(b < j);
                    }
                }
                if cand_tx_utility(txs[t2].items@, seq![e]) is None {
                    lemma_single_none(txs[t2].items@, e);
                }
                lemma_push_none(txs[t2].items@, x, e);
            }
            lemma_skip_empty(txs, xe, m, n);
        }
    }
    Ok((next, twu, exact))
}

/// A list of entries kept as they are, or encoded when large, as a page holds it.
pub enum NodeList {
    InMemory(Vec<TxEntry>),
    Encoded(Vec<u8>),
}

/// `nl` holds the entries `s`.
pub open spec fn holds(nl: NodeList, s: Seq<TxEntry>) -> bool {
    match nl {
        NodeList::InMemory(v) => v@ == s,
        NodeList::Encoded(b) => b@ == entries_bytes(s),
    }
}

/// The entries a node list holds.
fn resolve(nl: &NodeList, Ghost(s): Ghost<Seq<TxEntry>>) -> (r: Vec<TxEntry>)
    requires
        holds(*nl, s),
    ensures
        r@ == s,
{
    match nl {
        NodeList::InMemory(v) => v.clone(),
        NodeList::Encoded(b) => {
            proof {
                lemma_entries_bytes(s);
            }
            deserialize_entries(b.as_slice())
        },
    }
}

/// The summed utilities of the entries; their list's utility when they hold a list.
fn sum_entries(v: &Vec<TxEntry>, Ghost(l): Ghost<Seq<(u32, int)>>) -> (r: Result<Utility, MiningError>)
    ensures
        r matches Ok(s) ==> (matches_list(v@, l) ==> s == list_sum(l)),
        matches_list(v@, l) && (forall|i: int| 0 <= i < l.len() ==> (#[trigger] l[i]).1 >= 0)
            && list_sum(l) <= i64::MAX ==> r is Ok,
{
    let mut sum: Utility = 0;
    let mut k: usize = 0;
    while k < v.len()
        invariant
            k <= v@.len(),
            matches_list(v@, l) ==> sum == list_sum(l.take(k as int)),
        decreases v@.len() - k,
    {
        proof {
            if matches_list(v@, l) {
                assert(l.take(k + 1).drop_last() =~= l.take(k as int));
                assert(l.take(k + 1).last() == l[k as int]);
                if (forall|i: int| 0 <= i < l.len() ==> (#[trigger] l[i]).1 >= 0) && list_sum(l) <= i64::MAX {
                    lemma_list_sum_take(l, k + 1);
                    lemma_list_sum_take(l, k as int);
                    assert(0 <= sum + v@[k as int].util <= i64::MAX);
                }
            }
        }
        match sum.checked_add(v[k].util) {
            Some(t) => {
                sum = t;
            },
            None => {
                return Err(MiningError::UtilityOverflow);
            },
        }
        k = k + 1;
    }
    proof {
        if matches_list(v@, l) {
            assert(l.take(k as int) =~= l);
        }
    }
    Ok(sum)
}

/// The pages hold the item lists.
pub open spec fn pages_ok(
    txs: Seq<RawTransaction>,
    pages: Seq<Vec<u8>>,
    rows: Seq<Seq<TxEntry>>,
    orig: Seq<ItemId>,
    exact_lists: bool,
) -> bool {
    &&& pages.len() == rows.len()
    &&& orig.len() == rows.len()
    &&& forall|m: int| 0 <= m < pages.len() ==> (#[trigger] pages[m])@ == entries_bytes(rows[m])
    &&& forall|m: int, k: int| 0 <= m < rows.len() && 0 <= k < rows[m].len() ==> (#[trigger] rows[m][k]).tx_idx < txs.len()
    &&& exact_lists ==> forall|m: int| 0 <= m < rows.len()
        ==> matches_list(#[trigger] rows[m], tid_list(txs, seq![orig[m]], txs.len() as int))
}

/// The items increase strictly.
pub open spec fn strictly_increasing(s: Seq<ItemId>) -> bool {
    forall|i: int, j: int| 0 <= i < j < s.len() ==> s[i] < s[j]
}

/// Every item of `x` is below `y`.
pub open spec fn all_below(x: Seq<ItemId>, y: ItemId) -> bool {
    forall|i: int| 0 <= i < x.len() ==> x[i] < y
}

proof fn lemma_push_increasing(x: Seq<ItemId>, y: ItemId)
    requires
        strictly_increasing(x),
        all_below(x, y),
    ensures
        strictly_increasing(x.push(y)),
{
    assert forall|i: int, j: int| 0 <= i < j < x.push(y).len() implies x.push(y)[i] < x.push(y)[j] by {
        assert(x.push(y)[i] == x[i]);
        if j < x.len() {
            assert(x.push(y)[j] == x[j]);
        }
    }
}

/// `c` is one of the reported itemsets.
pub open spec fn reported(out: Seq<Hui>, c: Seq<ItemId>) -> bool {
    exists|k: int| 0 <= k < out.len() && (#[trigger] out[k]).0@ == c
}

/// The items in order of position never decrease.
pub open spec fn orig_sorted(orig: Seq<ItemId>) -> bool {
    forall|i: int, j: int| 0 <= i <= j < orig.len() ==> orig[i] <= orig[j]
}

/// The positions increase strictly and name items.
pub open spec fn exts_increasing(exts: Seq<usize>, orig: Seq<ItemId>) -> bool {
    &&& forall|i: int, j: int| 0 <= i < j < exts.len() ==> exts[i] < exts[j]
    &&& forall|k: int| 0 <= k < exts.len() ==> #[trigger] exts[k] < orig.len()
}

/// `y` is the item of one of the extensions at positions `start .. end`.
pub open spec fn among_upto(y: ItemId, orig: Seq<ItemId>, exts: Seq<usize>, start: int, end: int) -> bool {
    exists|j: int| start <= j < end && orig[exts[j] as int] == y
}

/// `c` extends `x` by at least one item, increases strictly, and the item it puts after
/// `x` is that of one of the extensions from `start` on.
pub open spec fn grown_from(c: Seq<ItemId>, x: Seq<ItemId>, orig: Seq<ItemId>, exts: Seq<usize>, start: int) -> bool {
    &&& c.len() > x.len()
    &&& c.take(x.len() as int) == x
    &&& strictly_increasing(c)
    &&& among(c[x.len() as int], orig, exts, start)
}

/// The itemsets reported after the first `from` are each grown from `x`, and no two of
/// them are the same.
pub open spec fn added_ok(out: Seq<Hui>, from: int, x: Seq<ItemId>, orig: Seq<ItemId>, exts: Seq<usize>, start: int) -> bool {
    &&& forall|q: int| from <= q < out.len() ==> #[trigger] grown_from(out[q].0@, x, orig, exts, start)
    &&& forall|a: int, b: int| from <= a < b < out.len() ==> out[a].0@ != out[b].0@
}

/// No itemset is reported twice, and each lists its items in increasing order.
pub open spec fn distinct_increasing(out: Seq<Hui>) -> bool {
    &&& forall|q: int| 0 <= q < out.len() ==> strictly_increasing(#[trigger] out[q].0@)
    &&& forall|a: int, b: int| 0 <= a < b < out.len() ==> out[a].0@ != out[b].0@
}

/// `c` and `d` agree on their first `p` items and differ at position `p`.
pub open spec fn diff_at(c: Seq<ItemId>, d: Seq<ItemId>, p: int) -> bool {
    &&& 0 <= p < c.len()
    &&& p < d.len()
    &&& c.take(p) == d.take(p)
    &&& c[p] != d[p]
}

/// Within the search below one item: an itemset comes before those it is a prefix of;
/// below a common prefix, the itemsets one item longer come first, by increasing new
/// item, then the searches below each of them in that order.
pub open spec fn level_before(c: Seq<ItemId>, d: Seq<ItemId>) -> bool {
    ||| (c.len() < d.len() && d.take(c.len() as int) == c)
    ||| exists|p: int| 1 <= p && #[trigger] diff_at(c, d, p) && (
        (c.len() == p + 1 && d.len() > p + 1) || ((c.len() == p + 1) == (d.len() == p + 1) && c[p] < d[p]))
}

/// The order in which Two-Phase lists itemsets: by first item, and for a common first
/// item as `level_before` says.
pub open spec fn listed_before(c: Seq<ItemId>, d: Seq<ItemId>) -> bool {
    &&& c.len() > 0
    &&& d.len() > 0
    &&& (c[0] < d[0] || (c[0] == d[0] && level_before(c, d)))
}

/// The itemsets listed from position `from` on come in the search's order.
pub open spec fn search_ordered(out: Seq<Hui>, from: int) -> bool {
    forall|a: int, b: int| from <= a < b < out.len() ==> #[trigger] listed_before(out[a].0@, out[b].0@)
}

/// An itemset comes before the longer ones it is a prefix of.
proof fn lemma_prefix_before(c: Seq<ItemId>, d: Seq<ItemId>)
    requires
        1 <= c.len() < d.len(),
        d.take(c.len() as int) == c,
    ensures
        listed_before(c, d),
{
    assert(d[0] == d.take(c.len() as int)[0]);
}

/// Two itemsets below a common prefix `x` that differ right after it come in order of
/// that item, the ones one item longer than `x` first.
proof fn lemma_diff_before(x: Seq<ItemId>, c: Seq<ItemId>, d: Seq<ItemId>)
    requires
        x.len() >= 1,
        c.len() > x.len(),
        d.len() > x.len(),
        c.take(x.len() as int) == x,
        d.take(x.len() as int) == x,
        c[x.len() as int] != d[x.len() as int],
        (c.len() == x.len() + 1 && d.len() > x.len() + 1)
            || ((c.len() == x.len() + 1) == (d.len() == x.len() + 1) && c[x.len() as int] < d[x.len() as int]),
    ensures
        listed_before(c, d),
{
    let p = x.len() as int;
    assert(c[0] == c.take(p)[0]);
    assert(d[0] == d.take(p)[0]);
    assert(diff_at(c, d, p));
}

/// An itemset one item longer than `x` comes before any longer itemset below `x`.
proof fn lemma_child_before_deeper(x: Seq<ItemId>, c: Seq<ItemId>, d: Seq<ItemId>)
    requires
        x.len() >= 1,
        c.len() == x.len() + 1,
        d.len() > x.len() + 1,
        c.take(x.len() as int) == x,
        d.take(x.len() as int) == x,
    ensures
        listed_before(c, d),
{
    let p = x.len() as int;
    if c[p] == d[p] {
        assert(d.take(c.len() as int) =~= c) by {
            assert forall|i: int| 0 <= i < c.len() implies d.take(c.len() as int)[i] == c[i] by {
                if i < p {
                    assert(c[i] == c.take(p)[i]);
                    assert(d[i] == d.take(p)[i]);
                }
            }
        }
        lemma_prefix_before(c, d);
    } else {
        lemma_diff_before(x, c, d);
    }
}

/// A search below `x`'s extension by `item`, listed after the itemsets one item longer
/// than `x` and after the searches below smaller items, keeps the listing in order.
proof fn lemma_subtree_after(out: Seq<Hui>, from: int, mid: int, seg: int, x: Seq<ItemId>, item: ItemId)
    requires
        x.len() >= 1,
        0 <= from <= mid <= seg <= out.len(),
        forall|a: int, b: int| from <= a < b < seg ==> #[trigger] listed_before(out[a].0@, out[b].0@),
        search_ordered(out, seg),
        forall|q: int| from <= q < mid ==> (#[trigger] out[q]).0@.len() == x.len() + 1 && out[q].0@.take(x.len() as int) == x,
        forall|q: int| mid <= q < seg ==> (#[trigger] out[q]).0@.len() > x.len() + 1 && out[q].0@.take(x.len() as int) == x
            && out[q].0@[x.len() as int] < item,
        forall|q: int| seg <= q < out.len() ==> (#[trigger] out[q]).0@.len() > x.len() + 1 && out[q].0@.take(x.len() as int) == x
            && out[q].0@[x.len() as int] == item,
    ensures
        search_ordered(out, from),
{
    assert forall|a: int, b: int| from <= a < b < out.len() implies #[trigger] listed_before(out[a].0@, out[b].0@) by {
        if b < seg {
        } else if a >= seg {
        } else if a < mid {
            lemma_child_before_deeper(x, out[a].0@, out[b].0@);
        } else {
            lemma_diff_before(x, out[a].0@, out[b].0@);
        }
    }
}

/// `y` is the item of one of the extensions from `start` on.
pub open spec fn among(y: ItemId, orig: Seq<ItemId>, exts: Seq<usize>, start: int) -> bool {
    exists|j: int| start <= j < exts.len() && orig[exts[j] as int] == y
}

/// Each item of `z` is the item of one of the extensions from `start` on.
pub open spec fn drawn(z: Seq<ItemId>, orig: Seq<ItemId>, exts: Seq<usize>, start: int) -> bool {
    forall|i: int| 0 <= i < z.len() ==> among(#[trigger] z[i], orig, exts, start)
}

/// Every itemset that extends `x`, in increasing order, by items of the extensions from
/// `start` on, and whose utility reaches `min_util`, is reported.
pub open spec fn complete_below(
    txs: Seq<RawTransaction>,
    min_util: Utility,
    out: Seq<Hui>,
    x: Seq<ItemId>,
    orig: Seq<ItemId>,
    exts: Seq<usize>,
    start: int,
) -> bool {
    forall|z: Seq<ItemId>| #![trigger drawn(z, orig, exts, start)]
        z.len() > 0 && strictly_increasing(x + z) && drawn(z, orig, exts, start) && db_utility(txs, x + z) >= min_util
        ==> reported(out, x + z)
}

/// `a` is a prefix of `b`.
pub open spec fn grows(a: Seq<Hui>, b: Seq<Hui>) -> bool {
    &&& a.len() <= b.len()
    &&& forall|k: int| 0 <= k < a.len() ==> #[trigger] b[k] == a[k]
}

/// The extension by `e` occurs and its transactions weigh at least `min_util`.
pub open spec fn passes(txs: Seq<RawTransaction>, min_util: Utility, x: Seq<ItemId>, e: ItemId) -> bool {
    &&& tid_list(txs, x.push(e), txs.len() as int).len() > 0
    &&& list_tu(txs, tid_list(txs, x.push(e), txs.len() as int)) >= min_util
}

/// `c` occurs and its utility reaches `min_util`.
pub open spec fn reaches(txs: Seq<RawTransaction>, min_util: Utility, c: Seq<ItemId>) -> bool {
    &&& tid_list(txs, c, txs.len() as int).len() > 0
    &&& list_sum(tid_list(txs, c, txs.len() as int)) >= min_util
}

proof fn lemma_reported_grows(a: Seq<Hui>, b: Seq<Hui>, c: Seq<ItemId>)
    requires
        reported(a, c),
        grows(a, b),
    ensures
        reported(b, c),
{
    let k = choose|k: int| 0 <= k < a.len() && (#[trigger] a[k]).0@ == c;
    assert(b[k] == a[k]);
}

proof fn lemma_complete_grows(
    txs: Seq<RawTransaction>,
    min_util: Utility,
    a: Seq<Hui>,
    b: Seq<Hui>,
    x: Seq<ItemId>,
    orig: Seq<ItemId>,
    exts: Seq<usize>,
    start: int,
)
    requires
        complete_below(txs, min_util, a, x, orig, exts, start),
        grows(a, b),
    ensures
        complete_below(txs, min_util, b, x, orig, exts, start),
{
    assert forall|z: Seq<ItemId>| #![trigger drawn(z, orig, exts, start)]
        z.len() > 0 && strictly_increasing(x + z) && drawn(z, orig, exts, start) && db_utility(txs, x + z) >= min_util
        implies reported(b, x + z) by {
        lemma_reported_grows(a, b, x + z);
    }
}

/// A strictly increasing itemset has no repeats.
proof fn lemma_increasing_no_dups(c: Seq<ItemId>)
    requires
        strictly_increasing(c),
    ensures
        c.no_duplicates(),
{
    assert forall|i: int, j: int| 0 <= i < c.len() && 0 <= j < c.len() && i != j implies c[i] != c[j] by {
        if i < j {
            assert(c[i] < c[j]);
        } else {
            assert(c[j] < c[i]);
        }
    }
}

/// The search below `x` reports every itemset it owes: the single extensions that reach
/// the threshold were reported, every extension that passes was searched further, and
/// each search below an extension covered its own extensions.
proof fn lemma_dfs_complete(
    txs: Seq<RawTransaction>,
    min_util: Utility,
    out: Seq<Hui>,
    x: Seq<ItemId>,
    orig: Seq<ItemId>,
    exts: Seq<usize>,
    start: int,
    valid: Seq<usize>,
    pos: Seq<int>,
)
    requires
        txs.len() <= u32::MAX,
        db_distinct(txs),
        db_nonneg(txs),
        min_util > 0,
        orig_sorted(orig),
        exts_increasing(exts, orig),
        0 <= start,
        pos.len() == valid.len(),
        forall|v: int| 0 <= v < pos.len() ==> start <= #[trigger] pos[v] < exts.len() && valid[v] == exts[pos[v]],
        forall|v: int, w: int| 0 <= v < w < pos.len() ==> pos[v] < pos[w],
        forall|j: int| start <= j < exts.len() && passes(txs, min_util, x, orig[#[trigger] exts[j] as int])
            ==> exists|v: int| 0 <= v < pos.len() && pos[v] == j,
        forall|j: int| start <= j < exts.len() && reaches(txs, min_util, x.push(orig[#[trigger] exts[j] as int]))
            ==> reported(out, x.push(orig[exts[j] as int])),
        forall|w: int| 0 <= w < valid.len() ==> complete_below(txs, min_util, out, x.push(orig[#[trigger] valid[w] as int]), orig, valid, w + 1),
    ensures
        complete_below(txs, min_util, out, x, orig, exts, start),
{
    let n = txs.len() as int;
    assert forall|z: Seq<ItemId>| #![trigger drawn(z, orig, exts, start)]
        z.len() > 0 && strictly_increasing(x + z) && drawn(z, orig, exts, start) && db_utility(txs, x + z) >= min_util
        implies reported(out, x + z) by {
        let c = x + z;
        let e = z[0];
        assert(c[x.len() as int] == e);
        assert(among(z[0], orig, exts, start));
        let j0 = choose|j: int| start <= j < exts.len() && orig[exts[j] as int] == z[0];
        lemma_increasing_no_dups(c);
        let p = x.push(e);
        assert(items_within(p, c)) by {
            assert forall|i: int| 0 <= i < p.len() implies c.contains(#[trigger] p[i]) by {
                if i < x.len() {
                    assert(c[i] == p[i]);
                } else {
                    assert(c[x.len() as int] == p[i]);
                }
            }
        }
        lemma_weight_bounds_utility(txs, p, c);
        if z.len() == 1 {
            assert(c =~= p);
            lemma_list_sum_is_utility(txs, c, n);
            assert(txs.take(n) =~= txs);
            assert(reaches(txs, min_util, x.push(orig[exts[j0] as int])));
        } else {
            assert(passes(txs, min_util, x, orig[exts[j0] as int]));
            let v0 = choose|v: int| 0 <= v < pos.len() && pos[v] == j0;
            let z2 = z.drop_first();
            assert forall|i: int| 0 <= i < z2.len() implies among(#[trigger] z2[i], orig, valid, v0 + 1) by {
                assert(z2[i] == z[i + 1]);
                assert(among(z[i + 1], orig, exts, start));
                let j = choose|j: int| start <= j < exts.len() && orig[exts[j] as int] == z[i + 1];
                assert(c[x.len() + i + 1] == z[i + 1]);
                assert(e < z[i + 1]);
                if exts[j] <= exts[j0] {
                    assert(orig[exts[j] as int] <= orig[exts[j0] as int]);
                }
                if j <= j0 {
                    if j < j0 {
                        assert(exts[j] < exts[j0]);
                    }
                }
                let q = x.push(z[i + 1]);
                assert(items_within(q, c)) by {
                    assert forall|k: int| 0 <= k < q.len() implies c.contains(#[trigger] q[k]) by {
                        if k < x.len() {
                            assert(c[k] == q[k]);
                        } else {
                            assert(c[x.len() + i + 1] == q[k]);
                        }
                    }
                }
                lemma_weight_bounds_utility(txs, q, c);
                assert(passes(txs, min_util, x, orig[exts[j] as int]));
                let w = choose|w: int| 0 <= w < pos.len() && pos[w] == j;
                if w <= v0 {
                    if w < v0 {
                        assert(pos[w] < pos[v0]);
                    }
                }
                assert(valid[w] == exts[j]);
                assert(orig[valid[w] as int] == z2[i]);
                assert(v0 + 1 <= w < valid.len());
            }
            assert(drawn(z2, orig, valid, v0 + 1));
            assert(valid[v0] == exts[j0]);
            assert(complete_below(txs, min_util, out, x.push(orig[valid[v0] as int]), orig, valid, v0 + 1));
            assert(p + z2 =~= c);
            assert(z2.len() > 0);
        }
    }
}

/// The database has no repeated items, its utilities are non-negative and covered by
/// the transaction utilities, and the threshold is positive.
pub open spec fn mining_complete(txs: Seq<RawTransaction>, min_utility: Utility) -> bool {
    &&& txs.len() <= u32::MAX
    &&& db_distinct(txs)
    &&& db_nonneg(txs)
    &&& min_utility > 0
}

/// An itemset a complete miner reports: its items in increasing order, its utility
/// reaching the threshold.
pub open spec fn owed(txs: Seq<RawTransaction>, min_utility: Utility, c: Seq<ItemId>) -> bool {
    &&& c.len() > 0
    &&& strictly_increasing(c)
    &&& db_utility(txs, c) >= min_utility
}

/// The first item of `c` is the item at one of the first `i` positions.
pub open spec fn starts_before(c: Seq<ItemId>, orig: Seq<ItemId>, i: int) -> bool {
    exists|k: int| 0 <= k < i && orig[k] == c[0]
}

/// The bytes charged for the transaction utilities of `n` transactions.
pub open spec fn twu_bytes(n: nat) -> usize {
    if n > usize::MAX / 8 { usize::MAX } else { (n * 8) as usize }
}

/// After the search from the item at position `i`, every owed itemset starting with one
/// of the items at positions up to `i` is reported.
proof fn lemma_top_step(
    txs: Seq<RawTransaction>,
    min_utility: Utility,
    out0: Seq<Hui>,
    out1: Seq<Hui>,
    out2: Seq<Hui>,
    orig: Seq<ItemId>,
    exts: Seq<usize>,
    i: int,
)
    requires
        mining_complete(txs, min_utility),
        orig_sorted(orig),
        forall|y: ItemId| passing(txs, min_utility, y) ==> exists|k: int| 0 <= k < orig.len() && orig[k] == y,
        0 <= i < orig.len(),
        exts.len() == orig.len() - i - 1,
        forall|k: int| 0 <= k < exts.len() ==> #[trigger] exts[k] == i + 1 + k,
        grows(out0, out1),
        grows(out1, out2),
        forall|c: Seq<ItemId>| #[trigger] owed(txs, min_utility, c) && starts_before(c, orig, i) ==> reported(out0, c),
        db_utility(txs, seq![orig[i]]) >= min_utility ==> reported(out1, seq![orig[i]]),
        complete_below(txs, min_utility, out2, seq![orig[i]], orig, exts, 0),
    ensures
        forall|c: Seq<ItemId>| #[trigger] owed(txs, min_utility, c) && starts_before(c, orig, i + 1) ==> reported(out2, c),
{
    assert forall|c: Seq<ItemId>| #[trigger] owed(txs, min_utility, c) && starts_before(c, orig, i + 1)
        implies reported(out2, c) by {
        let k = choose|k: int| 0 <= k < i + 1 && orig[k] == c[0];
        if k < i {
            assert(starts_before(c, orig, i));
            lemma_reported_grows(out0, out1, c);
            lemma_reported_grows(out1, out2, c);
        } else if c.len() == 1 {
            assert(c =~= seq![orig[i]]);
            lemma_reported_grows(out1, out2, c);
        } else {
            let z = c.drop_first();
            lemma_increasing_no_dups(c);
            assert forall|j: int| 0 <= j < z.len() implies among(#[trigger] z[j], orig, exts, 0) by {
                assert(z[j] == c[j + 1]);
                assert(c.contains(c[j + 1]));
                lemma_owed_item_passes(txs, min_utility, c, c[j + 1]);
                let m = choose|m: int| 0 <= m < orig.len() && orig[m] == c[j + 1];
                assert(c[0] < c[j + 1]);
                if m <= i {
                    assert(orig[m] <= orig[i]);
                }
                assert(exts[m - i - 1] == m);
            }
            assert(drawn(z, orig, exts, 0));
            assert(seq![orig[i]] + z =~= c);
            assert(strictly_increasing(seq![orig[i]] + z));
        }
    }
}

/// Extends `prefix` depth-first by the extensions from position `start` on: each
/// extension's list is the intersection of the prefix's list with the extension item's
/// list; an extension whose exact utility reaches the threshold is reported, and one
/// whose TWU reaches it is searched further with the later such extensions.
fn dfs(
    prefix: &mut Vec<ItemId>,
    extensions: &Vec<usize>,
    start: usize,
    tids: &Vec<TxEntry>,
    pages: &Vec<Vec<u8>>,
    tx_twus: &Vec<Utility>,
    min_util: Utility,
    orig: &Vec<ItemId>,
    out: &mut Vec<Hui>,
    Ghost(txs): Ghost<Seq<RawTransaction>>,
    Ghost(rows): Ghost<Seq<Seq<TxEntry>>>,
    Ghost(exact_lists): Ghost<bool>,
    Ghost(complete): Ghost<bool>,
    Ghost(fits): Ghost<bool>,
) -> (r: Result<(), MiningError>)
    requires
        start <= extensions@.len(),
        txs.len() == tx_twus@.len(),
        txs.len() <= u32::MAX,
        pages_ok(txs, pages@, rows, orig@, exact_lists),
        forall|k: int| 0 <= k < extensions@.len() ==> #[trigger] extensions@[k] < orig@.len(),
        forall|k: int| 0 <= k < tids@.len() ==> (#[trigger] tids@[k]).tx_idx < txs.len(),
        exact_lists ==> matches_list(tids@, tid_list(txs, old(prefix)@, txs.len() as int)),
        exact_lists ==> sound_huis(txs, min_util, old(out)@),
        forall|t: int| 0 <= t < txs.len() ==> #[trigger] tx_twus@[t] == txs[t].transaction_utility,
        complete ==> exact_lists && db_distinct(txs) && db_nonneg(txs) && min_util > 0 && orig_sorted(orig@) && exts_increasing(extensions@, orig@),
        fits ==> exact_lists && db_distinct(txs) && db_nonneg(txs) && abs_weight(txs) <= i64::MAX
            && strictly_increasing(orig@) && exts_increasing(extensions@, orig@) && strictly_increasing(old(prefix)@)
            && forall|k: int| start <= k < extensions@.len() ==> all_below(old(prefix)@, orig@[#[trigger] extensions@[k] as int]),
        strictly_increasing(orig@),
        exts_increasing(extensions@, orig@),
        strictly_increasing(old(prefix)@),
        forall|k: int| start <= k < extensions@.len() ==> all_below(old(prefix)@, orig@[#[trigger] extensions@[k] as int]),
        old(prefix)@.len() >= 1,
    ensures
        r is Ok ==> final(prefix)@ == old(prefix)@,
        added_ok(final(out)@, old(out)@.len() as int, old(prefix)@, orig@, extensions@, start as int),
        search_ordered(final(out)@, old(out)@.len() as int),
        exact_lists ==> sound_huis(txs, min_util, final(out)@),
        grows(old(out)@, final(out)@),
        r is Ok && complete ==> complete_below(txs, min_util, final(out)@, old(prefix)@, orig@, extensions@, start as int),
        fits ==> r is Ok,
    decreases extensions@.len() - start,
{
    let ghost n = txs.len() as int;
    let ghost x = prefix@;
    let mut valid_exts: Vec<usize> = Vec::new();
    let mut next_lists: Vec<NodeList> = Vec::new();
    let ghost mut lists: Seq<Seq<TxEntry>> = Seq::empty();
    let ghost mut pos: Seq<int> = Seq::empty();
    let mut idx = start;
    while idx < extensions.len()
        invariant
            start <= idx <= extensions@.len(),
            n == txs.len(),
            x == prefix@,
            x == old(prefix)@,
            txs.len() == tx_twus@.len(),
            txs.len() <= u32::MAX,
            forall|t: int| 0 <= t < txs.len() ==> #[trigger] tx_twus@[t] == txs[t].transaction_utility,
            pages_ok(txs, pages@, rows, orig@, exact_lists),
            forall|k: int| 0 <= k < extensions@.len() ==> #[trigger] extensions@[k] < orig@.len(),
            forall|k: int| 0 <= k < tids@.len() ==> (#[trigger] tids@[k]).tx_idx < txs.len(),
            exact_lists ==> matches_list(tids@, tid_list(txs, x, n)),
            exact_lists ==> sound_huis(txs, min_util, out@),
            valid_exts@.len() == next_lists@.len(),
            lists.len() == next_lists@.len(),
            valid_exts@.len() <= idx - start,
            forall|k: int| 0 <= k < valid_exts@.len() ==> #[trigger] valid_exts@[k] < orig@.len(),
            forall|k: int| 0 <= k < lists.len() ==> holds(#[trigger] next_lists@[k], lists[k]),
            forall|k: int, q: int| 0 <= k < lists.len() && 0 <= q < lists[k].len() ==> (#[trigger] lists[k][q]).tx_idx < txs.len(),
            exact_lists ==> forall|k: int| 0 <= k < lists.len() ==>
                matches_list(#[trigger] lists[k], tid_list(txs, x.push(orig@[valid_exts@[k] as int]), n)),
            grows(old(out)@, out@),
            pos.len() == valid_exts@.len(),
            forall|v: int| 0 <= v < pos.len() ==> start <= #[trigger] pos[v] < idx && valid_exts@[v] == extensions@[pos[v]],
            forall|v: int, w: int| 0 <= v < w < pos.len() ==> pos[v] < pos[w],
            complete ==> exact_lists && db_distinct(txs) && db_nonneg(txs) && min_util > 0 && orig_sorted(orig@) && exts_increasing(extensions@, orig@),
            fits ==> exact_lists && db_distinct(txs) && db_nonneg(txs) && abs_weight(txs) <= i64::MAX
                && strictly_increasing(orig@) && exts_increasing(extensions@, orig@) && strictly_increasing(x)
                && forall|k: int| start <= k < extensions@.len() ==> all_below(x, orig@[#[trigger] extensions@[k] as int]),
            complete ==> forall|j: int| start <= j < idx && passes(txs, min_util, x, orig@[#[trigger] extensions@[j] as int])
                ==> exists|v: int| 0 <= v < pos.len() && pos[v] == j,
            complete ==> forall|j: int| start <= j < idx && reaches(txs, min_util, x.push(orig@[#[trigger] extensions@[j] as int]))
                ==> reported(out@, x.push(orig@[extensions@[j] as int])),
            strictly_increasing(orig@),
            exts_increasing(extensions@, orig@),
            strictly_increasing(x),
            forall|k: int| start <= k < extensions@.len() ==> all_below(x, orig@[#[trigger] extensions@[k] as int]),
            forall|q: int| old(out)@.len() <= q < out@.len() ==> #[trigger] grown_from(out@[q].0@, x, orig@, extensions@, start as int)
                && out@[q].0@.len() == x.len() + 1,
            forall|q: int| old(out)@.len() <= q < out@.len() ==> #[trigger] among_upto(out@[q].0@[x.len() as int], orig@, extensions@, start as int, idx as int),
            forall|a: int, b: int| old(out)@.len() <= a < b < out@.len() ==> out@[a].0@ != out@[b].0@,
            search_ordered(out@, old(out)@.len() as int),
            x.len() >= 1,
        decreases extensions@.len() - idx,
    {
        let ext_idx = extensions[idx];
        let ghost out_at_idx = out@;
        let ghost pos0 = pos;
        proof {
            lemma_entries_bytes(rows[ext_idx as int]);
            assert(pages@[ext_idx as int]@ == entries_bytes(rows[ext_idx as int]));
        }
        let ext_list = deserialize_entries(pages[ext_idx].as_slice());
        let ghost e = orig@[ext_idx as int];
        proof {
            assert(ext_list@ == rows[ext_idx as int]);
        }
        proof {
            assert(all_below(x, orig@[extensions@[idx as int] as int]));
            lemma_push_increasing(x, e);
        }
        let (next, twu, exact) = match intersect(tids, &ext_list, tx_twus, Ghost(txs), Ghost(x), Ghost(e), Ghost(exact_lists)) {
            Ok(v) => v,
            Err(err) => {
                return Err(err);
            },
        };
        if next.len() > 0 && exact >= min_util {
            prefix.push(orig[ext_idx]);
            let items = prefix.clone();
            proof {
                if exact_lists {
                    lemma_list_sum_is_utility(txs, x.push(e), n);
                    assert(txs.take(n) =~= txs);
                    assert(items@ == x.push(e));
                }
            }
            let ghost before = out@;
            out.push((items, exact));
            proof {
                assert(out@[out@.len() - 1].0@ == x.push(e));
                let c = x.push(e);
                assert(c.take(x.len() as int) =~= x);
                assert(c[x.len() as int] == e);
                assert(among(e, orig@, extensions@, start as int));
                assert forall|q: int| old(out)@.len() <= q < out@.len() implies #[trigger] grown_from(out@[q].0@, x, orig@, extensions@, start as int)
                    && out@[q].0@.len() == x.len() + 1 by {
                    if q < before.len() {
                        assert(out@[q] == before[q]);
                        assert(grown_from(before[q].0@, x, orig@, extensions@, start as int));
                    }
                }
                assert forall|a: int, b: int| old(out)@.len() <= a < b < out@.len() implies out@[a].0@ != out@[b].0@ by {
                    assert(out@[a] == before[a]);
                    if b < before.len() {
                        assert(out@[b] == before[b]);
                    } else {
                        assert(among_upto(before[a].0@[x.len() as int], orig@, extensions@, start as int, idx as int));
                        let j = choose|j: int| start <= j < idx && orig@[extensions@[j] as int] == before[a].0@[x.len() as int];
                        assert(extensions@[j] < extensions@[idx as int]);
                        assert(orig@[extensions@[j] as int] < e);
                        assert(out@[a].0@[x.len() as int] != out@[b].0@[x.len() as int]);
                    }
                }
                assert(grows(old(out)@, out@)) by {
                    assert forall|k: int| 0 <= k < old(out)@.len() implies #[trigger] out@[k] == old(out)@[k] by {
                        assert(out@[k] == before[k]);
                    }
                }
                if complete {
                    assert forall|j: int| start <= j < idx && reaches(txs, min_util, x.push(orig@[#[trigger] extensions@[j] as int]))
                        implies reported(out@, x.push(orig@[extensions@[j] as int])) by {
                        lemma_reported_grows(before, out@, x.push(orig@[extensions@[j] as int]));
                    }
                }
                if exact_lists {
                    assert forall|k: int| 0 <= k < out@.len() implies {
                        &&& (#[trigger] out@[k]).1 == db_utility(txs, out@[k].0@)
                        &&& out@[k].1 >= min_util
                    } by {
                        if k < before.len() {
                            assert(out@[k] == before[k]);
                        }
                    }
                }
            }
            proof {
                let c = x.push(e);
                assert(c.take(x.len() as int) =~= x);
                assert forall|a: int, b: int| old(out)@.len() <= a < b < out@.len() implies #[trigger] listed_before(out@[a].0@, out@[b].0@) by {
                    assert(out@[a] == before[a]);
                    if b < before.len() {
                        assert(out@[b] == before[b]);
                    } else {
                        assert(grown_from(before[a].0@, x, orig@, extensions@, start as int));
                        assert(among_upto(before[a].0@[x.len() as int], orig@, extensions@, start as int, idx as int));
                        let j = choose|j: int| start <= j < idx && orig@[extensions@[j] as int] == before[a].0@[x.len() as int];
                        assert(extensions@[j] < extensions@[idx as int]);
                        assert(orig@[extensions@[j] as int] < e);
                        assert(out@[b].0@ == c);
                        lemma_diff_before(x, out@[a].0@, c);
                    }
                }
            }
            prefix.pop();
            proof {
                assert(prefix@ =~= x);
            }
        }
        if next.len() > 0 && twu >= min_util {
            let ghost nseq = next@;
            valid_exts.push(ext_idx);
            let bytes = serialize_entries(next.as_slice());
            let nl = if bytes.len() >= NODE_PAGE_THRESHOLD_BYTES {
                NodeList::Encoded(bytes)
            } else {
                NodeList::InMemory(next)
            };
            let ghost old_lists = lists;
            let ghost old_valid = valid_exts@.drop_last();
            next_lists.push(nl);
            proof {
                pos = pos.push(idx as int);
                lists = lists.push(nseq);
                assert forall|k: int| 0 <= k < lists.len() implies holds(#[trigger] next_lists@[k], lists[k]) by {
                    if k < old_lists.len() {
                        assert(lists[k] == old_lists[k]);
                    }
                }
                assert forall|k: int| 0 <= k < valid_exts@.len() implies #[trigger] valid_exts@[k] < orig@.len() by {
                    if k < old_valid.len() {
                        assert(valid_exts@[k] == old_valid[k]);
                    }
                }
                if exact_lists {
                    assert forall|k: int| 0 <= k < lists.len() implies
                        matches_list(#[trigger] lists[k], tid_list(txs, x.push(orig@[valid_exts@[k] as int]), n)) by {
                        if k < old_lists.len() {
                            assert(lists[k] == old_lists[k]);
                            assert(valid_exts@[k] == old_valid[k]);
                        }
                    }
                }
            }
        }
        proof {
            assert forall|q: int| old(out)@.len() <= q < out@.len() implies #[trigger] among_upto(out@[q].0@[x.len() as int], orig@, extensions@, start as int, idx + 1) by {
                if q < out_at_idx.len() {
                    assert(out@[q] == out_at_idx[q]);
                    assert(among_upto(out_at_idx[q].0@[x.len() as int], orig@, extensions@, start as int, idx as int));
                    let j = choose|j: int| start <= j < idx && orig@[extensions@[j] as int] == out_at_idx[q].0@[x.len() as int];
                    assert(among_upto(out@[q].0@[x.len() as int], orig@, extensions@, start as int, idx + 1));
                } else {
                    assert(out@[q].0@ == x.push(e));
                    assert(x.push(e)[x.len() as int] == e);
                    assert(orig@[extensions@[idx as int] as int] == e);
                }
            }
            if complete {
                if reaches(txs, min_util, x.push(e)) {
                    assert(next.len() > 0 && exact >= min_util);
                    assert(reported(out@, x.push(e)));
                }
                if passes(txs, min_util, x, e) {
                    assert(next.len() > 0 && twu >= min_util);
                    assert(pos[pos.len() - 1] == idx);
                }
                assert forall|j: int| start <= j < idx + 1 && passes(txs, min_util, x, orig@[#[trigger] extensions@[j] as int])
                    implies exists|v: int| 0 <= v < pos.len() && pos[v] == j by {
                    if j < idx {
                        let v = choose|v: int| 0 <= v < pos0.len() && pos0[v] == j;
                        assert(pos[v] == pos0[v]);
                    } else {
                        assert(pos[pos.len() - 1] == idx);
                    }
                }
            }
        }
        idx = idx + 1;
    }
    proof {
        assert(exts_increasing(valid_exts@, orig@)) by {
            assert forall|a: int, b: int| 0 <= a < b < valid_exts@.len() implies valid_exts@[a] < valid_exts@[b] by {
                assert(pos[a] < pos[b]);
            }
        }
        assert forall|k: int| 0 <= k < valid_exts@.len() implies all_below(x, orig@[#[trigger] valid_exts@[k] as int]) by {
            assert(valid_exts@[k] == extensions@[pos[k]]);
        }
    }
    let ghost mid = out@.len() as int;
    let mut v: usize = 0;
    while v < valid_exts.len()
        invariant
            v <= valid_exts@.len(),
            n == txs.len(),
            x == prefix@,
            x == old(prefix)@,
            txs.len() == tx_twus@.len(),
            txs.len() <= u32::MAX,
            forall|t: int| 0 <= t < txs.len() ==> #[trigger] tx_twus@[t] == txs[t].transaction_utility,
            pages_ok(txs, pages@, rows, orig@, exact_lists),
            exact_lists ==> sound_huis(txs, min_util, out@),
            valid_exts@.len() == next_lists@.len(),
            lists.len() == next_lists@.len(),
            valid_exts@.len() <= extensions@.len() - start,
            forall|k: int| 0 <= k < valid_exts@.len() ==> #[trigger] valid_exts@[k] < orig@.len(),
            forall|k: int| 0 <= k < lists.len() ==> holds(#[trigger] next_lists@[k], lists[k]),
            forall|k: int, q: int| 0 <= k < lists.len() && 0 <= q < lists[k].len() ==> (#[trigger] lists[k][q]).tx_idx < txs.len(),
            exact_lists ==> forall|k: int| 0 <= k < lists.len() ==>
                matches_list(#[trigger] lists[k], tid_list(txs, x.push(orig@[valid_exts@[k] as int]), n)),
            grows(old(out)@, out@),
            pos.len() == valid_exts@.len(),
            forall|v: int| 0 <= v < pos.len() ==> start <= #[trigger] pos[v] < extensions@.len() && valid_exts@[v] == extensions@[pos[v]],
            forall|v: int, w: int| 0 <= v < w < pos.len() ==> pos[v] < pos[w],
            complete ==> exact_lists && db_distinct(txs) && db_nonneg(txs) && min_util > 0 && orig_sorted(orig@) && exts_increasing(extensions@, orig@),
            complete ==> exts_increasing(valid_exts@, orig@),
            fits ==> exact_lists && db_distinct(txs) && db_nonneg(txs) && abs_weight(txs) <= i64::MAX
                && strictly_increasing(orig@) && exts_increasing(valid_exts@, orig@) && strictly_increasing(x)
                && forall|k: int| 0 <= k < valid_exts@.len() ==> all_below(x, orig@[#[trigger] valid_exts@[k] as int]),
            complete ==> forall|j: int| start <= j < extensions@.len() && passes(txs, min_util, x, orig@[#[trigger] extensions@[j] as int])
                ==> exists|v: int| 0 <= v < pos.len() && pos[v] == j,
            complete ==> forall|j: int| start <= j < extensions@.len() && reaches(txs, min_util, x.push(orig@[#[trigger] extensions@[j] as int]))
                ==> reported(out@, x.push(orig@[extensions@[j] as int])),
            complete ==> forall|w: int| 0 <= w < v ==> complete_below(txs, min_util, out@, x.push(orig@[#[trigger] valid_exts@[w] as int]), orig@, valid_exts@, w + 1),
            strictly_increasing(orig@),
            exts_increasing(extensions@, orig@),
            strictly_increasing(x),
            exts_increasing(valid_exts@, orig@),
            forall|k: int| 0 <= k < valid_exts@.len() ==> all_below(x, orig@[#[trigger] valid_exts@[k] as int]),
            old(out)@.len() <= mid <= out@.len(),
            forall|q: int| old(out)@.len() <= q < mid ==> #[trigger] grown_from(out@[q].0@, x, orig@, extensions@, start as int)
                && out@[q].0@.len() == x.len() + 1,
            forall|q: int| mid <= q < out@.len() ==> #[trigger] grown_from(out@[q].0@, x, orig@, extensions@, start as int)
                && out@[q].0@.len() > x.len() + 1 && among_upto(out@[q].0@[x.len() as int], orig@, valid_exts@, 0, v as int),
            forall|a: int, b: int| old(out)@.len() <= a < b < out@.len() ==> out@[a].0@ != out@[b].0@,
            search_ordered(out@, old(out)@.len() as int),
            x.len() >= 1,
        decreases valid_exts@.len() - v,
    {
        let item = orig[valid_exts[v]];
        prefix.push(item);
        let resolved = resolve(&next_lists[v], Ghost(lists[v as int]));
        proof {
            assert(prefix@ == x.push(orig@[valid_exts@[v as int] as int]));
            assert forall|q: int| 0 <= q < resolved@.len() implies (#[trigger] resolved@[q]).tx_idx < txs.len() by {
                assert(resolved@[q] == lists[v as int][q]);
            }
        }
        let ghost out_before = out@;
        let ghost item_v = orig@[valid_exts@[v as int] as int];
        proof {
            assert(all_below(x, item_v));
            lemma_push_increasing(x, item_v);
            assert forall|k: int| v + 1 <= k < valid_exts@.len() implies all_below(prefix@, orig@[#[trigger] valid_exts@[k] as int]) by {
                let yk = orig@[valid_exts@[k] as int];
                assert(all_below(x, yk));
                assert(valid_exts@[v as int] < valid_exts@[k]);
                assert(item_v < yk);
                assert forall|i: int| 0 <= i < prefix@.len() implies prefix@[i] < yk by {
                    if i < x.len() {
                        assert(prefix@[i] == x[i]);
                    }
                }
            }
        }
        let res = dfs(prefix, &valid_exts, v + 1, &resolved, pages, tx_twus, min_util, orig, out, Ghost(txs), Ghost(rows), Ghost(exact_lists), Ghost(complete), Ghost(fits));
        proof {
            let xv = x.push(item_v);
            assert(added_ok(out@, out_before.len() as int, xv, orig@, valid_exts@, v + 1));
            assert forall|q: int| out_before.len() <= q < out@.len() implies #[trigger] grown_from(out@[q].0@, x, orig@, extensions@, start as int)
                && out@[q].0@.len() > x.len() + 1 && among_upto(out@[q].0@[x.len() as int], orig@, valid_exts@, 0, v + 1)
                && out@[q].0@[x.len() as int] == item_v by {
                let c = out@[q].0@;
                assert(grown_from(c, xv, orig@, valid_exts@, v + 1));
                assert(c.take(xv.len() as int) == xv);
                assert(c.take(x.len() as int) =~= x) by {
                    assert forall|i: int| 0 <= i < x.len() implies c.take(x.len() as int)[i] == x[i] by {
                        assert(c.take(xv.len() as int)[i] == xv[i]);
                    }
                }
                assert(c[x.len() as int] == item_v) by {
                    assert(c.take(xv.len() as int)[x.len() as int] == xv[x.len() as int]);
                }
                assert(valid_exts@[v as int] == extensions@[pos[v as int]]);
                assert(among(item_v, orig@, extensions@, start as int));
                assert(among_upto(item_v, orig@, valid_exts@, 0, v + 1));
            }
            assert forall|q: int| old(out)@.len() <= q < out_before.len() implies #[trigger] out@[q] == out_before[q] by {}
            assert forall|q: int| mid <= q < out_before.len() implies #[trigger] grown_from(out@[q].0@, x, orig@, extensions@, start as int)
                && out@[q].0@.len() > x.len() + 1 && among_upto(out@[q].0@[x.len() as int], orig@, valid_exts@, 0, v + 1) by {
                assert(out@[q] == out_before[q]);
                assert(grown_from(out_before[q].0@, x, orig@, extensions@, start as int));
                let w = choose|w: int| 0 <= w < v && orig@[valid_exts@[w] as int] == out_before[q].0@[x.len() as int];
            }
            assert forall|q: int| mid <= q < out@.len() implies #[trigger] grown_from(out@[q].0@, x, orig@, extensions@, start as int)
                && out@[q].0@.len() > x.len() + 1 && among_upto(out@[q].0@[x.len() as int], orig@, valid_exts@, 0, v + 1) by {
                if q < out_before.len() {
                    assert(out@[q] == out_before[q]);
                    assert(grown_from(out_before[q].0@, x, orig@, extensions@, start as int));
                    let w = choose|w: int| 0 <= w < v && orig@[valid_exts@[w] as int] == out_before[q].0@[x.len() as int];
                    assert(among_upto(out@[q].0@[x.len() as int], orig@, valid_exts@, 0, v + 1));
                } else {
                    let c = out@[q].0@;
                    assert(grown_from(c, xv, orig@, valid_exts@, v + 1));
                    assert(c.take(xv.len() as int) == xv);
                    assert(c.take(x.len() as int) =~= x) by {
                        assert forall|i: int| 0 <= i < x.len() implies c.take(x.len() as int)[i] == x[i] by {
                            assert(c.take(xv.len() as int)[i] == xv[i]);
                        }
                    }
                    assert(c[x.len() as int] == item_v) by {
                        assert(c.take(xv.len() as int)[x.len() as int] == xv[x.len() as int]);
                    }
                    assert(valid_exts@[v as int] == extensions@[pos[v as int]]);
                    assert(among(item_v, orig@, extensions@, start as int));
                    assert(among_upto(item_v, orig@, valid_exts@, 0, v + 1));
                }
            }
            assert forall|q: int| old(out)@.len() <= q < mid implies #[trigger] grown_from(out@[q].0@, x, orig@, extensions@, start as int)
                && out@[q].0@.len() == x.len() + 1 by {
                assert(out@[q] == out_before[q]);
                assert(grown_from(out_before[q].0@, x, orig@, extensions@, start as int));
            }
            assert forall|a: int, b: int| old(out)@.len() <= a < b < out@.len() implies out@[a].0@ != out@[b].0@ by {
                if b < out_before.len() {
                    assert(out@[a] == out_before[a] && out@[b] == out_before[b]);
                } else if a >= out_before.len() {
                } else if a < mid {
                    assert(out@[a] == out_before[a]);
                    assert(grown_from(out_before[a].0@, x, orig@, extensions@, start as int));
                    assert(grown_from(out@[b].0@, x, orig@, extensions@, start as int));
                    assert(out@[a].0@.len() != out@[b].0@.len());
                } else {
                    assert(out@[a] == out_before[a]);
                    assert(grown_from(out_before[a].0@, x, orig@, extensions@, start as int));
                    let w = choose|w: int| 0 <= w < v && orig@[valid_exts@[w] as int] == out_before[a].0@[x.len() as int];
                    assert(valid_exts@[w] < valid_exts@[v as int]);
                    assert(orig@[valid_exts@[w] as int] < item_v);
                    assert(grown_from(out@[b].0@, x, orig@, extensions@, start as int));
                    assert(out@[a].0@[x.len() as int] != out@[b].0@[x.len() as int]);
                }
            }
        }
        proof {
            let seg = out_before.len() as int;
            assert forall|a: int, b: int| old(out)@.len() <= a < b < seg implies #[trigger] listed_before(out@[a].0@, out@[b].0@) by {
                assert(out@[a] == out_before[a] && out@[b] == out_before[b]);
            }
            assert forall|q: int| old(out)@.len() <= q < mid implies (#[trigger] out@[q]).0@.len() == x.len() + 1
                && out@[q].0@.take(x.len() as int) == x by {
                assert(grown_from(out@[q].0@, x, orig@, extensions@, start as int));
            }
            assert forall|q: int| mid <= q < seg implies (#[trigger] out@[q]).0@.len() > x.len() + 1
                && out@[q].0@.take(x.len() as int) == x && out@[q].0@[x.len() as int] < item_v by {
                assert(out@[q] == out_before[q]);
                assert(grown_from(out@[q].0@, x, orig@, extensions@, start as int));
                let w = choose|w: int| 0 <= w < v && orig@[valid_exts@[w] as int] == out_before[q].0@[x.len() as int];
                assert(valid_exts@[w] < valid_exts@[v as int]);
            }
            assert forall|q: int| seg <= q < out@.len() implies (#[trigger] out@[q]).0@.len() > x.len() + 1
                && out@[q].0@.take(x.len() as int) == x && out@[q].0@[x.len() as int] == item_v by {
                assert(grown_from(out@[q].0@, x, orig@, extensions@, start as int));
            }
            lemma_subtree_after(out@, old(out)@.len() as int, mid, seg, x, item_v);
        }
        match res {
            Ok(()) => {},
            Err(err) => {
                return Err(err);
            },
        }
        proof {
            assert(grows(old(out)@, out@)) by {
                assert forall|k: int| 0 <= k < old(out)@.len() implies #[trigger] out@[k] == old(out)@[k] by {
                    assert(out@[k] == out_before[k]);
                }
            }
            if complete {
                assert forall|j: int| start <= j < extensions@.len() && reaches(txs, min_util, x.push(orig@[#[trigger] extensions@[j] as int]))
                    implies reported(out@, x.push(orig@[extensions@[j] as int])) by {
                    lemma_reported_grows(out_before, out@, x.push(orig@[extensions@[j] as int]));
                }
                assert forall|w: int| 0 <= w < v + 1 implies complete_below(txs, min_util, out@, x.push(orig@[#[trigger] valid_exts@[w] as int]), orig@, valid_exts@, w + 1) by {
                    if w < v {
                        lemma_complete_grows(txs, min_util, out_before, out@, x.push(orig@[valid_exts@[w] as int]), orig@, valid_exts@, w + 1);
                    }
                }
            }
        }
        prefix.pop();
        proof {
            assert(prefix@ =~= x);
            assert(forall|q: int| mid <= q < out@.len() ==> #[trigger] grown_from(out@[q].0@, x, orig@, extensions@, start as int)
                && out@[q].0@.len() > x.len() + 1 && among_upto(out@[q].0@[x.len() as int], orig@, valid_exts@, 0, v + 1));
        }
        let ghost v0 = v;
        v = v + 1;
        proof {
            assert(v as int == v0 + 1);
            assert(forall|q: int| mid <= q < out@.len() ==> #[trigger] grown_from(out@[q].0@, x, orig@, extensions@, start as int)
                && out@[q].0@.len() > x.len() + 1 && among_upto(out@[q].0@[x.len() as int], orig@, valid_exts@, 0, v0 + 1));
            assert forall|q: int| mid <= q < out@.len() implies #[trigger] grown_from(out@[q].0@, x, orig@, extensions@, start as int)
                && out@[q].0@.len() > x.len() + 1 && among_upto(out@[q].0@[x.len() as int], orig@, valid_exts@, 0, v as int) by {
                assert(grown_from(out@[q].0@, x, orig@, extensions@, start as int));
                assert(among_upto(out@[q].0@[x.len() as int], orig@, valid_exts@, 0, v0 + 1));
                let j = choose|j: int| 0 <= j < v0 + 1 && orig@[valid_exts@[j] as int] == out@[q].0@[x.len() as int];
                assert(0 <= j < v as int);
            }
        }
    }
    proof {
        if complete {
            lemma_dfs_complete(txs, min_util, out@, x, orig@, extensions@, start as int, valid_exts@, pos);
        }
    }
    Ok(())
}

impl TwoPhase {
    pub fn new() -> (r: Self) {
        TwoPhase
    }

    /// Mines the high-utility itemsets of the transactions: items whose TWU reaches the
    /// threshold, ordered by id, each with its list of transactions; then a depth-first
    /// search that intersects lists. If the memory guard refuses the array of
    /// transaction utilities, nothing is mined and the result is empty. When no
    /// transaction holds an item twice, every reported itemset carries its exact utility,
    /// which reaches `min_utility`. When moreover the utilities are non-negative and each
    /// transaction utility covers its entries, the threshold is positive and the guard
    /// admits the array, every itemset whose utility reaches `min_utility` is reported,
    /// its items in increasing order: the result is exactly the high-utility itemsets.
    /// No error comes when no transaction holds an item twice and the utilities are
    /// non-negative and covered by the transaction utilities: no sum can then leave the
    /// range of `i64`. The itemsets are listed once each, in the search's order
    /// (`listed_before`): by first item; below a common prefix, the itemsets one item
    /// longer by increasing new item, then the search below each of them in turn.
    pub fn mine<S: ChunkStore>(
        &mut self,
        transactions: &[RawTransaction],
        min_utility: Utility,
        guard: &mut MemoryGuard<S>,
    ) -> (r: Result<Vec<Hui>, MiningError>)
        requires
            abs_weight(transactions@) <= i64::MAX,
            transactions@.len() <= u32::MAX,
        ensures
            r matches Ok(huis) ==> (db_distinct(transactions@) ==> sound_huis(transactions@, min_utility, huis@)),
            r matches Ok(huis) ==> distinct_increasing(huis@),
            r matches Ok(huis) ==> search_ordered(huis@, 0),
            final(guard).budget_view() == old(guard).budget_view(),
            r is Ok ==> final(guard).used_view() == old(guard).used_view(),
            db_distinct(transactions@) && db_nonneg(transactions@) ==> r is Ok,
            r matches Ok(huis) ==> (mining_complete(transactions@, min_utility)
                && spec_try_alloc(old(guard).used_view(), old(guard).budget_view(), twu_bytes(transactions@.len())).1
                ==> forall|c: Seq<ItemId>| #[trigger] owed(transactions@, min_utility, c) ==> reported(huis@, c)),
    {
        let ghost txs = transactions@;
        let ghost n = txs.len() as int;
        let ghost exact_lists = db_distinct(txs);
        proof {
            lemma_weight_twu_fits(transactions@);
        }
        let res = TwuFilter::new(min_utility).compute(transactions);
        let mut keyed: Vec<(ItemId, Utility)> = Vec::new();
        let mut q: usize = 0;
        while q < res.ordered_items.len()
            invariant
                q <= res.ordered_items@.len(),
                keyed@.len() == q,
                forall|k: int| 0 <= k < q ==> #[trigger] keyed@[k] == (res.ordered_items@[k].0, 0i64),
            decreases res.ordered_items@.len() - q,
        {
            keyed.push((res.ordered_items[q].0, 0));
            q = q + 1;
        }
        let valid = sort_pairs(&keyed, false);
        let mut orig: Vec<ItemId> = Vec::new();
        let mut pages: Vec<Vec<u8>> = Vec::new();
        let ghost mut rows: Seq<Seq<TxEntry>> = Seq::empty();
        let mut m: usize = 0;
        while m < valid.len()
            invariant
                m <= valid@.len(),
                txs == transactions@,
                n == txs.len(),
                exact_lists == db_distinct(txs),
                transactions@.len() <= u32::MAX,
                orig@.len() == m,
                forall|k: int| 0 <= k < m ==> #[trigger] orig@[k] == valid@[k].0,
                pages_ok(txs, pages@, rows, orig@, exact_lists),
            decreases valid@.len() - m,
        {
            let o = valid[m].0;
            let row = build_row(transactions, o);
            let page = serialize_entries(row.as_slice());
            let ghost old_rows = rows;
            let ghost old_pages = pages@;
            let ghost old_orig = orig@;
            orig.push(o);
            pages.push(page);
            proof {
                rows = rows.push(row@);
                assert forall|mm: int| 0 <= mm < pages@.len() implies (#[trigger] pages@[mm])@ == entries_bytes(rows[mm]) by {
                    if mm < old_pages.len() {
                        assert(pages@[mm] == old_pages[mm]);
                    }
                }
                assert(pages_ok(txs, pages@, rows, orig@, exact_lists)) by {
                    assert forall|mm: int, k: int| 0 <= mm < rows.len() && 0 <= k < rows[mm].len()
                        implies (#[trigger] rows[mm][k]).tx_idx < txs.len() by {
                        if mm < old_rows.len() {
                            assert(rows[mm] == old_rows[mm]);
                        } else {
                            assert(rows[mm] == row@);
                        }
                    }
                    if exact_lists {
                        assert forall|mm: int| 0 <= mm < rows.len()
                            implies matches_list(#[trigger] rows[mm], tid_list(txs, seq![orig@[mm]], txs.len() as int)) by {
                            if mm < old_rows.len() {
                                assert(rows[mm] == old_rows[mm]);
                                assert(orig@[mm] == old_orig[mm]);
                            }
                        }
                    }
                }
            }
            m = m + 1;
        }
        let ghost complete = mining_complete(txs, min_utility);
        let ghost fits = db_distinct(txs) && db_nonneg(txs);
        proof {
            assert(orig@.len() == valid@.len());
            assert forall|k: int| 0 <= k < valid@.len() implies (#[trigger] valid@[k]).1 == 0 by {
                assert(valid@.contains(valid@[k]));
                let j = choose|j: int| 0 <= j < keyed@.len() && keyed@[j] == valid@[k];
            }
            assert(keyed@.no_duplicates()) by {
                assert forall|a: int, b: int| 0 <= a < keyed@.len() && 0 <= b < keyed@.len() && a != b
                    implies keyed@[a] != keyed@[b] by {
                    if a < b {
                        assert(res.ordered_items@[a].0 != res.ordered_items@[b].0);
                    } else {
                        assert(res.ordered_items@[b].0 != res.ordered_items@[a].0);
                    }
                }
            }
            assert(strictly_increasing(orig@)) by {
                assert forall|a: int, b: int| 0 <= a < b < orig@.len() implies orig@[a] < orig@[b] by {
                    assert(pair_before(valid@[a], valid@[b], false));
                    assert(valid@[a].1 == 0 && valid@[b].1 == 0);
                    assert(valid@[a] != valid@[b]);
                }
            }
            assert(orig_sorted(orig@)) by {
                assert forall|a: int, b: int| 0 <= a <= b < orig@.len() implies orig@[a] <= orig@[b] by {
                    if a < b {
                        assert(pair_before(valid@[a], valid@[b], false));
                        assert(valid@[a].1 == 0 && valid@[b].1 == 0);
                    }
                }
            }
            assert forall|y: ItemId| passing(txs, min_utility, y) implies exists|k: int| 0 <= k < orig@.len() && orig@[k] == y by {
                assert(res.twu@.contains_key(y));
                let i = choose|i: int| 0 <= i < res.ordered_items@.len() && (#[trigger] res.ordered_items@[i]).0 == y;
                assert(keyed@[i] == (y, 0i64));
                assert(keyed@.contains((y, 0i64)));
                assert(valid@.contains((y, 0i64)));
                let k = choose|k: int| 0 <= k < valid@.len() && valid@[k] == (y, 0i64);
                assert(orig@[k] == y);
            }
        }
        let mut tx_twus: Vec<Utility> = Vec::new();
        let mut t: usize = 0;
        while t < transactions.len()
            invariant
                t <= transactions@.len(),
                tx_twus@.len() == t,
                forall|q: int| 0 <= q < t ==> #[trigger] tx_twus@[q] == transactions@[q].transaction_utility,
            decreases transactions@.len() - t,
        {
            tx_twus.push(transactions[t].transaction_utility);
            t = t + 1;
        }
        let tw = tx_twus.len();
        let tx_twus_bytes: usize = if tw > usize::MAX / 8 { usize::MAX } else { tw * 8 };
        let mut out: Vec<Hui> = Vec::new();
        if !guard.try_alloc(tx_twus_bytes) {
            return Ok(out);
        }
        let count = orig.len();
        let mut i: usize = 0;
        while i < count
            invariant
                i <= count,
                count == orig@.len(),
                txs == transactions@,
                n == txs.len(),
                txs.len() == tx_twus@.len(),
                txs.len() <= u32::MAX,
                forall|t: int| 0 <= t < txs.len() ==> #[trigger] tx_twus@[t] == txs[t].transaction_utility,
                exact_lists == db_distinct(txs),
                pages_ok(txs, pages@, rows, orig@, exact_lists),
                exact_lists ==> sound_huis(txs, min_utility, out@),
                guard.budget_view() == old(guard).budget_view(),
                guard.used_view() == old(guard).used_view() + tx_twus_bytes,
                complete == mining_complete(txs, min_utility),
                fits == (db_distinct(txs) && db_nonneg(txs)),
                abs_weight(txs) <= i64::MAX,
                strictly_increasing(orig@),
                orig_sorted(orig@),
                forall|y: ItemId| passing(txs, min_utility, y) ==> exists|k: int| 0 <= k < orig@.len() && orig@[k] == y,
                complete ==> forall|c: Seq<ItemId>| #[trigger] owed(txs, min_utility, c) && starts_before(c, orig@, i as int)
                    ==> reported(out@, c),
                distinct_increasing(out@),
                search_ordered(out@, 0),
                forall|q: int| 0 <= q < out@.len() ==> (#[trigger] out@[q]).0@.len() > 0 && starts_before(out@[q].0@, orig@, i as int),
            decreases count - i,
        {
            proof {
                lemma_entries_bytes(rows[i as int]);
                assert(pages@[i as int]@ == entries_bytes(rows[i as int]));
            }
            let initial = deserialize_entries(pages[i].as_slice());
            proof {
                assert(initial@ == rows[i as int]);
            }
            let ghost l1 = tid_list(txs, seq![orig@[i as int]], n);
            proof {
                if fits {
                    assert(matches_list(rows[i as int], l1));
                    lemma_tid_list_nonneg(txs, seq![orig@[i as int]], n);
                    lemma_sums_fit(txs, seq![orig@[i as int]], n);
                }
            }
            let exact_1 = match sum_entries(&initial, Ghost(l1)) {
                Ok(v) => v,
                Err(e) => {
                    return Err(e);
                },
            };
            let mut prefix: Vec<ItemId> = Vec::new();
            prefix.push(orig[i]);
            let ghost out0 = out@;
            if exact_1 >= min_utility {
                let ghost before = out@;
                out.push((prefix.clone(), exact_1));
                proof {
                    assert(out@[out@.len() - 1].0@ =~= seq![orig@[i as int]]);
                    assert forall|q: int| 0 <= q < out@.len() implies (#[trigger] out@[q]).0@.len() > 0 && starts_before(out@[q].0@, orig@, i + 1) by {
                        if q < before.len() {
                            assert(out@[q] == before[q]);
                            let k = choose|k: int| 0 <= k < i && orig@[k] == before[q].0@[0];
                        } else {
                            assert(orig@[i as int] == out@[q].0@[0]);
                        }
                    }
                    assert(distinct_increasing(out@)) by {
                        assert forall|q: int| 0 <= q < out@.len() implies strictly_increasing(#[trigger] out@[q].0@) by {
                            if q < before.len() {
                                assert(out@[q] == before[q]);
                            }
                        }
                        assert forall|a: int, b: int| 0 <= a < b < out@.len() implies out@[a].0@ != out@[b].0@ by {
                            assert(out@[a] == before[a]);
                            if b < before.len() {
                                assert(out@[b] == before[b]);
                            } else {
                                let k = choose|k: int| 0 <= k < i && orig@[k] == before[a].0@[0];
                                assert(orig@[k] < orig@[i as int]);
                                assert(out@[a].0@[0] != out@[b].0@[0]);
                            }
                        }
                    }
                }
                proof {
                    assert forall|a: int, b: int| 0 <= a < b < out@.len() implies #[trigger] listed_before(out@[a].0@, out@[b].0@) by {
                        assert(out@[a] == before[a]);
                        if b < before.len() {
                            assert(out@[b] == before[b]);
                        } else {
                            let k = choose|k: int| 0 <= k < i && orig@[k] == before[a].0@[0];
                            assert(orig@[k] < orig@[i as int]);
                            assert(out@[b].0@[0] == orig@[i as int]);
                        }
                    }
                }
                proof {
                    if exact_lists {
                        lemma_list_sum_is_utility(txs, seq![orig@[i as int]], n);
                        assert(txs.take(n) =~= txs);
                        assert(prefix@ =~= seq![orig@[i as int]]);
                        assert forall|k: int| 0 <= k < out@.len() implies {
                            &&& (#[trigger] out@[k]).1 == db_utility(txs, out@[k].0@)
                            &&& out@[k].1 >= min_utility
                        } by {
                            if k < before.len() {
                                assert(out@[k] == before[k]);
                            }
                        }
                    }
                }
            }
            let ghost out1 = out@;
            proof {
                assert(grows(out0, out1)) by {
                    assert forall|k: int| 0 <= k < out0.len() implies #[trigger] out1[k] == out0[k] by {}
                }
                if complete {
                    lemma_list_sum_is_utility(txs, seq![orig@[i as int]], n);
                    assert(txs.take(n) =~= txs);
                    assert(matches_list(rows[i as int], l1));
                    if db_utility(txs, seq![orig@[i as int]]) >= min_utility {
                        assert(exact_1 >= min_utility);
                        assert(out1[out1.len() - 1].0@ == seq![orig@[i as int]]);
                    }
                }
            }
            let mut extensions: Vec<usize> = Vec::new();
            let mut e = i + 1;
            while e < count
                invariant
                    i < e <= count,
                    count == orig@.len(),
                    forall|k: int| 0 <= k < extensions@.len() ==> #[trigger] extensions@[k] < orig@.len(),
                    extensions@.len() == e - i - 1,
                    forall|k: int| 0 <= k < extensions@.len() ==> #[trigger] extensions@[k] == i + 1 + k,
                decreases count - e,
            {
                extensions.push(e);
                e = e + 1;
            }
            proof {
                assert(prefix@ =~= seq![orig@[i as int]]);
                assert forall|k: int| 0 <= k < initial@.len() implies (#[trigger] initial@[k]).tx_idx < txs.len() by {
                    assert(initial@[k] == rows[i as int][k]);
                }
            }
            proof {
                assert(strictly_increasing(prefix@));
                assert(exts_increasing(extensions@, orig@));
                assert forall|k: int| 0 <= k < extensions@.len() implies all_below(prefix@, orig@[#[trigger] extensions@[k] as int]) by {
                    assert(prefix@[0] == orig@[i as int]);
                    assert(extensions@[k] == i + 1 + k);
                }
                assert forall|q: int| 0 <= q < out@.len() implies (#[trigger] out@[q]).0@.len() > 0 && starts_before(out@[q].0@, orig@, i + 1) by {
                    let k = choose|k: int| 0 <= k < i + 1 && orig@[k] == out@[q].0@[0];
                }
            }
            let ghost out_mid = out@;
            let ghost p1 = prefix@;
            let res_dfs = dfs(&mut prefix, &extensions, 0, &initial, &pages, &tx_twus, min_utility, &orig, &mut out,
                Ghost(txs), Ghost(rows), Ghost(exact_lists), Ghost(complete), Ghost(fits));
            proof {
                assert forall|a: int, b: int| 0 <= a < b < out@.len() implies #[trigger] listed_before(out@[a].0@, out@[b].0@) by {
                    if b < out_mid.len() {
                        assert(out@[a] == out_mid[a] && out@[b] == out_mid[b]);
                    } else if a < out_mid.len() {
                        assert(out@[a] == out_mid[a]);
                        let d = out@[b].0@;
                        assert(grown_from(d, p1, orig@, extensions@, 0));
                        assert(d.take(1)[0] == p1[0]);
                        if a < out0.len() {
                            assert(out_mid[a] == out0[a]);
                            let k = choose|k: int| 0 <= k < i && orig@[k] == out0[a].0@[0];
                            assert(orig@[k] < orig@[i as int]);
                        } else {
                            assert(out_mid[a].0@ =~= seq![orig@[i as int]]);
                            assert(d.take(1) =~= out_mid[a].0@);
                            lemma_prefix_before(out_mid[a].0@, d);
                        }
                    }
                }
            }
            proof {
                assert(added_ok(out@, out_mid.len() as int, p1, orig@, extensions@, 0));
                assert forall|q: int| 0 <= q < out@.len() implies (#[trigger] out@[q]).0@.len() > 0 && starts_before(out@[q].0@, orig@, i + 1)
                    && strictly_increasing(out@[q].0@) && (q >= out_mid.len() ==> out@[q].0@.len() > 1 && out@[q].0@[0] == orig@[i as int]) by {
                    if q < out_mid.len() {
                        assert(out@[q] == out_mid[q]);
                        assert(out_mid[q].0@.len() > 0 && starts_before(out_mid[q].0@, orig@, i + 1));
                        assert(strictly_increasing(out_mid[q].0@));
                    } else {
                        let c = out@[q].0@;
                        assert(grown_from(c, p1, orig@, extensions@, 0));
                        assert(c.take(1)[0] == p1[0]);
                        assert(c[0] == orig@[i as int]);
                    }
                }
                assert(distinct_increasing(out@)) by {
                    assert forall|a: int, b: int| 0 <= a < b < out@.len() implies out@[a].0@ != out@[b].0@ by {
                        if b < out_mid.len() {
                            assert(out@[a] == out_mid[a] && out@[b] == out_mid[b]);
                        } else if a >= out_mid.len() {
                        } else {
                            assert(out@[a] == out_mid[a]);
                            if out_mid[a].0@.len() == 1 && out_mid[a].0@[0] == orig@[i as int] {
                                assert(out@[a].0@.len() != out@[b].0@.len());
                            } else {
                                let k = choose|k: int| 0 <= k < i + 1 && orig@[k] == out_mid[a].0@[0];
                                if k == i {
                                    assert(out@[a].0@.len() != out@[b].0@.len());
                                } else {
                                    assert(orig@[k] < orig@[i as int]);
                                    assert(out@[a].0@[0] != out@[b].0@[0]);
                                }
                            }
                        }
                    }
                }
            }
            match res_dfs {
                Ok(()) => {},
                Err(e) => {
                    return Err(e);
                },
            }
            proof {
                if complete {
                    lemma_top_step(txs, min_utility, out0, out1, out@, orig@, extensions@, i as int);
                }
            }
            i = i + 1;
        }
        guard.free(tx_twus_bytes);
        proof {
            if complete {
                assert forall|c: Seq<ItemId>| #[trigger] owed(txs, min_utility, c) implies reported(out@, c) by {
                    lemma_increasing_no_dups(c);
                    assert(c.contains(c[0]));
                    lemma_owed_item_passes(txs, min_utility, c, c[0]);
                    let k = choose|k: int| 0 <= k < orig@.len() && orig@[k] == c[0];
                    assert(starts_before(c, orig@, count as int));
                }
            }
        }
        Ok(out)
    }
}

} // verus!
