//! Transaction-weighted utility (TWU): the upper bound used to drop items before mining.
use std::collections::HashMap;
use vstd::prelude::*;
use crate::types::{ItemId, Utility, RawTransaction, ItemEntry};

verus! {

broadcast use vstd::std_specs::hash::group_hash_axioms;

/// A transaction keeping only items that pass the TWU filter, ordered by ascending TWU.
#[derive(Debug, Clone)]
pub struct FilteredTransaction {
    pub tid: u32,
    pub transaction_utility: Utility,
    pub items: Vec<ItemEntry>,
}

/// TWU of every item that passed, the same items ordered by ascending TWU, and the threshold.
#[derive(Debug, Clone)]
pub struct TwuFilterResult {
    pub twu: HashMap<ItemId, Utility>,
    pub ordered_items: Vec<(ItemId, Utility)>,
    pub min_utility: Utility,
}

/// Computes item TWUs and drops items below a threshold.
pub struct TwuFilter {
    pub min_utility: Utility,
}

/// What the entries of one transaction add to the TWU of `x`: `tu` per occurrence.
pub open spec fn tx_contrib(items: Seq<ItemEntry>, x: ItemId, tu: Utility) -> int
    decreases items.len(),
{
    if items.len() == 0 {
        0
    } else {
        tx_contrib(items.drop_last(), x, tu) + (if items.last().item == x { tu as int } else { 0 })
    }
}

/// TWU of `x`: the transaction utility of each transaction, once per occurrence of `x` in it.
pub open spec fn spec_twu(txs: Seq<RawTransaction>, x: ItemId) -> int
    decreases txs.len(),
{
    if txs.len() == 0 {
        0
    } else {
        spec_twu(txs.drop_last(), x) + tx_contrib(txs.last().items@, x, txs.last().transaction_utility)
    }
}

/// Whether `x` occurs in the entries.
pub open spec fn occurs_in(items: Seq<ItemEntry>, x: ItemId) -> bool {
    exists|k: int| 0 <= k < items.len() && (#[trigger] items[k]).item == x
}

/// Whether `x` occurs in some transaction.
pub open spec fn occurs(txs: Seq<RawTransaction>, x: ItemId) -> bool {
    exists|i: int| 0 <= i < txs.len() && occurs_in((#[trigger] txs[i]).items@, x)
}

/// Sum over entries of `|tu|`.
pub open spec fn abs_contrib(items: Seq<ItemEntry>, tu: Utility) -> int
    decreases items.len(),
{
    if items.len() == 0 { 0 } else { abs_contrib(items.drop_last(), tu) + (if tu < 0 { -tu } else { tu as int }) }
}

/// Sum over all entries of all transactions of `|transaction utility|`; bounds every running TWU.
pub open spec fn abs_weight(txs: Seq<RawTransaction>) -> int
    decreases txs.len(),
{
    if txs.len() == 0 {
        0
    } else {
        abs_weight(txs.drop_last()) + abs_contrib(txs.last().items@, txs.last().transaction_utility)
    }
}

/// The items that pass: those that occur and whose TWU reaches the threshold.
pub open spec fn passing(txs: Seq<RawTransaction>, min: Utility, x: ItemId) -> bool {
    occurs(txs, x) && spec_twu(txs, x) >= min
}

/// Insertion of `e` into `t` after every element whose key is at most that of `e`.
pub open spec fn insert_stable(t: Seq<ItemEntry>, e: ItemEntry, key: Map<ItemId, Utility>) -> Seq<ItemEntry>
    decreases t.len(),
{
    if t.len() == 0 {
        seq![e]
    } else if key[t.last().item] <= key[e.item] {
        t.push(e)
    } else {
        insert_stable(t.drop_last(), e, key).push(t.last())
    }
}

/// Stable sort by ascending key: elements with equal keys keep their order.
pub open spec fn stable_sort(s: Seq<ItemEntry>, key: Map<ItemId, Utility>) -> Seq<ItemEntry>
    decreases s.len(),
{
    if s.len() == 0 {
        Seq::empty()
    } else {
        insert_stable(stable_sort(s.drop_last(), key), s.last(), key)
    }
}

pub open spec fn sorted_by_key(s: Seq<ItemEntry>, key: Map<ItemId, Utility>) -> bool {
    forall|i: int, j: int| 0 <= i < j < s.len() ==> key[s[i].item] <= key[s[j].item]
}

proof fn lemma_tx_contrib_bound(items: Seq<ItemEntry>, x: ItemId, tu: Utility)
    ensures
        -abs_contrib(items, tu) <= tx_contrib(items, x, tu) <= abs_contrib(items, tu),
        abs_contrib(items, tu) >= 0,
    decreases items.len(),
{
    if items.len() > 0 {
        lemma_tx_contrib_bound(items.drop_last(), x, tu);
    }
}

/// The TWU of `x` as the transactions are read: over the first `t` of them and the first
/// `j` entries of the next.
pub open spec fn running_twu(txs: Seq<RawTransaction>, t: int, j: int, x: ItemId) -> int {
    spec_twu(txs.take(t), x) + tx_contrib(txs[t].items@.take(j), x, txs[t].transaction_utility)
}

/// Every running TWU fits in an `i64`: what one pass that adds a transaction's utility
/// to each of its entries' items needs.
pub open spec fn twu_fits(txs: Seq<RawTransaction>) -> bool {
    forall|t: int, j: int, x: ItemId| 0 <= t < txs.len() && 0 <= j <= txs[t].items@.len()
        ==> i64::MIN <= #[trigger] running_twu(txs, t, j, x) <= i64::MAX
}

/// A database that weighs at most `i64::MAX` has every running TWU within `i64`.
pub proof fn lemma_weight_twu_fits(txs: Seq<RawTransaction>)
    requires
        abs_weight(txs) <= i64::MAX,
    ensures
        twu_fits(txs),
{
    assert forall|t: int, j: int, x: ItemId| 0 <= t < txs.len() && 0 <= j <= txs[t].items@.len()
        implies i64::MIN <= #[trigger] running_twu(txs, t, j, x) <= i64::MAX by {
        let items = txs[t].items@;
        let tu = txs[t].transaction_utility;
        lemma_twu_bound(txs.take(t), x);
        lemma_tx_contrib_bound(items.take(j), x, tu);
        lemma_abs_contrib_take(items, tu, j);
        lemma_occurs_take_step(txs, t, x);
        lemma_abs_weight_take(txs, t + 1);
    }
}

pub(crate) proof fn lemma_twu_bound(txs: Seq<RawTransaction>, x: ItemId)
    ensures
        -abs_weight(txs) <= spec_twu(txs, x) <= abs_weight(txs),
        abs_weight(txs) >= 0,
    decreases txs.len(),
{
    if txs.len() > 0 {
        lemma_twu_bound(txs.drop_last(), x);
        lemma_tx_contrib_bound(txs.last().items@, x, txs.last().transaction_utility);
    }
}

pub(crate) proof fn lemma_abs_weight_take(txs: Seq<RawTransaction>, t: int)
    requires
        0 <= t <= txs.len(),
    ensures
        abs_weight(txs.take(t)) <= abs_weight(txs),
    decreases txs.len() - t,
{
    if t < txs.len() {
        lemma_abs_weight_take(txs, t + 1);
        assert(txs.take(t + 1).drop_last() =~= txs.take(t));
        lemma_tx_contrib_bound(txs[t].items@, 0, txs[t].transaction_utility);
    } else {
        assert(txs.take(t) =~= txs);
    }
}

} // verus!

verus! {

proof fn lemma_abs_contrib_take(items: Seq<ItemEntry>, tu: Utility, j: int)
    requires
        0 <= j <= items.len(),
    ensures
        abs_contrib(items.take(j), tu) <= abs_contrib(items, tu),
    decreases items.len() - j,
{
    if j < items.len() {
        lemma_abs_contrib_take(items, tu, j + 1);
        assert(items.take(j + 1).drop_last() =~= items.take(j));
    } else {
        assert(items.take(j) =~= items);
    }
}

proof fn lemma_occurs_take_step(txs: Seq<RawTransaction>, t: int, x: ItemId)
    requires
        0 <= t < txs.len(),
    ensures
        occurs(txs.take(t + 1), x) <==> (occurs(txs.take(t), x) || occurs_in(txs[t].items@, x)),
        spec_twu(txs.take(t + 1), x) == spec_twu(txs.take(t), x) + tx_contrib(txs[t].items@, x, txs[t].transaction_utility),
        abs_weight(txs.take(t + 1)) == abs_weight(txs.take(t)) + abs_contrib(txs[t].items@, txs[t].transaction_utility),
{
    let a = txs.take(t);
    let b = txs.take(t + 1);
    assert(b.drop_last() =~= a);
    if occurs(b, x) {
        let i = choose|i: int| 0 <= i < b.len() && occurs_in((#[trigger] b[i]).items@, x);
        if i < t {
            assert(a[i] == b[i]);
        }
    }
    if occurs(a, x) {
        let i = choose|i: int| 0 <= i < a.len() && occurs_in((#[trigger] a[i]).items@, x);
        assert(b[i] == a[i]);
    }
    if occurs_in(txs[t].items@, x) {
        assert(b[t] == txs[t]);
    }
}

proof fn lemma_items_take_step(items: Seq<ItemEntry>, j: int, x: ItemId, tu: Utility)
    requires
        0 <= j < items.len(),
    ensures
        occurs_in(items.take(j + 1), x) <==> (occurs_in(items.take(j), x) || items[j].item == x),
        tx_contrib(items.take(j + 1), x, tu) == tx_contrib(items.take(j), x, tu) + (if items[j].item == x { tu as int } else { 0 }),
        abs_contrib(items.take(j + 1), tu) == abs_contrib(items.take(j), tu) + (if tu < 0 { -tu } else { tu as int }),
{
    let a = items.take(j);
    let b = items.take(j + 1);
    assert(b.drop_last() =~= a);
    if occurs_in(b, x) {
        let k = choose|k: int| 0 <= k < b.len() && (#[trigger] b[k]).item == x;
        if k < j {
            assert(a[k] == b[k]);
        }
    }
    if occurs_in(a, x) {
        let k = choose|k: int| 0 <= k < a.len() && (#[trigger] a[k]).item == x;
        assert(b[k] == a[k]);
    }
    if items[j].item == x {
        assert(b[j] == items[j]);
    }
}

impl TwuFilterResult {
    /// Whether `item` passed the filter.
    pub fn passes(&self, item: ItemId) -> (r: bool)
        ensures
            r == self.twu@.contains_key(item),
    {
        self.twu.contains_key(&item)
    }
}

impl TwuFilter {
    /// A filter with threshold `min_utility`.
    pub fn new(min_utility: Utility) -> (r: Self)
        ensures
            r.min_utility == min_utility,
    {
        TwuFilter { min_utility }
    }

    /// One pass over the transactions: the TWU of each item (the transaction utility of
    /// every transaction, once per occurrence), keeping items whose TWU reaches the
    /// threshold, and those items in ascending order of TWU.
    pub fn compute(&self, transactions: &[RawTransaction]) -> (r: TwuFilterResult)
        requires
            twu_fits(transactions@),
        ensures
            r.min_utility == self.min_utility,
            forall|x: ItemId| #[trigger] r.twu@.contains_key(x) <==> passing(transactions@, self.min_utility, x),
            forall|x: ItemId| #[trigger] r.twu@.contains_key(x) ==> r.twu@[x] == spec_twu(transactions@, x),
            forall|i: int| 0 <= i < r.ordered_items@.len() ==>
                r.twu@.contains_key((#[trigger] r.ordered_items@[i]).0) && r.twu@[r.ordered_items@[i].0] == r.ordered_items@[i].1,
            forall|x: ItemId| #[trigger] r.twu@.contains_key(x) ==>
                exists|i: int| 0 <= i < r.ordered_items@.len() && (#[trigger] r.ordered_items@[i]).0 == x,
            forall|i: int, j: int| 0 <= i < j < r.ordered_items@.len() ==>
                (#[trigger] r.ordered_items@[i]).0 != (#[trigger] r.ordered_items@[j]).0,
            forall|i: int, j: int| 0 <= i < j < r.ordered_items@.len() ==>
                (#[trigger] r.ordered_items@[i]).1 <= (#[trigger] r.ordered_items@[j]).1,
    {
        let ghost txs = transactions@;
        let mut acc: HashMap<ItemId, Utility> = HashMap::new();
        let mut keys: Vec<ItemId> = Vec::new();
        let mut t: usize = 0;
        proof {
            assert(txs.take(0) =~= Seq::<RawTransaction>::empty());
        }
        while t < transactions.len()
            invariant
                txs == transactions@,
                t <= txs.len(),
                twu_fits(txs),
                forall|x: ItemId| #[trigger] acc@.contains_key(x) <==> occurs(txs.take(t as int), x),
                forall|x: ItemId| #[trigger] acc@.contains_key(x) ==> acc@[x] == spec_twu(txs.take(t as int), x),
                keys@.no_duplicates(),
                forall|x: ItemId| #[trigger] keys@.contains(x) <==> acc@.contains_key(x),
            decreases txs.len() - t,
        {
            let tx = &transactions[t];
            let tu = tx.transaction_utility;
            let ghost items = tx.items@;
            let mut j: usize = 0;
            proof {
                assert(items.take(0) =~= Seq::<ItemEntry>::empty());
            }
            while j < tx.items.len()
                invariant
                    txs == transactions@,
                    t < txs.len(),
                    tx == &transactions[t as int],
                    items == tx.items@,
                    tu == tx.transaction_utility,
                    j <= items.len(),
                    twu_fits(txs),
                    forall|x: ItemId| #[trigger] acc@.contains_key(x) <==>
                        (occurs(txs.take(t as int), x) || occurs_in(items.take(j as int), x)),
                    forall|x: ItemId| #[trigger] acc@.contains_key(x) ==>
                        acc@[x] == spec_twu(txs.take(t as int), x) + tx_contrib(items.take(j as int), x, tu),
                    keys@.no_duplicates(),
                    forall|x: ItemId| #[trigger] keys@.contains(x) <==> acc@.contains_key(x),
                decreases items.len() - j,
            {
                let x = tx.items[j].item;
                proof {
                    lemma_items_take_step(items, j as int, x, tu);
                    assert(i64::MIN <= running_twu(txs, t as int, j as int + 1, x) <= i64::MAX);
                    assert forall|y: ItemId| y != x implies
                        (occurs_in(items.take(j as int + 1), y) <==> occurs_in(items.take(j as int), y))
                        && tx_contrib(items.take(j as int + 1), y, tu) == tx_contrib(items.take(j as int), y, tu) by {
                        lemma_items_take_step(items, j as int, y, tu);
                    }
                }
                match acc.get(&x) {
                    Some(v) => {
                        let nv = *v + tu;
                        let ghost old_acc = acc@;
                        acc.insert(x, nv);
                        proof {
                            assert(acc@[x] == spec_twu(txs.take(t as int), x) + tx_contrib(items.take(j + 1), x, tu));
                            assert forall|y: ItemId| #[trigger] acc@.contains_key(y) implies
                                acc@[y] == spec_twu(txs.take(t as int), y) + tx_contrib(items.take(j + 1), y, tu) by {
                                if y != x {
                                    assert(acc@[y] == old_acc[y]);
                                    lemma_items_take_step(items, j as int, y, tu);
                                }
                            }
                        }
                    },
                    None => {
                        proof {
                            assert(!keys@.contains(x));
                            lemma_absent_twu(txs.take(t as int), x);
                            lemma_absent_contrib(items.take(j as int), x, tu);
                        }
                        let ghost old_keys = keys@;
                        acc.insert(x, tu);
                        keys.push(x);
                        proof {
                            assert forall|y: ItemId| #[trigger] keys@.contains(y) <==> acc@.contains_key(y) by {
                                lemma_push_contains(old_keys, x, y);
                            }
                            assert forall|y: ItemId| #[trigger] acc@.contains_key(y) implies
                                acc@[y] == spec_twu(txs.take(t as int), y) + tx_contrib(items.take(j + 1), y, tu) by {
                                if y != x {
                                    lemma_items_take_step(items, j as int, y, tu);
                                }
                            }
                        }
                    },
                }
                j += 1;
            }
            proof {
                assert(items.take(items.len() as int) =~= items);
                assert forall|x: ItemId| #[trigger] acc@.contains_key(x) <==> occurs(txs.take(t + 1), x) by {
                    lemma_occurs_take_step(txs, t as int, x);
                }
                assert forall|x: ItemId| #[trigger] acc@.contains_key(x) implies acc@[x] == spec_twu(txs.take(t + 1), x) by {
                    lemma_occurs_take_step(txs, t as int, x);
                }
            }
            t += 1;
        }
        proof {
            assert(txs.take(txs.len() as int) =~= txs);
        }
        // Keep the items that reach the threshold, ordered by ascending TWU.
        let mut twu: HashMap<ItemId, Utility> = HashMap::new();
        let mut ordered: Vec<(ItemId, Utility)> = Vec::new();
        let mut k: usize = 0;
        while k < keys.len()
            invariant
                txs == transactions@,
                k <= keys@.len(),
                keys@.no_duplicates(),
                forall|x: ItemId| #[trigger] keys@.contains(x) <==> acc@.contains_key(x),
                forall|x: ItemId| #[trigger] acc@.contains_key(x) <==> occurs(txs, x),
                forall|x: ItemId| #[trigger] acc@.contains_key(x) ==> acc@[x] == spec_twu(txs, x),
                forall|x: ItemId| #[trigger] twu@.contains_key(x) <==>
                    (keys@.subrange(0, k as int).contains(x) && acc@[x] >= self.min_utility),
                forall|x: ItemId| #[trigger] twu@.contains_key(x) ==> twu@[x] == acc@[x],
                forall|i: int| 0 <= i < ordered@.len() ==>
                    twu@.contains_key((#[trigger] ordered@[i]).0) && twu@[ordered@[i].0] == ordered@[i].1,
                forall|x: ItemId| #[trigger] twu@.contains_key(x) ==>
                    exists|i: int| 0 <= i < ordered@.len() && (#[trigger] ordered@[i]).0 == x,
                forall|i: int, j: int| 0 <= i < j < ordered@.len() ==>
                    (#[trigger] ordered@[i]).0 != (#[trigger] ordered@[j]).0,
                forall|i: int, j: int| 0 <= i < j < ordered@.len() ==>
                    (#[trigger] ordered@[i]).1 <= (#[trigger] ordered@[j]).1,
            decreases keys@.len() - k,
        {
            let x = keys[k];
            proof {
                assert(keys@.contains(x));
                assert forall|y: ItemId| keys@.subrange(0, k as int + 1).contains(y) <==>
                    (keys@.subrange(0, k as int).contains(y) || y == x) by {
                    assert(keys@.subrange(0, k as int + 1) =~= keys@.subrange(0, k as int).push(x));
                    lemma_push_contains(keys@.subrange(0, k as int), x, y);
                }
                assert(keys@.subrange(0, k as int + 1) =~= keys@.subrange(0, k as int).push(x));
                assert(!keys@.subrange(0, k as int).contains(x)) by {
                    if keys@.subrange(0, k as int).contains(x) {
                        let q = choose|q: int| 0 <= q < k && keys@.subrange(0, k as int)[q] == x;
                        assert(keys@[q] == keys@[k as int]);
                    }
                }
            }
            let v = *acc.get(&x).unwrap();
            if v >= self.min_utility {
                // Insert after every element with a TWU at most `v`.
                let mut p: usize = 0;
                while p < ordered.len() && ordered[p].1 <= v
                    invariant
                        p <= ordered@.len(),
                        forall|i: int| 0 <= i < p ==> (#[trigger] ordered@[i]).1 <= v,
                    decreases ordered@.len() - p,
                {
                    p += 1;
                }
                proof {
                    assert(!twu@.contains_key(x));
                }
                let ghost old_ordered = ordered@;
                ordered.insert(p, (x, v));
                twu.insert(x, v);
                proof {
                    assert forall|i: int| 0 <= i < ordered@.len() implies
                        twu@.contains_key((#[trigger] ordered@[i]).0) && twu@[ordered@[i].0] == ordered@[i].1 by {
                        if i < p {
                            assert(ordered@[i] == old_ordered[i]);
                        } else if i > p {
                            assert(ordered@[i] == old_ordered[i - 1]);
                        }
                    }
                    assert forall|y: ItemId| #[trigger] twu@.contains_key(y) implies
                        exists|i: int| 0 <= i < ordered@.len() && (#[trigger] ordered@[i]).0 == y by {
                        if y == x {
                            assert(ordered@[p as int].0 == y);
                        } else {
                            let i = choose|i: int| 0 <= i < old_ordered.len() && (#[trigger] old_ordered[i]).0 == y;
                            if i < p {
                                assert(ordered@[i] == old_ordered[i]);
                            } else {
                                assert(ordered@[i + 1] == old_ordered[i]);
                            }
                        }
                    }
                    assert forall|i: int, j: int| 0 <= i < j < ordered@.len() implies
                        (#[trigger] ordered@[i]).0 != (#[trigger] ordered@[j]).0 by {
                        if i != p && j != p {
                            let oi = if i < p { i } else { i - 1 };
                            let oj = if j < p { j } else { j - 1 };
                            assert(ordered@[i] == old_ordered[oi]);
                            assert(ordered@[j] == old_ordered[oj]);
                        } else if i == p {
                            assert(ordered@[j] == old_ordered[j - 1]);
                            assert(twu@.contains_key(old_ordered[j - 1].0));
                        } else {
                            assert(ordered@[i] == old_ordered[i]);
                            assert(twu@.contains_key(old_ordered[i].0));
                        }
                    }
                    assert forall|i: int, j: int| 0 <= i < j < ordered@.len() implies
                        (#[trigger] ordered@[i]).1 <= (#[trigger] ordered@[j]).1 by {
                        if i != p && j != p {
                            let oi = if i < p { i } else { i - 1 };
                            let oj = if j < p { j } else { j - 1 };
                            assert(ordered@[i] == old_ordered[oi]);
                            assert(ordered@[j] == old_ordered[oj]);
                        } else if i == p {
                            assert(ordered@[j] == old_ordered[j - 1]);
                            if p < old_ordered.len() {
                                assert(old_ordered[p as int].1 > v);
                                if j - 1 > p {
                                    assert(old_ordered[p as int].1 <= old_ordered[j - 1].1);
                                }
                            }
                        } else {
                            assert(ordered@[i] == old_ordered[i]);
                        }
                    }
                }
            }
            k += 1;
        }
        proof {
            assert(keys@.subrange(0, keys@.len() as int) =~= keys@);
        }
        let r = TwuFilterResult { twu, ordered_items: ordered, min_utility: self.min_utility };
        proof {
            assert forall|x: ItemId| #[trigger] r.twu@.contains_key(x) implies
                exists|i: int| 0 <= i < r.ordered_items@.len() && (#[trigger] r.ordered_items@[i]).0 == x by {
                let i = choose|i: int| 0 <= i < ordered@.len() && (#[trigger] ordered@[i]).0 == x;
                assert(r.ordered_items@[i].0 == x);
            }
        }
        r
    }
}

proof fn lemma_push_contains<A>(s: Seq<A>, e: A, y: A)
    ensures
        s.push(e).contains(y) <==> (s.contains(y) || y == e),
{
    if s.contains(y) {
        let k = choose|k: int| 0 <= k < s.len() && s[k] == y;
        assert(s.push(e)[k] == y);
    }
    if y == e {
        assert(s.push(e)[s.len() as int] == y);
    }
    if s.push(e).contains(y) {
        let k = choose|k: int| 0 <= k < s.len() + 1 && s.push(e)[k] == y;
        if k < s.len() {
            assert(s[k] == y);
        }
    }
}

proof fn lemma_absent_contrib(items: Seq<ItemEntry>, x: ItemId, tu: Utility)
    requires
        !occurs_in(items, x),
    ensures
        tx_contrib(items, x, tu) == 0,
    decreases items.len(),
{
    if items.len() > 0 {
        assert(items.last() == items[items.len() - 1]);
        assert(!occurs_in(items.drop_last(), x)) by {
            if occurs_in(items.drop_last(), x) {
                let k = choose|k: int| 0 <= k < items.len() - 1 && (#[trigger] items.drop_last()[k]).item == x;
                assert(items[k] == items.drop_last()[k]);
            }
        }
        lemma_absent_contrib(items.drop_last(), x, tu);
    }
}

proof fn lemma_absent_twu(txs: Seq<RawTransaction>, x: ItemId)
    requires
        !occurs(txs, x),
    ensures
        spec_twu(txs, x) == 0,
    decreases txs.len(),
{
    if txs.len() > 0 {
        assert(!occurs_in(txs[txs.len() - 1].items@, x));
        lemma_absent_contrib(txs.last().items@, x, txs.last().transaction_utility);
        assert(!occurs(txs.drop_last(), x)) by {
            if occurs(txs.drop_last(), x) {
                let i = choose|i: int| 0 <= i < txs.len() - 1 && occurs_in((#[trigger] txs.drop_last()[i]).items@, x);
                assert(txs[i] == txs.drop_last()[i]);
            }
        }
        lemma_absent_twu(txs.drop_last(), x);
    }
}

} // verus!

verus! {

/// The entries whose item is in `m`, in order.
pub open spec fn kept_items(items: Seq<ItemEntry>, m: Map<ItemId, Utility>) -> Seq<ItemEntry>
    decreases items.len(),
{
    if items.len() == 0 {
        Seq::empty()
    } else if m.contains_key(items.last().item) {
        kept_items(items.drop_last(), m).push(items.last())
    } else {
        kept_items(items.drop_last(), m)
    }
}

proof fn lemma_insert_stable(t: Seq<ItemEntry>, e: ItemEntry, key: Map<ItemId, Utility>, p: int)
    requires
        sorted_by_key(t, key),
        0 <= p <= t.len(),
        forall|i: int| 0 <= i < p ==> key[(#[trigger] t[i]).item] <= key[e.item],
        p < t.len() ==> key[t[p].item] > key[e.item],
    ensures
        insert_stable(t, e, key) == t.insert(p, e),
        sorted_by_key(t.insert(p, e), key),
    decreases t.len(),
{
    if t.len() == 0 {
        assert(t.insert(p, e) =~= seq![e]);
    } else if key[t.last().item] <= key[e.item] {
        if p < t.len() {
            assert(key[t[p].item] <= key[t.last().item]);
        }
        assert(t.insert(p, e) =~= t.push(e));
    } else {
        if p == t.len() {
            assert(key[t[p - 1].item] <= key[e.item]);
        }
        let d = t.drop_last();
        assert(sorted_by_key(d, key));
        lemma_insert_stable(d, e, key, p);
        assert(t.insert(p, e) =~= d.insert(p, e).push(t.last()));
    }
    let s = t.insert(p, e);
    assert forall|i: int, j: int| 0 <= i < j < s.len() implies key[s[i].item] <= key[s[j].item] by {
        if i < p && j < p {
            assert(s[i] == t[i] && s[j] == t[j]);
        } else if i < p && j == p {
            assert(s[i] == t[i]);
        } else if i < p {
            assert(s[i] == t[i] && s[j] == t[j - 1]);
        } else if i == p {
            assert(s[j] == t[j - 1]);
            if j - 1 > p {
                assert(key[t[p].item] <= key[t[j - 1].item]);
            }
        } else {
            assert(s[i] == t[i - 1] && s[j] == t[j - 1]);
        }
    }
}

proof fn lemma_kept_contains(items: Seq<ItemEntry>, m: Map<ItemId, Utility>, y: ItemEntry)
    ensures
        kept_items(items, m).contains(y) <==> (items.contains(y) && m.contains_key(y.item)),
    decreases items.len(),
{
    if items.len() > 0 {
        lemma_kept_contains(items.drop_last(), m, y);
        let k = kept_items(items.drop_last(), m);
        assert(items =~= items.drop_last().push(items.last()));
        if items.contains(y) && !items.drop_last().contains(y) {
            let i = choose|i: int| 0 <= i < items.len() && items[i] == y;
            if i < items.len() - 1 {
                assert(items.drop_last()[i] == y);
            }
        }
        if items.drop_last().contains(y) {
            let i = choose|i: int| 0 <= i < items.drop_last().len() && items.drop_last()[i] == y;
            assert(items[i] == y);
        }
        if m.contains_key(items.last().item) {
            let k2 = k.push(items.last());
            if k2.contains(y) && y != items.last() {
                let i = choose|i: int| 0 <= i < k2.len() && k2[i] == y;
                assert(k[i] == y);
            }
            if k.contains(y) {
                let i = choose|i: int| 0 <= i < k.len() && k[i] == y;
                assert(k2[i] == y);
            }
            if y == items.last() {
                assert(k2[k2.len() - 1] == y);
                assert(items[items.len() - 1] == y);
            }
        } else {
            if y == items.last() {
                assert(items[items.len() - 1] == y);
            }
        }
    }
}

pub(crate) proof fn lemma_insert_stable_contains(t: Seq<ItemEntry>, e: ItemEntry, key: Map<ItemId, Utility>, y: ItemEntry)
    ensures
        insert_stable(t, e, key).contains(y) <==> (t.contains(y) || y == e),
    decreases t.len(),
{
    let r = insert_stable(t, e, key);
    if t.len() == 0 {
        assert(r =~= seq![e]);
        if r.contains(y) {
            let i = choose|i: int| 0 <= i < r.len() && r[i] == y;
        }
        if y == e {
            assert(r[0] == e);
        }
    } else if key[t.last().item] <= key[e.item] {
        assert(r == t.push(e));
        if r.contains(y) && y != e {
            let i = choose|i: int| 0 <= i < r.len() && r[i] == y;
            assert(t[i] == y);
        }
        if t.contains(y) {
            let i = choose|i: int| 0 <= i < t.len() && t[i] == y;
            assert(r[i] == y);
        }
        if y == e {
            assert(r[r.len() - 1] == e);
        }
    } else {
        let d = t.drop_last();
        lemma_insert_stable_contains(d, e, key, y);
        let rd = insert_stable(d, e, key);
        assert(r == rd.push(t.last()));
        assert(t =~= d.push(t.last()));
        if r.contains(y) {
            let i = choose|i: int| 0 <= i < r.len() && r[i] == y;
            if i < rd.len() {
                assert(rd[i] == y);
                if d.contains(y) {
                    let q = choose|q: int| 0 <= q < d.len() && d[q] == y;
                    assert(t[q] == y);
                }
            } else {
                assert(t[t.len() - 1] == y);
            }
        }
        if t.contains(y) {
            let i = choose|i: int| 0 <= i < t.len() && t[i] == y;
            if i < d.len() {
                assert(d[i] == y);
                assert(rd.contains(y));
                let q = choose|q: int| 0 <= q < rd.len() && rd[q] == y;
                assert(r[q] == y);
            } else {
                assert(r[r.len() - 1] == y);
            }
        }
        if y == e {
            assert(rd.contains(y));
            let q = choose|q: int| 0 <= q < rd.len() && rd[q] == y;
            assert(r[q] == y);
        }
    }
}

pub(crate) proof fn lemma_stable_sort_contains(s: Seq<ItemEntry>, key: Map<ItemId, Utility>, y: ItemEntry)
    ensures
        stable_sort(s, key).contains(y) <==> s.contains(y),
    decreases s.len(),
{
    if s.len() > 0 {
        lemma_stable_sort_contains(s.drop_last(), key, y);
        lemma_insert_stable_contains(stable_sort(s.drop_last(), key), s.last(), key, y);
        assert(s =~= s.drop_last().push(s.last()));
        if s.drop_last().contains(y) {
            let i = choose|i: int| 0 <= i < s.drop_last().len() && s.drop_last()[i] == y;
            assert(s[i] == y);
        }
        if s.contains(y) && y != s.last() {
            let i = choose|i: int| 0 <= i < s.len() && s[i] == y;
            assert(s.drop_last()[i] == y);
        }
        if y == s.last() {
            assert(s[s.len() - 1] == y);
        }
    }
}

/// An entry is kept exactly when it is an entry of the transaction whose item passed.
pub proof fn lemma_kept_contains_pub(items: Seq<ItemEntry>, m: Map<ItemId, Utility>, y: ItemEntry)
    ensures
        kept_items(items, m).contains(y) <==> (items.contains(y) && m.contains_key(y.item)),
{
    lemma_kept_contains(items, m, y);
}

/// Filtering keeps exactly the entries of the transaction whose item passed.
pub proof fn law_filtered_entries(items: Seq<ItemEntry>, m: Map<ItemId, Utility>, y: ItemEntry)
    ensures
        stable_sort(kept_items(items, m), m).contains(y) <==> (items.contains(y) && m.contains_key(y.item)),
{
    lemma_kept_contains(items, m, y);
    lemma_stable_sort_contains(kept_items(items, m), m, y);
}

/// No item occurs in two entries.
pub open spec fn entries_distinct(s: Seq<ItemEntry>) -> bool {
    forall|i: int, j: int| 0 <= i < j < s.len() ==> s[i].item != s[j].item
}

/// Some entry has item `x`.
pub open spec fn has_item(s: Seq<ItemEntry>, x: ItemId) -> bool {
    exists|i: int| 0 <= i < s.len() && (#[trigger] s[i]).item == x
}

proof fn lemma_kept_distinct(items: Seq<ItemEntry>, m: Map<ItemId, Utility>)
    requires
        entries_distinct(items),
    ensures
        entries_distinct(kept_items(items, m)),
    decreases items.len(),
{
    if items.len() > 0 {
        let d = items.drop_last();
        assert(entries_distinct(d));
        lemma_kept_distinct(d, m);
        if m.contains_key(items.last().item) {
            let k = kept_items(d, m);
            assert forall|i: int| 0 <= i < k.len() implies k[i].item != items.last().item by {
                assert(k.contains(k[i]));
                lemma_kept_contains(d, m, k[i]);
                let q = choose|q: int| 0 <= q < d.len() && d[q] == k[i];
                assert(items[q] == d[q]);
            }
        }
    }
}

proof fn lemma_insert_stable_distinct(t: Seq<ItemEntry>, e: ItemEntry, key: Map<ItemId, Utility>)
    requires
        entries_distinct(t),
        !has_item(t, e.item),
    ensures
        entries_distinct(insert_stable(t, e, key)),
    decreases t.len(),
{
    if t.len() > 0 && !(key[t.last().item] <= key[e.item]) {
        let d = t.drop_last();
        assert(entries_distinct(d));
        assert(!has_item(d, e.item)) by {
            if has_item(d, e.item) {
                let i = choose|i: int| 0 <= i < d.len() && (#[trigger] d[i]).item == e.item;
                assert(t[i] == d[i]);
            }
        }
        lemma_insert_stable_distinct(d, e, key);
        let rd = insert_stable(d, e, key);
        assert forall|i: int| 0 <= i < rd.len() implies rd[i].item != t.last().item by {
            assert(rd.contains(rd[i]));
            lemma_insert_stable_contains(d, e, key, rd[i]);
            if rd[i] != e {
                let q = choose|q: int| 0 <= q < d.len() && d[q] == rd[i];
                assert(t[q] == d[q]);
            } else {
                assert(t[t.len() - 1] == t.last());
            }
        }
    } else if t.len() > 0 {
        assert forall|i: int| 0 <= i < t.len() implies t[i].item != e.item by {}
    }
}

proof fn lemma_stable_sort_distinct(s: Seq<ItemEntry>, key: Map<ItemId, Utility>)
    requires
        entries_distinct(s),
    ensures
        entries_distinct(stable_sort(s, key)),
    decreases s.len(),
{
    if s.len() > 0 {
        let d = s.drop_last();
        assert(entries_distinct(d));
        lemma_stable_sort_distinct(d, key);
        let sd = stable_sort(d, key);
        assert(!has_item(sd, s.last().item)) by {
            if has_item(sd, s.last().item) {
                let i = choose|i: int| 0 <= i < sd.len() && (#[trigger] sd[i]).item == s.last().item;
                assert(sd.contains(sd[i]));
                lemma_stable_sort_contains(d, key, sd[i]);
                let q = choose|q: int| 0 <= q < d.len() && d[q] == sd[i];
                assert(s[q] == d[q]);
            }
        }
        lemma_insert_stable_distinct(sd, s.last(), key);
    }
}

/// Filtering a transaction without repeated items gives entries without repeated items.
pub proof fn law_filtered_distinct(items: Seq<ItemEntry>, m: Map<ItemId, Utility>)
    requires
        entries_distinct(items),
    ensures
        entries_distinct(stable_sort(kept_items(items, m), m)),
{
    lemma_kept_distinct(items, m);
    lemma_stable_sort_distinct(kept_items(items, m), m);
}

impl TwuFilterResult {
    /// Keeps the items of `tx` that passed, stably sorted by ascending TWU; `None` if none
    /// is left.
    pub fn apply(&self, tx: &RawTransaction) -> (r: Option<FilteredTransaction>)
        ensures
            ({
                let kept = kept_items(tx.items@, self.twu@);
                match r {
                    None => kept.len() == 0,
                    Some(ft) => {
                        &&& kept.len() > 0
                        &&& ft.tid == tx.tid
                        &&& ft.transaction_utility == tx.transaction_utility
                        &&& ft.items@ == stable_sort(kept, self.twu@)
                        &&& sorted_by_key(ft.items@, self.twu@)
                    },
                }
            }),
    {
        let ghost m = self.twu@;
        let mut kept: Vec<ItemEntry> = Vec::new();
        let mut i: usize = 0;
        proof {
            assert(tx.items@.take(0) =~= Seq::<ItemEntry>::empty());
        }
        while i < tx.items.len()
            invariant
                m == self.twu@,
                i <= tx.items@.len(),
                kept@ == kept_items(tx.items@.take(i as int), m),
                forall|k: int| 0 <= k < kept@.len() ==> m.contains_key((#[trigger] kept@[k]).item),
            decreases tx.items@.len() - i,
        {
            let e = tx.items[i];
            proof {
                assert(tx.items@.take(i + 1).drop_last() =~= tx.items@.take(i as int));
            }
            if self.passes(e.item) {
                kept.push(e);
            }
            i += 1;
        }
        proof {
            assert(tx.items@.take(tx.items@.len() as int) =~= tx.items@);
        }
        if kept.len() == 0 {
            return None;
        }
        let mut sorted: Vec<ItemEntry> = Vec::new();
        let mut k: usize = 0;
        proof {
            assert(kept@.take(0) =~= Seq::<ItemEntry>::empty());
        }
        while k < kept.len()
            invariant
                m == self.twu@,
                k <= kept@.len(),
                forall|q: int| 0 <= q < kept@.len() ==> m.contains_key((#[trigger] kept@[q]).item),
                forall|q: int| 0 <= q < sorted@.len() ==> m.contains_key((#[trigger] sorted@[q]).item),
                sorted@ == stable_sort(kept@.take(k as int), m),
                sorted_by_key(sorted@, m),
            decreases kept@.len() - k,
        {
            let e = kept[k];
            let ke = *self.twu.get(&e.item).unwrap();
            let mut p: usize = 0;
            while p < sorted.len() && *self.twu.get(&sorted[p].item).unwrap() <= ke
                invariant
                    m == self.twu@,
                    m.contains_key(e.item),
                    ke == m[e.item],
                    p <= sorted@.len(),
                    forall|q: int| 0 <= q < sorted@.len() ==> m.contains_key((#[trigger] sorted@[q]).item),
                    forall|q: int| 0 <= q < p ==> m[(#[trigger] sorted@[q]).item] <= m[e.item],
                decreases sorted@.len() - p,
            {
                p += 1;
            }
            proof {
                lemma_insert_stable(sorted@, e, m, p as int);
                assert(kept@.take(k + 1).drop_last() =~= kept@.take(k as int));
            }
            let ghost old_sorted = sorted@;
            sorted.insert(p, e);
            proof {
                assert forall|q: int| 0 <= q < sorted@.len() implies m.contains_key((#[trigger] sorted@[q]).item) by {
                    if q < p {
                        assert(sorted@[q] == old_sorted[q]);
                    } else if q > p {
                        assert(sorted@[q] == old_sorted[q - 1]);
                    }
                }
            }
            k += 1;
        }
        proof {
            assert(kept@.take(kept@.len() as int) =~= kept@);
        }
        Some(FilteredTransaction {
            tid: tx.tid,
            transaction_utility: tx.transaction_utility,
            items: sorted,
        })
    }
}

} // verus!
