//! The estimated utility co-occurrence structure: for each pair of items, the summed
//! utility of the transactions holding both.
use vstd::prelude::*;
use std::collections::HashMap;
use crate::types::{ItemId, Utility, RawTransaction};
use crate::storage::chunk_store::ChunkStore;
use super::memory_guard::MemoryGuard;

verus! {

broadcast use vstd::std_specs::hash::group_hash_axioms;

/// Bytes accounted to the memory guard for each new pair.
pub const PAIR_ENTRY_BYTES: usize = 32;

/// The key of the pair `(a, b)`: `a` in the high half, `b` in the low half.
pub open spec fn pair_key(a: u32, b: u32) -> u64 {
    (a * 0x1_0000_0000 + b) as u64
}

/// The key of the unordered pair `{x, y}`: the smaller item first.
pub open spec fn ordered_key(x: u32, y: u32) -> u64 {
    if x < y { pair_key(x, y) } else { pair_key(y, x) }
}

/// The updates contributed by the pairs `(i, j)` with `j > i`, in order of `j`.
pub open spec fn row_events(items: Seq<u32>, i: int, tu: i64) -> Seq<(u64, i64)> {
    Seq::new((items.len() - i - 1) as nat, |d: int| (ordered_key(items[i], items[i + 1 + d]), tu))
}

/// The updates of the rows `0 .. i`, one after another.
pub open spec fn rows_upto(items: Seq<u32>, tu: i64, i: int) -> Seq<(u64, i64)>
    decreases i,
{
    if i <= 0 { Seq::empty() } else { rows_upto(items, tu, i - 1) + row_events(items, i - 1, tu) }
}

/// The updates one transaction contributes: every pair of positions `i < j`, ordered by
/// `i` and then `j`, adds `tu` to the pair's key.
pub open spec fn tx_events(items: Seq<u32>, tu: i64) -> Seq<(u64, i64)> {
    rows_upto(items, tu, items.len() as int)
}

/// The item ids of a transaction's entries.
pub open spec fn tx_items(tx: RawTransaction) -> Seq<u32> {
    tx.items@.map_values(|e: crate::types::ItemEntry| e.item)
}

/// The updates of all transactions, in order.
pub open spec fn db_events(txs: Seq<RawTransaction>) -> Seq<(u64, i64)>
    decreases txs.len(),
{
    if txs.len() == 0 {
        Seq::empty()
    } else {
        db_events(txs.drop_last()) + tx_events(tx_items(txs.last()), txs.last().transaction_utility)
    }
}

/// `m` after adding `u` to key `k` (absent keys count as zero).
pub open spec fn bump(m: Map<u64, int>, k: u64, u: i64) -> Map<u64, int> {
    m.insert(k, (if m.contains_key(k) { m[k] } else { 0 }) + u)
}

/// `m` after applying the updates in order.
pub open spec fn fold_from(m: Map<u64, int>, ev: Seq<(u64, i64)>) -> Map<u64, int>
    decreases ev.len(),
{
    if ev.len() == 0 { m } else { bump(fold_from(m, ev.drop_last()), ev.last().0, ev.last().1) }
}

/// Applying updates only adds keys.
pub proof fn lemma_fold_dom(m: Map<u64, int>, ev: Seq<(u64, i64)>)
    ensures
        m.dom().subset_of(fold_from(m, ev).dom()),
    decreases ev.len(),
{
    if ev.len() > 0 {
        lemma_fold_dom(m, ev.drop_last());
    }
}

/// The summed magnitude of the updates.
pub open spec fn abs_sum(ev: Seq<(u64, i64)>) -> int
    decreases ev.len(),
{
    if ev.len() == 0 {
        0
    } else {
        abs_sum(ev.drop_last()) + (if ev.last().1 < 0 { -ev.last().1 } else { ev.last().1 as int })
    }
}

/// The machine map holds exactly the model map.
pub open spec fn same_map(a: Map<u64, i64>, b: Map<u64, int>) -> bool {
    &&& a.dom() == b.dom()
    &&& forall|k: u64| #[trigger] a.contains_key(k) ==> a[k] == b[k]
}

/// Every value of `m` is within `bound` of zero.
pub open spec fn values_within(m: Map<u64, int>, bound: int) -> bool {
    forall|k: u64| #[trigger] m.contains_key(k) ==> -bound <= m[k] <= bound
}


proof fn lemma_fold_append(m: Map<u64, int>, a: Seq<(u64, i64)>, b: Seq<(u64, i64)>)
    ensures
        fold_from(m, a + b) == fold_from(fold_from(m, a), b),
    decreases b.len(),
{
    if b.len() == 0 {
        assert(a + b =~= a);
    } else {
        assert((a + b).drop_last() =~= a + b.drop_last());
        lemma_fold_append(m, a, b.drop_last());
    }
}

pub(crate) proof fn lemma_abs_sum_append(a: Seq<(u64, i64)>, b: Seq<(u64, i64)>)
    ensures
        abs_sum(a + b) == abs_sum(a) + abs_sum(b),
        abs_sum(b) >= 0,
    decreases b.len(),
{
    if b.len() == 0 {
        assert(a + b =~= a);
    } else {
        assert((a + b).drop_last() =~= a + b.drop_last());
        lemma_abs_sum_append(a, b.drop_last());
    }
}

proof fn lemma_fold_bound(m: Map<u64, int>, ev: Seq<(u64, i64)>, bound: int)
    requires
        values_within(m, bound),
        m.dom().finite(),
        bound >= 0,
    ensures
        values_within(fold_from(m, ev), bound + abs_sum(ev)),
        fold_from(m, ev).dom().finite(),
        abs_sum(ev) >= 0,
    decreases ev.len(),
{
    if ev.len() > 0 {
        let prev = fold_from(m, ev.drop_last());
        lemma_fold_bound(m, ev.drop_last(), bound);
        let (k, u) = ev.last();
        let cur = fold_from(m, ev);
        assert(cur == bump(prev, k, u));
        assert(cur.dom() =~= prev.dom().insert(k));
        assert forall|x: u64| #[trigger] cur.contains_key(x)
            implies -(bound + abs_sum(ev)) <= cur[x] <= bound + abs_sum(ev) by {
            if x != k {
                assert(prev.contains_key(x));
            }
        }
    }
}

/// Every value met while the updates are applied to `m` in turn fits in an `i64`.
pub open spec fn folds_fit(m: Map<u64, int>, ev: Seq<(u64, i64)>) -> bool {
    forall|n: int, k: u64| 0 <= n <= ev.len() && #[trigger] fold_from(m, ev.take(n)).contains_key(k)
        ==> i64::MIN <= fold_from(m, ev.take(n))[k] <= i64::MAX
}

/// Values within `i64::MAX` less the updates' total weight stay within `i64` while the
/// updates are applied.
pub proof fn lemma_within_folds_fit(m: Map<u64, int>, ev: Seq<(u64, i64)>)
    requires
        values_within(m, i64::MAX - abs_sum(ev)),
        abs_sum(ev) <= i64::MAX,
        m.dom().finite(),
    ensures
        folds_fit(m, ev),
{
    assert forall|n: int, k: u64| 0 <= n <= ev.len() && #[trigger] fold_from(m, ev.take(n)).contains_key(k)
        implies i64::MIN <= fold_from(m, ev.take(n))[k] <= i64::MAX by {
        lemma_fold_bound(m, ev.take(n), i64::MAX - abs_sum(ev));
        if n < ev.len() {
            lemma_split_abs(ev, n);
            lemma_abs_take_le(ev, n);
        } else {
            assert(ev.take(n) =~= ev);
        }
    }
}

/// A prefix of the updates weighs no more than all of them.
proof fn lemma_abs_take_le(ev: Seq<(u64, i64)>, n: int)
    requires
        0 <= n < ev.len(),
    ensures
        abs_sum(ev.take(n)) <= abs_sum(ev),
{
    lemma_split_abs(ev, n);
    assert(abs_sum(ev.take(n + 1)) >= abs_sum(ev.take(n)));
}

proof fn lemma_split_abs(ev: Seq<(u64, i64)>, k: int)
    requires
        0 <= k < ev.len(),
    ensures
        abs_sum(ev.take(k + 1)) == abs_sum(ev.take(k)) + (if ev[k].1 < 0 { -ev[k].1 } else { ev[k].1 as int }),
        abs_sum(ev.take(k + 1)) <= abs_sum(ev),
{
    assert(ev.take(k + 1).drop_last() =~= ev.take(k));
    lemma_abs_sum_append(ev.take(k + 1), ev.skip(k + 1));
    assert(ev =~= ev.take(k + 1) + ev.skip(k + 1));
}

proof fn lemma_rows_prefix(items: Seq<u32>, tu: i64, i: int, m: int)
    requires
        0 <= i <= m,
    ensures
        rows_upto(items, tu, m).len() >= rows_upto(items, tu, i).len(),
        rows_upto(items, tu, m).take(rows_upto(items, tu, i).len() as int) == rows_upto(items, tu, i),
    decreases m - i,
{
    if m > i {
        lemma_rows_prefix(items, tu, i, m - 1);
        let a = rows_upto(items, tu, m - 1);
        let r = row_events(items, m - 1, tu);
        let p = rows_upto(items, tu, i);
        assert((a + r).take(p.len() as int) =~= a.take(p.len() as int));
    }
}

pub struct Eucs {
    inner: HashMap<u64, Utility>,
    /// Whether every pair met so far was recorded (no reservation was refused).
    complete: bool,
}

impl View for Eucs {
    type V = Map<u64, Utility>;

    /// Summed transaction utility by pair key.
    closed spec fn view(&self) -> Map<u64, Utility> {
        self.inner@
    }
}

fn ordered_pair_key(x: ItemId, y: ItemId) -> (k: u64)
    ensures
        k == ordered_key(x, y),
{
    let (a, b) = if x < y { (x, y) } else { (y, x) };
    (a as u64) * 0x1_0000_0000u64 + (b as u64)
}

impl Eucs {
    /// Whether every pair met so far was recorded: no reservation was refused.
    pub closed spec fn complete(&self) -> bool {
        self.complete
    }

    /// No pair recorded.
    pub fn new() -> (r: Self)
        ensures
            r@ == Map::<u64, Utility>::empty(),
            r.complete(),
    {
        Eucs { inner: HashMap::new(), complete: true }
    }

    /// Adds `tu` to every pair of positions of `items`, in order, reserving
    /// `PAIR_ENTRY_BYTES` from `guard` for each pair seen for the first time. Stops at the
    /// first pair whose reservation is refused and returns `false`; `true` if every pair
    /// was recorded.
    pub fn add_transaction<S: ChunkStore>(&mut self, items: &[ItemId], tu: Utility, guard: &mut MemoryGuard<S>) -> (r: bool)
        requires
            folds_fit(old(self)@.map_values(|v: i64| v as int), tx_events(items@, tu)),
        ensures
            final(guard).budget_view() == old(guard).budget_view(),
            final(self).complete() == (old(self).complete() && r),
            ({
                let ev = tx_events(items@, tu);
                let m0 = old(self)@.map_values(|v: i64| v as int);
                exists|n: int| {
                    &&& 0 <= n <= ev.len()
                    &&& same_map(final(self)@, #[trigger] fold_from(m0, ev.take(n)))
                    &&& r <==> n == ev.len()
                    &&& final(guard).used_view() == old(guard).used_view()
                        + PAIR_ENTRY_BYTES * (final(self)@.dom().len() - old(self)@.dom().len())
                    &&& n < ev.len() ==> !fold_from(m0, ev.take(n)).contains_key(ev[n].0)
                        && final(guard).used_view() + PAIR_ENTRY_BYTES > final(guard).budget_view()
                }
            }),
    {
        let ghost ev = tx_events(items@, tu);
        let ghost m0 = self@.map_values(|v: i64| v as int);
        let ghost used0 = guard.used_view();
        let ghost len0 = self@.dom().len();
        proof {
            assert(ev.take(0) =~= Seq::<(u64, i64)>::empty());
            assert(self@.dom() =~= m0.dom());
            assert(same_map(self@, fold_from(m0, ev.take(0))));
            assert(rows_upto(items@, tu, 0) =~= Seq::<(u64, i64)>::empty());
            assert(self@.dom().finite());
        }
        let n = items.len();
        let mut i: usize = 0;
        while i < n
            invariant
                n == items@.len(),
                ev == tx_events(items@, tu),
                m0 == old(self)@.map_values(|v: i64| v as int),
                folds_fit(m0, ev),
                m0.dom().finite(),
                i <= n,
                same_map(self@, fold_from(m0, rows_upto(items@, tu, i as int))),
                guard.budget_view() == old(guard).budget_view(),
                used0 == old(guard).used_view(),
                len0 == old(self)@.dom().len(),
                guard.used_view() == used0 + PAIR_ENTRY_BYTES * (self@.dom().len() - len0),
                self@.dom().finite(),
                self@.dom().len() >= len0,
                self.complete == old(self).complete,
            decreases n - i,
        {
            let ghost row_start = rows_upto(items@, tu, i as int);
            let mut j: usize = i + 1;
            while j < n
                invariant
                    n == items@.len(),
                    ev == tx_events(items@, tu),
                    m0 == old(self)@.map_values(|v: i64| v as int),
                    folds_fit(m0, ev),
                    m0.dom().finite(),
                    i < n,
                    i + 1 <= j <= n,
                    row_start == rows_upto(items@, tu, i as int),
                    same_map(self@, fold_from(m0, row_start + row_events(items@, i as int, tu).take(j - i - 1))),
                    guard.budget_view() == old(guard).budget_view(),
                    used0 == old(guard).used_view(),
                    len0 == old(self)@.dom().len(),
                    guard.used_view() == used0 + PAIR_ENTRY_BYTES * (self@.dom().len() - len0),
                    self@.dom().finite(),
                    self@.dom().len() >= len0,
                    self.complete == old(self).complete,
                decreases n - j,
            {
                let key = ordered_pair_key(items[i], items[j]);
                let ghost row = row_events(items@, i as int, tu);
                let ghost done = row_start + row.take(j - i - 1);
                let ghost cur = fold_from(m0, done);
                proof {
                    lemma_rows_prefix(items@, tu, i + 1, n as int);
                    assert(rows_upto(items@, tu, i + 1) == row_start + row);
                    assert(done.len() < ev.len());
                    let full = rows_upto(items@, tu, i + 1);
                    assert(ev.take(full.len() as int) == full);
                    assert(full.take(done.len() as int) =~= done);
                    assert(ev.take(done.len() as int) =~= done);
                    assert(ev[done.len() as int] == full[done.len() as int]);
                    assert(full[done.len() as int] == row[j - i - 1]);
                }
                let present = self.inner.contains_key(&key);
                if !present {
                    if !guard.try_alloc(PAIR_ENTRY_BYTES) {
                        proof {
                            assert(ev.take(done.len() as int) =~= done);
                        }
                        self.complete = false;
                        return false;
                    }
                }
                let old_v: Utility = match self.inner.get(&key) {
                    Some(v) => *v,
                    None => 0,
                };
                proof {
                    let e = row[j - i - 1];
                    assert(e == (key, tu));
                    let nd = ev.take(done.len() as int + 1);
                    assert(nd.drop_last() =~= done);
                    assert(nd.last() == e);
                    assert(fold_from(m0, nd).contains_key(key));
                    if present {
                        assert(cur.contains_key(key));
                        assert(old_v == cur[key]);
                    }
                }
                self.inner.insert(key, old_v + tu);
                proof {
                    let e = row[j - i - 1];
                    let nd = row_start + row.take(j - i);
                    assert(nd.drop_last() =~= done);
                    assert(nd.last() == e);
                    assert(same_map(self@, fold_from(m0, nd)));
                    if !present {
                        assert(!cur.contains_key(key));
                    }
                }
                j += 1;
            }
            proof {
                let row = row_events(items@, i as int, tu);
                assert(row.take(j - i - 1) =~= row);
            }
            i += 1;
        }
        proof {
            assert(ev.take(ev.len() as int) =~= ev);
        }
        true
    }

    /// The structure over the transactions in order, adding each one's pairs as
    /// `add_transaction` does; building stops at the first refused reservation, leaving
    /// the structure partial and marked incomplete, so that it prunes less: nothing is
    /// then pruned.
    pub fn build<S: ChunkStore>(transactions: &[RawTransaction], guard: &mut MemoryGuard<S>) -> (r: Self)
        requires
            abs_sum(db_events(transactions@)) <= i64::MAX,
        ensures
            final(guard).budget_view() == old(guard).budget_view(),
            ({
                let ev = db_events(transactions@);
                exists|n: int| {
                    &&& 0 <= n <= ev.len()
                    &&& same_map(r@, #[trigger] fold_from(Map::empty(), ev.take(n)))
                    &&& final(guard).used_view() == old(guard).used_view() + PAIR_ENTRY_BYTES * r@.dom().len()
                    &&& n < ev.len() ==> !fold_from(Map::empty(), ev.take(n)).contains_key(ev[n].0)
                        && final(guard).used_view() + PAIR_ENTRY_BYTES > final(guard).budget_view()
                    &&& r.complete() <==> n == ev.len()
                }
            }),
    {
        let mut eucs = Eucs::new();
        let ghost all = db_events(transactions@);
        let ghost e0 = Map::<u64, int>::empty();
        let mut t: usize = 0;
        proof {
            assert(db_events(transactions@.take(0)) =~= Seq::<(u64, i64)>::empty()) by {
                assert(transactions@.take(0) =~= Seq::<RawTransaction>::empty());
            }
            assert(same_map(eucs@, fold_from(e0, Seq::<(u64, i64)>::empty())));
        }
        while t < transactions.len()
            invariant
                t <= transactions@.len(),
                all == db_events(transactions@),
                abs_sum(all) <= i64::MAX,
                same_map(eucs@, fold_from(e0, db_events(transactions@.take(t as int)))),
                guard.budget_view() == old(guard).budget_view(),
                guard.used_view() == old(guard).used_view() + PAIR_ENTRY_BYTES * eucs@.dom().len(),
                eucs@.dom().finite(),
                e0 == Map::<u64, int>::empty(),
                eucs.complete(),
            decreases transactions@.len() - t,
        {
            let tx = &transactions[t];
            let mut items: Vec<ItemId> = Vec::new();
            let mut q: usize = 0;
            while q < tx.items.len()
                invariant
                    q <= tx.items@.len(),
                    items@ == tx_items(*tx).take(q as int),
                decreases tx.items@.len() - q,
            {
                items.push(tx.items[q].item);
                q += 1;
                proof {
                    assert(items@ =~= tx_items(*tx).take(q as int));
                }
            }
            let ghost done = db_events(transactions@.take(t as int));
            let ghost tev = tx_events(items@, tx.transaction_utility);
            proof {
                assert(items@ =~= tx_items(*tx));
                assert(transactions@.take(t + 1).drop_last() =~= transactions@.take(t as int));
                assert(db_events(transactions@.take(t + 1)) == done + tev);
                lemma_db_events_prefix(transactions@, t + 1, transactions@.len() as int);
                assert(transactions@.take(transactions@.len() as int) =~= transactions@);
                let p = (done + tev).len() as int;
                assert(all.take(p) == done + tev);
                lemma_abs_sum_append(done + tev, all.skip(p));
                assert(all =~= all.take(p) + all.skip(p));
                lemma_abs_sum_append(done, tev);
                lemma_fold_bound(e0, done, 0);
                assert forall|k: u64| #[trigger] eucs@.contains_key(k)
                    implies -(i64::MAX - abs_sum(tev)) <= eucs@[k] <= i64::MAX - abs_sum(tev) by {
                    assert(fold_from(e0, done).contains_key(k));
                }
            }
            let ghost before = eucs@;
            proof {
                assert(eucs@.map_values(|v: i64| v as int).dom() =~= eucs@.dom());
                lemma_within_folds_fit(eucs@.map_values(|v: i64| v as int), tx_events(items@, tx.transaction_utility));
            }
            let ok = eucs.add_transaction(items.as_slice(), tx.transaction_utility, guard);
            proof {
                let m0 = before.map_values(|v: i64| v as int);
                let fd = fold_from(e0, done);
                assert(m0 =~= fd);
                let n = choose|n: int| {
                    &&& 0 <= n <= tev.len()
                    &&& same_map(eucs@, #[trigger] fold_from(m0, tev.take(n)))
                    &&& ok <==> n == tev.len()
                    &&& guard.used_view() == old(guard).used_view() + PAIR_ENTRY_BYTES * before.dom().len()
                        + PAIR_ENTRY_BYTES * (eucs@.dom().len() - before.dom().len())
                    &&& n < tev.len() ==> !fold_from(m0, tev.take(n)).contains_key(tev[n].0)
                        && guard.used_view() + PAIR_ENTRY_BYTES > guard.budget_view()
                };
                lemma_fold_append(e0, done, tev.take(n));
                assert(all.take(done.len() + n) =~= done + tev.take(n));
                lemma_fold_bound(e0, done + tev.take(n), 0);
                if !ok {
                    assert(all[done.len() + n] == tev[n]);
                    assert(fold_from(e0, all.take(done.len() + n)) == fold_from(e0, done + tev.take(n)));
                }
            }
            if !ok {
                return eucs;
            }
            proof {
                assert(tev.take(tev.len() as int) =~= tev);
            }
            t += 1;
        }
        proof {
            assert(transactions@.take(t as int) =~= transactions@);
            assert(all.take(all.len() as int) =~= all);
        }
        eucs
    }

    /// Whether joining a prefix ending in `x` with `y` can be skipped: the structure is
    /// complete and the pair's recorded utility (zero if never recorded) is below
    /// `min_utility`. Once a reservation was refused, the recorded sums may miss
    /// transactions, so nothing is pruned.
    pub fn can_prune(&self, x: ItemId, y: ItemId, min_utility: Utility) -> (r: bool)
        ensures
            r == (self.complete() && (if self@.contains_key(ordered_key(x, y)) {
                self@[ordered_key(x, y)] < min_utility
            } else {
                0 < min_utility
            })),
    {
        if !self.complete {
            return false;
        }
        let key = ordered_pair_key(x, y);
        match self.inner.get(&key) {
            Some(v) => *v < min_utility,
            None => 0 < min_utility,
        }
    }

    /// The number of recorded pairs.
    pub fn pair_count(&self) -> (r: usize)
        ensures
            r == self@.len(),
    {
        self.inner.len()
    }
}

/// The order of the two items does not matter: `can_prune(x, y, ..)` and
/// `can_prune(y, x, ..)` look up the same pair.
pub proof fn law_pair_order_irrelevant(x: u32, y: u32)
    ensures
        ordered_key(x, y) == ordered_key(y, x),
{
}

/// Distinct pairs never share a key, so no pair's utility is mixed with another's.
pub proof fn law_pair_keys_distinct(a: u32, b: u32, c: u32, d: u32)
    requires
        pair_key(a, b) == pair_key(c, d),
    ensures
        a == c && b == d,
{
    assert(a * 0x1_0000_0000 + b <= u64::MAX);
    assert(c * 0x1_0000_0000 + d <= u64::MAX);
    if a < c {
        assert(a * 0x1_0000_0000 + 0x1_0000_0000 <= c * 0x1_0000_0000);
    } else if c < a {
        assert(c * 0x1_0000_0000 + 0x1_0000_0000 <= a * 0x1_0000_0000);
    }
}

/// Every value of the machine map is within `b` of zero.
pub open spec fn eucs_within(m: Map<u64, i64>, b: int) -> bool {
    &&& m.dom().finite()
    &&& forall|k: u64| #[trigger] m.contains_key(k) ==> -b <= m[k] <= b
}

/// Twice the number of updates of the rows `0 .. i`: each row `r` holds `n - r - 1`.
proof fn lemma_rows_len(items: Seq<u32>, tu: i64, i: int)
    requires
        0 <= i <= items.len(),
    ensures
        2 * rows_upto(items, tu, i).len() == i * (2 * items.len() - i - 1),
    decreases i,
{
    if i > 0 {
        lemma_rows_len(items, tu, i - 1);
        let n = items.len() as int;
        let a = rows_upto(items, tu, i - 1).len() as int;
        let b = rows_upto(items, tu, i).len() as int;
        assert(b == a + (n - i));
        assert(2 * a == (i - 1) * (2 * n - (i - 1) - 1));
        assert(2 * b == i * (2 * n - i - 1)) by (nonlinear_arith)
            requires
                b == a + (n - i),
                2 * a == (i - 1) * (2 * n - (i - 1) - 1),
        ;
    } else {
        let n = items.len() as int;
        assert(i * (2 * n - i - 1) == 0) by (nonlinear_arith)
            requires i == 0;
    }
}

/// A transaction with no more entries contributes updates of no greater magnitude.
pub proof fn lemma_events_mono(a: Seq<u32>, b: Seq<u32>, tu: i64)
    requires
        a.len() <= b.len(),
    ensures
        abs_sum(tx_events(a, tu)) <= abs_sum(tx_events(b, tu)),
{
    lemma_rows_len(a, tu, a.len() as int);
    lemma_rows_len(b, tu, b.len() as int);
    lemma_rows_uniform(a, tu, a.len() as int);
    lemma_rows_uniform(b, tu, b.len() as int);
    lemma_abs_sum_uniform(tx_events(a, tu), tu);
    lemma_abs_sum_uniform(tx_events(b, tu), tu);
    let na = a.len() as int;
    let nb = b.len() as int;
    let la = tx_events(a, tu).len() as int;
    let lb = tx_events(b, tu).len() as int;
    let m: int = if tu < 0 { -tu } else { tu as int };
    assert(na * (na - 1) <= nb * (nb - 1)) by (nonlinear_arith)
        requires 0 <= na <= nb;
    assert(la <= lb);
    assert(la * m <= lb * m) by (nonlinear_arith)
        requires la <= lb, m >= 0;
}

/// The updates of the first `t + 1` transactions weigh those of the first `t` plus
/// those of transaction `t`.
pub proof fn lemma_db_events_step(txs: Seq<RawTransaction>, t: int)
    requires
        0 <= t < txs.len(),
    ensures
        abs_sum(db_events(txs.take(t + 1))) == abs_sum(db_events(txs.take(t)))
            + abs_sum(tx_events(tx_items(txs[t]), txs[t].transaction_utility)),
        abs_sum(tx_events(tx_items(txs[t]), txs[t].transaction_utility)) >= 0,
{
    assert(txs.take(t + 1).drop_last() =~= txs.take(t));
    assert(txs.take(t + 1).last() == txs[t]);
    lemma_abs_sum_append(db_events(txs.take(t)), tx_events(tx_items(txs[t]), txs[t].transaction_utility));
}

/// The updates of the first `t` transactions weigh no more than all of them.
pub proof fn lemma_db_weight_prefix(txs: Seq<RawTransaction>, t: int)
    requires
        0 <= t <= txs.len(),
    ensures
        abs_sum(db_events(txs.take(t))) <= abs_sum(db_events(txs)),
    decreases txs.len() - t,
{
    if t == txs.len() {
        assert(txs.take(t) =~= txs);
    } else {
        lemma_db_events_step(txs, t);
        lemma_db_weight_prefix(txs, t + 1);
    }
}

/// Every update of a transaction adds its transaction utility.
proof fn lemma_rows_uniform(items: Seq<u32>, tu: i64, i: int)
    ensures
        forall|k: int| 0 <= k < rows_upto(items, tu, i).len() ==> (#[trigger] rows_upto(items, tu, i)[k]).1 == tu,
    decreases i,
{
    if i > 0 {
        lemma_rows_uniform(items, tu, i - 1);
        let a = rows_upto(items, tu, i - 1);
        let r = row_events(items, i - 1, tu);
        assert(rows_upto(items, tu, i) == a + r);
        assert forall|k: int| 0 <= k < (a + r).len() implies (#[trigger] (a + r)[k]).1 == tu by {
            if k < a.len() {
                assert((a + r)[k] == a[k]);
            } else {
                assert((a + r)[k] == r[k - a.len()]);
            }
        }
    }
}

/// Updates that all add `tu` have a summed magnitude of `|tu|` per update.
proof fn lemma_abs_sum_uniform(ev: Seq<(u64, i64)>, tu: i64)
    requires
        forall|k: int| 0 <= k < ev.len() ==> (#[trigger] ev[k]).1 == tu,
    ensures
        abs_sum(ev) == ev.len() * (if tu < 0 { -tu } else { tu as int }),
    decreases ev.len(),
{
    if ev.len() > 0 {
        let d = ev.drop_last();
        assert forall|k: int| 0 <= k < d.len() implies (#[trigger] d[k]).1 == tu by {
            assert(d[k] == ev[k]);
        }
        lemma_abs_sum_uniform(d, tu);
        let a: int = if tu < 0 { -tu } else { tu as int };
        let n: int = ev.len() as int;
        assert(n * a == (n - 1) * a + a) by (nonlinear_arith);
        assert(ev[n - 1].1 == tu);
    }
}

/// The summed magnitude of the updates a transaction contributes to the structure:
/// `|tu|` for each pair of its positions; `None` when that exceeds `u128`.
pub fn tx_weight(items: &[ItemId], tu: Utility) -> (r: Option<u128>)
    ensures
        r matches Some(w) ==> w == abs_sum(tx_events(items@, tu)),
        abs_sum(tx_events(items@, tu)) <= u128::MAX ==> r is Some,
{
    let n = items.len();
    let mut cnt: u128 = 0;
    let mut i: usize = 0;
    while i < n
        invariant
            n == items@.len(),
            i <= n,
            cnt == rows_upto(items@, tu, i as int).len(),
            cnt <= i * n,
        decreases n - i,
    {
        proof {
            assert((i + 1) * n <= n * n) by (nonlinear_arith)
                requires i < n;
            assert(n <= 0xffff_ffff_ffff_ffffu64);
            assert(n * n <= 0xffff_ffff_ffff_ffff_ffff_ffff_ffff_ffffu128) by (nonlinear_arith)
                requires 0 <= n <= 0xffff_ffff_ffff_ffffu64;
            assert(i * n + n == (i + 1) * n) by (nonlinear_arith);
        }
        let more = (n - i - 1) as u128;
        cnt = match cnt.checked_add(more) {
            Some(c) => c,
            None => {
                return None;
            },
        };
        i += 1;
    }
    let a: u128 = if tu < 0 { (0i128 - (tu as i128)) as u128 } else { tu as u128 };
    proof {
        lemma_rows_uniform(items@, tu, n as int);
        lemma_abs_sum_uniform(tx_events(items@, tu), tu);
    }
    cnt.checked_mul(a)
}

/// Recording a prefix of a transaction's updates over a map within `b` of zero leaves
/// every value within `b` plus the transaction's summed magnitude.
pub proof fn lemma_record_within(
    before: Map<u64, i64>,
    m0: Map<u64, int>,
    after: Map<u64, i64>,
    items: Seq<u32>,
    tu: i64,
    b: int,
)
    requires
        b >= 0,
        eucs_within(before, b),
        m0 == before.map_values(|v: i64| v as int),
        exists|n: int| 0 <= n <= tx_events(items, tu).len()
            && same_map(after, #[trigger] fold_from(m0, tx_events(items, tu).take(n))),
    ensures
        eucs_within(after, b + abs_sum(tx_events(items, tu))),
{
    let ev = tx_events(items, tu);
    let n = choose|n: int| 0 <= n <= ev.len() && same_map(after, #[trigger] fold_from(m0, ev.take(n)));
    assert(m0.dom() =~= before.dom());
    assert forall|k: u64| #[trigger] m0.contains_key(k) implies -b <= m0[k] <= b by {
        assert(before.contains_key(k));
    }
    lemma_fold_bound(m0, ev.take(n), b);
    lemma_abs_sum_append(ev.take(n), ev.skip(n));
    assert(ev =~= ev.take(n) + ev.skip(n));
    let f = fold_from(m0, ev.take(n));
    assert(after.dom() == f.dom());
    assert forall|k: u64| #[trigger] after.contains_key(k)
        implies -(b + abs_sum(ev)) <= after[k] <= b + abs_sum(ev) by {
        assert(f.contains_key(k));
    }
}

proof fn lemma_db_events_prefix(txs: Seq<RawTransaction>, i: int, m: int)
    requires
        0 <= i <= m <= txs.len(),
    ensures
        db_events(txs.take(m)).len() >= db_events(txs.take(i)).len(),
        db_events(txs.take(m)).take(db_events(txs.take(i)).len() as int) == db_events(txs.take(i)),
    decreases m - i,
{
    if m > i {
        lemma_db_events_prefix(txs, i, m - 1);
        assert(txs.take(m).drop_last() =~= txs.take(m - 1));
        let a = db_events(txs.take(m - 1));
        let p = db_events(txs.take(i));
        let b = tx_events(tx_items(txs.take(m).last()), txs.take(m).last().transaction_utility);
        assert((a + b).take(p.len() as int) =~= a.take(p.len() as int));
    }
}

} // verus!
