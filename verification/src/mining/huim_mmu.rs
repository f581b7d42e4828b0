//! HUIM-MMU: stream mining over sliding windows of transactions.
use vstd::prelude::*;
use crate::types::{ItemEntry, ItemId, Utility, RawTransaction};
use crate::preprocessing::twu_filter::{abs_weight, abs_contrib};
use crate::storage::chunk_store::ChunkStore;
use super::exact_utility::{Hui, MiningError, db_utility};
use super::memory_guard::{MemoryGuard, spec_try_alloc};
use super::two_phase::{TwoPhase, db_distinct, mining_complete, owed, reported, twu_bytes};
use super::utility_bounds::db_nonneg;

verus! {

/// The transactions of the stream each window holds by the time it is mined, as
/// `(start, end)` ranges. Transactions arrive one at a time, from position `t` on, into a
/// window starting at `s`: whenever the window holds `w` transactions it is mined and its
/// oldest `w / 2` leave; once the stream ends, what the window still holds is mined.
pub open spec fn stream_windows(n: int, w: int, s: int, t: int) -> Seq<(int, int)>
    decreases n - t,
{
    if t >= n {
        if n > s { seq![(s, n)] } else { Seq::empty() }
    } else if t + 1 - s >= w {
        seq![(s, t + 1)] + stream_windows(n, w, s + w / 2, t + 1)
    } else {
        stream_windows(n, w, s, t + 1)
    }
}

/// The windows of a stream of `n` transactions, for windows of `w`.
pub open spec fn windows_of(n: int, w: int) -> Seq<(int, int)> {
    stream_windows(n, w, 0, 0)
}

/// `h` carries, within the window `win` of the transactions, its exact utility there,
/// which reaches `min_utility`.
pub open spec fn sound_in_window(txs: Seq<RawTransaction>, win: (int, int), min_utility: Utility, h: Hui) -> bool {
    &&& h.1 == db_utility(txs.subrange(win.0, win.1), h.0@)
    &&& h.1 >= min_utility
}

/// `h` is sound within one of the windows.
pub open spec fn in_some_window(txs: Seq<RawTransaction>, wins: Seq<(int, int)>, min_utility: Utility, h: Hui) -> bool {
    exists|i: int| 0 <= i < wins.len() && sound_in_window(txs, #[trigger] wins[i], min_utility, h)
}

/// Every element of `huis` is sound within one of the windows.
pub open spec fn all_in_windows(txs: Seq<RawTransaction>, wins: Seq<(int, int)>, min_utility: Utility, huis: Seq<Hui>) -> bool {
    forall|q: int| 0 <= q < huis.len() ==> in_some_window(txs, wins, min_utility, #[trigger] huis[q])
}

/// Every itemset owed within one of the windows is reported, for each window whose
/// transactions meet `mining_complete` and whose transaction utilities a guard with
/// `used` of `budget` bytes in use admits.
pub open spec fn complete_in_windows(
    txs: Seq<RawTransaction>,
    wins: Seq<(int, int)>,
    min_utility: Utility,
    used: usize,
    budget: usize,
    huis: Seq<Hui>,
) -> bool {
    forall|i: int, c: Seq<ItemId>| #![trigger owed(txs.subrange(wins[i].0, wins[i].1), min_utility, c)]
        0 <= i < wins.len()
        && mining_complete(txs.subrange(wins[i].0, wins[i].1), min_utility)
        && spec_try_alloc(used, budget, twu_bytes((wins[i].1 - wins[i].0) as nat)).1
        && owed(txs.subrange(wins[i].0, wins[i].1), min_utility, c)
        ==> reported(huis, c)
}

proof fn lemma_abs_contrib_nonneg(items: Seq<ItemEntry>, tu: Utility)
    ensures
        abs_contrib(items, tu) >= 0,
    decreases items.len(),
{
    if items.len() > 0 {
        lemma_abs_contrib_nonneg(items.drop_last(), tu);
    }
}

proof fn lemma_abs_weight_append(a: Seq<RawTransaction>, b: Seq<RawTransaction>)
    ensures
        abs_weight(a + b) == abs_weight(a) + abs_weight(b),
        abs_weight(b) >= 0,
    decreases b.len(),
{
    if b.len() == 0 {
        assert(a + b =~= a);
    } else {
        assert((a + b).drop_last() =~= a + b.drop_last());
        lemma_abs_weight_append(a, b.drop_last());
        lemma_abs_contrib_nonneg(b.last().items@, b.last().transaction_utility);
    }
}

/// A window of the transactions weighs no more than all of them.
proof fn lemma_window_weight(txs: Seq<RawTransaction>, s: int, e: int)
    requires
        0 <= s <= e <= txs.len(),
    ensures
        abs_weight(txs.subrange(s, e)) <= abs_weight(txs),
{
    let a = txs.take(s);
    let m = txs.subrange(s, e);
    let b = txs.skip(e);
    assert(txs =~= a + m + b);
    lemma_abs_weight_append(a + m, b);
    lemma_abs_weight_append(a, m);
    lemma_abs_weight_append(Seq::empty(), a);
    assert(Seq::<RawTransaction>::empty() + a =~= a);
}

/// Mines one window with Two-Phase and appends what it reports.
fn mine_window<S: ChunkStore>(
    miner: &mut TwoPhase,
    transactions: &[RawTransaction],
    s: usize,
    e: usize,
    min_utility: Utility,
    guard: &mut MemoryGuard<S>,
    out: &mut Vec<Hui>,
    Ghost(wins): Ghost<Seq<(int, int)>>,
) -> (r: Result<(), MiningError>)
    requires
        s <= e <= transactions@.len(),
        abs_weight(transactions@) <= i64::MAX,
        transactions@.len() <= u32::MAX,
        db_distinct(transactions@) ==> all_in_windows(transactions@, wins, min_utility, old(out)@),
        complete_in_windows(transactions@, wins, min_utility, old(guard).used_view(), old(guard).budget_view(), old(out)@),
    ensures
        final(guard).budget_view() == old(guard).budget_view(),
        r is Ok ==> final(guard).used_view() == old(guard).used_view(),
        db_distinct(transactions@) && db_nonneg(transactions@) ==> r is Ok,
        r is Ok ==> (db_distinct(transactions@)
            ==> all_in_windows(transactions@, wins.push((s as int, e as int)), min_utility, final(out)@)),
        r is Ok ==> complete_in_windows(
            transactions@,
            wins.push((s as int, e as int)),
            min_utility,
            old(guard).used_view(),
            old(guard).budget_view(),
            final(out)@,
        ),
{
    let win = vstd::slice::slice_subrange(transactions, s, e);
    proof {
        lemma_window_weight(transactions@, s as int, e as int);
        let txs = transactions@;
        if db_distinct(txs) && db_nonneg(txs) {
            assert forall|t: int| 0 <= t < win@.len() implies super::two_phase::distinct_items(#[trigger] win@[t].items@) by {
                assert(win@[t] == txs[s + t]);
            }
            assert(db_nonneg(win@)) by {
                assert forall|t: int| 0 <= t < win@.len() implies {
                    &&& forall|k: int| 0 <= k < (#[trigger] win@[t]).items@.len() ==> win@[t].items@[k].utility >= 0
                    &&& win@[t].transaction_utility >= super::utility_bounds::entries_total(win@[t].items@)
                } by {
                    assert(win@[t] == txs[s + t]);
                }
            }
        }
    }
    let mut found = match miner.mine(win, min_utility, guard) {
        Ok(h) => h,
        Err(err) => {
            return Err(err);
        },
    };
    let ghost before = out@;
    let ghost got = found@;
    let ghost ws = wins.push((s as int, e as int));
    out.append(&mut found);
    proof {
        let txs = transactions@;
        if db_distinct(txs) {
            assert(db_distinct(win@)) by {
                assert forall|t: int| 0 <= t < win@.len() implies super::two_phase::distinct_items(#[trigger] win@[t].items@) by {
                    assert(win@[t] == txs[s + t]);
                }
            }
            assert forall|p: int| 0 <= p < out@.len() implies in_some_window(txs, ws, min_utility, #[trigger] out@[p]) by {
                if p < before.len() {
                    assert(out@[p] == before[p]);
                    assert(in_some_window(txs, wins, min_utility, before[p]));
                    let i = choose|i: int| 0 <= i < wins.len() && sound_in_window(txs, #[trigger] wins[i], min_utility, before[p]);
                    assert(ws[i] == wins[i]);
                } else {
                    assert(out@[p] == got[p - before.len()]);
                    assert(ws[wins.len() as int] == (s as int, e as int));
                }
            }
        }
        let used = old(guard).used_view();
        let budget = old(guard).budget_view();
        assert forall|i: int, c: Seq<ItemId>|
            0 <= i < ws.len()
            && mining_complete(txs.subrange(ws[i].0, ws[i].1), min_utility)
            && spec_try_alloc(used, budget, twu_bytes((ws[i].1 - ws[i].0) as nat)).1
            && #[trigger] owed(txs.subrange(ws[i].0, ws[i].1), min_utility, c)
            implies reported(out@, c) by {
            if i < wins.len() {
                assert(ws[i] == wins[i]);
                assert(reported(before, c));
                let k = choose|k: int| 0 <= k < before.len() && (#[trigger] before[k]).0@ == c;
                assert(out@[k] == before[k]);
            } else {
                assert(ws[i] == (s as int, e as int));
                assert(win@ == txs.subrange(s as int, e as int));
                assert(reported(got, c));
                let k = choose|k: int| 0 <= k < got.len() && (#[trigger] got[k]).0@ == c;
                assert(out@[before.len() + k] == got[k]);
            }
        }
    }
    Ok(())
}

/// HUIM-MMU: mines a stream of transactions window by window, each window with
/// Two-Phase, and reports every window's itemsets in turn.
pub struct HuimMmu {
    enable_prefetch: bool,
    window_size: usize,
}

impl HuimMmu {
    /// Whether pages of the search are to be prefetched.
    pub closed spec fn prefetch(&self) -> bool {
        self.enable_prefetch
    }

    /// The number of transactions a window holds when it is mined.
    pub closed spec fn window(&self) -> usize {
        self.window_size
    }

    pub fn new(enable_prefetch: bool) -> (r: Self)
        ensures
            r.prefetch() == enable_prefetch,
            r.window() == 1000,
    {
        HuimMmu { enable_prefetch, window_size: 1000 }
    }

    /// Mines the transactions as a stream cut into the windows of `windows_of`, each with
    /// `TwoPhase::mine`, and returns what each window reports, window after window. When
    /// no transaction holds an item twice, every reported itemset carries its exact
    /// utility within one of the windows, which reaches `min_utility`; and every itemset
    /// whose utility within a window reaches `min_utility` is reported, for each window
    /// that meets `mining_complete` and whose transaction utilities the guard admits. No
    /// error comes when no transaction holds an item twice and the utilities are
    /// non-negative and covered by the transaction utilities.
    pub fn mine<S: ChunkStore>(
        &mut self,
        transactions: &[RawTransaction],
        min_utility: Utility,
        guard: &mut MemoryGuard<S>,
    ) -> (r: Result<Vec<Hui>, MiningError>)
        requires
            abs_weight(transactions@) <= i64::MAX,
            transactions@.len() <= u32::MAX,
        ensures
            final(guard).budget_view() == old(guard).budget_view(),
            r matches Ok(huis) ==> (db_distinct(transactions@) ==> all_in_windows(
                transactions@,
                windows_of(transactions@.len() as int, old(self).window() as int),
                min_utility,
                huis@,
            )),
            r is Ok ==> final(guard).used_view() == old(guard).used_view(),
            db_distinct(transactions@) && db_nonneg(transactions@) ==> r is Ok,
            r matches Ok(huis) ==> complete_in_windows(
                transactions@,
                windows_of(transactions@.len() as int, old(self).window() as int),
                min_utility,
                old(guard).used_view(),
                old(guard).budget_view(),
                huis@,
            ),
    {
        let n = transactions.len();
        let w = self.window_size;
        let h = w / 2;
        let mut miner = TwoPhase::new();
        let ghost all = windows_of(n as int, w as int);
        let ghost mut done: Seq<(int, int)> = Seq::empty();
        let mut out: Vec<Hui> = Vec::new();
        let mut s: usize = 0;
        let mut t: usize = 0;
        proof {
            assert(all == done + stream_windows(n as int, w as int, 0, 0));
        }
        while t < n
            invariant
                n == transactions@.len(),
                w == old(self).window(),
                h == w / 2,
                abs_weight(transactions@) <= i64::MAX,
                n <= u32::MAX,
                s <= t <= n,
                all == windows_of(n as int, w as int),
                all == done + stream_windows(n as int, w as int, s as int, t as int),
                guard.budget_view() == old(guard).budget_view(),
                guard.used_view() == old(guard).used_view(),
                db_distinct(transactions@) ==> all_in_windows(transactions@, done, min_utility, out@),
                complete_in_windows(transactions@, done, min_utility, old(guard).used_view(), old(guard).budget_view(), out@),
            decreases n - t,
        {
            if t + 1 - s >= w {
                match mine_window(&mut miner, transactions, s, t + 1, min_utility, guard, &mut out, Ghost(done)) {
                    Ok(()) => {},
                    Err(e) => {
                        return Err(e);
                    },
                }
                proof {
                    let rest = stream_windows(n as int, w as int, (s + h) as int, t + 1);
                    assert(stream_windows(n as int, w as int, s as int, t as int) == seq![(s as int, t + 1)] + rest);
                    assert(done + (seq![(s as int, t + 1)] + rest) =~= done.push((s as int, t + 1)) + rest);
                    done = done.push((s as int, (t + 1) as int));
                }
                s = s + h;
            }
            t += 1;
        }
        if n > s {
            match mine_window(&mut miner, transactions, s, n, min_utility, guard, &mut out, Ghost(done)) {
                Ok(()) => {},
                Err(e) => {
                    return Err(e);
                },
            }
            proof {
                assert(stream_windows(n as int, w as int, s as int, t as int) == seq![(s as int, n as int)]);
                assert(all =~= done.push((s as int, n as int)));
            }
        } else {
            proof {
                assert(all =~= done);
            }
        }
        Ok(out)
    }
}

/// Every transaction of the stream lies in some window.
pub proof fn law_windows_cover(n: int, w: int, p: int)
    requires
        0 <= p < n,
        w >= 0,
    ensures
        exists|i: int| 0 <= i < windows_of(n, w).len() && (#[trigger] windows_of(n, w)[i]).0 <= p < windows_of(n, w)[i].1,
{
    lemma_cover(n, w, 0, 0, p);
    let ws = stream_windows(n, w, 0, 0);
    let i = choose|i: int| 0 <= i < ws.len() && (#[trigger] ws[i]).0 <= p < ws[i].1;
    assert(windows_of(n, w)[i] == ws[i]);
}

proof fn lemma_cover(n: int, w: int, s: int, t: int, p: int)
    requires
        0 <= s <= p < n,
        s <= t,
        w >= 0,
    ensures
        exists|i: int| 0 <= i < stream_windows(n, w, s, t).len()
            && (#[trigger] stream_windows(n, w, s, t)[i]).0 <= p < stream_windows(n, w, s, t)[i].1,
    decreases n - t,
{
    let ws = stream_windows(n, w, s, t);
    if t >= n {
        assert(ws[0] == (s, n));
    } else if t + 1 - s >= w {
        let rest = stream_windows(n, w, s + w / 2, t + 1);
        assert(ws == seq![(s, t + 1)] + rest);
        if p <= t {
            assert(ws[0] == (s, t + 1));
        } else {
            lemma_cover(n, w, s + w / 2, t + 1, p);
            let i = choose|i: int| 0 <= i < rest.len() && (#[trigger] rest[i]).0 <= p < rest[i].1;
            assert(ws[i + 1] == rest[i]);
        }
    } else {
        lemma_cover(n, w, s, t + 1, p);
    }
}

} // verus!
