//! The exact utility of candidate itemsets, and the selection of those that reach the
//! threshold: the last phase of the two-phase miners, which makes their output exact.
use vstd::prelude::*;
use crate::types::{ItemId, Utility, RawTransaction, ItemEntry};

verus! {

/// A high-utility itemset with its utility.
pub type Hui = (Vec<ItemId>, Utility);

/// Why a mining run stopped without a result.
#[derive(Debug, Clone, Copy, PartialEq, Eq, Structural)]
pub enum MiningError {
    /// A utility sum left the range of `i64`.
    UtilityOverflow,
    /// The memory guard refused an allocation the miner cannot do without.
    MemoryBudgetExceeded,
}

/// The utility of `x` in a transaction as a lookup by item sees it: that of the last
/// entry with item `x`, if any.
pub open spec fn item_utility(items: Seq<ItemEntry>, x: ItemId) -> Option<Utility>
    decreases items.len(),
{
    if items.len() == 0 {
        None
    } else if items.last().item == x {
        Some(items.last().utility)
    } else {
        item_utility(items.drop_last(), x)
    }
}

/// The utility of the itemset `c` in a transaction: the sum of its items' utilities if
/// every item occurs, else `None`.
pub open spec fn cand_tx_utility(items: Seq<ItemEntry>, c: Seq<ItemId>) -> Option<int>
    decreases c.len(),
{
    if c.len() == 0 {
        Some(0)
    } else {
        match (cand_tx_utility(items, c.drop_last()), item_utility(items, c.last())) {
            (Some(a), Some(u)) => Some(a + u),
            _ => None,
        }
    }
}

/// The utility of the itemset `c` in the database: summed over the transactions that
/// hold all of its items.
pub open spec fn db_utility(txs: Seq<RawTransaction>, c: Seq<ItemId>) -> int
    decreases txs.len(),
{
    if txs.len() == 0 {
        0
    } else {
        db_utility(txs.drop_last(), c) + match cand_tx_utility(txs.last().items@, c) {
            Some(u) => u,
            None => 0,
        }
    }
}

/// `|v|`.
pub open spec fn abs(v: int) -> int {
    if v < 0 { -v } else { v }
}

/// Summed magnitude of the utilities that `c`'s items look up in a transaction.
pub open spec fn cand_tx_weight(items: Seq<ItemEntry>, c: Seq<ItemId>) -> int
    decreases c.len(),
{
    if c.len() == 0 {
        0
    } else {
        cand_tx_weight(items, c.drop_last()) + match item_utility(items, c.last()) {
            Some(u) => abs(u as int),
            None => 0,
        }
    }
}

/// Summed magnitude of the utilities that `c`'s items look up over the database: a bound
/// on every partial sum of `c`'s utility.
pub open spec fn cand_weight(txs: Seq<RawTransaction>, c: Seq<ItemId>) -> int
    decreases txs.len(),
{
    if txs.len() == 0 { 0 } else { cand_weight(txs.drop_last(), c) + cand_tx_weight(txs.last().items@, c) }
}

/// Each reported itemset carries its exact database utility, which reaches the threshold.
pub open spec fn sound_huis(txs: Seq<RawTransaction>, min_utility: Utility, huis: Seq<Hui>) -> bool {
    forall|k: int| 0 <= k < huis.len() ==> {
        &&& (#[trigger] huis[k]).1 == db_utility(txs, huis[k].0@)
        &&& huis[k].1 >= min_utility
    }
}

proof fn lemma_cand_tx_bound(items: Seq<ItemEntry>, c: Seq<ItemId>)
    ensures
        cand_tx_weight(items, c) >= 0,
        cand_tx_utility(items, c) matches Some(u) ==> abs(u) <= cand_tx_weight(items, c),
    decreases c.len(),
{
    if c.len() > 0 {
        lemma_cand_tx_bound(items, c.drop_last());
    }
}

proof fn lemma_db_bound(txs: Seq<RawTransaction>, c: Seq<ItemId>)
    ensures
        cand_weight(txs, c) >= 0,
        abs(db_utility(txs, c)) <= cand_weight(txs, c),
    decreases txs.len(),
{
    if txs.len() > 0 {
        lemma_db_bound(txs.drop_last(), c);
        lemma_cand_tx_bound(txs.last().items@, c);
    }
}

proof fn lemma_weight_prefix(txs: Seq<RawTransaction>, c: Seq<ItemId>, n: int)
    requires
        0 <= n <= txs.len(),
    ensures
        cand_weight(txs.take(n), c) <= cand_weight(txs, c),
    decreases txs.len() - n,
{
    if n < txs.len() {
        lemma_weight_prefix(txs.drop_last(), c, n);
        assert(txs.drop_last().take(n) =~= txs.take(n));
        lemma_cand_tx_bound(txs.last().items@, c);
    } else {
        assert(txs.take(n) =~= txs);
    }
}

/// The utility of item `x` in the entries: that of the last entry with item `x`.
fn lookup_utility(items: &[ItemEntry], x: ItemId) -> (r: Option<Utility>)
    ensures
        r == item_utility(items@, x),
{
    let mut i = items.len();
    proof {
        assert(items@.take(items@.len() as int) =~= items@);
    }
    while i > 0
        invariant
            i <= items@.len(),
            item_utility(items@, x) == item_utility(items@.take(i as int), x),
        decreases i,
    {
        proof {
            assert(items@.take(i as int).drop_last() =~= items@.take(i - 1));
        }
        if items[i - 1].item == x {
            return Some(items[i - 1].utility);
        }
        i = i - 1;
    }
    None
}

/// The utility of `cand` in one transaction, `None` if an item is missing; `Err` if the
/// running sum leaves `i64` (never when the weight of `cand` fits).
fn tx_utility(items: &[ItemEntry], cand: &[ItemId]) -> (r: Result<Option<Utility>, MiningError>)
    ensures
        cand_tx_weight(items@, cand@) <= i64::MAX ==> r is Ok,
        r matches Ok(v) ==> match (v, cand_tx_utility(items@, cand@)) {
            (Some(a), Some(b)) => a == b,
            (None, None) => true,
            _ => false,
        },
{
    let mut util: Utility = 0;
    let mut k: usize = 0;
    while k < cand.len()
        invariant
            k <= cand@.len(),
            cand_tx_utility(items@, cand@.take(k as int)) == Some(util as int),
        decreases cand@.len() - k,
    {
        proof {
            assert(cand@.take(k + 1).drop_last() =~= cand@.take(k as int));
        }
        match lookup_utility(items, cand[k]) {
            Some(u) => {
                match util.checked_add(u) {
                    Some(s) => {
                        util = s;
                    },
                    None => {
                        proof {
                            lemma_cand_tx_bound(items@, cand@.take(k + 1));
                            lemma_tx_weight_prefix(items@, cand@, k + 1);
                        }
                        return Err(MiningError::UtilityOverflow);
                    },
                }
            },
            None => {
                proof {
                    lemma_tx_none_extends(items@, cand@, k + 1);
                }
                return Ok(None);
            },
        }
        k = k + 1;
    }
    proof {
        assert(cand@.take(k as int) =~= cand@);
    }
    Ok(Some(util))
}

proof fn lemma_tx_weight_prefix(items: Seq<ItemEntry>, c: Seq<ItemId>, n: int)
    requires
        0 <= n <= c.len(),
    ensures
        cand_tx_weight(items, c.take(n)) <= cand_tx_weight(items, c),
    decreases c.len() - n,
{
    if n < c.len() {
        lemma_tx_weight_prefix(items, c.drop_last(), n);
        assert(c.drop_last().take(n) =~= c.take(n));
        lemma_cand_tx_bound(items, c);
    } else {
        assert(c.take(n) =~= c);
    }
}

proof fn lemma_tx_none_extends(items: Seq<ItemEntry>, c: Seq<ItemId>, n: int)
    requires
        0 <= n <= c.len(),
        cand_tx_utility(items, c.take(n)) is None,
    ensures
        cand_tx_utility(items, c) is None,
    decreases c.len() - n,
{
    if n < c.len() {
        assert(c.take(n + 1).drop_last() =~= c.take(n));
        lemma_tx_none_extends(items, c, n + 1);
    } else {
        assert(c.take(n) =~= c);
    }
}

/// The exact database utility of every candidate, in order. `Err` if a running sum
/// leaves `i64`, which cannot happen when every candidate's weight fits.
pub fn exact_utilities(transactions: &[RawTransaction], candidates: &Vec<Vec<ItemId>>) -> (r: Result<Vec<Utility>, MiningError>)
    ensures
        (forall|i: int| 0 <= i < candidates@.len() ==> cand_weight(transactions@, (#[trigger] candidates@[i])@) <= i64::MAX)
            ==> r is Ok,
        r matches Ok(v) ==> v@.len() == candidates@.len()
            && forall|i: int| 0 <= i < v@.len() ==> #[trigger] v@[i] == db_utility(transactions@, candidates@[i]@),
{
    let mut utils: Vec<Utility> = Vec::new();
    let mut i: usize = 0;
    while i < candidates.len()
        invariant
            i <= candidates@.len(),
            utils@.len() == i,
            forall|q: int| 0 <= q < i ==> #[trigger] utils@[q] == 0,
        decreases candidates@.len() - i,
    {
        utils.push(0);
        i = i + 1;
    }
    let mut t: usize = 0;
    proof {
        assert(transactions@.take(0) =~= Seq::<RawTransaction>::empty());
    }
    while t < transactions.len()
        invariant
            t <= transactions@.len(),
            utils@.len() == candidates@.len(),
            forall|q: int| 0 <= q < utils@.len() ==> #[trigger] utils@[q] == db_utility(transactions@.take(t as int), candidates@[q]@),
        decreases transactions@.len() - t,
    {
        let items = transactions[t].items.as_slice();
        let ghost pre = transactions@.take(t as int);
        proof {
            assert(transactions@.take(t + 1).drop_last() =~= pre);
        }
        let mut c: usize = 0;
        while c < candidates.len()
            invariant
                t < transactions@.len(),
                items@ == transactions@[t as int].items@,
                pre == transactions@.take(t as int),
                transactions@.take(t + 1).drop_last() == pre,
                c <= candidates@.len(),
                utils@.len() == candidates@.len(),
                forall|q: int| 0 <= q < c ==> #[trigger] utils@[q] == db_utility(transactions@.take(t + 1), candidates@[q]@),
                forall|q: int| c <= q < utils@.len() ==> #[trigger] utils@[q] == db_utility(pre, candidates@[q]@),
            decreases candidates@.len() - c,
        {
            let ghost cq = candidates@[c as int]@;
            proof {
                assert(transactions@.take(t + 1).last() == transactions@[t as int]);
            }
            match tx_utility(items, candidates[c].as_slice()) {
                Err(e) => {
                    proof {
                        lemma_weight_prefix(transactions@, cq, t + 1);
                        assert(cand_weight(transactions@.take(t + 1), cq)
                            == cand_weight(pre, cq) + cand_tx_weight(items@, cq));
                        lemma_db_bound(pre, cq);
                    }
                    return Err(e);
                },
                Ok(None) => {},
                Ok(Some(u)) => {
                    let cur = utils[c];
                    match cur.checked_add(u) {
                        Some(s) => {
                            utils.set(c, s);
                        },
                        None => {
                            proof {
                                lemma_weight_prefix(transactions@, cq, t + 1);
                                lemma_db_bound(transactions@.take(t + 1), cq);
                            }
                            return Err(MiningError::UtilityOverflow);
                        },
                    }
                },
            }
            c = c + 1;
        }
        t = t + 1;
    }
    proof {
        assert(transactions@.take(t as int) =~= transactions@);
    }
    Ok(utils)
}

/// Some itemset of `out` holds exactly the items `s`.
pub open spec fn has_items(out: Seq<Hui>, s: Seq<ItemId>) -> bool {
    exists|k: int| 0 <= k < out.len() && (#[trigger] out[k]).0@ == s
}

/// Every candidate whose utility reaches `min_utility` is among `out`.
pub open spec fn keeps_all_reaching(cands: Seq<Vec<ItemId>>, utils: Seq<Utility>, min_utility: Utility, out: Seq<Hui>) -> bool {
    forall|i: int| 0 <= i < cands.len() && utils[i] >= min_utility ==> #[trigger] has_items(out, cands[i]@)
}

/// The candidates whose utility reaches `min_utility`, with their utilities, in order.
pub fn select_huis(candidates: Vec<Vec<ItemId>>, utilities: &Vec<Utility>, min_utility: Utility) -> (r: Vec<Hui>)
    requires
        candidates@.len() == utilities@.len(),
    ensures
        forall|k: int| 0 <= k < r@.len() ==> (#[trigger] r@[k]).1 >= min_utility
            && exists|i: int| 0 <= i < candidates@.len() && r@[k].0@ == (#[trigger] candidates@[i])@ && r@[k].1 == utilities@[i],
        keeps_all_reaching(candidates@, utilities@, min_utility, r@),
{
    let mut out: Vec<Hui> = Vec::new();
    let mut i: usize = 0;
    while i < candidates.len()
        invariant
            i <= candidates@.len(),
            candidates@.len() == utilities@.len(),
            forall|k: int| 0 <= k < out@.len() ==> (#[trigger] out@[k]).1 >= min_utility
                && exists|j: int| 0 <= j < candidates@.len() && out@[k].0@ == (#[trigger] candidates@[j])@ && out@[k].1 == utilities@[j],
            forall|j: int| 0 <= j < i && utilities@[j] >= min_utility ==> #[trigger] has_items(out@, candidates@[j]@),
        decreases candidates@.len() - i,
    {
        let u = utilities[i];
        let ghost prev = out@;
        if u >= min_utility {
            let c = candidates[i].clone();
            proof {
                assert(c@ == candidates@[i as int]@);
            }
            out.push((c, u));
        }
        proof {
            assert forall|j: int| 0 <= j < i + 1 && utilities@[j] >= min_utility
                implies #[trigger] has_items(out@, candidates@[j]@) by {
                if j < i {
                    assert(has_items(prev, candidates@[j]@));
                    let k = choose|k: int| 0 <= k < prev.len() && (#[trigger] prev[k]).0@ == candidates@[j]@;
                    assert(out@[k] == prev[k]);
                } else {
                    assert(out@[out@.len() - 1].0@ == candidates@[j]@);
                }
            }
        }
        i = i + 1;
    }
    out
}

/// The candidates whose exact utility reaches the threshold, with that utility: the
/// output of every candidate-generating miner.
pub fn verify_candidates(transactions: &[RawTransaction], candidates: Vec<Vec<ItemId>>, min_utility: Utility) -> (r: Result<Vec<Hui>, MiningError>)
    ensures
        (forall|i: int| 0 <= i < candidates@.len() ==> cand_weight(transactions@, (#[trigger] candidates@[i])@) <= i64::MAX)
            ==> r is Ok,
        r matches Ok(huis) ==> sound_huis(transactions@, min_utility, huis@),
        r matches Ok(huis) ==> forall|i: int| 0 <= i < candidates@.len()
            && db_utility(transactions@, candidates@[i]@) >= min_utility
            ==> #[trigger] has_items(huis@, candidates@[i]@),
{
    match exact_utilities(transactions, &candidates) {
        Err(e) => Err(e),
        Ok(utils) => {
            let huis = select_huis(candidates, &utils, min_utility);
            proof {
                assert forall|k: int| 0 <= k < huis@.len() implies {
                    &&& (#[trigger] huis@[k]).1 == db_utility(transactions@, huis@[k].0@)
                    &&& huis@[k].1 >= min_utility
                } by {
                    let j = choose|j: int| 0 <= j < candidates@.len() && huis@[k].0@ == (#[trigger] candidates@[j])@ && huis@[k].1 == utils@[j];
                    assert(utils@[j] == db_utility(transactions@, candidates@[j]@));
                }
                assert forall|i: int| 0 <= i < candidates@.len()
                    && db_utility(transactions@, candidates@[i]@) >= min_utility
                    implies #[trigger] has_items(huis@, candidates@[i]@) by {
                    assert(utils@[i] == db_utility(transactions@, candidates@[i]@));
                }
            }
            Ok(huis)
        },
    }
}

} // verus!
