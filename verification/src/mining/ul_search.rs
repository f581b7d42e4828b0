//! Depth-first search over utility lists (HUP-Miner, TKU): each itemset carries the
//! list of transactions holding it, with its utility and remaining utility there;
//! extensions are built by joining lists.
use vstd::prelude::*;
use crate::preprocessing::twu_filter::lemma_weight_twu_fits;
use crate::types::{ItemId, Utility, RawTransaction, ItemEntry, ULEntry, UtilityList, RecomputeFlag};
use crate::types::itemset::{Itemset, itemset_items};
use crate::preprocessing::twu_filter::{
    TwuFilter, TwuFilterResult, FilteredTransaction, abs_weight, kept_items, stable_sort, entries_distinct,
    law_filtered_entries, law_filtered_distinct, abs_contrib, lemma_twu_bound, lemma_abs_weight_take,
};
use super::exact_utility::{Hui, MiningError, cand_tx_utility, db_utility, sound_huis};
use super::ul_join::{sum_iutils, sum_rutils, find_tid, tid_sorted, lemma_find_sorted};
use super::two_phase::{
    tid_list, list_sum, db_distinct, distinct_items, lemma_tid_list_shape, lemma_tid_list_at, lemma_skip_empty,
    lemma_list_sum_is_utility, lemma_single_lookup, lemma_absent_lookup,
    lemma_single_cand, reported, mining_complete,
};
use super::utility_bounds::{
    db_nonneg, entries_total, lemma_filtered_total, lemma_entries_take, lemma_tx_bound, lemma_tid_list_nonneg,
    lemma_cand_some, lemma_sums_fit, lemma_cand_nonneg, lemma_owed_item_passes,
};
use crate::preprocessing::twu_filter::passing;
use super::rank_order::lemma_lookup_some;
use super::exact_utility::item_utility;
use super::up_tree::sort_pairs;

verus! {

/// The entries hold the list: same transactions, same utilities, in order.
pub open spec fn ul_matches(v: Seq<ULEntry>, l: Seq<(u32, int)>) -> bool {
    &&& v.len() == l.len()
    &&& forall|k: int| 0 <= k < v.len() ==> (#[trigger] v[k]).tid == l[k].0 && v[k].iutils == l[k].1
}

/// Every entry names one of the first `n` transactions.
pub open spec fn tids_below(v: Seq<ULEntry>, n: int) -> bool {
    forall|k: int| 0 <= k < v.len() ==> ((#[trigger] v[k]).tid as int) < n
}

proof fn lemma_join_cand(items: Seq<ItemEntry>, pre: Seq<ItemId>, x: ItemId, y: ItemId, up: int, ux: int, uy: int)
    requires
        cand_tx_utility(items, pre) == Some(up),
        cand_tx_utility(items, pre.push(x)) == Some(ux),
        cand_tx_utility(items, pre.push(y)) == Some(uy),
    ensures
        cand_tx_utility(items, pre.push(x).push(y)) == Some(ux + uy - up),
{
    assert(pre.push(x).push(y).drop_last() =~= pre.push(x));
    assert(pre.push(y).drop_last() =~= pre);
}

proof fn lemma_join_none(items: Seq<ItemEntry>, pre: Seq<ItemId>, x: ItemId, y: ItemId)
    requires
        cand_tx_utility(items, pre.push(x)) is None || cand_tx_utility(items, pre.push(y)) is None,
    ensures
        cand_tx_utility(items, pre.push(x).push(y)) is None,
{
    assert(pre.push(x).push(y).drop_last() =~= pre.push(x));
    assert(pre.push(y).drop_last() =~= pre);
    assert(pre.push(x).drop_last() =~= pre);
}

proof fn lemma_prefix_some(items: Seq<ItemEntry>, pre: Seq<ItemId>, x: ItemId)
    requires
        cand_tx_utility(items, pre.push(x)) is Some,
    ensures
        cand_tx_utility(items, pre) is Some,
{
    assert(pre.push(x).drop_last() =~= pre);
}

/// Joins the lists of `P + x` and `P + y` over the list of `P` (empty for one-item
/// prefixes): for each transaction in both, the utility of `x` plus that of `y` minus
/// that of the prefix, and the remaining utility of `y`. Returns the entries and their
/// summed utilities and remaining utilities. When the inputs are the lists of the
/// itemsets, so is the result: the list of `P + x + y`.
#[verifier::rlimit(60)]
/// The remaining utilities that the list `ys` records in the transactions of `b`, one
/// per entry of `b`: what a join with `ys` as its second list sums as remaining utility.
pub open spec fn rut_of(ys: Seq<ULEntry>, b: Seq<ULEntry>) -> int
    decreases b.len(),
{
    if b.len() == 0 {
        0
    } else {
        rut_of(ys, b.drop_last()) + match find_tid(ys, b.last().tid) {
            Some(e) => e.rutils as int,
            None => 0,
        }
    }
}

/// The remaining utilities that `ys` records in the transactions of the list `l`.
pub open spec fn rut_over(ys: Seq<ULEntry>, l: Seq<(u32, int)>) -> int
    decreases l.len(),
{
    if l.len() == 0 {
        0
    } else {
        rut_over(ys, l.drop_last()) + match find_tid(ys, l.last().0) {
            Some(e) => e.rutils as int,
            None => 0,
        }
    }
}

/// Appending an entry for the transaction of `ys[j]` adds the remaining utility there.
proof fn lemma_rut_of_push(ys: Seq<ULEntry>, b: Seq<ULEntry>, e: ULEntry, j: int)
    requires
        tid_sorted(ys),
        0 <= j < ys.len(),
        e.tid == ys[j].tid,
    ensures
        rut_of(ys, b.push(e)) == rut_of(ys, b) + ys[j].rutils,
{
    lemma_find_sorted(ys, j);
    assert(b.push(e).drop_last() =~= b);
}

/// A body matching a list sums, over `ys`, the remaining utilities the list names.
pub proof fn lemma_rut_of_over(ys: Seq<ULEntry>, b: Seq<ULEntry>, l: Seq<(u32, int)>)
    requires
        ul_matches(b, l),
    ensures
        rut_of(ys, b) == rut_over(ys, l),
    decreases b.len(),
{
    if b.len() > 0 {
        assert(ul_matches(b.drop_last(), l.drop_last())) by {
            assert forall|k: int| 0 <= k < b.drop_last().len() implies (#[trigger] b.drop_last()[k]).tid == l.drop_last()[k].0
                && b.drop_last()[k].iutils == l.drop_last()[k].1 by {
                assert(b.drop_last()[k] == b[k]);
            }
        }
        lemma_rut_of_over(ys, b.drop_last(), l.drop_last());
        assert(b.last().tid == l.last().0) by {
            assert(b[b.len() - 1].tid == l[l.len() - 1].0);
        }
    }
}

/// Remaining utilities read from a list whose entries all have non-negative remaining
/// utilities sum to a non-negative amount.
pub proof fn lemma_rut_over_nonneg(ys: Seq<ULEntry>, l: Seq<(u32, int)>, txs: Seq<RawTransaction>)
    requires
        rut_ok(ys, txs),
    ensures
        rut_over(ys, l) >= 0,
    decreases l.len(),
{
    if l.len() > 0 {
        lemma_rut_over_nonneg(ys, l.drop_last(), txs);
        lemma_find_in(ys, l.last().0);
    }
}

/// What `find_tid` finds is an entry of the list.
proof fn lemma_find_in(ys: Seq<ULEntry>, t: u32)
    ensures
        find_tid(ys, t) matches Some(e) ==> exists|k: int| 0 <= k < ys.len() && ys[k] == e,
    decreases ys.len(),
{
    if ys.len() > 0 && ys.last().tid != t {
        lemma_find_in(ys.drop_last(), t);
        if find_tid(ys, t) is Some {
            let k = choose|k: int| 0 <= k < ys.drop_last().len() && ys.drop_last()[k] == find_tid(ys, t)->0;
            assert(ys[k] == ys.drop_last()[k]);
        }
    } else if ys.len() > 0 {
        assert(ys[ys.len() - 1] == ys.last());
    }
}

#[verifier::rlimit(100)]
pub fn join_bodies(
    p: &Vec<ULEntry>,
    px: &Vec<ULEntry>,
    py: &Vec<ULEntry>,
    Ghost(txs): Ghost<Seq<RawTransaction>>,
    Ghost(pre): Ghost<Seq<ItemId>>,
    Ghost(x): Ghost<ItemId>,
    Ghost(y): Ghost<ItemId>,
    Ghost(exact_lists): Ghost<bool>,
) -> (r: Result<(Vec<ULEntry>, Utility, Utility), MiningError>)
    requires
        txs.len() <= u32::MAX,
        tids_below(p@, txs.len() as int),
        tids_below(px@, txs.len() as int),
        tids_below(py@, txs.len() as int),
        exact_lists ==> ul_matches(px@, tid_list(txs, pre.push(x), txs.len() as int)),
        exact_lists ==> ul_matches(py@, tid_list(txs, pre.push(y), txs.len() as int)),
        exact_lists ==> (pre.len() == 0 && p@.len() == 0) || ul_matches(p@, tid_list(txs, pre, txs.len() as int)),
    ensures
        r matches Ok((b, si, sr)) ==> {
            &&& tids_below(b@, txs.len() as int)
            &&& si == sum_iutils(b@)
            &&& sr == sum_rutils(b@)
            &&& exact_lists ==> ul_matches(b@, tid_list(txs, pre.push(x).push(y), txs.len() as int))
                && si == list_sum(tid_list(txs, pre.push(x).push(y), txs.len() as int))
                && sr == rut_over(py@, tid_list(txs, pre.push(x).push(y), txs.len() as int))
            &&& rut_ok(py@, txs) ==> rut_ok(b@, txs)
        },
        exact_lists && db_distinct(txs) && db_nonneg(txs) && abs_weight(txs) <= i64::MAX
            && pre.push(x).push(y).no_duplicates() && rut_ok(py@, txs) ==> r is Ok,
{
    let ghost fits = exact_lists && db_distinct(txs) && db_nonneg(txs) && abs_weight(txs) <= i64::MAX
        && pre.push(x).push(y).no_duplicates() && rut_ok(py@, txs);
    let ghost n = txs.len() as int;
    let ghost lp = tid_list(txs, pre, n);
    let ghost l = tid_list(txs, pre.push(x), n);
    let ghost mm = tid_list(txs, pre.push(y), n);
    let ghost xe = pre.push(x).push(y);
    let use_prefix = p.len() > 0;
    let mut out: Vec<ULEntry> = Vec::new();
    let mut si: Utility = 0;
    let mut sr: Utility = 0;
    let mut i: usize = 0;
    let mut j: usize = 0;
    let mut q: usize = 0;
    proof {
        if exact_lists {
            lemma_tid_list_shape(txs, pre.push(x), n);
            lemma_tid_list_shape(txs, pre.push(y), n);
            assert(tid_sorted(py@)) by {
                assert forall|a: int, b: int| 0 <= a < b < py@.len() implies py@[a].tid < py@[b].tid by {
                    assert(py@[a].tid == mm[a].0 && py@[b].tid == mm[b].0);
                }
            }
            let m = if 0 < l.len() { if 0 < mm.len() { if l[0].0 <= mm[0].0 { l[0].0 as int } else { mm[0].0 as int } } else { l[0].0 as int } } else { if 0 < mm.len() { mm[0].0 as int } else { n } };
            assert forall|t: int| 0 <= t < m implies cand_tx_utility(txs[t].items@, xe) is None by {
                if cand_tx_utility(txs[t].items@, pre.push(x)) is Some {
                    let a = choose|a: int| 0 <= a < l.len() && l[a].0 == t;
                    if a > 0 {
                        assert(l[0].0 < l[a].0);
                    }
                }
                if cand_tx_utility(txs[t].items@, pre.push(y)) is Some {
                    let a = choose|a: int| 0 <= a < mm.len() && mm[a].0 == t;
                    if a > 0 {
                        assert(mm[0].0 < mm[a].0);
                    }
                }
                if cand_tx_utility(txs[t].items@, pre.push(x)) is Some && cand_tx_utility(txs[t].items@, pre.push(y)) is Some {
                    assert(false);
                }
                lemma_join_none(txs[t].items@, pre, x, y);
            }
            lemma_skip_empty(txs, xe, 0, m);
            assert(tid_list(txs, xe, 0) =~= Seq::<(u32, int)>::empty());
        }
    }
    while i < px.len() && j < py.len()
        invariant
            txs.len() <= u32::MAX,
            n == txs.len(),
            lp == tid_list(txs, pre, n),
            l == tid_list(txs, pre.push(x), n),
            mm == tid_list(txs, pre.push(y), n),
            xe == pre.push(x).push(y),
            use_prefix == (p@.len() > 0),
            i <= px@.len(),
            j <= py@.len(),
            q <= p@.len(),
            tids_below(p@, n),
            tids_below(px@, n),
            tids_below(py@, n),
            tids_below(out@, n),
            si == sum_iutils(out@),
            sr == sum_rutils(out@),
            exact_lists ==> sr == rut_of(py@, out@),
            exact_lists ==> tid_sorted(py@),
            exact_lists ==> ul_matches(px@, l),
            exact_lists ==> ul_matches(py@, mm),
            exact_lists ==> (pre.len() == 0 && p@.len() == 0) || ul_matches(p@, lp),
            fits == (exact_lists && db_distinct(txs) && db_nonneg(txs) && abs_weight(txs) <= i64::MAX
                && pre.push(x).push(y).no_duplicates() && rut_ok(py@, txs)),
            rut_ok(py@, txs) ==> rut_ok(out@, txs),
            exact_lists ==> {
                let hi = if (i as int) < l.len() { l[i as int].0 as int } else { n };
                let hj = if (j as int) < mm.len() { mm[j as int].0 as int } else { n };
                let m = if hi <= hj { hi } else { hj };
                &&& forall|k: int| 0 <= k < i ==> (l[k].0 as int) < m
                &&& forall|k: int| 0 <= k < j ==> (mm[k].0 as int) < m
                &&& forall|k: int| 0 <= k < q ==> (p@[k].tid as int) < m
                &&& ul_matches(out@, tid_list(txs, xe, m))
                &&& si == list_sum(tid_list(txs, xe, m))
            },
        decreases px@.len() - i + py@.len() - j,
    {
        let ex = px[i];
        let ey = py[j];
        if ex.tid == ey.tid {
            let tid = ex.tid;
            let mut up: Utility = 0;
            if use_prefix {
                while q < p.len() && p[q].tid < tid
                    invariant
                        q <= p@.len(),
                        exact_lists ==> forall|k: int| 0 <= k < q ==> (p@[k].tid as int) < tid,
                    decreases p@.len() - q,
                {
                    q = q + 1;
                }
                if q < p.len() && p[q].tid == tid {
                    up = p[q].iutils;
                }
            }
            proof {
                if exact_lists {
                    let t = tid as int;
                    lemma_tid_list_at(txs, pre.push(x), n, i as int);
                    lemma_tid_list_at(txs, pre.push(y), n, j as int);
                    lemma_prefix_some(txs[t].items@, pre, x);
                    if pre.len() == 0 && p@.len() == 0 {
                        assert(cand_tx_utility(txs[t].items@, pre) == Some(0int));
                    } else {
                        lemma_tid_list_shape(txs, pre, n);
                        let a = choose|a: int| 0 <= a < lp.len() && lp[a].0 == t;
                        assert(a >= q) by {
                            if a < q {
                                assert(p@[a].tid == lp[a].0);
                            }
                        }
                        assert(q < p@.len());
                        if p@[q as int].tid != tid {
                            assert(p@[q as int].tid > tid);
                            if a > q {
                                assert(lp[q as int].0 < lp[a].0);
                            }
                        }
                        assert(a == q);
                        lemma_tid_list_at(txs, pre, n, a);
                    }
                    assert(cand_tx_utility(txs[t].items@, pre) == Some(up as int));
                    lemma_join_cand(txs[t].items@, pre, x, y, up as int, l[i as int].1, mm[j as int].1);
                }
            }
            proof {
                if fits {
                    let t = tid as int;
                    let tx = txs[t];
                    let px_set = pre.push(x);
                    let py_set = pre.push(y);
                    assert(xe.drop_last() =~= px_set);
                    assert(px_set.no_duplicates());
                    assert(py_set.no_duplicates()) by {
                        assert forall|a: int, b: int| 0 <= a < py_set.len() && 0 <= b < py_set.len() && a != b
                            implies py_set[a] != py_set[b] by {
                            let a2: int = if a == pre.len() { pre.len() + 1int } else { a };
                            let b2: int = if b == pre.len() { pre.len() + 1int } else { b };
                            assert(py_set[a] == xe[a2] && py_set[b] == xe[b2]);
                        }
                    }
                    assert(x != y) by {
                        assert(xe[pre.len() as int] == x && xe[pre.len() + 1int] == y);
                    }
                    assert(distinct_items(tx.items@));
                    lemma_tx_bound(tx, px_set);
                    lemma_tx_bound(tx, py_set);
                    lemma_tid_list_nonneg(txs, px_set, n);
                    lemma_tid_list_nonneg(txs, py_set, n);
                    lemma_cand_some(tx.items@, px_set);
                    lemma_cand_some(tx.items@, py_set);
                    assert(px_set[pre.len() as int] == x && py_set[pre.len() as int] == y);
                    lemma_two_items(tx.items@, x, y);
                    lemma_tx_weight(txs, t);
                    lemma_abs_contrib_len(tx.items@, tx.transaction_utility);
                    let tu = tx.transaction_utility;
                    let len = tx.items@.len() as int;
                    assert(2 * tu <= len * tu) by (nonlinear_arith)
                        requires
                            len >= 2,
                            tu >= 0,
                    ;
                    assert(0 <= ex.iutils + ey.iutils <= i64::MAX);
                    let cu = l[i as int].1 + mm[j as int].1 - up;
                    assert forall|k: int| 0 <= k < tx.items@.len() implies (#[trigger] tx.items@[k]).utility >= 0 by {}
                    lemma_cand_nonneg(tx.items@, xe);
                    assert(l[i as int].0 == tid && mm[j as int].0 == tid);
                    let ent = (tid, cu);
                    assert(tid_list(txs, xe, t + 1) =~= tid_list(txs, xe, t).push(ent));
                    assert(tid_list(txs, xe, t).push(ent).drop_last() =~= tid_list(txs, xe, t));
                    lemma_sums_fit(txs, xe, t + 1);
                    lemma_sums_fit(txs, xe, t);
                    assert(0 <= si + cu <= i64::MAX);
                    let e2 = ULEntry { tid, iutils: cu as i64, rutils: ey.rutils };
                    let out2 = out@.push(e2);
                    assert(rut_ok(out2, txs)) by {
                        assert forall|z: int| 0 <= z < out2.len() implies 0 <= (#[trigger] out2[z]).rutils <= txs[out2[z].tid as int].transaction_utility by {
                            if z < out@.len() {
                                assert(out2[z] == out@[z]);
                            } else {
                                assert(py@[j as int] == ey);
                            }
                        }
                    }
                    assert(ul_matches(out2, tid_list(txs, xe, t + 1))) by {
                        assert forall|z: int| 0 <= z < out2.len() implies (#[trigger] out2[z]).tid == tid_list(txs, xe, t + 1)[z].0
                            && out2[z].iutils == tid_list(txs, xe, t + 1)[z].1 by {
                            if z < out@.len() {
                                assert(out2[z] == out@[z]);
                            }
                        }
                    }
                    assert(xe.len() >= 2);
                    lemma_list_fits(out2, txs, xe, t + 1);
                    lemma_body_sums_fit(out2, txs, 2);
                    assert(out2.drop_last() =~= out@);
                    assert(0 <= sr + ey.rutils <= i64::MAX);
                }
            }
            let s1 = match ex.iutils.checked_add(ey.iutils) {
                Some(v) => v,
                None => {
                    return Err(MiningError::UtilityOverflow);
                },
            };
            let iu = match s1.checked_sub(up) {
                Some(v) => v,
                None => {
                    return Err(MiningError::UtilityOverflow);
                },
            };
            let new_si = match si.checked_add(iu) {
                Some(v) => v,
                None => {
                    return Err(MiningError::UtilityOverflow);
                },
            };
            let new_sr = match sr.checked_add(ey.rutils) {
                Some(v) => v,
                None => {
                    return Err(MiningError::UtilityOverflow);
                },
            };
            let ghost old_out = out@;
            let e = ULEntry { tid, iutils: iu, rutils: ey.rutils };
            out.push(e);
            proof {
                assert(out@.drop_last() =~= old_out);
                if exact_lists {
                    lemma_rut_of_push(py@, old_out, e, j as int);
                }
                if rut_ok(py@, txs) {
                    assert forall|z: int| 0 <= z < out@.len() implies 0 <= (#[trigger] out@[z]).rutils <= txs[out@[z].tid as int].transaction_utility by {
                        if z < old_out.len() {
                            assert(out@[z] == old_out[z]);
                        } else {
                            assert(py@[j as int] == ey);
                        }
                    }
                }
            }
            si = new_si;
            sr = new_sr;
            i = i + 1;
            j = j + 1;
            proof {
                if exact_lists {
                    lemma_tid_list_shape(txs, pre.push(x), n);
                    lemma_tid_list_shape(txs, pre.push(y), n);
                    let t = tid as int;
                    let hi = if (i as int) < l.len() { l[i as int].0 as int } else { n };
                    let hj = if (j as int) < mm.len() { mm[j as int].0 as int } else { n };
                    let m = if hi <= hj { hi } else { hj };
                    assert(t < m) by {
                        if (i as int) < l.len() {
                            assert(l[i - 1].0 < l[i as int].0);
                        }
                        if (j as int) < mm.len() {
                            assert(mm[j - 1].0 < mm[j as int].0);
                        }
                    }
                    assert forall|t2: int| t + 1 <= t2 < m implies cand_tx_utility(txs[t2].items@, xe) is None by {
                        if cand_tx_utility(txs[t2].items@, pre.push(x)) is Some {
                            let a = choose|a: int| 0 <= a < l.len() && l[a].0 == t2;
                            if a <= i - 1 {
                                if a < i - 1 {
                                    assert(l[a].0 < l[i - 1].0);
                                }
                            } else if a > i {
                                assert(l[i as int].0 < l[a].0);
                            }
                        }
                        lemma_join_none(txs[t2].items@, pre, x, y);
                    }
                    lemma_skip_empty(txs, xe, t + 1, m);
                    let ent = (tid, iu as int);
                    assert(tid_list(txs, xe, t + 1) =~= tid_list(txs, xe, t).push(ent));
                    let m0 = t;
                    assert(tid_list(txs, xe, t + 1) == tid_list(txs, xe, m));
                    assert(ul_matches(out@, tid_list(txs, xe, m))) by {
                        assert forall|k: int| 0 <= k < out@.len() implies (#[trigger] out@[k]).tid == tid_list(txs, xe, m)[k].0
                            && out@[k].iutils == tid_list(txs, xe, m)[k].1 by {
                            if k < old_out.len() {
                                assert(out@[k] == old_out[k]);
                            }
                        }
                    }
                    assert(list_sum(tid_list(txs, xe, m)) == list_sum(tid_list(txs, xe, t)) + iu) by {
                        assert(tid_list(txs, xe, t).push(ent).drop_last() =~= tid_list(txs, xe, t));
                    }
                }
            }
        } else if ex.tid < ey.tid {
            proof {
                if exact_lists {
                    lemma_tid_list_shape(txs, pre.push(x), n);
                    lemma_tid_list_shape(txs, pre.push(y), n);
                    let t = ex.tid as int;
                    let hi = if (i + 1) < l.len() { l[i + 1].0 as int } else { n };
                    let hj = if (j as int) < mm.len() { mm[j as int].0 as int } else { n };
                    let m = if hi <= hj { hi } else { hj };
                    assert forall|t2: int| t <= t2 < m implies cand_tx_utility(txs[t2].items@, xe) is None by {
                        if t2 == t {
                            if cand_tx_utility(txs[t2].items@, pre.push(y)) is Some {
                                let a = choose|a: int| 0 <= a < mm.len() && mm[a].0 == t2;
                                if a > j {
                                    assert(mm[j as int].0 < mm[a].0);
                                }
                            }
                        } else if cand_tx_utility(txs[t2].items@, pre.push(x)) is Some {
                            let a = choose|a: int| 0 <= a < l.len() && l[a].0 == t2;
                            if a < i {
                                assert(l[a].0 < l[i as int].0);
                            } else if a > i + 1 {
                                assert(l[i + 1].0 < l[a].0);
                            }
                        }
                        lemma_join_none(txs[t2].items@, pre, x, y);
                    }
                    if i + 1 < l.len() {
                        assert(l[i as int].0 < l[i + 1].0);
                    }
                    lemma_skip_empty(txs, xe, t, m);
                }
            }
            i = i + 1;
        } else {
            proof {
                if exact_lists {
                    lemma_tid_list_shape(txs, pre.push(x), n);
                    lemma_tid_list_shape(txs, pre.push(y), n);
                    let t = ey.tid as int;
                    let hi = if (i as int) < l.len() { l[i as int].0 as int } else { n };
                    let hj = if (j + 1) < mm.len() { mm[j + 1].0 as int } else { n };
                    let m = if hi <= hj { hi } else { hj };
                    assert forall|t2: int| t <= t2 < m implies cand_tx_utility(txs[t2].items@, xe) is None by {
                        if t2 == t {
                            if cand_tx_utility(txs[t2].items@, pre.push(x)) is Some {
                                let a = choose|a: int| 0 <= a < l.len() && l[a].0 == t2;
                                if a > i {
                                    assert(l[i as int].0 < l[a].0);
                                }
                            }
                        } else if cand_tx_utility(txs[t2].items@, pre.push(y)) is Some {
                            let a = choose|a: int| 0 <= a < mm.len() && mm[a].0 == t2;
                            if a < j {
                                assert(mm[a].0 < mm[j as int].0);
                            } else if a > j + 1 {
                                assert(mm[j + 1].0 < mm[a].0);
                            }
                        }
                        lemma_join_none(txs[t2].items@, pre, x, y);
                    }
                    if j + 1 < mm.len() {
                        assert(mm[j as int].0 < mm[j + 1].0);
                    }
                    lemma_skip_empty(txs, xe, t, m);
                }
            }
            j = j + 1;
        }
    }
    proof {
        if exact_lists {
            lemma_tid_list_shape(txs, pre.push(x), n);
            lemma_tid_list_shape(txs, pre.push(y), n);
            let hi = if (i as int) < l.len() { l[i as int].0 as int } else { n };
            let hj = if (j as int) < mm.len() { mm[j as int].0 as int } else { n };
            let m = if hi <= hj { hi } else { hj };
            assert forall|t2: int| m <= t2 < n implies cand_tx_utility(txs[t2].items@, xe) is None by {
                if cand_tx_utility(txs[t2].items@, pre.push(x)) is Some && cand_tx_utility(txs[t2].items@, pre.push(y)) is Some {
                    let a = choose|a: int| 0 <= a < l.len() && l[a].0 == t2;
                    let b = choose|b: int| 0 <= b < mm.len() && mm[b].0 == t2;
                    if i == px@.len() {
                        assert(a < i);
                    } else {
                        assert(b < j);
                    }
                }
                lemma_join_none(txs[t2].items@, pre, x, y);
            }
            lemma_skip_empty(txs, xe, m, n);
            lemma_rut_of_over(py@, out@, tid_list(txs, xe, n));
        }
    }
    Ok((out, si, sr))
}

/// Every utility plus remaining utility is at most its transaction's utility.
pub open spec fn iru_ok(v: Seq<ULEntry>, txs: Seq<RawTransaction>) -> bool {
    forall|k: int| 0 <= k < v.len() ==> (#[trigger] v[k]).iutils + v[k].rutils <= txs[v[k].tid as int].transaction_utility
}

/// Every remaining utility is non-negative and at most its transaction's utility.
pub open spec fn rut_ok(v: Seq<ULEntry>, txs: Seq<RawTransaction>) -> bool {
    forall|k: int| 0 <= k < v.len() ==> 0 <= (#[trigger] v[k]).rutils <= txs[v[k].tid as int].transaction_utility
}

/// The entries name transactions in increasing order, each holding at least `c`
/// entries, with a utility and a remaining utility between zero and its transaction
/// utility.
pub open spec fn body_fits(v: Seq<ULEntry>, txs: Seq<RawTransaction>, c: int) -> bool {
    &&& forall|i: int, j: int| 0 <= i < j < v.len() ==> v[i].tid < v[j].tid
    &&& forall|k: int| 0 <= k < v.len() ==> {
        &&& ((#[trigger] v[k]).tid as int) < txs.len()
        &&& 0 <= v[k].iutils <= txs[v[k].tid as int].transaction_utility
        &&& 0 <= v[k].rutils <= txs[v[k].tid as int].transaction_utility
        &&& txs[v[k].tid as int].items@.len() >= c
    }
}

/// The transaction utilities of the entries' transactions, summed.
pub open spec fn tu_sum(v: Seq<ULEntry>, txs: Seq<RawTransaction>) -> int
    decreases v.len(),
{
    if v.len() == 0 { 0 } else { tu_sum(v.drop_last(), txs) + txs[v.last().tid as int].transaction_utility }
}

proof fn lemma_abs_contrib_len(items: Seq<ItemEntry>, tu: Utility)
    ensures
        abs_contrib(items, tu) == items.len() * (if tu < 0 { -tu } else { tu as int }),
    decreases items.len(),
{
    if items.len() > 0 {
        lemma_abs_contrib_len(items.drop_last(), tu);
        let a: int = if tu < 0 { -tu } else { tu as int };
        let n = items.len() as int;
        assert((n - 1) * a + a == n * a) by (nonlinear_arith);
    }
}

/// Entries that fit, over transactions before `t`: `c` times their transactions'
/// utilities weigh no more than those transactions.
proof fn lemma_tu_sum_bound(v: Seq<ULEntry>, txs: Seq<RawTransaction>, c: int, t: int)
    requires
        1 <= c,
        0 <= t <= txs.len(),
        body_fits(v, txs, c),
        forall|k: int| 0 <= k < v.len() ==> ((#[trigger] v[k]).tid as int) < t,
    ensures
        0 <= c * tu_sum(v, txs) <= abs_weight(txs.take(t)),
    decreases v.len(),
{
    if v.len() == 0 {
        lemma_twu_bound(txs.take(t), 0);
        assert(c * 0 == 0) by (nonlinear_arith);
    } else {
        let d = v.drop_last();
        let e = v.last();
        let te = e.tid as int;
        assert(v[v.len() - 1] == e);
        assert(body_fits(d, txs, c)) by {
            assert forall|i: int, j: int| 0 <= i < j < d.len() implies d[i].tid < d[j].tid by {
                assert(d[i] == v[i] && d[j] == v[j]);
            }
            assert forall|k: int| 0 <= k < d.len() implies {
                &&& ((#[trigger] d[k]).tid as int) < txs.len()
                &&& 0 <= d[k].iutils <= txs[d[k].tid as int].transaction_utility
                &&& 0 <= d[k].rutils <= txs[d[k].tid as int].transaction_utility
                &&& txs[d[k].tid as int].items@.len() >= c
            } by {
                assert(d[k] == v[k]);
            }
        }
        assert forall|k: int| 0 <= k < d.len() implies ((#[trigger] d[k]).tid as int) < te by {
            assert(d[k] == v[k]);
            assert(v[k].tid < v[v.len() - 1].tid);
        }
        lemma_tu_sum_bound(d, txs, c, te);
        let w = txs.take(te + 1);
        assert(w.drop_last() =~= txs.take(te));
        assert(w.last() == txs[te]);
        let tu = txs[te].transaction_utility;
        let len = txs[te].items@.len() as int;
        lemma_abs_contrib_len(txs[te].items@, tu);
        assert(tu >= 0);
        assert(c * tu <= len * tu) by (nonlinear_arith)
            requires
                c <= len,
                tu >= 0,
        ;
        assert(c * tu_sum(v, txs) == c * tu_sum(d, txs) + c * tu) by (nonlinear_arith)
            requires
                tu_sum(v, txs) == tu_sum(d, txs) + tu,
        ;
        assert(0 <= c * tu) by (nonlinear_arith)
            requires
                c >= 1,
                tu >= 0,
        ;
        lemma_abs_weight_take(txs.take(t), te + 1);
        assert(txs.take(t).take(te + 1) =~= w);
    }
}

/// The utilities, and the remaining utilities, of fitting entries sum to between zero
/// and their transactions' utilities.
proof fn lemma_sums_le_tu(v: Seq<ULEntry>, txs: Seq<RawTransaction>, c: int)
    requires
        body_fits(v, txs, c),
    ensures
        0 <= sum_iutils(v) <= tu_sum(v, txs),
        0 <= sum_rutils(v) <= tu_sum(v, txs),
    decreases v.len(),
{
    if v.len() > 0 {
        let d = v.drop_last();
        assert(body_fits(d, txs, c)) by {
            assert forall|i: int, j: int| 0 <= i < j < d.len() implies d[i].tid < d[j].tid by {
                assert(d[i] == v[i] && d[j] == v[j]);
            }
            assert forall|k: int| 0 <= k < d.len() implies {
                &&& ((#[trigger] d[k]).tid as int) < txs.len()
                &&& 0 <= d[k].iutils <= txs[d[k].tid as int].transaction_utility
                &&& 0 <= d[k].rutils <= txs[d[k].tid as int].transaction_utility
                &&& txs[d[k].tid as int].items@.len() >= c
            } by {
                assert(d[k] == v[k]);
            }
        }
        lemma_sums_le_tu(d, txs, c);
        assert(v[v.len() - 1] == v.last());
    }
}

proof fn lemma_body_fits_take(v: Seq<ULEntry>, txs: Seq<RawTransaction>, c: int, k: int)
    requires
        body_fits(v, txs, c),
        0 <= k <= v.len(),
    ensures
        body_fits(v.take(k), txs, c),
{
    let h = v.take(k);
    assert forall|i: int, j: int| 0 <= i < j < h.len() implies h[i].tid < h[j].tid by {
        assert(h[i] == v[i] && h[j] == v[j]);
    }
    assert forall|q: int| 0 <= q < h.len() implies {
        &&& ((#[trigger] h[q]).tid as int) < txs.len()
        &&& 0 <= h[q].iutils <= txs[h[q].tid as int].transaction_utility
        &&& 0 <= h[q].rutils <= txs[h[q].tid as int].transaction_utility
        &&& txs[h[q].tid as int].items@.len() >= c
    } by {
        assert(h[q] == v[q]);
    }
}

/// Over fitting entries, utilities plus remaining utilities sum to at most their
/// transactions' utilities.
proof fn lemma_iru_sum(v: Seq<ULEntry>, txs: Seq<RawTransaction>)
    requires
        body_fits(v, txs, 1),
        iru_ok(v, txs),
    ensures
        sum_iutils(v) + sum_rutils(v) <= tu_sum(v, txs),
    decreases v.len(),
{
    if v.len() > 0 {
        let d = v.drop_last();
        lemma_body_fits_take(v, txs, 1, v.len() - 1);
        assert(v.take(v.len() - 1) =~= d);
        assert forall|k: int| 0 <= k < d.len() implies (#[trigger] d[k]).iutils + d[k].rutils <= txs[d[k].tid as int].transaction_utility by {
            assert(d[k] == v[k]);
        }
        lemma_iru_sum(d, txs);
        assert(v[v.len() - 1] == v.last());
    }
}

/// The utilities plus remaining utilities of fitting entries of one item sum to within
/// `i64` in a database that weighs at most `i64::MAX`.
proof fn lemma_iru_bound(v: Seq<ULEntry>, txs: Seq<RawTransaction>)
    requires
        body_fits(v, txs, 1),
        iru_ok(v, txs),
        abs_weight(txs) <= i64::MAX,
    ensures
        0 <= sum_iutils(v) + sum_rutils(v) <= i64::MAX,
{
    lemma_iru_sum(v, txs);
    lemma_sums_le_tu(v, txs, 1);
    lemma_tu_sum_bound(v, txs, 1, txs.len() as int);
    assert(txs.take(txs.len() as int) =~= txs);
}

/// The sums over fitting entries stay within a database that weighs at most `i64::MAX`;
/// over entries whose transactions hold two entries or more, so does the sum of both.
pub proof fn lemma_body_sums_fit(v: Seq<ULEntry>, txs: Seq<RawTransaction>, c: int)
    requires
        1 <= c,
        body_fits(v, txs, c),
        abs_weight(txs) <= i64::MAX,
    ensures
        0 <= sum_iutils(v) <= i64::MAX,
        0 <= sum_rutils(v) <= i64::MAX,
        c >= 2 ==> sum_iutils(v) + sum_rutils(v) <= i64::MAX,
{
    lemma_sums_le_tu(v, txs, c);
    lemma_tu_sum_bound(v, txs, c, txs.len() as int);
    assert(txs.take(txs.len() as int) =~= txs);
    let ts = tu_sum(v, txs);
    assert(ts <= c * ts) by (nonlinear_arith)
        requires
            c >= 1,
            ts >= 0,
    ;
    if c >= 2 {
        assert(2 * ts <= c * ts) by (nonlinear_arith)
            requires
                c >= 2,
                ts >= 0,
        ;
    }
}

/// One transaction weighs no more than the database.
proof fn lemma_tx_weight(txs: Seq<RawTransaction>, t: int)
    requires
        0 <= t < txs.len(),
    ensures
        abs_contrib(txs[t].items@, txs[t].transaction_utility) <= abs_weight(txs),
{
    let w = txs.take(t + 1);
    assert(w.drop_last() =~= txs.take(t));
    assert(w.last() == txs[t]);
    lemma_twu_bound(txs.take(t), 0);
    lemma_abs_weight_take(txs, t + 1);
}

/// A transaction holding two different items holds two entries or more.
proof fn lemma_two_items(items: Seq<ItemEntry>, x: ItemId, y: ItemId)
    requires
        x != y,
        item_utility(items, x) is Some,
        item_utility(items, y) is Some,
    ensures
        items.len() >= 2,
{
    lemma_lookup_some(items, x);
    lemma_lookup_some(items, y);
    let a = choose|k: int| 0 <= k < items.len() && (#[trigger] items[k]).item == x && items[k].utility == item_utility(items, x).unwrap();
    let b = choose|k: int| 0 <= k < items.len() && (#[trigger] items[k]).item == y && items[k].utility == item_utility(items, y).unwrap();
    assert(a != b);
}

/// The entries of the list of a non-empty itemset without repeats, in a database without
/// repeated items whose utilities are non-negative and covered by the transaction
/// utilities, fit; with two items or more, their transactions hold two entries or more.
pub proof fn lemma_list_fits(v: Seq<ULEntry>, txs: Seq<RawTransaction>, c: Seq<ItemId>, n: int)
    requires
        txs.len() <= u32::MAX,
        0 <= n <= txs.len(),
        ul_matches(v, tid_list(txs, c, n)),
        rut_ok(v, txs),
        db_distinct(txs),
        db_nonneg(txs),
        c.len() >= 1,
        c.no_duplicates(),
    ensures
        body_fits(v, txs, if c.len() >= 2 { 2 } else { 1 }),
{
    let l = tid_list(txs, c, n);
    let cc: int = if c.len() >= 2 { 2 } else { 1 };
    lemma_tid_list_shape(txs, c, n);
    assert forall|i: int, j: int| 0 <= i < j < v.len() implies v[i].tid < v[j].tid by {
        assert(v[i].tid == l[i].0 && v[j].tid == l[j].0);
    }
    assert forall|k: int| 0 <= k < v.len() implies {
        &&& ((#[trigger] v[k]).tid as int) < txs.len()
        &&& 0 <= v[k].iutils <= txs[v[k].tid as int].transaction_utility
        &&& 0 <= v[k].rutils <= txs[v[k].tid as int].transaction_utility
        &&& txs[v[k].tid as int].items@.len() >= cc
    } by {
        let t = v[k].tid as int;
        assert(v[k].tid == l[k].0 && v[k].iutils == l[k].1);
        let tx = txs[t];
        assert(distinct_items(tx.items@));
        lemma_tx_bound(tx, c);
        lemma_tid_list_nonneg(txs, c, n);
        lemma_cand_some(tx.items@, c);
        assert(item_utility(tx.items@, c[0]) is Some);
        if c.len() >= 2 {
            assert(item_utility(tx.items@, c[1]) is Some);
            lemma_two_items(tx.items@, c[0], c[1]);
        } else {
            lemma_lookup_some(tx.items@, c[0]);
        }
    }
}

/// The filtered transactions hold what filtering gives: the passing entries of each
/// transaction, stably ordered by TWU; `None` where none passes.
pub open spec fn filtered_ok(txs: Seq<RawTransaction>, fts: Seq<Option<FilteredTransaction>>, m: Map<ItemId, Utility>) -> bool {
    &&& fts.len() == txs.len()
    &&& forall|t: int| 0 <= t < txs.len() ==> match #[trigger] fts[t] {
        Some(f) => f.items@ == stable_sort(kept_items(txs[t].items@, m), m)
            && f.transaction_utility == txs[t].transaction_utility,
        None => kept_items(txs[t].items@, m).len() == 0,
    }
}

/// The list of the single item `x`: for each transaction (by position) whose filtered
/// entries hold `x`, one entry per occurrence, with the item's utility and the summed
/// utility of the entries after it.
fn item_body(
    fts: &Vec<Option<FilteredTransaction>>,
    x: ItemId,
    Ghost(txs): Ghost<Seq<RawTransaction>>,
    Ghost(m): Ghost<Map<ItemId, Utility>>,
) -> (r: Result<Vec<ULEntry>, MiningError>)
    requires
        txs.len() <= u32::MAX,
        filtered_ok(txs, fts@, m),
    ensures
        r matches Ok(b) ==> tids_below(b@, txs.len() as int)
            && (db_distinct(txs) && m.contains_key(x) ==> ul_matches(b@, tid_list(txs, seq![x], txs.len() as int))),
        db_nonneg(txs) ==> r is Ok,
        r matches Ok(b) ==> (db_nonneg(txs) ==> rut_ok(b@, txs) && iru_ok(b@, txs)),
{
    let ghost n = txs.len() as int;
    let ghost h = db_distinct(txs) && m.contains_key(x);
    let mut body: Vec<ULEntry> = Vec::new();
    let mut t: usize = 0;
    while t < fts.len()
        invariant
            txs.len() <= u32::MAX,
            n == txs.len(),
            filtered_ok(txs, fts@, m),
            h == (db_distinct(txs) && m.contains_key(x)),
            t <= fts@.len(),
            tids_below(body@, t as int),
            h ==> ul_matches(body@, tid_list(txs, seq![x], t as int)),
            db_nonneg(txs) ==> rut_ok(body@, txs) && iru_ok(body@, txs),
        decreases fts@.len() - t,
    {
        let ghost before = body@;
        match &fts[t] {
            None => {
                proof {
                    if h {
                        assert(kept_items(txs[t as int].items@, m).len() == 0);
                        assert forall|k: int| 0 <= k < txs[t as int].items@.len() implies (#[trigger] txs[t as int].items@[k]).item != x by {
                            let e = txs[t as int].items@[k];
                            if e.item == x {
                                assert(txs[t as int].items@.contains(e));
                                law_filtered_entries(txs[t as int].items@, m, e);
                                crate::preprocessing::twu_filter::lemma_kept_contains_pub(txs[t as int].items@, m, e);
                            }
                        }
                        lemma_absent_lookup(txs[t as int].items@, x);
                        lemma_single_cand(txs[t as int].items@, x);
                        assert(tid_list(txs, seq![x], t + 1) =~= tid_list(txs, seq![x], t as int));
                    }
                }
            },
            Some(f) => {
                let items = &f.items;
                let mut total: Utility = 0;
                let mut k: usize = 0;
                proof {
                    if db_nonneg(txs) {
                        assert(f.items@ == stable_sort(kept_items(txs[t as int].items@, m), m));
                        assert forall|q: int| 0 <= q < txs[t as int].items@.len() implies (#[trigger] txs[t as int].items@[q]).utility >= 0 by {}
                        lemma_filtered_total(txs[t as int], m);
                    }
                }
                while k < items.len()
                    invariant
                        k <= items@.len(),
                        total == entries_total(items@.take(k as int)),
                        db_nonneg(txs) ==> (forall|q: int| 0 <= q < items@.len() ==> (#[trigger] items@[q]).utility >= 0)
                            && entries_total(items@) <= txs[t as int].transaction_utility,
                    decreases items@.len() - k,
                {
                    proof {
                        assert(items@.take(k + 1).drop_last() =~= items@.take(k as int));
                        assert(items@.take(k + 1).last() == items@[k as int]);
                        if db_nonneg(txs) {
                            lemma_entries_take(items@, k + 1);
                        }
                    }
                    match total.checked_add(items[k].utility) {
                        Some(v) => {
                            total = v;
                        },
                        None => {
                            return Err(MiningError::UtilityOverflow);
                        },
                    }
                    k = k + 1;
                }
                proof {
                    assert(items@.take(k as int) =~= items@);
                }
                let mut running = total;
                let ghost mut hit: int = -1;
                let mut k2: usize = 0;
                proof {
                    if h {
                        assert(distinct_items(txs[t as int].items@));
                        law_filtered_distinct(txs[t as int].items@, m);
                    }
                }
                while k2 < items.len()
                    invariant
                        k2 <= items@.len(),
                        t < fts@.len(),
                        n == txs.len(),
                        txs.len() <= u32::MAX,
                        filtered_ok(txs, fts@, m),
                        h == (db_distinct(txs) && m.contains_key(x)),
                        fts@[t as int] == Some(*f),
                        items@ == f.items@,
                        tids_below(before, t as int),
                        tids_below(body@, t + 1),
                        h ==> ul_matches(before, tid_list(txs, seq![x], t as int)),
                        total == entries_total(items@),
                        running == total - entries_total(items@.take(k2 as int)),
                        db_nonneg(txs) ==> (forall|q: int| 0 <= q < items@.len() ==> (#[trigger] items@[q]).utility >= 0)
                            && entries_total(items@) <= txs[t as int].transaction_utility,
                        db_nonneg(txs) ==> rut_ok(before, txs) && rut_ok(body@, txs) && iru_ok(before, txs) && iru_ok(body@, txs)
                            && running <= total,
                        h ==> {
                            &&& entries_distinct(items@)
                            &&& (hit == -1 ==> body@ == before && forall|q: int| 0 <= q < k2 ==> (#[trigger] items@[q]).item != x)
                            &&& (hit != -1 ==> 0 <= hit < k2 && items@[hit].item == x
                                && body@.len() == before.len() + 1
                                && body@.drop_last() == before
                                && body@.last().tid == t && body@.last().iutils == items@[hit].utility)
                        },
                    decreases items@.len() - k2,
                {
                    let e = items[k2];
                    let ghost r_old = running;
                    proof {
                        assert(items@.take(k2 + 1).drop_last() =~= items@.take(k2 as int));
                        assert(items@.take(k2 + 1).last() == items@[k2 as int]);
                        if db_nonneg(txs) {
                            lemma_entries_take(items@, k2 + 1);
                        }
                    }
                    running = match running.checked_sub(e.utility) {
                        Some(v) => v,
                        None => {
                            return Err(MiningError::UtilityOverflow);
                        },
                    };
                    if e.item == x {
                        proof {
                            if h && hit != -1 {
                                assert(items@[hit].item != items@[k2 as int].item);
                            }
                            hit = k2 as int;
                        }
                        let ghost body0 = body@;
                        body.push(ULEntry { tid: t as u32, iutils: e.utility, rutils: running });
                        proof {
                            if h {
                                assert(body@.drop_last() =~= before);
                            }
                            if db_nonneg(txs) {
                                assert forall|z: int| 0 <= z < body@.len() implies 0 <= (#[trigger] body@[z]).rutils <= txs[body@[z].tid as int].transaction_utility by {
                                    if z < body0.len() {
                                        assert(body@[z] == body0[z]);
                                    }
                                }
                                assert forall|z: int| 0 <= z < body@.len() implies (#[trigger] body@[z]).iutils + body@[z].rutils <= txs[body@[z].tid as int].transaction_utility by {
                                    if z < body0.len() {
                                        assert(body@[z] == body0[z]);
                                    }
                                }
                            }
                        }
                    }
                    k2 = k2 + 1;
                }
                proof {
                    if h {
                        let raw = txs[t as int].items@;
                        assert(distinct_items(raw));
                        law_filtered_distinct(raw, m);
                        let c = seq![x];
                        lemma_single_cand(raw, x);
                        if hit != -1 {
                            let e = items@[hit];
                            assert(items@.contains(e));
                            law_filtered_entries(raw, m, e);
                            let q = choose|q: int| 0 <= q < raw.len() && raw[q] == e;
                            lemma_single_lookup(raw, x, q);
                            assert(tid_list(txs, c, t + 1) =~= tid_list(txs, c, t as int).push((t as u32, e.utility as int)));
                            assert(body@ =~= before.push(body@.last()));
                            assert forall|z: int| 0 <= z < body@.len() implies (#[trigger] body@[z]).tid == tid_list(txs, c, t + 1)[z].0
                                && body@[z].iutils == tid_list(txs, c, t + 1)[z].1 by {
                                if z < before.len() {
                                    assert(body@[z] == before[z]);
                                }
                            }
                        } else {
                            assert forall|q: int| 0 <= q < raw.len() implies (#[trigger] raw[q]).item != x by {
                                if raw[q].item == x {
                                    assert(raw.contains(raw[q]));
                                    law_filtered_entries(raw, m, raw[q]);
                                    assert(items@.contains(raw[q]));
                                    let z = choose|z: int| 0 <= z < items@.len() && items@[z] == raw[q];
                                }
                            }
                            lemma_absent_lookup(raw, x);
                            assert(tid_list(txs, c, t + 1) =~= tid_list(txs, c, t as int));
                        }
                    }
                }
            },
        }
        t = t + 1;
    }
    Ok(body)
}

/// An extension of the current prefix: its utility-list header, its body, and the item
/// it adds.
pub struct Ext {
    pub ul: UtilityList,
    pub body: Vec<ULEntry>,
    pub item: ItemId,
}

/// The extension adds `e.item` to `pre`; its header sums its body; and when lists are
/// exact, its body is the list of the extended itemset.
pub open spec fn ext_ok(e: &Ext, txs: Seq<RawTransaction>, pre: Seq<ItemId>, exact_lists: bool) -> bool {
    &&& itemset_items(&e.ul.itemset) == pre.push(e.item)
    &&& e.ul.sum_iutils == sum_iutils(e.body@)
    &&& e.ul.sum_rutils == sum_rutils(e.body@)
    &&& tids_below(e.body@, txs.len() as int)
    &&& exact_lists ==> ul_matches(e.body@, tid_list(txs, pre.push(e.item), txs.len() as int))
        && e.ul.sum_iutils == list_sum(tid_list(txs, pre.push(e.item), txs.len() as int))
}

/// The body of the prefix is empty for the empty prefix, and its list otherwise.
pub open spec fn prefix_ok(p: Seq<ULEntry>, txs: Seq<RawTransaction>, pre: Seq<ItemId>) -> bool {
    (pre.len() == 0 && p.len() == 0) || ul_matches(p, tid_list(txs, pre, txs.len() as int))
}

/// The extensions add items that differ from one another and from the prefix's.
pub open spec fn exts_fresh(exts: Seq<Ext>, pre: Seq<ItemId>) -> bool {
    &&& forall|a: int, b: int| 0 <= a < b < exts.len() ==> exts[a].item != exts[b].item
    &&& forall|k: int, i: int| 0 <= k < exts.len() && 0 <= i < pre.len() ==> #[trigger] pre[i] != #[trigger] exts[k].item
}

/// The conditions under which the search makes no error: exact lists over a database
/// without repeated items, whose utilities are non-negative and covered, weighing at
/// most `i64::MAX`; a prefix without repeats, fresh extensions, and remaining utilities
/// within their transactions' utilities.
pub open spec fn search_fits(exts: Seq<Ext>, txs: Seq<RawTransaction>, pre: Seq<ItemId>, exact_lists: bool) -> bool {
    &&& exact_lists
    &&& db_distinct(txs)
    &&& db_nonneg(txs)
    &&& abs_weight(txs) <= i64::MAX
    &&& pre.no_duplicates()
    &&& exts_fresh(exts, pre)
    &&& forall|k: int| 0 <= k < exts.len() ==> rut_ok((#[trigger] exts[k]).body@, txs)
}

/// Sum of a body's utilities and of its remaining utilities.
pub(crate) fn body_sums(b: &Vec<ULEntry>) -> (r: Result<(Utility, Utility), MiningError>)
    ensures
        r matches Ok((si, sr)) ==> si == sum_iutils(b@) && sr == sum_rutils(b@),
        forall|txs: Seq<RawTransaction>, c: int| #![trigger body_fits(b@, txs, c)]
            1 <= c && body_fits(b@, txs, c) && abs_weight(txs) <= i64::MAX ==> r is Ok,
{
    let mut si: Utility = 0;
    let mut sr: Utility = 0;
    let mut k: usize = 0;
    while k < b.len()
        invariant
            k <= b@.len(),
            si == sum_iutils(b@.take(k as int)),
            sr == sum_rutils(b@.take(k as int)),
        decreases b@.len() - k,
    {
        proof {
            assert(b@.take(k + 1).drop_last() =~= b@.take(k as int));
            assert(b@.take(k + 1).last() == b@[k as int]);
            assert forall|txs: Seq<RawTransaction>, c: int| 1 <= c && #[trigger] body_fits(b@, txs, c) && abs_weight(txs) <= i64::MAX
                implies 0 <= si + b@[k as int].iutils <= i64::MAX && 0 <= sr + b@[k as int].rutils <= i64::MAX by {
                lemma_body_fits_take(b@, txs, c, k + 1);
                lemma_body_sums_fit(b@.take(k + 1), txs, c);
            }
        }
        si = match si.checked_add(b[k].iutils) {
            Some(v) => v,
            None => {
                return Err(MiningError::UtilityOverflow);
            },
        };
        sr = match sr.checked_add(b[k].rutils) {
            Some(v) => v,
            None => {
                return Err(MiningError::UtilityOverflow);
            },
        };
        k = k + 1;
    }
    proof {
        assert(b@.take(k as int) =~= b@);
    }
    Ok((si, sr))
}

/// The reported itemset of an extension is sound when lists are exact.
pub(crate) proof fn lemma_report_sound(e: &Ext, txs: Seq<RawTransaction>, pre: Seq<ItemId>, items: Seq<ItemId>)
    requires
        ext_ok(e, txs, pre, true),
        items == itemset_items(&e.ul.itemset),
    ensures
        e.ul.sum_iutils == db_utility(txs, items),
{
    lemma_list_sum_is_utility(txs, pre.push(e.item), txs.len() as int);
    assert(txs.take(txs.len() as int) =~= txs);
}

/// What the join of the extensions `ea` then `eb` of `pre` is kept by: the joined
/// itemset's utility plus the remaining utilities that `eb`'s list records in the
/// transactions of the joined itemset.
pub open spec fn join_bound(txs: Seq<RawTransaction>, pre: Seq<ItemId>, ea: Ext, eb: Ext) -> int {
    db_utility(txs, pre.push(ea.item).push(eb.item))
        + rut_over(eb.body@, tid_list(txs, pre.push(ea.item).push(eb.item), txs.len() as int))
}

/// Depth-first search below `pre`: each extension whose utility reaches the threshold
/// is reported; its joins with the later extensions whose bound (utility plus remaining
/// utility) reaches the threshold are searched in turn.
fn hup_search(
    prefix_body: &Vec<ULEntry>,
    exts: &Vec<Ext>,
    min_utility: Utility,
    out: &mut Vec<Hui>,
    Ghost(txs): Ghost<Seq<RawTransaction>>,
    Ghost(pre): Ghost<Seq<ItemId>>,
    Ghost(exact_lists): Ghost<bool>,
) -> (r: Result<(), MiningError>)
    requires
        txs.len() <= u32::MAX,
        tids_below(prefix_body@, txs.len() as int),
        exact_lists ==> prefix_ok(prefix_body@, txs, pre),
        forall|k: int| 0 <= k < exts@.len() ==> ext_ok(&#[trigger] exts@[k], txs, pre, exact_lists),
        exact_lists ==> sound_huis(txs, min_utility, old(out)@),
    ensures
        exact_lists ==> sound_huis(txs, min_utility, final(out)@),
        search_fits(exts@, txs, pre, exact_lists) ==> r is Ok,
        forall|c: Seq<ItemId>| #[trigger] reported(old(out)@, c) ==> reported(final(out)@, c),
        r is Ok ==> forall|k: int| 0 <= k < exts@.len() && (#[trigger] exts@[k]).ul.sum_iutils >= min_utility
            ==> reported(final(out)@, pre.push(exts@[k].item)),
        r is Ok && search_fits(exts@, txs, pre, exact_lists) ==> forall|a: int, b: int| 0 <= a < b < exts@.len()
            && db_utility(txs, pre.push(exts@[a].item).push(exts@[b].item)) >= min_utility
            ==> #[trigger] reported(final(out)@, pre.push(exts@[a].item).push(exts@[b].item)),
        r is Ok && search_fits(exts@, txs, pre, exact_lists) ==> forall|a: int, b: int, c: int| 0 <= a < b < c < exts@.len()
            && join_bound(txs, pre, exts@[a], exts@[b]) >= min_utility
            && join_bound(txs, pre, exts@[a], exts@[c]) >= min_utility
            && db_utility(txs, pre.push(exts@[a].item).push(exts@[b].item).push(exts@[c].item)) >= min_utility
            ==> #[trigger] reported(final(out)@, pre.push(exts@[a].item).push(exts@[b].item).push(exts@[c].item)),
    decreases exts@.len(),
{
    let ghost fits = search_fits(exts@, txs, pre, exact_lists);
    let ghost out0 = out@;
    let mut i: usize = 0;
    while i < exts.len()
        invariant
            txs.len() <= u32::MAX,
            tids_below(prefix_body@, txs.len() as int),
            exact_lists ==> prefix_ok(prefix_body@, txs, pre),
            forall|k: int| 0 <= k < exts@.len() ==> ext_ok(&#[trigger] exts@[k], txs, pre, exact_lists),
            exact_lists ==> sound_huis(txs, min_utility, out@),
            i <= exts@.len(),
            fits == search_fits(exts@, txs, pre, exact_lists),
            out0 == old(out)@,
            forall|c: Seq<ItemId>| #[trigger] reported(out0, c) ==> reported(out@, c),
            forall|k: int| 0 <= k < i && (#[trigger] exts@[k]).ul.sum_iutils >= min_utility
                ==> reported(out@, pre.push(exts@[k].item)),
            fits ==> forall|a: int, b: int| 0 <= a < i && a < b < exts@.len()
                && db_utility(txs, pre.push(exts@[a].item).push(exts@[b].item)) >= min_utility
                ==> #[trigger] reported(out@, pre.push(exts@[a].item).push(exts@[b].item)),
            fits ==> forall|a: int, b: int, c: int| 0 <= a < i && a < b < c < exts@.len()
                && join_bound(txs, pre, exts@[a], exts@[b]) >= min_utility
                && join_bound(txs, pre, exts@[a], exts@[c]) >= min_utility
                && db_utility(txs, pre.push(exts@[a].item).push(exts@[b].item).push(exts@[c].item)) >= min_utility
                ==> #[trigger] reported(out@, pre.push(exts@[a].item).push(exts@[b].item).push(exts@[c].item)),
        decreases exts@.len() - i,
    {
        let ei = &exts[i];
        proof {
            assert(ext_ok(&exts@[i as int], txs, pre, exact_lists));
        }
        let ghost before_all = out@;
        if ei.ul.is_high_utility(min_utility) {
            let items = ei.ul.itemset.to_vec();
            let ghost before = out@;
            out.push((items, ei.ul.sum_iutils));
            proof {
                assert(out@[out@.len() - 1].0@ == pre.push(ei.item));
                assert forall|c: Seq<ItemId>| #[trigger] reported(before, c) implies reported(out@, c) by {
                    let w = choose|w: int| 0 <= w < before.len() && (#[trigger] before[w]).0@ == c;
                    assert(out@[w] == before[w]);
                }
                if exact_lists {
                    lemma_report_sound(ei, txs, pre, items@);
                    assert forall|k: int| 0 <= k < out@.len() implies {
                        &&& (#[trigger] out@[k]).1 == db_utility(txs, out@[k].0@)
                        &&& out@[k].1 >= min_utility
                    } by {
                        if k < before.len() {
                            assert(out@[k] == before[k]);
                        }
                    }
                }
            }
        }
        let ghost after_report = out@;
        proof {
            assert(forall|c: Seq<ItemId>| #[trigger] reported(out0, c) ==> reported(after_report, c));
            assert(ei.ul.sum_iutils >= min_utility ==> reported(after_report, pre.push(ei.item)));
            assert forall|k: int| 0 <= k < i && (#[trigger] exts@[k]).ul.sum_iutils >= min_utility
                implies reported(after_report, pre.push(exts@[k].item)) by {
                assert(reported(before_all, pre.push(exts@[k].item)));
            }
            if fits {
                assert forall|a: int, b: int| 0 <= a < i && a < b < exts@.len()
                    && db_utility(txs, pre.push(exts@[a].item).push(exts@[b].item)) >= min_utility
                    implies #[trigger] reported(after_report, pre.push(exts@[a].item).push(exts@[b].item)) by {
                    assert(reported(before_all, pre.push(exts@[a].item).push(exts@[b].item)));
                }
                assert forall|a: int, b: int, c: int| 0 <= a < i && a < b < c < exts@.len()
                    && join_bound(txs, pre, exts@[a], exts@[b]) >= min_utility
                    && join_bound(txs, pre, exts@[a], exts@[c]) >= min_utility
                    && db_utility(txs, pre.push(exts@[a].item).push(exts@[b].item).push(exts@[c].item)) >= min_utility
                    implies #[trigger] reported(after_report, pre.push(exts@[a].item).push(exts@[b].item).push(exts@[c].item)) by {
                    assert(reported(before_all, pre.push(exts@[a].item).push(exts@[b].item).push(exts@[c].item)));
                }
            }
        }
        let mut next: Vec<Ext> = Vec::new();
        let ghost mut pos: Seq<int> = Seq::empty();
        let ghost pre2 = pre.push(ei.item);
        proof {
            if fits {
                assert(pre2.no_duplicates()) by {
                    assert forall|a: int, b: int| 0 <= a < pre2.len() && 0 <= b < pre2.len() && a != b implies pre2[a] != pre2[b] by {
                        if a < pre.len() && b < pre.len() {
                            assert(pre2[a] == pre[a] && pre2[b] == pre[b]);
                        } else if a < pre.len() {
                            assert(pre2[a] == pre[a] && pre2[b] == exts@[i as int].item);
                        } else {
                            assert(pre2[b] == pre[b] && pre2[a] == exts@[i as int].item);
                        }
                    }
                }
            }
        }
        let mut j = i + 1;
        while j < exts.len()
            invariant
                txs.len() <= u32::MAX,
                tids_below(prefix_body@, txs.len() as int),
                exact_lists ==> prefix_ok(prefix_body@, txs, pre),
                forall|k: int| 0 <= k < exts@.len() ==> ext_ok(&#[trigger] exts@[k], txs, pre, exact_lists),
                i < j <= exts@.len(),
                ei == &exts@[i as int],
                pre2 == pre.push(ei.item),
                next@.len() <= j - i - 1,
                forall|k: int| 0 <= k < next@.len() ==> ext_ok(&#[trigger] next@[k], txs, pre2, exact_lists),
                exact_lists ==> sound_huis(txs, min_utility, out@),
                fits == search_fits(exts@, txs, pre, exact_lists),
                fits ==> search_fits(next@, txs, pre2, exact_lists),
                fits ==> forall|k: int| 0 <= k < next@.len() ==> exists|q: int| i < q < j && (#[trigger] next@[k]).item == exts@[q].item,
                fits ==> forall|b: int| i < b < j && db_utility(txs, pre2.push(exts@[b].item)) >= min_utility
                    ==> #[trigger] has_heavy(next@, exts@[b].item, min_utility),
                pos.len() == next@.len(),
                forall|q: int| 0 <= q < pos.len() ==> i < #[trigger] pos[q] < j && next@[q].item == exts@[pos[q]].item,
                forall|q1: int, q2: int| 0 <= q1 < q2 < pos.len() ==> #[trigger] pos[q1] < #[trigger] pos[q2],
                fits ==> forall|b: int| i < b < j && join_bound(txs, pre, exts@[i as int], exts@[b]) >= min_utility
                    ==> exists|q: int| 0 <= q < pos.len() && #[trigger] pos[q] == b,
                out@ == after_report,
                out0 == old(out)@,
                forall|c: Seq<ItemId>| #[trigger] reported(out0, c) ==> reported(out@, c),
            decreases exts@.len() - j,
        {
            let ej = &exts[j];
            proof {
                assert(ext_ok(&exts@[j as int], txs, pre, exact_lists));
                if fits {
                    let xe = pre.push(ei.item).push(ej.item);
                    assert forall|a: int, b: int| 0 <= a < xe.len() && 0 <= b < xe.len() && a != b implies xe[a] != xe[b] by {
                        let pl = pre.len() as int;
                        if a < pl && b < pl {
                            assert(xe[a] == pre[a] && xe[b] == pre[b]);
                        } else if a < pl && b == pl {
                            assert(xe[a] == pre[a] && xe[b] == exts@[i as int].item);
                        } else if a < pl {
                            assert(xe[a] == pre[a] && xe[b] == exts@[j as int].item);
                        } else if b < pl && a == pl {
                            assert(xe[b] == pre[b] && xe[a] == exts@[i as int].item);
                        } else if b < pl {
                            assert(xe[b] == pre[b] && xe[a] == exts@[j as int].item);
                        } else {
                            assert(exts@[i as int].item != exts@[j as int].item);
                        }
                    }
                    assert(xe.no_duplicates());
                    assert(rut_ok(exts@[j as int].body@, txs));
                }
            }
            let (b, si, sr) = match join_bodies(prefix_body, &ei.body, &ej.body, Ghost(txs), Ghost(pre), Ghost(ei.item), Ghost(ej.item), Ghost(exact_lists)) {
                Ok(v) => v,
                Err(e) => {
                    return Err(e);
                },
            };
            let mut itemset = ei.ul.itemset.duplicate();
            itemset.push(ej.item);
            let ghost next_before = next@;
            proof {
                if fits {
                    let xe = pre.push(ei.item).push(ej.item);
                    assert(xe.len() >= 2);
                    lemma_list_fits(b@, txs, xe, txs.len() as int);
                    lemma_body_sums_fit(b@, txs, 2);
                    lemma_list_sum_is_utility(txs, xe, txs.len() as int);
                    assert(txs.take(txs.len() as int) =~= txs);
                    assert(si == db_utility(txs, xe));
                }
            }
            let bound = match si.checked_add(sr) {
                Some(v) => v,
                None => {
                    return Err(MiningError::UtilityOverflow);
                },
            };
            let ghost pos_before = pos;
            if bound >= min_utility {
                let len = b.len() as u32;
                let ghost bseq = b@;
                let ul = UtilityList {
                    itemset,
                    sum_iutils: si,
                    sum_rutils: sr,
                    len,
                    page_id: 0,
                    resident: true,
                    recompute: RecomputeFlag::Recomputable,
                };
                let ghost old_next = next@;
                next.push(Ext { ul, body: b, item: ej.item });
                proof {
                    let pos0 = pos;
                    pos = pos.push(j as int);
                    assert forall|q: int| 0 <= q < pos.len() implies i < #[trigger] pos[q] < j + 1 && next@[q].item == exts@[pos[q]].item by {
                        if q < pos0.len() {
                            assert(pos[q] == pos0[q]);
                            assert(next@[q] == old_next[q]);
                        }
                    }
                    assert forall|q1: int, q2: int| 0 <= q1 < q2 < pos.len() implies #[trigger] pos[q1] < #[trigger] pos[q2] by {
                        assert(pos[q1] == pos0[q1]);
                        if q2 < pos0.len() {
                            assert(pos[q2] == pos0[q2]);
                        }
                    }
                    assert forall|k: int| 0 <= k < next@.len() implies ext_ok(&#[trigger] next@[k], txs, pre2, exact_lists) by {
                        if k < old_next.len() {
                            assert(next@[k] == old_next[k]);
                        }
                    }
                    if fits {
                        let nj = next@[next@.len() - 1];
                        assert(nj.item == exts@[j as int].item);
                        assert forall|k: int| 0 <= k < next@.len() implies exists|q: int| i < q < j + 1 && (#[trigger] next@[k]).item == exts@[q].item by {
                            if k < old_next.len() {
                                assert(next@[k] == old_next[k]);
                                let q = choose|q: int| i < q < j && (#[trigger] old_next[k]).item == exts@[q].item;
                            }
                        }
                        assert forall|a: int, c: int| 0 <= a < c < next@.len() implies next@[a].item != next@[c].item by {
                            if c < old_next.len() {
                                assert(next@[a] == old_next[a] && next@[c] == old_next[c]);
                            } else {
                                assert(next@[a] == old_next[a]);
                                let q = choose|q: int| i < q < j && (#[trigger] old_next[a]).item == exts@[q].item;
                                assert(exts@[q].item != exts@[j as int].item);
                            }
                        }
                        assert forall|k: int, z: int| 0 <= k < next@.len() && 0 <= z < pre2.len() implies #[trigger] pre2[z] != #[trigger] next@[k].item by {
                            let q = choose|q: int| i < q < j + 1 && (#[trigger] next@[k]).item == exts@[q].item;
                            if z < pre.len() {
                                assert(pre2[z] == pre[z]);
                            } else {
                                assert(pre2[z] == exts@[i as int].item);
                                assert(exts@[i as int].item != exts@[q].item);
                            }
                        }
                        assert forall|k: int| 0 <= k < next@.len() implies rut_ok((#[trigger] next@[k]).body@, txs) by {
                            if k < old_next.len() {
                                assert(next@[k] == old_next[k]);
                            }
                        }
                    }
                }
            }
            proof {
                if fits {
                    assert(bound == join_bound(txs, pre, exts@[i as int], exts@[j as int]));
                    assert forall|bb: int| i < bb < j + 1 && join_bound(txs, pre, exts@[i as int], exts@[bb]) >= min_utility
                        implies exists|q: int| 0 <= q < pos.len() && #[trigger] pos[q] == bb by {
                        if bb == j {
                            assert(pos[pos.len() - 1] == j);
                        } else {
                            let q = choose|q: int| 0 <= q < pos_before.len() && #[trigger] pos_before[q] == bb;
                            assert(pos[q] == pos_before[q]);
                        }
                    }
                    assert forall|bb: int| i < bb < j + 1 && db_utility(txs, pre2.push(exts@[bb].item)) >= min_utility
                        implies #[trigger] has_heavy(next@, exts@[bb].item, min_utility) by {
                        if bb < j {
                            assert(has_heavy(next_before, exts@[bb].item, min_utility));
                            let q = choose|q: int| 0 <= q < next_before.len() && next_before[q].item == exts@[bb].item
                                && next_before[q].ul.sum_iutils >= min_utility;
                            assert(next@[q] == next_before[q]);
                        } else {
                            assert(pre2.push(exts@[bb].item) == pre.push(ei.item).push(ej.item));
                            assert(next@.len() == next_before.len() + 1);
                            assert(next@[next_before.len() as int].item == exts@[bb].item);
                        }
                    }
                }
            }
            j = j + 1;
        }
        match hup_search(&ei.body, &next, min_utility, out, Ghost(txs), Ghost(pre2), Ghost(exact_lists)) {
            Ok(()) => {},
            Err(e) => {
                return Err(e);
            },
        }
        proof {
            assert forall|k: int| 0 <= k < i + 1 && (#[trigger] exts@[k]).ul.sum_iutils >= min_utility
                implies reported(out@, pre.push(exts@[k].item)) by {
                assert(reported(after_report, pre.push(exts@[k].item)));
            }
            if fits {
                assert forall|a: int, b: int| 0 <= a < i + 1 && a < b < exts@.len()
                    && db_utility(txs, pre.push(exts@[a].item).push(exts@[b].item)) >= min_utility
                    implies #[trigger] reported(out@, pre.push(exts@[a].item).push(exts@[b].item)) by {
                    if a < i {
                        assert(reported(after_report, pre.push(exts@[a].item).push(exts@[b].item)));
                    } else {
                        assert(has_heavy(next@, exts@[b].item, min_utility));
                        let q = choose|q: int| 0 <= q < next@.len() && next@[q].item == exts@[b].item && next@[q].ul.sum_iutils >= min_utility;
                        assert(reported(out@, pre2.push(next@[q].item)));
                    }
                }
                assert forall|a: int, b: int, c: int| 0 <= a < i + 1 && a < b < c < exts@.len()
                    && join_bound(txs, pre, exts@[a], exts@[b]) >= min_utility
                    && join_bound(txs, pre, exts@[a], exts@[c]) >= min_utility
                    && db_utility(txs, pre.push(exts@[a].item).push(exts@[b].item).push(exts@[c].item)) >= min_utility
                    implies #[trigger] reported(out@, pre.push(exts@[a].item).push(exts@[b].item).push(exts@[c].item)) by {
                    if a < i {
                        assert(reported(after_report, pre.push(exts@[a].item).push(exts@[b].item).push(exts@[c].item)));
                    } else {
                        let qb = choose|q: int| 0 <= q < pos.len() && #[trigger] pos[q] == b;
                        let qc = choose|q: int| 0 <= q < pos.len() && #[trigger] pos[q] == c;
                        assert(qb < qc) by {
                            if qc < qb {
                                assert(pos[qc] < pos[qb]);
                            }
                        }
                        assert(next@[qb].item == exts@[b].item);
                        assert(next@[qc].item == exts@[c].item);
                        assert(reported(out@, pre2.push(next@[qb].item).push(next@[qc].item)));
                    }
                }
            }
        }
        i = i + 1;
    }
    Ok(())
}

/// The itemset of the two items `x` then `y`.
pub open spec fn pair_items(x: ItemId, y: ItemId) -> Seq<ItemId> {
    seq![x, y]
}

/// The utility of a pair does not depend on the order of its two items.
proof fn lemma_cand_pair_swap(items: Seq<ItemEntry>, x: ItemId, y: ItemId)
    ensures
        cand_tx_utility(items, seq![x, y]) == cand_tx_utility(items, seq![y, x]),
{
    let e = Seq::<ItemId>::empty();
    let sx = seq![x];
    let sy = seq![y];
    let sxy = seq![x, y];
    let syx = seq![y, x];
    assert(sx.drop_last() =~= e);
    assert(sy.drop_last() =~= e);
    assert(sxy.drop_last() =~= sx);
    assert(syx.drop_last() =~= sy);
    assert(sx.last() == x && sy.last() == y && sxy.last() == y && syx.last() == x);
    assert(cand_tx_utility(items, e) == Some(0int));
    let cx = cand_tx_utility(items, sx);
    let cy = cand_tx_utility(items, sy);
    assert(cx == (match item_utility(items, x) { Some(u) => Some(0 + u), None => None::<int> }));
    assert(cy == (match item_utility(items, y) { Some(u) => Some(0 + u), None => None::<int> }));
    assert(cand_tx_utility(items, sxy) == (match (cx, item_utility(items, y)) { (Some(a), Some(u)) => Some(a + u), _ => None::<int> }));
    assert(cand_tx_utility(items, syx) == (match (cy, item_utility(items, x)) { (Some(a), Some(u)) => Some(a + u), _ => None::<int> }));
}

proof fn lemma_pair_swap(txs: Seq<RawTransaction>, x: ItemId, y: ItemId)
    ensures
        db_utility(txs, seq![x, y]) == db_utility(txs, seq![y, x]),
    decreases txs.len(),
{
    if txs.len() > 0 {
        lemma_pair_swap(txs.drop_last(), x, y);
        lemma_cand_pair_swap(txs.last().items@, x, y);
    }
}

/// One of the extensions adds `y`, with a utility reaching `min_utility`.
pub open spec fn has_heavy(next: Seq<Ext>, y: ItemId, min_utility: Utility) -> bool {
    exists|q: int| 0 <= q < next.len() && next[q].item == y && next[q].ul.sum_iutils >= min_utility
}

/// HUP-Miner: TWU filtering, single-item utility lists, then a depth-first search that
/// joins lists.
pub struct HupMiner {
    enable_prefetch: bool,
}

/// The filtered form of every transaction.
pub(crate) fn filter_all(res: &TwuFilterResult, transactions: &[RawTransaction]) -> (r: Vec<Option<FilteredTransaction>>)
    ensures
        filtered_ok(transactions@, r@, res.twu@),
{
    let mut fts: Vec<Option<FilteredTransaction>> = Vec::new();
    let mut t: usize = 0;
    while t < transactions.len()
        invariant
            t <= transactions@.len(),
            fts@.len() == t,
            forall|q: int| 0 <= q < t ==> match #[trigger] fts@[q] {
                Some(f) => f.items@ == stable_sort(kept_items(transactions@[q].items@, res.twu@), res.twu@)
                    && f.transaction_utility == transactions@[q].transaction_utility,
                None => kept_items(transactions@[q].items@, res.twu@).len() == 0,
            },
        decreases transactions@.len() - t,
    {
        fts.push(res.apply(&transactions[t]));
        t = t + 1;
    }
    fts
}

/// The single-item extensions, in ascending order of TWU (ties by item), each with its
/// list; with `skip_below`, items whose bound falls below it are left out.
#[verifier::rlimit(60)]
pub(crate) fn single_item_exts(
    res: &TwuFilterResult,
    fts: &Vec<Option<FilteredTransaction>>,
    skip_below: Option<Utility>,
    Ghost(txs): Ghost<Seq<RawTransaction>>,
) -> (r: Result<Vec<Ext>, MiningError>)
    requires
        txs.len() <= u32::MAX,
        filtered_ok(txs, fts@, res.twu@),
        forall|i: int| 0 <= i < res.ordered_items@.len() ==> res.twu@.contains_key((#[trigger] res.ordered_items@[i]).0),
        forall|i: int, j: int| 0 <= i < j < res.ordered_items@.len() ==>
            (#[trigger] res.ordered_items@[i]).0 != (#[trigger] res.ordered_items@[j]).0,
        forall|x: ItemId| #[trigger] res.twu@.contains_key(x) ==>
            exists|i: int| 0 <= i < res.ordered_items@.len() && (#[trigger] res.ordered_items@[i]).0 == x,
    ensures
        r matches Ok(exts) ==> forall|k: int| 0 <= k < exts@.len() ==> ext_ok(&#[trigger] exts@[k], txs, Seq::empty(), db_distinct(txs)),
        r matches Ok(exts) ==> (skip_below is None ==> forall|y: ItemId| #[trigger] res.twu@.contains_key(y) ==> has_ext(exts@, y)),
        r matches Ok(exts) ==> forall|y: ItemId| #[trigger] res.twu@.contains_key(y)
            && item_kept(skip_below, db_distinct(txs) && db_nonneg(txs) && abs_weight(txs) <= i64::MAX, txs, y) ==> has_ext(exts@, y),
        db_distinct(txs) && db_nonneg(txs) && abs_weight(txs) <= i64::MAX ==> r is Ok,
        r matches Ok(exts) ==> (db_distinct(txs) && db_nonneg(txs) && abs_weight(txs) <= i64::MAX
            ==> search_fits(exts@, txs, Seq::empty(), db_distinct(txs))),
{
    let ghost fits = db_distinct(txs) && db_nonneg(txs) && abs_weight(txs) <= i64::MAX;
    let order = sort_pairs(&res.ordered_items, false);
    proof {
        assert(res.ordered_items@.no_duplicates()) by {
            assert forall|a: int, b: int| 0 <= a < res.ordered_items@.len() && 0 <= b < res.ordered_items@.len() && a != b
                implies res.ordered_items@[a] != res.ordered_items@[b] by {
                if a < b {
                    assert(res.ordered_items@[a].0 != res.ordered_items@[b].0);
                } else {
                    assert(res.ordered_items@[b].0 != res.ordered_items@[a].0);
                }
            }
        }
        assert forall|a: int, b: int| 0 <= a < b < order@.len() implies order@[a].0 != order@[b].0 by {
            assert(order@.contains(order@[a]) && order@.contains(order@[b]));
            let qa = choose|q: int| 0 <= q < res.ordered_items@.len() && res.ordered_items@[q] == order@[a];
            let qb = choose|q: int| 0 <= q < res.ordered_items@.len() && res.ordered_items@[q] == order@[b];
            if order@[a].0 == order@[b].0 {
                if qa < qb {
                    assert(res.ordered_items@[qa].0 != res.ordered_items@[qb].0);
                } else if qb < qa {
                    assert(res.ordered_items@[qb].0 != res.ordered_items@[qa].0);
                }
                assert(order@[a] != order@[b]);
            }
        }
    }
    let mut exts: Vec<Ext> = Vec::new();
    let ghost mut pos: Seq<int> = Seq::empty();
    let mut i: usize = 0;
    while i < order.len()
        invariant
            txs.len() <= u32::MAX,
            filtered_ok(txs, fts@, res.twu@),
            forall|q: int| 0 <= q < res.ordered_items@.len() ==> res.twu@.contains_key((#[trigger] res.ordered_items@[q]).0),
            forall|y: (ItemId, Utility)| order@.contains(y) <==> res.ordered_items@.contains(y),
            i <= order@.len(),
            forall|k: int| 0 <= k < exts@.len() ==> ext_ok(&#[trigger] exts@[k], txs, Seq::empty(), db_distinct(txs)),
            forall|a: int, b: int| 0 <= a < b < order@.len() ==> order@[a].0 != order@[b].0,
            fits == (db_distinct(txs) && db_nonneg(txs) && abs_weight(txs) <= i64::MAX),
            fits ==> search_fits(exts@, txs, Seq::empty(), db_distinct(txs)),
            forall|k: int| 0 <= k < exts@.len() ==> exists|q: int| 0 <= q < i && (#[trigger] exts@[k]).item == order@[q].0,
            pos.len() == i,
            forall|q: int| 0 <= q < i && item_kept(skip_below, fits, txs, order@[q].0)
                ==> 0 <= #[trigger] pos[q] < exts@.len() && exts@[pos[q]].item == order@[q].0,
        decreases order@.len() - i,
    {
        let x = order[i].0;
        proof {
            assert(order@.contains(order@[i as int]));
            let q = choose|q: int| 0 <= q < res.ordered_items@.len() && res.ordered_items@[q] == order@[i as int];
            assert(res.twu@.contains_key(res.ordered_items@[q].0));
        }
        let body = match item_body(fts, x, Ghost(txs), Ghost(res.twu@)) {
            Ok(b) => b,
            Err(e) => {
                return Err(e);
            },
        };
        proof {
            if fits {
                lemma_list_fits(body@, txs, seq![x], txs.len() as int);
            }
        }
        let (si, sr) = match body_sums(&body) {
            Ok(v) => v,
            Err(e) => {
                return Err(e);
            },
        };
        proof {
            if fits {
                lemma_iru_bound(body@, txs);
            }
        }
        proof {
            if fits {
                lemma_body_sums_fit(body@, txs, 1);
                assert(ul_matches(body@, tid_list(txs, seq![x], txs.len() as int)));
                lemma_ul_sum(body@, tid_list(txs, seq![x], txs.len() as int));
                lemma_list_sum_is_utility(txs, seq![x], txs.len() as int);
                assert(txs.take(txs.len() as int) =~= txs);
            }
        }
        let keep = match skip_below {
            None => true,
            Some(th) => match si.checked_add(sr) {
                Some(b) => b >= th,
                None => {
                    return Err(MiningError::UtilityOverflow);
                },
            },
        };
        if keep {
            let itemset = Itemset::from_slice(&[x]);
            let len = body.len() as u32;
            let ul = UtilityList {
                itemset,
                sum_iutils: si,
                sum_rutils: sr,
                len,
                page_id: 0,
                resident: true,
                recompute: RecomputeFlag::Recomputable,
            };
            let ghost old_exts = exts@;
            let e = Ext { ul, body, item: x };
            proof {
                assert(Seq::<ItemId>::empty().push(x) =~= seq![x]);
                assert(itemset_items(&e.ul.itemset) == seq![x]);
                if db_distinct(txs) {
                    lemma_ul_sum(e.body@, tid_list(txs, seq![x], txs.len() as int));
                }
            }
            let ghost pre_exts = exts@;
            exts.push(e);
            proof {
                assert forall|q: int| 0 <= q < i && item_kept(skip_below, fits, txs, order@[q].0)
                    implies 0 <= #[trigger] pos[q] < exts@.len() && exts@[pos[q]].item == order@[q].0 by {
                    assert(exts@[pos[q]] == pre_exts[pos[q]]);
                }
                pos = pos.push(pre_exts.len() as int);
                assert forall|k: int| 0 <= k < exts@.len() implies ext_ok(&#[trigger] exts@[k], txs, Seq::empty(), db_distinct(txs)) by {
                    if k < old_exts.len() {
                        assert(exts@[k] == old_exts[k]);
                    }
                }
                assert forall|k: int| 0 <= k < exts@.len() implies exists|q: int| 0 <= q < i + 1 && (#[trigger] exts@[k]).item == order@[q].0 by {
                    if k < old_exts.len() {
                        assert(exts@[k] == old_exts[k]);
                        let q = choose|q: int| 0 <= q < i && (#[trigger] old_exts[k]).item == order@[q].0;
                    }
                }
                if fits {
                    assert forall|a: int, b: int| 0 <= a < b < exts@.len() implies exts@[a].item != exts@[b].item by {
                        if b < old_exts.len() {
                            assert(exts@[a] == old_exts[a] && exts@[b] == old_exts[b]);
                        } else {
                            assert(exts@[a] == old_exts[a]);
                            let q = choose|q: int| 0 <= q < i && (#[trigger] old_exts[a]).item == order@[q].0;
                        }
                    }
                    assert forall|k: int| 0 <= k < exts@.len() implies rut_ok((#[trigger] exts@[k]).body@, txs) by {
                        if k < old_exts.len() {
                            assert(exts@[k] == old_exts[k]);
                        }
                    }
                }
            }
        }
        proof {
            if pos.len() == i {
                pos = pos.push(-1);
            }
        }
        i = i + 1;
    }
    proof {
        assert forall|y: ItemId| #[trigger] res.twu@.contains_key(y) && item_kept(skip_below, fits, txs, y)
            implies exists|k: int| 0 <= k < exts@.len() && exts@[k].item == y by {
            let w = choose|w: int| 0 <= w < res.ordered_items@.len() && (#[trigger] res.ordered_items@[w]).0 == y;
            assert(res.ordered_items@.contains(res.ordered_items@[w]));
            assert(order@.contains(res.ordered_items@[w]));
            let q = choose|q: int| 0 <= q < order@.len() && order@[q] == res.ordered_items@[w];
            assert(order@[q].0 == y);
            assert(0 <= pos[q] < exts@.len() && exts@[pos[q]].item == y);
        }
        assert(skip_below is None ==> forall|y: ItemId| #[trigger] res.twu@.contains_key(y) ==> has_ext(exts@, y));
    }
    Ok(exts)
}

/// Whether the single-item extension of `y` is kept: always without a threshold; with
/// one, when the lists are exact and `y` alone reaches it.
pub open spec fn item_kept(skip_below: Option<Utility>, fits: bool, txs: Seq<RawTransaction>, y: ItemId) -> bool {
    match skip_below {
        None => true,
        Some(th) => fits && db_utility(txs, seq![y]) >= th,
    }
}

/// One of the extensions adds `y`.
pub open spec fn has_ext(exts: Seq<Ext>, y: ItemId) -> bool {
    exists|k: int| 0 <= k < exts.len() && exts[k].item == y
}

/// When the entries hold a list, their summed utilities are the list's.
proof fn lemma_ul_sum(v: Seq<ULEntry>, l: Seq<(u32, int)>)
    requires
        ul_matches(v, l),
    ensures
        sum_iutils(v) == list_sum(l),
    decreases v.len(),
{
    if v.len() > 0 {
        assert(ul_matches(v.drop_last(), l.drop_last()));
        lemma_ul_sum(v.drop_last(), l.drop_last());
    }
}

impl HupMiner {
    /// Whether pages of the search are to be prefetched.
    pub closed spec fn prefetch(&self) -> bool {
        self.enable_prefetch
    }

    pub fn new(enable_prefetch: bool) -> (r: Self)
        ensures
            r.prefetch() == enable_prefetch,
    {
        HupMiner { enable_prefetch }
    }

    /// Searches the transactions for high-utility itemsets: TWU filtering, one utility
    /// list per passing item, then a depth-first search joining lists, pruned by utility
    /// plus remaining utility. An extension whose own bound falls below the threshold is
    /// also left out of the lists joined further, so an itemset that needs it is not met.
    /// When no transaction holds an item twice, every reported itemset carries its exact
    /// utility, which reaches `min_utility`; when moreover the utilities are non-negative
    /// and covered by the transaction utilities, no error comes, and (with a positive
    /// threshold) every single item whose utility reaches `min_utility` is reported.
    pub fn mine(&mut self, transactions: &[RawTransaction], min_utility: Utility) -> (r: Result<Vec<Hui>, MiningError>)
        requires
            abs_weight(transactions@) <= i64::MAX,
            transactions@.len() <= u32::MAX,
        ensures
            r matches Ok(huis) ==> (db_distinct(transactions@) ==> sound_huis(transactions@, min_utility, huis@)),
            db_distinct(transactions@) && db_nonneg(transactions@) ==> r is Ok,
            r matches Ok(huis) ==> (mining_complete(transactions@, min_utility) ==> forall|y: ItemId|
                db_utility(transactions@, seq![y]) >= min_utility ==> #[trigger] reported(huis@, seq![y])),
            r matches Ok(huis) ==> (mining_complete(transactions@, min_utility) ==> forall|x: ItemId, y: ItemId|
                x != y && #[trigger] db_utility(transactions@, pair_items(x, y)) >= min_utility
                ==> reported(huis@, pair_items(x, y)) || reported(huis@, pair_items(y, x))),
    {
        proof {
            lemma_weight_twu_fits(transactions@);
        }
        let res = TwuFilter::new(min_utility).compute(transactions);
        let fts = filter_all(&res, transactions);
        let exts = match single_item_exts(&res, &fts, None, Ghost(transactions@)) {
            Ok(e) => e,
            Err(e) => {
                return Err(e);
            },
        };
        let empty: Vec<ULEntry> = Vec::new();
        let mut out: Vec<Hui> = Vec::new();
        match hup_search(&empty, &exts, min_utility, &mut out, Ghost(transactions@), Ghost(Seq::empty()), Ghost(db_distinct(transactions@))) {
            Ok(()) => {
                proof {
                    let txs = transactions@;
                    let n = txs.len() as int;
                    if mining_complete(txs, min_utility) {
                        assert forall|y: ItemId| db_utility(txs, seq![y]) >= min_utility implies #[trigger] reported(out@, seq![y]) by {
                            let c = seq![y];
                            assert(c.no_duplicates());
                            assert(c.contains(y)) by { assert(c[0] == y); }
                            lemma_owed_item_passes(txs, min_utility, c, y);
                            assert(res.twu@.contains_key(y));
                            assert(has_ext(exts@, y));
                            let k = choose|k: int| 0 <= k < exts@.len() && exts@[k].item == y;
                            assert(ext_ok(&exts@[k], txs, Seq::empty(), true));
                            assert(Seq::<ItemId>::empty().push(y) =~= c);
                            lemma_list_sum_is_utility(txs, c, n);
                            assert(txs.take(n) =~= txs);
                            assert(exts@[k].ul.sum_iutils >= min_utility);
                        }
                        assert forall|x: ItemId, y: ItemId| x != y && #[trigger] db_utility(txs, pair_items(x, y)) >= min_utility
                            implies reported(out@, pair_items(x, y)) || reported(out@, pair_items(y, x)) by {
                            let c = seq![x, y];
                            assert(c.no_duplicates());
                            assert(c.contains(x)) by { assert(c[0] == x); }
                            assert(c.contains(y)) by { assert(c[1] == y); }
                            lemma_owed_item_passes(txs, min_utility, c, x);
                            lemma_owed_item_passes(txs, min_utility, c, y);
                            assert(res.twu@.contains_key(x));
                            assert(res.twu@.contains_key(y));
                            assert(has_ext(exts@, x));
                            assert(has_ext(exts@, y));
                            let a = choose|k: int| 0 <= k < exts@.len() && exts@[k].item == x;
                            let b = choose|k: int| 0 <= k < exts@.len() && exts@[k].item == y;
                            lemma_pair_swap(txs, x, y);
                            assert(Seq::<ItemId>::empty().push(x).push(y) =~= seq![x, y]);
                            assert(Seq::<ItemId>::empty().push(y).push(x) =~= seq![y, x]);
                            if a < b {
                                assert(reported(out@, Seq::<ItemId>::empty().push(exts@[a].item).push(exts@[b].item)));
                            } else {
                                assert(a != b);
                                assert(reported(out@, Seq::<ItemId>::empty().push(exts@[b].item).push(exts@[a].item)));
                            }
                        }
                    }
                }
                Ok(out)
            },
            Err(e) => Err(e),
        }
    }
}

} // verus!
