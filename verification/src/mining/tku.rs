//! TKU: the utility-list search pruned by the pair structure, either against a fixed
//! threshold or for the `k` itemsets of highest utility, with a threshold that rises as
//! better itemsets are found.
use vstd::prelude::*;
use crate::preprocessing::twu_filter::lemma_weight_twu_fits;
use crate::types::{ItemId, Utility, RawTransaction, ItemEntry, ULEntry, UtilityList, RecomputeFlag};
use crate::preprocessing::twu_filter::{TwuFilter, FilteredTransaction, abs_weight};
use crate::storage::chunk_store::ChunkStore;
use super::exact_utility::{Hui, MiningError, db_utility, sound_huis};
use super::memory_guard::MemoryGuard;
use super::eucs::{Eucs, tx_weight, eucs_within, lemma_record_within, fold_from, same_map, lemma_fold_dom, PAIR_ENTRY_BYTES, abs_sum, db_events, tx_events, tx_items, lemma_events_mono, lemma_db_events_step, lemma_db_weight_prefix, lemma_within_folds_fit, ordered_key};
use super::ul_search::filtered_ok;
use super::utility_bounds::db_nonneg;
use crate::preprocessing::twu_filter::{kept_items, stable_sort};
use super::efim_closed::{lemma_kept_len, lemma_stable_sort_len};
use super::ul_search::{
    join_bound, lemma_rut_over_nonneg, Ext, ext_ok, prefix_ok, tids_below, join_bodies, lemma_report_sound, filter_all, single_item_exts,
    search_fits, rut_ok, lemma_list_fits, lemma_body_sums_fit, has_ext, item_kept,
};
use super::two_phase::{db_distinct, reported, mining_complete, lemma_list_sum_is_utility, tid_list};
use super::utility_bounds::lemma_owed_item_passes;
use crate::preprocessing::twu_filter::passing;
use super::ul_join::{sum_iutils, sum_rutils};

verus! {

broadcast use vstd::seq_lib::group_to_multiset_ensures;

/// Lexicographic order on item sequences: a proper prefix comes first.
pub open spec fn seq_lt(a: Seq<u32>, b: Seq<u32>) -> bool
    decreases a.len(),
{
    if a.len() == 0 {
        b.len() > 0
    } else if b.len() == 0 {
        false
    } else if a[0] != b[0] {
        a[0] < b[0]
    } else {
        seq_lt(a.drop_first(), b.drop_first())
    }
}

/// The order of the ranking: by utility, then by itemset.
pub open spec fn hui_lt(a: Hui, b: Hui) -> bool {
    a.1 < b.1 || (a.1 == b.1 && seq_lt(a.0@, b.0@))
}

/// No element of `s` ranks below `s[m]`.
pub open spec fn min_at(s: Seq<Hui>, m: int) -> bool {
    &&& 0 <= m < s.len()
    &&& forall|j: int| 0 <= j < s.len() ==> !hui_lt(#[trigger] s[j], s[m])
}

/// No element of `s` ranks above `s[m]`.
pub open spec fn max_at(s: Seq<Hui>, m: int) -> bool {
    &&& 0 <= m < s.len()
    &&& forall|j: int| 0 <= j < s.len() ==> !hui_lt(s[m], #[trigger] s[j])
}

/// Each element ranks at least as high as every later one.
pub open spec fn ranked_desc(s: Seq<Hui>) -> bool {
    forall|i: int, j: int| 0 <= i < j < s.len() ==> !hui_lt(#[trigger] s[i], #[trigger] s[j])
}

proof fn lemma_seq_lt_trans(a: Seq<u32>, b: Seq<u32>, c: Seq<u32>)
    requires
        seq_lt(a, b),
        seq_lt(b, c),
    ensures
        seq_lt(a, c),
    decreases a.len(),
{
    if a.len() > 0 && b.len() > 0 && c.len() > 0 && a[0] == b[0] && b[0] == c[0] {
        lemma_seq_lt_trans(a.drop_first(), b.drop_first(), c.drop_first());
    }
}

proof fn lemma_seq_lt_irrefl(a: Seq<u32>)
    ensures
        !seq_lt(a, a),
    decreases a.len(),
{
    if a.len() > 0 {
        lemma_seq_lt_irrefl(a.drop_first());
    }
}

proof fn lemma_hui_lt_trans(a: Hui, b: Hui, c: Hui)
    requires
        hui_lt(a, b),
        hui_lt(b, c),
    ensures
        hui_lt(a, c),
{
    if a.1 == b.1 && b.1 == c.1 {
        lemma_seq_lt_trans(a.0@, b.0@, c.0@);
    }
}

/// Two different item sequences are ordered one way or the other.
proof fn lemma_seq_lt_total(a: Seq<u32>, b: Seq<u32>)
    ensures
        a == b || seq_lt(a, b) || seq_lt(b, a),
    decreases a.len(),
{
    if a.len() > 0 && b.len() > 0 && a[0] == b[0] {
        lemma_seq_lt_total(a.drop_first(), b.drop_first());
        if a.drop_first() == b.drop_first() {
            assert(a =~= b) by {
                assert forall|i: int| 0 <= i < a.len() implies a[i] == b[i] by {
                    if i > 0 {
                        assert(a[i] == a.drop_first()[i - 1]);
                        assert(b[i] == b.drop_first()[i - 1]);
                    }
                }
            }
        }
    } else if a.len() == 0 && b.len() == 0 {
        assert(a =~= b);
    }
}

/// Two itemsets of which neither ranks below the other have the same items and utility.
proof fn lemma_hui_lt_total(a: Hui, b: Hui)
    ensures
        (a.0@ == b.0@ && a.1 == b.1) || hui_lt(a, b) || hui_lt(b, a),
{
    lemma_seq_lt_total(a.0@, b.0@);
}

/// The rankings of capacity `k` that a ranking starting empty passes through when
/// offered `offers` in turn.
pub open spec fn ranking_run(k: u64, offers: Seq<Hui>, states: Seq<Seq<Hui>>) -> bool {
    &&& states.len() == offers.len() + 1
    &&& states[0].len() == 0
    &&& forall|i: int| 0 <= i < offers.len() ==> #[trigger] offered(states[i], offers[i], k, states[i + 1])
}

/// `s` holds an itemset with the items and utility of `e`.
pub open spec fn holds_hui(s: Seq<Hui>, e: Hui) -> bool {
    exists|j: int| 0 <= j < s.len() && (#[trigger] s[j]).0@ == e.0@ && s[j].1 == e.1
}

/// After `n` offers: the ranking holds `min(k, n)` itemsets, all of them while `n` is at
/// most `k`, and every offered itemset is held or ranks no higher than each held one.
proof fn lemma_run_upto(k: u64, offers: Seq<Hui>, states: Seq<Seq<Hui>>, n: int)
    requires
        ranking_run(k, offers, states),
        0 <= n <= offers.len(),
    ensures
        states[n].len() == (if n < k { n } else { k as int }),
        n <= k ==> forall|i: int| 0 <= i < n ==> holds_hui(states[n], #[trigger] offers[i]),
        forall|i: int| 0 <= i < n ==> holds_hui(states[n], #[trigger] offers[i])
            || forall|j: int| 0 <= j < states[n].len() ==> !hui_lt(#[trigger] states[n][j], offers[i]),
    decreases n,
{
    if n > 0 {
        let p = n - 1;
        lemma_run_upto(k, offers, states, p);
        let s = states[p];
        let e = offers[p];
        let t = states[p + 1];
        let o = s.push(e);
        assert(offered(states[p], offers[p], k, states[p + 1]));
        assert(t == states[n]);
        if o.len() > k {
            let m = choose|m: int| min_at(o, m) && t == o.remove(m);
            assert(t == o.remove(m));
            assert forall|i: int| 0 <= i < n implies holds_hui(t, #[trigger] offers[i])
                || forall|j: int| 0 <= j < t.len() ==> !hui_lt(#[trigger] t[j], offers[i]) by {
                let x = offers[i];
                if i < p && holds_hui(s, x) {
                    let w = choose|w: int| 0 <= w < s.len() && (#[trigger] s[w]).0@ == x.0@ && s[w].1 == x.1;
                    assert(o[w] == s[w]);
                    if w < m {
                        assert(t[w] == o[w]);
                    } else if w > m {
                        assert(t[w - 1] == o[w]);
                    } else {
                        assert forall|j: int| 0 <= j < t.len() implies !hui_lt(#[trigger] t[j], x) by {
                            let jj = if j < m { j } else { j + 1 };
                            assert(t[j] == o[jj]);
                            assert(!hui_lt(o[jj], o[m]));
                        }
                    }
                } else if i < p {
                    assert forall|j: int| 0 <= j < t.len() implies !hui_lt(#[trigger] t[j], x) by {
                        let jj = if j < m { j } else { j + 1 };
                        assert(t[j] == o[jj]);
                        if jj < s.len() {
                            assert(o[jj] == s[jj]);
                        } else {
                            assert(o[jj] == e);
                            assert(m < s.len());
                            let c0 = o[m];
                            assert(c0 == s[m]);
                            assert(!hui_lt(c0, x));
                            assert(!hui_lt(e, c0));
                            lemma_hui_lt_total(c0, x);
                            if hui_lt(e, x) {
                                if hui_lt(x, c0) {
                                    lemma_hui_lt_trans(e, x, c0);
                                }
                            }
                        }
                    }
                } else {
                    assert(i == p && x == e);
                    if m < s.len() {
                        assert(t[s.len() - 1] == o[s.len() as int]);
                        assert(o[s.len() as int] == e);
                    } else {
                        assert forall|j: int| 0 <= j < t.len() implies !hui_lt(#[trigger] t[j], x) by {
                            assert(t[j] == o[j]);
                            assert(!hui_lt(o[j], o[m]));
                        }
                    }
                }
            }
        } else {
            assert(t == o);
            assert forall|i: int| 0 <= i < n implies holds_hui(t, #[trigger] offers[i]) by {
                if i < p {
                    let x = offers[i];
                    assert(holds_hui(s, x));
                    let w = choose|w: int| 0 <= w < s.len() && (#[trigger] s[w]).0@ == x.0@ && s[w].1 == x.1;
                    assert(t[w] == s[w]);
                } else {
                    assert(t[p] == e);
                }
            }
        }
    }
}

/// Law: a ranking of capacity `k` that starts empty and is offered `offers` in turn keeps
/// `min(k, n)` of the `n` itemsets offered, and every offered itemset is either kept or
/// ranks no higher than each kept one: the ranking ends with `k` best of them.
pub proof fn lemma_ranking_keeps_best(k: u64, offers: Seq<Hui>, states: Seq<Seq<Hui>>)
    requires
        ranking_run(k, offers, states),
    ensures
        states.last().len() == (if offers.len() < k { offers.len() as int } else { k as int }),
        forall|i: int| 0 <= i < offers.len() ==> holds_hui(states.last(), #[trigger] offers[i])
            || forall|j: int| 0 <= j < states.last().len() ==> !hui_lt(#[trigger] states.last()[j], offers[i]),
{
    lemma_run_upto(k, offers, states, offers.len() as int);
    assert(states.last() == states[offers.len() as int]);
}

/// The thresholds a ranking passes through along a run: zero at first, then after each
/// offer as `next_threshold` gives it.
pub open spec fn threshold_run(k: u64, offers: Seq<Hui>, states: Seq<Seq<Hui>>, thresholds: Seq<Utility>) -> bool {
    &&& ranking_run(k, offers, states)
    &&& thresholds.len() == states.len()
    &&& thresholds[0] == 0
    &&& forall|i: int| 0 <= i < offers.len() ==> #[trigger] next_threshold(thresholds[i], states[i + 1], k, thresholds[i + 1])
}

/// `u` is the lowest utility in `s`.
pub open spec fn lowest_utility(s: Seq<Hui>, u: int) -> bool {
    &&& exists|j: int| 0 <= j < s.len() && (#[trigger] s[j]).1 == u
    &&& forall|j: int| 0 <= j < s.len() ==> (#[trigger] s[j]).1 >= u
}

/// After `n` offers the threshold is zero until `k` itemsets are kept, and then the
/// lowest kept utility, or zero if that is negative; it never falls.
proof fn lemma_threshold_upto(k: u64, offers: Seq<Hui>, states: Seq<Seq<Hui>>, thresholds: Seq<Utility>, n: int)
    requires
        threshold_run(k, offers, states, thresholds),
        0 <= n <= offers.len(),
    ensures
        k == 0 || n < k ==> thresholds[n] == 0,
        k > 0 && n >= k ==> exists|u: int| lowest_utility(states[n], u) && thresholds[n] == (if u > 0 { u } else { 0 }),
        forall|i: int| 0 <= i <= n ==> #[trigger] thresholds[i] <= thresholds[n],
    decreases n,
{
    if n > 0 {
        let p = n - 1;
        lemma_threshold_upto(k, offers, states, thresholds, p);
        lemma_run_upto(k, offers, states, p);
        lemma_run_upto(k, offers, states, n);
        assert(next_threshold(thresholds[p], states[p + 1], k, thresholds[p + 1]));
        assert(offered(states[p], offers[p], k, states[p + 1]));
        let s = states[p];
        let e = offers[p];
        let t = states[n];
        assert(t == states[p + 1]);
        if k > 0 && t.len() == k {
            let m2 = choose|m2: int| min_at(t, m2) && thresholds[n] == (if t[m2].1 > thresholds[p] { t[m2].1 } else { thresholds[p] });
            let lo: int = t[m2].1 as int;
            assert forall|j: int| 0 <= j < t.len() implies (#[trigger] t[j]).1 >= lo by {
                assert(!hui_lt(t[j], t[m2]));
            }
            assert(lowest_utility(t, lo));
            if p >= k {
                let lo0 = choose|u: int| lowest_utility(s, u) && thresholds[p] == (if u > 0 { u } else { 0 });
                let o = s.push(e);
                let m = choose|m: int| min_at(o, m) && t == o.remove(m);
                let j2 = if m2 < m { m2 } else { m2 + 1 };
                assert(t[m2] == o[j2]);
                if j2 < s.len() {
                    assert(o[j2] == s[j2]);
                } else {
                    assert(o[j2] == e);
                    assert(m < s.len());
                    assert(o[m] == s[m]);
                    assert(!hui_lt(o[j2], o[m]));
                }
                assert(lo >= lo0);
            }
        }
    }
}

/// Law: along a run of offers, the threshold never falls; it stays zero until `k`
/// itemsets are kept, and is then the lowest kept utility, or zero if that is negative.
pub proof fn lemma_ranking_threshold(k: u64, offers: Seq<Hui>, states: Seq<Seq<Hui>>, thresholds: Seq<Utility>)
    requires
        threshold_run(k, offers, states, thresholds),
    ensures
        forall|i: int, j: int| 0 <= i <= j < thresholds.len() ==> #[trigger] thresholds[i] <= #[trigger] thresholds[j],
        k == 0 || offers.len() < k ==> thresholds.last() == 0,
        k > 0 && offers.len() >= k ==> exists|u: int|
            lowest_utility(states.last(), u) && thresholds.last() == (if u > 0 { u } else { 0 }),
{
    assert forall|i: int, j: int| 0 <= i <= j < thresholds.len() implies #[trigger] thresholds[i] <= #[trigger] thresholds[j] by {
        lemma_threshold_upto(k, offers, states, thresholds, j);
    }
    lemma_threshold_upto(k, offers, states, thresholds, offers.len() as int);
    assert(states.last() == states[offers.len() as int]);
    assert(thresholds.last() == thresholds[offers.len() as int]);
}

/// Whether `a` comes before `b` lexicographically.
fn seq_less(a: &Vec<u32>, b: &Vec<u32>) -> (r: bool)
    ensures
        r == seq_lt(a@, b@),
{
    let mut i: usize = 0;
    proof {
        assert(a@.skip(0) =~= a@);
        assert(b@.skip(0) =~= b@);
    }
    while i < a.len() && i < b.len()
        invariant
            i <= a@.len(),
            i <= b@.len(),
            seq_lt(a@, b@) == seq_lt(a@.skip(i as int), b@.skip(i as int)),
        decreases a@.len() - i,
    {
        proof {
            assert(a@.skip(i as int)[0] == a@[i as int]);
            assert(b@.skip(i as int)[0] == b@[i as int]);
        }
        if a[i] != b[i] {
            return a[i] < b[i];
        }
        proof {
            assert(a@.skip(i as int).drop_first() =~= a@.skip(i + 1));
            assert(b@.skip(i as int).drop_first() =~= b@.skip(i + 1));
        }
        i += 1;
    }
    i == a.len() && i < b.len()
}

/// Whether `a` ranks below `b`.
fn hui_less(a: &Hui, b: &Hui) -> (r: bool)
    ensures
        r == hui_lt(*a, *b),
{
    if a.1 != b.1 {
        a.1 < b.1
    } else {
        seq_less(&a.0, &b.0)
    }
}

/// The position of a lowest-ranked element.
fn min_index(s: &Vec<Hui>) -> (m: usize)
    requires
        s@.len() > 0,
    ensures
        min_at(s@, m as int),
{
    let mut m: usize = 0;
    let mut i: usize = 1;
    proof {
        lemma_seq_lt_irrefl(s@[0].0@);
    }
    while i < s.len()
        invariant
            1 <= i <= s@.len(),
            m < i,
            forall|j: int| 0 <= j < i ==> !hui_lt(#[trigger] s@[j], s@[m as int]),
        decreases s@.len() - i,
    {
        if hui_less(&s[i], &s[m]) {
            proof {
                assert forall|j: int| 0 <= j < i + 1 implies !hui_lt(#[trigger] s@[j], s@[i as int]) by {
                    if j < i && hui_lt(s@[j], s@[i as int]) {
                        lemma_hui_lt_trans(s@[j], s@[i as int], s@[m as int]);
                    }
                    if j == i {
                        lemma_seq_lt_irrefl(s@[j].0@);
                    }
                }
            }
            m = i;
        }
        i += 1;
    }
    m
}

/// The position of a highest-ranked element.
fn max_index(s: &Vec<Hui>) -> (m: usize)
    requires
        s@.len() > 0,
    ensures
        max_at(s@, m as int),
{
    let mut m: usize = 0;
    let mut i: usize = 1;
    proof {
        lemma_seq_lt_irrefl(s@[0].0@);
    }
    while i < s.len()
        invariant
            1 <= i <= s@.len(),
            m < i,
            forall|j: int| 0 <= j < i ==> !hui_lt(s@[m as int], #[trigger] s@[j]),
        decreases s@.len() - i,
    {
        if hui_less(&s[m], &s[i]) {
            proof {
                assert forall|j: int| 0 <= j < i + 1 implies !hui_lt(s@[i as int], #[trigger] s@[j]) by {
                    if j < i && hui_lt(s@[i as int], s@[j]) {
                        lemma_hui_lt_trans(s@[m as int], s@[i as int], s@[j]);
                    }
                    if j == i {
                        lemma_seq_lt_irrefl(s@[j].0@);
                    }
                }
            }
            m = i;
        }
        i += 1;
    }
    m
}

/// The ranking after offering `e`: it joins the kept itemsets, and if they then number
/// more than `k`, one of the lowest-ranked leaves.
pub open spec fn offered(kept: Seq<Hui>, e: Hui, k: u64, next: Seq<Hui>) -> bool {
    let o = kept.push(e);
    if o.len() > k {
        exists|m: int| min_at(o, m) && next == o.remove(m)
    } else {
        next == o
    }
}

/// The threshold after an offer: once `k` itemsets are kept, it rises to the utility of
/// the lowest-ranked one if that is higher.
pub open spec fn next_threshold(threshold: Utility, next: Seq<Hui>, k: u64, t: Utility) -> bool {
    if k > 0 && next.len() == k {
        exists|m: int| min_at(next, m) && t == (if next[m].1 > threshold { next[m].1 } else { threshold })
    } else {
        t == threshold
    }
}

/// A ranking of capacity `k` with threshold `thr` accounts for an itemset with items `c`
/// and utility `u`: it holds one, or it is full and `u` is at most its threshold.
pub open spec fn covers(heap: Seq<Hui>, k: u64, thr: Utility, c: Seq<ItemId>, u: int) -> bool {
    ||| exists|j: int| 0 <= j < heap.len() && (#[trigger] heap[j]).0@ == c && heap[j].1 == u
    ||| heap.len() == k && (k == 0 || u <= thr)
}

/// An offer of `e`, at or above the threshold, keeps every held utility at or above the
/// threshold, never lowers it, accounts for `e`, and keeps accounting for what was.
proof fn lemma_offer_covers(kept: Seq<Hui>, e: Hui, k: u64, next: Seq<Hui>, thr: Utility, t: Utility)
    requires
        offered(kept, e, k, next),
        next_threshold(thr, next, k, t),
        kept.len() <= k,
        thr >= 0,
        kept.len() < k ==> thr == 0,
        forall|j: int| 0 <= j < kept.len() ==> #[trigger] kept[j].1 >= thr,
        e.1 >= thr,
    ensures
        t >= thr,
        forall|j: int| 0 <= j < next.len() ==> #[trigger] next[j].1 >= t,
        covers(next, k, t, e.0@, e.1 as int),
        forall|c: Seq<ItemId>, u: int| #[trigger] covers(kept, k, thr, c, u) ==> covers(next, k, t, c, u),
{
    let o = kept.push(e);
    assert forall|j: int| 0 <= j < o.len() implies #[trigger] o[j].1 >= thr by {
        if j < kept.len() {
            assert(o[j] == kept[j]);
        }
    }
    if o.len() > k {
        let m = choose|m: int| min_at(o, m) && next == o.remove(m);
        assert(next.len() == k);
        assert forall|j: int| 0 <= j < next.len() implies #[trigger] next[j] == o[if j < m { j } else { j + 1 }] by {}
        if k > 0 {
            let m2 = choose|m2: int| min_at(next, m2) && t == (if next[m2].1 > thr { next[m2].1 } else { thr });
            let j2 = if m2 < m { m2 } else { m2 + 1 };
            assert(next[m2] == o[j2]);
            assert(next[m2].1 >= thr);
            assert(t == next[m2].1);
            assert forall|j: int| 0 <= j < next.len() implies #[trigger] next[j].1 >= t by {
                assert(!hui_lt(next[j], next[m2]));
            }
            assert(!hui_lt(o[j2], o[m]));
            assert(o[m].1 <= t);
            if m < kept.len() {
                assert(next[kept.len() - 1] == o[kept.len() as int]);
                assert(o[kept.len() as int] == e);
            } else {
                assert(o[m] == e);
            }
            assert forall|c: Seq<ItemId>, u: int| #[trigger] covers(kept, k, thr, c, u) implies covers(next, k, t, c, u) by {
                if exists|j: int| 0 <= j < kept.len() && (#[trigger] kept[j]).0@ == c && kept[j].1 == u {
                    let w = choose|w: int| 0 <= w < kept.len() && (#[trigger] kept[w]).0@ == c && kept[w].1 == u;
                    assert(o[w] == kept[w]);
                    if w < m {
                        assert(next[w] == o[w]);
                    } else if w > m {
                        assert(next[w - 1] == o[w]);
                    }
                }
            }
        } else {
            assert(t == thr);
        }
    } else {
        assert(next == o);
        assert(kept.len() < k);
        assert(next[kept.len() as int] == e);
        if k > 0 && next.len() == k {
            let m2 = choose|m2: int| min_at(next, m2) && t == (if next[m2].1 > thr { next[m2].1 } else { thr });
            assert(next[m2].1 >= thr);
            assert forall|j: int| 0 <= j < next.len() implies #[trigger] next[j].1 >= t by {
                assert(!hui_lt(next[j], next[m2]));
            }
        } else {
            assert(t == thr);
        }
        assert forall|c: Seq<ItemId>, u: int| #[trigger] covers(kept, k, thr, c, u) implies covers(next, k, t, c, u) by {
            if exists|j: int| 0 <= j < kept.len() && (#[trigger] kept[j]).0@ == c && kept[j].1 == u {
                let w = choose|w: int| 0 <= w < kept.len() && (#[trigger] kept[w]).0@ == c && kept[w].1 == u;
                assert(next[w] == kept[w]);
            }
        }
    }
}

/// The itemsets of highest utility found so far, at most `k` of them, and the threshold
/// that an itemset's utility must reach to be offered.
struct TkuState {
    heap: Vec<Hui>,
    threshold: Utility,
    k: u64,
}

impl TkuState {
    spec fn wf(&self) -> bool {
        &&& self.heap@.len() <= self.k
        &&& self.threshold >= 0
        &&& self.heap@.len() < self.k ==> self.threshold == 0
    }

    /// Every kept itemset's utility is at least the threshold: so it stays while every
    /// itemset offered reaches the threshold.
    spec fn floor_ok(&self) -> bool {
        forall|j: int| 0 <= j < self.heap@.len() ==> #[trigger] self.heap@[j].1 >= self.threshold
    }

    fn new(k: u64) -> (r: Self)
        ensures
            r.wf(),
            r.floor_ok(),
            r.heap@.len() == 0,
            r.threshold == 0,
            r.k == k,
    {
        TkuState { heap: Vec::new(), threshold: 0, k }
    }

    /// Offers an itemset with its utility and returns the threshold after the offer.
    fn update(&mut self, utility: Utility, itemset: Vec<ItemId>) -> (r: Utility)
        requires
            old(self).wf(),
        ensures
            final(self).threshold >= old(self).threshold,
            old(self).floor_ok() && utility >= old(self).threshold ==> {
                &&& final(self).floor_ok()
                &&& covers(final(self).heap@, final(self).k, final(self).threshold, itemset@, utility as int)
                &&& forall|c: Seq<ItemId>, u: int| #[trigger] covers(old(self).heap@, old(self).k, old(self).threshold, c, u)
                    ==> covers(final(self).heap@, final(self).k, final(self).threshold, c, u)
            },
            final(self).wf(),
            final(self).k == old(self).k,
            offered(old(self).heap@, (itemset, utility), old(self).k, final(self).heap@),
            next_threshold(old(self).threshold, final(self).heap@, old(self).k, final(self).threshold),
            r == final(self).threshold,
            final(self).heap@.len() >= old(self).heap@.len(),
            final(self).heap@.len() < old(self).k ==> final(self).heap@ == old(self).heap@.push((itemset, utility)),
    {
        let ghost o = self.heap@.push((itemset, utility));
        let ghost kept0 = self.heap@;
        let ghost thr0 = self.threshold;
        let ghost e: Hui = (itemset, utility);
        self.heap.push((itemset, utility));
        if self.heap.len() as u64 > self.k {
            let m = min_index(&self.heap);
            let _ = self.heap.remove(m);
            proof {
                assert(min_at(o, m as int));
            }
        }
        if self.k > 0 && self.heap.len() as u64 == self.k {
            let m = min_index(&self.heap);
            let lowest = self.heap[m].1;
            if lowest > self.threshold {
                self.threshold = lowest;
            }
            proof {
                assert(min_at(self.heap@, m as int));
            }
        }
        proof {
            if old(self).floor_ok() && utility >= thr0 {
                lemma_offer_covers(kept0, e, self.k, self.heap@, thr0, self.threshold);
            }
        }
        self.threshold
    }

    /// The current threshold.
    fn get(&self) -> (r: Utility)
        ensures
            r == self.threshold,
    {
        self.threshold
    }

    /// The kept itemsets, highest-ranked first.
    fn into_ranked(self) -> (r: Vec<Hui>)
        ensures
            r@.to_multiset() == self.heap@.to_multiset(),
            ranked_desc(r@),
            r@.len() == self.heap@.len(),
            forall|i: int| 0 <= i < r@.len() ==> self.heap@.contains(#[trigger] r@[i]),
    {
        let ghost all = self.heap@;
        let mut rest = self.heap;
        let mut out: Vec<Hui> = Vec::new();
        proof {
            assert(out@.to_multiset().add(rest@.to_multiset()) =~= all.to_multiset());
            assert forall|j: int| 0 <= j < rest@.len() implies all.contains(#[trigger] rest@[j]) by {
                assert(all[j] == rest@[j]);
            }
        }
        while rest.len() > 0
            invariant
                out@.to_multiset().add(rest@.to_multiset()) == all.to_multiset(),
                ranked_desc(out@),
                forall|i: int, j: int| 0 <= i < out@.len() && 0 <= j < rest@.len()
                    ==> !hui_lt(#[trigger] out@[i], #[trigger] rest@[j]),
                out@.len() + rest@.len() == all.len(),
                forall|i: int| 0 <= i < out@.len() ==> all.contains(#[trigger] out@[i]),
                forall|j: int| 0 <= j < rest@.len() ==> all.contains(#[trigger] rest@[j]),
            decreases rest@.len(),
        {
            let m = max_index(&rest);
            let ghost r0 = rest@;
            let ghost o0 = out@;
            let e = rest.remove(m);
            out.push(e);
            proof {
                assert(rest@ == r0.remove(m as int));
                assert(out@ == o0.push(e));
                assert(r0.to_multiset().count(e) > 0);
                assert(out@.to_multiset().add(rest@.to_multiset()) =~= o0.to_multiset().add(r0.to_multiset()));
                assert forall|i: int, j: int| 0 <= i < j < out@.len() implies !hui_lt(#[trigger] out@[i], #[trigger] out@[j]) by {
                    if j == out@.len() - 1 {
                        assert(out@[j] == r0[m as int]);
                    } else {
                        assert(out@[i] == o0[i] && out@[j] == o0[j]);
                    }
                }
                assert(all.contains(r0[m as int]));
                assert forall|i: int| 0 <= i < out@.len() implies all.contains(#[trigger] out@[i]) by {
                    if i < o0.len() {
                        assert(out@[i] == o0[i]);
                    }
                }
                assert forall|j: int| 0 <= j < rest@.len() implies all.contains(#[trigger] rest@[j]) by {
                    let jj = if j < m { j } else { j + 1 };
                    assert(rest@[j] == r0[jj]);
                }
                assert forall|i: int, j: int| 0 <= i < out@.len() && 0 <= j < rest@.len()
                    implies !hui_lt(#[trigger] out@[i], #[trigger] rest@[j]) by {
                    let jj = if j < m { j } else { j + 1 };
                    assert(rest@[j] == r0[jj]);
                    if i < o0.len() {
                        assert(out@[i] == o0[i]);
                    }
                }
            }
        }
        out
    }
}

/// Whether the ranking state fits the mode: absent for a fixed threshold; for top-k,
/// well formed, ranking `k` itemsets, and when lists are exact holding exact utilities.
/// The ranking only grows, and while it holds fewer than `k` itemsets it has let none go.
spec fn top_grows(a: Option<TkuState>, b: Option<TkuState>) -> bool {
    match (a, b) {
        (Some(x), Some(y)) => {
            &&& y.k == x.k
            &&& y.heap@.len() >= x.heap@.len()
            &&& y.heap@.len() < y.k ==> forall|c: Seq<ItemId>| #[trigger] reported(x.heap@, c) ==> reported(y.heap@, c)
            &&& forall|c: Seq<ItemId>, u: int| #[trigger] covers(x.heap@, x.k, x.threshold, c, u)
                ==> covers(y.heap@, y.k, y.threshold, c, u)
        },
        (None, None) => true,
        _ => false,
    }
}

/// The ranking holds fewer than `k` itemsets.
spec fn top_open(t: Option<TkuState>) -> bool {
    match t {
        Some(s) => s.heap@.len() < s.k,
        None => false,
    }
}

/// The ranking accounts for an itemset with items `c` and utility `u` (see `covers`).
spec fn top_covers(t: Option<TkuState>, c: Seq<ItemId>, u: int) -> bool {
    match t {
        Some(s) => covers(s.heap@, s.k, s.threshold, c, u),
        None => false,
    }
}

/// The ranking holds an itemset with the items `c`.
spec fn top_has(t: Option<TkuState>, c: Seq<ItemId>) -> bool {
    match t {
        Some(s) => reported(s.heap@, c),
        None => false,
    }
}

proof fn lemma_grows_trans(a: Option<TkuState>, b: Option<TkuState>, c: Option<TkuState>)
    requires
        top_grows(a, b),
        top_grows(b, c),
    ensures
        top_grows(a, c),
        top_open(c) ==> top_open(b),
{
}

proof fn lemma_rutils_nonneg(v: Seq<ULEntry>, txs: Seq<RawTransaction>)
    requires
        rut_ok(v, txs),
    ensures
        sum_rutils(v) >= 0,
    decreases v.len(),
{
    if v.len() > 0 {
        let d = v.drop_last();
        assert forall|k: int| 0 <= k < d.len() implies 0 <= (#[trigger] d[k]).rutils <= txs[d[k].tid as int].transaction_utility by {
            assert(d[k] == v[k]);
        }
        lemma_rutils_nonneg(d, txs);
        assert(v[v.len() - 1] == v.last());
    }
}

/// In a database without repeated items and with non-negative covered utilities, the
/// single-item extension of `y` carries the utility of `y` and a non-negative remaining
/// utility.
proof fn lemma_single_ext(txs: Seq<RawTransaction>, exts: Seq<Ext>, y: ItemId) -> (q: int)
    requires
        has_ext(exts, y),
        forall|k: int| 0 <= k < exts.len() ==> ext_ok(&#[trigger] exts[k], txs, Seq::empty(), db_distinct(txs)),
        search_fits(exts, txs, Seq::empty(), db_distinct(txs)),
    ensures
        0 <= q < exts.len(),
        exts[q].item == y,
        exts[q].ul.sum_iutils == db_utility(txs, seq![y]),
        exts[q].ul.sum_rutils >= 0,
{
    let q = choose|k: int| 0 <= k < exts.len() && exts[k].item == y;
    assert(ext_ok(&exts[q], txs, Seq::empty(), db_distinct(txs)));
    assert(Seq::<ItemId>::empty().push(y) =~= seq![y]);
    lemma_list_sum_is_utility(txs, seq![y], txs.len() as int);
    assert(txs.take(txs.len() as int) =~= txs);
    assert(rut_ok(exts[q].body@, txs));
    lemma_rutils_nonneg(exts[q].body@, txs);
    q
}

spec fn top_ok(top: Option<TkuState>, k: Option<u64>, txs: Seq<RawTransaction>, exact_lists: bool) -> bool {
    match top {
        None => k is None,
        Some(s) => k == Some(s.k) && s.wf() && s.floor_ok() && (exact_lists ==> sound_huis(txs, 0, s.heap@)),
    }
}

/// An offer keeps the ranking's utilities exact and non-negative.
proof fn lemma_offer_sound(kept: Seq<Hui>, e: Hui, k: u64, next: Seq<Hui>, txs: Seq<RawTransaction>)
    requires
        sound_huis(txs, 0, kept),
        e.1 == db_utility(txs, e.0@),
        e.1 >= 0,
        offered(kept, e, k, next),
    ensures
        sound_huis(txs, 0, next),
{
    let o = kept.push(e);
    assert forall|q: int| 0 <= q < o.len() implies {
        &&& (#[trigger] o[q]).1 == db_utility(txs, o[q].0@)
        &&& o[q].1 >= 0
    } by {
        if q < kept.len() {
            assert(o[q] == kept[q]);
        }
    }
    if o.len() > k {
        let m = choose|m: int| min_at(o, m) && next == o.remove(m);
        assert forall|q: int| 0 <= q < next.len() implies {
            &&& (#[trigger] next[q]).1 == db_utility(txs, next[q].0@)
            &&& next[q].1 >= 0
        } by {
            let qq = if q < m { q } else { q + 1 };
            assert(next[q] == o[qq]);
        }
    }
}

/// The item ids of the entries, in order.
pub(crate) fn entry_items(entries: &Vec<ItemEntry>) -> (r: Vec<ItemId>)
    ensures
        r@ == entries@.map_values(|e: ItemEntry| e.item),
{
    let mut items: Vec<ItemId> = Vec::new();
    let mut q: usize = 0;
    while q < entries.len()
        invariant
            q <= entries@.len(),
            items@ == entries@.take(q as int).map_values(|e: ItemEntry| e.item),
        decreases entries@.len() - q,
    {
        items.push(entries[q].item);
        q += 1;
        proof {
            assert(items@ =~= entries@.take(q as int).map_values(|e: ItemEntry| e.item));
        }
    }
    proof {
        assert(entries@.take(q as int) =~= entries@);
    }
    items
}

/// The pair updates of a filtered transaction (none where nothing was left).
pub open spec fn ft_events(f: Option<FilteredTransaction>) -> Seq<(u64, i64)> {
    match f {
        Some(ft) => tx_events(ft.items@.map_values(|e: ItemEntry| e.item), ft.transaction_utility),
        None => Seq::empty(),
    }
}

/// The pair sums after applying, for each transaction in order, the first `ns[t]` of
/// its updates.
pub open spec fn fold_prefixes(fts: Seq<Option<FilteredTransaction>>, ns: Seq<int>) -> Map<u64, int>
    decreases fts.len(),
{
    if fts.len() == 0 || ns.len() != fts.len() {
        Map::empty()
    } else {
        fold_from(fold_prefixes(fts.drop_last(), ns.drop_last()), ft_events(fts.last()).take(ns.last()))
    }
}

/// `m` holds, for each transaction, a prefix (`ns[t]` long) of its updates.
pub open spec fn applied_prefixes(fts: Seq<Option<FilteredTransaction>>, ns: Seq<int>, m: Map<u64, i64>) -> bool {
    &&& ns.len() == fts.len()
    &&& forall|t: int| 0 <= t < ns.len() ==> 0 <= #[trigger] ns[t] <= ft_events(fts[t]).len()
    &&& same_map(m, fold_prefixes(fts, ns))
}

/// `m` holds, for each transaction, a prefix of its updates, and all of them unless the
/// guard (at `used` of `budget` bytes) can take no further pair; `complete` says whether
/// every update was applied.
pub open spec fn pairs_added(fts: Seq<Option<FilteredTransaction>>, m: Map<u64, i64>, complete: bool, used: usize, budget: usize) -> bool {
    exists|ns: Seq<int>| {
        &&& #[trigger] applied_prefixes(fts, ns, m)
        &&& forall|t: int| 0 <= t < ns.len() && ns[t] < ft_events(fts[t]).len() ==> used + PAIR_ENTRY_BYTES > budget
        &&& complete <==> forall|t: int| 0 <= t < ns.len() ==> ns[t] == ft_events(fts[t]).len()
    }
}

/// The pair structure over the filtered transactions, in order, each added as
/// `Eucs::add_transaction` adds it: a refused reservation leaves the rest of that
/// transaction's pairs out and marks the structure incomplete, and the next transaction
/// is still added. Fails when the
/// recorded sums could leave the range of `i64`; never when the pair updates of all
/// transactions weigh at most `i64::MAX`.
fn pair_bounds<S: ChunkStore>(
    fts: &Vec<Option<FilteredTransaction>>,
    guard: &mut MemoryGuard<S>,
    Ghost(txs): Ghost<Seq<RawTransaction>>,
    Ghost(m): Ghost<Map<ItemId, Utility>>,
) -> (r: Result<Eucs, MiningError>)
    requires
        filtered_ok(txs, fts@, m),
    ensures
        final(guard).budget_view() == old(guard).budget_view(),
        abs_sum(db_events(txs)) <= i64::MAX ==> r is Ok,
        r matches Ok(e) ==> pairs_added(fts@, e@, e.complete(), final(guard).used_view(), final(guard).budget_view()),
{
    let ghost small = abs_sum(db_events(txs)) <= i64::MAX;
    let mut eucs = Eucs::new();
    let mut spent: u128 = 0;
    let mut t: usize = 0;
    let ghost mut ns: Seq<int> = Seq::empty();
    proof {
        assert(txs.take(0) =~= Seq::<RawTransaction>::empty());
        assert(eucs@.dom() =~= Map::<u64, int>::empty().dom());
    }
    while t < fts.len()
        invariant
            t <= fts@.len(),
            spent <= i64::MAX,
            eucs_within(eucs@, spent as int),
            guard.budget_view() == old(guard).budget_view(),
            filtered_ok(txs, fts@, m),
            small == (abs_sum(db_events(txs)) <= i64::MAX),
            small ==> spent <= abs_sum(db_events(txs.take(t as int))),
            applied_prefixes(fts@.take(t as int), ns, eucs@),
            forall|q: int| 0 <= q < ns.len() && ns[q] < ft_events(fts@[q]).len()
                ==> guard.used_view() + PAIR_ENTRY_BYTES > guard.budget_view(),
            eucs.complete() <==> forall|q: int| 0 <= q < ns.len() ==> #[trigger] ns[q] == ft_events(fts@[q]).len(),
        decreases fts@.len() - t,
    {
        let ghost pre_fts = fts@.take(t as int);
        let ghost post_fts = fts@.take(t + 1);
        let ghost used0 = guard.used_view();
        let ghost m0 = eucs@.map_values(|v: i64| v as int);
        proof {
            assert(post_fts.drop_last() =~= pre_fts);
            assert(post_fts.last() == fts@[t as int]);
            assert(m0 =~= fold_prefixes(pre_fts, ns));
        }
        proof {
            lemma_db_events_step(txs, t as int);
            lemma_db_weight_prefix(txs, t + 1);
        }
        match &fts[t] {
            Some(ft) => {
                let items = entry_items(&ft.items);
                let tu = ft.transaction_utility;
                proof {
                    assert(fts@[t as int] == Some(*ft));
                    lemma_kept_len(txs[t as int].items@, m);
                    lemma_stable_sort_len(kept_items(txs[t as int].items@, m), m);
                    lemma_events_mono(items@, tx_items(txs[t as int]), tu);
                }
                let w = match tx_weight(items.as_slice(), tu) {
                    Some(w) => w,
                    None => {
                        return Err(MiningError::UtilityOverflow);
                    },
                };
                if w > 0x7fff_ffff_ffff_ffffu128 - spent {
                    return Err(MiningError::UtilityOverflow);
                }
                let ghost before = eucs@;
                proof {
                    assert(before.map_values(|v: i64| v as int).dom() =~= before.dom());
                    lemma_within_folds_fit(before.map_values(|v: i64| v as int), tx_events(items@, tu));
                }
                let ok = eucs.add_transaction(items.as_slice(), tu, guard);
                proof {
                    lemma_record_within(before, before.map_values(|v: i64| v as int), eucs@, items@, tu, spent as int);
                    let ev = tx_events(items@, tu);
                    assert(ft_events(fts@[t as int]) == ev);
                    let n = choose|n: int| {
                        &&& 0 <= n <= ev.len()
                        &&& same_map(eucs@, #[trigger] fold_from(m0, ev.take(n)))
                        &&& (ok <==> n == ev.len())
                        &&& guard.used_view() == used0 + PAIR_ENTRY_BYTES * (eucs@.dom().len() - before.dom().len())
                        &&& n < ev.len() ==> !fold_from(m0, ev.take(n)).contains_key(ev[n].0)
                            && guard.used_view() + PAIR_ENTRY_BYTES > guard.budget_view()
                    };
                    lemma_fold_dom(m0, ev.take(n));
                    assert(m0.dom() =~= before.dom());
                    vstd::set_lib::lemma_len_subset(before.dom(), eucs@.dom());
                    let ns2 = ns.push(n);
                    assert(ns2.drop_last() =~= ns);
                    assert(fold_prefixes(post_fts, ns2) == fold_from(fold_prefixes(pre_fts, ns), ev.take(n)));
                    assert forall|q: int| 0 <= q < ns2.len() implies 0 <= #[trigger] ns2[q] <= ft_events(post_fts[q]).len() by {
                        if q < ns.len() {
                            assert(ns2[q] == ns[q]);
                            assert(post_fts[q] == pre_fts[q]);
                        }
                    }
                    assert forall|q: int| 0 <= q < ns2.len() && ns2[q] < ft_events(fts@[q]).len()
                        implies guard.used_view() + PAIR_ENTRY_BYTES > guard.budget_view() by {
                        if q < ns.len() {
                            assert(ns2[q] == ns[q]);
                        }
                    }
                    assert((forall|q: int| 0 <= q < ns2.len() ==> #[trigger] ns2[q] == ft_events(fts@[q]).len())
                        <==> ((forall|q: int| 0 <= q < ns.len() ==> #[trigger] ns[q] == ft_events(fts@[q]).len())
                            && ns2[ns.len() as int] == ft_events(fts@[ns.len() as int]).len())) by {
                        assert forall|q: int| 0 <= q < ns.len() implies #[trigger] ns2[q] == ns[q] by {}
                    }
                    ns = ns2;
                }
                spent = spent + w;
            },
            None => {
                proof {
                    let ns2 = ns.push(0);
                    assert(ns2.drop_last() =~= ns);
                    assert(ft_events(fts@[t as int]) == Seq::<(u64, i64)>::empty());
                    assert(ft_events(post_fts.last()).take(0) =~= Seq::<(u64, i64)>::empty());
                    assert(fold_prefixes(post_fts, ns2) == fold_prefixes(pre_fts, ns));
                    assert forall|q: int| 0 <= q < ns2.len() implies 0 <= #[trigger] ns2[q] <= ft_events(post_fts[q]).len() by {
                        if q < ns.len() {
                            assert(ns2[q] == ns[q]);
                            assert(post_fts[q] == pre_fts[q]);
                        }
                    }
                    assert forall|q: int| 0 <= q < ns2.len() && ns2[q] < ft_events(fts@[q]).len()
                        implies guard.used_view() + PAIR_ENTRY_BYTES > guard.budget_view() by {
                        if q < ns.len() {
                            assert(ns2[q] == ns[q]);
                        }
                    }
                    assert((forall|q: int| 0 <= q < ns2.len() ==> #[trigger] ns2[q] == ft_events(fts@[q]).len())
                        <==> ((forall|q: int| 0 <= q < ns.len() ==> #[trigger] ns[q] == ft_events(fts@[q]).len())
                            && ns2[ns.len() as int] == ft_events(fts@[ns.len() as int]).len())) by {
                        assert forall|q: int| 0 <= q < ns.len() implies #[trigger] ns2[q] == ns[q] by {}
                    }
                    ns = ns2;
                }
            },
        }
        t += 1;
    }
    proof {
        assert(fts@.take(t as int) =~= fts@);
        assert(applied_prefixes(fts@, ns, eucs@));
        assert(pairs_added(fts@, eucs@, eucs.complete(), guard.used_view(), guard.budget_view()));
    }
    Ok(eucs)
}

/// Whether the pair structure prunes the join of `x` and `y` at `min_utility`: only once
/// complete, when the pair's recorded TWU (zero if unrecorded) falls below it.
pub open spec fn eucs_prunes(eucs: &Eucs, x: ItemId, y: ItemId, min_utility: Utility) -> bool {
    eucs.complete() && (if eucs@.contains_key(ordered_key(x, y)) {
        eucs@[ordered_key(x, y)] < min_utility
    } else {
        0 < min_utility
    })
}

/// Depth-first search below `pre`. For each extension, against the current threshold
/// (the fixed one, or in top-k mode the ranking's): with `check_bound`, it is skipped
/// when its utility plus remaining utility falls below; it is reported (or offered to the
/// ranking) when its utility reaches the threshold; its joins with the later extensions
/// whose pair utility and bound reach the threshold are searched in turn.
fn tku_search(
    prefix_body: &Vec<ULEntry>,
    exts: &Vec<Ext>,
    eucs: &Eucs,
    top: &mut Option<TkuState>,
    min_utility: Utility,
    out: &mut Vec<Hui>,
    check_bound: bool,
    Ghost(txs): Ghost<Seq<RawTransaction>>,
    Ghost(pre): Ghost<Seq<ItemId>>,
    Ghost(k): Ghost<Option<u64>>,
    Ghost(exact_lists): Ghost<bool>,
) -> (r: Result<(), MiningError>)
    requires
        txs.len() <= u32::MAX,
        tids_below(prefix_body@, txs.len() as int),
        exact_lists ==> prefix_ok(prefix_body@, txs, pre),
        forall|q: int| 0 <= q < exts@.len() ==> ext_ok(&#[trigger] exts@[q], txs, pre, exact_lists),
        exact_lists ==> sound_huis(txs, min_utility, old(out)@),
        top_ok(*old(top), k, txs, exact_lists),
        check_bound ==> pre.len() >= 1,
    ensures
        exact_lists ==> sound_huis(txs, min_utility, final(out)@),
        top_ok(*final(top), k, txs, exact_lists),
        search_fits(exts@, txs, pre, exact_lists) ==> r is Ok,
        k is Some ==> final(out)@ == old(out)@,
        forall|c: Seq<ItemId>| #[trigger] reported(old(out)@, c) ==> reported(final(out)@, c),
        r is Ok && k is None ==> forall|q: int| 0 <= q < exts@.len() && (#[trigger] exts@[q]).ul.sum_iutils >= min_utility
            && exts@[q].ul.sum_rutils >= 0 ==> reported(final(out)@, pre.push(exts@[q].item)),
        r is Ok ==> top_grows(*old(top), *final(top)),
        r is Ok && top_open(*final(top)) ==> forall|q: int| 0 <= q < exts@.len() && (#[trigger] exts@[q]).ul.sum_iutils >= 0
            && exts@[q].ul.sum_rutils >= 0 ==> top_has(*final(top), pre.push(exts@[q].item)),
        r is Ok && k is Some ==> forall|q: int| 0 <= q < exts@.len() && (#[trigger] exts@[q]).ul.sum_iutils >= 0
            && exts@[q].ul.sum_rutils >= 0 ==> top_covers(*final(top), pre.push(exts@[q].item), exts@[q].ul.sum_iutils as int),
        r is Ok && k is None && search_fits(exts@, txs, pre, exact_lists) ==> forall|a: int, b: int| 0 <= a < b < exts@.len()
            && (check_bound ==> exts@[a].ul.sum_iutils + exts@[a].ul.sum_rutils >= min_utility)
            && !eucs_prunes(eucs, exts@[a].item, exts@[b].item, min_utility)
            && db_utility(txs, pre.push(exts@[a].item).push(exts@[b].item)) >= min_utility
            ==> #[trigger] reported(final(out)@, pre.push(exts@[a].item).push(exts@[b].item)),
        r is Ok && k is None && search_fits(exts@, txs, pre, exact_lists) ==> forall|a: int, b: int, c: int| 0 <= a < b < c < exts@.len()
            && (check_bound ==> exts@[a].ul.sum_iutils + exts@[a].ul.sum_rutils >= min_utility)
            && !eucs_prunes(eucs, exts@[a].item, exts@[b].item, min_utility)
            && !eucs_prunes(eucs, exts@[a].item, exts@[c].item, min_utility)
            && !eucs_prunes(eucs, exts@[b].item, exts@[c].item, min_utility)
            && join_bound(txs, pre, exts@[a], exts@[b]) >= min_utility
            && join_bound(txs, pre, exts@[a], exts@[c]) >= min_utility
            && db_utility(txs, pre.push(exts@[a].item).push(exts@[b].item).push(exts@[c].item)) >= min_utility
            ==> #[trigger] reported(final(out)@, pre.push(exts@[a].item).push(exts@[b].item).push(exts@[c].item)),
    decreases exts@.len(),
{
    let ghost fits = search_fits(exts@, txs, pre, exact_lists);
    let ghost out0 = out@;
    let ghost top0 = *top;
    let mut i: usize = 0;
    while i < exts.len()
        invariant
            txs.len() <= u32::MAX,
            tids_below(prefix_body@, txs.len() as int),
            exact_lists ==> prefix_ok(prefix_body@, txs, pre),
            forall|q: int| 0 <= q < exts@.len() ==> ext_ok(&#[trigger] exts@[q], txs, pre, exact_lists),
            exact_lists ==> sound_huis(txs, min_utility, out@),
            top_ok(*top, k, txs, exact_lists),
            i <= exts@.len(),
            check_bound ==> pre.len() >= 1,
            fits == search_fits(exts@, txs, pre, exact_lists),
            out0 == old(out)@,
            k is Some ==> out@ == out0,
            forall|c: Seq<ItemId>| #[trigger] reported(out0, c) ==> reported(out@, c),
            k is None ==> forall|q: int| 0 <= q < i && (#[trigger] exts@[q]).ul.sum_iutils >= min_utility
                && exts@[q].ul.sum_rutils >= 0 ==> reported(out@, pre.push(exts@[q].item)),
            top_grows(top0, *top),
            top_open(*top) ==> forall|q: int| 0 <= q < i && (#[trigger] exts@[q]).ul.sum_iutils >= 0
                && exts@[q].ul.sum_rutils >= 0 ==> top_has(*top, pre.push(exts@[q].item)),
            k is Some ==> forall|q: int| 0 <= q < i && (#[trigger] exts@[q]).ul.sum_iutils >= 0
                && exts@[q].ul.sum_rutils >= 0 ==> top_covers(*top, pre.push(exts@[q].item), exts@[q].ul.sum_iutils as int),
            k is None && fits ==> forall|a: int, b: int| 0 <= a < i && a < b < exts@.len()
                && (check_bound ==> exts@[a].ul.sum_iutils + exts@[a].ul.sum_rutils >= min_utility)
                && !eucs_prunes(eucs, exts@[a].item, exts@[b].item, min_utility)
                && db_utility(txs, pre.push(exts@[a].item).push(exts@[b].item)) >= min_utility
                ==> #[trigger] reported(out@, pre.push(exts@[a].item).push(exts@[b].item)),
            k is None && fits ==> forall|a: int, b: int, c: int| 0 <= a < i && a < b < c < exts@.len()
                && (check_bound ==> exts@[a].ul.sum_iutils + exts@[a].ul.sum_rutils >= min_utility)
                && !eucs_prunes(eucs, exts@[a].item, exts@[b].item, min_utility)
                && !eucs_prunes(eucs, exts@[a].item, exts@[c].item, min_utility)
                && !eucs_prunes(eucs, exts@[b].item, exts@[c].item, min_utility)
                && join_bound(txs, pre, exts@[a], exts@[b]) >= min_utility
                && join_bound(txs, pre, exts@[a], exts@[c]) >= min_utility
                && db_utility(txs, pre.push(exts@[a].item).push(exts@[b].item).push(exts@[c].item)) >= min_utility
                ==> #[trigger] reported(out@, pre.push(exts@[a].item).push(exts@[b].item).push(exts@[c].item)),
        decreases exts@.len() - i,
    {
        let ei = &exts[i];
        let ghost top_i = *top;
        let ghost owed_i = ei.ul.sum_iutils >= 0 && ei.ul.sum_rutils >= 0;
        proof {
            assert(ext_ok(&exts@[i as int], txs, pre, exact_lists));
            if fits {
                assert(pre.push(ei.item).no_duplicates()) by {
                    let pre2 = pre.push(ei.item);
                    assert forall|a: int, b: int| 0 <= a < pre2.len() && 0 <= b < pre2.len() && a != b implies pre2[a] != pre2[b] by {
                        if a < pre.len() && b < pre.len() {
                            assert(pre2[a] == pre[a] && pre2[b] == pre[b]);
                        } else if a < pre.len() {
                            assert(pre2[a] == pre[a] && pre2[b] == exts@[i as int].item);
                        } else {
                            assert(pre2[b] == pre[b] && pre2[a] == exts@[i as int].item);
                        }
                    }
                }
                if check_bound {
                    let xe = pre.push(ei.item);
                    assert(rut_ok(exts@[i as int].body@, txs));
                    lemma_list_fits(ei.body@, txs, xe, txs.len() as int);
                    lemma_body_sums_fit(ei.body@, txs, 2);
                }
            }
        }
        let mut thresh: Utility = match top {
            Some(s) => s.get(),
            None => min_utility,
        };
        proof {
            if k is None {
                assert(thresh == min_utility);
            }
        }
        let skip = if check_bound {
            match ei.ul.sum_iutils.checked_add(ei.ul.sum_rutils) {
                Some(b) => b < thresh,
                None => {
                    return Err(MiningError::UtilityOverflow);
                },
            }
        } else {
            false
        };
        proof {
            if top_open(top_i) && owed_i {
                assert(thresh == 0);
                assert(!skip);
            }
            if owed_i && k is Some && (skip || ei.ul.sum_iutils < thresh) {
                assert(ei.ul.sum_iutils < thresh);
                assert(top_covers(top_i, pre.push(ei.item), ei.ul.sum_iutils as int));
            }
        }
        let ghost before_all = out@;
        if !skip {
            if ei.ul.is_high_utility(thresh) {
                let items = ei.ul.itemset.to_vec();
                let u = ei.ul.sum_iutils;
                let ghost iv = items@;
                proof {
                    if exact_lists {
                        lemma_report_sound(ei, txs, pre, items@);
                    }
                }
                let ghost before = out@;
                let ghost top0 = *top;
                match top {
                    Some(s) => {
                        let ghost kept = s.heap@;
                        thresh = s.update(u, items);
                        proof {
                            if exact_lists {
                                lemma_offer_sound(kept, (items, u), s.k, s.heap@, txs);
                            }
                            if s.heap@.len() < s.k {
                                assert(s.heap@[kept.len() as int].0@ == iv);
                                assert(reported(s.heap@, iv));
                                assert forall|c: Seq<ItemId>| #[trigger] reported(kept, c) implies reported(s.heap@, c) by {
                                    let w = choose|w: int| 0 <= w < kept.len() && (#[trigger] kept[w]).0@ == c;
                                    assert(s.heap@[w] == kept[w]);
                                }
                            }
                        }
                    },
                    None => {
                        out.push((items, u));
                        proof {
                            assert(out@[out@.len() - 1].0@ == pre.push(ei.item));
                            assert forall|c: Seq<ItemId>| #[trigger] reported(before, c) implies reported(out@, c) by {
                                let w = choose|w: int| 0 <= w < before.len() && (#[trigger] before[w]).0@ == c;
                                assert(out@[w] == before[w]);
                            }
                            if exact_lists {
                                assert forall|q: int| 0 <= q < out@.len() implies {
                                    &&& (#[trigger] out@[q]).1 == db_utility(txs, out@[q].0@)
                                    &&& out@[q].1 >= min_utility
                                } by {
                                    if q < before.len() {
                                        assert(out@[q] == before[q]);
                                    }
                                }
                            }
                        }
                    },
                }
                proof {
                    assert(iv == pre.push(ei.item));
                    assert(top_grows(top_i, *top));
                    assert(top_open(*top) ==> top_has(*top, pre.push(ei.item)));
                    assert(k is Some ==> top_covers(*top, pre.push(ei.item), u as int));
                }
            }
            let ghost after_report = out@;
            let ghost top_mid = *top;
            proof {
                assert(forall|c: Seq<ItemId>| #[trigger] reported(before_all, c) ==> reported(after_report, c));
            }
            proof {
                assert(top_grows(top_i, top_mid));
                assert(top_open(top_mid) && owed_i ==> top_has(top_mid, pre.push(ei.item)));
                assert(owed_i && k is Some ==> top_covers(top_mid, pre.push(ei.item), ei.ul.sum_iutils as int));
            }
            proof {
                assert(forall|c: Seq<ItemId>| #[trigger] reported(out0, c) ==> reported(after_report, c));
                if k is None {
                    assert forall|q: int| 0 <= q < i && (#[trigger] exts@[q]).ul.sum_iutils >= min_utility
                        && exts@[q].ul.sum_rutils >= 0 implies reported(after_report, pre.push(exts@[q].item)) by {
                        assert(reported(before_all, pre.push(exts@[q].item)));
                    }
                }
            }
            let mut next: Vec<Ext> = Vec::new();
            let ghost mut pos: Seq<int> = Seq::empty();
            let ghost pre2 = pre.push(ei.item);
            let mut j = i + 1;
            while j < exts.len()
                invariant
                    k is None ==> thresh == min_utility,
                    pos.len() == next@.len(),
                    forall|q: int| 0 <= q < pos.len() ==> i < #[trigger] pos[q] < j && next@[q].item == exts@[pos[q]].item,
                    forall|q1: int, q2: int| 0 <= q1 < q2 < pos.len() ==> #[trigger] pos[q1] < #[trigger] pos[q2],
                    fits ==> forall|q: int| 0 <= q < next@.len() ==> (#[trigger] next@[q]).ul.sum_iutils == db_utility(txs, pre2.push(next@[q].item))
                        && next@[q].ul.sum_rutils >= 0
                        && next@[q].ul.sum_iutils + next@[q].ul.sum_rutils == join_bound(txs, pre, exts@[i as int], exts@[pos[q]]),
                    k is None && fits ==> forall|bb: int| i < bb < j && !eucs_prunes(eucs, exts@[i as int].item, exts@[bb].item, min_utility)
                        && join_bound(txs, pre, exts@[i as int], exts@[bb]) >= min_utility
                        ==> exists|q: int| 0 <= q < pos.len() && #[trigger] pos[q] == bb,
                    txs.len() <= u32::MAX,
                    tids_below(prefix_body@, txs.len() as int),
                    exact_lists ==> prefix_ok(prefix_body@, txs, pre),
                    forall|q: int| 0 <= q < exts@.len() ==> ext_ok(&#[trigger] exts@[q], txs, pre, exact_lists),
                    i < j <= exts@.len(),
                    ei == &exts@[i as int],
                    pre2 == pre.push(ei.item),
                    next@.len() <= j - i - 1,
                    forall|q: int| 0 <= q < next@.len() ==> ext_ok(&#[trigger] next@[q], txs, pre2, exact_lists),
                    exact_lists ==> sound_huis(txs, min_utility, out@),
                    top_ok(*top, k, txs, exact_lists),
                    out@ == after_report,
                    out0 == old(out)@,
                    k is Some ==> out@ == out0,
                    forall|c: Seq<ItemId>| #[trigger] reported(out0, c) ==> reported(out@, c),
                    fits == search_fits(exts@, txs, pre, exact_lists),
                    fits ==> search_fits(next@, txs, pre2, exact_lists),
                    fits ==> forall|q: int| 0 <= q < next@.len() ==> exists|w: int| i < w < j && (#[trigger] next@[q]).item == exts@[w].item,
                decreases exts@.len() - j,
            {
                let ej = &exts[j];
                proof {
                    assert(ext_ok(&exts@[j as int], txs, pre, exact_lists));
                    if fits {
                        let xe = pre.push(ei.item).push(ej.item);
                        assert forall|a: int, b: int| 0 <= a < xe.len() && 0 <= b < xe.len() && a != b implies xe[a] != xe[b] by {
                            let pl = pre.len() as int;
                            if a < pl && b < pl {
                                assert(xe[a] == pre[a] && xe[b] == pre[b]);
                            } else if a < pl && b == pl {
                                assert(xe[a] == pre[a] && xe[b] == exts@[i as int].item);
                            } else if a < pl {
                                assert(xe[a] == pre[a] && xe[b] == exts@[j as int].item);
                            } else if b < pl && a == pl {
                                assert(xe[b] == pre[b] && xe[a] == exts@[i as int].item);
                            } else if b < pl {
                                assert(xe[b] == pre[b] && xe[a] == exts@[j as int].item);
                            } else {
                                assert(exts@[i as int].item != exts@[j as int].item);
                            }
                        }
                        assert(xe.no_duplicates());
                        assert(rut_ok(exts@[j as int].body@, txs));
                    }
                }
                let ghost pos_before = pos;
                if !eucs.can_prune(ei.item, ej.item, thresh) {
                    let (b, si, sr) = match join_bodies(
                        prefix_body,
                        &ei.body,
                        &ej.body,
                        Ghost(txs),
                        Ghost(pre),
                        Ghost(ei.item),
                        Ghost(ej.item),
                        Ghost(exact_lists),
                    ) {
                        Ok(v) => v,
                        Err(e) => {
                            return Err(e);
                        },
                    };
                    let mut itemset = ei.ul.itemset.duplicate();
                    itemset.push(ej.item);
                    proof {
                        if fits {
                            let xe = pre.push(ei.item).push(ej.item);
                            assert(xe.len() >= 2);
                            lemma_list_fits(b@, txs, xe, txs.len() as int);
                            lemma_body_sums_fit(b@, txs, 2);
                            lemma_list_sum_is_utility(txs, xe, txs.len() as int);
                            assert(txs.take(txs.len() as int) =~= txs);
                            assert(si == db_utility(txs, xe));
                            assert(si + sr == join_bound(txs, pre, exts@[i as int], exts@[j as int]));
                        }
                    }
                    let bound = match si.checked_add(sr) {
                        Some(v) => v,
                        None => {
                            return Err(MiningError::UtilityOverflow);
                        },
                    };
                    if bound >= thresh {
                        let len = b.len() as u32;
                        let ul = UtilityList {
                            itemset,
                            sum_iutils: si,
                            sum_rutils: sr,
                            len,
                            page_id: 0,
                            resident: true,
                            recompute: RecomputeFlag::Recomputable,
                        };
                        let ghost old_next = next@;
                        next.push(Ext { ul, body: b, item: ej.item });
                        proof {
                            let pos0 = pos;
                            pos = pos.push(j as int);
                            assert forall|q: int| 0 <= q < pos.len() implies i < #[trigger] pos[q] < j + 1 && next@[q].item == exts@[pos[q]].item by {
                                if q < pos0.len() {
                                    assert(pos[q] == pos0[q]);
                                    assert(next@[q] == old_next[q]);
                                }
                            }
                            assert forall|q1: int, q2: int| 0 <= q1 < q2 < pos.len() implies #[trigger] pos[q1] < #[trigger] pos[q2] by {
                                assert(pos[q1] == pos0[q1]);
                                if q2 < pos0.len() {
                                    assert(pos[q2] == pos0[q2]);
                                }
                            }
                            if fits {
                                assert forall|q: int| 0 <= q < next@.len() implies (#[trigger] next@[q]).ul.sum_iutils == db_utility(txs, pre2.push(next@[q].item))
                                    && next@[q].ul.sum_rutils >= 0
                                    && next@[q].ul.sum_iutils + next@[q].ul.sum_rutils == join_bound(txs, pre, exts@[i as int], exts@[pos[q]]) by {
                                    if q < old_next.len() {
                                        assert(next@[q] == old_next[q]);
                                        assert(pos[q] == pos0[q]);
                                    } else {
                                        assert(pre2.push(next@[q].item) == pre.push(ei.item).push(ej.item));
                                    }
                                }
                            }
                            assert forall|q: int| 0 <= q < next@.len() implies ext_ok(&#[trigger] next@[q], txs, pre2, exact_lists) by {
                                if q < old_next.len() {
                                    assert(next@[q] == old_next[q]);
                                }
                            }
                            if fits {
                                let nj = next@[next@.len() - 1];
                                assert(nj.item == exts@[j as int].item);
                                assert forall|q: int| 0 <= q < next@.len() implies exists|w: int| i < w < j + 1 && (#[trigger] next@[q]).item == exts@[w].item by {
                                    if q < old_next.len() {
                                        assert(next@[q] == old_next[q]);
                                        let w = choose|w: int| i < w < j && (#[trigger] old_next[q]).item == exts@[w].item;
                                    }
                                }
                                assert forall|a: int, c: int| 0 <= a < c < next@.len() implies next@[a].item != next@[c].item by {
                                    if c < old_next.len() {
                                        assert(next@[a] == old_next[a] && next@[c] == old_next[c]);
                                    } else {
                                        assert(next@[a] == old_next[a]);
                                        let w = choose|w: int| i < w < j && (#[trigger] old_next[a]).item == exts@[w].item;
                                        assert(exts@[w].item != exts@[j as int].item);
                                    }
                                }
                                assert forall|q: int, z: int| 0 <= q < next@.len() && 0 <= z < pre2.len() implies #[trigger] pre2[z] != #[trigger] next@[q].item by {
                                    let w = choose|w: int| i < w < j + 1 && (#[trigger] next@[q]).item == exts@[w].item;
                                    if z < pre.len() {
                                        assert(pre2[z] == pre[z]);
                                    } else {
                                        assert(pre2[z] == exts@[i as int].item);
                                        assert(exts@[i as int].item != exts@[w].item);
                                    }
                                }
                                assert forall|q: int| 0 <= q < next@.len() implies rut_ok((#[trigger] next@[q]).body@, txs) by {
                                    if q < old_next.len() {
                                        assert(next@[q] == old_next[q]);
                                    }
                                }
                            }
                        }
                    }
                }
                proof {
                    if k is None && fits {
                        assert forall|bb: int| i < bb < j + 1 && !eucs_prunes(eucs, exts@[i as int].item, exts@[bb].item, min_utility)
                            && join_bound(txs, pre, exts@[i as int], exts@[bb]) >= min_utility
                            implies exists|q: int| 0 <= q < pos.len() && #[trigger] pos[q] == bb by {
                            if bb == j {
                                assert(pos.len() == pos_before.len() + 1);
                                assert(pos[pos.len() - 1] == j);
                            } else {
                                let q = choose|q: int| 0 <= q < pos_before.len() && #[trigger] pos_before[q] == bb;
                                assert(pos[q] == pos_before[q]);
                            }
                        }
                    }
                }
                j = j + 1;
            }
            match tku_search(
                &ei.body,
                &next,
                eucs,
                top,
                min_utility,
                out,
                true,
                Ghost(txs),
                Ghost(pre2),
                Ghost(k),
                Ghost(exact_lists),
            ) {
                Ok(()) => {},
                Err(e) => {
                    return Err(e);
                },
            }
            proof {
                assert forall|c: Seq<ItemId>| #[trigger] reported(before_all, c) implies reported(out@, c) by {
                    assert(reported(after_report, c));
                }
                if k is None && fits {
                    assert forall|b: int| i < b < exts@.len()
                        && !eucs_prunes(eucs, exts@[i as int].item, exts@[b].item, min_utility)
                        && db_utility(txs, pre.push(exts@[i as int].item).push(exts@[b].item)) >= min_utility
                        implies #[trigger] reported(out@, pre.push(exts@[i as int].item).push(exts@[b].item)) by {
                        assert(rut_ok(exts@[b].body@, txs));
                        lemma_rut_over_nonneg(exts@[b].body@, tid_list(txs, pre.push(exts@[i as int].item).push(exts@[b].item), txs.len() as int), txs);
                        assert(join_bound(txs, pre, exts@[i as int], exts@[b]) >= min_utility);
                        let q = choose|q: int| 0 <= q < pos.len() && #[trigger] pos[q] == b;
                        assert(next@[q].item == exts@[b].item);
                        assert(next@[q].ul.sum_iutils >= min_utility);
                        assert(reported(out@, pre2.push(next@[q].item)));
                    }
                    assert forall|b: int, c: int| i < b < c < exts@.len()
                        && !eucs_prunes(eucs, exts@[i as int].item, exts@[b].item, min_utility)
                        && !eucs_prunes(eucs, exts@[i as int].item, exts@[c].item, min_utility)
                        && !eucs_prunes(eucs, exts@[b].item, exts@[c].item, min_utility)
                        && join_bound(txs, pre, exts@[i as int], exts@[b]) >= min_utility
                        && join_bound(txs, pre, exts@[i as int], exts@[c]) >= min_utility
                        && db_utility(txs, pre.push(exts@[i as int].item).push(exts@[b].item).push(exts@[c].item)) >= min_utility
                        implies #[trigger] reported(out@, pre.push(exts@[i as int].item).push(exts@[b].item).push(exts@[c].item)) by {
                        let qb = choose|q: int| 0 <= q < pos.len() && #[trigger] pos[q] == b;
                        let qc = choose|q: int| 0 <= q < pos.len() && #[trigger] pos[q] == c;
                        assert(qb < qc) by {
                            if qc < qb {
                                assert(pos[qc] < pos[qb]);
                            }
                        }
                        assert(next@[qb].item == exts@[b].item);
                        assert(next@[qc].item == exts@[c].item);
                        assert(next@[qb].ul.sum_iutils + next@[qb].ul.sum_rutils >= min_utility);
                        assert(reported(out@, pre2.push(next@[qb].item).push(next@[qc].item)));
                    }
                }
                if k is None {
                    assert forall|q: int| 0 <= q < i + 1 && (#[trigger] exts@[q]).ul.sum_iutils >= min_utility
                        && exts@[q].ul.sum_rutils >= 0 implies reported(out@, pre.push(exts@[q].item)) by {
                        assert(reported(after_report, pre.push(exts@[q].item)));
                    }
                }
                lemma_grows_trans(top_i, top_mid, *top);
                if top_open(*top) && owed_i {
                    assert(top_has(top_mid, pre.push(ei.item)));
                    assert(top_has(*top, pre.push(ei.item)));
                }
                if owed_i && k is Some {
                    assert(top_covers(top_mid, pre.push(ei.item), ei.ul.sum_iutils as int));
                    assert(top_covers(*top, pre.push(ei.item), ei.ul.sum_iutils as int));
                }
            }
        }
        proof {
            assert(forall|c: Seq<ItemId>| #[trigger] reported(before_all, c) ==> reported(out@, c));
            if k is None && fits {
                assert forall|a: int, b: int| 0 <= a < i + 1 && a < b < exts@.len()
                    && (check_bound ==> exts@[a].ul.sum_iutils + exts@[a].ul.sum_rutils >= min_utility)
                    && !eucs_prunes(eucs, exts@[a].item, exts@[b].item, min_utility)
                    && db_utility(txs, pre.push(exts@[a].item).push(exts@[b].item)) >= min_utility
                    implies #[trigger] reported(out@, pre.push(exts@[a].item).push(exts@[b].item)) by {
                    if a < i {
                        assert(reported(before_all, pre.push(exts@[a].item).push(exts@[b].item)));
                    } else {
                        assert(!skip);
                    }
                }
                assert forall|a: int, b: int, c: int| 0 <= a < i + 1 && a < b < c < exts@.len()
                    && (check_bound ==> exts@[a].ul.sum_iutils + exts@[a].ul.sum_rutils >= min_utility)
                    && !eucs_prunes(eucs, exts@[a].item, exts@[b].item, min_utility)
                    && !eucs_prunes(eucs, exts@[a].item, exts@[c].item, min_utility)
                    && !eucs_prunes(eucs, exts@[b].item, exts@[c].item, min_utility)
                    && join_bound(txs, pre, exts@[a], exts@[b]) >= min_utility
                    && join_bound(txs, pre, exts@[a], exts@[c]) >= min_utility
                    && db_utility(txs, pre.push(exts@[a].item).push(exts@[b].item).push(exts@[c].item)) >= min_utility
                    implies #[trigger] reported(out@, pre.push(exts@[a].item).push(exts@[b].item).push(exts@[c].item)) by {
                    if a < i {
                        assert(reported(before_all, pre.push(exts@[a].item).push(exts@[b].item).push(exts@[c].item)));
                    } else {
                        assert(!skip);
                    }
                }
            }
            lemma_grows_trans(top0, top_i, *top);
            if top_open(*top) {
                assert forall|q: int| 0 <= q < i + 1 && (#[trigger] exts@[q]).ul.sum_iutils >= 0
                    && exts@[q].ul.sum_rutils >= 0 implies top_has(*top, pre.push(exts@[q].item)) by {
                    if q < i {
                        assert(top_has(top_i, pre.push(exts@[q].item)));
                    }
                }
            }
            if k is Some {
                assert forall|q: int| 0 <= q < i + 1 && (#[trigger] exts@[q]).ul.sum_iutils >= 0
                    && exts@[q].ul.sum_rutils >= 0 implies top_covers(*top, pre.push(exts@[q].item), exts@[q].ul.sum_iutils as int) by {
                    if q < i {
                        assert(top_covers(top_i, pre.push(exts@[q].item), exts@[q].ul.sum_iutils as int));
                    }
                }
            }
        }
        i = i + 1;
    }
    Ok(())
}

/// TKU: the utility-list search pruned by the pair structure, mining either the itemsets
/// whose utility reaches a fixed threshold or the `k` itemsets of highest utility.
pub struct Tku {
    enable_prefetch: bool,
}

impl Tku {
    /// Whether pages of the search are to be prefetched.
    pub closed spec fn prefetch(&self) -> bool {
        self.enable_prefetch
    }

    pub fn new(enable_prefetch: bool) -> (r: Self)
        ensures
            r.prefetch() == enable_prefetch,
    {
        Tku { enable_prefetch }
    }

    /// Mines the transactions. Without `k`, the itemsets whose utility reaches
    /// `min_utility` among those the search meets, in that order (an extension whose
    /// bound falls below the threshold is left out of the lists joined further). With `k`, the threshold starts
    /// at zero and rises to the lowest utility among the best `k` itemsets found so far;
    /// the result is those at most `k` itemsets, highest utility first (ties by itemset,
    /// greater first). The pair structure takes its memory from `guard`; once a
    /// reservation is refused, it prunes nothing. When no transaction holds an item twice,
    /// every reported itemset carries its exact utility, which reaches `min_utility`
    /// (without `k`) or zero (with `k`); when moreover the utilities are non-negative and
    /// covered, and the pair updates of all transactions weigh at most `i64::MAX`, no error
    /// comes. In such a database every single item whose utility reaches a positive
    /// `min_utility` is reported (without `k`); with `k`, every single item of positive
    /// utility is in the result or has at most the utility of each itemset in it, and a
    /// result of fewer than `k` itemsets has let none go, so it holds them all.
    pub fn mine<S: ChunkStore>(
        &mut self,
        transactions: &[RawTransaction],
        min_utility: Utility,
        k: Option<u64>,
        guard: &mut MemoryGuard<S>,
    ) -> (r: Result<Vec<Hui>, MiningError>)
        requires
            abs_weight(transactions@) <= i64::MAX,
            transactions@.len() <= u32::MAX,
        ensures
            final(guard).budget_view() == old(guard).budget_view(),
            r matches Ok(huis) ==> match k {
                None => {
                    &&& db_distinct(transactions@) ==> sound_huis(transactions@, min_utility, huis@)
                    &&& mining_complete(transactions@, min_utility) ==> forall|y: ItemId|
                        db_utility(transactions@, seq![y]) >= min_utility ==> #[trigger] reported(huis@, seq![y])
                },
                Some(k) => {
                    &&& huis@.len() <= k
                    &&& ranked_desc(huis@)
                    &&& db_distinct(transactions@) ==> sound_huis(transactions@, 0, huis@)
                    &&& db_distinct(transactions@) && db_nonneg(transactions@) && huis@.len() < k ==> forall|y: ItemId|
                        db_utility(transactions@, seq![y]) > 0 ==> #[trigger] reported(huis@, seq![y])
                    &&& db_distinct(transactions@) && db_nonneg(transactions@) ==> forall|y: ItemId|
                        #![trigger db_utility(transactions@, seq![y])]
                        db_utility(transactions@, seq![y]) > 0 ==> reported(huis@, seq![y])
                            || forall|j: int| 0 <= j < huis@.len() ==> #[trigger] huis@[j].1 >= db_utility(transactions@, seq![y])
                },
            },
            db_distinct(transactions@) && db_nonneg(transactions@) && abs_sum(db_events(transactions@)) <= i64::MAX ==> r is Ok,
    {
        let initial: Utility = match k {
            Some(_) => 0,
            None => min_utility,
        };
        proof {
            lemma_weight_twu_fits(transactions@);
        }
        let res = TwuFilter::new(initial).compute(transactions);
        let fts = filter_all(&res, transactions);
        let eucs = match pair_bounds(&fts, guard, Ghost(transactions@), Ghost(res.twu@)) {
            Ok(e) => e,
            Err(e) => {
                return Err(e);
            },
        };
        let exts = match single_item_exts(&res, &fts, Some(initial), Ghost(transactions@)) {
            Ok(e) => e,
            Err(e) => {
                return Err(e);
            },
        };
        let empty: Vec<ULEntry> = Vec::new();
        let mut out: Vec<Hui> = Vec::new();
        let mut top: Option<TkuState> = match k {
            Some(kk) => Some(TkuState::new(kk)),
            None => None,
        };
        let ghost exact = db_distinct(transactions@);
        match tku_search(
            &empty,
            &exts,
            &eucs,
            &mut top,
            min_utility,
            &mut out,
            false,
            Ghost(transactions@),
            Ghost(Seq::empty()),
            Ghost(k),
            Ghost(exact),
        ) {
            Ok(()) => {},
            Err(e) => {
                return Err(e);
            },
        }
        let ghost top_end = top;
        proof {
            let txs = transactions@;
            if k is None && mining_complete(txs, min_utility) {
                assert forall|y: ItemId| db_utility(txs, seq![y]) >= min_utility implies #[trigger] reported(out@, seq![y]) by {
                    let c = seq![y];
                    assert(c.no_duplicates());
                    assert(c.contains(y)) by { assert(c[0] == y); }
                    lemma_owed_item_passes(txs, min_utility, c, y);
                    assert(res.twu@.contains_key(y));
                    assert(item_kept(Some(initial), db_distinct(txs) && db_nonneg(txs) && abs_weight(txs) <= i64::MAX, txs, y));
                    let q = lemma_single_ext(txs, exts@, y);
                    assert(Seq::<ItemId>::empty().push(y) =~= c);
                }
            }
            if k is Some && db_distinct(txs) && db_nonneg(txs) {
                assert forall|y: ItemId| db_utility(txs, seq![y]) > 0 && top_open(top_end)
                    implies #[trigger] top_has(top_end, seq![y]) by {
                    let c = seq![y];
                    assert(c.no_duplicates());
                    assert(c.contains(y)) by { assert(c[0] == y); }
                    lemma_owed_item_passes(txs, 1, c, y);
                    assert(passing(txs, 0, y));
                    assert(res.twu@.contains_key(y));
                    assert(item_kept(Some(initial), db_distinct(txs) && db_nonneg(txs) && abs_weight(txs) <= i64::MAX, txs, y));
                    let q = lemma_single_ext(txs, exts@, y);
                    assert(Seq::<ItemId>::empty().push(y) =~= c);
                }
                assert forall|y: ItemId| #![trigger db_utility(txs, seq![y])] db_utility(txs, seq![y]) > 0
                    implies top_covers(top_end, seq![y], db_utility(txs, seq![y])) by {
                    let c = seq![y];
                    assert(c.no_duplicates());
                    assert(c.contains(y)) by { assert(c[0] == y); }
                    lemma_owed_item_passes(txs, 1, c, y);
                    assert(passing(txs, 0, y));
                    assert(res.twu@.contains_key(y));
                    assert(item_kept(Some(initial), db_distinct(txs) && db_nonneg(txs) && abs_weight(txs) <= i64::MAX, txs, y));
                    let q = lemma_single_ext(txs, exts@, y);
                    assert(Seq::<ItemId>::empty().push(y) =~= c);
                    assert(top_covers(top_end, Seq::<ItemId>::empty().push(exts@[q].item), exts@[q].ul.sum_iutils as int));
                }
            }
        }
        match top {
            Some(s) => {
                let ghost heap = s.heap@;
                let ghost sk = s.k;
                let ranked = s.into_ranked();
                proof {
                    let txs = transactions@;
                    if db_distinct(txs) && db_nonneg(txs) && ranked@.len() < sk {
                        assert forall|y: ItemId| db_utility(txs, seq![y]) > 0 implies #[trigger] reported(ranked@, seq![y]) by {
                            assert(top_has(top_end, seq![y]));
                            let w = choose|w: int| 0 <= w < heap.len() && (#[trigger] heap[w]).0@ == seq![y];
                            assert(heap.contains(heap[w]));
                            assert(ranked@.to_multiset().count(heap[w]) > 0);
                            assert(ranked@.contains(heap[w]));
                            let v = choose|v: int| 0 <= v < ranked@.len() && ranked@[v] == heap[w];
                            assert(ranked@[v].0@ == seq![y]);
                        }
                    }
                    if db_distinct(txs) && db_nonneg(txs) {
                        assert forall|y: ItemId| #![trigger db_utility(txs, seq![y])] db_utility(txs, seq![y]) > 0
                            implies reported(ranked@, seq![y])
                            || forall|j: int| 0 <= j < ranked@.len() ==> #[trigger] ranked@[j].1 >= db_utility(txs, seq![y]) by {
                            let u = db_utility(txs, seq![y]);
                            assert(top_covers(top_end, seq![y], u));
                            if exists|j: int| 0 <= j < heap.len() && (#[trigger] heap[j]).0@ == seq![y] && heap[j].1 == u {
                                let w = choose|w: int| 0 <= w < heap.len() && (#[trigger] heap[w]).0@ == seq![y] && heap[w].1 == u;
                                assert(heap.contains(heap[w]));
                                assert(ranked@.to_multiset().count(heap[w]) > 0);
                                assert(ranked@.contains(heap[w]));
                                let v = choose|v: int| 0 <= v < ranked@.len() && ranked@[v] == heap[w];
                                assert(ranked@[v].0@ == seq![y]);
                            } else {
                                assert forall|j: int| 0 <= j < ranked@.len() implies #[trigger] ranked@[j].1 >= u by {
                                    assert(heap.contains(ranked@[j]));
                                    let w = choose|w: int| 0 <= w < heap.len() && heap[w] == ranked@[j];
                                    assert(heap[w].1 >= top_end->0.threshold);
                                }
                            }
                        }
                    }
                    if exact {
                        assert forall|q: int| 0 <= q < ranked@.len() implies {
                            &&& (#[trigger] ranked@[q]).1 == db_utility(transactions@, ranked@[q].0@)
                            &&& ranked@[q].1 >= 0
                        } by {
                            assert(heap.contains(ranked@[q]));
                            let w = choose|w: int| 0 <= w < heap.len() && heap[w] == ranked@[q];
                            assert(heap[w] == ranked@[q]);
                        }
                    }
                }
                Ok(ranked)
            },
            None => Ok(out),
        }
    }
}

} // verus!
