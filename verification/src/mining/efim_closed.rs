//! EFIM-Closed: depth-first search over projections of the TWU-sorted transactions. A
//! prefix's projection lists, for each transaction where the prefix's items are found in
//! turn, where the scan resumes and the prefix's utility there.
use vstd::prelude::*;
use crate::preprocessing::twu_filter::lemma_weight_twu_fits;
use crate::types::{ItemId, Utility, ItemEntry, RawTransaction};
use crate::preprocessing::twu_filter::{
    TwuFilter, FilteredTransaction, abs_weight, kept_items, stable_sort, insert_stable, passing, spec_twu,
};
use crate::storage::chunk_store::ChunkStore;
use super::exact_utility::{Hui, MiningError, db_utility, sound_huis};
use super::memory_guard::MemoryGuard;
use super::ul_search::{filter_all, filtered_ok};
use super::up_tree::sort_pairs;
use super::tku::entry_items;
use super::rank_order::{db_ascending, lemma_ordered_is_db, lemma_found_is_rank, rank_increasing};
use super::two_phase::{reported, mining_complete};
use super::utility_bounds::lemma_owed_item_passes;

verus! {

/// The item ids of a row, in order.
pub open spec fn row_items(row: Seq<ItemEntry>) -> Seq<u32> {
    row.map_values(|e: ItemEntry| e.item)
}

/// The utilities of a row, in order.
pub open spec fn row_utils(row: Seq<ItemEntry>) -> Seq<i64> {
    row.map_values(|e: ItemEntry| e.utility)
}

/// The first position at or after `from` that holds `x`.
pub open spec fn first_from(items: Seq<u32>, x: u32, from: int) -> Option<int>
    decreases items.len() - from,
{
    if from < 0 || from >= items.len() {
        None
    } else if items[from] == x {
        Some(from)
    } else {
        first_from(items, x, from + 1)
    }
}

/// The items of `p` looked for in turn in the row, each from the position after the one
/// found before it: the position after the last one found and the summed utility of the
/// entries found, or `None` when one is missing.
pub open spec fn scan(row: Seq<ItemEntry>, p: Seq<u32>) -> Option<(int, int)>
    decreases p.len(),
{
    if p.len() == 0 {
        Some((0, 0))
    } else {
        match scan(row, p.drop_last()) {
            None => None,
            Some(r) => match first_from(row_items(row), p.last(), r.0) {
                None => None,
                Some(pos) => Some((pos + 1, r.1 + row[pos].utility)),
            },
        }
    }
}

/// The utility of `p` found in order, summed over the rows.
pub open spec fn ordered_utility(rows: Seq<Seq<ItemEntry>>, p: Seq<u32>) -> int
    decreases rows.len(),
{
    if rows.len() == 0 {
        0
    } else {
        ordered_utility(rows.drop_last(), p) + match scan(rows.last(), p) {
            Some(r) => r.1,
            None => 0,
        }
    }
}

/// The projection of `p` over the first `n` rows: for each row where `p` is found, its
/// index, where the scan resumes, and the utility found.
pub open spec fn proj_of(rows: Seq<Seq<ItemEntry>>, p: Seq<u32>, n: int) -> Seq<(int, int, int)>
    decreases n,
{
    if n <= 0 {
        Seq::empty()
    } else {
        proj_of(rows, p, n - 1) + match scan(rows[n - 1], p) {
            Some(r) => seq![(n - 1, r.0, r.1)],
            None => Seq::empty(),
        }
    }
}

/// One projection entry extended by `x`: its row with `x` found from where the scan
/// resumes, if it is.
pub open spec fn ext_entry(rows: Seq<Seq<ItemEntry>>, e: (int, int, int), x: u32) -> Seq<(int, int, int)> {
    match first_from(row_items(rows[e.0]), x, e.1) {
        Some(pos) => seq![(e.0, pos + 1, e.2 + rows[e.0][pos].utility)],
        None => Seq::empty(),
    }
}

/// A projection extended by `x`, entry by entry.
pub open spec fn ext_of(rows: Seq<Seq<ItemEntry>>, es: Seq<(int, int, int)>, x: u32) -> Seq<(int, int, int)>
    decreases es.len(),
{
    if es.len() == 0 {
        Seq::empty()
    } else {
        ext_of(rows, es.drop_last(), x) + ext_entry(rows, es.last(), x)
    }
}

/// The summed utilities of projection entries.
pub open spec fn util_sum(es: Seq<(int, int, int)>) -> int
    decreases es.len(),
{
    if es.len() == 0 {
        0
    } else {
        util_sum(es.drop_last()) + es.last().2
    }
}

pub(crate) proof fn lemma_first_from(items: Seq<u32>, x: u32, from: int)
    ensures
        first_from(items, x, from) matches Some(pos) ==> 0 <= from <= pos < items.len() && items[pos] == x,
        first_from(items, x, from) is None ==> forall|q: int| 0 <= from <= q < items.len() ==> items[q] != x,
    decreases items.len() - from,
{
    if 0 <= from < items.len() && items[from] != x {
        lemma_first_from(items, x, from + 1);
    }
}

proof fn lemma_scan_bounds(row: Seq<ItemEntry>, p: Seq<u32>)
    ensures
        scan(row, p) matches Some(r) ==> p.len() <= r.0 <= row.len(),
    decreases p.len(),
{
    if p.len() > 0 {
        lemma_scan_bounds(row, p.drop_last());
        if let Some(r) = scan(row, p.drop_last()) {
            lemma_first_from(row_items(row), p.last(), r.0);
        }
    }
}

proof fn lemma_proj_entries(rows: Seq<Seq<ItemEntry>>, p: Seq<u32>, n: int)
    requires
        0 <= n <= rows.len(),
    ensures
        forall|k: int| 0 <= k < proj_of(rows, p, n).len() ==> {
            let e = #[trigger] proj_of(rows, p, n)[k];
            &&& 0 <= e.0 < n
            &&& scan(rows[e.0], p) == Some((e.1, e.2))
            &&& p.len() <= e.1 <= rows[e.0].len()
        },
    decreases n,
{
    if n > 0 {
        lemma_proj_entries(rows, p, n - 1);
        lemma_scan_bounds(rows[n - 1], p);
        let a = proj_of(rows, p, n - 1);
        let b = match scan(rows[n - 1], p) {
            Some(r) => seq![(n - 1, r.0, r.1)],
            None => Seq::empty(),
        };
        assert forall|k: int| 0 <= k < (a + b).len() implies {
            let e = #[trigger] (a + b)[k];
            &&& 0 <= e.0 < n
            &&& scan(rows[e.0], p) == Some((e.1, e.2))
            &&& p.len() <= e.1 <= rows[e.0].len()
        } by {
            if k < a.len() {
                assert((a + b)[k] == a[k]);
            } else {
                assert((a + b)[k] == b[k - a.len()]);
            }
        }
    }
}

/// Extending the projection of `p` by `x` gives the projection of `p` followed by `x`.
proof fn lemma_ext(rows: Seq<Seq<ItemEntry>>, p: Seq<u32>, x: u32, n: int)
    requires
        0 <= n <= rows.len(),
    ensures
        proj_of(rows, p.push(x), n) == ext_of(rows, proj_of(rows, p, n), x),
    decreases n,
{
    if n > 0 {
        lemma_ext(rows, p, x, n - 1);
        let a = proj_of(rows, p, n - 1);
        let px = p.push(x);
        assert(px.drop_last() =~= p);
        match scan(rows[n - 1], p) {
            Some(r) => {
                let e = (n - 1, r.0, r.1);
                assert((a + seq![e]).drop_last() =~= a);
                assert(ext_of(rows, a + seq![e], x) == ext_of(rows, a, x) + ext_entry(rows, e, x));
            },
            None => {
                assert(a + Seq::<(int, int, int)>::empty() =~= a);
                assert(proj_of(rows, px, n) =~= proj_of(rows, px, n - 1));
            },
        }
    }
}

/// The utilities of a prefix's projection sum to its utility found in order.
proof fn lemma_proj_sum(rows: Seq<Seq<ItemEntry>>, p: Seq<u32>, n: int)
    requires
        0 <= n <= rows.len(),
    ensures
        util_sum(proj_of(rows, p, n)) == ordered_utility(rows.take(n), p),
    decreases n,
{
    if n > 0 {
        lemma_proj_sum(rows, p, n - 1);
        assert(rows.take(n).drop_last() =~= rows.take(n - 1));
        let a = proj_of(rows, p, n - 1);
        match scan(rows[n - 1], p) {
            Some(r) => {
                let e = (n - 1, r.0, r.1);
                assert((a + seq![e]).drop_last() =~= a);
            },
            None => {
                assert(a + Seq::<(int, int, int)>::empty() =~= a);
            },
        }
    }
}

/// Extending entry by entry: appending one entry appends its extension.
proof fn lemma_ext_push(rows: Seq<Seq<ItemEntry>>, es: Seq<(int, int, int)>, e: (int, int, int), x: u32)
    ensures
        ext_of(rows, es.push(e), x) == ext_of(rows, es, x) + ext_entry(rows, e, x),
{
    assert(es.push(e).drop_last() =~= es);
}

proof fn lemma_util_sum_append(a: Seq<(int, int, int)>, b: Seq<(int, int, int)>)
    ensures
        util_sum(a + b) == util_sum(a) + util_sum(b),
    decreases b.len(),
{
    if b.len() == 0 {
        assert(a + b =~= a);
    } else {
        assert((a + b).drop_last() =~= a + b.drop_last());
        lemma_util_sum_append(a, b.drop_last());
    }
}

/// A filtered transaction, its items in ascending TWU order, with each item's utility and
/// the summed utility of the items after it.
#[derive(Clone, Debug)]
pub struct OriginalTx {
    pub items: Vec<ItemId>,
    pub utilities: Vec<Utility>,
    pub remaining_utilities: Vec<Utility>,
}

/// A transaction in the projection of a prefix: which transaction, the position the scan
/// resumes at, the prefix's utility there, and that plus the utility after it.
#[derive(Clone, Copy, Debug)]
pub struct ProjTx {
    pub tx_idx: u32,
    pub offset: u16,
    pub prefix_utility: Utility,
    pub path_utility: Utility,
}

/// The transactions hold the rows.
pub open spec fn db_ok(db: Seq<OriginalTx>, rows: Seq<Seq<ItemEntry>>) -> bool {
    &&& db.len() == rows.len()
    &&& forall|i: int| 0 <= i < db.len() ==> {
        &&& (#[trigger] db[i]).items@ == row_items(rows[i])
        &&& db[i].utilities@ == row_utils(rows[i])
        &&& db[i].remaining_utilities@.len() == rows[i].len()
        &&& rows[i].len() < 65535
    }
}

/// The machine projection holds the entries.
pub open spec fn proj_ok(proj: Seq<ProjTx>, es: Seq<(int, int, int)>) -> bool {
    &&& proj.len() == es.len()
    &&& forall|k: int| 0 <= k < proj.len() ==> {
        &&& (#[trigger] proj[k]).tx_idx == es[k].0
        &&& proj[k].offset == es[k].1
        &&& proj[k].prefix_utility == es[k].2
    }
}

/// The first position at or after `from` holding `x`.
fn find_from(items: &Vec<ItemId>, x: ItemId, from: usize) -> (r: Option<usize>)
    ensures
        r matches Some(pos) ==> first_from(items@, x, from as int) == Some(pos as int),
        r is None ==> first_from(items@, x, from as int) is None,
{
    let mut i = from;
    while i < items.len()
        invariant
            from <= i,
            first_from(items@, x, from as int) == first_from(items@, x, i as int),
        decreases items@.len() - i,
    {
        if items[i] == x {
            return Some(i);
        }
        i += 1;
    }
    None
}

/// The projection of the prefix followed by `x`, and the summed utility of its entries.
/// Each entry of the projection resumes after a position of its transaction, and its
/// path utility is its prefix utility plus the remaining utility at that position.
pub open spec fn paths_ok(db: Seq<OriginalTx>, proj: Seq<ProjTx>) -> bool {
    forall|k: int| 0 <= k < proj.len() ==> (#[trigger] proj[k]).offset >= 1
        && proj[k].path_utility == proj[k].prefix_utility + db[proj[k].tx_idx as int].remaining_utilities@[proj[k].offset - 1]
}

fn extend(
    db: &Vec<OriginalTx>,
    proj: &Vec<ProjTx>,
    x: ItemId,
    Ghost(rows): Ghost<Seq<Seq<ItemEntry>>>,
    Ghost(p): Ghost<Seq<ItemId>>,
) -> (r: Option<(Vec<ProjTx>, Utility)>)
    requires
        db_ok(db@, rows),
        rows.len() <= u32::MAX,
        proj_ok(proj@, proj_of(rows, p, rows.len() as int)),
    ensures
        r matches Some((np, u)) ==> proj_ok(np@, proj_of(rows, p.push(x), rows.len() as int))
            && u == ordered_utility(rows, p.push(x)) && paths_ok(db@, np@),
{
    let ghost es = proj_of(rows, p, rows.len() as int);
    proof {
        lemma_proj_entries(rows, p, rows.len() as int);
    }
    let mut np: Vec<ProjTx> = Vec::new();
    let mut total: Utility = 0;
    let mut k: usize = 0;
    while k < proj.len()
        invariant
            db_ok(db@, rows),
            rows.len() <= u32::MAX,
            es == proj_of(rows, p, rows.len() as int),
            proj_ok(proj@, es),
            forall|q: int| 0 <= q < es.len() ==> {
                let e = #[trigger] es[q];
                &&& 0 <= e.0 < rows.len()
                &&& p.len() <= e.1 <= rows[e.0].len()
            },
            k <= proj@.len(),
            proj_ok(np@, ext_of(rows, es.take(k as int), x)),
            paths_ok(db@, np@),
            total == util_sum(ext_of(rows, es.take(k as int), x)),
        decreases proj@.len() - k,
    {
        let e = proj[k];
        let ghost ge = es[k as int];
        proof {
            assert(proj@[k as int] == e);
            assert(es.take(k + 1) =~= es.take(k as int).push(ge));
            lemma_ext_push(rows, es.take(k as int), ge, x);
        }
        let t = &db[e.tx_idx as usize];
        proof {
            assert(db@[ge.0] == *t);
            lemma_first_from(row_items(rows[ge.0]), x, ge.1);
        }
        match find_from(&t.items, x, e.offset as usize) {
            Some(pos) => {
                proof {
                    assert(t.utilities@[pos as int] == rows[ge.0][pos as int].utility);
                }
                let pu = match e.prefix_utility.checked_add(t.utilities[pos]) {
                    Some(v) => v,
                    None => {
                        return None;
                    },
                };
                let path = match pu.checked_add(t.remaining_utilities[pos]) {
                    Some(v) => v,
                    None => {
                        return None;
                    },
                };
                let ghost before = np@;
                let ghost ext = ext_of(rows, es.take(k as int), x);
                np.push(ProjTx { tx_idx: e.tx_idx, offset: (pos + 1) as u16, prefix_utility: pu, path_utility: path });
                proof {
                    let one = ext_entry(rows, ge, x);
                    assert(one == seq![(ge.0, pos + 1, ge.2 + rows[ge.0][pos as int].utility)]);
                    lemma_util_sum_append(ext, one);
                    assert(util_sum(one) == pu) by {
                        assert(one.drop_last() =~= Seq::<(int, int, int)>::empty());
                        assert(util_sum(one.drop_last()) == 0);
                        assert(one.last().2 == ge.2 + rows[ge.0][pos as int].utility);
                        assert(e.prefix_utility == ge.2);
                    }
                    assert(np@[before.len() as int].offset == pos + 1);
                    assert forall|q: int| 0 <= q < np@.len() implies (#[trigger] np@[q]).offset >= 1
                        && np@[q].path_utility == np@[q].prefix_utility + db@[np@[q].tx_idx as int].remaining_utilities@[np@[q].offset - 1] by {
                        if q < before.len() {
                            assert(np@[q] == before[q]);
                        }
                    }
                    assert forall|q: int| 0 <= q < np@.len() implies {
                        &&& (#[trigger] np@[q]).tx_idx == (ext + one)[q].0
                        &&& np@[q].offset == (ext + one)[q].1
                        &&& np@[q].prefix_utility == (ext + one)[q].2
                    } by {
                        if q < before.len() {
                            assert(np@[q] == before[q]);
                            assert((ext + one)[q] == ext[q]);
                        } else {
                            assert((ext + one)[q] == one[0]);
                        }
                    }
                }
                total = match total.checked_add(pu) {
                    Some(v) => v,
                    None => {
                        return None;
                    },
                };
            },
            None => {
                proof {
                    assert(ext_entry(rows, ge, x) =~= Seq::<(int, int, int)>::empty());
                    assert(ext_of(rows, es.take(k as int), x) + Seq::<(int, int, int)>::empty()
                        =~= ext_of(rows, es.take(k as int), x));
                }
            },
        }
        k += 1;
    }
    proof {
        assert(es.take(k as int) =~= es);
        lemma_ext(rows, p, x, rows.len() as int);
        lemma_proj_sum(rows, p.push(x), rows.len() as int);
        assert(rows.take(rows.len() as int) =~= rows);
    }
    Some((np, total))
}

/// Bytes one projection entry takes in memory.
const PROJ_ENTRY_SIZE: usize = 24;

/// Bytes a loaded transaction is charged per item: its id, utility and remaining utility.
const TX_ITEM_BYTES: usize = 20;

/// The TWU of every item that passes the filter at `min_utility`.
pub open spec fn twu_map(txs: Seq<RawTransaction>, min_utility: Utility) -> Map<ItemId, Utility> {
    Map::new(|x: ItemId| passing(txs, min_utility, x), |x: ItemId| spec_twu(txs, x) as Utility)
}

/// The rows mined: each transaction's entries whose item is in `m`, stably sorted by
/// ascending `m`; transactions left without entries are dropped.
pub open spec fn efim_rows(txs: Seq<RawTransaction>, m: Map<ItemId, Utility>) -> Seq<Seq<ItemEntry>>
    decreases txs.len(),
{
    if txs.len() == 0 {
        Seq::empty()
    } else {
        let k = kept_items(txs.last().items@, m);
        efim_rows(txs.drop_last(), m) + (if k.len() > 0 {
            seq![stable_sort(k, m)]
        } else {
            Seq::empty()
        })
    }
}

/// Every reported itemset carries its utility found in order over the rows, which reaches
/// `min_utility`.
pub open spec fn sound_rows(rows: Seq<Seq<ItemEntry>>, min_utility: Utility, huis: Seq<Hui>) -> bool {
    forall|q: int| 0 <= q < huis.len() ==> {
        &&& (#[trigger] huis[q]).1 == ordered_utility(rows, huis[q].0@)
        &&& huis[q].1 >= min_utility
    }
}

pub(crate) proof fn lemma_kept_len(items: Seq<ItemEntry>, m: Map<ItemId, Utility>)
    ensures
        kept_items(items, m).len() <= items.len(),
    decreases items.len(),
{
    if items.len() > 0 {
        lemma_kept_len(items.drop_last(), m);
    }
}

proof fn lemma_insert_stable_len(t: Seq<ItemEntry>, e: ItemEntry, key: Map<ItemId, Utility>)
    ensures
        insert_stable(t, e, key).len() == t.len() + 1,
    decreases t.len(),
{
    if t.len() > 0 {
        lemma_insert_stable_len(t.drop_last(), e, key);
    }
}

pub(crate) proof fn lemma_stable_sort_len(s: Seq<ItemEntry>, key: Map<ItemId, Utility>)
    ensures
        stable_sort(s, key).len() == s.len(),
    decreases s.len(),
{
    if s.len() > 0 {
        lemma_stable_sort_len(s.drop_last(), key);
        lemma_insert_stable_len(stable_sort(s.drop_last(), key), s.last(), key);
    }
}

proof fn lemma_rows_len(txs: Seq<RawTransaction>, m: Map<ItemId, Utility>)
    ensures
        efim_rows(txs, m).len() <= txs.len(),
    decreases txs.len(),
{
    if txs.len() > 0 {
        lemma_rows_len(txs.drop_last(), m);
    }
}

/// The utilities of the entries, in order.
fn entry_utils(entries: &Vec<ItemEntry>) -> (r: Vec<Utility>)
    ensures
        r@ == entries@.map_values(|e: ItemEntry| e.utility),
{
    let mut utils: Vec<Utility> = Vec::new();
    let mut q: usize = 0;
    while q < entries.len()
        invariant
            q <= entries@.len(),
            utils@ == entries@.take(q as int).map_values(|e: ItemEntry| e.utility),
        decreases entries@.len() - q,
    {
        utils.push(entries[q].utility);
        q += 1;
        proof {
            assert(utils@ =~= entries@.take(q as int).map_values(|e: ItemEntry| e.utility));
        }
    }
    proof {
        assert(entries@.take(q as int) =~= entries@);
    }
    utils
}

/// The utilities from position `i` on, summed.
pub open spec fn tail_sum(u: Seq<i64>, i: int) -> int
    decreases u.len() - i,
{
    if 0 <= i < u.len() { u[i] + tail_sum(u, i + 1) } else { 0 }
}

/// Every sum of the utilities from a position on stays within `i64`.
pub open spec fn rests_fit(u: Seq<i64>) -> bool {
    forall|i: int| 0 <= i <= u.len() ==> i64::MIN <= #[trigger] tail_sum(u, i) <= i64::MAX
}

/// A transaction of the rows, with the summed utility after each of its items; `None`
/// when a sum leaves the range of `i64`.
fn load_tx(entries: &Vec<ItemEntry>) -> (r: Option<OriginalTx>)
    ensures
        r matches Some(t) ==> {
            &&& t.items@ == row_items(entries@)
            &&& t.utilities@ == row_utils(entries@)
            &&& t.remaining_utilities@.len() == entries@.len()
            &&& forall|i: int| 0 <= i < entries@.len()
                ==> #[trigger] t.remaining_utilities@[i] == tail_sum(row_utils(entries@), i + 1)
        },
        rests_fit(row_utils(entries@)) ==> r is Some,
{
    let items = entry_items(entries);
    let utilities = entry_utils(entries);
    let n = utilities.len();
    let mut remaining: Vec<Utility> = Vec::new();
    let mut q: usize = 0;
    while q < n
        invariant
            q <= n,
            remaining@.len() == q,
        decreases n - q,
    {
        remaining.push(0);
        q += 1;
    }
    let mut ru: Utility = 0;
    let mut i = n;
    while i > 0
        invariant
            i <= n,
            n == utilities@.len(),
            utilities@ == row_utils(entries@),
            remaining@.len() == n,
            ru == tail_sum(utilities@, i as int),
            forall|j: int| i <= j < n ==> #[trigger] remaining@[j] == tail_sum(utilities@, j + 1),
        decreases i,
    {
        i -= 1;
        remaining.set(i, ru);
        ru = match ru.checked_add(utilities[i]) {
            Some(v) => v,
            None => {
                proof {
                    assert(tail_sum(utilities@, i as int) == utilities@[i as int] + tail_sum(utilities@, i + 1));
                    assert(!(i64::MIN <= tail_sum(utilities@, i as int) <= i64::MAX));
                }
                return None;
            },
        };
    }
    Some(OriginalTx { items, utilities, remaining_utilities: remaining })
}

/// The transactions of the rows, loaded; `None` when a remaining utility leaves the range
/// of `i64`.
fn build_db(
    fts: &Vec<Option<FilteredTransaction>>,
    Ghost(txs): Ghost<Seq<RawTransaction>>,
    Ghost(m): Ghost<Map<ItemId, Utility>>,
) -> (r: Option<Vec<OriginalTx>>)
    requires
        filtered_ok(txs, fts@, m),
        forall|t: int| 0 <= t < txs.len() ==> (#[trigger] txs[t]).items@.len() < 65535,
    ensures
        r matches Some(db) ==> db_ok(db@, efim_rows(txs, m)),
        (forall|t: int| 0 <= t < txs.len()
            ==> #[trigger] rests_fit(row_utils(stable_sort(kept_items(txs[t].items@, m), m)))) ==> r is Some,
{
    let mut db: Vec<OriginalTx> = Vec::new();
    let mut t: usize = 0;
    proof {
        assert(txs.take(0) =~= Seq::<RawTransaction>::empty());
    }
    while t < fts.len()
        invariant
            filtered_ok(txs, fts@, m),
            forall|q: int| 0 <= q < txs.len() ==> (#[trigger] txs[q]).items@.len() < 65535,
            t <= fts@.len(),
            db_ok(db@, efim_rows(txs.take(t as int), m)),
        decreases fts@.len() - t,
    {
        let ghost prev = efim_rows(txs.take(t as int), m);
        let ghost k = kept_items(txs[t as int].items@, m);
        proof {
            assert(txs.take(t + 1).drop_last() =~= txs.take(t as int));
            assert(txs.take(t + 1).last() == txs[t as int]);
            lemma_kept_len(txs[t as int].items@, m);
            lemma_stable_sort_len(k, m);
        }
        let kept_some = match &fts[t] {
            Some(ft) => ft.items.len() > 0,
            None => false,
        };
        if kept_some {
            let ft = fts[t].as_ref().unwrap();
            proof {
                assert(fts@[t as int] == Some(*ft));
                assert(ft.items@ == stable_sort(k, m));
            }
            let tx = match load_tx(&ft.items) {
                Some(v) => v,
                None => {
                    proof {
                        assert(!rests_fit(row_utils(stable_sort(kept_items(txs[t as int].items@, m), m))));
                    }
                    return None;
                },
            };
            let ghost before = db@;
            db.push(tx);
            proof {
                assert(efim_rows(txs.take(t + 1), m) == prev + seq![stable_sort(k, m)]);
                let rows = prev + seq![stable_sort(k, m)];
                assert forall|i: int| 0 <= i < db@.len() implies {
                    &&& (#[trigger] db@[i]).items@ == row_items(rows[i])
                    &&& db@[i].utilities@ == row_utils(rows[i])
                    &&& db@[i].remaining_utilities@.len() == rows[i].len()
                    &&& rows[i].len() < 65535
                } by {
                    if i < before.len() {
                        assert(db@[i] == before[i]);
                        assert(rows[i] == prev[i]);
                    } else {
                        assert(rows[i] == stable_sort(k, m));
                    }
                }
            }
        } else {
            proof {
                assert(k.len() == 0);
                assert(efim_rows(txs.take(t + 1), m) =~= prev);
            }
        }
        t += 1;
    }
    proof {
        assert(txs.take(t as int) =~= txs);
    }
    Some(db)
}

/// The projection entries all name a row and resume within it.
pub open spec fn entries_in_rows(es: Seq<(int, int, int)>, rows: Seq<Seq<ItemEntry>>) -> bool {
    forall|q: int| 0 <= q < es.len() ==> {
        let e = #[trigger] es[q];
        &&& 0 <= e.0 < rows.len()
        &&& 0 <= e.1 <= rows[e.0].len()
    }
}

/// `p` is not empty and is found in order in one of the rows.
pub open spec fn found_in_rows(rows: Seq<Seq<ItemEntry>>, p: Seq<u32>) -> bool {
    p.len() > 0 && exists|i: int| 0 <= i < rows.len() && (#[trigger] scan(rows[i], p)) is Some
}

/// The bytes `n` entries of `per` bytes take, or `usize::MAX` when that does not fit.
fn bytes_for(n: usize, per: usize) -> (r: usize)
    ensures
        r == (if n * per <= usize::MAX { (n * per) as usize } else { usize::MAX }),
{
    match n.checked_mul(per) {
        Some(b) => b,
        None => usize::MAX,
    }
}

/// The position of `item` among the candidates.
fn lookup(cands: &Vec<(ItemId, Utility, Utility)>, item: ItemId) -> (r: Option<usize>)
    ensures
        r matches Some(i) ==> i < cands@.len() && cands@[i as int].0 == item,
        r matches Some(i) ==> forall|q: int| 0 <= q < i ==> (#[trigger] cands@[q]).0 != item,
        r is None ==> forall|q: int| 0 <= q < cands@.len() ==> (#[trigger] cands@[q]).0 != item,
{
    let mut i: usize = 0;
    while i < cands.len()
        invariant
            i <= cands@.len(),
            forall|q: int| 0 <= q < i ==> (#[trigger] cands@[q]).0 != item,
        decreases cands@.len() - i,
    {
        if cands[i].0 == item {
            return Some(i);
        }
        i += 1;
    }
    None
}

/// Whether `item` is already listed.
fn listed(valid: &Vec<(ItemId, Utility)>, item: ItemId) -> (r: bool)
    ensures
        r == exists|q: int| 0 <= q < valid@.len() && (#[trigger] valid@[q]).0 == item,
{
    let mut i: usize = 0;
    while i < valid.len()
        invariant
            i <= valid@.len(),
            forall|q: int| 0 <= q < i ==> (#[trigger] valid@[q]).0 != item,
        decreases valid@.len() - i,
    {
        if valid[i].0 == item {
            return true;
        }
        i += 1;
    }
    false
}

/// The local utility of `x` in a projected transaction over positions `off..n`: the
/// entry's path utility `w` once for each of those positions that holds `x`.
pub open spec fn lu_row(items: Seq<ItemId>, off: int, n: int, x: ItemId, w: int) -> int
    decreases n - off,
{
    if n <= off {
        0
    } else {
        lu_row(items, off, n - 1, x, w) + (if items[n - 1] == x { w } else { 0 })
    }
}

/// The subtree utility of `x` in a projected transaction over positions `off..n`: for each
/// of those positions that holds `x`, the prefix's utility `pu` there plus the utility and
/// the remaining utility at that position.
pub open spec fn su_row(t: OriginalTx, off: int, n: int, x: ItemId, pu: int) -> int
    decreases n - off,
{
    if n <= off {
        0
    } else {
        su_row(t, off, n - 1, x, pu) + (if t.items@[n - 1] == x {
            pu + t.utilities@[n - 1] + t.remaining_utilities@[n - 1]
        } else {
            0
        })
    }
}

/// The local utility of `x` over the first `m` entries of a projection: the path
/// utilities of the entries, once for each time `x` follows where their scan resumes.
pub open spec fn local_utility(db: Seq<OriginalTx>, proj: Seq<ProjTx>, m: int, x: ItemId) -> int
    decreases m,
{
    if m <= 0 {
        0
    } else {
        local_utility(db, proj, m - 1, x) + lu_row(
            db[proj[m - 1].tx_idx as int].items@,
            proj[m - 1].offset as int,
            db[proj[m - 1].tx_idx as int].items@.len() as int,
            x,
            proj[m - 1].path_utility as int,
        )
    }
}

/// The subtree utility of `x` over the first `m` entries of a projection.
pub open spec fn subtree_utility(db: Seq<OriginalTx>, proj: Seq<ProjTx>, m: int, x: ItemId) -> int
    decreases m,
{
    if m <= 0 {
        0
    } else {
        subtree_utility(db, proj, m - 1, x) + su_row(
            db[proj[m - 1].tx_idx as int],
            proj[m - 1].offset as int,
            db[proj[m - 1].tx_idx as int].items@.len() as int,
            x,
            proj[m - 1].prefix_utility as int,
        )
    }
}

/// `x` is found after where the scan resumes in one of the projected transactions.
pub open spec fn occurs_after(db: Seq<OriginalTx>, proj: Seq<ProjTx>, x: ItemId) -> bool {
    exists|k: int, j: int| 0 <= k < proj.len() && proj[k].offset <= j < db[proj[k].tx_idx as int].items@.len()
        && #[trigger] db[proj[k].tx_idx as int].items@[j] == x
}

/// For each item after where the scan resumes in a projected transaction, in order of
/// first appearance: the summed path utilities of those transactions, and the summed
/// utilities of the prefix, the item and what follows it there. `None` when a sum leaves
/// the range of `i64`.
fn gather(
    db: &Vec<OriginalTx>,
    proj: &Vec<ProjTx>,
    Ghost(rows): Ghost<Seq<Seq<ItemEntry>>>,
    Ghost(es): Ghost<Seq<(int, int, int)>>,
) -> (r: Option<Vec<(ItemId, Utility, Utility)>>)
    requires
        db_ok(db@, rows),
        proj_ok(proj@, es),
        entries_in_rows(es, rows),
    ensures
        r matches Some(cands) ==> gathered(rows, es, cands@),
        r matches Some(cands) ==> forall|c: int| 0 <= c < cands@.len()
            ==> (#[trigger] cands@[c]).1 == local_utility(db@, proj@, proj@.len() as int, cands@[c].0)
            && cands@[c].2 == subtree_utility(db@, proj@, proj@.len() as int, cands@[c].0),
{
    let mut cands: Vec<(ItemId, Utility, Utility)> = Vec::new();
    let mut k: usize = 0;
    while k < proj.len()
        invariant
            db_ok(db@, rows),
            proj_ok(proj@, es),
            entries_in_rows(es, rows),
            k <= proj@.len(),
            forall|a: int, b: int| 0 <= a < b < cands@.len() ==> cands@[a].0 != cands@[b].0,
            forall|q: int, j: int| 0 <= q < k && es[q].1 <= j < rows[es[q].0].len()
                ==> #[trigger] has_cand(cands@, rows[es[q].0][j].item),
            forall|c: int| 0 <= c < cands@.len()
                ==> (#[trigger] cands@[c]).1 == local_utility(db@, proj@, k as int, cands@[c].0)
                && cands@[c].2 == subtree_utility(db@, proj@, k as int, cands@[c].0),
            forall|x: ItemId| !has_cand(cands@, x) ==> #[trigger] local_utility(db@, proj@, k as int, x) == 0
                && subtree_utility(db@, proj@, k as int, x) == 0,
        decreases proj@.len() - k,
    {
        let e = proj[k];
        proof {
            assert(proj@[k as int] == e);
            assert(0 <= es[k as int].0 < rows.len());
        }
        let t = &db[e.tx_idx as usize];
        proof {
            assert(db@[es[k as int].0] == *t);
        }
        let mut i = e.offset as usize;
        let ghost start = cands@;
        let ghost off = e.offset as int;
        let ghost w = e.path_utility as int;
        let ghost pu = e.prefix_utility as int;
        proof {
            assert(t.items@.len() == rows[es[k as int].0].len());
        }
        while i < t.items.len()
            invariant
                e == proj@[k as int],
                *t == db@[e.tx_idx as int],
                off == e.offset as int,
                w == e.path_utility as int,
                pu == e.prefix_utility as int,
                forall|c: int| 0 <= c < cands@.len()
                    ==> (#[trigger] cands@[c]).1 == local_utility(db@, proj@, k as int, cands@[c].0) + lu_row(t.items@, off, i as int, cands@[c].0, w)
                    && cands@[c].2 == subtree_utility(db@, proj@, k as int, cands@[c].0) + su_row(*t, off, i as int, cands@[c].0, pu),
                forall|x: ItemId| !has_cand(cands@, x) ==> #[trigger] local_utility(db@, proj@, k as int, x) + lu_row(t.items@, off, i as int, x, w) == 0
                    && subtree_utility(db@, proj@, k as int, x) + su_row(*t, off, i as int, x, pu) == 0,
                t.items@.len() == t.utilities@.len(),
                t.items@.len() == t.remaining_utilities@.len(),
                t.items@ == row_items(rows[es[k as int].0]),
                e.offset == es[k as int].1,
                0 <= es[k as int].0 < rows.len(),
                e.offset <= i,
                i <= t.items@.len(),
                items_kept(start, cands@),
                forall|a: int, b: int| 0 <= a < b < cands@.len() ==> cands@[a].0 != cands@[b].0,
                forall|j: int| es[k as int].1 <= j < i ==> #[trigger] has_cand(cands@, rows[es[k as int].0][j].item),
            decreases t.items@.len() - i,
        {
            let item = t.items[i];
            let ghost c0 = cands@;
            proof {
                assert(item == rows[es[k as int].0][i as int].item);
            }
            let su = match e.prefix_utility.checked_add(t.utilities[i]) {
                Some(a) => match a.checked_add(t.remaining_utilities[i]) {
                    Some(b) => b,
                    None => {
                        return None;
                    },
                },
                None => {
                    return None;
                },
            };
            let ghost mut at: int = 0;
            match lookup(&cands, item) {
                Some(c) => {
                    let (_, lu0, su0) = cands[c];
                    let lu1 = match lu0.checked_add(e.path_utility) {
                        Some(v) => v,
                        None => {
                            return None;
                        },
                    };
                    let su1 = match su0.checked_add(su) {
                        Some(v) => v,
                        None => {
                            return None;
                        },
                    };
                    cands.set(c, (item, lu1, su1));
                    proof {
                        at = c as int;
                        assert(c0[at].1 == local_utility(db@, proj@, k as int, item) + lu_row(t.items@, off, i as int, item, w));
                        assert(c0[at].2 == subtree_utility(db@, proj@, k as int, item) + su_row(*t, off, i as int, item, pu));
                        assert forall|j: int| 0 <= j < c0.len() implies #[trigger] cands@[j].0 == c0[j].0 by {}
                        assert(has_cand(cands@, item)) by {
                            assert(cands@[c as int].0 == item);
                        }
                    }
                },
                None => {
                    cands.push((item, e.path_utility, su));
                    proof {
                        at = c0.len() as int;
                        assert(!has_cand(c0, item));
                        assert(local_utility(db@, proj@, k as int, item) + lu_row(t.items@, off, i as int, item, w) == 0);
                        assert forall|j: int| 0 <= j < c0.len() implies #[trigger] cands@[j].0 == c0[j].0 by {
                            assert(cands@[j] == c0[j]);
                        }
                        assert(has_cand(cands@, item)) by {
                            assert(cands@[c0.len() as int].0 == item);
                        }
                        assert forall|a: int, b: int| 0 <= a < b < cands@.len() implies cands@[a].0 != cands@[b].0 by {
                            if b == c0.len() {
                                assert(cands@[a] == c0[a]);
                            } else {
                                assert(cands@[a] == c0[a] && cands@[b] == c0[b]);
                            }
                        }
                    }
                },
            }
            proof {
                let ii = i as int;
                assert(t.items@[ii] == item);
                assert(has_cand(cands@, item));
                assert(0 <= at < cands@.len() && cands@[at].0 == item);
                assert(cands@[at].1 == local_utility(db@, proj@, k as int, item) + lu_row(t.items@, off, ii, item, w) + w);
                assert(cands@[at].2 == subtree_utility(db@, proj@, k as int, item) + su_row(*t, off, ii, item, pu) + su);
                assert(forall|j: int| 0 <= j < cands@.len() && j != at ==> #[trigger] cands@[j] == c0[j]);
                assert forall|c: int| 0 <= c < cands@.len() implies (#[trigger] cands@[c]).1 == local_utility(db@, proj@, k as int, cands@[c].0) + lu_row(t.items@, off, ii + 1, cands@[c].0, w)
                    && cands@[c].2 == subtree_utility(db@, proj@, k as int, cands@[c].0) + su_row(*t, off, ii + 1, cands@[c].0, pu) by {
                    let y = cands@[c].0;
                    assert(lu_row(t.items@, off, ii + 1, y, w) == lu_row(t.items@, off, ii, y, w) + (if t.items@[ii] == y { w } else { 0 }));
                    assert(su_row(*t, off, ii + 1, y, pu) == su_row(*t, off, ii, y, pu) + (if t.items@[ii] == y {
                        pu + t.utilities@[ii] + t.remaining_utilities@[ii]
                    } else {
                        0
                    }));
                    if c != at {
                        assert(cands@[c] == c0[c]);
                        assert(y != item);
                    }
                }
                assert forall|x: ItemId| !has_cand(cands@, x) implies #[trigger] local_utility(db@, proj@, k as int, x) + lu_row(t.items@, off, ii + 1, x, w) == 0
                    && subtree_utility(db@, proj@, k as int, x) + su_row(*t, off, ii + 1, x, pu) == 0 by {
                    assert(x != item);
                    if has_cand(c0, x) {
                        let q = choose|q: int| 0 <= q < c0.len() && c0[q].0 == x;
                        assert(cands@[q].0 == c0[q].0);
                        assert(has_cand(cands@, x));
                    }
                    assert(local_utility(db@, proj@, k as int, x) + lu_row(t.items@, off, ii, x, w) == 0);
                    assert(subtree_utility(db@, proj@, k as int, x) + su_row(*t, off, ii, x, pu) == 0);
                    assert(lu_row(t.items@, off, ii + 1, x, w) == lu_row(t.items@, off, ii, x, w));
                    assert(su_row(*t, off, ii + 1, x, pu) == su_row(*t, off, ii, x, pu));
                }
                lemma_kept_trans(start, c0, cands@);
                assert forall|j: int| es[k as int].1 <= j < i + 1 implies #[trigger] has_cand(cands@, rows[es[k as int].0][j].item) by {
                    if j < i {
                        lemma_has_cand_kept(c0, cands@, rows[es[k as int].0][j].item);
                    }
                }
            }
            i += 1;
        }
        proof {
            assert forall|q: int, j: int| 0 <= q < k + 1 && es[q].1 <= j < rows[es[q].0].len()
                implies #[trigger] has_cand(cands@, rows[es[q].0][j].item) by {
                if q < k {
                    lemma_has_cand_kept(start, cands@, rows[es[q].0][j].item);
                } else {
                    assert(rows[es[q].0].len() == t.items@.len());
                }
            }
            assert(i == t.items@.len());
            assert forall|c: int| 0 <= c < cands@.len() implies (#[trigger] cands@[c]).1 == local_utility(db@, proj@, k + 1, cands@[c].0)
                && cands@[c].2 == subtree_utility(db@, proj@, k + 1, cands@[c].0) by {
                assert(local_utility(db@, proj@, k + 1, cands@[c].0) == local_utility(db@, proj@, k as int, cands@[c].0)
                    + lu_row(t.items@, off, t.items@.len() as int, cands@[c].0, w));
                assert(subtree_utility(db@, proj@, k + 1, cands@[c].0) == subtree_utility(db@, proj@, k as int, cands@[c].0)
                    + su_row(*t, off, t.items@.len() as int, cands@[c].0, pu));
            }
            assert forall|x: ItemId| !has_cand(cands@, x) implies #[trigger] local_utility(db@, proj@, k + 1, x) == 0
                && subtree_utility(db@, proj@, k + 1, x) == 0 by {
                assert(local_utility(db@, proj@, k + 1, x) == local_utility(db@, proj@, k as int, x)
                    + lu_row(t.items@, off, t.items@.len() as int, x, w));
                assert(subtree_utility(db@, proj@, k + 1, x) == subtree_utility(db@, proj@, k as int, x)
                    + su_row(*t, off, t.items@.len() as int, x, pu));
            }
        }
        k += 1;
    }
    Some(cands)
}

/// The candidates hold each item found after where the scan of a projected transaction
/// resumes, once each.
pub open spec fn gathered(rows: Seq<Seq<ItemEntry>>, es: Seq<(int, int, int)>, cands: Seq<(ItemId, Utility, Utility)>) -> bool {
    &&& forall|a: int, b: int| 0 <= a < b < cands.len() ==> cands[a].0 != cands[b].0
    &&& forall|q: int, j: int| 0 <= q < es.len() && es[q].1 <= j < rows[es[q].0].len()
        ==> #[trigger] has_cand(cands, rows[es[q].0][j].item)
}

/// One of the candidates is for `x`.
pub open spec fn has_cand(cands: Seq<(ItemId, Utility, Utility)>, x: ItemId) -> bool {
    exists|c: int| 0 <= c < cands.len() && cands[c].0 == x
}

/// `b` keeps the candidates of `a`, by item and position, and may add more.
pub open spec fn items_kept(a: Seq<(ItemId, Utility, Utility)>, b: Seq<(ItemId, Utility, Utility)>) -> bool {
    a.len() <= b.len() && forall|j: int| 0 <= j < a.len() ==> #[trigger] b[j].0 == a[j].0
}

proof fn lemma_kept_trans(a: Seq<(ItemId, Utility, Utility)>, b: Seq<(ItemId, Utility, Utility)>, c: Seq<(ItemId, Utility, Utility)>)
    requires
        items_kept(a, b),
        items_kept(b, c),
    ensures
        items_kept(a, c),
{
    assert forall|j: int| 0 <= j < a.len() implies #[trigger] c[j].0 == a[j].0 by {
        assert(c[j].0 == b[j].0);
    }
}

proof fn lemma_has_cand_kept(a: Seq<(ItemId, Utility, Utility)>, b: Seq<(ItemId, Utility, Utility)>, x: ItemId)
    requires
        has_cand(a, x),
        items_kept(a, b),
    ensures
        has_cand(b, x),
{
    let c = choose|c: int| 0 <= c < a.len() && a[c].0 == x;
    assert(b[c].0 == a[c].0);
}

/// The extension items worth trying, with their summed path utilities: those whose
/// summed utility reaches `min_utility`, ordered by first position after where the scan
/// of the first projected transaction resumes; items absent there follow in order of
/// first appearance.
fn order_extensions(
    db: &Vec<OriginalTx>,
    proj: &Vec<ProjTx>,
    cands: &Vec<(ItemId, Utility, Utility)>,
    min_utility: Utility,
    Ghost(rows): Ghost<Seq<Seq<ItemEntry>>>,
    Ghost(es): Ghost<Seq<(int, int, int)>>,
) -> (r: Vec<(ItemId, Utility)>)
    requires
        db_ok(db@, rows),
        proj_ok(proj@, es),
        entries_in_rows(es, rows),
        proj@.len() > 0,
    ensures
        forall|k: int| 0 <= k < r@.len() ==> #[trigger] worth_trying(cands@, r@[k], min_utility),
        forall|a: int, b: int| 0 <= a < b < r@.len() ==> r@[a].0 != r@[b].0,
        forall|c: int| 0 <= c < cands@.len() && (#[trigger] cands@[c]).2 >= min_utility ==> tried(r@, cands@[c].0),
{
    let mut valid: Vec<(ItemId, Utility)> = Vec::new();
    let first = proj[0];
    proof {
        assert(proj@[0] == first);
        assert(0 <= es[0].0 < rows.len());
    }
    let t = &db[first.tx_idx as usize];
    let mut i = first.offset as usize;
    while i < t.items.len()
        invariant
            forall|k: int| 0 <= k < valid@.len() ==> #[trigger] worth_trying(cands@, valid@[k], min_utility),
            forall|a: int, b: int| 0 <= a < b < valid@.len() ==> valid@[a].0 != valid@[b].0,
        decreases t.items@.len() - i,
    {
        let item = t.items[i];
        match lookup(cands, item) {
            Some(c) => {
                let (_, lu, su) = cands[c];
                if su >= min_utility && !listed(&valid, item) {
                    let ghost v0 = valid@;
                    valid.push((item, lu));
                    proof {
                        assert forall|k: int| 0 <= k < valid@.len() implies #[trigger] worth_trying(cands@, valid@[k], min_utility) by {
                            if k < v0.len() {
                                assert(valid@[k] == v0[k]);
                            } else {
                                assert(cands@[c as int].0 == item);
                            }
                        }
                    }
                }
            },
            None => {},
        }
        i += 1;
    }
    let mut c: usize = 0;
    while c < cands.len()
        invariant
            c <= cands@.len(),
            forall|k: int| 0 <= k < valid@.len() ==> #[trigger] worth_trying(cands@, valid@[k], min_utility),
            forall|a: int, b: int| 0 <= a < b < valid@.len() ==> valid@[a].0 != valid@[b].0,
            forall|c2: int| 0 <= c2 < c && (#[trigger] cands@[c2]).2 >= min_utility ==> tried(valid@, cands@[c2].0),
        decreases cands@.len() - c,
    {
        let (item, lu, su) = cands[c];
        let ghost v0 = valid@;
        if su >= min_utility && !listed(&valid, item) {
            valid.push((item, lu));
            proof {
                assert forall|k: int| 0 <= k < valid@.len() implies #[trigger] worth_trying(cands@, valid@[k], min_utility) by {
                    if k < v0.len() {
                        assert(valid@[k] == v0[k]);
                    }
                }
                assert(valid@[v0.len() as int].0 == item);
            }
        }
        proof {
            assert forall|c2: int| 0 <= c2 < c + 1 && (#[trigger] cands@[c2]).2 >= min_utility implies tried(valid@, cands@[c2].0) by {
                if c2 < c {
                    assert(tried(v0, cands@[c2].0));
                    let k = choose|k: int| 0 <= k < v0.len() && v0[k].0 == cands@[c2].0;
                    assert(valid@[k] == v0[k]);
                } else if tried(v0, item) {
                    let k = choose|k: int| 0 <= k < v0.len() && v0[k].0 == item;
                    assert(valid@[k] == v0[k]);
                } else {
                    assert(valid@[v0.len() as int].0 == item);
                }
            }
        }
        c += 1;
    }
    valid
}

/// `p` is a candidate's item with its summed path utility, its bound reaching
/// `min_utility`.
pub open spec fn worth_trying(cands: Seq<(ItemId, Utility, Utility)>, p: (ItemId, Utility), min_utility: Utility) -> bool {
    exists|c: int| 0 <= c < cands.len() && cands[c].0 == p.0 && cands[c].1 == p.1 && cands[c].2 >= min_utility
}

/// One of the extensions to try adds `x`.
pub open spec fn tried(valid: Seq<(ItemId, Utility)>, x: ItemId) -> bool {
    exists|k: int| 0 <= k < valid.len() && valid[k].0 == x
}

/// A projection is determined by its entries and its path utilities.
proof fn lemma_proj_unique(db: Seq<OriginalTx>, a: Seq<ProjTx>, b: Seq<ProjTx>, es: Seq<(int, int, int)>)
    requires
        proj_ok(a, es),
        proj_ok(b, es),
        paths_ok(db, a),
        paths_ok(db, b),
    ensures
        a == b,
{
    assert forall|k: int| 0 <= k < a.len() implies a[k] == b[k] by {
        assert(a[k].tx_idx == b[k].tx_idx);
        assert(a[k].offset == b[k].offset);
        assert(a[k].prefix_utility == b[k].prefix_utility);
        assert(a[k].path_utility == b[k].path_utility);
    }
    assert(a =~= b);
}

/// `c` is among the itemsets of `out` from position `from` on.
pub open spec fn reported_after(out: Seq<Hui>, from: int, c: Seq<ItemId>) -> bool {
    exists|q: int| from <= q < out.len() && (#[trigger] out[q]).0@ == c
}

/// Searches the extensions of `prefix`, whose projection is `proj`: each item worth
/// trying whose summed path utility reaches `min_utility` extends the projection; when
/// that is not empty, the extended itemset is reported if its utility reaches
/// `min_utility`, and searched in turn with its projection charged to `guard` (a refused
/// charge keeps the projection all the same) and released afterwards.
fn search<S: ChunkStore>(
    db: &Vec<OriginalTx>,
    prefix: &Vec<ItemId>,
    proj: &Vec<ProjTx>,
    min_utility: Utility,
    out: &mut Vec<Hui>,
    guard: &mut MemoryGuard<S>,
    Ghost(rows): Ghost<Seq<Seq<ItemEntry>>>,
) -> (r: Result<(), MiningError>)
    requires
        db_ok(db@, rows),
        rows.len() <= u32::MAX,
        proj_ok(proj@, proj_of(rows, prefix@, rows.len() as int)),
        prefix@.len() < 65535,
        sound_rows(rows, min_utility, old(out)@),
    ensures
        sound_rows(rows, min_utility, final(out)@),
        final(guard).budget_view() == old(guard).budget_view(),
        final(out)@.len() >= old(out)@.len(),
        forall|q: int| 0 <= q < old(out)@.len() ==> #[trigger] final(out)@[q] == old(out)@[q],
        forall|q: int| old(out)@.len() <= q < final(out)@.len() ==> found_in_rows(rows, (#[trigger] final(out)@[q]).0@),
        r is Ok ==> forall|x: ItemId| #[trigger] occurs_after(db@, proj@, x)
            && local_utility(db@, proj@, proj@.len() as int, x) >= min_utility
            && subtree_utility(db@, proj@, proj@.len() as int, x) >= min_utility
            && proj_of(rows, prefix@.push(x), rows.len() as int).len() > 0
            && ordered_utility(rows, prefix@.push(x)) >= min_utility
            ==> reported_after(final(out)@, old(out)@.len() as int, prefix@.push(x)),
        r is Ok ==> forall|x: ItemId, y: ItemId, np2: Seq<ProjTx>| #[trigger] occurs_after(db@, proj@, x)
            && local_utility(db@, proj@, proj@.len() as int, x) >= min_utility
            && subtree_utility(db@, proj@, proj@.len() as int, x) >= min_utility
            && proj_ok(np2, proj_of(rows, prefix@.push(x), rows.len() as int)) && paths_ok(db@, np2)
                && #[trigger] occurs_after(db@, np2, y)
                && local_utility(db@, np2, np2.len() as int, y) >= min_utility
                && subtree_utility(db@, np2, np2.len() as int, y) >= min_utility
                && proj_of(rows, prefix@.push(x).push(y), rows.len() as int).len() > 0
                && ordered_utility(rows, prefix@.push(x).push(y)) >= min_utility
            ==> reported_after(final(out)@, old(out)@.len() as int, prefix@.push(x).push(y)),
    decreases 65535 - prefix@.len(),
{
    if proj.len() == 0 {
        return Ok(());
    }
    let ghost es = proj_of(rows, prefix@, rows.len() as int);
    proof {
        lemma_proj_entries(rows, prefix@, rows.len() as int);
    }
    let cands = match gather(db, proj, Ghost(rows), Ghost(es)) {
        Some(c) => c,
        None => {
            return Err(MiningError::UtilityOverflow);
        },
    };
    let valid = order_extensions(db, proj, &cands, min_utility, Ghost(rows), Ghost(es));
    let mut v: usize = 0;
    while v < valid.len()
        invariant
            db_ok(db@, rows),
            rows.len() <= u32::MAX,
            proj_ok(proj@, proj_of(rows, prefix@, rows.len() as int)),
            prefix@.len() < 65535,
            sound_rows(rows, min_utility, out@),
            guard.budget_view() == old(guard).budget_view(),
            v <= valid@.len(),
            out@.len() >= old(out)@.len(),
            forall|q: int| 0 <= q < old(out)@.len() ==> #[trigger] out@[q] == old(out)@[q],
            forall|q: int| old(out)@.len() <= q < out@.len() ==> found_in_rows(rows, (#[trigger] out@[q]).0@),
            forall|w: int| 0 <= w < v && (#[trigger] valid@[w]).1 >= min_utility
                && proj_of(rows, prefix@.push(valid@[w].0), rows.len() as int).len() > 0
                && ordered_utility(rows, prefix@.push(valid@[w].0)) >= min_utility
                ==> reported_after(out@, old(out)@.len() as int, prefix@.push(valid@[w].0)),
            forall|w: int, y: ItemId, np2: Seq<ProjTx>| 0 <= w < v && (#[trigger] valid@[w]).1 >= min_utility
                && proj_ok(np2, proj_of(rows, prefix@.push(valid@[w].0), rows.len() as int)) && paths_ok(db@, np2)
                && #[trigger] occurs_after(db@, np2, y)
                && local_utility(db@, np2, np2.len() as int, y) >= min_utility
                && subtree_utility(db@, np2, np2.len() as int, y) >= min_utility
                && proj_of(rows, prefix@.push(valid@[w].0).push(y), rows.len() as int).len() > 0
                && ordered_utility(rows, prefix@.push(valid@[w].0).push(y)) >= min_utility
                ==> reported_after(out@, old(out)@.len() as int, prefix@.push(valid@[w].0).push(y)),
        decreases valid@.len() - v,
    {
        let (item, lu) = valid[v];
        let ghost out_v = out@;
        let ghost mut pushed = false;
        if lu >= min_utility {
            let (np, util) = match extend(db, proj, item, Ghost(rows), Ghost(prefix@)) {
                Some(x) => x,
                None => {
                    return Err(MiningError::UtilityOverflow);
                },
            };
            if np.len() > 0 {
                let mut new_prefix = vstd::slice::slice_to_vec(prefix.as_slice());
                new_prefix.push(item);
                let ghost np_es = proj_of(rows, prefix@.push(item), rows.len() as int);
                proof {
                    assert(new_prefix@ == prefix@.push(item));
                    lemma_proj_entries(rows, prefix@.push(item), rows.len() as int);
                    assert(np_es.len() == np@.len());
                    let i0 = np_es[0].0;
                    assert(0 <= i0 < rows.len());
                    assert(db@[i0].remaining_utilities@.len() == rows[i0].len());
                    assert(np_es[0].1 >= new_prefix@.len());
                    assert(np_es[0].1 <= rows[i0].len());
                }
                if util >= min_utility {
                    let reported = vstd::slice::slice_to_vec(new_prefix.as_slice());
                    let ghost before = out@;
                    out.push((reported, util));
                    proof {
                        pushed = true;
                        assert(out@[out_v.len() as int].0@ == prefix@.push(item));
                        assert forall|q: int| 0 <= q < out@.len() implies {
                            &&& (#[trigger] out@[q]).1 == ordered_utility(rows, out@[q].0@)
                            &&& out@[q].1 >= min_utility
                        } by {
                            if q < before.len() {
                                assert(out@[q] == before[q]);
                            }
                        }
                        let i0 = np_es[0].0;
                        assert(scan(rows[i0], new_prefix@) is Some);
                        assert(found_in_rows(rows, new_prefix@));
                        assert forall|q: int| 0 <= q < old(out)@.len() implies #[trigger] out@[q] == old(out)@[q] by {
                            assert(out@[q] == before[q]);
                        }
                        assert forall|q: int| old(out)@.len() <= q < out@.len() implies found_in_rows(rows, (#[trigger] out@[q]).0@) by {
                            if q < before.len() {
                                assert(out@[q] == before[q]);
                            } else {
                                assert(out@[q].0@ == new_prefix@);
                            }
                        }
                    }
                }
                let bytes = bytes_for(np.len(), PROJ_ENTRY_SIZE);
                let _ = guard.try_alloc(bytes);
                let ghost mid = out@;
                match search(db, &new_prefix, &np, min_utility, out, guard, Ghost(rows)) {
                    Ok(()) => {},
                    Err(e) => {
                        return Err(e);
                    },
                }
                proof {
                    if pushed {
                        assert(out@[out_v.len() as int] == mid[out_v.len() as int]);
                        assert(reported_after(out@, old(out)@.len() as int, prefix@.push(item)));
                    }
                    assert forall|q: int| 0 <= q < out_v.len() implies #[trigger] out@[q] == out_v[q] by {
                        assert(out@[q] == mid[q]);
                    }
                    assert forall|q: int| 0 <= q < old(out)@.len() implies #[trigger] out@[q] == old(out)@[q] by {
                        assert(out@[q] == mid[q]);
                    }
                    assert forall|q: int| old(out)@.len() <= q < out@.len() implies found_in_rows(rows, (#[trigger] out@[q]).0@) by {
                        if q < mid.len() {
                            assert(out@[q] == mid[q]);
                        }
                    }
                }
                guard.free(bytes);
                proof {
                    assert forall|y: ItemId, np2: Seq<ProjTx>| proj_ok(np2, proj_of(rows, prefix@.push(item), rows.len() as int)) && paths_ok(db@, np2)
                && #[trigger] occurs_after(db@, np2, y)
                && local_utility(db@, np2, np2.len() as int, y) >= min_utility
                && subtree_utility(db@, np2, np2.len() as int, y) >= min_utility
                && proj_of(rows, prefix@.push(item).push(y), rows.len() as int).len() > 0
                && ordered_utility(rows, prefix@.push(item).push(y)) >= min_utility
                        implies reported_after(out@, old(out)@.len() as int, prefix@.push(item).push(y)) by {
                        lemma_proj_unique(db@, np2, np@, proj_of(rows, prefix@.push(item), rows.len() as int));
                        assert(new_prefix@.push(y) == prefix@.push(item).push(y));
                        let q = choose|q: int| mid.len() <= q < out@.len() && (#[trigger] out@[q]).0@ == new_prefix@.push(y);
                    }
                }
            } else {
                proof {
                    assert forall|y: ItemId, np2: Seq<ProjTx>| proj_ok(np2, proj_of(rows, prefix@.push(item), rows.len() as int)) && paths_ok(db@, np2)
                && #[trigger] occurs_after(db@, np2, y)
                && local_utility(db@, np2, np2.len() as int, y) >= min_utility
                && subtree_utility(db@, np2, np2.len() as int, y) >= min_utility
                && proj_of(rows, prefix@.push(item).push(y), rows.len() as int).len() > 0
                && ordered_utility(rows, prefix@.push(item).push(y)) >= min_utility
                        implies reported_after(out@, old(out)@.len() as int, prefix@.push(item).push(y)) by {
                        assert(np2.len() == np@.len());
                    }
                }
            }
        }
        proof {
            assert(forall|q: int| 0 <= q < out_v.len() ==> #[trigger] out@[q] == out_v[q]);
            assert forall|w: int, y: ItemId, np2: Seq<ProjTx>| 0 <= w < v + 1 && (#[trigger] valid@[w]).1 >= min_utility
                && proj_ok(np2, proj_of(rows, prefix@.push(valid@[w].0), rows.len() as int)) && paths_ok(db@, np2)
                && #[trigger] occurs_after(db@, np2, y)
                && local_utility(db@, np2, np2.len() as int, y) >= min_utility
                && subtree_utility(db@, np2, np2.len() as int, y) >= min_utility
                && proj_of(rows, prefix@.push(valid@[w].0).push(y), rows.len() as int).len() > 0
                && ordered_utility(rows, prefix@.push(valid@[w].0).push(y)) >= min_utility
                implies reported_after(out@, old(out)@.len() as int, prefix@.push(valid@[w].0).push(y)) by {
                if w < v {
                    let q = choose|q: int| old(out)@.len() <= q < out_v.len() && (#[trigger] out_v[q]).0@ == prefix@.push(valid@[w].0).push(y);
                    assert(out@[q] == out_v[q]);
                } else {
                    assert(valid@[w] == (item, lu));
                }
            }
            assert forall|w: int| 0 <= w < v + 1 && (#[trigger] valid@[w]).1 >= min_utility
                && proj_of(rows, prefix@.push(valid@[w].0), rows.len() as int).len() > 0
                && ordered_utility(rows, prefix@.push(valid@[w].0)) >= min_utility
                implies reported_after(out@, old(out)@.len() as int, prefix@.push(valid@[w].0)) by {
                if w < v {
                    let q = choose|q: int| old(out)@.len() <= q < out_v.len() && (#[trigger] out_v[q]).0@ == prefix@.push(valid@[w].0);
                    assert(out@[q] == out_v[q]);
                } else {
                    assert(valid@[w] == (item, lu));
                }
            }
        }
        v += 1;
    }
    proof {
        assert forall|x: ItemId| #[trigger] occurs_after(db@, proj@, x)
            && local_utility(db@, proj@, proj@.len() as int, x) >= min_utility
            && subtree_utility(db@, proj@, proj@.len() as int, x) >= min_utility
            && proj_of(rows, prefix@.push(x), rows.len() as int).len() > 0
            && ordered_utility(rows, prefix@.push(x)) >= min_utility
            implies reported_after(out@, old(out)@.len() as int, prefix@.push(x)) by {
            let (k0, j0) = choose|k: int, j: int| 0 <= k < proj@.len() && proj@[k].offset <= j < db@[proj@[k].tx_idx as int].items@.len()
                && #[trigger] db@[proj@[k].tx_idx as int].items@[j] == x;
            let r0 = es[k0].0;
            assert(proj@[k0].tx_idx == r0 && proj@[k0].offset == es[k0].1);
            assert(db@[r0].items@ == row_items(rows[r0]));
            assert(rows[r0][j0].item == x);
            assert(has_cand(cands@, rows[es[k0].0][j0].item));
            let c = choose|c: int| 0 <= c < cands@.len() && cands@[c].0 == x;
            assert(cands@[c].2 >= min_utility);
            assert(tried(valid@, cands@[c].0));
            let w = choose|w: int| 0 <= w < valid@.len() && valid@[w].0 == x;
            assert(worth_trying(cands@, valid@[w], min_utility));
            let c2 = choose|c2: int| 0 <= c2 < cands@.len() && cands@[c2].0 == valid@[w].0 && cands@[c2].1 == valid@[w].1 && cands@[c2].2 >= min_utility;
            assert(c2 == c) by {
                if c2 < c {
                    assert(cands@[c2].0 != cands@[c].0);
                } else if c < c2 {
                    assert(cands@[c].0 != cands@[c2].0);
                }
            }
            assert(valid@[w].1 >= min_utility);
        }
        assert forall|x: ItemId, y: ItemId, np2: Seq<ProjTx>| #[trigger] occurs_after(db@, proj@, x)
            && local_utility(db@, proj@, proj@.len() as int, x) >= min_utility
            && subtree_utility(db@, proj@, proj@.len() as int, x) >= min_utility
            && proj_ok(np2, proj_of(rows, prefix@.push(x), rows.len() as int)) && paths_ok(db@, np2)
                && #[trigger] occurs_after(db@, np2, y)
                && local_utility(db@, np2, np2.len() as int, y) >= min_utility
                && subtree_utility(db@, np2, np2.len() as int, y) >= min_utility
                && proj_of(rows, prefix@.push(x).push(y), rows.len() as int).len() > 0
                && ordered_utility(rows, prefix@.push(x).push(y)) >= min_utility
            implies reported_after(out@, old(out)@.len() as int, prefix@.push(x).push(y)) by {
            let (k0, j0) = choose|k: int, j: int| 0 <= k < proj@.len() && proj@[k].offset <= j < db@[proj@[k].tx_idx as int].items@.len()
                && #[trigger] db@[proj@[k].tx_idx as int].items@[j] == x;
            let r0 = es[k0].0;
            assert(proj@[k0].tx_idx == r0 && proj@[k0].offset == es[k0].1);
            assert(db@[r0].items@ == row_items(rows[r0]));
            assert(rows[r0][j0].item == x);
            assert(has_cand(cands@, rows[es[k0].0][j0].item));
            let c = choose|c: int| 0 <= c < cands@.len() && cands@[c].0 == x;
            assert(cands@[c].2 >= min_utility);
            assert(tried(valid@, cands@[c].0));
            let w = choose|w: int| 0 <= w < valid@.len() && valid@[w].0 == x;
            assert(worth_trying(cands@, valid@[w], min_utility));
            let c2 = choose|c2: int| 0 <= c2 < cands@.len() && cands@[c2].0 == valid@[w].0 && cands@[c2].1 == valid@[w].1 && cands@[c2].2 >= min_utility;
            assert(c2 == c) by {
                if c2 < c {
                    assert(cands@[c2].0 != cands@[c].0);
                } else if c < c2 {
                    assert(cands@[c].0 != cands@[c2].0);
                }
            }
            assert(valid@[w].1 >= min_utility);
        }
    }
    Ok(())
}

/// EFIM-Closed: depth-first search over the projections of the TWU-sorted transactions.
pub struct EfimClosed {}

impl EfimClosed {
    pub fn new() -> (r: Self) {
        EfimClosed {}
    }

    /// Mines the transactions: TWU filtering, each transaction's passing entries sorted
    /// by ascending TWU, then, for each passing item in ascending TWU order, a
    /// depth-first search over projections. Every reported itemset carries its utility
    /// found in order in the sorted transactions (its items looked for in turn, each
    /// after the previous one), which reaches `min_utility`; when every transaction lists
    /// its items in increasing order, that is its exact utility. The loaded transactions
    /// and the projections are charged to `guard` and released afterwards.
    pub fn mine<S: ChunkStore>(
        &mut self,
        transactions: &[RawTransaction],
        min_utility: Utility,
        guard: &mut MemoryGuard<S>,
    ) -> (r: Result<Vec<Hui>, MiningError>)
        requires
            abs_weight(transactions@) <= i64::MAX,
            transactions@.len() <= u32::MAX,
            forall|t: int| 0 <= t < transactions@.len() ==> (#[trigger] transactions@[t]).items@.len() < 65535,
        ensures
            final(guard).budget_view() == old(guard).budget_view(),
            r matches Ok(huis) ==> sound_rows(
                efim_rows(transactions@, twu_map(transactions@, min_utility)),
                min_utility,
                huis@,
            ),
            r matches Ok(huis) ==> (db_ascending(transactions@) ==> sound_huis(transactions@, min_utility, huis@)),
            r matches Ok(huis) ==> (db_ascending(transactions@) && mining_complete(transactions@, min_utility) ==> forall|y: ItemId|
                db_utility(transactions@, seq![y]) >= min_utility ==> #[trigger] reported(huis@, seq![y])),
    {
        proof {
            lemma_weight_twu_fits(transactions@);
        }
        let res = TwuFilter::new(min_utility).compute(transactions);
        let ghost m = res.twu@;
        let ghost rows = efim_rows(transactions@, m);
        proof {
            assert(m =~= twu_map(transactions@, min_utility));
            lemma_rows_len(transactions@, m);
        }
        let fts = filter_all(&res, transactions);
        let db = match build_db(&fts, Ghost(transactions@), Ghost(m)) {
            Some(d) => d,
            None => {
                return Err(MiningError::UtilityOverflow);
            },
        };
        let mut db_size: usize = 0;
        let mut i: usize = 0;
        while i < db.len()
            decreases db@.len() - i,
        {
            db_size = db_size.saturating_add(bytes_for(db[i].items.len(), TX_ITEM_BYTES));
            i += 1;
        }
        guard.force_alloc(db_size);
        let mut root: Vec<ProjTx> = Vec::new();
        let mut j: usize = 0;
        while j < db.len()
            invariant
                j <= db@.len(),
                db@.len() == rows.len(),
                rows.len() <= u32::MAX,
                proj_ok(root@, proj_of(rows, Seq::empty(), j as int)),
            decreases db@.len() - j,
        {
            let ghost before = root@;
            root.push(ProjTx { tx_idx: j as u32, offset: 0, prefix_utility: 0, path_utility: 0 });
            proof {
                let a = proj_of(rows, Seq::<u32>::empty(), j as int);
                assert(scan(rows[j as int], Seq::<u32>::empty()) == Some((0int, 0int)));
                assert(proj_of(rows, Seq::<u32>::empty(), j + 1) == a + seq![(j as int, 0int, 0int)]);
                assert forall|k: int| 0 <= k < root@.len() implies {
                    &&& (#[trigger] root@[k]).tx_idx == (a + seq![(j as int, 0int, 0int)])[k].0
                    &&& root@[k].offset == (a + seq![(j as int, 0int, 0int)])[k].1
                    &&& root@[k].prefix_utility == (a + seq![(j as int, 0int, 0int)])[k].2
                } by {
                    if k < before.len() {
                        assert(root@[k] == before[k]);
                    }
                }
            }
            j += 1;
        }
        let order = sort_pairs(&res.ordered_items, false);
        let mut out: Vec<Hui> = Vec::new();
        let mut q: usize = 0;
        while q < order.len()
            invariant
                db_ok(db@, rows),
                rows.len() <= u32::MAX,
                proj_ok(root@, proj_of(rows, Seq::empty(), rows.len() as int)),
                sound_rows(rows, min_utility, out@),
                guard.budget_view() == old(guard).budget_view(),
                q <= order@.len(),
                m == res.twu@,
                rows == efim_rows(transactions@, m),
                forall|y: (ItemId, Utility)| order@.contains(y) <==> res.ordered_items@.contains(y),
                forall|i: int| 0 <= i < res.ordered_items@.len() ==> res.twu@.contains_key((#[trigger] res.ordered_items@[i]).0),
                forall|k: int| 0 <= k < out@.len() ==> found_in_rows(rows, (#[trigger] out@[k]).0@)
                    || ((out@[k]).0@.len() == 1 && m.contains_key(out@[k].0@[0])),
                forall|w: int| 0 <= w < q && ordered_utility(rows, seq![(#[trigger] order@[w]).0]) >= min_utility
                    ==> reported(out@, seq![order@[w].0]),
            decreases order@.len() - q,
        {
            let ghost out_q = out@;
            let x = order[q].0;
            proof {
                assert(order@.contains(order@[q as int]));
                let i = choose|i: int| 0 <= i < res.ordered_items@.len() && res.ordered_items@[i] == order@[q as int];
                assert(res.twu@.contains_key(res.ordered_items@[i].0));
            }
            let (np, util) = match extend(&db, &root, x, Ghost(rows), Ghost(Seq::empty())) {
                Some(v) => v,
                None => {
                    return Err(MiningError::UtilityOverflow);
                },
            };
            let prefix = vec![x];
            proof {
                assert(prefix@ == Seq::<u32>::empty().push(x));
            }
            if util >= min_utility {
                let ghost before = out@;
                out.push((vec![x], util));
                proof {
                    assert forall|k: int| 0 <= k < out@.len() implies {
                        &&& (#[trigger] out@[k]).1 == ordered_utility(rows, out@[k].0@)
                        &&& out@[k].1 >= min_utility
                    } by {
                        if k < before.len() {
                            assert(out@[k] == before[k]);
                        } else {
                            assert(out@[k].0@ == prefix@);
                        }
                    }
                    assert forall|k: int| 0 <= k < out@.len() implies found_in_rows(rows, (#[trigger] out@[k]).0@)
                        || ((out@[k]).0@.len() == 1 && m.contains_key(out@[k].0@[0])) by {
                        if k < before.len() {
                            assert(out@[k] == before[k]);
                        } else {
                            assert(out@[k].0@ == prefix@);
                            assert(prefix@[0] == x);
                        }
                    }
                }
            }
            let bytes = bytes_for(np.len(), PROJ_ENTRY_SIZE);
            let _ = guard.try_alloc(bytes);
            let ghost mid = out@;
            match search(&db, &prefix, &np, min_utility, &mut out, guard, Ghost(rows)) {
                Ok(()) => {},
                Err(e) => {
                    return Err(e);
                },
            }
            proof {
                assert forall|k: int| 0 <= k < out@.len() implies found_in_rows(rows, (#[trigger] out@[k]).0@)
                    || ((out@[k]).0@.len() == 1 && m.contains_key(out@[k].0@[0])) by {
                    if k < mid.len() {
                        assert(out@[k] == mid[k]);
                    }
                }
                assert(seq![x] == Seq::<u32>::empty().push(x));
                if util >= min_utility {
                    assert(mid[out_q.len() as int].0@ == seq![x]);
                    assert(out@[out_q.len() as int] == mid[out_q.len() as int]);
                }
                assert forall|w: int| 0 <= w < q + 1 && ordered_utility(rows, seq![(#[trigger] order@[w]).0]) >= min_utility
                    implies reported(out@, seq![order@[w].0]) by {
                    if w < q {
                        let k = choose|k: int| 0 <= k < out_q.len() && (#[trigger] out_q[k]).0@ == seq![order@[w].0];
                        assert(out_q[k] == mid[k]);
                        assert(out@[k] == mid[k]);
                    } else {
                        assert(out@[out_q.len() as int].0@ == seq![order@[w].0]);
                    }
                }
            }
            guard.free(bytes);
            q += 1;
        }
        guard.free(db_size);
        proof {
            let txs = transactions@;
            if db_ascending(txs) && mining_complete(txs, min_utility) {
                assert forall|y: ItemId| db_utility(txs, seq![y]) >= min_utility implies #[trigger] reported(out@, seq![y]) by {
                    let c = seq![y];
                    assert(c.no_duplicates());
                    assert(c.contains(y)) by { assert(c[0] == y); }
                    lemma_owed_item_passes(txs, min_utility, c, y);
                    assert(res.twu@.contains_key(y));
                    let i = choose|i: int| 0 <= i < res.ordered_items@.len() && (#[trigger] res.ordered_items@[i]).0 == y;
                    assert(res.ordered_items@.contains(res.ordered_items@[i]));
                    assert(order@.contains(res.ordered_items@[i]));
                    let w = choose|w: int| 0 <= w < order@.len() && order@[w] == res.ordered_items@[i];
                    assert(rank_increasing(c, m));
                    assert(forall|j: int| 0 <= j < c.len() ==> m.contains_key(#[trigger] c[j]));
                    lemma_ordered_is_db(txs, m, c);
                    assert(ordered_utility(rows, seq![order@[w].0]) >= min_utility);
                }
            }
            if db_ascending(txs) {
                assert forall|k: int| 0 <= k < out@.len() implies {
                    &&& (#[trigger] out@[k]).1 == db_utility(txs, out@[k].0@)
                    &&& out@[k].1 >= min_utility
                } by {
                    let p = out@[k].0@;
                    assert(out@[k].1 == ordered_utility(rows, p));
                    if found_in_rows(rows, p) {
                        let i = choose|i: int| 0 <= i < rows.len() && (#[trigger] scan(rows[i], p)) is Some;
                        lemma_found_is_rank(txs, m, p, i);
                    } else {
                        assert forall|j: int| 0 <= j < p.len() implies m.contains_key(#[trigger] p[j]) by {
                            assert(j == 0);
                        }
                    }
                    lemma_ordered_is_db(txs, m, p);
                }
            }
        }
        Ok(out)
    }
}

} // verus!
