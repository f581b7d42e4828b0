//! UP-Growth and UP-Growth+: candidates from a utility-pattern tree, then exact
//! utilities from the database.
use vstd::prelude::*;
use crate::preprocessing::twu_filter::lemma_weight_twu_fits;
use crate::types::{ItemId, Utility, RawTransaction};
use crate::storage::chunk_store::ChunkStore;
use crate::preprocessing::twu_filter::{TwuFilter, abs_weight};
use crate::experiment::exactness_checker::{sort_items, spec_sort};
use super::memory_guard::MemoryGuard;
use super::exact_utility::{Hui, MiningError, verify_candidates, sound_huis};
use super::up_tree::{
    UpTree, NIL, sort_pairs, tx_path, arrange_items, local_twu, keep_reaching, node_items,
    itemset_bytes, index_of, link_chain, sibling_chain, nu_total, longest_tx, sat_plus_two,
};

verus! {

/// Bytes charged per header entry of a tree.
pub const HEADER_ENTRY_BYTES: usize = 32;

/// Bytes charged per conditional pattern.
pub const PATTERN_BYTES: usize = 16;

/// UP-Growth: mines a utility-pattern tree for candidates, then keeps those whose exact
/// utility reaches the threshold.
pub struct UpGrowth;

/// UP-Growth+: UP-Growth with minimal node utilities to discard local items and node
/// utilities sooner.
pub struct UpGrowthPlus;

/// `n * per`, saturating.
fn bytes_for(n: usize, per: usize) -> (r: usize)
    ensures
        r == (if n * per > usize::MAX { usize::MAX as int } else { n * per }),
{
    if per == 0 {
        0
    } else if n > usize::MAX / per {
        proof {
            assert(n * per > usize::MAX) by (nonlinear_arith)
                requires
                    n > usize::MAX / per,
                    per > 0,
            ;
        }
        usize::MAX
    } else {
        proof {
            assert(n * per <= usize::MAX) by (nonlinear_arith)
                requires
                    n <= usize::MAX / per,
                    per > 0,
            ;
        }
        n * per
    }
}

/// The global tree of the items whose TWU reaches the threshold, ordered by descending
/// TWU (then item), each transaction inserted with its remaining utility along the path;
/// and the items in that order.
fn build_global_tree<S: ChunkStore>(
    transactions: &[RawTransaction],
    min_utility: Utility,
    guard: &mut MemoryGuard<S>,
) -> (r: Result<(UpTree, Vec<(ItemId, Utility)>, usize), MiningError>)
    requires
        abs_weight(transactions@) <= i64::MAX,
    ensures
        r matches Ok((t, _, _)) ==> t.wf(),
        final(guard).budget_view() == old(guard).budget_view(),
{
    let filter = TwuFilter::new(min_utility);
    proof {
        lemma_weight_twu_fits(transactions@);
    }
    let res = filter.compute(transactions);
    let order = sort_pairs(&res.ordered_items, true);
    let mut ids: Vec<ItemId> = Vec::new();
    let mut i: usize = 0;
    while i < order.len()
        invariant
            i <= order@.len(),
        decreases order@.len() - i,
    {
        ids.push(order[i].0);
        i = i + 1;
    }
    let mut tree = UpTree::new(ids);
    let header_bytes = bytes_for(order.len(), HEADER_ENTRY_BYTES);
    guard.force_alloc(header_bytes);
    let mut t: usize = 0;
    while t < transactions.len()
        invariant
            t <= transactions@.len(),
            tree.wf(),
            guard.budget_view() == old(guard).budget_view(),
        decreases transactions@.len() - t,
    {
        let path = tx_path(transactions[t].items.as_slice(), &order);
        if path.len() > 0 {
            let mut rtu: Utility = 0;
            let mut k: usize = 0;
            while k < path.len()
                invariant
                    k <= path@.len(),
                    guard.budget_view() == old(guard).budget_view(),
                decreases path@.len() - k,
            {
                match rtu.checked_add(path[k].1) {
                    Some(v) => {
                        rtu = v;
                    },
                    None => {
                        return Err(MiningError::UtilityOverflow);
                    },
                }
                k = k + 1;
            }
            match tree.insert_path(path.as_slice(), rtu, true, false, guard) {
                Ok(()) => {},
                Err(e) => {
                    return Err(e);
                },
            }
        }
        t = t + 1;
    }
    Ok((tree, order, header_bytes))
}

/// Bound on the depth of the recursion: one more than the longest transaction, which
/// bounds the depth of every tree (each conditional tree is shallower than its parent).
fn depth_bound(transactions: &[RawTransaction]) -> (r: usize)
    ensures
        r == sat_plus_two(longest_tx(transactions@)),
{
    let mut m: usize = 0;
    let mut t: usize = 0;
    while t < transactions.len()
        invariant
            t <= transactions@.len(),
            m == longest_tx(transactions@.take(t as int)),
        decreases transactions@.len() - t,
    {
        proof {
            assert(transactions@.take(t + 1).drop_last() =~= transactions@.take(t as int));
            assert(transactions@.take(t + 1).last() == transactions@[t as int]);
        }
        if transactions[t].items.len() > m {
            m = transactions[t].items.len();
        }
        t = t + 1;
    }
    proof {
        assert(transactions@.take(t as int) =~= transactions@);
    }
    m.saturating_add(2)
}

/// Sorts each candidate's items and drops repeated candidates, keeping first occurrences.
fn normalize_candidates(phuis: &Vec<Vec<ItemId>>) -> (r: Vec<Vec<ItemId>>)
    ensures
        forall|a: int, b: int| 0 <= a < b < r@.len() ==> r@[a]@ != r@[b]@,
        r@.map_values(|v: Vec<ItemId>| v@) == normalized(phuis@),
{
    let mut out: Vec<Vec<ItemId>> = Vec::new();
    let mut i: usize = 0;
    while i < phuis.len()
        invariant
            i <= phuis@.len(),
            forall|a: int, b: int| 0 <= a < b < out@.len() ==> out@[a]@ != out@[b]@,
            out@.map_values(|v: Vec<ItemId>| v@) == normalized(phuis@.take(i as int)),
        decreases phuis@.len() - i,
    {
        proof {
            assert(phuis@.take(i + 1).drop_last() =~= phuis@.take(i as int));
            assert(phuis@.take(i + 1).last() == phuis@[i as int]);
        }
        let s = sort_items(&phuis[i]);
        let mut dup = false;
        let mut j: usize = 0;
        while j < out.len()
            invariant
                j <= out@.len(),
                !dup ==> forall|a: int| 0 <= a < j ==> out@[a]@ != s@,
                dup ==> exists|a: int| 0 <= a < j && out@[a]@ == s@,
            decreases out@.len() - j,
        {
            if same_itemset(&out[j], &s) {
                dup = true;
            }
            j = j + 1;
        }
        let ghost prev = out@;
        proof {
            let pm = prev.map_values(|v: Vec<ItemId>| v@);
            if dup {
                let a = choose|a: int| 0 <= a < j && out@[a]@ == s@;
                assert(pm[a] == s@);
                assert(pm.contains(s@));
            } else {
                assert(!pm.contains(s@)) by {
                    if pm.contains(s@) {
                        let a = choose|a: int| 0 <= a < pm.len() && pm[a] == s@;
                        assert(out@[a]@ == s@);
                    }
                }
            }
        }
        if !dup {
            out.push(s);
            proof {
                assert(out@.map_values(|v: Vec<ItemId>| v@) =~= prev.map_values(|v: Vec<ItemId>| v@).push(s@));
            }
        }
        i = i + 1;
    }
    proof {
        assert(phuis@.take(i as int) =~= phuis@);
    }
    out
}

/// Each candidate's items sorted, repeated candidates dropped, first occurrences kept.
pub open spec fn normalized(phuis: Seq<Vec<ItemId>>) -> Seq<Seq<ItemId>>
    decreases phuis.len(),
{
    if phuis.len() == 0 {
        Seq::empty()
    } else {
        let prev = normalized(phuis.drop_last());
        let s = spec_sort(phuis.last()@);
        if prev.contains(s) { prev } else { prev.push(s) }
    }
}

/// Whether two itemsets hold the same items in the same order.
fn same_itemset(x: &Vec<ItemId>, y: &Vec<ItemId>) -> (r: bool)
    ensures
        r == (x@ == y@),
{
    if x.len() != y.len() {
        return false;
    }
    let mut i: usize = 0;
    while i < x.len()
        invariant
            x@.len() == y@.len(),
            i <= x@.len(),
            forall|q: int| 0 <= q < i ==> x@[q] == y@[q],
        decreases x@.len() - i,
    {
        if x[i] != y[i] {
            return false;
        }
        i = i + 1;
    }
    proof {
        assert(x@ =~= y@);
    }
    true
}

/// The nodes of `item` in the tree, newest first.
pub open spec fn item_chain(tree: &UpTree, item: ItemId) -> Seq<u32> {
    link_chain(tree.node_seq(), if tree.heads().contains_key(item) { tree.heads()[item] } else { NIL })
}

/// Every running sum of the node utilities of `item`, along its chain, fits in an `i64`.
pub open spec fn chain_fits(tree: &UpTree, item: ItemId) -> bool {
    forall|k: int| 0 <= k <= item_chain(tree, item).len()
        ==> i64::MIN <= #[trigger] nu_total(tree.node_seq(), item_chain(tree, item).take(k)) <= i64::MAX
}

/// The summed node utility of `item` in the tree.
fn item_utility_in(tree: &UpTree, item: ItemId) -> (r: Result<(Utility, Vec<u32>), MiningError>)
    requires
        tree.wf(),
    ensures
        r matches Ok((_, ids)) ==> forall|i: int| 0 <= i < ids@.len() ==> #[trigger] ids@[i] < tree.node_seq().len(),
        (forall|k: int| 0 <= k <= item_chain(tree, item).len()
            ==> i64::MIN <= #[trigger] nu_total(tree.node_seq(), item_chain(tree, item).take(k)) <= i64::MAX) ==> r is Ok,
        r matches Ok((u, ids)) ==> ids@ == item_chain(tree, item) && u == nu_total(tree.node_seq(), item_chain(tree, item)),
{
    let ids = tree.item_nodes(item);
    let ghost c = ids@;
    let mut sum: Utility = 0;
    let mut i: usize = 0;
    proof {
        assert(ids@.take(0) =~= Seq::<u32>::empty());
    }
    while i < ids.len()
        invariant
            tree.wf(),
            i <= ids@.len(),
            forall|q: int| 0 <= q < ids@.len() ==> #[trigger] ids@[q] < tree.node_seq().len(),
            c == ids@,
            ids@ == link_chain(tree.node_seq(), if tree.heads().contains_key(item) { tree.heads()[item] } else { NIL }),
            sum == nu_total(tree.node_seq(), ids@.take(i as int)),
        decreases ids@.len() - i,
    {
        proof {
            assert(ids@.take(i + 1).drop_last() =~= ids@.take(i as int));
            assert(ids@.take(i + 1).last() == ids@[i as int]);
        }
        let n = tree.node(ids[i]);
        match sum.checked_add(n.nu) {
            Some(v) => {
                sum = v;
            },
            None => {
                proof {
                    assert(nu_total(tree.node_seq(), ids@.take(i + 1)) == sum + n.nu);
                    assert(c.take(i + 1) == ids@.take(i + 1));
                    assert(0 <= i + 1 <= c.len());
                    assert(c == item_chain(tree, item));
                    assert(!(i64::MIN <= nu_total(tree.node_seq(), item_chain(tree, item).take(i + 1)) <= i64::MAX));
                }
                return Err(MiningError::UtilityOverflow);
            },
        }
        i = i + 1;
    }
    proof {
        assert(ids@.take(i as int) =~= ids@);
    }
    Ok((sum, ids))
}

/// Mines the tree for candidates that extend `prefix` with `item` (UP-Growth): if the
/// node utilities of `item` reach the threshold, the extended prefix is a candidate and
/// its conditional tree is mined in turn.
#[verifier::loop_isolation(false)]
fn mine_up_tree<S: ChunkStore>(
    tree: &UpTree,
    item: ItemId,
    prefix: &Vec<ItemId>,
    min_utility: Utility,
    phuis: &mut Vec<Vec<ItemId>>,
    guard: &mut MemoryGuard<S>,
    depth: usize,
) -> (r: Result<(), MiningError>)
    requires
        tree.wf(),
    ensures
        final(guard).budget_view() == old(guard).budget_view(),
        final(phuis)@.len() >= old(phuis)@.len(),
        forall|i: int| 0 <= i < old(phuis)@.len() ==> #[trigger] final(phuis)@[i]@ == old(phuis)@[i]@,
        r is Ok && depth > 0 && nu_total(tree.node_seq(), item_chain(tree, item)) >= min_utility
            ==> final(phuis)@.len() > old(phuis)@.len() && final(phuis)@[old(phuis)@.len() as int]@ == prefix@.push(item),
        r is Ok && (depth == 0 || nu_total(tree.node_seq(), item_chain(tree, item)) < min_utility)
            ==> final(phuis)@ == old(phuis)@,
        (depth == 0 || (chain_fits(tree, item) && nu_total(tree.node_seq(), item_chain(tree, item)) < min_utility)) ==> r is Ok,
    decreases depth,
{
    if depth == 0 {
        return Ok(());
    }
    let (item_util, ids) = match item_utility_in(tree, item) {
        Ok(p) => p,
        Err(e) => {
            return Err(e);
        },
    };
    if item_util < min_utility {
        return Ok(());
    }
    let mut new_prefix = prefix.clone();
    proof {
        assert(new_prefix@ =~= prefix@);
    }
    new_prefix.push(item);
    let np2 = new_prefix.clone();
    proof {
        assert(np2@ =~= new_prefix@);
    }
    let ghost old_phuis = phuis@;
    phuis.push(np2);
    let ghost snap = phuis@;
    proof {
        assert(snap[old_phuis.len() as int]@ == prefix@.push(item));
        assert forall|i: int| 0 <= i < old_phuis.len() implies #[trigger] snap[i]@ == old_phuis[i]@ by {
            assert(snap[i] == old_phuis[i]);
        }
    }
    let mut cpb: Vec<(Vec<ItemId>, Utility)> = Vec::new();
    let mut i: usize = 0;
    while i < ids.len()
        invariant
            tree.wf(),
            i <= ids@.len(),
            forall|q: int| 0 <= q < ids@.len() ==> #[trigger] ids@[q] < tree.node_seq().len(),
            phuis@ == snap,
        decreases ids@.len() - i,
    {
        let node = tree.node(ids[i]);
        let anc = tree.ancestors(ids[i]);
        let path = node_items(tree, &anc);
        if path.len() > 0 {
            cpb.push((path, node.nu));
        }
        i = i + 1;
    }
    let cpb_bytes = bytes_for(cpb.len(), PATTERN_BYTES);
    guard.force_alloc(cpb_bytes);
    let (litems, ltwus) = match local_twu(&cpb) {
        Ok(p) => p,
        Err(e) => {
            return Err(e);
        },
    };
    let valid = sort_pairs(&keep_reaching(&litems, &ltwus, min_utility), true);
    let mut valid_ids: Vec<ItemId> = Vec::new();
    let mut k: usize = 0;
    while k < valid.len()
        invariant
            k <= valid@.len(),
            phuis@ == snap,
        decreases valid@.len() - k,
    {
        valid_ids.push(valid[k].0);
        k = k + 1;
    }
    let mut local_tree = UpTree::new(valid_ids);
    let local_header_bytes = bytes_for(valid.len(), HEADER_ENTRY_BYTES);
    guard.force_alloc(local_header_bytes);
    let mut c: usize = 0;
    while c < cpb.len()
        invariant
            c <= cpb@.len(),
            local_tree.wf(),
            guard.budget_view() == old(guard).budget_view(),
            phuis@.len() >= old(phuis)@.len(),
            phuis@ == snap,
            snap.len() == old(phuis)@.len() + 1,
            forall|i: int| 0 <= i < old(phuis)@.len() ==> #[trigger] snap[i]@ == old(phuis)@[i]@,
        decreases cpb@.len() - c,
    {
        let filtered = arrange_items(&cpb[c].0, &valid);
        if filtered.len() > 0 {
            match local_tree.insert_path(filtered.as_slice(), cpb[c].1, false, false, guard) {
                Ok(()) => {},
                Err(e) => {
                    return Err(e);
                },
            }
        }
        c = c + 1;
    }
    let mut v = valid.len();
    while v > 0
        invariant
            v <= valid@.len(),
            depth > 0,
            local_tree.wf(),
            guard.budget_view() == old(guard).budget_view(),
            phuis@.len() >= old(phuis)@.len(),
            phuis@.len() >= snap.len(),
            forall|i: int| 0 <= i < snap.len() ==> #[trigger] phuis@[i]@ == snap[i]@,
            snap.len() == old(phuis)@.len() + 1,
            forall|i: int| 0 <= i < old(phuis)@.len() ==> #[trigger] snap[i]@ == old(phuis)@[i]@,
        decreases v,
    {
        let ghost cur = phuis@;
        match mine_up_tree(&local_tree, valid[v - 1].0, &new_prefix, min_utility, phuis, guard, depth - 1) {
            Ok(()) => {},
            Err(e) => {
                proof {
                    assert forall|i: int| 0 <= i < snap.len() implies #[trigger] phuis@[i]@ == snap[i]@ by {
                        assert(phuis@[i]@ == cur[i]@);
                    }
                }
                return Err(e);
            },
        }
        proof {
            assert forall|i: int| 0 <= i < snap.len() implies #[trigger] phuis@[i]@ == snap[i]@ by {
                assert(phuis@[i]@ == cur[i]@);
            }
        }
        v = v - 1;
    }
    guard.free(local_header_bytes);
    guard.free(cpb_bytes);
    Ok(())
}

/// The minimal node utility of node `id`: its utility less that of its children.
fn min_node_utility(tree: &UpTree, id: u32) -> (r: Result<Utility, MiningError>)
    requires
        tree.wf(),
        id < tree.node_seq().len(),
    ensures
        ({
            let nodes = tree.node_seq();
            let ch = sibling_chain(nodes, nodes[id as int].first_child);
            &&& r matches Ok(v) ==> v == nodes[id as int].nu - nu_total(nodes, ch)
            &&& (forall|k: int| 0 <= k <= ch.len() ==> i64::MIN <= nodes[id as int].nu - #[trigger] nu_total(nodes, ch.take(k)) <= i64::MAX) ==> r is Ok
        }),
{
    let n = tree.node(id);
    let ghost nodes = tree.node_seq();
    let ghost full = sibling_chain(nodes, n.first_child);
    let ghost mut done: Seq<u32> = Seq::empty();
    let mut mnu = n.nu;
    let mut c = n.first_child;
    while c != NIL
        invariant
            tree.wf(),
            nodes == tree.node_seq(),
            n == nodes[id as int],
            c == NIL || c < tree.node_seq().len(),
            done + sibling_chain(nodes, c) == full,
            full == sibling_chain(nodes, nodes[id as int].first_child),
            mnu == n.nu - nu_total(nodes, done),
        decreases (if c == NIL { 0int } else { c + 1 }),
    {
        proof {
            assert(full.take(done.len() as int) =~= done);
        }
        let cn = tree.node(c);
        proof {
            assert(done.push(c) + sibling_chain(nodes, cn.next_sibling) =~= done + sibling_chain(nodes, c));
            assert(done.push(c).drop_last() =~= done);
            assert(full.take(done.len() as int + 1) =~= done.push(c));
        }
        match mnu.checked_sub(cn.nu) {
            Some(v) => {
                mnu = v;
            },
            None => {
                proof {
                    assert(nu_total(nodes, full.take(done.len() as int + 1)) == nu_total(nodes, done) + cn.nu);
                    assert(done.len() + 1 <= full.len());
                }
                return Err(MiningError::UtilityOverflow);
            },
        }
        proof {
            done = done.push(c);
        }
        c = cn.next_sibling;
    }
    proof {
        assert(done + sibling_chain(nodes, c) =~= done);
    }
    Ok(mnu)
}

/// `a - b`, clamped to the range of `i64`.
fn sat_sub(a: Utility, b: Utility) -> (r: Utility)
    ensures
        r == (if a - b > i64::MAX { i64::MAX as int } else if a - b < i64::MIN { i64::MIN as int } else { a - b }),
{
    match a.checked_sub(b) {
        Some(v) => v,
        None => if b > 0 { i64::MIN } else { i64::MAX },
    }
}

/// Number of `true` entries.
fn count_true(v: &Vec<bool>) -> (r: usize)
    ensures
        r <= v@.len(),
        r == trues(v@),
{
    let mut n: usize = 0;
    let mut i: usize = 0;
    while i < v.len()
        invariant
            i <= v@.len(),
            n <= i,
            n == trues(v@.take(i as int)),
        decreases v@.len() - i,
    {
        proof {
            assert(v@.take(i + 1).drop_last() =~= v@.take(i as int));
            assert(v@.take(i + 1).last() == v@[i as int]);
        }
        if v[i] {
            n = n + 1;
        }
        i = i + 1;
    }
    proof {
        assert(v@.take(i as int) =~= v@);
    }
    n
}

/// The number of `true` entries.
pub open spec fn trues(v: Seq<bool>) -> int
    decreases v.len(),
{
    if v.len() == 0 { 0 } else { trues(v.drop_last()) + (if v.last() { 1int } else { 0 }) }
}

/// Mines the tree for candidates that extend `prefix` with `item` (UP-Growth+): as
/// `mine_up_tree`, but the local TWUs are lowered by the minimal node utilities of
/// unpromising items until no further item becomes unpromising, and the path utilities
/// inserted into the conditional tree are lowered by those of the discarded items.
#[verifier::loop_isolation(false)]
fn mine_up_tree_plus<S: ChunkStore>(
    tree: &UpTree,
    item: ItemId,
    prefix: &Vec<ItemId>,
    min_utility: Utility,
    phuis: &mut Vec<Vec<ItemId>>,
    guard: &mut MemoryGuard<S>,
    depth: usize,
) -> (r: Result<(), MiningError>)
    requires
        tree.wf(),
    ensures
        final(guard).budget_view() == old(guard).budget_view(),
        final(phuis)@.len() >= old(phuis)@.len(),
        forall|i: int| 0 <= i < old(phuis)@.len() ==> #[trigger] final(phuis)@[i]@ == old(phuis)@[i]@,
        r is Ok && depth > 0 && nu_total(tree.node_seq(), item_chain(tree, item)) >= min_utility
            ==> final(phuis)@.len() > old(phuis)@.len() && final(phuis)@[old(phuis)@.len() as int]@ == prefix@.push(item),
        r is Ok && (depth == 0 || nu_total(tree.node_seq(), item_chain(tree, item)) < min_utility)
            ==> final(phuis)@ == old(phuis)@,
        (depth == 0 || (chain_fits(tree, item) && nu_total(tree.node_seq(), item_chain(tree, item)) < min_utility)) ==> r is Ok,
    decreases depth,
{
    if depth == 0 {
        return Ok(());
    }
    let (item_util, ids) = match item_utility_in(tree, item) {
        Ok(p) => p,
        Err(e) => {
            return Err(e);
        },
    };
    if item_util < min_utility {
        return Ok(());
    }
    let mut new_prefix = prefix.clone();
    proof {
        assert(new_prefix@ =~= prefix@);
    }
    new_prefix.push(item);
    let np2 = new_prefix.clone();
    proof {
        assert(np2@ =~= new_prefix@);
    }
    let ghost old_phuis = phuis@;
    phuis.push(np2);
    let ghost snap = phuis@;
    proof {
        assert(snap[old_phuis.len() as int]@ == prefix@.push(item));
        assert forall|i: int| 0 <= i < old_phuis.len() implies #[trigger] snap[i]@ == old_phuis[i]@ by {
            assert(snap[i] == old_phuis[i]);
        }
    }
    let mut cpb: Vec<(Vec<(ItemId, Utility)>, Utility)> = Vec::new();
    let mut cpb_items: Vec<(Vec<ItemId>, Utility)> = Vec::new();
    let mut i: usize = 0;
    while i < ids.len()
        invariant
            tree.wf(),
            i <= ids@.len(),
            forall|q: int| 0 <= q < ids@.len() ==> #[trigger] ids@[q] < tree.node_seq().len(),
            cpb@.len() == cpb_items@.len(),
            guard.budget_view() == old(guard).budget_view(),
            phuis@.len() >= old(phuis)@.len(),
            phuis@ == snap,
            snap.len() == old(phuis)@.len() + 1,
            forall|i: int| 0 <= i < old(phuis)@.len() ==> #[trigger] snap[i]@ == old(phuis)@[i]@,
        decreases ids@.len() - i,
    {
        let node = tree.node(ids[i]);
        let anc = tree.ancestors(ids[i]);
        let mut path: Vec<(ItemId, Utility)> = Vec::new();
        let mut path_items: Vec<ItemId> = Vec::new();
        let mut a: usize = 0;
        while a < anc.len()
            invariant
                tree.wf(),
                a <= anc@.len(),
                forall|q: int| 0 <= q < anc@.len() ==> 0 < #[trigger] anc@[q] < ids@[i as int],
                i < ids@.len(),
                ids@[i as int] < tree.node_seq().len(),
                guard.budget_view() == old(guard).budget_view(),
                phuis@.len() >= old(phuis)@.len(),
                phuis@ == snap,
                snap.len() == old(phuis)@.len() + 1,
                forall|i: int| 0 <= i < old(phuis)@.len() ==> #[trigger] snap[i]@ == old(phuis)@[i]@,
            decreases anc@.len() - a,
        {
            let pn = tree.node(anc[a]);
            let mnu = match min_node_utility(tree, anc[a]) {
                Ok(v) => v,
                Err(e) => {
                    return Err(e);
                },
            };
            path.push((pn.item, mnu));
            path_items.push(pn.item);
            a = a + 1;
        }
        if path.len() > 0 {
            cpb.push((path, node.nu));
            cpb_items.push((path_items, node.nu));
        }
        i = i + 1;
    }
    let cpb_bytes = bytes_for(cpb.len(), PATTERN_BYTES);
    guard.force_alloc(cpb_bytes);
    let (litems, ltwus0) = match local_twu(&cpb_items) {
        Ok(p) => p,
        Err(e) => {
            return Err(e);
        },
    };
    let mut ltwus = ltwus0;
    let mut unpromising: Vec<bool> = Vec::new();
    let mut q: usize = 0;
    while q < ltwus.len()
        invariant
            q <= ltwus@.len(),
            unpromising@.len() == q,
        decreases ltwus@.len() - q,
    {
        unpromising.push(ltwus[q] < min_utility);
        q = q + 1;
    }
    let mut count = count_true(&unpromising);
    loop
        invariant
            unpromising@.len() == litems@.len(),
            ltwus@.len() == litems@.len(),
            count <= litems@.len(),
            guard.budget_view() == old(guard).budget_view(),
            phuis@.len() >= old(phuis)@.len(),
            phuis@ == snap,
            snap.len() == old(phuis)@.len() + 1,
            forall|i: int| 0 <= i < old(phuis)@.len() ==> #[trigger] snap[i]@ == old(phuis)@[i]@,
        decreases litems@.len() - count,
    {
        let current = unpromising.clone();
        let mut c: usize = 0;
        while c < cpb.len()
            invariant
                c <= cpb@.len(),
                current@.len() == litems@.len(),
                ltwus@.len() == litems@.len(),
                guard.budget_view() == old(guard).budget_view(),
                phuis@.len() >= old(phuis)@.len(),
                phuis@ == snap,
                snap.len() == old(phuis)@.len() + 1,
                forall|i: int| 0 <= i < old(phuis)@.len() ==> #[trigger] snap[i]@ == old(phuis)@[i]@,
            decreases cpb@.len() - c,
        {
            let mut reduction: Utility = 0;
            let mut k: usize = 0;
            while k < cpb[c].0.len()
                invariant
                    c < cpb@.len(),
                    k <= cpb@[c as int].0@.len(),
                    current@.len() == litems@.len(),
                    guard.budget_view() == old(guard).budget_view(),
                    phuis@.len() >= old(phuis)@.len(),
                    phuis@ == snap,
                    snap.len() == old(phuis)@.len() + 1,
                    forall|i: int| 0 <= i < old(phuis)@.len() ==> #[trigger] snap[i]@ == old(phuis)@[i]@,
                decreases cpb@[c as int].0@.len() - k,
            {
                let (u_item, mnu) = cpb[c].0[k];
                match index_of(&litems, u_item) {
                    Some(ix) => {
                        if current[ix] {
                            match reduction.checked_add(mnu) {
                                Some(v) => {
                                    reduction = v;
                                },
                                None => {
                                    return Err(MiningError::UtilityOverflow);
                                },
                            }
                        }
                    },
                    None => {},
                }
                k = k + 1;
            }
            if reduction > 0 {
                let mut k2: usize = 0;
                while k2 < cpb[c].0.len()
                    invariant
                        c < cpb@.len(),
                        k2 <= cpb@[c as int].0@.len(),
                        current@.len() == litems@.len(),
                        ltwus@.len() == litems@.len(),
                    decreases cpb@[c as int].0@.len() - k2,
                {
                    let v_item = cpb[c].0[k2].0;
                    match index_of(&litems, v_item) {
                        Some(ix) => {
                            if !current[ix] {
                                let nv = sat_sub(ltwus[ix], reduction);
                                ltwus.set(ix, nv);
                            }
                        },
                        None => {},
                    }
                    k2 = k2 + 1;
                }
            }
            c = c + 1;
        }
        let mut fresh: Vec<bool> = Vec::new();
        let mut q2: usize = 0;
        while q2 < ltwus.len()
            invariant
                q2 <= ltwus@.len(),
                fresh@.len() == q2,
            decreases ltwus@.len() - q2,
        {
            fresh.push(ltwus[q2] < min_utility);
            q2 = q2 + 1;
        }
        let fresh_count = count_true(&fresh);
        if fresh_count > count {
            unpromising = fresh;
            count = fresh_count;
        } else {
            break;
        }
    }
    let mut kept_items: Vec<ItemId> = Vec::new();
    let mut kept_keys: Vec<Utility> = Vec::new();
    let mut q3: usize = 0;
    while q3 < litems.len()
        invariant
            q3 <= litems@.len(),
            unpromising@.len() == litems@.len(),
            ltwus@.len() == litems@.len(),
            kept_items@.len() == kept_keys@.len(),
        decreases litems@.len() - q3,
    {
        if !unpromising[q3] {
            kept_items.push(litems[q3]);
            kept_keys.push(ltwus[q3]);
        }
        q3 = q3 + 1;
    }
    let valid = sort_pairs(&keep_reaching(&kept_items, &kept_keys, i64::MIN), true);
    let mut valid_ids: Vec<ItemId> = Vec::new();
    let mut k3: usize = 0;
    while k3 < valid.len()
        invariant
            k3 <= valid@.len(),
        decreases valid@.len() - k3,
    {
        valid_ids.push(valid[k3].0);
        k3 = k3 + 1;
    }
    let mut local_tree = UpTree::new(valid_ids);
    let local_header_bytes = bytes_for(valid.len(), HEADER_ENTRY_BYTES);
    guard.force_alloc(local_header_bytes);
    let mut c2: usize = 0;
    while c2 < cpb.len()
        invariant
            c2 <= cpb@.len(),
            cpb@.len() == cpb_items@.len(),
            local_tree.wf(),
            guard.budget_view() == old(guard).budget_view(),
            phuis@.len() >= old(phuis)@.len(),
            phuis@ == snap,
            snap.len() == old(phuis)@.len() + 1,
            forall|i: int| 0 <= i < old(phuis)@.len() ==> #[trigger] snap[i]@ == old(phuis)@[i]@,
        decreases cpb@.len() - c2,
    {
        let mut final_pu = cpb[c2].1;
        let mut k4: usize = 0;
        while k4 < cpb[c2].0.len()
            invariant
                c2 < cpb@.len(),
                k4 <= cpb@[c2 as int].0@.len(),
            decreases cpb@[c2 as int].0@.len() - k4,
        {
            let (p_item, mnu) = cpb[c2].0[k4];
            let mut in_valid = false;
            let mut z: usize = 0;
            while z < valid.len()
                invariant
                    z <= valid@.len(),
                decreases valid@.len() - z,
            {
                if valid[z].0 == p_item {
                    in_valid = true;
                }
                z = z + 1;
            }
            if !in_valid {
                final_pu = sat_sub(final_pu, mnu);
            }
            k4 = k4 + 1;
        }
        let filtered = arrange_items(&cpb_items[c2].0, &valid);
        if filtered.len() > 0 && final_pu > 0 {
            match local_tree.insert_path(filtered.as_slice(), final_pu, false, false, guard) {
                Ok(()) => {},
                Err(e) => {
                    return Err(e);
                },
            }
        }
        c2 = c2 + 1;
    }
    let mut v = valid.len();
    while v > 0
        invariant
            v <= valid@.len(),
            depth > 0,
            local_tree.wf(),
            guard.budget_view() == old(guard).budget_view(),
            phuis@.len() >= old(phuis)@.len(),
            phuis@.len() >= snap.len(),
            forall|i: int| 0 <= i < snap.len() ==> #[trigger] phuis@[i]@ == snap[i]@,
            snap.len() == old(phuis)@.len() + 1,
            forall|i: int| 0 <= i < old(phuis)@.len() ==> #[trigger] snap[i]@ == old(phuis)@[i]@,
        decreases v,
    {
        let ghost cur = phuis@;
        match mine_up_tree_plus(&local_tree, valid[v - 1].0, &new_prefix, min_utility, phuis, guard, depth - 1) {
            Ok(()) => {},
            Err(e) => {
                proof {
                    assert forall|i: int| 0 <= i < snap.len() implies #[trigger] phuis@[i]@ == snap[i]@ by {
                        assert(phuis@[i]@ == cur[i]@);
                    }
                }
                return Err(e);
            },
        }
        proof {
            assert forall|i: int| 0 <= i < snap.len() implies #[trigger] phuis@[i]@ == snap[i]@ by {
                assert(phuis@[i]@ == cur[i]@);
            }
        }
        v = v - 1;
    }
    guard.free(local_header_bytes);
    guard.free(cpb_bytes);
    Ok(())
}

/// Shared driver: the global tree, tree mining from the least promising item up, then
/// the exact utilities of the distinct candidates.
fn run_up_growth<S: ChunkStore>(
    transactions: &[RawTransaction],
    min_utility: Utility,
    guard: &mut MemoryGuard<S>,
    plus: bool,
) -> (r: Result<Vec<Hui>, MiningError>)
    requires
        abs_weight(transactions@) <= i64::MAX,
    ensures
        r matches Ok(huis) ==> sound_huis(transactions@, min_utility, huis@),
        final(guard).budget_view() == old(guard).budget_view(),
{
    let (tree, order, header_bytes) = match build_global_tree(transactions, min_utility, guard) {
        Ok(t) => t,
        Err(e) => {
            return Err(e);
        },
    };
    let depth = depth_bound(transactions);
    let mut phuis: Vec<Vec<ItemId>> = Vec::new();
    let empty: Vec<ItemId> = Vec::new();
    let mut v = order.len();
    while v > 0
        invariant
            v <= order@.len(),
            tree.wf(),
            guard.budget_view() == old(guard).budget_view(),
        decreases v,
    {
        let res = if plus {
            mine_up_tree_plus(&tree, order[v - 1].0, &empty, min_utility, &mut phuis, guard, depth)
        } else {
            mine_up_tree(&tree, order[v - 1].0, &empty, min_utility, &mut phuis, guard, depth)
        };
        match res {
            Ok(()) => {},
            Err(e) => {
                return Err(e);
            },
        }
        v = v - 1;
    }
    let candidates = normalize_candidates(&phuis);
    let phuis_bytes = itemset_bytes(&candidates);
    guard.force_alloc(phuis_bytes);
    let result = verify_candidates(transactions, candidates, min_utility);
    guard.free(header_bytes);
    guard.free(phuis_bytes);
    result
}

impl UpGrowth {
    pub fn new() -> (r: Self) {
        UpGrowth
    }

    /// Searches the transactions for high-utility itemsets: candidates from the
    /// utility-pattern tree (each node carrying the utility of its item and of the items
    /// below it on the path), then their exact utilities. Every reported itemset carries
    /// its exact utility, which reaches `min_utility`.
    pub fn mine<S: ChunkStore>(
        &mut self,
        transactions: &[RawTransaction],
        min_utility: Utility,
        guard: &mut MemoryGuard<S>,
    ) -> (r: Result<Vec<Hui>, MiningError>)
        requires
            abs_weight(transactions@) <= i64::MAX,
        ensures
            r matches Ok(huis) ==> sound_huis(transactions@, min_utility, huis@),
            final(guard).budget_view() == old(guard).budget_view(),
    {
        run_up_growth(transactions, min_utility, guard, false)
    }
}

impl UpGrowthPlus {
    pub fn new() -> (r: Self) {
        UpGrowthPlus
    }

    /// Searches the transactions for high-utility itemsets as UP-Growth does, with the
    /// minimal-node-utility refinements. Every reported itemset carries its exact
    /// utility, which reaches `min_utility`.
    pub fn mine<S: ChunkStore>(
        &mut self,
        transactions: &[RawTransaction],
        min_utility: Utility,
        guard: &mut MemoryGuard<S>,
    ) -> (r: Result<Vec<Hui>, MiningError>)
        requires
            abs_weight(transactions@) <= i64::MAX,
        ensures
            r matches Ok(huis) ==> sound_huis(transactions@, min_utility, huis@),
            final(guard).budget_view() == old(guard).budget_view(),
    {
        run_up_growth(transactions, min_utility, guard, true)
    }
}

} // verus!
