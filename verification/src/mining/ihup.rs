//! IHUP: candidates from a prefix tree of TWU-ordered transactions, then exact
//! utilities from the database. The same tree mining serves HUI-Trie.
use vstd::prelude::*;
use crate::preprocessing::twu_filter::lemma_weight_twu_fits;
use crate::types::{ItemId, Utility, RawTransaction};
use crate::storage::chunk_store::ChunkStore;
use crate::preprocessing::twu_filter::{TwuFilter, abs_weight};
use super::memory_guard::MemoryGuard;
use super::exact_utility::{Hui, MiningError, verify_candidates, sound_huis};
use super::up_growth::item_chain;
use super::up_tree::{nu_total, UpTree, sort_pairs, tx_path, local_twu, keep_reaching, node_items, itemset_bytes, index_of, longest_tx, sat_plus_two};

verus! {

/// IHUP: mines a prefix tree of the transactions for candidates, then keeps those whose
/// exact utility reaches the threshold.
pub struct Ihup;

/// How a tree miner accounts to the memory guard.
#[derive(Clone, Copy)]
pub(crate) struct Charging {
    /// Reserve every new tree node (a refusal stops mining).
    pub nodes: bool,
    /// Account eight bytes per item of every candidate.
    pub candidates: bool,
}

/// Some pair of `local` has item `x`.
pub open spec fn has_item(local: Seq<(ItemId, Utility)>, x: ItemId) -> bool {
    exists|j: int| 0 <= j < local.len() && local[j].0 == x
}

/// The items of `path` that `local` holds, in path order, each with utility 0.
pub open spec fn kept_path(path: Seq<ItemId>, local: Seq<(ItemId, Utility)>) -> Seq<(ItemId, Utility)>
    decreases path.len(),
{
    if path.len() == 0 {
        Seq::empty()
    } else if has_item(local, path.last()) {
        kept_path(path.drop_last(), local).push((path.last(), 0i64))
    } else {
        kept_path(path.drop_last(), local)
    }
}

/// The items of `path` that `local` holds, in path order (each with utility 0).
fn filter_path(path: &Vec<ItemId>, local: &Vec<(ItemId, Utility)>) -> (r: Vec<(ItemId, Utility)>)
    ensures
        r@.len() <= path@.len(),
        r@ == kept_path(path@, local@),
{
    let mut out: Vec<(ItemId, Utility)> = Vec::new();
    let mut i: usize = 0;
    while i < path.len()
        invariant
            i <= path@.len(),
            out@.len() <= i,
            out@ == kept_path(path@.take(i as int), local@),
        decreases path@.len() - i,
    {
        proof {
            assert(path@.take(i + 1).drop_last() =~= path@.take(i as int));
            assert(path@.take(i + 1).last() == path@[i as int]);
        }
        let mut hit = false;
        let mut j: usize = 0;
        while j < local.len()
            invariant
                j <= local@.len(),
                i < path@.len(),
                hit == exists|q: int| 0 <= q < j && local@[q].0 == path@[i as int],
            decreases local@.len() - j,
        {
            if local[j].0 == path[i] {
                hit = true;
            }
            j = j + 1;
        }
        if hit {
            out.push((path[i], 0));
        }
        i = i + 1;
    }
    proof {
        assert(path@.take(i as int) =~= path@);
    }
    out
}

/// One of the candidates holds exactly the items of `c`, in order.
pub open spec fn cand_listed(cands: Seq<Vec<ItemId>>, c: Seq<ItemId>) -> bool {
    exists|j: int| 0 <= j < cands.len() && cands[j]@ == c
}

/// A candidate listed stays listed in a list that keeps the earlier ones.
proof fn lemma_listed_grows(a: Seq<Vec<ItemId>>, b: Seq<Vec<ItemId>>, c: Seq<ItemId>)
    requires
        cand_listed(a, c),
        b.len() >= a.len(),
        forall|i: int| 0 <= i < a.len() ==> #[trigger] b[i]@ == a[i]@,
    ensures
        cand_listed(b, c),
{
    let j = choose|j: int| 0 <= j < a.len() && a[j]@ == c;
    assert(b[j]@ == a[j]@);
}

/// The items of the tree, each new candidate `prefix + item` whose node utilities reach
/// the threshold recorded, and its conditional tree (the paths above its nodes, kept to
/// items whose local TWU reaches the threshold, ordered as in the tree) mined in turn.
pub(crate) fn mine_tree<S: ChunkStore>(
    tree: &UpTree,
    prefix: &Vec<ItemId>,
    min_utility: Utility,
    candidates: &mut Vec<Vec<ItemId>>,
    guard: &mut MemoryGuard<S>,
    charging: Charging,
    depth: usize,
) -> (r: Result<(), MiningError>)
    requires
        tree.wf(),
    ensures
        final(guard).budget_view() == old(guard).budget_view(),
        final(candidates)@.len() >= old(candidates)@.len(),
        forall|i: int| 0 <= i < old(candidates)@.len() ==> #[trigger] final(candidates)@[i]@ == old(candidates)@[i]@,
        r is Ok && depth > 0 ==> forall|x: ItemId| tree.order().contains(x)
            && nu_total(tree.node_seq(), item_chain(tree, x)) >= min_utility
            ==> #[trigger] cand_listed(final(candidates)@, prefix@.push(x)),
    decreases depth,
{
    if depth == 0 {
        return Ok(());
    }
    let order = tree.items();
    let mut v = order.len();
    while v > 0
        invariant
            tree.wf(),
            depth > 0,
            v <= order@.len(),
            order@ == tree.order(),
            guard.budget_view() == old(guard).budget_view(),
            candidates@.len() >= old(candidates)@.len(),
            forall|i: int| 0 <= i < old(candidates)@.len() ==> #[trigger] candidates@[i]@ == old(candidates)@[i]@,
            forall|w: int| v <= w < order@.len() && nu_total(tree.node_seq(), item_chain(tree, order@[w])) >= min_utility
                ==> #[trigger] cand_listed(candidates@, prefix@.push(order@[w])),
        decreases v,
    {
        let item = order[v - 1];
        v = v - 1;
        let ghost cur = candidates@;
        let ids = tree.item_nodes(item);
        let mut sum: Utility = 0;
        let mut cpb: Vec<(Vec<ItemId>, Utility)> = Vec::new();
        let mut i: usize = 0;
        while i < ids.len()
            invariant
                tree.wf(),
                i <= ids@.len(),
                forall|q: int| 0 <= q < ids@.len() ==> #[trigger] ids@[q] < tree.node_seq().len(),
                guard.budget_view() == old(guard).budget_view(),
                candidates@.len() >= old(candidates)@.len(),
                candidates@ == cur,
                forall|i: int| 0 <= i < old(candidates)@.len() ==> #[trigger] candidates@[i]@ == old(candidates)@[i]@,
                ids@ == item_chain(tree, item),
                sum == nu_total(tree.node_seq(), ids@.take(i as int)),
            decreases ids@.len() - i,
        {
            proof {
                assert(ids@.take(i + 1).drop_last() =~= ids@.take(i as int));
                assert(ids@.take(i + 1).last() == ids@[i as int]);
            }
            let node = tree.node(ids[i]);
            match sum.checked_add(node.nu) {
                Some(s) => {
                    sum = s;
                },
                None => {
                    return Err(MiningError::UtilityOverflow);
                },
            }
            let anc = tree.ancestors(ids[i]);
            let path = node_items(tree, &anc);
            if path.len() > 0 {
                cpb.push((path, node.nu));
            }
            i = i + 1;
        }
        proof {
            assert(ids@.take(i as int) =~= ids@);
        }
        let ghost cur2_opt: Seq<Vec<ItemId>> = candidates@;
        if sum >= min_utility {
            if charging.candidates {
                let n = prefix.len();
                let b: usize = if n >= usize::MAX / 8 { usize::MAX } else { (n + 1) * 8 };
                guard.force_alloc(b);
            }
            let mut new_prefix = prefix.clone();
            proof {
                assert(new_prefix@ =~= prefix@);
            }
            new_prefix.push(item);
            let np2 = new_prefix.clone();
            proof {
                assert(np2@ =~= new_prefix@);
            }
            candidates.push(np2);
            let ghost cur2 = candidates@;
            proof {
                assert(cur2[cur.len() as int]@ == prefix@.push(item));
                assert(cand_listed(cur2, prefix@.push(item)));
                assert forall|j: int| 0 <= j < cur.len() implies #[trigger] cur2[j]@ == cur[j]@ by {
                    assert(cur2[j] == cur[j]);
                }
            }
            let (litems, ltwus) = match local_twu(&cpb) {
                Ok(p) => p,
                Err(e) => {
                    return Err(e);
                },
            };
            let local = keep_reaching(&litems, &ltwus, min_utility);
            if local.len() > 0 {
                let mut keyed: Vec<(ItemId, Utility)> = Vec::new();
                let mut k: usize = 0;
                while k < local.len()
                    invariant
                        k <= local@.len(),
                    decreases local@.len() - k,
                {
                    let pos: Utility = match index_of(order, local[k].0) {
                        Some(p) => if p <= i64::MAX as usize { p as i64 } else { i64::MAX },
                        None => i64::MAX,
                    };
                    keyed.push((local[k].0, pos));
                    k = k + 1;
                }
                let arranged = sort_pairs(&keyed, false);
                let mut local_ids: Vec<ItemId> = Vec::new();
                let mut k2: usize = 0;
                while k2 < arranged.len()
                    invariant
                        k2 <= arranged@.len(),
                    decreases arranged@.len() - k2,
                {
                    local_ids.push(arranged[k2].0);
                    k2 = k2 + 1;
                }
                let mut cond = UpTree::new(local_ids);
                let mut c: usize = 0;
                while c < cpb.len()
                    invariant
                        c <= cpb@.len(),
                        cond.wf(),
                        guard.budget_view() == old(guard).budget_view(),
                        candidates@.len() >= old(candidates)@.len(),
                        candidates@ == cur2,
                        forall|i: int| 0 <= i < old(candidates)@.len() ==> #[trigger] candidates@[i]@ == old(candidates)@[i]@,
                    decreases cpb@.len() - c,
                {
                    let filtered = filter_path(&cpb[c].0, &local);
                    if filtered.len() > 0 {
                        match cond.insert_path(filtered.as_slice(), cpb[c].1, false, charging.nodes, guard) {
                            Ok(()) => {},
                            Err(e) => {
                                return Err(e);
                            },
                        }
                    }
                    c = c + 1;
                }
                match mine_tree(&cond, &new_prefix, min_utility, candidates, guard, charging, depth - 1) {
                    Ok(()) => {},
                    Err(e) => {
                        return Err(e);
                    },
                }
                proof {
                    lemma_listed_grows(cur2, candidates@, prefix@.push(item));
                    assert forall|j: int| 0 <= j < cur.len() implies #[trigger] candidates@[j]@ == cur[j]@ by {
                        assert(candidates@[j]@ == cur2[j]@);
                    }
                }
            }
            proof {
                assert(cand_listed(candidates@, prefix@.push(item))) by {
                    if candidates@ == cur2 {
                    } else {
                        lemma_listed_grows(cur2, candidates@, prefix@.push(item));
                    }
                }
                assert forall|j: int| 0 <= j < cur.len() implies #[trigger] candidates@[j]@ == cur[j]@ by {
                    assert(candidates@[j]@ == cur2[j]@);
                }
            }
        }
        proof {
            assert(candidates@.len() >= cur.len());
            assert forall|j: int| 0 <= j < cur.len() implies #[trigger] candidates@[j]@ == cur[j]@ by {}
            assert(order@[v as int] == item);
            assert forall|w: int| v <= w < order@.len() && nu_total(tree.node_seq(), item_chain(tree, order@[w])) >= min_utility
                implies #[trigger] cand_listed(candidates@, prefix@.push(order@[w])) by {
                if w == v {
                    assert(cand_listed(candidates@, prefix@.push(item)));
                } else {
                    assert(cand_listed(cur, prefix@.push(order@[w])));
                    lemma_listed_grows(cur, candidates@, prefix@.push(order@[w]));
                }
            }
        }
    }
    proof {
        assert forall|x: ItemId| tree.order().contains(x) && nu_total(tree.node_seq(), item_chain(tree, x)) >= min_utility
            implies #[trigger] cand_listed(candidates@, prefix@.push(x)) by {
            let w = choose|w: int| 0 <= w < order@.len() && order@[w] == x;
        }
    }
    Ok(())
}

/// The tree of the items whose TWU reaches the threshold (ordered by descending TWU,
/// then item), each transaction inserted along its items with its transaction utility.
pub(crate) fn build_twu_tree<S: ChunkStore>(
    transactions: &[RawTransaction],
    min_utility: Utility,
    guard: &mut MemoryGuard<S>,
    charge_nodes: bool,
) -> (r: Result<UpTree, MiningError>)
    requires
        abs_weight(transactions@) <= i64::MAX,
    ensures
        r matches Ok(t) ==> t.wf(),
        final(guard).budget_view() == old(guard).budget_view(),
{
    let filter = TwuFilter::new(min_utility);
    proof {
        lemma_weight_twu_fits(transactions@);
    }
    let res = filter.compute(transactions);
    let order = sort_pairs(&res.ordered_items, true);
    let mut ids: Vec<ItemId> = Vec::new();
    let mut i: usize = 0;
    while i < order.len()
        invariant
            i <= order@.len(),
        decreases order@.len() - i,
    {
        ids.push(order[i].0);
        i = i + 1;
    }
    let mut tree = UpTree::new(ids);
    let mut t: usize = 0;
    while t < transactions.len()
        invariant
            t <= transactions@.len(),
            tree.wf(),
            guard.budget_view() == old(guard).budget_view(),
        decreases transactions@.len() - t,
    {
        let path = tx_path(transactions[t].items.as_slice(), &order);
        if path.len() > 0 {
            match tree.insert_path(path.as_slice(), transactions[t].transaction_utility, false, charge_nodes, guard) {
                Ok(()) => {},
                Err(e) => {
                    return Err(e);
                },
            }
        }
        t = t + 1;
    }
    Ok(tree)
}

/// One more than the longest transaction: a bound on the depth of every tree.
pub(crate) fn tree_depth_bound(transactions: &[RawTransaction]) -> (r: usize)
    ensures
        r == sat_plus_two(longest_tx(transactions@)),
{
    let mut m: usize = 0;
    let mut t: usize = 0;
    while t < transactions.len()
        invariant
            t <= transactions@.len(),
            m == longest_tx(transactions@.take(t as int)),
        decreases transactions@.len() - t,
    {
        proof {
            assert(transactions@.take(t + 1).drop_last() =~= transactions@.take(t as int));
            assert(transactions@.take(t + 1).last() == transactions@[t as int]);
        }
        if transactions[t].items.len() > m {
            m = transactions[t].items.len();
        }
        t = t + 1;
    }
    proof {
        assert(transactions@.take(t as int) =~= transactions@);
    }
    m.saturating_add(2)
}

impl Ihup {
    pub fn new() -> (r: Self) {
        Ihup
    }

    /// Mines the high-utility itemsets of the transactions: candidates from the prefix
    /// tree, then their exact utilities. Every reported itemset carries its exact utility,
    /// which reaches `min_utility`.
    pub fn mine<S: ChunkStore>(
        &mut self,
        transactions: &[RawTransaction],
        min_utility: Utility,
        guard: &mut MemoryGuard<S>,
    ) -> (r: Result<Vec<Hui>, MiningError>)
        requires
            abs_weight(transactions@) <= i64::MAX,
        ensures
            r matches Ok(huis) ==> sound_huis(transactions@, min_utility, huis@),
            final(guard).budget_view() == old(guard).budget_view(),
    {
        let tree = match build_twu_tree(transactions, min_utility, guard, false) {
            Ok(t) => t,
            Err(e) => {
                return Err(e);
            },
        };
        let mut candidates: Vec<Vec<ItemId>> = Vec::new();
        let empty: Vec<ItemId> = Vec::new();
        let charging = Charging { nodes: false, candidates: true };
        match mine_tree(&tree, &empty, min_utility, &mut candidates, guard, charging, tree_depth_bound(transactions)) {
            Ok(()) => {},
            Err(e) => {
                return Err(e);
            },
        }
        let cand_bytes = itemset_bytes(&candidates);
        let result = verify_candidates(transactions, candidates, min_utility);
        guard.free(cand_bytes);
        result
    }
}

} // verus!
