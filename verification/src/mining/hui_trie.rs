//! HUI-Trie: candidates from a trie of TWU-ordered transactions whose nodes are charged
//! to the memory guard, then exact utilities from the database.
use vstd::prelude::*;
use crate::types::{ItemId, Utility, RawTransaction};
use crate::storage::chunk_store::ChunkStore;
use crate::preprocessing::twu_filter::abs_weight;
use super::memory_guard::MemoryGuard;
use super::exact_utility::{Hui, MiningError, verify_candidates, sound_huis};
use super::up_tree::{NODE_BYTES, itemset_bytes};
use super::ihup::{mine_tree, build_twu_tree, tree_depth_bound, Charging};

verus! {

/// HUI-Trie: mines a trie of the transactions for candidates, then keeps those whose
/// exact utility reaches the threshold. Every trie node is reserved from the memory
/// guard; a refusal ends the run with `MemoryBudgetExceeded`.
pub struct HuiTrie;

impl HuiTrie {
    pub fn new() -> (r: Self) {
        HuiTrie
    }

    /// Mines the high-utility itemsets of the transactions: candidates from the trie,
    /// then their exact utilities. Every reported itemset carries its exact utility,
    /// which reaches `min_utility`.
    pub fn mine<S: ChunkStore>(
        &mut self,
        transactions: &[RawTransaction],
        min_utility: Utility,
        guard: &mut MemoryGuard<S>,
    ) -> (r: Result<Vec<Hui>, MiningError>)
        requires
            abs_weight(transactions@) <= i64::MAX,
        ensures
            r matches Ok(huis) ==> sound_huis(transactions@, min_utility, huis@),
            final(guard).budget_view() == old(guard).budget_view(),
    {
        let tree = match build_twu_tree(transactions, min_utility, guard, true) {
            Ok(t) => t,
            Err(e) => {
                return Err(e);
            },
        };
        let n = tree.node_count();
        let tree_bytes: usize = if n > usize::MAX / NODE_BYTES { usize::MAX } else { n * NODE_BYTES };
        guard.force_alloc(tree_bytes);
        let mut candidates: Vec<Vec<ItemId>> = Vec::new();
        let empty: Vec<ItemId> = Vec::new();
        let charging = Charging { nodes: true, candidates: false };
        match mine_tree(&tree, &empty, min_utility, &mut candidates, guard, charging, tree_depth_bound(transactions)) {
            Ok(()) => {},
            Err(e) => {
                return Err(e);
            },
        }
        let cand_bytes = itemset_bytes(&candidates);
        let result = verify_candidates(transactions, candidates, min_utility);
        guard.free(tree_bytes);
        guard.free(cand_bytes);
        result
    }
}

} // verus!
