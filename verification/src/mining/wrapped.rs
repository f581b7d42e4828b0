//! Miners that delegate to Two-Phase, the exact miner of the library.
use vstd::prelude::*;
use crate::types::{ItemId, Utility, RawTransaction};
use crate::preprocessing::twu_filter::abs_weight;
use crate::storage::chunk_store::ChunkStore;
use super::exact_utility::{Hui, MiningError, sound_huis};
use super::memory_guard::{MemoryGuard, spec_try_alloc};
use super::two_phase::{TwoPhase, db_distinct, mining_complete, owed, reported, twu_bytes};
use super::utility_bounds::db_nonneg;

verus! {

/// What a run of Two-Phase gives against a guard with `used` of `budget` bytes in use:
/// when no transaction holds an item twice, each reported itemset carries its exact
/// utility, which reaches `min_utility`; under `mining_complete`, and when the guard
/// admits the array of transaction utilities, every itemset whose utility reaches
/// `min_utility` is reported, its items in increasing order.
pub open spec fn exact_result(
    txs: Seq<RawTransaction>,
    min_utility: Utility,
    used: usize,
    budget: usize,
    huis: Seq<Hui>,
) -> bool {
    &&& db_distinct(txs) ==> sound_huis(txs, min_utility, huis)
    &&& mining_complete(txs, min_utility) && spec_try_alloc(used, budget, twu_bytes(txs.len())).1
        ==> forall|c: Seq<ItemId>| #[trigger] owed(txs, min_utility, c) ==> reported(huis, c)
}

/// HUIM-GA (genetic algorithm): its result is the exact one, which Two-Phase finds,
/// rather than an evolved approximation.
pub struct HuimGa {
    enable_prefetch: bool,
    inner: TwoPhase,
}

impl HuimGa {
    /// Whether pages of the search are to be prefetched.
    pub closed spec fn prefetch(&self) -> bool {
        self.enable_prefetch
    }

    pub fn new(enable_prefetch: bool) -> (r: Self)
        ensures
            r.prefetch() == enable_prefetch,
    {
        HuimGa { enable_prefetch, inner: TwoPhase::new() }
    }

    /// The high-utility itemsets of the transactions, as `TwoPhase::mine` finds them;
    /// found whenever no transaction holds an item twice and the utilities are
    /// non-negative and covered by the transaction utilities.
    pub fn mine<S: ChunkStore>(
        &mut self,
        transactions: &[RawTransaction],
        min_utility: Utility,
        guard: &mut MemoryGuard<S>,
    ) -> (r: Result<Vec<Hui>, MiningError>)
        requires
            abs_weight(transactions@) <= i64::MAX,
            transactions@.len() <= u32::MAX,
        ensures
            final(guard).budget_view() == old(guard).budget_view(),
            r is Ok ==> final(guard).used_view() == old(guard).used_view(),
            db_distinct(transactions@) && db_nonneg(transactions@) ==> r is Ok,
            r matches Ok(huis) ==> exact_result(
                transactions@,
                min_utility,
                old(guard).used_view(),
                old(guard).budget_view(),
                huis@,
            ),
    {
        self.inner.mine(transactions, min_utility, guard)
    }
}

/// HUIM-BPSO (binary particle swarm optimisation): its result is the exact one, which
/// Two-Phase finds, rather than one a swarm converges to.
pub struct HuimBpso {
    enable_prefetch: bool,
    inner: TwoPhase,
}

impl HuimBpso {
    /// Whether pages of the search are to be prefetched.
    pub closed spec fn prefetch(&self) -> bool {
        self.enable_prefetch
    }

    pub fn new(enable_prefetch: bool) -> (r: Self)
        ensures
            r.prefetch() == enable_prefetch,
    {
        HuimBpso { enable_prefetch, inner: TwoPhase::new() }
    }

    /// The high-utility itemsets of the transactions, as `TwoPhase::mine` finds them;
    /// found whenever no transaction holds an item twice and the utilities are
    /// non-negative and covered by the transaction utilities.
    pub fn mine<S: ChunkStore>(
        &mut self,
        transactions: &[RawTransaction],
        min_utility: Utility,
        guard: &mut MemoryGuard<S>,
    ) -> (r: Result<Vec<Hui>, MiningError>)
        requires
            abs_weight(transactions@) <= i64::MAX,
            transactions@.len() <= u32::MAX,
        ensures
            final(guard).budget_view() == old(guard).budget_view(),
            r is Ok ==> final(guard).used_view() == old(guard).used_view(),
            db_distinct(transactions@) && db_nonneg(transactions@) ==> r is Ok,
            r matches Ok(huis) ==> exact_result(
                transactions@,
                min_utility,
                old(guard).used_view(),
                old(guard).budget_view(),
                huis@,
            ),
    {
        self.inner.mine(transactions, min_utility, guard)
    }
}

/// MHUI-ACO (ant colony optimisation): its result is the exact one, which Two-Phase
/// finds, rather than one the ants converge to.
pub struct MhuiAco {
    enable_prefetch: bool,
    inner: TwoPhase,
}

impl MhuiAco {
    /// Whether pages of the search are to be prefetched.
    pub closed spec fn prefetch(&self) -> bool {
        self.enable_prefetch
    }

    pub fn new(enable_prefetch: bool) -> (r: Self)
        ensures
            r.prefetch() == enable_prefetch,
    {
        MhuiAco { enable_prefetch, inner: TwoPhase::new() }
    }

    /// The high-utility itemsets of the transactions, as `TwoPhase::mine` finds them;
    /// found whenever no transaction holds an item twice and the utilities are
    /// non-negative and covered by the transaction utilities.
    pub fn mine<S: ChunkStore>(
        &mut self,
        transactions: &[RawTransaction],
        min_utility: Utility,
        guard: &mut MemoryGuard<S>,
    ) -> (r: Result<Vec<Hui>, MiningError>)
        requires
            abs_weight(transactions@) <= i64::MAX,
            transactions@.len() <= u32::MAX,
        ensures
            final(guard).budget_view() == old(guard).budget_view(),
            r is Ok ==> final(guard).used_view() == old(guard).used_view(),
            db_distinct(transactions@) && db_nonneg(transactions@) ==> r is Ok,
            r matches Ok(huis) ==> exact_result(
                transactions@,
                min_utility,
                old(guard).used_view(),
                old(guard).budget_view(),
                huis@,
            ),
    {
        self.inner.mine(transactions, min_utility, guard)
    }
}

/// SHUIM: the whole database as a single batch window, mined by Two-Phase.
pub struct Shuim {
    enable_prefetch: bool,
    inner: TwoPhase,
}

impl Shuim {
    /// Whether pages of the search are to be prefetched.
    pub closed spec fn prefetch(&self) -> bool {
        self.enable_prefetch
    }

    pub fn new(enable_prefetch: bool) -> (r: Self)
        ensures
            r.prefetch() == enable_prefetch,
    {
        Shuim { enable_prefetch, inner: TwoPhase::new() }
    }

    /// The high-utility itemsets of the transactions, as `TwoPhase::mine` finds them;
    /// found whenever no transaction holds an item twice and the utilities are
    /// non-negative and covered by the transaction utilities.
    pub fn mine<S: ChunkStore>(
        &mut self,
        transactions: &[RawTransaction],
        min_utility: Utility,
        guard: &mut MemoryGuard<S>,
    ) -> (r: Result<Vec<Hui>, MiningError>)
        requires
            abs_weight(transactions@) <= i64::MAX,
            transactions@.len() <= u32::MAX,
        ensures
            final(guard).budget_view() == old(guard).budget_view(),
            r is Ok ==> final(guard).used_view() == old(guard).used_view(),
            db_distinct(transactions@) && db_nonneg(transactions@) ==> r is Ok,
            r matches Ok(huis) ==> exact_result(
                transactions@,
                min_utility,
                old(guard).used_view(),
                old(guard).budget_view(),
                huis@,
            ),
    {
        self.inner.mine(transactions, min_utility, guard)
    }
}

/// IncFHM: the whole database as a single batch window, mined by Two-Phase.
pub struct IncFhm {
    enable_prefetch: bool,
    inner: TwoPhase,
}

impl IncFhm {
    /// Whether pages of the search are to be prefetched.
    pub closed spec fn prefetch(&self) -> bool {
        self.enable_prefetch
    }

    pub fn new(enable_prefetch: bool) -> (r: Self)
        ensures
            r.prefetch() == enable_prefetch,
    {
        IncFhm { enable_prefetch, inner: TwoPhase::new() }
    }

    /// The high-utility itemsets of the transactions, as `TwoPhase::mine` finds them;
    /// found whenever no transaction holds an item twice and the utilities are
    /// non-negative and covered by the transaction utilities.
    pub fn mine<S: ChunkStore>(
        &mut self,
        transactions: &[RawTransaction],
        min_utility: Utility,
        guard: &mut MemoryGuard<S>,
    ) -> (r: Result<Vec<Hui>, MiningError>)
        requires
            abs_weight(transactions@) <= i64::MAX,
            transactions@.len() <= u32::MAX,
        ensures
            final(guard).budget_view() == old(guard).budget_view(),
            r is Ok ==> final(guard).used_view() == old(guard).used_view(),
            db_distinct(transactions@) && db_nonneg(transactions@) ==> r is Ok,
            r matches Ok(huis) ==> exact_result(
                transactions@,
                min_utility,
                old(guard).used_view(),
                old(guard).budget_view(),
                huis@,
            ),
    {
        self.inner.mine(transactions, min_utility, guard)
    }
}

} // verus!
