pub mod ul_join;
pub mod memory_guard;
pub mod eucs;
pub mod exact_utility;
pub mod up_tree;
pub mod up_growth;
pub mod ihup;
pub mod hui_trie;
pub mod two_phase;
pub mod data_source;
pub mod traversal;
pub mod ul_search;
pub mod tku;
pub mod wrapped;
pub mod huim_mmu;
pub mod efim_closed;
pub mod utility_bounds;
pub mod rank_order;
pub mod dataset_stats;
pub mod context;
