pub mod transaction;
pub mod itemset;
pub mod utility_list;
pub mod page;

pub use transaction::{ItemId, Utility, ItemEntry, RawTransaction, Transaction};
pub use utility_list::{ULEntry, UtilityList, RecomputeFlag};
pub use page::{PageId, PageMeta};
