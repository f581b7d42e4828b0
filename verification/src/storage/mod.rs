pub mod le_bytes;
pub mod page_layout;
pub mod compression;
pub mod chunk_store;

pub use chunk_store::{ChunkStore, StoreError};
pub use page_layout::{PageFlags, PageHeader, PAGE_MAGIC, PAGE_HEADER_SIZE};
