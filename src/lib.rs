//! Block encoding, table building and k-way merging for a log-structured
//! merge-tree storage engine.

pub mod error;
pub mod key;
pub mod block;
pub mod table;
pub mod merge;

pub use error::LsmError;
pub use block::{Block, BlockBuilder};
pub use merge::{MergeIterator, StorageIterator, VecIterator};
pub use table::{BlockMeta, SsTable, SsTableBuilder};
