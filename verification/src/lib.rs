//! Storage-engine core: page checksums, slotted B+-tree nodes, a copy-on-write
//! B+-tree over an abstract page store, the page file's format and free-list
//! decisions, write-ahead-log records and redo recovery, and the bookkeeping
//! of snapshots and page reclamation.

pub mod btree;
pub mod crc32c;
pub mod engine;
pub mod le;
pub mod mem_pager;
pub mod mem_store;
pub mod node;
pub mod order;
pub mod pager;
pub mod text;
pub mod tree_model;
pub mod wal;

pub use btree::{BTree, BTreeError, NodeStore};
pub use crc32c::crc32c;
pub use engine::{DatabaseError, MvccState, Snapshot};
pub use mem_pager::MemPager;
pub use mem_store::MemStore;
pub use pager::{PageId, PagerError, PagerState};
pub use tree_model::Bound;
pub use wal::{Lsn, WalError};
