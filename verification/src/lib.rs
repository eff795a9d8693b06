//! A B+Tree keyed by integers, text or bytes, with values of raw bytes,
//! whose nodes live in pages of a page store.
use vstd::prelude::*;

pub mod key;
pub mod node;
pub mod codec;
pub mod page;
pub mod storage;
pub mod lock;
pub mod shape;
pub mod chain;
pub mod fill;
pub mod tree;
pub mod cursor;
pub mod insert_proofs;
pub mod delete_proofs;
pub mod laws;

pub use tree::BPlusTree;
pub use key::Key;
pub use node::{Value, Record};
pub use storage::Storage;
pub use storage::memory::MemoryStorage;
pub use storage::file::FileStore;
pub use lock::LockManager;
pub use cursor::Cursor;
pub use page::DEFAULT_PAGE_SIZE;

verus! {

/// The order a tree is usually made with.
pub const DEFAULT_ORDER: usize = 64;

} // verus!
