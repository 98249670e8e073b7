//! A page cache for a disk-backed store: fixed-size pages, a bounded
//! pin-aware LRU cache over them, and the decisions of the pager that
//! sits between the cache and the backing file.

pub mod lru;
pub mod page;
pub mod pager;
pub mod recency;

pub use lru::{Lru, LruError};
pub use page::{Page, PageType};
pub use pager::{Fetch, PageWrite, Pager};
