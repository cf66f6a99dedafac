//! Storage core of a small single-node database: an LRU eviction ring,
//! a buffer pool of fixed-size pages, a table catalog and a slotted page view.

pub mod config;
pub mod error;
pub mod resource;
pub mod lru_list;
pub mod cache;
pub mod catalog;
pub mod page;
pub mod io_manager;
