//! A fixed-capacity key-value cache that evicts the least recently used entry.
//!
//! Entries live in an arena of nodes addressed by integer handles. A doubly
//! linked recency list threads through the arena (head = most recently used,
//! tail = least recently used) and a hash index maps each key to the handle of
//! the node that holds it.
pub mod cache;
pub mod model;
pub mod node;

pub use cache::LruCache;
pub use node::Node;
