//! An in-memory ordered map from `u64` keys to values, kept as a persistent
//! B-tree whose nodes are shared between snapshots.

pub mod batch_write;
pub mod btree;
pub mod clock;
pub mod cursor;
pub mod laws;
pub mod leaf;
pub mod model;
pub mod node;
pub mod tree;
pub mod ttl;

pub use batch_write::{Action, BatchWrite};
pub use btree::BTree;
pub use cursor::Iterator;
pub use leaf::Leaf;
pub use node::Node;
pub use tree::{BTreeType, Entry, Item, PutResult};
pub use ttl::{TTLBTree, TTL};
