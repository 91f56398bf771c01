//! A B-link tree: an ordered key-value index in which every node carries a
//! link to its right sibling.
//!
//! - `algorithm`, `utils`: lower-bound search and vector cutting.
//! - `physical_node`, `node`: the node record with its type flags, and the
//!   leaf / interior variant that the page store holds.
//! - `blink_ops`: the node algebra (containment, right moves, scans,
//!   insertion, splits).
//! - `storage`, `lock`, `statistics`: the page store, the lock table and the
//!   counters.
//! - `tree_shape`: the well-formedness of a whole tree over its page store,
//!   and the proofs that each step of a lookup or an insertion keeps it.
//! - `blinktree`: the tree driver, whose `find` and `insert` are proved
//!   against the map that the tree stands for.
//! - `simple_node`: nodes that are told their position by the caller.
//! - `persistent`: the map interface that the tree offers.

pub mod algorithm;
pub mod utils;
pub mod physical_node;
pub mod node;
pub mod blink_ops;
pub mod storage;
pub mod lock;
pub mod statistics;
pub mod tree_shape;
pub mod blinktree;
pub mod simple_node;
pub mod persistent;
