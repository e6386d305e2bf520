//! Anti-entropy reconciliation of two sorted item collections with hash trees.
//!
//! Each replica builds a binary hash tree over its sorted items. Two replicas
//! compare digests from the top down to count the leaf slots that subtrees with
//! equal digests cover, keep that many leading items, and merge the remaining
//! items of both sides into one duplicate-free run.
//!
//! Every function carries a contract over the mathematical models defined
//! beside it: an item is a `Seq<char>`, a node is a [`NodeView`], a tree is a
//! [`TreeView`], and the shape of a built tree is the spec function
//! [`build_items`]. The module [`laws`] holds what is proved of the library as
//! a whole.
//!
//! Three things are taken on trust: that `sha2` computes one digest for one
//! byte sequence, that `str` orders by code point, and that `slice::sort`
//! sorts.

pub mod digest;
pub mod laws;
pub mod merge;
pub mod node;
pub mod order;
pub mod prefix;
pub mod shape;
pub mod tree;

pub use crate::digest::{
    digest_of, distinct_digests, hex_digit, hex_encode, hex_text, sha256_of,
};
pub use crate::merge::{distinct, merge, merge_unique};
pub use crate::node::{child_view, model_of, Node, NodeView};
pub use crate::order::{sorted, sorted_set, text_le, texts};
pub use crate::prefix::{
    counts_of, leftmost_at_height, matched_counts, matched_counts_of, matched_leaf_count,
    matched_leaves, matched_prefix, total,
};
pub use crate::shape::{
    build_items, build_level, hashed_texts, is_power_of_two, leaf_slots, leaves, level_fits,
    levels_above, padded,
};
pub use crate::tree::{
    node_views, root_view_of, synced_items, view_of, within, MerkleTree, TreeView,
};
