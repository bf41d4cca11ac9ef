//! Core of a copy-on-write B+-tree: the page codec and the insert path.
//!
//! A node is a buffer of bytes in a fixed layout ([`layout`]). [`node`] reads
//! and builds such buffers, [`split`] cuts one that has outgrown its page, and
//! [`tree`] keeps the pages and puts keys into the tree. What a tree holds is
//! stated over sequences of keys and values ([`contents`]) and over the pages
//! that make it up ([`forest`], [`reach`]).
pub mod wire;
pub mod keys;
pub mod layout;
pub mod error;
pub mod node;
pub mod split;
pub mod contents;
pub mod forest;
pub mod reach;
pub mod tree;

pub use error::{BTreeError, NodeType};
pub use keys::{key_order, KeyOrder};
pub use layout::{
    init, BNODE_LEAF, BNODE_NODE, BTREE_MAX_ENTRY_SIZE, BTREE_MAX_KEY_SIZE, BTREE_MAX_NODE_SIZE,
    BTREE_MAX_VAL_SIZE, BTREE_PAGE_SIZE, HEADER,
};
pub use node::BNode;
pub use tree::BTree;
