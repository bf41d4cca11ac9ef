//! What can go wrong, and the tag of a node.
use vstd::prelude::*;
use crate::layout::{BNODE_LEAF, BNODE_NODE};

verus! {

/// The faults of the tree core.
#[derive(Clone, Copy, Debug, PartialEq, Eq)]
pub enum BTreeError {
    /// A page does not start with the tag of a leaf or of an internal node.
    DecodeError,
    /// An index or an offset points outside what the node holds.
    BoundsViolation,
    /// A key or a value is longer than a page can take.
    OversizedEntry,
    /// No page has the given id.
    PageNotFound,
}

/// The two kinds of node.
#[derive(Clone, Copy, Debug, PartialEq, Eq)]
pub enum NodeType {
    /// An internal node: keys and child pages.
    Node,
    /// A leaf: keys and values.
    Leaf,
}

impl NodeType {
    /// The tag that stands for this kind in a page.
    pub open spec fn spec_tag(self) -> int {
        match self {
            NodeType::Node => BNODE_NODE as int,
            NodeType::Leaf => BNODE_LEAF as int,
        }
    }

    /// The kind that a tag stands for; any tag but the two known ones is a
    /// decode error.
    pub fn from(value: u16) -> (r: Result<NodeType, BTreeError>)
        ensures
            value == BNODE_NODE ==> r == Ok::<NodeType, BTreeError>(NodeType::Node),
            value == BNODE_LEAF ==> r == Ok::<NodeType, BTreeError>(NodeType::Leaf),
            value != BNODE_NODE && value != BNODE_LEAF ==> r == Err::<NodeType, BTreeError>(
                BTreeError::DecodeError,
            ),
    {
        if value == BNODE_NODE {
            Ok(NodeType::Node)
        } else if value == BNODE_LEAF {
            Ok(NodeType::Leaf)
        } else {
            Err(BTreeError::DecodeError)
        }
    }

    /// The tag that stands for this kind in a page.
    pub fn tag(&self) -> (r: u16)
        ensures
            r == self.spec_tag(),
    {
        match self {
            NodeType::Node => BNODE_NODE,
            NodeType::Leaf => BNODE_LEAF,
        }
    }
}

} // verus!
