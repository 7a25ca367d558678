//! An adaptive radix tree: an in-memory map from byte-string keys to
//! byte-string values with path-compressed prefixes and inner nodes whose
//! fan-out grows with the actual branching (4, 16, then 256 slots).
//!
//! The stored pairs are modelled by the predicate [`model::has_kv`]; the
//! operations' contracts pin lookup and insertion down to that model, and
//! [`laws`] derives the tree's global properties from them.
use vstd::prelude::*;

pub mod art;
pub mod laws;
pub mod leaf;
pub mod model;
pub mod node;
pub mod node16;
pub mod node256;
pub mod node4;

verus! {

/// Upper bound on the number of prefix bytes stored inline at an inner node.
pub const MAX_PREFIX: usize = 8;

/// An adaptive radix tree mapping byte-string keys to byte-string values.
///
/// `root` is the (possibly empty) root slot and `size` counts the stored
/// keys, one per leaf.
pub struct Art {
    pub root: Node,
    pub size: usize,
    pub keys: Ghost<Set<Seq<u8>>>,
}

/// One slot of the tree: empty, a leaf, or an inner node of one of the
/// three adaptive fan-out shapes.
#[derive(Debug, PartialEq)]
pub enum Node {
    Empty,
    Leaf(Leaf),
    Node4(Node4),
    Node16(Node16),
    Node256(Node256),
}

/// Shared metadata of every inner node: the true length of the compressed
/// common prefix at this node, and its first `min(prefix_len, MAX_PREFIX)`
/// bytes stored inline.
#[derive(Debug, PartialEq)]
pub struct NodeMeta {
    pub prefix_len: usize,
    pub partial: Vec<u8>,
}

/// A stored (key, value) pair, kept verbatim.
#[derive(Debug, PartialEq)]
pub struct Leaf {
    pub key: Vec<u8>,
    pub value: Vec<u8>,
}

/// Inner node with up to 4 children, kept as parallel (label, child) pairs
/// sorted by label, plus the optional terminal leaf.
#[derive(Debug, PartialEq)]
pub struct Node4 {
    pub meta: NodeMeta,
    pub children: Vec<(u8, Node)>,
    pub term_leaf: Option<Box<Node>>,
}

/// Inner node with up to 16 children, stored like `Node4`.
#[derive(Debug, PartialEq)]
pub struct Node16 {
    pub meta: NodeMeta,
    pub children: Vec<(u8, Node)>,
    pub term_leaf: Option<Box<Node>>,
}

/// Inner node with a direct 256-entry child array indexed by label byte;
/// absent labels hold `Node::Empty`.
#[derive(Debug, PartialEq)]
pub struct Node256 {
    pub meta: NodeMeta,
    pub children: Vec<Node>,
    pub term_leaf: Option<Box<Node>>,
}

} // verus!
