//! Tagged slab nodes: each slot of this layout holds a node tag followed by
//! one node (inner, leaf or free), and a leaf points at its callback
//! information elsewhere in the slab.
use vstd::prelude::*;

verus! {

/// The index of a slot.
pub type NodeHandle = u32;

/// An inner node: its children's keys agree on the first `prefix_len` bits.
#[derive(Debug, PartialEq, Eq, Clone, Copy)]
pub struct InnerNode {
    pub key: u128,
    pub prefix_len: u64,
    pub children: [u32; 2],
}

/// A critibit leaf node
#[derive(Debug, PartialEq, Eq, PartialOrd, Clone, Copy, Structural)]
pub struct LeafNode {
    /// The key is the associated order id
    pub key: u128,
    /// Where the node's callback information lies in the slab.
    pub callback_info_pt: u64,
    /// The quantity of base asset associated with the underlying order
    pub base_quantity: u64,
}

/// The byte size of a node.
pub const NODE_SIZE: usize = 32;

/// The byte size of a free node.
pub const FREE_NODE_SIZE: usize = 4;

/// The byte size of a node's tag.
pub const NODE_TAG_SIZE: usize = 8;

/// The size in bytes of a critbit slot
pub const SLOT_SIZE: usize = 40;

impl LeafNode {
    /// Parse a leaf node's price
    pub fn price(&self) -> (r: u64)
        ensures
            r == crate::state::critbit::spec_price_from_key(self.key),
    {
        crate::state::critbit::LeafNode::price_from_key(self.key)
    }

    /// Get the associated order id
    pub fn order_id(&self) -> (r: u128)
        ensures
            r == self.key,
    {
        self.key
    }

    /// Sets the base quantity of the order.
    pub fn set_base_quantity(&mut self, quantity: u64)
        ensures
            *final(self) == (LeafNode { base_quantity: quantity, ..*old(self) }),
    {
        self.base_quantity = quantity;
    }
}

/// A free slot, with the next one of the free list.
#[derive(Debug, PartialEq, Eq, Clone, Copy, Structural)]
pub struct FreeNode {
    pub next: u32,
}

/// The kind of a slot.
#[derive(Debug, PartialEq, Eq, Clone, Copy, Structural)]
pub enum NodeTag {
    Uninitialized,
    Inner,
    Leaf,
    Free,
    LastFree,
}

/// The content of a slot.
#[derive(Clone, Copy, Debug, PartialEq, Eq)]
pub enum Node {
    Uninitialized,
    Inner(InnerNode),
    Leaf(LeafNode),
    Free(FreeNode),
    LastFree(FreeNode),
}

/// The content of a slot, read in place.
pub enum NodeRef<'a> {
    Uninitialized,
    Inner(&'a InnerNode),
    Leaf(&'a LeafNode),
    Free(&'a FreeNode),
    LastFree(&'a FreeNode),
}

impl Node {
    /// The leaf that the node is, if it is one.
    pub fn as_leaf(&self) -> (r: Option<&LeafNode>)
        ensures
            r == (match *self {
                Node::Leaf(leaf) => Some(&leaf),
                _ => None,
            }),
    {
        match self {
            Node::Leaf(leaf_ref) => Some(leaf_ref),
            _ => None,
        }
    }

    /// The kind of the node.
    pub fn tag(&self) -> (r: NodeTag)
        ensures
            r == (match *self {
                Node::Uninitialized => NodeTag::Uninitialized,
                Node::Inner(_) => NodeTag::Inner,
                Node::Leaf(_) => NodeTag::Leaf,
                Node::Free(_) => NodeTag::Free,
                Node::LastFree(_) => NodeTag::LastFree,
            }),
    {
        match self {
            Node::Uninitialized => NodeTag::Uninitialized,
            Node::Inner(_) => NodeTag::Inner,
            Node::Leaf(_) => NodeTag::Leaf,
            Node::Free(_) => NodeTag::Free,
            Node::LastFree(_) => NodeTag::LastFree,
        }
    }
}

impl<'a> NodeRef<'a> {
    /// The key of an inner node or a leaf.
    pub fn key(&self) -> (r: Option<u128>)
        ensures
            r == (match *self {
                NodeRef::Inner(inner) => Some(inner.key),
                NodeRef::Leaf(leaf) => Some(leaf.key),
                _ => None,
            }),
    {
        match self {
            NodeRef::Inner(inner) => Some(inner.key),
            NodeRef::Leaf(leaf) => Some(leaf.key),
            _ => None,
        }
    }

    /// The prefix length of an inner node, 128 for a leaf, nothing for a
    /// slot that holds neither.
    pub fn prefix_len(&self) -> (r: Option<u64>)
        ensures
            r == (match *self {
                NodeRef::Inner(inner) => Some(inner.prefix_len),
                NodeRef::Leaf(_) => Some(128u64),
                _ => None,
            }),
    {
        match self {
            NodeRef::Inner(i) => Some(i.prefix_len),
            NodeRef::Leaf(_) => Some(128),
            _ => None,
        }
    }

    /// The children of an inner node.
    pub fn children(&self) -> (r: Option<&'a [u32; 2]>)
        ensures
            r == (match *self {
                NodeRef::Inner(inner) => Some(&inner.children),
                _ => None,
            }),
    {
        match self {
            NodeRef::Inner(i) => Some(&i.children),
            _ => None,
        }
    }

    /// The leaf that the node is, if it is one.
    pub fn as_leaf(&self) -> (r: Option<&'a LeafNode>)
        ensures
            r == (match *self {
                NodeRef::Leaf(leaf) => Some(leaf),
                _ => None,
            }),
    {
        match self {
            NodeRef::Leaf(leaf_ref) => Some(leaf_ref),
            _ => None,
        }
    }

    /// A copy of the node.
    pub fn to_owned(&self) -> (r: Node)
        ensures
            r == (match *self {
                NodeRef::Uninitialized => Node::Uninitialized,
                NodeRef::Inner(n) => Node::Inner(*n),
                NodeRef::Leaf(n) => Node::Leaf(*n),
                NodeRef::Free(n) => Node::Free(*n),
                NodeRef::LastFree(n) => Node::LastFree(*n),
            }),
    {
        match self {
            NodeRef::Uninitialized => Node::Uninitialized,
            NodeRef::Inner(n) => Node::Inner(**n),
            NodeRef::Leaf(n) => Node::Leaf(**n),
            NodeRef::Free(n) => Node::Free(**n),
            NodeRef::LastFree(n) => Node::LastFree(**n),
        }
    }
}

} // verus!
