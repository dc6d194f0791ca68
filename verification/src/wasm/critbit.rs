//! The nodes of a slab as a JavaScript client reads them: each slot holds a
//! tag byte followed by the node, its integers little-endian, a leaf carrying
//! its callback information inline.
use crate::state::layout::{
    le_u128, le_u32, le_u64, read_bytes32, read_u128, read_u32, read_u64, write_bytes, written,
};
use crate::state::critbit::{bit_at, lemma_agree_order, prefix_agree};
use vstd::bytes::*;
use vstd::prelude::*;

verus! {

/// The index of a slot.
pub type NodeHandle = u32;

/// Why bytes do not hold a node, or a node does not fit in them.
#[derive(Clone, Copy, Debug, PartialEq, Eq, Structural)]
pub enum NodeError {
    /// The tag names no kind of node.
    InvalidData,
    /// The bytes end before the node does.
    UnexpectedEof,
    /// The buffer ends before the node written into it does.
    WriteZero,
}

/// An inner node: its children's keys agree on the first `prefix_len` bits.
#[derive(Clone, Copy, Debug, PartialEq, Eq)]
pub struct InnerNode {
    pub prefix_len: u32,
    pub key: u128,
    pub children: [u32; 2],
}

/// The side of an order.
#[derive(Clone, Copy, Debug, PartialEq, Eq, Structural)]
pub enum Side {
    Bid,
    Ask,
}

/// The kind of an account.
#[derive(Clone, Copy, Debug, PartialEq, Eq, Structural)]
pub enum AccountTag {
    Uninitialized,
    Market,
    EventQueue,
    Bids,
    Asks,
}

/// An order: its key, its callback information and its base quantity.
#[derive(Clone, Debug, PartialEq, PartialOrd)]
pub struct LeafNode {
    pub key: u128,
    pub callback_info: Vec<u8>,
    pub base_quantity: u64,
}

/// A free slot, with the next one of the free list.
#[derive(Clone, Copy, Debug, PartialEq, Eq, Structural)]
pub struct FreeNode {
    pub next: u32,
}

/// The content of a slot.
#[derive(Clone, Debug, PartialEq)]
pub enum Node {
    Uninitialized,
    Inner(InnerNode),
    Leaf(LeafNode),
    Free(FreeNode),
    LastFree(FreeNode),
}

/// The byte size of an inner node.
pub const INNER_NODE_SIZE: usize = 32;

// ------------------------------------------------------------------------
// Byte forms.
/// The bytes of a leaf: its key, its callback information, its base
/// quantity.
pub open spec fn spec_leaf_bytes(key: u128, callback_info: Seq<u8>, base_quantity: u64) -> Seq<
    u8,
> {
    spec_u128_to_le_bytes(key) + callback_info + spec_u64_to_le_bytes(base_quantity)
}

/// The bytes of an inner node: its prefix length, its key, its children.
pub open spec fn spec_inner_bytes(n: InnerNode) -> Seq<u8> {
    spec_u32_to_le_bytes(n.prefix_len) + spec_u128_to_le_bytes(n.key) + spec_u32_to_le_bytes(
        n.children[0],
    ) + spec_u32_to_le_bytes(n.children[1])
}

/// The inner node that `t` starts with.
pub open spec fn spec_read_inner(t: Seq<u8>) -> InnerNode {
    InnerNode {
        prefix_len: le_u32(t, 0),
        key: le_u128(t, 4),
        children: [le_u32(t, 20), le_u32(t, 24)],
    }
}

/// The bytes of a slot: its tag, then the node.
pub open spec fn spec_node_bytes(n: Node) -> Seq<u8> {
    match n {
        Node::Uninitialized => seq![0u8],
        Node::Inner(i) => seq![1u8] + spec_inner_bytes(i),
        Node::Leaf(l) => seq![2u8] + spec_leaf_bytes(l.key, l.callback_info@, l.base_quantity),
        Node::Free(f) => seq![3u8] + spec_u32_to_le_bytes(f.next),
        Node::LastFree(f) => seq![4u8] + spec_u32_to_le_bytes(f.next),
    }
}

proof fn lemma_int_bytes()
    ensures
        forall|x: u32|
            #![trigger spec_u32_to_le_bytes(x)]
            spec_u32_to_le_bytes(x).len() == 4 && spec_u32_from_le_bytes(spec_u32_to_le_bytes(x))
                == x,
        forall|x: u64|
            #![trigger spec_u64_to_le_bytes(x)]
            spec_u64_to_le_bytes(x).len() == 8 && spec_u64_from_le_bytes(spec_u64_to_le_bytes(x))
                == x,
        forall|x: u128|
            #![trigger spec_u128_to_le_bytes(x)]
            spec_u128_to_le_bytes(x).len() == 16 && spec_u128_from_le_bytes(
                spec_u128_to_le_bytes(x),
            ) == x,
{
    assert forall|x: u32| #![trigger spec_u32_to_le_bytes(x)]
        spec_u32_to_le_bytes(x).len() == 4 && spec_u32_from_le_bytes(spec_u32_to_le_bytes(x))
            == x by {
        lemma_auto_spec_u32_to_from_le_bytes();
        assert(spec_u32_to_le_bytes(x).len() == 4);
        assert(spec_u32_from_le_bytes(spec_u32_to_le_bytes(x)) == x);
    }
    lemma_auto_spec_u64_to_from_le_bytes();
    lemma_auto_spec_u128_to_from_le_bytes();
}

// ------------------------------------------------------------------------
// Leaves.
impl LeafNode {
    /// Appends the bytes of the leaf to `writer`.
    pub fn serialize(&self, writer: &mut Vec<u8>)
        ensures
            final(writer)@ == old(writer)@ + spec_leaf_bytes(
                self.key,
                self.callback_info@,
                self.base_quantity,
            ),
    {
        let mut k = u128_to_le_bytes(self.key);
        writer.append(&mut k);
        let mut c = vstd::slice::slice_to_vec(self.callback_info.as_slice());
        writer.append(&mut c);
        let mut q = u64_to_le_bytes(self.base_quantity);
        writer.append(&mut q);
        proof {
            assert(writer@ =~= old(writer)@ + spec_leaf_bytes(
                self.key,
                self.callback_info@,
                self.base_quantity,
            ));
        }
    }

    /// Reads a leaf whose callback information takes `callback_info_len`
    /// bytes.
    pub fn deserialize(buf: &[u8], callback_info_len: usize) -> (r: Result<Self, NodeError>)
        requires
            callback_info_len + 24 <= buf.len(),
        ensures
            r matches Ok(l) && l.key == le_u128(buf@, 0) && l.callback_info@ == buf@.subrange(
                16,
                16 + callback_info_len,
            ) && l.base_quantity == le_u64(buf@, 16 + callback_info_len),
    {
        let key = read_u128(buf, 0);
        let callback_info = vstd::slice::slice_to_vec(
            vstd::slice::slice_subrange(buf, 16, callback_info_len + 16),
        );
        let base_quantity = read_u64(buf, callback_info_len + 16);
        Ok(Self { key, callback_info, base_quantity })
    }

    /// A new leaf.
    pub fn new(key: u128, callback_info: Vec<u8>, quantity: u64) -> (r: Self)
        ensures
            r.key == key,
            r.callback_info == callback_info,
            r.base_quantity == quantity,
    {
        LeafNode { key, callback_info, base_quantity: quantity }
    }

    /// The price of the order: the upper 64 bits of its key.
    pub fn price(&self) -> (r: u64)
        ensures
            r == crate::state::critbit::spec_price_from_key(self.key),
    {
        crate::state::critbit::LeafNode::price_from_key(self.key)
    }

    /// The order id: the key.
    pub fn order_id(&self) -> (r: u128)
        ensures
            r == self.key,
    {
        self.key
    }

    /// Sets the base quantity of the order.
    pub fn set_base_quantity(&mut self, quantity: u64)
        ensures
            final(self).base_quantity == quantity,
            final(self).key == old(self).key,
            final(self).callback_info == old(self).callback_info,
    {
        self.base_quantity = quantity;
    }
}

// ------------------------------------------------------------------------
// Nodes.
fn append_u32(w: &mut Vec<u8>, x: u32)
    ensures
        final(w)@ == old(w)@ + spec_u32_to_le_bytes(x),
{
    let mut b = u32_to_le_bytes(x);
    w.append(&mut b);
}

fn inner_serialize(n: &InnerNode, w: &mut Vec<u8>)
    ensures
        final(w)@ == old(w)@ + spec_inner_bytes(*n),
{
    append_u32(w, n.prefix_len);
    let mut k = u128_to_le_bytes(n.key);
    w.append(&mut k);
    append_u32(w, n.children[0]);
    append_u32(w, n.children[1]);
    proof {
        assert(w@ =~= old(w)@ + spec_inner_bytes(*n));
    }
}

fn inner_deserialize(buf: &[u8], off: usize) -> (r: Result<InnerNode, NodeError>)
    requires
        off <= buf.len(),
    ensures
        buf.len() < off + 28 ==> r == Err::<InnerNode, NodeError>(NodeError::UnexpectedEof),
        buf.len() >= off + 28 ==> r == Ok::<InnerNode, NodeError>(
            spec_read_inner(buf@.subrange(off as int, buf@.len() as int)),
        ),
{
    if buf.len() - off < 28 {
        return Err(NodeError::UnexpectedEof);
    }
    let t = Ghost(buf@.subrange(off as int, buf@.len() as int));
    assert(t@.subrange(0, 4) =~= buf@.subrange(off as int, off + 4));
    assert(t@.subrange(4, 20) =~= buf@.subrange(off + 4, off + 20));
    assert(t@.subrange(20, 24) =~= buf@.subrange(off + 20, off + 24));
    assert(t@.subrange(24, 28) =~= buf@.subrange(off + 24, off + 28));
    let prefix_len = read_u32(buf, off);
    let key = read_u128(buf, off + 4);
    let c0 = read_u32(buf, off + 20);
    let c1 = read_u32(buf, off + 24);
    let n = InnerNode { prefix_len, key, children: [c0, c1] };
    proof {
        let s = spec_read_inner(t@);
        assert(n.children[0] == s.children[0]);
        assert(n.children[1] == s.children[1]);
        assert(n.children =~= s.children);
    }
    Ok(n)
}

fn free_deserialize(buf: &[u8], off: usize) -> (r: Result<FreeNode, NodeError>)
    requires
        off <= buf.len(),
    ensures
        buf.len() < off + 4 ==> r == Err::<FreeNode, NodeError>(NodeError::UnexpectedEof),
        buf.len() >= off + 4 ==> r == Ok::<FreeNode, NodeError>(
            FreeNode { next: le_u32(buf@, off as int) },
        ),
{
    if buf.len() - off < 4 {
        return Err(NodeError::UnexpectedEof);
    }
    Ok(FreeNode { next: read_u32(buf, off) })
}

impl Node {
    /// Reads the node of a slot, whose leaves carry `callback_info_len`
    /// bytes of callback information.
    pub fn deserialize(buffer: &[u8], callback_info_len: usize) -> (r: Result<Self, NodeError>)
        requires
            buffer.len() >= 1,
            buffer@[0] == 2 ==> 1 + callback_info_len + 24 <= buffer.len(),
        ensures
            buffer@[0] == 0 ==> r == Ok::<Node, NodeError>(Node::Uninitialized),
            buffer@[0] == 1 ==> (if buffer.len() < 29 {
                r == Err::<Node, NodeError>(NodeError::UnexpectedEof)
            } else {
                r == Ok::<Node, NodeError>(
                    Node::Inner(spec_read_inner(buffer@.subrange(1, buffer@.len() as int))),
                )
            }),
            buffer@[0] == 2 ==> (r matches Ok(Node::Leaf(l)) && l.key == le_u128(buffer@, 1)
                && l.callback_info@ == buffer@.subrange(17, 17 + callback_info_len)
                && l.base_quantity == le_u64(buffer@, 17 + callback_info_len)),
            buffer@[0] == 3 ==> (if buffer.len() < 5 {
                r == Err::<Node, NodeError>(NodeError::UnexpectedEof)
            } else {
                r == Ok::<Node, NodeError>(Node::Free(FreeNode { next: le_u32(buffer@, 1) }))
            }),
            buffer@[0] == 4 ==> (if buffer.len() < 5 {
                r == Err::<Node, NodeError>(NodeError::UnexpectedEof)
            } else {
                r == Ok::<Node, NodeError>(Node::LastFree(FreeNode { next: le_u32(buffer@, 1) }))
            }),
            buffer@[0] > 4 ==> r == Err::<Node, NodeError>(NodeError::InvalidData),
    {
        match buffer[0] {
            0 => Ok(Node::Uninitialized),
            1 => match inner_deserialize(buffer, 1) {
                Ok(n) => Ok(Node::Inner(n)),
                Err(e) => Err(e),
            },
            2 => {
                let rest = vstd::slice::slice_subrange(buffer, 1, buffer.len());
                let ghost t = rest@;
                proof {
                    assert(t.subrange(0, 16) =~= buffer@.subrange(1, 17));
                    assert(t.subrange(16, 16 + callback_info_len) =~= buffer@.subrange(
                        17,
                        17 + callback_info_len,
                    ));
                    assert(t.subrange(16 + callback_info_len, 16 + callback_info_len + 8)
                        =~= buffer@.subrange(17 + callback_info_len, 17 + callback_info_len + 8));
                }
                match LeafNode::deserialize(rest, callback_info_len) {
                    Ok(l) => Ok(Node::Leaf(l)),
                    Err(e) => Err(e),
                }
            },
            3 => match free_deserialize(buffer, 1) {
                Ok(f) => Ok(Node::Free(f)),
                Err(e) => Err(e),
            },
            4 => match free_deserialize(buffer, 1) {
                Ok(f) => Ok(Node::LastFree(f)),
                Err(e) => Err(e),
            },
            _ => Err(NodeError::InvalidData),
        }
    }

    /// Appends the bytes of the slot to `w`: the tag, then the node.
    pub fn serialize(&self, w: &mut Vec<u8>)
        ensures
            final(w)@ == old(w)@ + spec_node_bytes(*self),
    {
        match self {
            Node::Uninitialized => {
                w.push(0);
            },
            Node::Inner(n) => {
                w.push(1);
                inner_serialize(n, w);
            },
            Node::Leaf(n) => {
                w.push(2);
                n.serialize(w);
            },
            Node::Free(n) => {
                w.push(3);
                append_u32(w, n.next);
            },
            Node::LastFree(n) => {
                w.push(4);
                append_u32(w, n.next);
            },
        }
        proof {
            assert(w@ =~= old(w)@ + spec_node_bytes(*self));
        }
    }

    /// The key of an inner node or a leaf.
    pub fn key(&self) -> (r: Option<u128>)
        ensures
            r == (match *self {
                Node::Inner(inner) => Some(inner.key),
                Node::Leaf(leaf) => Some(leaf.key),
                _ => None,
            }),
    {
        match self {
            Node::Inner(inner) => Some(inner.key),
            Node::Leaf(leaf) => Some(leaf.key),
            _ => None,
        }
    }

    /// The prefix length of an inner node, 128 for a leaf.
    pub fn prefix_len(&self) -> (r: Result<u32, NodeError>)
        ensures
            r == (match *self {
                Node::Inner(inner) => Ok(inner.prefix_len),
                Node::Leaf(_) => Ok(128u32),
                _ => Err(NodeError::InvalidData),
            }),
    {
        match self {
            Node::Inner(InnerNode { prefix_len, .. }) => Ok(*prefix_len),
            Node::Leaf(_) => Ok(128),
            _ => Err(NodeError::InvalidData),
        }
    }

    /// The children of an inner node.
    pub fn children(&self) -> (r: Option<&[u32; 2]>)
        ensures
            r == (match *self {
                Node::Inner(inner) => Some(&inner.children),
                _ => None,
            }),
    {
        match self {
            Node::Inner(InnerNode { children, .. }) => Some(children),
            _ => None,
        }
    }

    /// The leaf that the node is, if it is one.
    pub fn as_leaf(&self) -> (r: Option<&LeafNode>)
        ensures
            r == (match *self {
                Node::Leaf(leaf) => Some(&leaf),
                _ => None,
            }),
    {
        match self {
            Node::Leaf(leaf_ref) => Some(leaf_ref),
            _ => None,
        }
    }
}

// ------------------------------------------------------------------------
// Reading back what was written.
/// A slot reads back as the node that was written into it, whose leaf, if
/// it is one, carries `callback_info_len` bytes of callback information.
pub proof fn lemma_node_roundtrip(n: Node, callback_info_len: nat)
    requires
        n matches Node::Leaf(l) ==> l.callback_info@.len() == callback_info_len,
    ensures
        ({
            let t = spec_node_bytes(n);
            &&& t.len() >= 1
            &&& n is Uninitialized ==> t[0] == 0
            &&& n matches Node::Inner(i) ==> t[0] == 1 && t.len() == 29 && spec_read_inner(
                t.subrange(1, t.len() as int),
            ) == i
            &&& n matches Node::Leaf(l) ==> t[0] == 2 && t.len() == 1 + callback_info_len + 24
                && le_u128(t, 1) == l.key && t.subrange(17, 17 + callback_info_len as int)
                == l.callback_info@ && le_u64(t, 17 + callback_info_len as int) == l.base_quantity
            &&& n matches Node::Free(f) ==> t[0] == 3 && t.len() == 5 && le_u32(t, 1) == f.next
            &&& n matches Node::LastFree(f) ==> t[0] == 4 && t.len() == 5 && le_u32(t, 1)
                == f.next
        }),
{
    lemma_int_bytes();
    let t = spec_node_bytes(n);
    match n {
        Node::Uninitialized => {},
        Node::Inner(i) => {
            let u = t.subrange(1, t.len() as int);
            assert(u =~= spec_inner_bytes(i));
            assert(u.subrange(0, 4) =~= spec_u32_to_le_bytes(i.prefix_len));
            assert(u.subrange(4, 20) =~= spec_u128_to_le_bytes(i.key));
            assert(u.subrange(20, 24) =~= spec_u32_to_le_bytes(i.children[0]));
            assert(u.subrange(24, 28) =~= spec_u32_to_le_bytes(i.children[1]));
            let s = spec_read_inner(u);
            assert(s.children[0] == i.children[0]);
            assert(s.children[1] == i.children[1]);
            assert(s.children =~= i.children);
        },
        Node::Leaf(l) => {
            let c = callback_info_len as int;
            assert(t.subrange(1, 17) =~= spec_u128_to_le_bytes(l.key));
            assert(t.subrange(17, 17 + c) =~= l.callback_info@);
            assert(t.subrange(17 + c, 17 + c + 8) =~= spec_u64_to_le_bytes(l.base_quantity));
        },
        Node::Free(f) => {
            assert(t.subrange(1, 5) =~= spec_u32_to_le_bytes(f.next));
        },
        Node::LastFree(f) => {
            assert(t.subrange(1, 5) =~= spec_u32_to_le_bytes(f.next));
        },
    }
}


// ------------------------------------------------------------------------
// What a slot reads as.
/// Whether `r` is what the bytes `t` of a slot read as, leaves carrying
/// `cil` bytes of callback information: `None` where the bytes hold no node.
pub open spec fn reads_as(t: Seq<u8>, cil: nat, r: Option<Node>) -> bool {
    if t[0] == 0 {
        r == Some(Node::Uninitialized)
    } else if t[0] == 1 {
        if t.len() < 29 {
            r is None
        } else {
            r == Some(Node::Inner(spec_read_inner(t.subrange(1, t.len() as int))))
        }
    } else if t[0] == 2 {
        r matches Some(Node::Leaf(l)) && l.key == le_u128(t, 1) && l.callback_info@ == t.subrange(
            17,
            17 + cil as int,
        ) && l.base_quantity == le_u64(t, 17 + cil as int)
    } else if t[0] == 3 {
        if t.len() < 5 {
            r is None
        } else {
            r == Some(Node::Free(FreeNode { next: le_u32(t, 1) }))
        }
    } else if t[0] == 4 {
        if t.len() < 5 {
            r is None
        } else {
            r == Some(Node::LastFree(FreeNode { next: le_u32(t, 1) }))
        }
    } else {
        r is None
    }
}

// ------------------------------------------------------------------------
// Slabs.
/// The header of a slab account.
#[derive(Clone, Copy, Debug, PartialEq, Eq)]
pub struct SlabHeader {
    pub account_tag: AccountTag,
    pub bump_index: u64,
    pub free_list_len: u64,
    pub free_list_head: u32,
    pub root_node: u32,
    pub leaf_count: u64,
    pub market_address: [u8; 32],
}

/// The byte size of a slab header.
pub const SLAB_HEADER_LEN: usize = 65;

/// The account tag that the byte `b` stands for.
pub open spec fn spec_account_tag(b: u8) -> AccountTag {
    if b == 0 {
        AccountTag::Uninitialized
    } else if b == 1 {
        AccountTag::Market
    } else if b == 2 {
        AccountTag::EventQueue
    } else if b == 3 {
        AccountTag::Bids
    } else {
        AccountTag::Asks
    }
}

/// Whether `h` is the header that the bytes `t` begin with.
pub open spec fn header_read(t: Seq<u8>, h: SlabHeader) -> bool {
    &&& h.account_tag == spec_account_tag(t[0])
    &&& h.bump_index == le_u64(t, 1)
    &&& h.free_list_len == le_u64(t, 9)
    &&& h.free_list_head == le_u32(t, 17)
    &&& h.root_node == le_u32(t, 21)
    &&& h.leaf_count == le_u64(t, 25)
    &&& h.market_address@ == t.subrange(33, 65)
}

/// A slab as a client reads it: its header, then slots of `slot_size`
/// bytes, each holding a node.
pub struct Slab {
    pub header: SlabHeader,
    pub buffer: Vec<u8>,
    pub callback_info_len: usize,
    pub slot_size: usize,
}

impl Slab {
    /// Whether the slab is the one of `side`.
    pub fn check(&self, side: Side) -> (r: bool)
        ensures
            r == (match side {
                Side::Bid => self.header.account_tag == AccountTag::Bids,
                Side::Ask => self.header.account_tag == AccountTag::Asks,
            }),
    {
        match side {
            Side::Bid => self.header.account_tag == AccountTag::Bids,
            Side::Ask => self.header.account_tag == AccountTag::Asks,
        }
    }

    /// Reads the slab that `buffer` holds, with the given layout of its
    /// slots.
    pub fn new(buffer: Vec<u8>, callback_info_len: usize, slot_size: usize) -> (r: Self)
        requires
            buffer.len() >= SLAB_HEADER_LEN,
            buffer@[0] <= 4,
        ensures
            header_read(buffer@, r.header),
            r.buffer@ == buffer@,
            r.callback_info_len == callback_info_len,
            r.slot_size == slot_size,
    {
        let b = buffer.as_slice();
        let account_tag = match b[0] {
            0 => AccountTag::Uninitialized,
            1 => AccountTag::Market,
            2 => AccountTag::EventQueue,
            3 => AccountTag::Bids,
            _ => AccountTag::Asks,
        };
        let header = SlabHeader {
            account_tag,
            bump_index: read_u64(b, 1),
            free_list_len: read_u64(b, 9),
            free_list_head: read_u32(b, 17),
            root_node: read_u32(b, 21),
            leaf_count: read_u64(b, 25),
            market_address: read_bytes32(b, 33),
        };
        Slab { header, buffer, callback_info_len, slot_size }
    }

    /// The size of a slot: room for a leaf with its callback information,
    /// and no less than an inner node.
    pub fn compute_slot_size(callback_info_len: usize) -> (r: usize)
        requires
            callback_info_len + 25 <= usize::MAX,
        ensures
            r == if callback_info_len + 25 >= INNER_NODE_SIZE {
                callback_info_len + 25
            } else {
                INNER_NODE_SIZE as int
            },
    {
        let leaf = callback_info_len + 8 + 16 + 1;
        if leaf >= INNER_NODE_SIZE {
            leaf
        } else {
            INNER_NODE_SIZE
        }
    }

    /// Where slot `h` begins.
    pub open spec fn slot_start(&self, h: int) -> int {
        SLAB_HEADER_LEN + h * self.slot_size
    }

    /// The bytes of slot `h`.
    pub open spec fn slot(&self, h: int) -> Seq<u8> {
        self.buffer@.subrange(self.slot_start(h), self.slot_start(h) + self.slot_size)
    }

    /// Whether slot `h` can be read: it lies in the buffer and, if it holds
    /// a leaf, is long enough for one.
    pub open spec fn slot_readable(&self, h: int) -> bool {
        &&& self.slot_size >= 1
        &&& 0 <= h
        &&& self.slot_start(h) + self.slot_size <= self.buffer@.len()
        &&& self.slot(h)[0] == 2 ==> self.callback_info_len + 25 <= self.slot_size
    }

    /// The number of slots that the buffer holds.
    fn capacity(&self) -> (r: u64)
        requires
            self.slot_size > 0,
            self.buffer.len() >= SLAB_HEADER_LEN,
        ensures
            r == (self.buffer.len() - SLAB_HEADER_LEN) / (self.slot_size as int),
    {
        ((self.buffer.len() - SLAB_HEADER_LEN) / self.slot_size) as u64
    }

    /// The node in slot `key`, `None` where the slot holds none.
    pub fn get_node(&self, key: u32) -> (r: Option<Node>)
        requires
            self.slot_readable(key as int),
        ensures
            reads_as(self.slot(key as int), self.callback_info_len as nat, r),
            r is Some <==> self.node_ok(key),
    {
        let k = key as usize;
        assert(self.slot_start(key as int) == SLAB_HEADER_LEN + k * self.slot_size);
        assert(self.buffer@.len() == self.buffer.len());
        assert(k * self.slot_size <= usize::MAX);
        let offset = SLAB_HEADER_LEN + k * self.slot_size;
        let s = vstd::slice::slice_subrange(self.buffer.as_slice(), offset, offset + self.slot_size);
        assert(s@ == self.slot(key as int));
        match Node::deserialize(s, self.callback_info_len) {
            Ok(n) => Some(n),
            Err(_) => None,
        }
    }

    /// The root of the tree, `None` where it holds no order.
    pub fn root(&self) -> (r: Option<NodeHandle>)
        ensures
            r == if self.header.leaf_count == 0 {
                None
            } else {
                Some(self.header.root_node)
            },
    {
        if self.header.leaf_count == 0 {
            return None;
        }
        Some(self.header.root_node)
    }
}

// ------------------------------------------------------------------------
// Walks down the tree.
/// The side of an inner node that a walk goes to first: the lower one for
/// increasing keys.
pub open spec fn first_side(increasing: bool) -> int {
    if increasing {
        0
    } else {
        1
    }
}

impl Slab {
    /// The tag byte of slot `h`.
    pub open spec fn tag(&self, h: u32) -> u8 {
        self.slot(h as int)[0]
    }

    /// Whether slot `h` holds an inner node.
    pub open spec fn is_inner(&self, h: u32) -> bool {
        self.tag(h) == 1
    }

    /// Whether slot `h` reads as a node.
    pub open spec fn node_ok(&self, h: u32) -> bool {
        &&& self.slot_readable(h as int)
        &&& self.tag(h) <= 4
        &&& self.tag(h) == 1 ==> self.slot_size >= 29
        &&& self.tag(h) >= 3 ==> self.slot_size >= 5
    }

    /// Child `side` of the inner node in slot `h`.
    pub open spec fn child(&self, h: u32, side: int) -> u32 {
        spec_read_inner(self.slot(h as int).subrange(1, self.slot_size as int)).children[side]
    }

    /// Whether going down from `h`, always to child 1 if `right` and to
    /// child 0 if not, meets `n` inner nodes, each readable, and then a
    /// readable node that is no inner node.
    pub open spec fn walks_to(&self, h: u32, right: bool, n: nat) -> bool
        decreases n,
    {
        &&& self.node_ok(h)
        &&& if n == 0 {
            !self.is_inner(h)
        } else {
            self.is_inner(h) && self.walks_to(
                self.child(h, if right {
                    1
                } else {
                    0
                }),
                right,
                (n - 1) as nat,
            )
        }
    }

    /// Where `n` steps of that walk from `h` lead.
    pub open spec fn walk_end(&self, h: u32, right: bool, n: nat) -> u32
        decreases n,
    {
        if n == 0 {
            h
        } else {
            self.walk_end(
                self.child(h, if right {
                    1
                } else {
                    0
                }),
                right,
                (n - 1) as nat,
            )
        }
    }

    /// Whether the walk from the root toward child 1 if `right`, toward
    /// child 0 if not, ends.
    pub open spec fn extreme_ok(&self, right: bool) -> bool {
        self.header.leaf_count != 0 ==> exists|n: nat| self.walks_to(self.header.root_node, right, n)
    }

    /// The node where that walk ends.
    pub open spec fn extreme(&self, right: bool) -> u32 {
        self.walk_end(
            self.header.root_node,
            right,
            choose|n: nat| self.walks_to(self.header.root_node, right, n),
        )
    }

    fn find_min_max(&self, find_max: bool) -> (r: Option<NodeHandle>)
        requires
            self.extreme_ok(find_max),
        ensures
            r == if self.header.leaf_count == 0 {
                None
            } else {
                Some(self.extreme(find_max))
            },
    {
        let mut root: NodeHandle = match self.root() {
            Some(h) => h,
            None => return None,
        };
        let ghost n = choose|n: nat| self.walks_to(self.header.root_node, find_max, n);
        let ghost mut k: nat = 0;
        loop
            invariant
                self.header.leaf_count != 0,
                k <= n,
                self.walks_to(self.header.root_node, find_max, n),
                self.walks_to(root, find_max, (n - k) as nat),
                self.walk_end(root, find_max, (n - k) as nat) == self.extreme(find_max),
            decreases n - k,
        {
            let root_contents = match self.get_node(root) {
                Some(c) => c,
                None => {
                    proof {
                        assert(false);
                    }
                    return None;
                },
            };
            match root_contents {
                Node::Inner(InnerNode { children, .. }) => {
                    proof {
                        if n - k == 0 {
                            assert(false);
                        }
                    }
                    root = children[if find_max {
                        1
                    } else {
                        0
                    }];
                    proof {
                        k = k + 1;
                    }
                    continue ;
                },
                _ => {
                    proof {
                        if n - k != 0 {
                            assert(false);
                        }
                    }
                    return Some(root);
                },
            }
        }
    }

    /// The order with the lowest key: the end of the walk toward child 0.
    pub fn find_min(&self) -> (r: Option<NodeHandle>)
        requires
            self.extreme_ok(false),
        ensures
            r == if self.header.leaf_count == 0 {
                None
            } else {
                Some(self.extreme(false))
            },
    {
        self.find_min_max(false)
    }

    /// The order with the highest key: the end of the walk toward child 1.
    pub fn find_max(&self) -> (r: Option<NodeHandle>)
        requires
            self.extreme_ok(true),
        ensures
            r == if self.header.leaf_count == 0 {
                None
            } else {
                Some(self.extreme(true))
            },
    {
        self.find_min_max(true)
    }
}

// ------------------------------------------------------------------------
// Walks over the whole tree.
impl Slab {
    /// Whether the nodes under `h` are all readable, and no path from `h`
    /// meets more than `k` inner nodes.
    pub open spec fn tree_ok(&self, h: u32, k: nat) -> bool
        decreases k,
    {
        &&& self.node_ok(h)
        &&& self.is_inner(h) ==> k > 0 && self.tree_ok(self.child(h, 0), (k - 1) as nat)
            && self.tree_ok(self.child(h, 1), (k - 1) as nat)
    }

    /// The nodes under `h` that are no inner nodes, in order of increasing
    /// keys if `increasing`, of decreasing keys if not, looking no deeper
    /// than `k` inner nodes.
    pub open spec fn leaves(&self, h: u32, increasing: bool, k: nat) -> Seq<u32>
        decreases k,
    {
        if self.is_inner(h) && k > 0 {
            self.leaves(self.child(h, first_side(increasing)), increasing, (k - 1) as nat)
                + self.leaves(self.child(h, 1 - first_side(increasing)), increasing, (k - 1) as nat)
        } else {
            seq![h]
        }
    }

    /// The number of nodes under `h`, looking no deeper than `k` inner
    /// nodes.
    pub open spec fn count(&self, h: u32, k: nat) -> nat
        decreases k,
    {
        if self.is_inner(h) && k > 0 {
            1 + self.count(self.child(h, 0), (k - 1) as nat) + self.count(
                self.child(h, 1),
                (k - 1) as nat,
            )
        } else {
            1
        }
    }

    /// Whether the tree under the root is readable and ends.
    pub open spec fn tree_from_root_ok(&self) -> bool {
        self.header.leaf_count != 0 ==> exists|k: nat| self.tree_ok(self.header.root_node, k)
    }

    /// A bound on the depth of the tree under the root.
    pub open spec fn height(&self) -> nat {
        choose|k: nat| self.tree_ok(self.header.root_node, k)
    }

    /// The nodes at the ends of the tree under the root, in order of
    /// increasing keys if `increasing`, of decreasing keys if not.
    pub open spec fn ordered_leaves(&self, increasing: bool) -> Seq<u32> {
        self.leaves(self.header.root_node, increasing, self.height())
    }

    proof fn lemma_deeper(&self, h: u32, increasing: bool, k: nat, j: nat)
        requires
            self.tree_ok(h, k),
            k <= j,
        ensures
            self.tree_ok(h, j),
            self.leaves(h, increasing, k) == self.leaves(h, increasing, j),
            self.count(h, k) == self.count(h, j),
        decreases k,
    {
        if self.is_inner(h) {
            self.lemma_deeper(self.child(h, 0), increasing, (k - 1) as nat, (j - 1) as nat);
            self.lemma_deeper(self.child(h, 1), increasing, (k - 1) as nat, (j - 1) as nat);
        }
    }

    /// The nodes at the ends of the trees under the handles of a stack,
    /// the top one first.
    pub open spec fn stack_leaves(&self, s: Seq<u32>, increasing: bool, k: nat) -> Seq<u32>
        decreases s.len(),
    {
        if s.len() == 0 {
            seq![]
        } else {
            self.leaves(s.last(), increasing, k) + self.stack_leaves(s.drop_last(), increasing, k)
        }
    }

    /// The number of nodes in the trees under the handles of a stack.
    pub open spec fn stack_count(&self, s: Seq<u32>, k: nat) -> nat
        decreases s.len(),
    {
        if s.len() == 0 {
            0
        } else {
            self.count(s.last(), k) + self.stack_count(s.drop_last(), k)
        }
    }

    /// Popping a node off a stack and pushing its children in its place, the
    /// one to visit first on top, leaves the ends to visit unchanged and
    /// takes one node off the count.
    proof fn lemma_expand(&self, s: Seq<u32>, increasing: bool, k: nat)
        requires
            s.len() > 0,
            self.tree_ok(s.last(), k),
            self.is_inner(s.last()),
        ensures
            ({
                let h = s.last();
                let t = s.drop_last().push(self.child(h, 1 - first_side(increasing))).push(
                    self.child(h, first_side(increasing)),
                );
                &&& self.stack_leaves(t, increasing, k) == self.stack_leaves(s, increasing, k)
                &&& self.stack_count(t, k) + 1 == self.stack_count(s, k)
                &&& self.tree_ok(self.child(h, 0), k)
                &&& self.tree_ok(self.child(h, 1), k)
            }),
    {
        let h = s.last();
        let f = self.child(h, first_side(increasing));
        let g = self.child(h, 1 - first_side(increasing));
        self.lemma_deeper(f, increasing, (k - 1) as nat, k);
        self.lemma_deeper(g, increasing, (k - 1) as nat, k);
        let t1 = s.drop_last().push(g);
        let t = t1.push(f);
        assert(t.drop_last() =~= t1);
        assert(t1.drop_last() =~= s.drop_last());
        let rest = self.stack_leaves(s.drop_last(), increasing, k);
        assert(self.stack_leaves(t1, increasing, k) == self.leaves(g, increasing, k) + rest);
        assert(self.stack_leaves(t, increasing, k) == self.leaves(f, increasing, k)
            + self.stack_leaves(t1, increasing, k));
        assert(self.leaves(h, increasing, k) == self.leaves(f, increasing, k) + self.leaves(
            g,
            increasing,
            k,
        ));
        assert(self.stack_leaves(s, increasing, k) == self.leaves(h, increasing, k) + rest);
        assert(self.stack_leaves(t, increasing, k) =~= self.stack_leaves(s, increasing, k));
        assert(self.stack_count(t1, k) == self.count(g, k) + self.stack_count(s.drop_last(), k));
    }

    /// The handles of the ends of the tree under the root, in order of
    /// increasing keys if `increasing`, of decreasing keys if not, no more
    /// than `depth` of them.
    pub fn find_node_sequence(&self, depth: usize, increasing: bool) -> (r: Vec<NodeHandle>)
        requires
            self.tree_from_root_ok(),
        ensures
            self.header.leaf_count == 0 ==> r@ == Seq::<u32>::empty(),
            self.header.leaf_count != 0 ==> r@ == if self.ordered_leaves(increasing).len() <= depth {
                self.ordered_leaves(increasing)
            } else {
                self.ordered_leaves(increasing).subrange(0, depth as int)
            },
    {
        let root = self.root();
        if root.is_none() {
            return vec![];
        }
        let ghost k = self.height();
        let ghost all = self.ordered_leaves(increasing);
        let mut result: Vec<NodeHandle> = Vec::with_capacity(depth);
        let mut search_stack: Vec<NodeHandle> = vec![root.unwrap()];
        proof {
            assert(search_stack@.drop_last() =~= Seq::<u32>::empty());
            assert(search_stack@.last() == self.header.root_node);
            assert(self.stack_leaves(search_stack@.drop_last(), increasing, k) =~= Seq::<
                u32,
            >::empty());
            assert(self.stack_leaves(search_stack@, increasing, k) =~= all);
            assert(self.tree_ok(search_stack@[0], k));
        }
        while result.len() != depth
            invariant
                self.header.leaf_count != 0,
                result.len() <= depth,
                forall|i: int| 0 <= i < search_stack.len() ==> self.tree_ok(#[trigger] search_stack@[i], k),
                result@ + self.stack_leaves(search_stack@, increasing, k) == all,
            ensures
                result.len() == depth || search_stack.len() == 0,
            decreases self.stack_count(search_stack@, k),
        {
            let ghost before = search_stack@;
            let current = search_stack.pop();
            if current.is_none() {
                break;
            }
            let c = current.unwrap();
            assert(c == before.last());
            assert(search_stack@ == before.drop_last());
            let node = match self.get_node(c) {
                Some(n) => n,
                None => {
                    proof {
                        assert(false);
                    }
                    return result;
                },
            };
            if let Node::Inner(ref inner) = node {
                proof {
                    self.lemma_expand(before, increasing, k);
                }
                search_stack.push(inner.children[increasing as usize]);
                search_stack.push(inner.children[1 - increasing as usize]);
                proof {
                    assert(inner.children[if increasing { 1int } else { 0int }] == self.child(c, 1 - first_side(increasing)));
                    assert(search_stack@ =~= before.drop_last().push(
                        self.child(c, 1 - first_side(increasing)),
                    ).push(self.child(c, first_side(increasing))));
                }
            } else {
                proof {
                    assert(self.leaves(c, increasing, k) =~= seq![c]);
                    assert(self.stack_leaves(before, increasing, k) =~= seq![c] + self.stack_leaves(
                        search_stack@,
                        increasing,
                        k,
                    ));
                }
                result.push(c);
                proof {
                    assert(result@ + self.stack_leaves(search_stack@, increasing, k) =~= all);
                }
            }
        }
        proof {
            if result.len() != depth {
                assert(search_stack@.len() == 0);
                assert(result@ =~= all);
            } else {
                assert(all.subrange(0, depth as int) =~= result@);
            }
        }
        result
    }
}

// ------------------------------------------------------------------------
// Price levels.
/// The integers of a sequence of `u64`.
pub open spec fn ints(v: Seq<u64>) -> Seq<int> {
    v.map_values(|x: u64| x as int)
}

impl Slab {
    /// The price of the order in slot `h`.
    pub open spec fn leaf_price(&self, h: u32) -> int {
        crate::state::critbit::spec_price_from_key(le_u128(self.slot(h as int), 1)) as int
    }

    /// The base quantity of the order in slot `h`.
    pub open spec fn leaf_quantity(&self, h: u32) -> int {
        le_u64(self.slot(h as int), 17 + self.callback_info_len) as int
    }

    /// The levels `res`, flat as quantity then price of each, after one
    /// more order: added to the last level where its price is that level's,
    /// a new level after it where not.
    pub open spec fn l2_step(&self, res: Seq<int>, h: u32) -> Seq<int> {
        if res.len() > 0 && res.last() == self.leaf_price(h) {
            res.update(res.len() - 2, res[res.len() - 2] + self.leaf_quantity(h))
        } else {
            res.push(self.leaf_quantity(h)).push(self.leaf_price(h))
        }
    }

    /// The levels after the first `n` orders of `hs`, taken one by one
    /// until `depth` levels are there.
    pub open spec fn l2_run(&self, hs: Seq<u32>, n: nat, depth: nat) -> Seq<int>
        decreases n,
    {
        if n == 0 {
            seq![]
        } else {
            let prev = self.l2_run(hs, (n - 1) as nat, depth);
            if prev.len() == 2 * depth {
                prev
            } else {
                self.l2_step(prev, hs[n - 1])
            }
        }
    }

    /// The first `depth` price levels of the tree, in order of increasing
    /// keys if `increasing`, of decreasing keys if not.
    pub open spec fn l2_levels(&self, depth: nat, increasing: bool) -> Seq<int> {
        let hs = self.ordered_leaves(increasing);
        self.l2_run(hs, hs.len(), depth)
    }

    /// Whether every node that the levels take in holds an order, and no
    /// level's quantity exceeds a `u64`.
    pub open spec fn l2_ok(&self, depth: nat, increasing: bool) -> bool {
        let hs = self.ordered_leaves(increasing);
        &&& forall|i: int|
            0 <= i < hs.len() && #[trigger] self.l2_run(hs, i as nat, depth).len() != 2 * depth
                ==> self.tag(hs[i]) == 2
        &&& forall|j: int|
            0 <= j < self.l2_levels(depth, increasing).len() ==> #[trigger] self.l2_levels(
                depth,
                increasing,
            )[j] <= u64::MAX
    }

    proof fn lemma_l2_refused(&self, depth: nat, increasing: bool, i: int)
        requires
            0 <= i < self.ordered_leaves(increasing).len(),
            self.l2_run(self.ordered_leaves(increasing), i as nat, depth).len() != 2 * depth,
            self.tag(self.ordered_leaves(increasing)[i]) != 2,
        ensures
            !self.l2_ok(depth, increasing),
    {
        assert(self.l2_run(self.ordered_leaves(increasing), i as nat, depth).len() != 2 * depth);
    }

    proof fn lemma_l2_shape(&self, hs: Seq<u32>, n: nat, depth: nat)
        requires
            n <= hs.len(),
        ensures
            self.l2_run(hs, n, depth).len() <= 2 * depth,
            self.l2_run(hs, n, depth).len() % 2 == 0,
        decreases n,
    {
        if n > 0 {
            self.lemma_l2_shape(hs, (n - 1) as nat, depth);
        }
    }

    proof fn lemma_l2_grows(&self, hs: Seq<u32>, n: nat, m: nat, depth: nat)
        requires
            n <= m <= hs.len(),
        ensures
            self.l2_run(hs, n, depth).len() <= self.l2_run(hs, m, depth).len(),
            forall|j: int|
                0 <= j < self.l2_run(hs, n, depth).len() ==> self.l2_run(hs, n, depth)[j]
                    <= self.l2_run(hs, m, depth)[j],
        decreases m,
    {
        if m > n {
            self.lemma_l2_grows(hs, n, (m - 1) as nat, depth);
            self.lemma_l2_shape(hs, (m - 1) as nat, depth);
            let prev = self.l2_run(hs, (m - 1) as nat, depth);
            let cur = self.l2_run(hs, m, depth);
            assert forall|j: int| 0 <= j < prev.len() implies prev[j] <= cur[j] by {
                if prev.len() != 2 * depth {
                    assert(self.leaf_quantity(hs[m - 1]) >= 0);
                }
            }
        }
    }

    proof fn lemma_l2_full(&self, hs: Seq<u32>, n: nat, m: nat, depth: nat)
        requires
            n <= m <= hs.len(),
            self.l2_run(hs, n, depth).len() == 2 * depth,
        ensures
            self.l2_run(hs, m, depth) == self.l2_run(hs, n, depth),
        decreases m,
    {
        if m > n {
            self.lemma_l2_full(hs, n, (m - 1) as nat, depth);
        }
    }

    /// The first `depth` price levels of the tree, as `find_l2_depth` gives
    /// them, or `None` where the scan meets a node that holds no order or a
    /// level's quantity exceeds a `u64`.
    pub fn try_find_l2_depth(&self, depth: usize, increasing: bool) -> (r: Option<Vec<u64>>)
        requires
            self.tree_from_root_ok(),
            2 * depth <= usize::MAX,
        ensures
            r is Some <==> (self.header.leaf_count == 0 || self.l2_ok(depth as nat, increasing)),
            r matches Some(v) ==> (self.header.leaf_count == 0 ==> v@ == Seq::<u64>::empty()) && (
            self.header.leaf_count != 0 ==> ints(v@) == self.l2_levels(depth as nat, increasing)),
    {
        let root = self.root();
        if root.is_none() {
            return Some(vec![]);
        }
        let ghost k = self.height();
        let ghost all = self.ordered_leaves(increasing);
        let ghost d = depth as nat;
        let mut result: Vec<u64> = Vec::with_capacity(2 * depth);
        let mut search_stack: Vec<NodeHandle> = vec![root.unwrap()];
        let ghost mut i: nat = 0;
        proof {
            assert(search_stack@.drop_last() =~= Seq::<u32>::empty());
            assert(search_stack@.last() == self.header.root_node);
            assert(self.stack_leaves(search_stack@.drop_last(), increasing, k) =~= Seq::<
                u32,
            >::empty());
            assert(self.stack_leaves(search_stack@, increasing, k) =~= all.subrange(
                0,
                all.len() as int,
            ));
            assert(self.tree_ok(search_stack@[0], k));
            assert(ints(result@) =~= Seq::<int>::empty());
        }
        while result.len() != 2 * depth
            invariant
                self.header.leaf_count != 0,
                d == depth,
                2 * depth <= usize::MAX,
                all == self.ordered_leaves(increasing),
                i <= all.len(),
                forall|j: int| 0 <= j < search_stack.len() ==> self.tree_ok(#[trigger] search_stack@[j], k),
                self.stack_leaves(search_stack@, increasing, k) == all.subrange(i as int, all.len() as int),
                ints(result@) == self.l2_run(all, i, d),
                forall|j: int|
                    0 <= j < i && #[trigger] self.l2_run(all, j as nat, d).len() != 2 * d
                        ==> self.tag(all[j]) == 2,
            ensures
                result.len() == 2 * depth || search_stack.len() == 0,
            decreases self.stack_count(search_stack@, k),
        {
            let ghost before = search_stack@;
            let current = search_stack.pop();
            if current.is_none() {
                break;
            }
            let c = current.unwrap();
            assert(c == before.last());
            assert(search_stack@ == before.drop_last());
            let node = match self.get_node(c) {
                Some(n) => n,
                None => {
                    proof {
                        assert(false);
                    }
                    return None;
                },
            };
            match node {
                Node::Inner(ref inner) => {
                    proof {
                        self.lemma_expand(before, increasing, k);
                    }
                    search_stack.push(inner.children[increasing as usize]);
                    search_stack.push(inner.children[1 - increasing as usize]);
                    proof {
                        assert(inner.children[if increasing { 1int } else { 0int }] == self.child(
                            c,
                            1 - first_side(increasing),
                        ));
                        assert(search_stack@ =~= before.drop_last().push(
                            self.child(c, 1 - first_side(increasing)),
                        ).push(self.child(c, first_side(increasing))));
                    }
                },
                Node::Leaf(ref leaf) => {
                    proof {
                        assert(self.leaves(c, increasing, k) =~= seq![c]);
                        assert(self.stack_leaves(before, increasing, k) =~= seq![c]
                            + self.stack_leaves(search_stack@, increasing, k));
                        let tail = all.subrange(i as int, all.len() as int);
                        assert(tail.len() >= 1);
                        assert(tail[0] == all[i as int]);
                        assert(c == all[i as int]);
                        assert(self.stack_leaves(search_stack@, increasing, k) =~= tail.subrange(
                            1,
                            tail.len() as int,
                        ));
                        assert(self.stack_leaves(search_stack@, increasing, k) =~= all.subrange(
                            i + 1int,
                            all.len() as int,
                        ));
                        self.lemma_l2_shape(all, i, d);
                        self.lemma_l2_grows(all, i + 1, all.len(), d);
                    }
                    let leaf_price = leaf.price();
                    let merge = match result.as_slice().last() {
                        Some(p) => *p == leaf_price,
                        None => false,
                    };
                    let ghost prev = self.l2_run(all, i, d);
                    assert(self.l2_run(all, i + 1, d) == self.l2_step(prev, c));
                    if merge {
                        let idx = result.len() - 2;
                        match result[idx].checked_add(leaf.base_quantity) {
                            Some(q) => {
                                result.set(idx, q);
                            },
                            None => {
                                proof {
                                    assert(self.l2_run(all, i + 1, d)[idx as int] > u64::MAX);
                                    assert(self.l2_levels(d, increasing)[idx as int] > u64::MAX);
                                }
                                return None;
                            },
                        }
                    } else {
                        result.push(leaf.base_quantity);
                        result.push(leaf_price);
                    }
                    proof {
                        assert(ints(result@) =~= self.l2_run(all, i + 1, d));
                        assert forall|j: int|
                            0 <= j < i + 1 && #[trigger] self.l2_run(all, j as nat, d).len() != 2
                                * d implies self.tag(all[j]) == 2 by {
                            if j == i {
                                assert(self.tag(c) == 2);
                            }
                        }
                        i = i + 1;
                    }
                },
                _ => {
                    proof {
                        self.lemma_l2_shape(all, i, d);
                        assert(self.leaves(c, increasing, k) =~= seq![c]);
                        assert(self.stack_leaves(before, increasing, k) =~= seq![c]
                            + self.stack_leaves(search_stack@, increasing, k));
                        let tail = all.subrange(i as int, all.len() as int);
                        assert(tail.len() >= 1);
                        assert(tail[0] == all[i as int]);
                        assert(all[i as int] == c);
                        assert(ints(result@).len() == result.len());
                        assert(self.l2_run(all, i, d).len() != 2 * d);
                        assert(self.tag(c) != 2);
                        self.lemma_l2_refused(d, increasing, i as int);
                    }
                    return None;
                },
            }
        }
        proof {
            let fin = self.l2_levels(d, increasing);
            if result.len() != 2 * depth {
                assert(i == all.len());
            } else {
                self.lemma_l2_full(all, i, all.len(), d);
                assert forall|j: int|
                    0 <= j < all.len() && #[trigger] self.l2_run(all, j as nat, d).len() != 2 * d
                        implies self.tag(all[j]) == 2 by {
                    if j >= i {
                        self.lemma_l2_full(all, i, j as nat, d);
                    }
                }
            }
            assert(fin == ints(result@));
            assert forall|j: int| 0 <= j < fin.len() implies #[trigger] fin[j] <= u64::MAX by {
                assert(fin[j] == result@[j] as int);
            }
        }
        Some(result)
    }

    /// The first `depth` price levels of the tree, as quantity then price of
    /// each level, the best first: in order of increasing keys if
    /// `increasing`, of decreasing keys if not. Orders are taken one by one
    /// and the scan stops as soon as `depth` levels are there.
    pub fn find_l2_depth(&self, depth: usize, increasing: bool) -> (r: Vec<u64>)
        requires
            self.tree_from_root_ok(),
            2 * depth <= usize::MAX,
            self.header.leaf_count != 0 ==> self.l2_ok(depth as nat, increasing),
        ensures
            self.header.leaf_count == 0 ==> r@ == Seq::<u64>::empty(),
            self.header.leaf_count != 0 ==> ints(r@) == self.l2_levels(depth as nat, increasing),
    {
        match self.try_find_l2_depth(depth, increasing) {
            Some(v) => v,
            None => {
                proof {
                    assert(false);
                }
                Vec::new()
            },
        }
    }
}

// ------------------------------------------------------------------------
// Checking a slab before walking it.
impl Slab {
    /// Whether slot `h` reads as a node.
    fn node_ok_exec(&self, h: u32) -> (r: bool)
        ensures
            r == self.node_ok(h),
    {
        let s = self.slot_size;
        if s == 0 {
            return false;
        }
        let len = self.buffer.len();
        assert(0 <= (h as int) * (s as int) <= 0xffff_ffff * 0xffff_ffff_ffff_ffff) by (
        nonlinear_arith)
            requires
                h <= 0xffff_ffff,
                s <= 0xffff_ffff_ffff_ffff,
        ;
        let prod: u128 = (h as u128) * (s as u128);
        if 65 + prod + (s as u128) > len as u128 {
            return false;
        }
        let start = SLAB_HEADER_LEN + (h as usize) * s;
        assert(start == self.slot_start(h as int));
        let t = self.buffer[start];
        assert(t == self.tag(h));
        if t == 2 && (self.callback_info_len as u128) + 25 > s as u128 {
            return false;
        }
        if t > 4 {
            return false;
        }
        if t == 1 && s < 29 {
            return false;
        }
        if t >= 3 && s < 5 {
            return false;
        }
        true
    }

    /// Whether the nodes under `h` are all readable and no path from `h`
    /// meets more than `k` inner nodes.
    fn subtree_ok(&self, h: u32, k: u64) -> (r: bool)
        ensures
            r == self.tree_ok(h, k as nat),
        decreases k,
    {
        if !self.node_ok_exec(h) {
            return false;
        }
        match self.get_node(h) {
            Some(Node::Inner(inner)) => {
                if k == 0 {
                    false
                } else {
                    assert(inner.children[0] == self.child(h, 0));
                    assert(inner.children[1] == self.child(h, 1));
                    self.subtree_ok(inner.children[0], k - 1) && self.subtree_ok(
                        inner.children[1],
                        k - 1,
                    )
                }
            },
            Some(_) => true,
            None => {
                proof {
                    assert(false);
                }
                false
            },
        }
    }

    proof fn lemma_tree_walks(&self, h: u32, right: bool, k: nat)
        requires
            self.tree_ok(h, k),
        ensures
            exists|n: nat| self.walks_to(h, right, n),
        decreases k,
    {
        if self.is_inner(h) {
            let c = self.child(
                h,
                if right {
                    1
                } else {
                    0
                },
            );
            self.lemma_tree_walks(c, right, (k - 1) as nat);
            let n = choose|n: nat| self.walks_to(c, right, n);
            assert(self.walks_to(h, right, n + 1));
        } else {
            assert(self.walks_to(h, right, 0));
        }
    }

    /// Whether the tree under the root is readable and no path in it meets
    /// more than `max_height` inner nodes: then every walk of the slab ends.
    pub fn check_tree(&self, max_height: u64) -> (r: bool)
        ensures
            r == (self.header.leaf_count == 0 || self.tree_ok(
                self.header.root_node,
                max_height as nat,
            )),
            r ==> self.tree_from_root_ok() && self.extreme_ok(false) && self.extreme_ok(true),
    {
        if self.header.leaf_count == 0 {
            return true;
        }
        let r = self.subtree_ok(self.header.root_node, max_height);
        proof {
            if r {
                self.lemma_tree_walks(self.header.root_node, false, max_height as nat);
                self.lemma_tree_walks(self.header.root_node, true, max_height as nat);
            }
        }
        r
    }
}

// ------------------------------------------------------------------------
// Writing slots.
/// The bytes of a free slot that links to `next`: the last of the free list
/// where the list held `list_len == 0` slots before.
pub open spec fn free_node_bytes(list_len: u64, next: u32) -> Seq<u8> {
    if list_len == 0 {
        spec_node_bytes(Node::LastFree(FreeNode { next }))
    } else {
        spec_node_bytes(Node::Free(FreeNode { next }))
    }
}

/// The byte size of the node whose tag is `tag`, its leaves carrying `cil`
/// bytes of callback information.
pub open spec fn node_len(tag: u8, cil: nat) -> int {
    if tag == 0 {
        1
    } else if tag == 1 {
        29
    } else if tag == 2 {
        25 + cil as int
    } else {
        5
    }
}

/// Writing a node back gives the bytes it was read from.
proof fn lemma_node_bytes_of_read(t: Seq<u8>, cil: nat, n: Node)
    requires
        t.len() >= 1,
        reads_as(t, cil, Some(n)),
        t[0] == 2 ==> 25 + cil <= t.len(),
    ensures
        spec_node_bytes(n) == t.subrange(0, node_len(t[0], cil)),
{
    lemma_int_bytes();
    lemma_auto_spec_u32_to_from_le_bytes();
    lemma_auto_spec_u64_to_from_le_bytes();
    lemma_auto_spec_u128_to_from_le_bytes();
    let b = spec_node_bytes(n);
    if t[0] == 1 {
        let u = t.subrange(1, t.len() as int);
        assert(spec_u32_to_le_bytes(le_u32(u, 0)) == u.subrange(0, 4));
        assert(spec_u128_to_le_bytes(le_u128(u, 4)) == u.subrange(4, 20));
        assert(spec_u32_to_le_bytes(le_u32(u, 20)) == u.subrange(20, 24));
        assert(spec_u32_to_le_bytes(le_u32(u, 24)) == u.subrange(24, 28));
        assert(b =~= t.subrange(0, 29));
    } else if t[0] == 2 {
        assert(spec_u128_to_le_bytes(le_u128(t, 1)) == t.subrange(1, 17));
        let c = cil as int;
        assert(spec_u64_to_le_bytes(le_u64(t, 17 + c)) == t.subrange(17 + c, 17 + c + 8));
        assert(b =~= t.subrange(0, 25 + c));
    } else if t[0] == 3 || t[0] == 4 {
        assert(spec_u32_to_le_bytes(le_u32(t, 1)) == t.subrange(1, 5));
        assert(b =~= t.subrange(0, 5));
    } else {
        assert(b =~= t.subrange(0, 1));
    }
}

impl Slab {
    /// Writes `node` into slot `key`: as much of its bytes as the buffer
    /// holds from the slot's start, failing where that is not all of them.
    fn write_node(&mut self, node: &Node, key: u32) -> (r: Result<(), NodeError>)
        requires
            old(self).slot_start(key as int) <= old(self).buffer.len(),
        ensures
            final(self).header == old(self).header,
            final(self).callback_info_len == old(self).callback_info_len,
            final(self).slot_size == old(self).slot_size,
            ({
                let b = spec_node_bytes(*node);
                let room = old(self).buffer.len() - old(self).slot_start(key as int);
                &&& r == if b.len() <= room {
                    Ok::<(), NodeError>(())
                } else {
                    Err::<(), NodeError>(NodeError::WriteZero)
                }
                &&& written(
                    old(self).buffer@,
                    final(self).buffer@,
                    old(self).slot_start(key as int),
                    if b.len() <= room {
                        b
                    } else {
                        b.subrange(0, room)
                    },
                )
            }),
    {
        let k = key as usize;
        assert(self.slot_start(key as int) == SLAB_HEADER_LEN + k * self.slot_size);
        assert(self.buffer@.len() == self.buffer.len());
        let offset = SLAB_HEADER_LEN + k * self.slot_size;
        let mut bytes: Vec<u8> = Vec::new();
        node.serialize(&mut bytes);
        assert(bytes@ =~= spec_node_bytes(*node));
        let room = self.buffer.len() - offset;
        let ok = bytes.len() <= room;
        let n = if ok {
            bytes.len()
        } else {
            room
        };
        let src = vstd::slice::slice_subrange(bytes.as_slice(), 0, n);
        proof {
            if ok {
                assert(src@ =~= bytes@);
            }
        }
        write_bytes(self.buffer.as_mut_slice(), offset, src);
        if ok {
            Ok(())
        } else {
            Err(NodeError::WriteZero)
        }
    }

    /// Frees slot `key`, pushing it on the free list, and gives back the
    /// node it held; `None`, and nothing changed, where it held none.
    fn remove(&mut self, key: u32) -> (r: Option<Node>)
        requires
            old(self).slot_readable(key as int),
            old(self).node_ok(key) ==> old(self).slot_start(key as int) + 5 <= old(self).buffer.len()
                && old(self).header.free_list_len < u64::MAX,
        ensures
            !old(self).node_ok(key) ==> r is None && *final(self) == *old(self),
            old(self).node_ok(key) ==> {
                &&& reads_as(old(self).slot(key as int), old(self).callback_info_len as nat, r)
                &&& r is Some
                &&& final(self).header == SlabHeader {
                    free_list_head: key,
                    free_list_len: (old(self).header.free_list_len + 1) as u64,
                    ..old(self).header
                }
                &&& final(self).callback_info_len == old(self).callback_info_len
                &&& final(self).slot_size == old(self).slot_size
                &&& written(
                    old(self).buffer@,
                    final(self).buffer@,
                    old(self).slot_start(key as int),
                    free_node_bytes(old(self).header.free_list_len, old(self).header.free_list_head),
                )
            },
    {
        let val = match self.get_node(key) {
            Some(v) => v,
            None => return None,
        };
        let new_free_node = FreeNode { next: self.header.free_list_head };
        let node = if self.header.free_list_len == 0 {
            Node::LastFree(new_free_node)
        } else {
            Node::Free(new_free_node)
        };
        let w = self.write_node(&node, key);
        proof {
            assert(spec_node_bytes(node).len() == 5) by {
                lemma_int_bytes();
            }
        }
        self.header.free_list_head = key;
        self.header.free_list_len = self.header.free_list_len + 1;
        Some(val)
    }
}

// ------------------------------------------------------------------------
// Removing an order.
impl InnerNode {
    /// The child on the side of `search_key`'s critical bit, and that bit.
    fn walk_down(&self, search_key: u128) -> (r: (NodeHandle, bool))
        requires
            self.prefix_len < 128,
        ensures
            r.1 == (search_key & ((1u128 << 127u32) >> self.prefix_len) != 0),
            r.0 == self.children[if r.1 {
                1int
            } else {
                0int
            }],
    {
        let crit_bit_mask = (1u128 << 127u32) >> self.prefix_len;
        let crit_bit = (search_key & crit_bit_mask) != 0;
        (self.children[crit_bit as usize], crit_bit)
    }
}

impl Slab {
    /// The prefix length of the inner node in slot `h`.
    pub open spec fn prefix_len_of(&self, h: u32) -> u32 {
        spec_read_inner(self.slot(h as int).subrange(1, self.slot_size as int)).prefix_len
    }

    /// The key of the leaf in slot `h`.
    pub open spec fn leaf_key(&self, h: u32) -> u128 {
        le_u128(self.slot(h as int), 1)
    }

    /// The side of the inner node in slot `h` that `key` goes to.
    pub open spec fn crit_side(&self, h: u32, key: u128) -> int {
        if key & ((1u128 << 127u32) >> self.prefix_len_of(h)) != 0 {
            1
        } else {
            0
        }
    }

    /// Whether going down from `h` on the side of `key` at each inner node
    /// meets `n` readable inner nodes, each with a prefix length under 128,
    /// and then a leaf.
    pub open spec fn key_walk_ok(&self, h: u32, key: u128, n: nat) -> bool
        decreases n,
    {
        &&& self.node_ok(h)
        &&& if n == 0 {
            self.tag(h) == 2
        } else {
            &&& self.is_inner(h)
            &&& self.prefix_len_of(h) < 128
            &&& self.key_walk_ok(self.child(h, self.crit_side(h, key)), key, (n - 1) as nat)
        }
    }

    /// Where `n` steps of that walk from `h` lead.
    pub open spec fn key_walk_end(&self, h: u32, key: u128, n: nat) -> u32
        decreases n,
    {
        if n == 0 {
            h
        } else {
            self.key_walk_end(self.child(h, self.crit_side(h, key)), key, (n - 1) as nat)
        }
    }

    /// The number of inner nodes on the walk from the root toward `key`.
    pub open spec fn key_walk_len(&self, key: u128) -> nat {
        choose|n: nat| self.key_walk_ok(self.header.root_node, key, n)
    }

    /// The leaf where the walk from the root toward `key` ends.
    pub open spec fn key_leaf(&self, key: u128) -> u32 {
        self.key_walk_end(self.header.root_node, key, self.key_walk_len(key))
    }

    /// The inner node just above that leaf.
    pub open spec fn key_parent(&self, key: u128) -> u32 {
        self.key_walk_end(self.header.root_node, key, (self.key_walk_len(key) - 1) as nat)
    }

    /// The other child of that inner node.
    pub open spec fn key_sibling(&self, key: u128) -> u32 {
        self.child(self.key_parent(key), 1 - self.crit_side(self.key_parent(key), key))
    }

    /// Whether removing `key` can be done: the walk toward it ends at a
    /// leaf; where that leaf holds `key`, it is the only order if it is the
    /// root, and if not, its sibling is readable, the three slots touched
    /// are distinct, every node fits in a slot and the free list has room.
    pub open spec fn removal_ok(&self, key: u128) -> bool {
        self.header.leaf_count != 0 ==> {
            &&& exists|n: nat| self.key_walk_ok(self.header.root_node, key, n)
            &&& self.leaf_key(self.key_leaf(key)) == key ==> if self.key_walk_len(key) == 0 {
                &&& self.header.leaf_count == 1
                &&& self.header.free_list_len < u64::MAX
            } else {
                &&& self.node_ok(self.key_sibling(key))
                &&& self.key_parent(key) != self.key_leaf(key)
                &&& self.key_parent(key) != self.key_sibling(key)
                &&& self.key_leaf(key) != self.key_sibling(key)
                &&& self.slot_size >= 29
                &&& self.slot_size >= self.callback_info_len + 25
                &&& self.header.free_list_len + 2 <= u64::MAX
            }
        }
    }

    proof fn lemma_key_walk_step(&self, h: u32, key: u128, j: nat)
        ensures
            self.key_walk_end(h, key, j + 1) == self.child(
                self.key_walk_end(h, key, j),
                self.crit_side(self.key_walk_end(h, key, j), key),
            ),
        decreases j,
    {
        let c = self.child(h, self.crit_side(h, key));
        assert(self.key_walk_end(h, key, j + 1) == self.key_walk_end(c, key, j));
        if j > 0 {
            self.lemma_key_walk_step(c, key, (j - 1) as nat);
            assert(self.key_walk_end(h, key, j) == self.key_walk_end(c, key, (j - 1) as nat));
        } else {
            assert(self.key_walk_end(c, key, 0) == c);
        }
    }

    proof fn lemma_slots_apart(&self, a: int, b: int)
        requires
            a != b,
            0 <= a,
            0 <= b,
        ensures
            self.slot_start(a) + self.slot_size <= self.slot_start(b) || self.slot_start(b)
                + self.slot_size <= self.slot_start(a),
    {
        let s = self.slot_size as int;
        if a < b {
            assert(a * s + s <= b * s) by (nonlinear_arith)
                requires
                    a < b,
                    s >= 0,
            ;
        } else {
            assert(b * s + s <= a * s) by (nonlinear_arith)
                requires
                    b < a,
                    s >= 0,
            ;
        }
    }
}

/// What removing `key` from `before` does, giving `after` and `r`. Where the
/// walk toward `key` ends at a leaf holding another key, nothing. Where the
/// root is that leaf, the tree becomes empty and its slot is freed. Where
/// not, the sibling's node moves into the parent's slot, the sibling's slot
/// and the leaf's are freed in that order, and the leaf comes back.
pub open spec fn removed(before: Slab, after: Slab, key: u128, r: Option<Node>) -> bool {
    let cil = before.callback_info_len as nat;
    let fl = before.header.free_list_len;
    &&& after.callback_info_len == before.callback_info_len
    &&& after.slot_size == before.slot_size
    &&& if before.header.leaf_count == 0 || before.leaf_key(before.key_leaf(key)) != key {
        r is None && after == before
    } else if before.key_walk_len(key) == 0 {
        let h = before.header.root_node;
        &&& reads_as(before.slot(h as int), cil, r)
        &&& r is Some
        &&& after.header == SlabHeader {
            root_node: 0,
            leaf_count: 0,
            free_list_head: h,
            free_list_len: (fl + 1) as u64,
            ..before.header
        }
        &&& written(
            before.buffer@,
            after.buffer@,
            before.slot_start(h as int),
            free_node_bytes(fl, before.header.free_list_head),
        )
    } else {
        let p = before.key_parent(key);
        let c = before.key_leaf(key);
        let o = before.key_sibling(key);
        &&& reads_as(before.slot(c as int), cil, r)
        &&& r is Some
        &&& after.header == SlabHeader {
            leaf_count: (before.header.leaf_count - 1) as u64,
            free_list_head: c,
            free_list_len: (fl + 2) as u64,
            ..before.header
        }
        &&& exists|b1: Seq<u8>, b2: Seq<u8>|
            {
                &&& written(
                    before.buffer@,
                    b1,
                    before.slot_start(o as int),
                    free_node_bytes(fl, before.header.free_list_head),
                )
                &&& written(
                    b1,
                    b2,
                    before.slot_start(p as int),
                    before.slot(o as int).subrange(0, node_len(before.tag(o), cil)),
                )
                &&& written(
                    b2,
                    after.buffer@,
                    before.slot_start(c as int),
                    free_node_bytes((fl + 1) as u64, o),
                )
            }
    }
}

impl Slab {
    /// Removes the order with key `search_key`, found by walking down
    /// toward it, and gives it back; `None`, and nothing changed, where the
    /// walk ends at another order.
    pub fn remove_by_key(&mut self, search_key: u128) -> (r: Option<Node>)
        requires
            old(self).removal_ok(search_key),
        ensures
            removed(*old(self), *final(self), search_key, r),
    {
        let ghost s0: Slab = *self;
        let mut parent_h: NodeHandle = match self.root() {
            Some(h) => h,
            None => return None,
        };
        let ghost n = self.key_walk_len(search_key);
        let mut child_h: NodeHandle;
        let mut crit_bit: bool;
        let first = match self.get_node(parent_h) {
            Some(x) => x,
            None => {
                proof {
                    assert(false);
                }
                return None;
            },
        };
        match first {
            Node::Leaf(ref leaf) => {
                proof {
                    if n > 0 {
                        assert(false);
                    }
                }
                if leaf.key == search_key {
                    self.header.root_node = 0;
                    self.header.leaf_count = 0;
                    let _old_root = self.remove(parent_h);
                    return Some(first);
                }
                return None;
            },
            Node::Inner(ref inner) => {
                proof {
                    if n == 0 {
                        assert(false);
                    }
                    assert(inner.prefix_len == self.prefix_len_of(parent_h));
                }
                let (ch, cb) = inner.walk_down(search_key);
                child_h = ch;
                crit_bit = cb;
            },
            _ => {
                proof {
                    assert(false);
                }
                return None;
            },
        }
        let ghost mut j: nat = 0;
        proof {
            self.lemma_key_walk_step(parent_h, search_key, 0);
        }
        loop
            invariant
                *self == s0,
                *old(self) == s0,
                s0.node_ok(parent_h),
                s0.removal_ok(search_key),
                s0.header.leaf_count != 0,
                n == s0.key_walk_len(search_key),
                s0.key_walk_ok(s0.header.root_node, search_key, n),
                j + 1 <= n,
                parent_h == s0.key_walk_end(s0.header.root_node, search_key, j),
                child_h == s0.key_walk_end(s0.header.root_node, search_key, j + 1),
                s0.is_inner(parent_h),
                crit_bit == (s0.crit_side(parent_h, search_key) == 1),
                child_h == s0.child(parent_h, s0.crit_side(parent_h, search_key)),
                s0.key_walk_ok(child_h, search_key, (n - j - 1) as nat),
                s0.key_walk_end(child_h, search_key, (n - j - 1) as nat) == s0.key_leaf(
                    search_key,
                ),
            ensures
                *self == s0,
                *old(self) == s0,
                s0.node_ok(parent_h),
                j + 1 == n,
                parent_h == s0.key_walk_end(s0.header.root_node, search_key, j),
                child_h == s0.key_leaf(search_key),
                s0.leaf_key(child_h) == search_key,
                s0.is_inner(parent_h),
                crit_bit == (s0.crit_side(parent_h, search_key) == 1),
                child_h == s0.child(parent_h, s0.crit_side(parent_h, search_key)),
            decreases n - j,
        {
            match self.get_node(child_h) {
                Some(Node::Inner(inner)) => {
                    proof {
                        if n - j - 1 == 0 {
                            assert(false);
                        }
                        assert(inner.prefix_len == self.prefix_len_of(child_h));
                    }
                    let (grandchild_h, grandchild_crit_bit) = inner.walk_down(search_key);
                    proof {
                        self.lemma_key_walk_step(s0.header.root_node, search_key, j + 1);
                    }
                    parent_h = child_h;
                    child_h = grandchild_h;
                    crit_bit = grandchild_crit_bit;
                    proof {
                        j = j + 1;
                    }
                    continue ;
                },
                Some(Node::Leaf(leaf)) => {
                    proof {
                        if n - j - 1 != 0 {
                            assert(false);
                        }
                        assert(s0.key_walk_end(child_h, search_key, 0) == child_h);
                        assert(child_h == s0.key_leaf(search_key));
                        assert(leaf.key == s0.leaf_key(child_h));
                    }
                    if leaf.key != search_key {
                        return None;
                    }
                    break ;
                },
                _ => {
                    proof {
                        assert(false);
                    }
                    return None;
                },
            }
        }
        let p = parent_h;
        let c = child_h;
        proof {
            assert(j + 1 == n);
            assert(c == s0.key_leaf(search_key));
            assert(p == s0.key_parent(search_key));
        }
        let other_child_h = match self.get_node(parent_h) {
            Some(ref pn) => match pn.children() {
                Some(ch) => ch[(!crit_bit) as usize],
                None => {
                    proof {
                        assert(false);
                    }
                    return None;
                },
            },
            None => {
                proof {
                    assert(false);
                }
                return None;
            },
        };
        let ghost o = other_child_h;
        assert(o == s0.key_sibling(search_key));
        let ghost cil = s0.callback_info_len as nat;
        let ghost fl = s0.header.free_list_len;
        let other_child_node_contents = match self.remove(other_child_h) {
            Some(x) => x,
            None => {
                proof {
                    assert(false);
                }
                return None;
            },
        };
        let ghost b1 = self.buffer@;
        proof {
            lemma_int_bytes();
            assert(free_node_bytes(fl, s0.header.free_list_head).len() == 5);
            s0.lemma_slots_apart(o as int, p as int);
            s0.lemma_slots_apart(o as int, c as int);
            s0.lemma_slots_apart(p as int, c as int);
            crate::state::layout::lemma_written_keeps(
                s0.buffer@,
                b1,
                s0.slot_start(o as int),
                free_node_bytes(fl, s0.header.free_list_head),
                s0.slot_start(p as int),
                s0.slot_start(p as int) + s0.slot_size,
            );
            crate::state::layout::lemma_written_keeps(
                s0.buffer@,
                b1,
                s0.slot_start(o as int),
                free_node_bytes(fl, s0.header.free_list_head),
                s0.slot_start(c as int),
                s0.slot_start(c as int) + s0.slot_size,
            );
            lemma_node_bytes_of_read(s0.slot(o as int), cil, other_child_node_contents);
            assert(node_len(s0.tag(o), cil) <= s0.slot_size);
        }
        match self.write_node(&other_child_node_contents, parent_h) {
            Ok(()) => {},
            Err(_) => {
                proof {
                    assert(false);
                }
                return None;
            },
        }
        let ghost b2 = self.buffer@;
        proof {
            let src = s0.slot(o as int).subrange(0, node_len(s0.tag(o), cil));
            crate::state::layout::lemma_written_keeps(
                b1,
                b2,
                s0.slot_start(p as int),
                src,
                s0.slot_start(c as int),
                s0.slot_start(c as int) + s0.slot_size,
            );
            assert(self.slot(c as int) == s0.slot(c as int));
        }
        self.header.leaf_count = self.header.leaf_count - 1;
        let removed_leaf = match self.remove(child_h) {
            Some(x) => x,
            None => {
                proof {
                    assert(false);
                }
                return None;
            },
        };
        proof {
        }
        Some(removed_leaf)
    }
}

impl Slab {
    proof fn lemma_walk_end_ok(&self, h: u32, right: bool, n: nat)
        requires
            self.walks_to(h, right, n),
        ensures
            self.node_ok(self.walk_end(h, right, n)),
            !self.is_inner(self.walk_end(h, right, n)),
        decreases n,
    {
        if n > 0 {
            self.lemma_walk_end_ok(
                self.child(
                    h,
                    if right {
                        1
                    } else {
                        0
                    },
                ),
                right,
                (n - 1) as nat,
            );
        }
    }

    /// Whether removing the order at the end of the walk toward child 1 if
    /// `right`, toward child 0 if not, can be done.
    pub open spec fn extreme_removal_ok(&self, right: bool) -> bool {
        &&& self.extreme_ok(right)
        &&& self.header.leaf_count != 0 && self.tag(self.extreme(right)) == 2 ==> self.removal_ok(
            self.leaf_key(self.extreme(right)),
        )
    }

    /// What removing the order at that end does: nothing where the tree is
    /// empty or the walk ends at no leaf, else removing its key.
    pub open spec fn extreme_removed(before: Slab, after: Slab, right: bool, r: Option<Node>) -> bool {
        if before.header.leaf_count == 0 || before.tag(before.extreme(right)) != 2 {
            r is None && after == before
        } else {
            removed(before, after, before.leaf_key(before.extreme(right)), r)
        }
    }

    fn remove_extreme(&mut self, right: bool) -> (r: Option<Node>)
        requires
            old(self).extreme_removal_ok(right),
        ensures
            Slab::extreme_removed(*old(self), *final(self), right, r),
    {
        let h = match self.find_min_max(right) {
            Some(h) => h,
            None => return None,
        };
        proof {
            let n = choose|n: nat| self.walks_to(self.header.root_node, right, n);
            self.lemma_walk_end_ok(self.header.root_node, right, n);
        }
        let node = match self.get_node(h) {
            Some(x) => x,
            None => return None,
        };
        let key = match node.key() {
            Some(k) => k,
            None => return None,
        };
        proof {
            assert(self.tag(h) == 2);
            assert(key == self.leaf_key(h));
        }
        self.remove_by_key(key)
    }

    /// Removes the order with the lowest key, found at the end of the walk
    /// toward child 0, and gives it back.
    pub fn remove_min(&mut self) -> (r: Option<Node>)
        requires
            old(self).extreme_removal_ok(false),
        ensures
            Slab::extreme_removed(*old(self), *final(self), false, r),
    {
        self.remove_extreme(false)
    }

    /// Removes the order with the highest key, found at the end of the walk
    /// toward child 1, and gives it back.
    pub fn remove_max(&mut self) -> (r: Option<Node>)
        requires
            old(self).extreme_removal_ok(true),
        ensures
            Slab::extreme_removed(*old(self), *final(self), true, r),
    {
        self.remove_extreme(true)
    }
}

// ------------------------------------------------------------------------
// The orders that a removal leaves.
impl Slab {
    /// The slots of the tree under `h`, looking no deeper than `k` inner
    /// nodes.
    pub open spec fn node_set(&self, h: u32, k: nat) -> Set<u32>
        decreases k,
    {
        if self.is_inner(h) && k > 0 {
            set![h].union(self.node_set(self.child(h, 0), (k - 1) as nat)).union(
                self.node_set(self.child(h, 1), (k - 1) as nat),
            )
        } else {
            set![h]
        }
    }

    /// Whether no slot occurs twice in the tree under `h`, looking no deeper
    /// than `k` inner nodes.
    pub open spec fn distinct(&self, h: u32, k: nat) -> bool
        decreases k,
    {
        self.is_inner(h) && k > 0 ==> {
            let a = self.node_set(self.child(h, 0), (k - 1) as nat);
            let b = self.node_set(self.child(h, 1), (k - 1) as nat);
            &&& !a.contains(h)
            &&& !b.contains(h)
            &&& a.disjoint(b)
            &&& self.distinct(self.child(h, 0), (k - 1) as nat)
            &&& self.distinct(self.child(h, 1), (k - 1) as nat)
        }
    }

    /// The keys of the leaves under `h`, in order of increasing keys if
    /// `increasing`, of decreasing keys if not, looking no deeper than `k`
    /// inner nodes.
    pub open spec fn keys(&self, h: u32, increasing: bool, k: nat) -> Seq<u128>
        decreases k,
    {
        if self.is_inner(h) && k > 0 {
            self.keys(self.child(h, first_side(increasing)), increasing, (k - 1) as nat)
                + self.keys(self.child(h, 1 - first_side(increasing)), increasing, (k - 1) as nat)
        } else if self.tag(h) == 2 {
            seq![self.leaf_key(h)]
        } else {
            seq![]
        }
    }

    /// The keys of the orders of the slab, in order of increasing keys if
    /// `increasing`, of decreasing keys if not.
    pub open spec fn ordered_keys(&self, increasing: bool) -> Seq<u128> {
        if self.header.leaf_count == 0 {
            seq![]
        } else {
            self.keys(self.header.root_node, increasing, self.height())
        }
    }

    /// Whether the slab holds a tree in which no slot occurs twice and
    /// which has as many leaves as the header counts.
    pub open spec fn tree_wf(&self) -> bool {
        &&& self.tree_from_root_ok()
        &&& self.header.leaf_count != 0 ==> {
            &&& self.distinct(self.header.root_node, self.height())
            &&& self.header.leaf_count == self.keys(self.header.root_node, true, self.height()).len()
        }
    }

    proof fn lemma_deeper_keys(&self, h: u32, increasing: bool, k: nat, j: nat)
        requires
            self.tree_ok(h, k),
            k <= j,
        ensures
            self.keys(h, increasing, k) == self.keys(h, increasing, j),
            self.node_set(h, k) == self.node_set(h, j),
            self.distinct(h, k) == self.distinct(h, j),
            self.crit_ok(h, k) == self.crit_ok(h, j),
        decreases k,
    {
        if self.is_inner(h) {
            self.lemma_deeper_keys(self.child(h, 0), increasing, (k - 1) as nat, (j - 1) as nat);
            self.lemma_deeper_keys(self.child(h, 1), increasing, (k - 1) as nat, (j - 1) as nat);
            self.lemma_deeper_keys(self.child(h, 0), true, (k - 1) as nat, (j - 1) as nat);
            self.lemma_deeper_keys(self.child(h, 1), true, (k - 1) as nat, (j - 1) as nat);
        }
    }
}

impl Slab {
    /// Whether `other` lays out its slots as `self` does.
    pub open spec fn same_layout(&self, other: &Slab) -> bool {
        &&& self.slot_size == other.slot_size
        &&& self.callback_info_len == other.callback_info_len
        &&& self.buffer@.len() == other.buffer@.len()
    }

    proof fn lemma_frame(&self, after: &Slab, h: u32, k: nat, increasing: bool)
        requires
            self.same_layout(after),
            self.tree_ok(h, k),
            forall|x: u32| #[trigger]
                self.node_set(h, k).contains(x) ==> after.slot(x as int) == self.slot(x as int),
        ensures
            after.tree_ok(h, k),
            after.keys(h, increasing, k) == self.keys(h, increasing, k),
            after.node_set(h, k) == self.node_set(h, k),
            after.distinct(h, k) == self.distinct(h, k),
            after.crit_ok(h, k) == self.crit_ok(h, k),
        decreases k,
    {
        assert(self.node_set(h, k).contains(h));
        assert(after.slot(h as int) == self.slot(h as int));
        if self.is_inner(h) && k > 0 {
            let c0 = self.child(h, 0);
            let c1 = self.child(h, 1);
            assert(after.child(h, 0) == c0);
            assert(after.child(h, 1) == c1);
            assert forall|x: u32| #[trigger]
                self.node_set(c0, (k - 1) as nat).contains(x) implies self.node_set(h, k).contains(
                x,
            ) by {}
            assert forall|x: u32| #[trigger]
                self.node_set(c1, (k - 1) as nat).contains(x) implies self.node_set(h, k).contains(
                x,
            ) by {}
            self.lemma_frame(after, c0, (k - 1) as nat, increasing);
            self.lemma_frame(after, c1, (k - 1) as nat, increasing);
            self.lemma_frame(after, c0, (k - 1) as nat, true);
            self.lemma_frame(after, c1, (k - 1) as nat, true);
            assert(after.inner_key(h) == self.inner_key(h));
            assert(after.prefix_len_of(h) == self.prefix_len_of(h));
        }
    }
}

proof fn lemma_read_inner_prefix(t: Seq<u8>, u: Seq<u8>)
    requires
        t.len() >= 28,
        u.len() >= 28,
        t.subrange(0, 28) == u.subrange(0, 28),
    ensures
        spec_read_inner(t) == spec_read_inner(u),
{
    assert(t.subrange(0, 4) == t.subrange(0, 28).subrange(0, 4));
    assert(u.subrange(0, 4) == u.subrange(0, 28).subrange(0, 4));
    assert(t.subrange(4, 20) == t.subrange(0, 28).subrange(4, 20));
    assert(u.subrange(4, 20) == u.subrange(0, 28).subrange(4, 20));
    assert(t.subrange(20, 24) == t.subrange(0, 28).subrange(20, 24));
    assert(u.subrange(20, 24) == u.subrange(0, 28).subrange(20, 24));
    assert(t.subrange(24, 28) == t.subrange(0, 28).subrange(24, 28));
    assert(u.subrange(24, 28) == u.subrange(0, 28).subrange(24, 28));
    let a = spec_read_inner(t);
    let b = spec_read_inner(u);
    assert(a.children[0] == b.children[0]);
    assert(a.children[1] == b.children[1]);
    assert(a.children =~= b.children);
}

impl Slab {
    proof fn lemma_moved(&self, after: &Slab, from: u32, to: u32, k: nat, increasing: bool)
        requires
            self.same_layout(after),
            self.tree_ok(from, k),
            self.slot_size >= 29,
            self.slot_size >= self.callback_info_len + 25,
            0 <= after.slot_start(to as int),
            after.slot_start(to as int) + after.slot_size <= after.buffer@.len(),
            after.slot(to as int).subrange(0, node_len(self.tag(from), self.callback_info_len as nat))
                == self.slot(from as int).subrange(
                0,
                node_len(self.tag(from), self.callback_info_len as nat),
            ),
            self.is_inner(from) && k > 0 ==> forall|x: u32|
                #![trigger self.node_set(self.child(from, 0), (k - 1) as nat).contains(x)]
                #![trigger self.node_set(self.child(from, 1), (k - 1) as nat).contains(x)]
                self.node_set(self.child(from, 0), (k - 1) as nat).contains(x)
                    || self.node_set(self.child(from, 1), (k - 1) as nat).contains(x) ==> after.slot(
                    x as int,
                ) == self.slot(x as int),
        ensures
            after.tree_ok(to, k),
            after.keys(to, increasing, k) == self.keys(from, increasing, k),
            after.node_set(to, k) == self.node_set(from, k).remove(from).insert(to)
                || !self.distinct(from, k),
            self.distinct(from, k) && !self.node_set(from, k).contains(to) ==> after.distinct(
                to,
                k,
            ),
            after.crit_ok(to, k) == self.crit_ok(from, k),
    {
        let cil = self.callback_info_len as nat;
        let s = self.slot_size as int;
        let a = after.slot(to as int);
        let b = self.slot(from as int);
        let len = node_len(self.tag(from), cil);
        assert(a.len() == s && b.len() == s);
        assert(a[0] == a.subrange(0, len)[0]);
        assert(b[0] == b.subrange(0, len)[0]);
        assert(after.tag(to) == self.tag(from));
        if self.tag(from) == 1 {
            assert(a.subrange(1, s).subrange(0, 28) =~= a.subrange(0, len).subrange(1, 29));
            assert(b.subrange(1, s).subrange(0, 28) =~= b.subrange(0, len).subrange(1, 29));
            lemma_read_inner_prefix(a.subrange(1, s), b.subrange(1, s));
            assert(after.child(to, 0) == self.child(from, 0));
            assert(after.child(to, 1) == self.child(from, 1));
            if k > 0 {
                let c0 = self.child(from, 0);
                let c1 = self.child(from, 1);
                assert forall|x: u32| #[trigger]
                    self.node_set(c0, (k - 1) as nat).contains(x) implies after.slot(x as int)
                    == self.slot(x as int) by {}
                assert forall|x: u32| #[trigger]
                    self.node_set(c1, (k - 1) as nat).contains(x) implies after.slot(x as int)
                    == self.slot(x as int) by {}
                self.lemma_frame(after, c0, (k - 1) as nat, increasing);
                self.lemma_frame(after, c1, (k - 1) as nat, increasing);
                self.lemma_frame(after, c0, (k - 1) as nat, true);
                self.lemma_frame(after, c1, (k - 1) as nat, true);
                assert(after.inner_key(to) == self.inner_key(from));
                assert(after.prefix_len_of(to) == self.prefix_len_of(from));
                if self.distinct(from, k) {
                    let sa = self.node_set(c0, (k - 1) as nat);
                    let sb = self.node_set(c1, (k - 1) as nat);
                    assert(after.node_set(to, k) =~= self.node_set(from, k).remove(from).insert(
                        to,
                    ));
                }
            } else {
                assert(after.node_set(to, k) =~= self.node_set(from, k).remove(from).insert(to));
            }
        } else if self.tag(from) == 2 {
            assert(a.subrange(1, 17) =~= a.subrange(0, len).subrange(1, 17));
            assert(b.subrange(1, 17) =~= b.subrange(0, len).subrange(1, 17));
            assert(after.leaf_key(to) == self.leaf_key(from));
            assert(after.node_set(to, k) =~= self.node_set(from, k).remove(from).insert(to));
        } else {
            assert(after.node_set(to, k) =~= self.node_set(from, k).remove(from).insert(to));
        }
    }
}

impl Slab {
    proof fn lemma_split(&self, h: u32, k: nat, i: int)
        requires
            self.is_inner(h),
            k > 0,
            self.tree_ok(h, k),
            self.distinct(h, k),
            i == 0 || i == 1,
        ensures
            ({
                let a = self.child(h, i);
                let b = self.child(h, 1 - i);
                let k1 = (k - 1) as nat;
                &&& self.tree_ok(a, k1)
                &&& self.tree_ok(b, k1)
                &&& self.distinct(a, k1)
                &&& self.distinct(b, k1)
                &&& !self.node_set(a, k1).contains(h)
                &&& !self.node_set(b, k1).contains(h)
                &&& self.node_set(a, k1).disjoint(self.node_set(b, k1))
                &&& self.node_set(a, k1).contains(a)
                &&& self.node_set(b, k1).contains(b)
                &&& forall|x: u32| #[trigger]
                    self.node_set(a, k1).contains(x) ==> self.node_set(h, k).contains(x)
                &&& forall|x: u32| #[trigger]
                    self.node_set(b, k1).contains(x) ==> self.node_set(h, k).contains(x)
            }),
    {
        let k1 = (k - 1) as nat;
        let a = self.child(h, i);
        let b = self.child(h, 1 - i);
        assert(self.node_set(a, k1).contains(a));
        assert(self.node_set(b, k1).contains(b));
        if i == 0 {
        } else {
            assert(self.node_set(a, k1).disjoint(self.node_set(b, k1)));
        }
    }

    proof fn lemma_set_ok(&self, h: u32, k: nat, x: u32)
        requires
            self.tree_ok(h, k),
            self.node_set(h, k).contains(x),
        ensures
            self.node_ok(x),
        decreases k,
    {
        if self.is_inner(h) && k > 0 && x != h {
            if self.node_set(self.child(h, 0), (k - 1) as nat).contains(x) {
                self.lemma_set_ok(self.child(h, 0), (k - 1) as nat, x);
            } else {
                self.lemma_set_ok(self.child(h, 1), (k - 1) as nat, x);
            }
        }
    }

    proof fn lemma_walk_in_set(&self, h: u32, key: u128, m: nat, k: nat)
        requires
            self.key_walk_ok(h, key, m),
            m >= 1,
            self.tree_ok(h, k),
        ensures
            ({
                let p = self.key_walk_end(h, key, (m - 1) as nat);
                &&& self.node_set(h, k).contains(p)
                &&& self.node_set(h, k).contains(self.key_walk_end(h, key, m))
                &&& self.node_set(h, k).contains(self.child(p, 1 - self.crit_side(p, key)))
            }),
        decreases m,
    {
        let cs = self.crit_side(h, key);
        let next = self.child(h, cs);
        let k1 = (k - 1) as nat;
        assert(k > 0);
        assert(self.node_set(h, k).contains(h));
        assert(self.node_set(next, k1).contains(next));
        assert(self.node_set(self.child(h, 1 - cs), k1).contains(self.child(h, 1 - cs)));
        assert(forall|x: u32| #[trigger]
            self.node_set(next, k1).contains(x) ==> self.node_set(h, k).contains(x)) by {
            if cs == 0 {
            } else {
            }
        }
        assert(forall|x: u32| #[trigger]
            self.node_set(self.child(h, 1 - cs), k1).contains(x) ==> self.node_set(h, k).contains(
                x,
            )) by {
            if cs == 0 {
            } else {
            }
        }
        if m > 1 {
            assert(self.tree_ok(next, k1)) by {
                if cs == 0 {
                } else {
                }
            }
            self.lemma_walk_in_set(next, key, (m - 1) as nat, k1);
            assert(self.key_walk_end(h, key, (m - 1) as nat) == self.key_walk_end(
                next,
                key,
                (m - 2) as nat,
            ));
            assert(self.key_walk_end(h, key, m) == self.key_walk_end(next, key, (m - 1) as nat));
        } else {
            assert(self.key_walk_end(next, key, 0) == next);
            assert(self.key_walk_end(h, key, 0) == h);
        }
    }

    /// Along the walk from `h` toward `key`, with the sibling's node moved
    /// into the parent's slot and the other slots as they were, the keys
    /// under `h` lose exactly `key`; the index where it stood comes back.
    proof fn lemma_removal_path(
        &self,
        after: &Slab,
        h: u32,
        key: u128,
        m: nat,
        k: nat,
        increasing: bool,
        p: u32,
        c: u32,
        o: u32,
    ) -> (idx: int)
        requires
            self.same_layout(after),
            self.slot_size >= 29,
            self.slot_size >= self.callback_info_len + 25,
            self.key_walk_ok(h, key, m),
            m >= 1,
            self.tree_ok(h, k),
            self.distinct(h, k),
            p == self.key_walk_end(h, key, (m - 1) as nat),
            c == self.key_walk_end(h, key, m),
            o == self.child(p, 1 - self.crit_side(p, key)),
            self.leaf_key(c) == key,
            forall|x: u32|
                x != p && x != c && x != o && #[trigger] self.node_ok(x) ==> after.slot(x as int)
                    == self.slot(x as int),
            after.slot(p as int).subrange(0, node_len(self.tag(o), self.callback_info_len as nat))
                == self.slot(o as int).subrange(
                0,
                node_len(self.tag(o), self.callback_info_len as nat),
            ),
        ensures
            after.tree_ok(h, k),
            0 <= idx < self.keys(h, increasing, k).len(),
            self.keys(h, increasing, k)[idx] == key,
            after.keys(h, increasing, k) == self.keys(h, increasing, k).remove(idx),
        decreases m,
    {
        let cs = self.crit_side(h, key);
        let next = self.child(h, cs);
        let sib = self.child(h, 1 - cs);
        let k1 = (k - 1) as nat;
        assert(self.is_inner(h) && k > 0);
        self.lemma_walk_in_set(h, key, m, k);
        if m == 1 {
            assert(p == h);
            assert(c == next) by {
                assert(self.key_walk_end(next, key, 0) == next);
            }
            assert(o == sib);
            assert(self.tag(c) == 2) by {
                assert(self.key_walk_ok(next, key, 0));
            }
            assert(self.keys(c, increasing, k1) =~= seq![key]);
            self.lemma_split(h, k, cs);
            self.lemma_set_ok(h, k, o);
            if self.is_inner(o) && k1 > 0 {
                assert forall|x: u32|
                    #![trigger self.node_set(self.child(o, 0), (k1 - 1) as nat).contains(x)]
                    #![trigger self.node_set(self.child(o, 1), (k1 - 1) as nat).contains(x)]
                    self.node_set(self.child(o, 0), (k1 - 1) as nat).contains(x) || self.node_set(
                        self.child(o, 1),
                        (k1 - 1) as nat,
                    ).contains(x) implies after.slot(x as int) == self.slot(x as int) by {
                    assert(self.node_set(o, k1).contains(x));
                    self.lemma_set_ok(o, k1, x);
                    assert(x != h);
                    assert(x != c);
                    assert(x != o);
                }
            }
            self.lemma_moved(after, o, h, k1, increasing);
            after.lemma_deeper(h, increasing, k1, k);
            after.lemma_deeper_keys(h, increasing, k1, k);
            let ko = self.keys(o, increasing, k1);
            if cs == first_side(increasing) {
                assert(self.keys(h, increasing, k) =~= seq![key] + ko);
                assert(self.keys(h, increasing, k).remove(0) =~= ko);
                0
            } else {
                assert(self.keys(h, increasing, k) =~= ko + seq![key]);
                assert(self.keys(h, increasing, k).remove(ko.len() as int) =~= ko);
                ko.len() as int
            }
        } else {
            assert(self.key_walk_end(h, key, (m - 1) as nat) == self.key_walk_end(
                next,
                key,
                (m - 2) as nat,
            ));
            assert(self.key_walk_end(h, key, m) == self.key_walk_end(next, key, (m - 1) as nat));
            self.lemma_split(h, k, cs);
            self.lemma_walk_in_set(next, key, (m - 1) as nat, k1);
            assert(h != p && h != c && h != o);
            assert(after.slot(h as int) == self.slot(h as int));
            assert(after.child(h, 0) == self.child(h, 0));
            assert(after.child(h, 1) == self.child(h, 1));
            assert forall|x: u32| #[trigger]
                self.node_set(sib, k1).contains(x) implies after.slot(x as int) == self.slot(
                x as int,
            ) by {
                assert(self.node_set(h, k).contains(x));
                self.lemma_set_ok(h, k, x);
            }
            self.lemma_frame(after, sib, k1, increasing);
            let i = self.lemma_removal_path(after, next, key, (m - 1) as nat, k1, increasing, p, c, o);
            let kn = self.keys(next, increasing, k1);
            let ks = self.keys(sib, increasing, k1);
            if cs == first_side(increasing) {
                assert(self.keys(h, increasing, k) == kn + ks);
                assert(after.keys(h, increasing, k) == kn.remove(i) + ks);
                assert((kn + ks).remove(i) =~= kn.remove(i) + ks);
                i
            } else {
                assert(self.keys(h, increasing, k) == ks + kn);
                assert(after.keys(h, increasing, k) == ks + kn.remove(i));
                assert((ks + kn).remove(ks.len() + i) =~= ks + kn.remove(i));
                ks.len() + i
            }
        }
    }
}

impl Slab {
    proof fn lemma_keys_len(&self, h: u32, k: nat)
        ensures
            self.keys(h, true, k).len() == self.keys(h, false, k).len(),
        decreases k,
    {
        if self.is_inner(h) && k > 0 {
            self.lemma_keys_len(self.child(h, 0), (k - 1) as nat);
            self.lemma_keys_len(self.child(h, 1), (k - 1) as nat);
        }
    }

    /// The slots that a removal leaves as they were, and the one that takes
    /// the sibling's node.
    proof fn lemma_removed_slots(before: Slab, after: Slab, key: u128, r: Option<Node>)
        requires
            before.removal_ok(key),
            removed(before, after, key, r),
            r is Some,
            before.key_walk_len(key) > 0,
        ensures
            before.same_layout(&after),
            ({
                let p = before.key_parent(key);
                let c = before.key_leaf(key);
                let o = before.key_sibling(key);
                let len = node_len(before.tag(o), before.callback_info_len as nat);
                &&& forall|x: u32|
                    x != p && x != c && x != o && #[trigger] before.node_ok(x) ==> after.slot(
                        x as int,
                    ) == before.slot(x as int)
                &&& after.slot(p as int).subrange(0, len) == before.slot(o as int).subrange(0, len)
            }),
    {
        let cil = before.callback_info_len as nat;
        let fl = before.header.free_list_len;
        let p = before.key_parent(key);
        let c = before.key_leaf(key);
        let o = before.key_sibling(key);
        let n = before.key_walk_len(key);
        let s = before.slot_size as int;
        let len = node_len(before.tag(o), cil);
        let (b1, b2) = choose|b1: Seq<u8>, b2: Seq<u8>|
            {
                &&& written(
                    before.buffer@,
                    b1,
                    before.slot_start(o as int),
                    free_node_bytes(fl, before.header.free_list_head),
                )
                &&& written(
                    b1,
                    b2,
                    before.slot_start(p as int),
                    before.slot(o as int).subrange(0, len),
                )
                &&& written(
                    b2,
                    after.buffer@,
                    before.slot_start(c as int),
                    free_node_bytes((fl + 1) as u64, o),
                )
            };
        lemma_int_bytes();
        let f1 = free_node_bytes(fl, before.header.free_list_head);
        let f2 = free_node_bytes((fl + 1) as u64, o);
        let src = before.slot(o as int).subrange(0, len);
        assert(f1.len() == 5 && f2.len() == 5);
        assert(before.key_walk_ok(before.header.root_node, key, n));
        assert(before.node_ok(p) && before.node_ok(c)) by {
            before.lemma_key_walk_nodes(before.header.root_node, key, n);
        }
        assert forall|x: u32|
            x != p && x != c && x != o && #[trigger] before.node_ok(x) implies after.slot(x as int)
            == before.slot(x as int) by {
            let lo = before.slot_start(x as int);
            let hi = lo + s;
            before.lemma_slots_apart(x as int, o as int);
            before.lemma_slots_apart(x as int, p as int);
            before.lemma_slots_apart(x as int, c as int);
            crate::state::layout::lemma_written_keeps(
                before.buffer@,
                b1,
                before.slot_start(o as int),
                f1,
                lo,
                hi,
            );
            crate::state::layout::lemma_written_keeps(
                b1,
                b2,
                before.slot_start(p as int),
                src,
                lo,
                hi,
            );
            crate::state::layout::lemma_written_keeps(
                b2,
                after.buffer@,
                before.slot_start(c as int),
                f2,
                lo,
                hi,
            );
        }
        let sp = before.slot_start(p as int);
        before.lemma_slots_apart(p as int, c as int);
        before.lemma_slots_apart(p as int, o as int);
        crate::state::layout::lemma_written_subrange(b1, b2, sp, src);
        crate::state::layout::lemma_written_keeps(
            b2,
            after.buffer@,
            before.slot_start(c as int),
            f2,
            sp,
            sp + len,
        );
        assert(after.slot(p as int).subrange(0, len) =~= after.buffer@.subrange(sp, sp + len));
    }

    proof fn lemma_key_walk_nodes(&self, h: u32, key: u128, n: nat)
        requires
            self.key_walk_ok(h, key, n),
        ensures
            self.node_ok(self.key_walk_end(h, key, n)),
            n > 0 ==> self.node_ok(self.key_walk_end(h, key, (n - 1) as nat)),
        decreases n,
    {
        if n > 0 {
            let next = self.child(h, self.crit_side(h, key));
            self.lemma_key_walk_nodes(next, key, (n - 1) as nat);
            if n > 1 {
                assert(self.key_walk_end(h, key, (n - 1) as nat) == self.key_walk_end(
                    next,
                    key,
                    (n - 2) as nat,
                ));
            }
        }
    }
}

/// Removing an order that the walk toward its key finds takes exactly that
/// key out of the keys of the slab, in either order, where it stood, and
/// leaves a tree that every walk can read.
pub proof fn lemma_removal_takes_out_key(
    before: Slab,
    after: Slab,
    key: u128,
    r: Option<Node>,
    increasing: bool,
)
    requires
        before.tree_wf(),
        before.removal_ok(key),
        removed(before, after, key, r),
        r is Some,
    ensures
        after.tree_from_root_ok(),
        exists|i: int|
            0 <= i < before.ordered_keys(increasing).len() && before.ordered_keys(increasing)[i]
                == key && after.ordered_keys(increasing) == before.ordered_keys(increasing).remove(
                i,
            ),
{
    let root = before.header.root_node;
    let kb = before.height();
    let n = before.key_walk_len(key);
    assert(before.key_walk_ok(root, key, n));
    before.lemma_keys_len(root, kb);
    let ks = before.ordered_keys(increasing);
    if n == 0 {
        assert(before.tag(root) == 2);
        assert(ks =~= seq![key]);
        assert(after.ordered_keys(increasing) =~= ks.remove(0));
    } else {
        let p = before.key_parent(key);
        let c = before.key_leaf(key);
        let o = before.key_sibling(key);
        Slab::lemma_removed_slots(before, after, key, r);
        let i = before.lemma_removal_path(&after, root, key, n, kb, increasing, p, c, o);
        assert(after.header.root_node == root);
        assert(after.tree_ok(root, kb));
        if after.header.leaf_count != 0 {
            let ka = after.height();
            if ka <= kb {
                after.lemma_deeper_keys(root, increasing, ka, kb);
            } else {
                after.lemma_deeper_keys(root, increasing, kb, ka);
            }
        } else {
            assert(ks.remove(i).len() == 0);
            assert(after.ordered_keys(increasing) =~= ks.remove(i));
        }
    }
}

// ------------------------------------------------------------------------
// Allocating a slot.
impl Slab {
    /// Whether writing `val` into a newly taken slot can be done: from the
    /// free list, its head holds a free node whose kind agrees with the
    /// list's length and `val` fits from its start; past the used slots, the
    /// slot starts within the buffer.
    pub open spec fn insert_ok(&self, val: Node) -> bool {
        let h = self.header;
        if h.free_list_len == 0 {
            &&& self.slot_size > 0
            &&& self.buffer@.len() >= SLAB_HEADER_LEN
            &&& (h.bump_index as usize) != (self.buffer@.len() - SLAB_HEADER_LEN) / (
            self.slot_size as int) && h.bump_index != u32::MAX ==> {
                &&& h.bump_index < u64::MAX
                &&& self.slot_start((h.bump_index as u32) as int) <= self.buffer@.len()
            }
        } else {
            &&& self.slot_readable(h.free_list_head as int)
            &&& self.tag(h.free_list_head) == 3 ==> h.free_list_len > 1 && self.slot_size >= 5
            &&& self.tag(h.free_list_head) == 4 ==> h.free_list_len == 1 && self.slot_size >= 5
            &&& self.tag(h.free_list_head) == 3 || self.tag(h.free_list_head) == 4
            &&& self.slot_start(h.free_list_head as int) + spec_node_bytes(val).len()
                <= self.buffer@.len()
        }
    }

    /// Writes `val` into a slot taken from the free list, or else past the
    /// used slots, and gives back that slot; fails where no slot is left, or
    /// where `val` does not fit past the used slots.
    pub fn insert(&mut self, val: &Node) -> (r: Result<u32, NodeError>)
        requires
            old(self).insert_ok(*val),
        ensures
            final(self).callback_info_len == old(self).callback_info_len,
            final(self).slot_size == old(self).slot_size,
            ({
                let h = old(self).header;
                let cap = (old(self).buffer@.len() - SLAB_HEADER_LEN) / (old(self).slot_size as int);
                let b = spec_node_bytes(*val);
                if h.free_list_len == 0 {
                    if (h.bump_index as usize) == cap || h.bump_index == u32::MAX {
                        r == Err::<u32, NodeError>(NodeError::UnexpectedEof) && *final(self) == *old(
                            self,
                        )
                    } else {
                        let key = h.bump_index as u32;
                        let room = old(self).buffer@.len() - old(self).slot_start(key as int);
                        &&& final(self).header == SlabHeader {
                            bump_index: (h.bump_index + 1) as u64,
                            ..h
                        }
                        &&& written(
                            old(self).buffer@,
                            final(self).buffer@,
                            old(self).slot_start(key as int),
                            if b.len() <= room {
                                b
                            } else {
                                b.subrange(0, room)
                            },
                        )
                        &&& r == if b.len() <= room {
                            Ok::<u32, NodeError>(key)
                        } else {
                            Err::<u32, NodeError>(NodeError::WriteZero)
                        }
                    }
                } else {
                    let key = h.free_list_head;
                    &&& r == Ok::<u32, NodeError>(key)
                    &&& final(self).header == SlabHeader {
                        free_list_head: le_u32(old(self).slot(key as int), 1),
                        free_list_len: (h.free_list_len - 1) as u64,
                        ..h
                    }
                    &&& written(
                        old(self).buffer@,
                        final(self).buffer@,
                        old(self).slot_start(key as int),
                        b,
                    )
                }
            }),
    {
        if self.header.free_list_len == 0 {
            if self.header.bump_index as usize == self.capacity() as usize {
                return Err(NodeError::UnexpectedEof);
            }
            if self.header.bump_index == u32::MAX as u64 {
                return Err(NodeError::UnexpectedEof);
            }
            let key = self.header.bump_index as u32;
            self.header.bump_index = self.header.bump_index + 1;
            match self.write_node(val, key) {
                Ok(()) => {},
                Err(e) => return Err(e),
            }
            return Ok(key);
        }
        let key = self.header.free_list_head;
        let node = match self.get_node(key) {
            Some(n) => n,
            None => {
                proof {
                    assert(false);
                }
                return Err(NodeError::InvalidData);
            },
        };
        let free_list_item = match node {
            Node::Free(f) => f,
            Node::LastFree(f) => f,
            _ => {
                proof {
                    assert(false);
                }
                return Err(NodeError::InvalidData);
            },
        };
        let next_free_list_head = free_list_item.next;
        self.header.free_list_head = next_free_list_head;
        self.header.free_list_len = self.header.free_list_len - 1;
        match self.write_node(val, key) {
            Ok(()) => {},
            Err(_) => {
                proof {
                    assert(false);
                }
                return Err(NodeError::WriteZero);
            },
        }
        Ok(key)
    }
}

// ------------------------------------------------------------------------
// The walks agree.
impl Slab {
    proof fn lemma_first_leaf(&self, h: u32, increasing: bool, n: nat, k: nat)
        requires
            self.walks_to(h, !increasing, n),
            self.tree_ok(h, k),
        ensures
            self.leaves(h, increasing, k).len() > 0,
            self.leaves(h, increasing, k)[0] == self.walk_end(h, !increasing, n),
        decreases n,
    {
        if n > 0 {
            let c = self.child(h, first_side(increasing));
            assert(c == self.child(
                h,
                if !increasing {
                    1
                } else {
                    0
                },
            ));
            assert(self.tree_ok(c, (k - 1) as nat)) by {
                if increasing {
                } else {
                }
            }
            self.lemma_first_leaf(c, increasing, (n - 1) as nat, (k - 1) as nat);
        }
    }
}

/// The order that the walk toward child 0 finds (`find_min`) is the first
/// that `find_node_sequence` lists in increasing order, and the one that the
/// walk toward child 1 finds (`find_max`) is the first in decreasing order.
pub proof fn lemma_extremes_lead(slab: Slab, increasing: bool)
    requires
        slab.tree_from_root_ok(),
        slab.header.leaf_count != 0,
    ensures
        slab.ordered_leaves(increasing).len() > 0,
        slab.ordered_leaves(increasing)[0] == slab.extreme(!increasing),
{
    let root = slab.header.root_node;
    let k = slab.height();
    let right = !increasing;
    slab.lemma_tree_walks(root, right, k);
    let n = choose|n: nat| slab.walks_to(root, right, n);
    slab.lemma_first_leaf(root, increasing, n, k);
    assert(slab.extreme(right) == slab.walk_end(root, right, n));
}

// ------------------------------------------------------------------------
// Keys in order.
impl Slab {
    /// The key of the inner node in slot `h`.
    pub open spec fn inner_key(&self, h: u32) -> u128 {
        spec_read_inner(self.slot(h as int).subrange(1, self.slot_size as int)).key
    }

    /// Whether the tree under `h` keeps the critbit order: at each inner
    /// node, whose prefix length `p` is under 128, the keys under it agree
    /// with its key on their first `p` bits, and bit `p` of each is the side
    /// it lies on.
    pub open spec fn crit_ok(&self, h: u32, k: nat) -> bool
        decreases k,
    {
        self.is_inner(h) && k > 0 ==> {
            let p = self.prefix_len_of(h) as int;
            let k0 = self.keys(self.child(h, 0), true, (k - 1) as nat);
            let k1 = self.keys(self.child(h, 1), true, (k - 1) as nat);
            &&& p < 128
            &&& forall|x: u128|
                #[trigger] k0.contains(x) ==> prefix_agree(x, self.inner_key(h), p) && !bit_at(x, p)
            &&& forall|x: u128|
                #[trigger] k1.contains(x) ==> prefix_agree(x, self.inner_key(h), p) && bit_at(x, p)
            &&& self.crit_ok(self.child(h, 0), (k - 1) as nat)
            &&& self.crit_ok(self.child(h, 1), (k - 1) as nat)
        }
    }

    proof fn lemma_keys_elems(&self, h: u32, k: nat)
        ensures
            forall|x: u128|
                #[trigger] self.keys(h, false, k).contains(x) <==> self.keys(h, true, k).contains(x),
        decreases k,
    {
        if self.is_inner(h) && k > 0 {
            let k1 = (k - 1) as nat;
            let c0 = self.child(h, 0);
            let c1 = self.child(h, 1);
            self.lemma_keys_elems(c0, k1);
            self.lemma_keys_elems(c1, k1);
            let a = self.keys(c0, true, k1);
            let b = self.keys(c1, true, k1);
            let a2 = self.keys(c0, false, k1);
            let b2 = self.keys(c1, false, k1);
            assert forall|x: u128| #[trigger]
                self.keys(h, false, k).contains(x) <==> self.keys(h, true, k).contains(x) by {
                lemma_concat_contains(a, b, x);
                lemma_concat_contains(b2, a2, x);
            }
        }
    }

    proof fn lemma_keys_sorted(&self, h: u32, k: nat, increasing: bool)
        requires
            self.crit_ok(h, k),
        ensures
            forall|i: int, j: int|
                0 <= i < j < self.keys(h, increasing, k).len() ==> if increasing {
                    self.keys(h, increasing, k)[i] < self.keys(h, increasing, k)[j]
                } else {
                    self.keys(h, increasing, k)[i] > self.keys(h, increasing, k)[j]
                },
        decreases k,
    {
        if self.is_inner(h) && k > 0 {
            let k1 = (k - 1) as nat;
            let c0 = self.child(h, 0);
            let c1 = self.child(h, 1);
            let p = self.prefix_len_of(h) as int;
            let key = self.inner_key(h);
            self.lemma_keys_sorted(c0, k1, increasing);
            self.lemma_keys_sorted(c1, k1, increasing);
            self.lemma_keys_elems(c0, k1);
            self.lemma_keys_elems(c1, k1);
            let lo = self.keys(c0, increasing, k1);
            let hi = self.keys(c1, increasing, k1);
            assert forall|a: u128, b: u128| #[trigger]
                lo.contains(a) && #[trigger] hi.contains(b) implies a < b by {
                assert(self.keys(c0, true, k1).contains(a));
                assert(self.keys(c1, true, k1).contains(b));
                assert(prefix_agree(a, b, p));
                lemma_agree_order(a, b, p);
            }
            let ks = self.keys(h, increasing, k);
            if increasing {
                assert(ks == lo + hi);
                assert forall|i: int, j: int| 0 <= i < j < ks.len() implies ks[i] < ks[j] by {
                    if j >= lo.len() && i < lo.len() {
                        assert(lo.contains(lo[i]));
                        assert(hi.contains(hi[j - lo.len()]));
                    }
                }
            } else {
                assert(ks == hi + lo);
                assert forall|i: int, j: int| 0 <= i < j < ks.len() implies ks[i] > ks[j] by {
                    if j >= hi.len() && i < hi.len() {
                        assert(hi.contains(hi[i]));
                        assert(lo.contains(lo[j - hi.len()]));
                    }
                }
            }
        }
    }
}

proof fn lemma_concat_contains(a: Seq<u128>, b: Seq<u128>, x: u128)
    ensures
        (a + b).contains(x) <==> a.contains(x) || b.contains(x),
{
    if a.contains(x) {
        let i = choose|i: int| 0 <= i < a.len() && a[i] == x;
        assert((a + b)[i] == x);
    }
    if b.contains(x) {
        let i = choose|i: int| 0 <= i < b.len() && b[i] == x;
        assert((a + b)[a.len() + i] == x);
    }
    if (a + b).contains(x) {
        let i = choose|i: int| 0 <= i < (a + b).len() && (a + b)[i] == x;
        if i < a.len() {
            assert(a[i] == x);
        } else {
            assert(b[i - a.len()] == x);
        }
    }
}

/// The price of level `a` of levels laid out flat as quantity then price.
pub open spec fn level_price(r: Seq<int>, a: int) -> int {
    r[2 * a + 1]
}

impl Slab {
    /// Whether every end of the tree under `h` is a leaf.
    pub open spec fn ends_are_leaves(&self, h: u32, increasing: bool, k: nat) -> bool {
        forall|i: int|
            0 <= i < self.leaves(h, increasing, k).len() ==> self.tag(
                #[trigger] self.leaves(h, increasing, k)[i],
            ) == 2
    }

    proof fn lemma_leaves_keys(&self, h: u32, increasing: bool, k: nat)
        requires
            self.ends_are_leaves(h, increasing, k),
        ensures
            self.keys(h, increasing, k).len() == self.leaves(h, increasing, k).len(),
            forall|i: int|
                0 <= i < self.keys(h, increasing, k).len() ==> self.keys(h, increasing, k)[i]
                    == self.leaf_key(self.leaves(h, increasing, k)[i]),
        decreases k,
    {
        if self.is_inner(h) && k > 0 {
            let k1 = (k - 1) as nat;
            let f = self.child(h, first_side(increasing));
            let g = self.child(h, 1 - first_side(increasing));
            let lf = self.leaves(f, increasing, k1);
            let lg = self.leaves(g, increasing, k1);
            assert(self.leaves(h, increasing, k) == lf + lg);
            assert forall|i: int| 0 <= i < lf.len() implies self.tag(#[trigger] lf[i]) == 2 by {
                assert(self.leaves(h, increasing, k)[i] == lf[i]);
            }
            assert forall|i: int| 0 <= i < lg.len() implies self.tag(#[trigger] lg[i]) == 2 by {
                assert(self.leaves(h, increasing, k)[lf.len() + i] == lg[i]);
            }
            self.lemma_leaves_keys(f, increasing, k1);
            self.lemma_leaves_keys(g, increasing, k1);
        } else {
            assert(self.leaves(h, increasing, k)[0] == h);
        }
    }

    proof fn lemma_l2_prices_ordered(&self, hs: Seq<u32>, n: nat, depth: nat, increasing: bool)
        requires
            n <= hs.len(),
            forall|i: int, j: int|
                0 <= i < j < hs.len() ==> if increasing {
                    self.leaf_price(hs[i]) <= self.leaf_price(hs[j])
                } else {
                    self.leaf_price(hs[i]) >= self.leaf_price(hs[j])
                },
        ensures
            ({
                let r = self.l2_run(hs, n, depth);
                &&& r.len() > 0 ==> forall|j: int|
                    n <= j < hs.len() ==> if increasing {
                        r.last() <= self.leaf_price(hs[j])
                    } else {
                        r.last() >= self.leaf_price(hs[j])
                    }
                &&& forall|a: int, b: int|
                    #![trigger level_price(r, a), level_price(r, b)]
                    0 <= a < b < r.len() / 2 ==> if increasing {
                        level_price(r, a) < level_price(r, b)
                    } else {
                        level_price(r, a) > level_price(r, b)
                    }
            }),
        decreases n,
    {
        if n > 0 {
            let m = (n - 1) as nat;
            self.lemma_l2_prices_ordered(hs, m, depth, increasing);
            self.lemma_l2_shape(hs, m, depth);
            let prev = self.l2_run(hs, m, depth);
            let r = self.l2_run(hs, n, depth);
            let h = hs[m as int];
            if prev.len() != 2 * depth {
                let half = prev.len() / 2;
                if prev.len() > 0 && prev.last() == self.leaf_price(h) {
                    assert forall|a: int, b: int|
                        #![trigger level_price(r, a), level_price(r, b)]
                        0 <= a < b < r.len() / 2 implies if increasing {
                        level_price(r, a) < level_price(r, b)
                    } else {
                        level_price(r, a) > level_price(r, b)
                    } by {
                        assert(level_price(r, a) == level_price(prev, a));
                        assert(level_price(r, b) == level_price(prev, b));
                    }
                    assert(r.last() == prev.last());
                } else {
                    assert(r.len() == prev.len() + 2);
                    assert(r.len() / 2 == half + 1);
                    if prev.len() > 0 {
                        assert(prev.last() == level_price(prev, half - 1));
                    }
                    assert forall|a: int, b: int|
                        #![trigger level_price(r, a), level_price(r, b)]
                        0 <= a < b < r.len() / 2 implies if increasing {
                        level_price(r, a) < level_price(r, b)
                    } else {
                        level_price(r, a) > level_price(r, b)
                    } by {
                        
                        if b == half {
                            assert(level_price(r, b) == self.leaf_price(h));
                            assert(level_price(r, a) == level_price(prev, a));
                            if a < half - 1 {
                                if increasing {
                                    assert(level_price(prev, a) < level_price(prev, half - 1));
                                } else {
                                    assert(level_price(prev, a) > level_price(prev, half - 1));
                                }
                            }
                        } else {
                            assert(level_price(r, b) == level_price(prev, b));
                        }
                    }
                }
            }
        }
    }
}

/// In a slab that keeps the critbit order, the keys come in increasing
/// order when walked toward the lower side first, in decreasing order
/// otherwise.
pub proof fn lemma_keys_in_order(slab: Slab, increasing: bool)
    requires
        slab.tree_from_root_ok(),
        slab.header.leaf_count != 0,
        slab.crit_ok(slab.header.root_node, slab.height()),
    ensures
        forall|i: int, j: int|
            0 <= i < j < slab.ordered_keys(increasing).len() ==> if increasing {
                slab.ordered_keys(increasing)[i] < slab.ordered_keys(increasing)[j]
            } else {
                slab.ordered_keys(increasing)[i] > slab.ordered_keys(increasing)[j]
            },
{
    slab.lemma_keys_sorted(slab.header.root_node, slab.height(), increasing);
}

/// In a slab that keeps the critbit order and whose tree ends only in
/// leaves, the price levels come best first and each once: every level's
/// price is above the one before it when walked in increasing order, below
/// it otherwise.
pub proof fn lemma_levels_in_order(slab: Slab, depth: nat, increasing: bool)
    requires
        slab.tree_from_root_ok(),
        slab.header.leaf_count != 0,
        slab.crit_ok(slab.header.root_node, slab.height()),
        slab.ends_are_leaves(slab.header.root_node, increasing, slab.height()),
    ensures
        ({
            let lv = slab.l2_levels(depth, increasing);
            &&& lv.len() % 2 == 0
            &&& forall|a: int, b: int|
                #![trigger level_price(lv, a), level_price(lv, b)]
                0 <= a < b < lv.len() / 2 ==> if increasing {
                    level_price(lv, a) < level_price(lv, b)
                } else {
                    level_price(lv, a) > level_price(lv, b)
                }
        }),
{
    let root = slab.header.root_node;
    let k = slab.height();
    let hs = slab.ordered_leaves(increasing);
    slab.lemma_keys_sorted(root, k, increasing);
    slab.lemma_leaves_keys(root, increasing, k);
    let ks = slab.keys(root, increasing, k);
    assert forall|i: int, j: int| 0 <= i < j < hs.len() implies if increasing {
        slab.leaf_price(hs[i]) <= slab.leaf_price(hs[j])
    } else {
        slab.leaf_price(hs[i]) >= slab.leaf_price(hs[j])
    } by {
        assert(ks[i] == slab.leaf_key(hs[i]));
        assert(ks[j] == slab.leaf_key(hs[j]));
        if increasing {
            vstd::arithmetic::div_mod::lemma_div_is_ordered(
                ks[i] as int,
                ks[j] as int,
                0x1_0000_0000_0000_0000,
            );
        } else {
            vstd::arithmetic::div_mod::lemma_div_is_ordered(
                ks[j] as int,
                ks[i] as int,
                0x1_0000_0000_0000_0000,
            );
        }
    }
    slab.lemma_l2_prices_ordered(hs, hs.len(), depth, increasing);
    slab.lemma_l2_shape(hs, hs.len(), depth);
}

// ------------------------------------------------------------------------
// Finding a key.
proof fn lemma_crit_mask_bit(k: u128, p: u32)
    by (bit_vector)
    requires
        p < 128,
    ensures
        ((k & ((1u128 << 127u32) >> p)) != 0) == ((k >> (127 - p) as u128) & 1 == 1),
{
}

impl Slab {
    proof fn lemma_walk_key_held(&self, h: u32, key: u128, n: nat, k: nat)
        requires
            self.key_walk_ok(h, key, n),
            self.tree_ok(h, k),
        ensures
            self.keys(h, true, k).contains(self.leaf_key(self.key_walk_end(h, key, n))),
        decreases n,
    {
        if n == 0 {
            assert(self.keys(h, true, k) =~= seq![self.leaf_key(h)]);
            assert(self.keys(h, true, k)[0] == self.leaf_key(h));
        } else {
            let cs = self.crit_side(h, key);
            let c = self.child(h, cs);
            let k1 = (k - 1) as nat;
            assert(self.tree_ok(c, k1)) by {
                if cs == 0 {
                } else {
                }
            }
            self.lemma_walk_key_held(c, key, (n - 1) as nat, k1);
            let x = self.leaf_key(self.key_walk_end(h, key, n));
            lemma_concat_contains(
                self.keys(self.child(h, 0), true, k1),
                self.keys(self.child(h, 1), true, k1),
                x,
            );
        }
    }

    proof fn lemma_walk_finds(&self, h: u32, key: u128, n: nat, k: nat)
        requires
            self.key_walk_ok(h, key, n),
            self.tree_ok(h, k),
            self.crit_ok(h, k),
            self.keys(h, true, k).contains(key),
        ensures
            self.leaf_key(self.key_walk_end(h, key, n)) == key,
        decreases n,
    {
        if n == 0 {
            assert(self.keys(h, true, k) =~= seq![self.leaf_key(h)]);
        } else {
            let k1 = (k - 1) as nat;
            let p = self.prefix_len_of(h);
            let c0 = self.child(h, 0);
            let c1 = self.child(h, 1);
            lemma_concat_contains(self.keys(c0, true, k1), self.keys(c1, true, k1), key);
            lemma_crit_mask_bit(key, p);
            if self.keys(c0, true, k1).contains(key) {
                assert(!bit_at(key, p as int));
                assert(self.crit_side(h, key) == 0);
                self.lemma_walk_finds(c0, key, (n - 1) as nat, k1);
            } else {
                assert(bit_at(key, p as int));
                assert(self.crit_side(h, key) == 1);
                self.lemma_walk_finds(c1, key, (n - 1) as nat, k1);
            }
        }
    }
}

/// In a slab that keeps the critbit order, removing a key takes out an
/// order exactly when the slab holds that key.
pub proof fn lemma_removal_finds_key(before: Slab, after: Slab, key: u128, r: Option<Node>)
    requires
        before.tree_from_root_ok(),
        before.header.leaf_count != 0 ==> before.crit_ok(
            before.header.root_node,
            before.height(),
        ),
        before.removal_ok(key),
        removed(before, after, key, r),
    ensures
        r is Some <==> before.ordered_keys(true).contains(key),
{
    if before.header.leaf_count != 0 {
        let root = before.header.root_node;
        let k = before.height();
        let n = before.key_walk_len(key);
        assert(before.key_walk_ok(root, key, n));
        before.lemma_walk_key_held(root, key, n, k);
        if before.ordered_keys(true).contains(key) {
            before.lemma_walk_finds(root, key, n, k);
        }
    }
}

/// In a slab that keeps the critbit order and whose tree ends only in
/// leaves, the walk toward child 0 (`find_min`) ends at the lowest key and
/// the walk toward child 1 (`find_max`) at the highest.
pub proof fn lemma_extremes_are_extreme(slab: Slab, increasing: bool)
    requires
        slab.tree_from_root_ok(),
        slab.header.leaf_count != 0,
        slab.crit_ok(slab.header.root_node, slab.height()),
        slab.ends_are_leaves(slab.header.root_node, increasing, slab.height()),
    ensures
        forall|i: int|
            0 <= i < slab.ordered_keys(increasing).len() ==> if increasing {
                slab.leaf_key(slab.extreme(false)) <= slab.ordered_keys(increasing)[i]
            } else {
                slab.leaf_key(slab.extreme(true)) >= slab.ordered_keys(increasing)[i]
            },
{
    let root = slab.header.root_node;
    let k = slab.height();
    lemma_extremes_lead(slab, increasing);
    slab.lemma_leaves_keys(root, increasing, k);
    slab.lemma_keys_sorted(root, k, increasing);
    let ks = slab.ordered_keys(increasing);
    assert(ks[0] == slab.leaf_key(slab.ordered_leaves(increasing)[0]));
    assert forall|i: int| 0 <= i < ks.len() implies if increasing {
        slab.leaf_key(slab.extreme(false)) <= ks[i]
    } else {
        slab.leaf_key(slab.extreme(true)) >= ks[i]
    } by {
        if i > 0 {
            assert(if increasing {
                ks[0] < ks[i]
            } else {
                ks[0] > ks[i]
            });
        }
    }
}

// ------------------------------------------------------------------------
// Writing the header back.
/// The byte that stands for an account tag.
pub open spec fn spec_account_tag_byte(t: AccountTag) -> u8 {
    match t {
        AccountTag::Uninitialized => 0,
        AccountTag::Market => 1,
        AccountTag::EventQueue => 2,
        AccountTag::Bids => 3,
        AccountTag::Asks => 4,
    }
}

/// The bytes of a slab header.
pub open spec fn spec_header_bytes(h: SlabHeader) -> Seq<u8> {
    seq![spec_account_tag_byte(h.account_tag)] + spec_u64_to_le_bytes(h.bump_index)
        + spec_u64_to_le_bytes(h.free_list_len) + spec_u32_to_le_bytes(h.free_list_head)
        + spec_u32_to_le_bytes(h.root_node) + spec_u64_to_le_bytes(h.leaf_count)
        + h.market_address@
}

impl Slab {
    /// Writes the header back into the first bytes of the buffer.
    pub fn write_header(&mut self)
        requires
            old(self).buffer.len() >= SLAB_HEADER_LEN,
        ensures
            final(self).header == old(self).header,
            final(self).callback_info_len == old(self).callback_info_len,
            final(self).slot_size == old(self).slot_size,
            written(old(self).buffer@, final(self).buffer@, 0, spec_header_bytes(old(self).header)),
            header_read(final(self).buffer@, old(self).header),
    {
        let h = self.header;
        let tag: u8 = match h.account_tag {
            AccountTag::Uninitialized => 0,
            AccountTag::Market => 1,
            AccountTag::EventQueue => 2,
            AccountTag::Bids => 3,
            AccountTag::Asks => 4,
        };
        let mut bytes: Vec<u8> = Vec::new();
        bytes.push(tag);
        let mut b = u64_to_le_bytes(h.bump_index);
        bytes.append(&mut b);
        let mut b = u64_to_le_bytes(h.free_list_len);
        bytes.append(&mut b);
        append_u32(&mut bytes, h.free_list_head);
        append_u32(&mut bytes, h.root_node);
        let mut b = u64_to_le_bytes(h.leaf_count);
        bytes.append(&mut b);
        let mut m = vstd::slice::slice_to_vec(h.market_address.as_slice());
        bytes.append(&mut m);
        let ghost t = spec_header_bytes(h);
        proof {
            lemma_int_bytes();
            assert(bytes@ =~= t);
        }
        write_bytes(self.buffer.as_mut_slice(), 0, bytes.as_slice());
        proof {
            let nb = self.buffer@;
            crate::state::layout::lemma_written_subrange(old(self).buffer@, nb, 0, t);
            assert(nb.subrange(0, 65) == t);
            assert(nb.subrange(1, 9) =~= t.subrange(1, 9));
            assert(t.subrange(1, 9) =~= spec_u64_to_le_bytes(h.bump_index));
            assert(nb.subrange(9, 17) =~= t.subrange(9, 17));
            assert(t.subrange(9, 17) =~= spec_u64_to_le_bytes(h.free_list_len));
            assert(nb.subrange(17, 21) =~= t.subrange(17, 21));
            assert(t.subrange(17, 21) =~= spec_u32_to_le_bytes(h.free_list_head));
            assert(nb.subrange(21, 25) =~= t.subrange(21, 25));
            assert(t.subrange(21, 25) =~= spec_u32_to_le_bytes(h.root_node));
            assert(nb.subrange(25, 33) =~= t.subrange(25, 33));
            assert(t.subrange(25, 33) =~= spec_u64_to_le_bytes(h.leaf_count));
            assert(nb.subrange(33, 65) =~= t.subrange(33, 65));
            assert(t.subrange(33, 65) =~= h.market_address@);
            assert(nb[0] == t[0]);
        }
    }
}

// ------------------------------------------------------------------------
// What a removal keeps.
proof fn lemma_remove_contains(s: Seq<u128>, i: int, x: u128)
    requires
        0 <= i < s.len(),
        s.remove(i).contains(x),
    ensures
        s.contains(x),
{
    let j = choose|j: int| 0 <= j < s.remove(i).len() && s.remove(i)[j] == x;
    if j < i {
        assert(s[j] == x);
    } else {
        assert(s[j + 1] == x);
    }
}

impl Slab {
    /// Along the walk from `h` toward `key`, with the sibling's node moved
    /// into the parent's slot and the other slots as they were, the tree
    /// under `h` loses the leaf's and the sibling's slots, keeps its slots
    /// distinct and keeps the critbit order.
    proof fn lemma_removal_path_wf(
        &self,
        after: &Slab,
        h: u32,
        key: u128,
        m: nat,
        k: nat,
        p: u32,
        c: u32,
        o: u32,
    )
        requires
            self.same_layout(after),
            self.slot_size >= 29,
            self.slot_size >= self.callback_info_len + 25,
            self.key_walk_ok(h, key, m),
            m >= 1,
            self.tree_ok(h, k),
            self.distinct(h, k),
            p == self.key_walk_end(h, key, (m - 1) as nat),
            c == self.key_walk_end(h, key, m),
            o == self.child(p, 1 - self.crit_side(p, key)),
            self.leaf_key(c) == key,
            forall|x: u32|
                x != p && x != c && x != o && #[trigger] self.node_ok(x) ==> after.slot(x as int)
                    == self.slot(x as int),
            after.slot(p as int).subrange(0, node_len(self.tag(o), self.callback_info_len as nat))
                == self.slot(o as int).subrange(
                0,
                node_len(self.tag(o), self.callback_info_len as nat),
            ),
        ensures
            after.node_set(h, k) == self.node_set(h, k).remove(c).remove(o),
            after.distinct(h, k),
            self.crit_ok(h, k) ==> after.crit_ok(h, k),
        decreases m,
    {
        let cs = self.crit_side(h, key);
        let next = self.child(h, cs);
        let sib = self.child(h, 1 - cs);
        let k1 = (k - 1) as nat;
        assert(self.is_inner(h) && k > 0);
        self.lemma_walk_in_set(h, key, m, k);
        self.lemma_split(h, k, cs);
        if m == 1 {
            assert(p == h);
            assert(c == next) by {
                assert(self.key_walk_end(next, key, 0) == next);
            }
            assert(o == sib);
            assert(self.tag(c) == 2) by {
                assert(self.key_walk_ok(next, key, 0));
            }
            assert(self.node_set(c, k1) =~= set![c]);
            self.lemma_set_ok(h, k, o);
            if self.is_inner(o) && k1 > 0 {
                assert forall|x: u32|
                    #![trigger self.node_set(self.child(o, 0), (k1 - 1) as nat).contains(x)]
                    #![trigger self.node_set(self.child(o, 1), (k1 - 1) as nat).contains(x)]
                    self.node_set(self.child(o, 0), (k1 - 1) as nat).contains(x) || self.node_set(
                        self.child(o, 1),
                        (k1 - 1) as nat,
                    ).contains(x) implies after.slot(x as int) == self.slot(x as int) by {
                    assert(self.node_set(o, k1).contains(x));
                    self.lemma_set_ok(o, k1, x);
                    assert(x != h);
                    assert(x != c);
                    assert(x != o);
                }
            }
            self.lemma_moved(after, o, h, k1, true);
            after.lemma_deeper(h, true, k1, k);
            after.lemma_deeper_keys(h, true, k1, k);
            assert(after.node_set(h, k) =~= self.node_set(h, k).remove(c).remove(o));
        } else {
            assert(self.key_walk_end(h, key, (m - 1) as nat) == self.key_walk_end(
                next,
                key,
                (m - 2) as nat,
            ));
            assert(self.key_walk_end(h, key, m) == self.key_walk_end(next, key, (m - 1) as nat));
            self.lemma_walk_in_set(next, key, (m - 1) as nat, k1);
            assert(h != p && h != c && h != o);
            assert(after.slot(h as int) == self.slot(h as int));
            assert(after.child(h, 0) == self.child(h, 0));
            assert(after.child(h, 1) == self.child(h, 1));
            assert(after.inner_key(h) == self.inner_key(h));
            assert(after.prefix_len_of(h) == self.prefix_len_of(h));
            assert forall|x: u32| #[trigger]
                self.node_set(sib, k1).contains(x) implies after.slot(x as int) == self.slot(
                x as int,
            ) by {
                assert(self.node_set(h, k).contains(x));
                self.lemma_set_ok(h, k, x);
            }
            self.lemma_frame(after, sib, k1, true);
            self.lemma_removal_path_wf(after, next, key, (m - 1) as nat, k1, p, c, o);
            let i = self.lemma_removal_path(after, next, key, (m - 1) as nat, k1, true, p, c, o);
            assert(after.node_set(h, k) =~= self.node_set(h, k).remove(c).remove(o));
            if self.crit_ok(h, k) {
                let kn = self.keys(next, true, k1);
                let pl = self.prefix_len_of(h) as int;
                assert forall|x: u128| #[trigger]
                    after.keys(next, true, k1).contains(x) implies kn.contains(x) by {
                    lemma_remove_contains(kn, i, x);
                }
                if cs == 0 {
                    assert(after.crit_ok(h, k));
                } else {
                    assert(after.crit_ok(h, k));
                }
            }
        }
    }
}

/// A removal that takes out an order keeps the slab well formed: its tree
/// stays readable with distinct slots and as many leaves as the header
/// counts, and keeps the critbit order where it was kept.
pub proof fn lemma_removal_keeps_wf(before: Slab, after: Slab, key: u128, r: Option<Node>)
    requires
        before.tree_wf(),
        before.removal_ok(key),
        removed(before, after, key, r),
        r is Some,
    ensures
        after.tree_wf(),
        before.header.leaf_count != 0 && before.crit_ok(before.header.root_node, before.height())
            && after.header.leaf_count != 0 ==> after.crit_ok(after.header.root_node, after.height()),
{
    let root = before.header.root_node;
    let kb = before.height();
    let n = before.key_walk_len(key);
    assert(before.key_walk_ok(root, key, n));
    if n > 0 {
        let p = before.key_parent(key);
        let c = before.key_leaf(key);
        let o = before.key_sibling(key);
        Slab::lemma_removed_slots(before, after, key, r);
        let i = before.lemma_removal_path(&after, root, key, n, kb, true, p, c, o);
        before.lemma_removal_path_wf(&after, root, key, n, kb, p, c, o);
        assert(after.header.root_node == root);
        if after.header.leaf_count != 0 {
            let ka = after.height();
            if ka <= kb {
                after.lemma_deeper_keys(root, true, ka, kb);
            } else {
                after.lemma_deeper_keys(root, true, kb, ka);
            }
        }
    }
}

} // verus!
