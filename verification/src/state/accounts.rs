//! Reading and writing the orderbook's accounts. A slab account holds a tag
//! (its first byte), a header at byte 8, then the leaves, the inner nodes and
//! the callback information of the leaves; the numbers are little-endian.
use crate::error::AccountError;
use crate::state::critbit::{InnerNode, LeafNode, Slab, SlabHeader};
use crate::state::event_queue::{EventQueue, EventQueueHeader, FillEvent};
use crate::state::market_state::MarketState;
use crate::state::orderbook::OrderBookState;
use crate::state::layout::{
    array32, le_u128, le_u32, le_u64, lemma_array32, read_bytes32, read_u128, read_u32, read_u64,
    lemma_written_keeps, lemma_written_subrange, write_bytes, write_u64, written, FixedBytes,
};
use crate::state::AccountTag;
use vstd::bytes::*;
use vstd::prelude::*;

verus! {

// ------------------------------------------------------------------------
// Nodes and headers.
/// The bytes that store a leaf: its key, then its base quantity.
pub open spec fn spec_leaf_bytes(l: LeafNode) -> Seq<u8> {
    spec_u128_to_le_bytes(l.key) + spec_u64_to_le_bytes(l.base_quantity)
}

/// The leaf stored in `t`.
pub open spec fn spec_read_leaf(t: Seq<u8>) -> LeafNode {
    LeafNode { key: le_u128(t, 0), base_quantity: le_u64(t, 16) }
}

/// The bytes that store an inner node: its key, its prefix length, then its
/// two children.
pub open spec fn spec_inner_bytes(n: InnerNode) -> Seq<u8> {
    spec_u128_to_le_bytes(n.key) + spec_u64_to_le_bytes(n.prefix_len) + spec_u32_to_le_bytes(
        n.children[0],
    ) + spec_u32_to_le_bytes(n.children[1])
}

/// The inner node stored in `t`.
pub open spec fn spec_read_inner(t: Seq<u8>) -> InnerNode {
    InnerNode {
        key: le_u128(t, 0),
        prefix_len: le_u64(t, 16),
        children: [le_u32(t, 24), le_u32(t, 28)],
    }
}

/// The bytes that store a slab header, its fields in order.
pub open spec fn spec_header_bytes(h: SlabHeader) -> Seq<u8> {
    spec_u64_to_le_bytes(h.callback_free_list_len) + spec_u64_to_le_bytes(
        h.callback_free_list_head,
    ) + spec_u32_to_le_bytes(h.leaf_free_list_len) + spec_u32_to_le_bytes(h.leaf_free_list_head)
        + spec_u32_to_le_bytes(h.leaf_bump_index) + spec_u32_to_le_bytes(
        h.inner_node_free_list_len,
    ) + spec_u32_to_le_bytes(h.inner_node_free_list_head) + spec_u32_to_le_bytes(
        h.inner_node_bump_index,
    ) + spec_u32_to_le_bytes(h.root_node) + spec_u32_to_le_bytes(h.leaf_count)
        + h.market_address@
}

/// The slab header stored in `t`.
pub open spec fn spec_read_header(t: Seq<u8>) -> SlabHeader {
    SlabHeader {
        callback_free_list_len: le_u64(t, 0),
        callback_free_list_head: le_u64(t, 8),
        leaf_free_list_len: le_u32(t, 16),
        leaf_free_list_head: le_u32(t, 20),
        leaf_bump_index: le_u32(t, 24),
        inner_node_free_list_len: le_u32(t, 28),
        inner_node_free_list_head: le_u32(t, 32),
        inner_node_bump_index: le_u32(t, 36),
        root_node: le_u32(t, 40),
        leaf_count: le_u32(t, 44),
        market_address: array32(t.subrange(48, 80)),
    }
}

#[verifier::spinoff_prover]
proof fn lemma_int_bytes()
    ensures
        forall|x: u32|
            #![trigger spec_u32_to_le_bytes(x)]
            spec_u32_to_le_bytes(x).len() == 4 && spec_u32_from_le_bytes(spec_u32_to_le_bytes(x))
                == x,
        forall|x: u64|
            #![trigger spec_u64_to_le_bytes(x)]
            spec_u64_to_le_bytes(x).len() == 8 && spec_u64_from_le_bytes(spec_u64_to_le_bytes(x))
                == x,
        forall|x: u128|
            #![trigger spec_u128_to_le_bytes(x)]
            spec_u128_to_le_bytes(x).len() == 16 && spec_u128_from_le_bytes(
                spec_u128_to_le_bytes(x),
            ) == x,
{
    assert forall|x: u32| #![trigger spec_u32_to_le_bytes(x)]
        spec_u32_to_le_bytes(x).len() == 4 && spec_u32_from_le_bytes(spec_u32_to_le_bytes(x))
            == x by {
        lemma_auto_spec_u32_to_from_le_bytes();
    }
    assert forall|x: u64| #![trigger spec_u64_to_le_bytes(x)]
        spec_u64_to_le_bytes(x).len() == 8 && spec_u64_from_le_bytes(spec_u64_to_le_bytes(x))
            == x by {
        lemma_auto_spec_u64_to_from_le_bytes();
    }
    assert forall|x: u128| #![trigger spec_u128_to_le_bytes(x)]
        spec_u128_to_le_bytes(x).len() == 16 && spec_u128_from_le_bytes(
            spec_u128_to_le_bytes(x),
        ) == x by {
        lemma_auto_spec_u128_to_from_le_bytes();
    }
}

/// A stored leaf reads back as itself.
pub proof fn lemma_leaf_bytes(l: LeafNode)
    ensures
        spec_leaf_bytes(l).len() == 24,
        spec_read_leaf(spec_leaf_bytes(l)) == l,
{
    lemma_int_bytes();
    let t = spec_leaf_bytes(l);
    assert(t.subrange(0, 16) =~= spec_u128_to_le_bytes(l.key));
    assert(t.subrange(16, 24) =~= spec_u64_to_le_bytes(l.base_quantity));
}

/// A stored inner node reads back as itself.
pub proof fn lemma_inner_bytes(n: InnerNode)
    ensures
        spec_inner_bytes(n).len() == 32,
        spec_read_inner(spec_inner_bytes(n)) == n,
{
    lemma_int_bytes();
    let t = spec_inner_bytes(n);
    assert(t.subrange(0, 16) =~= spec_u128_to_le_bytes(n.key));
    assert(t.subrange(16, 24) =~= spec_u64_to_le_bytes(n.prefix_len));
    assert(t.subrange(24, 28) =~= spec_u32_to_le_bytes(n.children[0]));
    assert(t.subrange(28, 32) =~= spec_u32_to_le_bytes(n.children[1]));
    let r = spec_read_inner(t);
    assert(r.children[0] == n.children[0]);
    assert(r.children[1] == n.children[1]);
    assert(r.children =~= n.children);
}

/// A stored slab header reads back as itself.
pub proof fn lemma_header_bytes(h: SlabHeader)
    ensures
        spec_header_bytes(h).len() == 80,
        spec_read_header(spec_header_bytes(h)) == h,
{
    lemma_int_bytes();
    let t = spec_header_bytes(h);
    assert(t.subrange(0, 8) =~= spec_u64_to_le_bytes(h.callback_free_list_len));
    assert(t.subrange(8, 16) =~= spec_u64_to_le_bytes(h.callback_free_list_head));
    assert(t.subrange(16, 20) =~= spec_u32_to_le_bytes(h.leaf_free_list_len));
    assert(t.subrange(20, 24) =~= spec_u32_to_le_bytes(h.leaf_free_list_head));
    assert(t.subrange(24, 28) =~= spec_u32_to_le_bytes(h.leaf_bump_index));
    assert(t.subrange(28, 32) =~= spec_u32_to_le_bytes(h.inner_node_free_list_len));
    assert(t.subrange(32, 36) =~= spec_u32_to_le_bytes(h.inner_node_free_list_head));
    assert(t.subrange(36, 40) =~= spec_u32_to_le_bytes(h.inner_node_bump_index));
    assert(t.subrange(40, 44) =~= spec_u32_to_le_bytes(h.root_node));
    assert(t.subrange(44, 48) =~= spec_u32_to_le_bytes(h.leaf_count));
    assert(t.subrange(48, 80) =~= h.market_address@);
    lemma_array32(h.market_address);
}

/// Reads the leaf stored at `off`.
pub fn read_leaf(buf: &[u8], off: usize) -> (r: LeafNode)
    requires
        off + 24 <= buf.len(),
    ensures
        r == spec_read_leaf(buf@.subrange(off as int, off + 24)),
{
    let t = Ghost(buf@.subrange(off as int, off + 24));
    assert(t@.subrange(0, 16) =~= buf@.subrange(off as int, off + 16));
    assert(t@.subrange(16, 24) =~= buf@.subrange(off + 16, off + 24));
    LeafNode { key: read_u128(buf, off), base_quantity: read_u64(buf, off + 16) }
}

/// Reads the inner node stored at `off`.
pub fn read_inner(buf: &[u8], off: usize) -> (r: InnerNode)
    requires
        off + 32 <= buf.len(),
    ensures
        r == spec_read_inner(buf@.subrange(off as int, off + 32)),
{
    let t = Ghost(buf@.subrange(off as int, off + 32));
    assert(t@.subrange(0, 16) =~= buf@.subrange(off as int, off + 16));
    assert(t@.subrange(16, 24) =~= buf@.subrange(off + 16, off + 24));
    assert(t@.subrange(24, 28) =~= buf@.subrange(off + 24, off + 28));
    assert(t@.subrange(28, 32) =~= buf@.subrange(off + 28, off + 32));
    let key = read_u128(buf, off);
    let prefix_len = read_u64(buf, off + 16);
    let c0 = read_u32(buf, off + 24);
    let c1 = read_u32(buf, off + 28);
    let r = InnerNode { key, prefix_len, children: [c0, c1] };
    assert(r.children@ =~= spec_read_inner(t@).children@);
    r
}

/// Reads the slab header stored at `off`.
pub fn read_header(buf: &[u8], off: usize) -> (r: SlabHeader)
    requires
        off + 80 <= buf.len(),
    ensures
        r == spec_read_header(buf@.subrange(off as int, off + 80)),
{
    let t = Ghost(buf@.subrange(off as int, off + 80));
    assert(t@.subrange(0, 8) =~= buf@.subrange(off as int, off + 8));
    assert(t@.subrange(8, 16) =~= buf@.subrange(off + 8, off + 16));
    assert(t@.subrange(16, 20) =~= buf@.subrange(off + 16, off + 20));
    assert(t@.subrange(20, 24) =~= buf@.subrange(off + 20, off + 24));
    assert(t@.subrange(24, 28) =~= buf@.subrange(off + 24, off + 28));
    assert(t@.subrange(28, 32) =~= buf@.subrange(off + 28, off + 32));
    assert(t@.subrange(32, 36) =~= buf@.subrange(off + 32, off + 36));
    assert(t@.subrange(36, 40) =~= buf@.subrange(off + 36, off + 40));
    assert(t@.subrange(40, 44) =~= buf@.subrange(off + 40, off + 44));
    assert(t@.subrange(44, 48) =~= buf@.subrange(off + 44, off + 48));
    assert(t@.subrange(48, 80) =~= buf@.subrange(off + 48, off + 80));
    let market_address = read_bytes32(buf, off + 48);
    proof {
        lemma_array32(market_address);
    }
    SlabHeader {
        callback_free_list_len: read_u64(buf, off),
        callback_free_list_head: read_u64(buf, off + 8),
        leaf_free_list_len: read_u32(buf, off + 16),
        leaf_free_list_head: read_u32(buf, off + 20),
        leaf_bump_index: read_u32(buf, off + 24),
        inner_node_free_list_len: read_u32(buf, off + 28),
        inner_node_free_list_head: read_u32(buf, off + 32),
        inner_node_bump_index: read_u32(buf, off + 36),
        root_node: read_u32(buf, off + 40),
        leaf_count: read_u32(buf, off + 44),
        market_address,
    }
}

/// The bytes that store a leaf.
pub fn leaf_bytes(l: &LeafNode) -> (r: Vec<u8>)
    ensures
        r@ == spec_leaf_bytes(*l),
{
    let mut v = u128_to_le_bytes(l.key);
    let mut b = u64_to_le_bytes(l.base_quantity);
    v.append(&mut b);
    v
}

/// The bytes that store an inner node.
pub fn inner_bytes(n: &InnerNode) -> (r: Vec<u8>)
    ensures
        r@ == spec_inner_bytes(*n),
{
    let mut v = u128_to_le_bytes(n.key);
    let mut b = u64_to_le_bytes(n.prefix_len);
    v.append(&mut b);
    let mut c0 = u32_to_le_bytes(n.children[0]);
    v.append(&mut c0);
    let mut c1 = u32_to_le_bytes(n.children[1]);
    v.append(&mut c1);
    v
}

/// The bytes that store a slab header.
pub fn header_bytes(h: &SlabHeader) -> (r: Vec<u8>)
    ensures
        r@ == spec_header_bytes(*h),
{
    let mut v = u64_to_le_bytes(h.callback_free_list_len);
    let mut b = u64_to_le_bytes(h.callback_free_list_head);
    v.append(&mut b);
    let mut b = u32_to_le_bytes(h.leaf_free_list_len);
    v.append(&mut b);
    let mut b = u32_to_le_bytes(h.leaf_free_list_head);
    v.append(&mut b);
    let mut b = u32_to_le_bytes(h.leaf_bump_index);
    v.append(&mut b);
    let mut b = u32_to_le_bytes(h.inner_node_free_list_len);
    v.append(&mut b);
    let mut b = u32_to_le_bytes(h.inner_node_free_list_head);
    v.append(&mut b);
    let mut b = u32_to_le_bytes(h.inner_node_bump_index);
    v.append(&mut b);
    let mut b = u32_to_le_bytes(h.root_node);
    v.append(&mut b);
    let mut b = u32_to_le_bytes(h.leaf_count);
    v.append(&mut b);
    let mut m = vstd::slice::slice_to_vec(h.market_address.as_slice());
    v.append(&mut m);
    v
}

// ------------------------------------------------------------------------
// Slabs.
/// The number of inner nodes of a slab stored in `len` bytes whose callback
/// information takes `cs` bytes: after the tag, the header and one leaf with
/// its callback information, each further order takes a leaf, an inner node
/// and a callback information.
pub open spec fn slab_capacity(len: int, cs: int) -> int {
    (len - 88 - (32 + cs)) / (32 + cs + 32)
}

/// Where the inner nodes of a slab stored in `len` bytes start.
pub open spec fn slab_inner_offset(len: int, cs: int) -> int {
    88 + 32 * (slab_capacity(len, cs) + 1)
}

/// Where the callback information of a slab stored in `len` bytes starts.
pub open spec fn slab_callback_offset(len: int, cs: int) -> int {
    slab_inner_offset(len, cs) + 32 * slab_capacity(len, cs)
}

/// The number of callback informations of a slab stored in `len` bytes.
pub open spec fn slab_callback_count(len: int, cs: int) -> int {
    (len - slab_callback_offset(len, cs)) / cs
}

/// `len` bytes can hold a slab: the tag, the header and at least one leaf
/// with its callback information, and the callback informations fill the
/// rest exactly.
pub open spec fn slab_buffer_ok<C: FixedBytes>(len: int) -> bool {
    let cs = C::spec_size() as int;
    &&& len >= 88 + 32 + cs
    &&& (len - slab_callback_offset(len, cs)) % cs == 0
}

/// Whether `len` bytes can hold a slab whose callback information is a `C`.
pub fn slab_buffer_fits<C: FixedBytes>(len: usize) -> (r: bool)
    ensures
        r == slab_buffer_ok::<C>(len as int),
{
    let cs = C::size();
    if len < 88 + 32 || len - (88 + 32) < cs {
        return false;
    }
    proof {
        lemma_slab_layout(len as int, cs as int);
    }
    let capacity = (len - 88 - (32 + cs)) / (32 + cs + 32);
    let callback_offset = 88 + 32 * (capacity + 1) + 32 * capacity;
    (len - callback_offset) % cs == 0
}

/// `slab` is what the bytes `s` store.
pub open spec fn is_slab_bytes<C: FixedBytes>(slab: Slab<C>, s: Seq<u8>) -> bool {
    let cs = C::spec_size() as int;
    let cap = slab_capacity(s.len() as int, cs);
    let io = slab_inner_offset(s.len() as int, cs);
    let co = slab_callback_offset(s.len() as int, cs);
    &&& slab.header == spec_read_header(s.subrange(8, 88))
    &&& slab.leaf_nodes@.len() == cap + 1
    &&& forall|i: int|
        0 <= i <= cap ==> #[trigger] slab.leaf_nodes@[i] == spec_read_leaf(
            s.subrange(88 + 32 * i, 88 + 32 * i + 24),
        )
    &&& slab.inner_nodes@.len() == cap
    &&& forall|i: int|
        0 <= i < cap ==> #[trigger] slab.inner_nodes@[i] == spec_read_inner(
            s.subrange(io + 32 * i, io + 32 * i + 32),
        )
    &&& slab.callback_infos@.len() == slab_callback_count(s.len() as int, cs)
    &&& forall|i: int|
        0 <= i < slab.callback_infos@.len() ==> #[trigger] slab.callback_infos@[i]
            == C::spec_from_bytes(s.subrange(co + i * cs, co + i * cs + cs))
}

/// The parts of a slab buffer fit in it, in order, and there is a callback
/// information for every leaf.
pub proof fn lemma_slab_layout(len: int, cs: int)
    requires
        cs > 0,
        len >= 88 + 32 + cs,
    ensures
        0 <= slab_capacity(len, cs),
        slab_callback_offset(len, cs) == 120 + 64 * slab_capacity(len, cs),
        slab_callback_offset(len, cs) + (slab_capacity(len, cs) + 1) * cs <= len,
        slab_callback_count(len, cs) >= slab_capacity(len, cs) + 1,
        slab_callback_offset(len, cs) + slab_callback_count(len, cs) * cs <= len,
{
    let cap = slab_capacity(len, cs);
    let m = len - 88 - (32 + cs);
    vstd::arithmetic::div_mod::lemma_fundamental_div_mod(m, 64 + cs);
    vstd::arithmetic::div_mod::lemma_mod_pos_bound(m, 64 + cs);
    vstd::arithmetic::div_mod::lemma_div_pos_is_pos(m, 64 + cs);
    assert(cap * (64 + cs) <= m) by (nonlinear_arith)
        requires
            m == (64 + cs) * cap + m % (64 + cs),
            m % (64 + cs) >= 0,
    ;
    assert(cap * (64 + cs) == 64 * cap + cap * cs) by (nonlinear_arith);
    assert((cap + 1) * cs == cap * cs + cs) by (nonlinear_arith);
    let co = slab_callback_offset(len, cs);
    let rest = len - co;
    vstd::arithmetic::div_mod::lemma_fundamental_div_mod(rest, cs);
    vstd::arithmetic::div_mod::lemma_mod_pos_bound(rest, cs);
    let cnt = rest / cs;
    assert(cnt * cs <= rest) by (nonlinear_arith)
        requires
            rest == cs * cnt + rest % cs,
            rest % cs >= 0,
    ;
    vstd::arithmetic::div_mod::lemma_div_is_ordered((cap + 1) * cs, rest, cs);
    vstd::arithmetic::div_mod::lemma_div_multiples_vanish(cap + 1, cs);
    vstd::arithmetic::mul::lemma_mul_is_commutative(cap + 1, cs);
}

proof fn lemma_mul_step(i: int, n: int, cs: int)
    requires
        0 <= i < n,
        cs > 0,
    ensures
        i * cs + cs == (i + 1) * cs,
        (i + 1) * cs <= n * cs,
        0 <= i * cs,
{
    assert(i * cs + cs == (i + 1) * cs) by (nonlinear_arith);
    vstd::arithmetic::mul::lemma_mul_inequality(i + 1, n, cs);
    vstd::arithmetic::mul::lemma_mul_nonnegative(i, cs);
}

impl<C: FixedBytes> Slab<C> {
    /// The byte size of a slab account that holds `desired_order_capacity`
    /// orders.
    pub open spec fn spec_allocation_size(desired_order_capacity: int) -> int {
        8 + 80 + 32 + C::spec_size() + (desired_order_capacity - 1) * (32 + 32 + C::spec_size())
    }

    /// The byte size of a slab account that holds `desired_order_capacity`
    /// orders.
    pub fn compute_allocation_size(desired_order_capacity: usize) -> (r: usize)
        requires
            desired_order_capacity >= 1,
            Self::spec_allocation_size(desired_order_capacity as int) <= usize::MAX,
        ensures
            r == Self::spec_allocation_size(desired_order_capacity as int),
    {
        let cs = C::size();
        proof {
            assert((desired_order_capacity - 1) * (64 + cs) >= 0) by (nonlinear_arith)
                requires
                    desired_order_capacity >= 1,
            ;
        }
        SlabHeader::LEN + 8 + LeafNode::LEN + cs + (desired_order_capacity - 1) * (LeafNode::LEN
            + InnerNode::LEN + cs)
    }

    /// Reads a slab from the bytes of its account, whose tag must be
    /// `expected_tag`.
    pub fn from_buffer(buf: &[u8], expected_tag: AccountTag) -> (r: Result<Self, AccountError>)
        requires
            slab_buffer_ok::<C>(buf@.len() as int),
        ensures
            r is Err <==> buf@[0] != expected_tag.spec_as_u8(),
            r is Err ==> r == Err::<Self, AccountError>(AccountError::InvalidAccountData),
            r matches Ok(slab) ==> is_slab_bytes(slab, buf@),
            r matches Ok(slab) ==> (slab.header.is_fresh() && slab.leaf_nodes.len() <= 0x8000_0000
                ==> slab.wf() && slab.orders() == Map::<u128, (u64, C)>::empty()),
    {
        let callback_info_len = C::size();
        let buf_len = buf.len();
        let ghost len = buf_len as int;
        let ghost cs = callback_info_len as int;
        proof {
            lemma_slab_layout(len, cs);
        }
        let leaf_size = LeafNode::LEN + callback_info_len;
        let capacity = (buf.len() - SlabHeader::LEN - 8 - leaf_size) / (leaf_size
            + InnerNode::LEN);
        if buf[0] != expected_tag.as_u8() {
            return Err(AccountError::InvalidAccountData);
        }
        let header = read_header(buf, 8);
        let mut leaf_nodes: Vec<LeafNode> = Vec::new();
        let mut i: usize = 0;
        while i <= capacity
            invariant
                capacity == slab_capacity(len, cs),
                len == buf@.len(),
                len <= usize::MAX,
                120 + 64 * capacity <= len,
                slab_callback_offset(len, cs) == 120 + 64 * capacity,
                slab_callback_offset(len, cs) + (capacity + 1) * cs <= len,
                cs > 0,
                0 <= i <= capacity + 1,
                leaf_nodes@.len() == i,
                forall|k: int|
                    0 <= k < i ==> #[trigger] leaf_nodes@[k] == spec_read_leaf(
                        buf@.subrange(88 + 32 * k, 88 + 32 * k + 24),
                    ),
            decreases capacity + 1 - i,
        {
            let l = read_leaf(buf, 88 + 32 * i);
            leaf_nodes.push(l);
            i = i + 1;
        }
        let inner_offset = 88 + 32 * (capacity + 1);
        let mut inner_nodes: Vec<InnerNode> = Vec::new();
        let mut i: usize = 0;
        while i < capacity
            invariant
                capacity == slab_capacity(len, cs),
                inner_offset == slab_inner_offset(len, cs),
                len == buf@.len(),
                len <= usize::MAX,
                120 + 64 * capacity <= len,
                slab_callback_offset(len, cs) == 120 + 64 * capacity,
                slab_callback_offset(len, cs) + (capacity + 1) * cs <= len,
                cs > 0,
                0 <= i <= capacity,
                inner_nodes@.len() == i,
                forall|k: int|
                    0 <= k < i ==> #[trigger] inner_nodes@[k] == spec_read_inner(
                        buf@.subrange(inner_offset + 32 * k, inner_offset + 32 * k + 32),
                    ),
            decreases capacity - i,
        {
            let n = read_inner(buf, inner_offset + 32 * i);
            inner_nodes.push(n);
            i = i + 1;
        }
        let callback_offset = inner_offset + 32 * capacity;
        let count = (buf.len() - callback_offset) / callback_info_len;
        let mut callback_infos: Vec<C> = Vec::new();
        let mut i: usize = 0;
        let mut off = callback_offset;
        while i < count
            invariant
                callback_offset == slab_callback_offset(len, cs),
                count == slab_callback_count(len, cs),
                callback_offset + count * cs <= len,
                len == buf@.len(),
                len <= usize::MAX,
                120 + 64 * capacity <= len,
                cs == C::spec_size(),
                cs == callback_info_len,
                cs > 0,
                0 <= i <= count,
                off == callback_offset + i * cs,
                callback_infos@.len() == i,
                forall|k: int|
                    0 <= k < i ==> #[trigger] callback_infos@[k] == C::spec_from_bytes(
                        buf@.subrange(callback_offset + k * cs, callback_offset + k * cs + cs),
                    ),
            decreases count - i,
        {
            proof {
                lemma_mul_step(i as int, count as int, cs);
            }
            let c = C::from_bytes(vstd::slice::slice_subrange(buf, off, off + callback_info_len));
            callback_infos.push(c);
            off = off + callback_info_len;
            i = i + 1;
        }
        let slab = Slab { header, leaf_nodes, inner_nodes, callback_infos };
        proof {
            if slab.header.is_fresh() && slab.leaf_nodes.len() <= 0x8000_0000 {
                slab.lemma_fresh_slab();
            }
        }
        Ok(slab)
    }

    /// Writes the slab into the bytes of its account, whose size gives it
    /// its capacity. The tag is left as it is.
    pub fn write_to(&self, buf: &mut [u8])
        requires
            slab_buffer_ok::<C>(old(buf)@.len() as int),
            self.leaf_nodes@.len() == slab_capacity(old(buf)@.len() as int, C::spec_size() as int)
                + 1,
            self.inner_nodes@.len() == slab_capacity(
                old(buf)@.len() as int,
                C::spec_size() as int,
            ),
            self.callback_infos@.len() == slab_callback_count(
                old(buf)@.len() as int,
                C::spec_size() as int,
            ),
        ensures
            final(buf)@.len() == old(buf)@.len(),
            final(buf)@.subrange(0, 8) == old(buf)@.subrange(0, 8),
            is_slab_bytes(*self, final(buf)@),
    {
        let buf_len = buf.len();
        let ghost len = buf_len as int;
        let ghost cs = C::spec_size() as int;
        let ghost b0 = buf@;
        let cs_exec = C::size();
        proof {
            lemma_slab_layout(len, cs);
            lemma_header_bytes(self.header);
        }
        let hb = header_bytes(&self.header);
        write_bytes(buf, 8, hb.as_slice());
        proof {
            lemma_written_subrange(b0, buf@, 8, hb@);
            lemma_written_keeps(b0, buf@, 8, hb@, 0, 8);
        }
        let capacity = self.inner_nodes.len();
        let mut i: usize = 0;
        while i < self.leaf_nodes.len()
            invariant
                capacity == slab_capacity(len, cs),
                self.leaf_nodes@.len() == capacity + 1,
                len == buf@.len(),
                len <= usize::MAX,
                120 + 64 * capacity <= len,
                slab_callback_offset(len, cs) == 120 + 64 * capacity,
                0 <= i <= capacity + 1,
                buf@.subrange(0, 8) == b0.subrange(0, 8),
                buf@.subrange(8, 88) == spec_header_bytes(self.header),
                forall|k: int|
                    0 <= k < i ==> #[trigger] buf@.subrange(88 + 32 * k, 88 + 32 * k + 24)
                        == spec_leaf_bytes(self.leaf_nodes@[k]),
            decreases capacity + 1 - i,
        {
            let ghost prev = buf@;
            let lb = leaf_bytes(&self.leaf_nodes[i]);
            proof {
                lemma_leaf_bytes(self.leaf_nodes@[i as int]);
            }
            write_bytes(buf, 88 + 32 * i, lb.as_slice());
            proof {
                let off = 88 + 32 * i;
                lemma_written_subrange(prev, buf@, off, lb@);
                lemma_written_keeps(prev, buf@, off, lb@, 0, 8);
                lemma_written_keeps(prev, buf@, off, lb@, 8, 88);
                assert forall|k: int| 0 <= k < i + 1 implies #[trigger] buf@.subrange(
                    88 + 32 * k,
                    88 + 32 * k + 24,
                ) == spec_leaf_bytes(self.leaf_nodes@[k]) by {
                    if k < i {
                        lemma_written_keeps(prev, buf@, off, lb@, 88 + 32 * k, 88 + 32 * k + 24);
                    }
                }
            }
            i = i + 1;
        }
        let inner_offset = 88 + 32 * (capacity + 1);
        let mut i: usize = 0;
        while i < capacity
            invariant
                capacity == slab_capacity(len, cs),
                self.leaf_nodes@.len() == capacity + 1,
                self.inner_nodes@.len() == capacity,
                inner_offset == slab_inner_offset(len, cs),
                len == buf@.len(),
                len <= usize::MAX,
                120 + 64 * capacity <= len,
                slab_callback_offset(len, cs) == 120 + 64 * capacity,
                0 <= i <= capacity,
                buf@.subrange(0, 8) == b0.subrange(0, 8),
                buf@.subrange(8, 88) == spec_header_bytes(self.header),
                forall|k: int|
                    0 <= k <= capacity ==> #[trigger] buf@.subrange(88 + 32 * k, 88 + 32 * k + 24)
                        == spec_leaf_bytes(self.leaf_nodes@[k]),
                forall|k: int|
                    0 <= k < i ==> #[trigger] buf@.subrange(
                        inner_offset + 32 * k,
                        inner_offset + 32 * k + 32,
                    ) == spec_inner_bytes(self.inner_nodes@[k]),
            decreases capacity - i,
        {
            let ghost prev = buf@;
            let nb = inner_bytes(&self.inner_nodes[i]);
            proof {
                lemma_inner_bytes(self.inner_nodes@[i as int]);
            }
            write_bytes(buf, inner_offset + 32 * i, nb.as_slice());
            proof {
                let off = inner_offset + 32 * i;
                lemma_written_subrange(prev, buf@, off, nb@);
                lemma_written_keeps(prev, buf@, off, nb@, 0, 8);
                lemma_written_keeps(prev, buf@, off, nb@, 8, 88);
                assert forall|k: int| 0 <= k <= capacity implies #[trigger] buf@.subrange(
                    88 + 32 * k,
                    88 + 32 * k + 24,
                ) == spec_leaf_bytes(self.leaf_nodes@[k]) by {
                    lemma_written_keeps(prev, buf@, off, nb@, 88 + 32 * k, 88 + 32 * k + 24);
                }
                assert forall|k: int| 0 <= k < i + 1 implies #[trigger] buf@.subrange(
                    inner_offset + 32 * k,
                    inner_offset + 32 * k + 32,
                ) == spec_inner_bytes(self.inner_nodes@[k]) by {
                    if k < i {
                        lemma_written_keeps(
                            prev,
                            buf@,
                            off,
                            nb@,
                            inner_offset + 32 * k,
                            inner_offset + 32 * k + 32,
                        );
                    }
                }
            }
            i = i + 1;
        }
        let callback_offset = inner_offset + 32 * capacity;
        let count = self.callback_infos.len();
        let mut i: usize = 0;
        let mut off = callback_offset;
        while i < count
            invariant
                capacity == slab_capacity(len, cs),
                self.leaf_nodes@.len() == capacity + 1,
                self.inner_nodes@.len() == capacity,
                self.callback_infos@.len() == count,
                inner_offset == slab_inner_offset(len, cs),
                callback_offset == slab_callback_offset(len, cs),
                count == slab_callback_count(len, cs),
                callback_offset + count * cs <= len,
                callback_offset == 120 + 64 * capacity,
                len == buf@.len(),
                len <= usize::MAX,
                120 + 64 * capacity <= len,
                cs == C::spec_size(),
                cs == cs_exec,
                cs > 0,
                0 <= i <= count,
                off == callback_offset + i * cs,
                buf@.subrange(0, 8) == b0.subrange(0, 8),
                buf@.subrange(8, 88) == spec_header_bytes(self.header),
                forall|k: int|
                    0 <= k <= capacity ==> #[trigger] buf@.subrange(88 + 32 * k, 88 + 32 * k + 24)
                        == spec_leaf_bytes(self.leaf_nodes@[k]),
                forall|k: int|
                    0 <= k < capacity ==> #[trigger] buf@.subrange(
                        inner_offset + 32 * k,
                        inner_offset + 32 * k + 32,
                    ) == spec_inner_bytes(self.inner_nodes@[k]),
                forall|k: int|
                    0 <= k < i ==> #[trigger] buf@.subrange(
                        callback_offset + k * cs,
                        callback_offset + k * cs + cs,
                    ) == self.callback_infos@[k].spec_to_bytes(),
            decreases count - i,
        {
            let ghost prev = buf@;
            proof {
                lemma_mul_step(i as int, count as int, cs);
                C::lemma_bytes(self.callback_infos@[i as int]);
            }
            let cb = self.callback_infos[i].to_bytes();
            write_bytes(buf, off, cb.as_slice());
            proof {
                lemma_written_subrange(prev, buf@, off as int, cb@);
                lemma_written_keeps(prev, buf@, off as int, cb@, 0, 8);
                lemma_written_keeps(prev, buf@, off as int, cb@, 8, 88);
                assert forall|k: int| 0 <= k <= capacity implies #[trigger] buf@.subrange(
                    88 + 32 * k,
                    88 + 32 * k + 24,
                ) == spec_leaf_bytes(self.leaf_nodes@[k]) by {
                    lemma_written_keeps(prev, buf@, off as int, cb@, 88 + 32 * k, 88 + 32 * k + 24);
                }
                assert forall|k: int| 0 <= k < capacity implies #[trigger] buf@.subrange(
                    inner_offset + 32 * k,
                    inner_offset + 32 * k + 32,
                ) == spec_inner_bytes(self.inner_nodes@[k]) by {
                    lemma_written_keeps(
                        prev,
                        buf@,
                        off as int,
                        cb@,
                        inner_offset + 32 * k,
                        inner_offset + 32 * k + 32,
                    );
                }
                assert forall|k: int| 0 <= k < i + 1 implies #[trigger] buf@.subrange(
                    callback_offset + k * cs,
                    callback_offset + k * cs + cs,
                ) == self.callback_infos@[k].spec_to_bytes() by {
                    if k < i {
                        lemma_mul_step(k, i as int, cs);
                        lemma_written_keeps(
                            prev,
                            buf@,
                            off as int,
                            cb@,
                            callback_offset + k * cs,
                            callback_offset + k * cs + cs,
                        );
                    }
                }
            }
            off = off + cs_exec;
            i = i + 1;
        }
        proof {
            lemma_header_bytes(self.header);
            assert forall|k: int| 0 <= k <= capacity implies #[trigger] self.leaf_nodes@[k]
                == spec_read_leaf(buf@.subrange(88 + 32 * k, 88 + 32 * k + 24)) by {
                lemma_leaf_bytes(self.leaf_nodes@[k]);
            }
            assert forall|k: int| 0 <= k < capacity implies #[trigger] self.inner_nodes@[k]
                == spec_read_inner(
                buf@.subrange(inner_offset + 32 * k, inner_offset + 32 * k + 32),
            ) by {
                lemma_inner_bytes(self.inner_nodes@[k]);
            }
            assert forall|k: int| 0 <= k < count implies #[trigger] self.callback_infos@[k]
                == C::spec_from_bytes(
                buf@.subrange(callback_offset + k * cs, callback_offset + k * cs + cs),
            ) by {
                C::lemma_bytes(self.callback_infos@[k]);
            }
        }
    }
}

impl<C> Slab<C> {
    /// Marks fresh asks and bids accounts as such and writes the market's
    /// address into their headers. Accounts whose tag is not zero are
    /// already initialized and are left as they are.
    pub fn initialize(asks_data: &mut [u8], bids_data: &mut [u8], market_address: [u8; 32]) -> (r:
        Result<(), AccountError>)
        requires
            old(asks_data)@.len() >= 88,
            old(bids_data)@.len() >= 88,
        ensures
            r is Err <==> old(asks_data)@[0] != 0 || old(bids_data)@[0] != 0,
            r is Err ==> r == Err::<(), AccountError>(AccountError::AccountAlreadyInitialized)
                && final(asks_data)@ == old(asks_data)@ && final(bids_data)@ == old(bids_data)@,
            r is Ok ==> {
                &&& final(asks_data)@.len() == old(asks_data)@.len()
                &&& final(asks_data)@[0] == AccountTag::Asks.spec_as_u8()
                &&& final(asks_data)@.subrange(56, 88) == market_address@
                &&& forall|j: int|
                    1 <= j < 56 || 88 <= j < old(asks_data)@.len()
                        ==> #[trigger] final(asks_data)@[j] == old(asks_data)@[j]
                &&& final(bids_data)@.len() == old(bids_data)@.len()
                &&& final(bids_data)@[0] == AccountTag::Bids.spec_as_u8()
                &&& final(bids_data)@.subrange(56, 88) == market_address@
                &&& forall|j: int|
                    1 <= j < 56 || 88 <= j < old(bids_data)@.len()
                        ==> #[trigger] final(bids_data)@[j] == old(bids_data)@[j]
            },
    {
        if asks_data[0] != AccountTag::Uninitialized.as_u8() || bids_data[0]
            != AccountTag::Uninitialized.as_u8() {
            return Err(AccountError::AccountAlreadyInitialized);
        }
        let ghost a0 = asks_data@;
        let ghost b0 = bids_data@;
        asks_data[0] = AccountTag::Asks.as_u8();
        let ghost a1 = asks_data@;
        write_bytes(asks_data, 8 + 48, market_address.as_slice());
        bids_data[0] = AccountTag::Bids.as_u8();
        let ghost b1 = bids_data@;
        write_bytes(bids_data, 8 + 48, market_address.as_slice());
        proof {
            lemma_written_subrange(a1, asks_data@, 56, market_address@);
            lemma_written_subrange(b1, bids_data@, 56, market_address@);
        }
        Ok(())
    }
}

// ------------------------------------------------------------------------
// Event queues.
/// The six bytes stored in `t`.
pub open spec fn array6(t: Seq<u8>) -> [u8; 6] {
    choose|a: [u8; 6]| a@ == t
}

proof fn lemma_array6(a: [u8; 6])
    ensures
        array6(a@) == a,
{
    let b = array6(a@);
    assert(b@ == a@);
    assert(b@ =~= a@);
}

/// The bytes that store an event: its tag, side and padding, then its quote
/// size, the maker's order id and its base size.
pub open spec fn spec_event_bytes(e: FillEvent) -> Seq<u8> {
    seq![e.tag, e.taker_side] + e._padding@ + spec_u64_to_le_bytes(e.quote_size)
        + spec_u128_to_le_bytes(e.maker_order_id) + spec_u64_to_le_bytes(e.base_size)
}

/// The event stored in `t`.
pub open spec fn spec_read_event(t: Seq<u8>) -> FillEvent {
    FillEvent {
        tag: t[0],
        taker_side: t[1],
        _padding: array6(t.subrange(2, 8)),
        quote_size: le_u64(t, 8),
        maker_order_id: le_u128(t, 16),
        base_size: le_u64(t, 32),
    }
}

/// The bytes that store an event queue header: head, count and sequence
/// number.
pub open spec fn spec_queue_header_bytes(h: EventQueueHeader) -> Seq<u8> {
    spec_u64_to_le_bytes(h.head) + spec_u64_to_le_bytes(h.count) + spec_u64_to_le_bytes(
        h.seq_num,
    )
}

/// The event queue header stored in `t`.
pub open spec fn spec_read_queue_header(t: Seq<u8>) -> EventQueueHeader {
    EventQueueHeader { head: le_u64(t, 0), count: le_u64(t, 8), seq_num: le_u64(t, 16) }
}

/// A stored event reads back as itself.
pub proof fn lemma_event_bytes(e: FillEvent)
    ensures
        spec_event_bytes(e).len() == 40,
        spec_read_event(spec_event_bytes(e)) == e,
{
    lemma_int_bytes();
    let t = spec_event_bytes(e);
    assert(t.subrange(2, 8) =~= e._padding@);
    assert(t.subrange(8, 16) =~= spec_u64_to_le_bytes(e.quote_size));
    assert(t.subrange(16, 32) =~= spec_u128_to_le_bytes(e.maker_order_id));
    assert(t.subrange(32, 40) =~= spec_u64_to_le_bytes(e.base_size));
    lemma_array6(e._padding);
}

/// A stored event queue header reads back as itself.
pub proof fn lemma_queue_header_bytes(h: EventQueueHeader)
    ensures
        spec_queue_header_bytes(h).len() == 24,
        spec_read_queue_header(spec_queue_header_bytes(h)) == h,
{
    lemma_int_bytes();
    let t = spec_queue_header_bytes(h);
    assert(t.subrange(0, 8) =~= spec_u64_to_le_bytes(h.head));
    assert(t.subrange(8, 16) =~= spec_u64_to_le_bytes(h.count));
    assert(t.subrange(16, 24) =~= spec_u64_to_le_bytes(h.seq_num));
}

/// Reads the event stored at `off`.
pub fn read_event(buf: &[u8], off: usize) -> (r: FillEvent)
    requires
        off + 40 <= buf.len(),
    ensures
        r == spec_read_event(buf@.subrange(off as int, off + 40)),
{
    let t = Ghost(buf@.subrange(off as int, off + 40));
    assert(t@.subrange(8, 16) =~= buf@.subrange(off + 8, off + 16));
    assert(t@.subrange(16, 32) =~= buf@.subrange(off + 16, off + 32));
    assert(t@.subrange(32, 40) =~= buf@.subrange(off + 32, off + 40));
    let padding = [
        buf[off + 2],
        buf[off + 3],
        buf[off + 4],
        buf[off + 5],
        buf[off + 6],
        buf[off + 7],
    ];
    proof {
        assert(padding@ =~= t@.subrange(2, 8));
        lemma_array6(padding);
    }
    FillEvent {
        tag: buf[off],
        taker_side: buf[off + 1],
        _padding: padding,
        quote_size: read_u64(buf, off + 8),
        maker_order_id: read_u128(buf, off + 16),
        base_size: read_u64(buf, off + 32),
    }
}

/// Reads the event queue header stored at `off`.
pub fn read_queue_header(buf: &[u8], off: usize) -> (r: EventQueueHeader)
    requires
        off + 24 <= buf.len(),
    ensures
        r == spec_read_queue_header(buf@.subrange(off as int, off + 24)),
{
    let t = Ghost(buf@.subrange(off as int, off + 24));
    assert(t@.subrange(0, 8) =~= buf@.subrange(off as int, off + 8));
    assert(t@.subrange(8, 16) =~= buf@.subrange(off + 8, off + 16));
    assert(t@.subrange(16, 24) =~= buf@.subrange(off + 16, off + 24));
    EventQueueHeader {
        head: read_u64(buf, off),
        count: read_u64(buf, off + 8),
        seq_num: read_u64(buf, off + 16),
    }
}

/// The bytes that store an event.
pub fn event_bytes(e: &FillEvent) -> (r: Vec<u8>)
    ensures
        r@ == spec_event_bytes(*e),
{
    let mut v: Vec<u8> = Vec::new();
    v.push(e.tag);
    v.push(e.taker_side);
    let mut p = vstd::slice::slice_to_vec(e._padding.as_slice());
    v.append(&mut p);
    let mut b = u64_to_le_bytes(e.quote_size);
    v.append(&mut b);
    let mut b = u128_to_le_bytes(e.maker_order_id);
    v.append(&mut b);
    let mut b = u64_to_le_bytes(e.base_size);
    v.append(&mut b);
    proof {
        assert(v@ =~= spec_event_bytes(*e));
    }
    v
}

/// The bytes that store an event queue header.
pub fn queue_header_bytes(h: &EventQueueHeader) -> (r: Vec<u8>)
    ensures
        r@ == spec_queue_header_bytes(*h),
{
    let mut v = u64_to_le_bytes(h.head);
    let mut b = u64_to_le_bytes(h.count);
    v.append(&mut b);
    let mut b = u64_to_le_bytes(h.seq_num);
    v.append(&mut b);
    v
}

/// The number of events of a queue stored in `len` bytes whose callback
/// information takes `cs` bytes: after the tag and the header, each event
/// takes its own bytes and two callback informations.
pub open spec fn queue_capacity(len: int, cs: int) -> int {
    (len - 8 - 24) / (48 + 2 * cs)
}

/// Where the callback information of a queue stored in `len` bytes starts.
pub open spec fn queue_callback_offset(len: int, cs: int) -> int {
    32 + 48 * queue_capacity(len, cs)
}

/// The number of callback informations of a queue stored in `len` bytes.
pub open spec fn queue_callback_count(len: int, cs: int) -> int {
    (len - queue_callback_offset(len, cs)) / cs
}

/// `len` bytes can hold an event queue: the tag and the header, and the
/// callback informations fill the rest exactly.
pub open spec fn queue_buffer_ok<C: FixedBytes>(len: int) -> bool {
    let cs = C::spec_size() as int;
    &&& len >= 32
    &&& 48 + 2 * cs <= usize::MAX
    &&& (len - queue_callback_offset(len, cs)) % cs == 0
}

/// Whether `len` bytes can hold an event queue whose callback information
/// is a `C`.
pub fn queue_buffer_fits<C: FixedBytes>(len: usize) -> (r: bool)
    ensures
        r == queue_buffer_ok::<C>(len as int),
{
    let cs = C::size();
    if len < 32 || cs > (usize::MAX - 48) / 2 {
        return false;
    }
    proof {
        lemma_queue_layout(len as int, cs as int);
    }
    let capacity = (len - 32) / (48 + 2 * cs);
    let callback_offset = 32 + 48 * capacity;
    (len - callback_offset) % cs == 0
}

/// `q` is what the bytes `s` store.
pub open spec fn is_queue_bytes<C: FixedBytes>(q: EventQueue<C>, s: Seq<u8>) -> bool {
    let cs = C::spec_size() as int;
    let cap = queue_capacity(s.len() as int, cs);
    let co = queue_callback_offset(s.len() as int, cs);
    &&& q.header == spec_read_queue_header(s.subrange(8, 32))
    &&& q.events@.len() == cap
    &&& forall|i: int|
        0 <= i < cap ==> #[trigger] q.events@[i] == spec_read_event(
            s.subrange(32 + 48 * i, 32 + 48 * i + 40),
        )
    &&& q.callback_infos@.len() == queue_callback_count(s.len() as int, cs)
    &&& forall|i: int|
        0 <= i < q.callback_infos@.len() ==> #[trigger] q.callback_infos@[i] == C::spec_from_bytes(
            s.subrange(co + i * cs, co + i * cs + cs),
        )
}

/// The parts of a queue buffer fit in it, in order, and there are two
/// callback informations for every event.
pub proof fn lemma_queue_layout(len: int, cs: int)
    requires
        cs > 0,
        len >= 32,
    ensures
        0 <= queue_capacity(len, cs),
        queue_callback_offset(len, cs) + 2 * queue_capacity(len, cs) * cs <= len,
        queue_callback_count(len, cs) >= 2 * queue_capacity(len, cs),
        queue_callback_offset(len, cs) + queue_callback_count(len, cs) * cs <= len,
{
    let cap = queue_capacity(len, cs);
    let m = len - 32;
    vstd::arithmetic::div_mod::lemma_fundamental_div_mod(m, 48 + 2 * cs);
    vstd::arithmetic::div_mod::lemma_mod_pos_bound(m, 48 + 2 * cs);
    vstd::arithmetic::div_mod::lemma_div_pos_is_pos(m, 48 + 2 * cs);
    assert(cap * (48 + 2 * cs) <= m) by (nonlinear_arith)
        requires
            m == (48 + 2 * cs) * cap + m % (48 + 2 * cs),
            m % (48 + 2 * cs) >= 0,
    ;
    assert(cap * (48 + 2 * cs) == 48 * cap + 2 * cap * cs) by (nonlinear_arith);
    let co = queue_callback_offset(len, cs);
    let rest = len - co;
    vstd::arithmetic::div_mod::lemma_fundamental_div_mod(rest, cs);
    vstd::arithmetic::div_mod::lemma_mod_pos_bound(rest, cs);
    let cnt = rest / cs;
    assert(cnt * cs <= rest) by (nonlinear_arith)
        requires
            rest == cs * cnt + rest % cs,
            rest % cs >= 0,
    ;
    assert(2 * cap * cs == (2 * cap) * cs) by (nonlinear_arith);
    vstd::arithmetic::div_mod::lemma_div_is_ordered((2 * cap) * cs, rest, cs);
    vstd::arithmetic::div_mod::lemma_div_multiples_vanish(2 * cap, cs);
    vstd::arithmetic::mul::lemma_mul_is_commutative(2 * cap, cs);
}

impl<C: FixedBytes> EventQueue<C> {
    /// Reads an event queue from the bytes of its account, whose tag, an
    /// eight-byte integer, must be `expected_tag`; the tag then becomes that
    /// of an event queue.
    pub fn from_buffer(buf: &mut [u8], expected_tag: AccountTag) -> (r: Result<
        Self,
        AccountError,
    >)
        requires
            queue_buffer_ok::<C>(old(buf)@.len() as int),
        ensures
            r is Err <==> le_u64(old(buf)@, 0) != expected_tag.spec_as_u8() as u64,
            r is Err ==> r == Err::<Self, AccountError>(AccountError::InvalidAccountData)
                && final(buf)@ == old(buf)@,
            r matches Ok(q) ==> {
                &&& final(buf)@ == spec_u64_to_le_bytes(AccountTag::EventQueue.spec_as_u8() as u64)
                    + old(buf)@.subrange(8, old(buf)@.len() as int)
                &&& is_queue_bytes(q, old(buf)@)
            },
    {
        let callback_info_len = C::size();
        let buf_len = buf.len();
        let ghost len = buf_len as int;
        let ghost cs = callback_info_len as int;
        proof {
            lemma_queue_layout(len, cs);
            lemma_auto_spec_u64_to_from_le_bytes();
        }
        let capacity = (buf.len() - 8 - EventQueueHeader::LEN) / (FillEvent::LEN + 2
            * callback_info_len);
        let account_tag = read_u64(buf, 0);
        if account_tag != expected_tag.as_u64() {
            return Err(AccountError::InvalidAccountData);
        }
        let ghost b0 = buf@;
        let header = read_queue_header(buf, 8);
        let mut events: Vec<FillEvent> = Vec::new();
        let mut i: usize = 0;
        while i < capacity
            invariant
                capacity == queue_capacity(len, cs),
                len == buf@.len(),
                len <= usize::MAX,
                queue_callback_offset(len, cs) + 2 * capacity * cs <= len,
                cs > 0,
                0 <= i <= capacity,
                events@.len() == i,
                forall|k: int|
                    0 <= k < i ==> #[trigger] events@[k] == spec_read_event(
                        buf@.subrange(32 + 48 * k, 32 + 48 * k + 40),
                    ),
            decreases capacity - i,
        {
            let e = read_event(buf, 32 + 48 * i);
            events.push(e);
            i = i + 1;
        }
        let callback_offset = 32 + 48 * capacity;
        let count = (buf.len() - callback_offset) / callback_info_len;
        let mut callback_infos: Vec<C> = Vec::new();
        let mut i: usize = 0;
        let mut off = callback_offset;
        while i < count
            invariant
                callback_offset == queue_callback_offset(len, cs),
                count == queue_callback_count(len, cs),
                callback_offset + count * cs <= len,
                len == buf@.len(),
                len <= usize::MAX,
                cs == C::spec_size(),
                cs == callback_info_len,
                cs > 0,
                0 <= i <= count,
                off == callback_offset + i * cs,
                callback_infos@.len() == i,
                forall|k: int|
                    0 <= k < i ==> #[trigger] callback_infos@[k] == C::spec_from_bytes(
                        buf@.subrange(callback_offset + k * cs, callback_offset + k * cs + cs),
                    ),
            decreases count - i,
        {
            proof {
                lemma_mul_step(i as int, count as int, cs);
            }
            let c = C::from_bytes(vstd::slice::slice_subrange(buf, off, off + callback_info_len));
            callback_infos.push(c);
            off = off + callback_info_len;
            i = i + 1;
        }
        write_u64(buf, 0, AccountTag::EventQueue.as_u64());
        proof {
            assert(buf@ =~= spec_u64_to_le_bytes(AccountTag::EventQueue.spec_as_u8() as u64)
                + b0.subrange(8, b0.len() as int));
        }
        Ok(EventQueue { header, events, callback_infos })
    }

    /// Writes the event queue into the bytes of its account, whose size
    /// gives it its capacity. The tag is left as it is.
    pub fn write_to(&self, buf: &mut [u8])
        requires
            queue_buffer_ok::<C>(old(buf)@.len() as int),
            self.events@.len() == queue_capacity(old(buf)@.len() as int, C::spec_size() as int),
            self.callback_infos@.len() == queue_callback_count(
                old(buf)@.len() as int,
                C::spec_size() as int,
            ),
        ensures
            final(buf)@.len() == old(buf)@.len(),
            final(buf)@.subrange(0, 8) == old(buf)@.subrange(0, 8),
            is_queue_bytes(*self, final(buf)@),
    {
        let buf_len = buf.len();
        let ghost len = buf_len as int;
        let ghost cs = C::spec_size() as int;
        let ghost b0 = buf@;
        let cs_exec = C::size();
        proof {
            lemma_queue_layout(len, cs);
            lemma_queue_header_bytes(self.header);
        }
        let hb = queue_header_bytes(&self.header);
        write_bytes(buf, 8, hb.as_slice());
        proof {
            lemma_written_subrange(b0, buf@, 8, hb@);
            lemma_written_keeps(b0, buf@, 8, hb@, 0, 8);
        }
        let capacity = self.events.len();
        let mut i: usize = 0;
        while i < capacity
            invariant
                capacity == queue_capacity(len, cs),
                self.events@.len() == capacity,
                len == buf@.len(),
                len <= usize::MAX,
                queue_callback_offset(len, cs) + 2 * capacity * cs <= len,
                cs > 0,
                0 <= i <= capacity,
                buf@.subrange(0, 8) == b0.subrange(0, 8),
                buf@.subrange(8, 32) == spec_queue_header_bytes(self.header),
                forall|k: int|
                    0 <= k < i ==> #[trigger] buf@.subrange(32 + 48 * k, 32 + 48 * k + 40)
                        == spec_event_bytes(self.events@[k]),
            decreases capacity - i,
        {
            let ghost prev = buf@;
            let eb = event_bytes(&self.events[i]);
            proof {
                lemma_event_bytes(self.events@[i as int]);
            }
            write_bytes(buf, 32 + 48 * i, eb.as_slice());
            proof {
                let off = 32 + 48 * i;
                lemma_written_subrange(prev, buf@, off, eb@);
                lemma_written_keeps(prev, buf@, off, eb@, 0, 8);
                lemma_written_keeps(prev, buf@, off, eb@, 8, 32);
                assert forall|k: int| 0 <= k < i + 1 implies #[trigger] buf@.subrange(
                    32 + 48 * k,
                    32 + 48 * k + 40,
                ) == spec_event_bytes(self.events@[k]) by {
                    if k < i {
                        lemma_written_keeps(prev, buf@, off, eb@, 32 + 48 * k, 32 + 48 * k + 40);
                    }
                }
            }
            i = i + 1;
        }
        let callback_offset = 32 + 48 * capacity;
        let count = self.callback_infos.len();
        let mut i: usize = 0;
        let mut off = callback_offset;
        while i < count
            invariant
                capacity == queue_capacity(len, cs),
                self.events@.len() == capacity,
                self.callback_infos@.len() == count,
                callback_offset == queue_callback_offset(len, cs),
                count == queue_callback_count(len, cs),
                callback_offset + count * cs <= len,
                len == buf@.len(),
                len <= usize::MAX,
                cs == C::spec_size(),
                cs == cs_exec,
                cs > 0,
                0 <= i <= count,
                off == callback_offset + i * cs,
                buf@.subrange(0, 8) == b0.subrange(0, 8),
                buf@.subrange(8, 32) == spec_queue_header_bytes(self.header),
                forall|k: int|
                    0 <= k < capacity ==> #[trigger] buf@.subrange(32 + 48 * k, 32 + 48 * k + 40)
                        == spec_event_bytes(self.events@[k]),
                forall|k: int|
                    0 <= k < i ==> #[trigger] buf@.subrange(
                        callback_offset + k * cs,
                        callback_offset + k * cs + cs,
                    ) == self.callback_infos@[k].spec_to_bytes(),
            decreases count - i,
        {
            let ghost prev = buf@;
            proof {
                lemma_mul_step(i as int, count as int, cs);
                C::lemma_bytes(self.callback_infos@[i as int]);
            }
            let cb = self.callback_infos[i].to_bytes();
            write_bytes(buf, off, cb.as_slice());
            proof {
                lemma_written_subrange(prev, buf@, off as int, cb@);
                lemma_written_keeps(prev, buf@, off as int, cb@, 0, 8);
                lemma_written_keeps(prev, buf@, off as int, cb@, 8, 32);
                assert forall|k: int| 0 <= k < capacity implies #[trigger] buf@.subrange(
                    32 + 48 * k,
                    32 + 48 * k + 40,
                ) == spec_event_bytes(self.events@[k]) by {
                    lemma_written_keeps(prev, buf@, off as int, cb@, 32 + 48 * k, 32 + 48 * k + 40);
                }
                assert forall|k: int| 0 <= k < i + 1 implies #[trigger] buf@.subrange(
                    callback_offset + k * cs,
                    callback_offset + k * cs + cs,
                ) == self.callback_infos@[k].spec_to_bytes() by {
                    if k < i {
                        lemma_mul_step(k, i as int, cs);
                        lemma_written_keeps(
                            prev,
                            buf@,
                            off as int,
                            cb@,
                            callback_offset + k * cs,
                            callback_offset + k * cs + cs,
                        );
                    }
                }
            }
            off = off + cs_exec;
            i = i + 1;
        }
        proof {
            lemma_queue_header_bytes(self.header);
            assert forall|k: int| 0 <= k < capacity implies #[trigger] self.events@[k]
                == spec_read_event(buf@.subrange(32 + 48 * k, 32 + 48 * k + 40)) by {
                lemma_event_bytes(self.events@[k]);
            }
            assert forall|k: int| 0 <= k < count implies #[trigger] self.callback_infos@[k]
                == C::spec_from_bytes(
                buf@.subrange(callback_offset + k * cs, callback_offset + k * cs + cs),
            ) by {
                C::lemma_bytes(self.callback_infos@[k]);
            }
        }
    }
}

// ------------------------------------------------------------------------
// The market account.
/// The bytes that store a market state, its fields in order.
pub open spec fn spec_market_bytes(m: MarketState) -> Seq<u8> {
    m.event_queue@ + m.bids@ + m.asks@ + spec_u64_to_le_bytes(m.fee_budget)
        + spec_u64_to_le_bytes(m.initial_lamports) + spec_u64_to_le_bytes(m.min_base_order_size)
        + spec_u64_to_le_bytes(m.tick_size) + spec_u64_to_le_bytes(m.cranker_reward)
}

/// The market state stored in `t`.
pub open spec fn spec_read_market(t: Seq<u8>) -> MarketState {
    MarketState {
        event_queue: array32(t.subrange(0, 32)),
        bids: array32(t.subrange(32, 64)),
        asks: array32(t.subrange(64, 96)),
        fee_budget: le_u64(t, 96),
        initial_lamports: le_u64(t, 104),
        min_base_order_size: le_u64(t, 112),
        tick_size: le_u64(t, 120),
        cranker_reward: le_u64(t, 128),
    }
}

/// A stored market state reads back as itself.
pub proof fn lemma_market_bytes(m: MarketState)
    ensures
        spec_market_bytes(m).len() == 136,
        spec_read_market(spec_market_bytes(m)) == m,
{
    lemma_int_bytes();
    let t = spec_market_bytes(m);
    assert(t.subrange(0, 32) =~= m.event_queue@);
    assert(t.subrange(32, 64) =~= m.bids@);
    assert(t.subrange(64, 96) =~= m.asks@);
    assert(t.subrange(96, 104) =~= spec_u64_to_le_bytes(m.fee_budget));
    assert(t.subrange(104, 112) =~= spec_u64_to_le_bytes(m.initial_lamports));
    assert(t.subrange(112, 120) =~= spec_u64_to_le_bytes(m.min_base_order_size));
    assert(t.subrange(120, 128) =~= spec_u64_to_le_bytes(m.tick_size));
    assert(t.subrange(128, 136) =~= spec_u64_to_le_bytes(m.cranker_reward));
    lemma_array32(m.event_queue);
    lemma_array32(m.bids);
    lemma_array32(m.asks);
}

impl MarketState {
    /// Reads the market state from the bytes of its account, whose tag, an
    /// eight-byte integer, must be `expected_tag`; the tag then becomes that
    /// of a market.
    pub fn from_buffer(account_data: &mut [u8], expected_tag: AccountTag) -> (r: Result<
        MarketState,
        AccountError,
    >)
        requires
            old(account_data)@.len() == MarketState::LEN + 8,
        ensures
            r is Err <==> le_u64(old(account_data)@, 0) != expected_tag.spec_as_u8() as u64,
            r is Err ==> r == Err::<MarketState, AccountError>(AccountError::InvalidAccountData)
                && final(account_data)@ == old(account_data)@,
            r matches Ok(m) ==> {
                &&& m == spec_read_market(old(account_data)@.subrange(8, 144))
                &&& final(account_data)@ == spec_u64_to_le_bytes(
                    AccountTag::Market.spec_as_u8() as u64,
                ) + old(account_data)@.subrange(8, 144)
            },
    {
        proof {
            lemma_auto_spec_u64_to_from_le_bytes();
        }
        let tag = read_u64(account_data, 0);
        if tag != expected_tag.as_u64() {
            return Err(AccountError::InvalidAccountData);
        }
        let ghost b0 = account_data@;
        let m = read_market(account_data, 8);
        write_u64(account_data, 0, AccountTag::Market.as_u64());
        proof {
            assert(account_data@ =~= spec_u64_to_le_bytes(AccountTag::Market.spec_as_u8() as u64)
                + b0.subrange(8, 144));
        }
        Ok(m)
    }

    /// Writes the market state after the tag of its account.
    pub fn write_to(&self, account_data: &mut [u8])
        requires
            old(account_data)@.len() == MarketState::LEN + 8,
        ensures
            final(account_data)@ == old(account_data)@.subrange(0, 8) + spec_market_bytes(*self),
            spec_read_market(final(account_data)@.subrange(8, 144)) == *self,
    {
        let ghost b0 = account_data@;
        let mb = market_bytes(self);
        proof {
            lemma_market_bytes(*self);
        }
        write_bytes(account_data, 8, mb.as_slice());
        proof {
            lemma_written_subrange(b0, account_data@, 8, mb@);
            lemma_written_keeps(b0, account_data@, 8, mb@, 0, 8);
            assert(account_data@ =~= account_data@.subrange(0, 8) + account_data@.subrange(8, 144));
        }
    }
}

/// Reads the market state stored at `off`.
pub fn read_market(buf: &[u8], off: usize) -> (r: MarketState)
    requires
        off + 136 <= buf.len(),
    ensures
        r == spec_read_market(buf@.subrange(off as int, off + 136)),
{
    let t = Ghost(buf@.subrange(off as int, off + 136));
    assert(t@.subrange(0, 32) =~= buf@.subrange(off as int, off + 32));
    assert(t@.subrange(32, 64) =~= buf@.subrange(off + 32, off + 64));
    assert(t@.subrange(64, 96) =~= buf@.subrange(off + 64, off + 96));
    assert(t@.subrange(96, 104) =~= buf@.subrange(off + 96, off + 104));
    assert(t@.subrange(104, 112) =~= buf@.subrange(off + 104, off + 112));
    assert(t@.subrange(112, 120) =~= buf@.subrange(off + 112, off + 120));
    assert(t@.subrange(120, 128) =~= buf@.subrange(off + 120, off + 128));
    assert(t@.subrange(128, 136) =~= buf@.subrange(off + 128, off + 136));
    let event_queue = read_bytes32(buf, off);
    let bids = read_bytes32(buf, off + 32);
    let asks = read_bytes32(buf, off + 64);
    proof {
        lemma_array32(event_queue);
        lemma_array32(bids);
        lemma_array32(asks);
    }
    MarketState {
        event_queue,
        bids,
        asks,
        fee_budget: read_u64(buf, off + 96),
        initial_lamports: read_u64(buf, off + 104),
        min_base_order_size: read_u64(buf, off + 112),
        tick_size: read_u64(buf, off + 120),
        cranker_reward: read_u64(buf, off + 128),
    }
}

/// The bytes that store a market state.
pub fn market_bytes(m: &MarketState) -> (r: Vec<u8>)
    ensures
        r@ == spec_market_bytes(*m),
{
    let mut v = vstd::slice::slice_to_vec(m.event_queue.as_slice());
    let mut b = vstd::slice::slice_to_vec(m.bids.as_slice());
    v.append(&mut b);
    let mut b = vstd::slice::slice_to_vec(m.asks.as_slice());
    v.append(&mut b);
    let mut b = u64_to_le_bytes(m.fee_budget);
    v.append(&mut b);
    let mut b = u64_to_le_bytes(m.initial_lamports);
    v.append(&mut b);
    let mut b = u64_to_le_bytes(m.min_base_order_size);
    v.append(&mut b);
    let mut b = u64_to_le_bytes(m.tick_size);
    v.append(&mut b);
    let mut b = u64_to_le_bytes(m.cranker_reward);
    v.append(&mut b);
    v
}

impl<C: FixedBytes> OrderBookState<C> {
    /// Reads both sides of the book from the bytes of the bids and asks
    /// accounts, each of which must carry its own tag.
    pub fn new_safe(bids_account: &[u8], asks_account: &[u8]) -> (r: Result<Self, AccountError>)
        requires
            slab_buffer_ok::<C>(bids_account@.len() as int),
            slab_buffer_ok::<C>(asks_account@.len() as int),
        ensures
            r is Err <==> bids_account@[0] != AccountTag::Bids.spec_as_u8() || asks_account@[0]
                != AccountTag::Asks.spec_as_u8(),
            r is Err ==> r == Err::<Self, AccountError>(AccountError::InvalidAccountData),
            r matches Ok(book) ==> is_slab_bytes(book.bids, bids_account@) && is_slab_bytes(
                book.asks,
                asks_account@,
            ),
    {
        let bids = match Slab::from_buffer(bids_account, AccountTag::Bids) {
            Ok(s) => s,
            Err(e) => {
                return Err(e);
            },
        };
        let asks = match Slab::from_buffer(asks_account, AccountTag::Asks) {
            Ok(s) => s,
            Err(e) => {
                return Err(e);
            },
        };
        Ok(OrderBookState { bids, asks })
    }
}

// ------------------------------------------------------------------------
// What the layouts promise.
/// A slab read from an account of the size that `compute_allocation_size`
/// gives for `n` orders has `n` leaves, `n - 1` inner nodes and `n`
/// callback informations.
pub proof fn lemma_allocated_slab_holds<C: FixedBytes>(n: int, slab: Slab<C>, s: Seq<u8>)
    requires
        n >= 1,
        C::spec_size() > 0,
        s.len() == Slab::<C>::spec_allocation_size(n),
        is_slab_bytes(slab, s),
    ensures
        slab.leaf_nodes.len() == n,
        slab.inner_nodes.len() == n - 1,
        slab.callback_infos.len() == n,
{
    lemma_slab_allocation::<C>(n);
}

/// An account of the size that `compute_allocation_size` gives for `n`
/// orders can hold a slab, and holds one with room for exactly `n` orders:
/// `n` leaves and their callback informations, and the inner nodes between
/// them.
pub proof fn lemma_slab_allocation<C: FixedBytes>(n: int)
    requires
        n >= 1,
    ensures
        ({
            let len = Slab::<C>::spec_allocation_size(n);
            let cs = C::spec_size() as int;
            &&& cs > 0 ==> slab_buffer_ok::<C>(len)
            &&& cs > 0 ==> slab_capacity(len, cs) + 1 == n
            &&& cs > 0 ==> slab_callback_count(len, cs) == n
        }),
{
    let cs = C::spec_size() as int;
    if cs > 0 {
        let len = Slab::<C>::spec_allocation_size(n);
        let m = len - 88 - (32 + cs);
        assert(m == (n - 1) * (64 + cs));
        vstd::arithmetic::div_mod::lemma_div_multiples_vanish(n - 1, 64 + cs);
        vstd::arithmetic::mul::lemma_mul_is_commutative(n - 1, 64 + cs);
        assert(slab_capacity(len, cs) == n - 1);
        assert((n - 1) * (64 + cs) == 64 * (n - 1) + (n - 1) * cs) by (nonlinear_arith);
        let rest = len - slab_callback_offset(len, cs);
        assert(rest == n * cs) by (nonlinear_arith)
            requires
                rest == len - (120 + 64 * (n - 1)),
                len == 120 + cs + (n - 1) * (64 + cs),
        ;
        vstd::arithmetic::div_mod::lemma_div_multiples_vanish(n, cs);
        vstd::arithmetic::div_mod::lemma_mod_multiples_basic(n, cs);
        vstd::arithmetic::mul::lemma_mul_is_commutative(n, cs);
        assert(len >= 88 + 32 + cs) by (nonlinear_arith)
            requires
                len == 120 + cs + (n - 1) * (64 + cs),
                n >= 1,
                cs > 0,
        ;
    }
}

/// An account of the size that `compute_allocation_size` gives for `n`
/// events can hold an event queue, and holds one with room for exactly `n`
/// events and two callback informations for each.
pub proof fn lemma_queue_allocation<C: FixedBytes>(n: int)
    requires
        n >= 0,
        48 + 2 * C::spec_size() <= usize::MAX,
    ensures
        ({
            let len = EventQueue::<C>::spec_allocation_size(n);
            let cs = C::spec_size() as int;
            &&& cs > 0 ==> queue_buffer_ok::<C>(len)
            &&& cs > 0 ==> queue_capacity(len, cs) == n
            &&& cs > 0 ==> queue_callback_count(len, cs) == 2 * n
        }),
{
    let cs = C::spec_size() as int;
    if cs > 0 {
        let len = EventQueue::<C>::spec_allocation_size(n);
        assert(len - 32 == n * (48 + 2 * cs));
        vstd::arithmetic::div_mod::lemma_div_multiples_vanish(n, 48 + 2 * cs);
        vstd::arithmetic::mul::lemma_mul_is_commutative(n, 48 + 2 * cs);
        assert(queue_capacity(len, cs) == n);
        let rest = len - queue_callback_offset(len, cs);
        assert(rest == (2 * n) * cs) by (nonlinear_arith)
            requires
                rest == len - (32 + 48 * n),
                len - 32 == n * (48 + 2 * cs),
        ;
        vstd::arithmetic::div_mod::lemma_div_multiples_vanish(2 * n, cs);
        vstd::arithmetic::div_mod::lemma_mod_multiples_basic(2 * n, cs);
        vstd::arithmetic::mul::lemma_mul_is_commutative(2 * n, cs);
        vstd::arithmetic::mul::lemma_mul_nonnegative(n, 48 + 2 * cs);
    }
}

/// The bytes of a slab account store one slab: two slabs read from the
/// same bytes (one of them, say, just written) are the same.
pub proof fn lemma_slab_bytes_unique<C: FixedBytes>(a: Slab<C>, b: Slab<C>, s: Seq<u8>)
    requires
        is_slab_bytes(a, s),
        is_slab_bytes(b, s),
    ensures
        a.header == b.header,
        a.leaf_nodes@ == b.leaf_nodes@,
        a.inner_nodes@ == b.inner_nodes@,
        a.callback_infos@ == b.callback_infos@,
{
    assert(a.leaf_nodes@ =~= b.leaf_nodes@);
    assert(a.inner_nodes@ =~= b.inner_nodes@);
    assert(a.callback_infos@ =~= b.callback_infos@);
}

/// The bytes of an event queue account store one event queue.
pub proof fn lemma_queue_bytes_unique<C: FixedBytes>(a: EventQueue<C>, b: EventQueue<C>, s: Seq<u8>)
    requires
        is_queue_bytes(a, s),
        is_queue_bytes(b, s),
    ensures
        a.header == b.header,
        a.events@ == b.events@,
        a.callback_infos@ == b.callback_infos@,
{
    assert(a.events@ =~= b.events@);
    assert(a.callback_infos@ =~= b.callback_infos@);
}

} // verus!
