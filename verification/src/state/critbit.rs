//! The orderbook's underlying data structure: a critbit tree whose leaves hold
//! the orders of one side of the book, stored in arrays of leaf and inner
//! nodes with a free list for each.
use crate::error::AoError;
use vstd::prelude::*;

verus! {

// ------------------------------------------------------------------------
// Bits of a key, counted from the most significant one.
/// Bit `i` of `k`, where bit 0 is the most significant bit.
pub open spec fn bit_at(k: u128, i: int) -> bool {
    (k >> ((127 - i) as u128)) & 1 == 1
}

/// `a` and `b` have the same first `n` bits (counted from the most
/// significant one).
pub open spec fn prefix_agree(a: u128, b: u128, n: int) -> bool {
    if n <= 0 {
        true
    } else if n >= 128 {
        a == b
    } else {
        a >> ((128 - n) as u128) == b >> ((128 - n) as u128)
    }
}

proof fn lemma_bv_step(a: u128, b: u128, s: u128)
    by (bit_vector)
    requires
        s < 127,
        a >> (s + 1) as u128 == b >> (s + 1) as u128,
        ((a >> s) & 1 == 1) == ((b >> s) & 1 == 1),
    ensures
        a >> s == b >> s,
{
}

proof fn lemma_bv_step_top(a: u128, b: u128)
    by (bit_vector)
    requires
        ((a >> 127u128) & 1 == 1) == ((b >> 127u128) & 1 == 1),
    ensures
        a >> 127u128 == b >> 127u128,
{
}

proof fn lemma_bv_zero_shift(a: u128)
    by (bit_vector)
    ensures
        a >> 0u128 == a,
{
}

/// Agreeing on the first `n` bits and on bit `n` is agreeing on `n + 1` bits.
pub proof fn lemma_agree_step(a: u128, b: u128, n: int)
    requires
        0 <= n < 128,
        prefix_agree(a, b, n),
        bit_at(a, n) == bit_at(b, n),
    ensures
        prefix_agree(a, b, n + 1),
{
    if n == 0 {
        lemma_bv_step_top(a, b);
    } else if n == 127 {
        lemma_bv_step(a, b, 0);
        lemma_bv_zero_shift(a);
        lemma_bv_zero_shift(b);
    } else {
        lemma_bv_step(a, b, (127 - n) as u128);
    }
}

proof fn lemma_bv_mono_step(a: u128, b: u128, s: u128)
    by (bit_vector)
    requires
        s < 128,
        a >> s == b >> s,
    ensures
        a >> (s + 1) as u128 == b >> (s + 1) as u128,
{
}

/// Agreeing on `n` bits is agreeing on any fewer bits.
pub proof fn lemma_agree_mono(a: u128, b: u128, m: int, n: int)
    requires
        m <= n,
        prefix_agree(a, b, n),
    ensures
        prefix_agree(a, b, m),
    decreases n - m,
{
    if m < n && m > 0 {
        lemma_agree_mono(a, b, m + 1, n);
        if m + 1 >= 128 {
            lemma_bv_zero_shift(a);
            lemma_bv_zero_shift(b);
            lemma_bv_mono_step(a, b, 0);
        } else {
            lemma_bv_mono_step(a, b, (127 - m) as u128);
        }
    }
}

/// Agreement on a prefix is transitive.
pub proof fn lemma_agree_trans(a: u128, b: u128, c: u128, n: int)
    requires
        prefix_agree(a, b, n),
        prefix_agree(b, c, n),
    ensures
        prefix_agree(a, c, n),
{
}

proof fn lemma_bv_order(a: u128, b: u128, s: u128)
    by (bit_vector)
    requires
        s < 127,
        a >> (s + 1) as u128 == b >> (s + 1) as u128,
        (a >> s) & 1 != 1,
        (b >> s) & 1 == 1,
    ensures
        a < b,
{
}

proof fn lemma_bv_order_top(a: u128, b: u128)
    by (bit_vector)
    requires
        (a >> 127u128) & 1 != 1,
        (b >> 127u128) & 1 == 1,
    ensures
        a < b,
{
}

/// Two keys that agree on their first `p` bits are ordered by bit `p`.
pub proof fn lemma_agree_order(a: u128, b: u128, p: int)
    requires
        0 <= p < 128,
        prefix_agree(a, b, p),
        !bit_at(a, p),
        bit_at(b, p),
    ensures
        a < b,
{
    if p == 0 {
        lemma_bv_order_top(a, b);
    } else {
        lemma_bv_order(a, b, (127 - p) as u128);
    }
}

proof fn lemma_bv_crit_mask(k: u128, p: u64)
    by (bit_vector)
    requires
        p < 128,
    ensures
        ((k & ((1u128 << 127u128) >> p)) != 0) == ((k >> (127 - p) as u128) & 1 == 1),
{
}

proof fn lemma_bv_xor_shift(a: u128, b: u128, s: u128)
    by (bit_vector)
    requires
        s <= 128,
        (a ^ b) >> s == 0,
    ensures
        a >> s == b >> s,
{
}

proof fn lemma_bv_xor_bit(a: u128, b: u128, s: u128)
    by (bit_vector)
    requires
        s < 128,
        ((a ^ b) >> s) & 1 == 1,
    ensures
        ((a >> s) & 1 == 1) != ((b >> s) & 1 == 1),
{
}

/// The number of leading zeros of `a ^ b` is the length of the longest
/// common prefix of `a` and `b`.
proof fn lemma_clz_xor(a: u128, b: u128, s: u32)
    requires
        s <= 128,
        s < 128 ==> ((a ^ b) >> ((127 - s) as u128)) & 1 == 1,
        s > 0 ==> (a ^ b) >> ((128 - s) as u128) == 0,
    ensures
        prefix_agree(a, b, s as int),
        s < 128 ==> bit_at(a, s as int) != bit_at(b, s as int),
{
    if s > 0 {
        lemma_bv_xor_shift(a, b, (128 - s) as u128);
        if s == 128 {
            lemma_bv_zero_shift(a);
            lemma_bv_zero_shift(b);
        }
    }
    if s < 128 {
        lemma_bv_xor_bit(a, b, (127 - s) as u128);
    }
}

proof fn lemma_bv_clz_high(x: u128, hi: u64, c: u128)
    by (bit_vector)
    requires
        hi == (x >> 64u128) as u64,
        c < 64,
        (hi >> ((63 - c) as u64)) & 1u64 != 0u64,
        c > 0 ==> hi >> ((64 - c) as u64) == 0u64,
    ensures
        (x >> ((127 - c) as u128)) & 1u128 == 1u128,
        c > 0 ==> x >> ((128 - c) as u128) == 0u128,
{
}

proof fn lemma_bv_clz_low(x: u128, lo: u64, c: u128)
    by (bit_vector)
    requires
        (x >> 64u128) as u64 == 0u64,
        lo == x as u64,
        c <= 64,
        c < 64 ==> (lo >> ((63 - c) as u64)) & 1u64 != 0u64,
        c < 64 ==> lo >> ((64 - c) as u64) == 0u64,
        c == 64 ==> lo == 0u64,
    ensures
        c < 64 ==> (x >> ((63 - c) as u128)) & 1u128 == 1u128,
        x >> ((64 - c) as u128) == 0u128,
{
}

/// The number of leading zeros in the binary representation of `x`, so that
/// the first one bit (if any) is bit `r` from the top and every bit above it
/// is zero.
fn u128_leading_zeros(x: u128) -> (r: u32)
    ensures
        r <= 128,
        r < 128 ==> (x >> ((127 - r) as u128)) & 1 == 1,
        r > 0 ==> x >> ((128 - r) as u128) == 0,
{
    let hi = (x >> 64u32) as u64;
    let lo = x as u64;
    if hi != 0 {
        let c = hi.leading_zeros();
        proof {
            vstd::std_specs::bits::axiom_u64_leading_zeros(hi);
            lemma_bv_clz_high(x, hi, c as u128);
        }
        c
    } else {
        let c = lo.leading_zeros();
        proof {
            vstd::std_specs::bits::axiom_u64_leading_zeros(lo);
            if c == 64 {
                assert(lo >> 0u64 == lo) by (bit_vector);
            }
            lemma_bv_clz_low(x, lo, c as u128);
        }
        64 + c
    }
}

/// The length of the longest common prefix of two keys.
fn shared_prefix_len(a: u128, b: u128) -> (r: u32)
    ensures
        r <= 128,
        prefix_agree(a, b, r as int),
        r < 128 ==> bit_at(a, r as int) != bit_at(b, r as int),
        (r == 128) == (a == b),
{
    let r = u128_leading_zeros(a ^ b);
    proof {
        lemma_clz_xor(a, b, r);
        if r < 128 && a == b {
            assert(bit_at(a, r as int) == bit_at(b, r as int));
        }
    }
    r
}

// ------------------------------------------------------------------------
// Node handles.
/// A handle to a node: leaf handles are indices into the leaf array, inner
/// handles are the bitwise complements of indices into the inner array.
pub type NodeHandle = u32;

/// The bit that is set in the handles of inner nodes.
pub const INNER_FLAG: u32 = 0x8000_0000;

/// Whether a handle stands for a leaf.
pub open spec fn is_leaf_handle(h: u32) -> bool {
    h < INNER_FLAG
}

/// The index into the inner array that an inner handle stands for.
pub open spec fn inner_index(h: u32) -> int {
    0xFFFF_FFFF - h
}

proof fn lemma_bv_flag(h: u32)
    by (bit_vector)
    ensures
        (h & 0x8000_0000u32 == 0) == (h < 0x8000_0000u32),
        !h == 0xFFFF_FFFFu32 - h,
{
}

/// The kind of node that a handle stands for.
#[derive(Clone, Copy, Debug, PartialEq, Eq, Structural)]
pub enum Node {
    Leaf,
    Inner,
}

impl Node {
    /// The kind of node that a handle stands for: inner handles have the
    /// high bit set.
    pub fn from_handle(h: NodeHandle) -> (r: Self)
        ensures
            (r == Node::Leaf) == is_leaf_handle(h),
    {
        proof {
            lemma_bv_flag(h);
        }
        if h & INNER_FLAG == 0 {
            Node::Leaf
        } else {
            Node::Inner
        }
    }
}

/// The handle of an inner node: the complement of its index.
fn inner_handle(i: u32) -> (h: u32)
    requires
        i < 0x8000_0000,
    ensures
        !is_leaf_handle(h),
        inner_index(h) == i,
{
    proof {
        lemma_bv_flag(i);
    }
    !i
}

/// The index of an inner node: the complement of its handle.
fn inner_idx(h: u32) -> (i: usize)
    requires
        !is_leaf_handle(h),
    ensures
        i == inner_index(h),
{
    proof {
        lemma_bv_flag(h);
    }
    (!h) as usize
}

// ------------------------------------------------------------------------
// Nodes.
/// A leaf of the tree: a resting order.
#[derive(Clone, Copy, Debug, PartialEq, Eq, Structural)]
pub struct LeafNode {
    /// The key is the associated order id
    pub key: u128,
    /// The quantity of base asset associated with the underlying order
    pub base_quantity: u64,
}

/// The price that an order id holds: its upper 64 bits.
pub open spec fn spec_price_from_key(key: u128) -> u64 {
    (key / 0x1_0000_0000_0000_0000) as u64
}

proof fn lemma_bv_price(key: u128)
    by (bit_vector)
    ensures
        (key >> 64u128) as u64 == (key / 0x1_0000_0000_0000_0000u128) as u64,
{
}

impl LeafNode {
    /// Byte length of a leaf node in an account.
    pub const LEN: usize = 32;

    /// Parse a leaf node's price
    pub fn price(&self) -> (r: u64)
        ensures
            r == spec_price_from_key(self.key),
    {
        Self::price_from_key(self.key)
    }

    /// Get the associated order id
    pub fn order_id(&self) -> (r: u128)
        ensures
            r == self.key,
    {
        self.key
    }

    /// The price that an order id holds: its upper 64 bits.
    pub fn price_from_key(key: u128) -> (r: u64)
        ensures
            r == spec_price_from_key(key),
    {
        proof {
            lemma_bv_price(key);
        }
        (key >> 64) as u64
    }
}

/// An inner node of the tree: its children's keys agree on the first
/// `prefix_len` bits and differ in the next one.
#[derive(Clone, Copy, Debug)]
pub struct InnerNode {
    pub key: u128,
    pub prefix_len: u64,
    pub children: [u32; 2],
}

impl InnerNode {
    /// Byte length of an inner node in an account.
    pub const LEN: usize = 32;

    /// The child on the side of bit `prefix_len` of `search_key`, and that
    /// bit.
    pub fn walk_down(&self, search_key: u128) -> (r: (NodeHandle, bool))
        requires
            self.prefix_len < 128,
        ensures
            r.1 == bit_at(search_key, self.prefix_len as int),
            r.0 == self.children[if r.1 {
                1int
            } else {
                0int
            }],
    {
        proof {
            lemma_bv_crit_mask(search_key, self.prefix_len);
        }
        let crit_bit_mask = (1u128 << 127) >> self.prefix_len;
        let crit_bit = (search_key & crit_bit_mask) != 0;
        if crit_bit {
            (self.children[1], crit_bit)
        } else {
            (self.children[0], crit_bit)
        }
    }
}

/// The children of an inner node with the child on side `side` replaced.
fn with_child(children: [u32; 2], side: bool, h: u32) -> (r: [u32; 2])
    ensures
        side ==> r[1] == h && r[0] == children[0],
        !side ==> r[0] == h && r[1] == children[1],
{
    if side {
        [children[0], h]
    } else {
        [h, children[1]]
    }
}


// ------------------------------------------------------------------------
// The slab.
/// The header of a slab: the free lists and bump indices of both node
/// arrays, the root of the tree and the number of orders in it.
#[derive(Clone, Copy, Debug)]
pub struct SlabHeader {
    pub callback_free_list_len: u64,
    pub callback_free_list_head: u64,
    pub leaf_free_list_len: u32,
    pub leaf_free_list_head: u32,
    pub leaf_bump_index: u32,
    pub inner_node_free_list_len: u32,
    pub inner_node_free_list_head: u32,
    pub inner_node_bump_index: u32,
    pub root_node: u32,
    pub leaf_count: u32,
    pub market_address: [u8; 32],
}

impl SlabHeader {
    /// Byte length of a slab header in an account.
    pub const LEN: usize = 80;

    /// The header of a slab that has never held an order: no order, no
    /// node taken from either array and both free lists empty.
    pub open spec fn is_fresh(&self) -> bool {
        &&& self.leaf_count == 0
        &&& self.leaf_bump_index == 0
        &&& self.leaf_free_list_len == 0
        &&& self.inner_node_bump_index == 0
        &&& self.inner_node_free_list_len == 0
    }
}

/// A slab holds one side of the book: a header, the array of leaf nodes, the
/// array of inner nodes and the callback information of each leaf.
pub struct Slab<C> {
    pub header: SlabHeader,
    pub leaf_nodes: Vec<LeafNode>,
    pub inner_nodes: Vec<InnerNode>,
    pub callback_infos: Vec<C>,
}

impl<C> Slab<C> {
    /// The prefix length of a valid inner node, 128 for other handles.
    pub closed spec fn depth(&self, h: u32) -> int {
        if !is_leaf_handle(h) && inner_index(h) < self.inner_nodes.len()
            && self.inner_nodes@[inner_index(h)].prefix_len < 128 {
            self.inner_nodes@[inner_index(h)].prefix_len as int
        } else {
            128
        }
    }

    /// Child `c` of the inner node `h`.
    pub closed spec fn child(&self, h: u32, c: int) -> u32 {
        self.inner_nodes@[inner_index(h)].children[c]
    }

    /// Child `c` of `h` lies strictly deeper than `h`.
    pub closed spec fn descends(&self, h: u32, c: int) -> bool {
        self.depth(self.child(h, c)) > self.depth(h)
    }

    /// The leaf indices of the subtree rooted at `h`.
    pub closed spec fn sub_leaves(&self, h: u32) -> Set<int>
        decreases 128 - self.depth(h),
    {
        if is_leaf_handle(h) {
            if h < self.leaf_nodes.len() {
                set![h as int]
            } else {
                Set::empty()
            }
        } else if self.depth(h) < 128 {
            let l = if self.descends(h, 0) {
                self.sub_leaves(self.child(h, 0))
            } else {
                Set::empty()
            };
            let r = if self.descends(h, 1) {
                self.sub_leaves(self.child(h, 1))
            } else {
                Set::empty()
            };
            l.union(r)
        } else {
            Set::empty()
        }
    }

    /// The inner indices of the subtree rooted at `h`.
    pub closed spec fn sub_inners(&self, h: u32) -> Set<int>
        decreases 128 - self.depth(h),
    {
        if is_leaf_handle(h) {
            Set::empty()
        } else if self.depth(h) < 128 {
            let l = if self.descends(h, 0) {
                self.sub_inners(self.child(h, 0))
            } else {
                Set::empty()
            };
            let r = if self.descends(h, 1) {
                self.sub_inners(self.child(h, 1))
            } else {
                Set::empty()
            };
            l.union(r).insert(inner_index(h))
        } else {
            Set::empty()
        }
    }

    /// The keys of the subtree rooted at `h`, each with the handle of its
    /// leaf.
    pub closed spec fn sub_keys(&self, h: u32) -> Map<u128, u32>
        decreases 128 - self.depth(h),
    {
        if is_leaf_handle(h) {
            if h < self.leaf_nodes.len() {
                map![self.leaf_nodes@[h as int].key => h]
            } else {
                Map::empty()
            }
        } else if self.depth(h) < 128 {
            let l = if self.descends(h, 0) {
                self.sub_keys(self.child(h, 0))
            } else {
                Map::empty()
            };
            let r = if self.descends(h, 1) {
                self.sub_keys(self.child(h, 1))
            } else {
                Map::empty()
            };
            l.union_prefer_right(r)
        } else {
            Map::empty()
        }
    }

    /// The keys on side `c` of the inner node `n` agree with its key on its
    /// first `prefix_len` bits and have bit `prefix_len` equal to `c`.
    pub closed spec fn side_ok(n: InnerNode, keys: Map<u128, u32>, c: int) -> bool {
        forall|k: u128|
            #![trigger keys.contains_key(k)]
            keys.contains_key(k) ==> prefix_agree(k, n.key, n.prefix_len as int) && bit_at(
                k,
                n.prefix_len as int,
            ) == (c == 1)
    }

    /// The subtree rooted at `h` is a valid critbit tree.
    pub closed spec fn node_ok(&self, h: u32) -> bool
        decreases 128 - self.depth(h),
    {
        if is_leaf_handle(h) {
            h < self.leaf_nodes.len()
        } else {
            let i = inner_index(h);
            let n = self.inner_nodes@[i];
            let c0 = self.child(h, 0);
            let c1 = self.child(h, 1);
            &&& 0 <= i < self.inner_nodes.len()
            &&& n.prefix_len < 128
            &&& self.descends(h, 0)
            &&& self.descends(h, 1)
            &&& self.node_ok(c0)
            &&& self.node_ok(c1)
            &&& self.sub_leaves(c0).disjoint(self.sub_leaves(c1))
            &&& self.sub_inners(c0).disjoint(self.sub_inners(c1))
            &&& !self.sub_inners(c0).contains(i)
            &&& !self.sub_inners(c1).contains(i)
            &&& Self::side_ok(n, self.sub_keys(c0), 0)
            &&& Self::side_ok(n, self.sub_keys(c1), 1)
        }
    }

    /// The leaf free list: `n` leaf indices starting at `head`, each leaf
    /// holding the next index in its base quantity.
    pub closed spec fn leaf_free_seq(&self, head: u32, n: nat) -> Seq<u32>
        decreases n,
    {
        if n == 0 {
            Seq::empty()
        } else {
            seq![head] + self.leaf_free_seq(
                self.leaf_nodes@[head as int].base_quantity as u32,
                (n - 1) as nat,
            )
        }
    }

    /// The inner free list: `n` inner indices starting at `head`, each node
    /// holding the next index in its prefix length.
    pub closed spec fn inner_free_seq(&self, head: u32, n: nat) -> Seq<u32>
        decreases n,
    {
        if n == 0 {
            Seq::empty()
        } else {
            seq![head] + self.inner_free_seq(
                self.inner_nodes@[head as int].prefix_len as u32,
                (n - 1) as nat,
            )
        }
    }

    /// The free leaves.
    pub closed spec fn leaf_free_list(&self) -> Seq<u32> {
        self.leaf_free_seq(self.header.leaf_free_list_head, self.header.leaf_free_list_len as nat)
    }

    /// The leaf free list holds as many indices as the header counts, the
    /// first of them the header's head.
    pub proof fn lemma_leaf_free_list_head(&self)
        ensures
            self.leaf_free_list().len() == self.header.leaf_free_list_len,
            self.header.leaf_free_list_len > 0 ==> self.leaf_free_list()[0]
                == self.header.leaf_free_list_head,
    {
        self.lemma_leaf_seq_len(self.header.leaf_free_list_head, self.header.leaf_free_list_len as nat);
    }

    /// Allocating a leaf right after freeing one gives the freed leaf back
    /// and leaves the leaf free list, its head and the bump index as they
    /// were before the freeing.
    pub proof fn lemma_free_then_allocate(s: Slab<C>, t: Slab<C>, u: Slab<C>, h: u32, r: u32)
        requires
            t.leaf_free_list() == seq![h] + s.leaf_free_list(),
            t.header == (SlabHeader {
                leaf_free_list_len: (s.header.leaf_free_list_len + 1) as u32,
                leaf_free_list_head: h,
                ..s.header
            }),
            s.header.leaf_free_list_len < u32::MAX,
            r == t.leaf_free_list()[0],
            u.leaf_free_list() == t.leaf_free_list().drop_first(),
            u.header.leaf_free_list_len == t.header.leaf_free_list_len - 1,
            u.header.leaf_bump_index == t.header.leaf_bump_index,
        ensures
            r == h,
            u.leaf_free_list() == s.leaf_free_list(),
            u.header.leaf_free_list_len == s.header.leaf_free_list_len,
            u.header.leaf_bump_index == s.header.leaf_bump_index,
            s.header.leaf_free_list_len > 0 ==> u.header.leaf_free_list_head
                == s.header.leaf_free_list_head,
    {
        assert((seq![h] + s.leaf_free_list()).drop_first() =~= s.leaf_free_list());
        s.lemma_leaf_free_list_head();
        u.lemma_leaf_free_list_head();
    }

    /// The free inner nodes.
    pub closed spec fn inner_free_list(&self) -> Seq<u32> {
        self.inner_free_seq(
            self.header.inner_node_free_list_head,
            self.header.inner_node_free_list_len as nat,
        )
    }

    /// The free lists hold distinct indices below the bump indices, and the
    /// arrays have the sizes that the account layout gives them.
    pub closed spec fn alloc_ok(&self) -> bool {
        let hd = self.header;
        &&& self.leaf_nodes.len() == self.inner_nodes.len() + 1
        &&& self.leaf_nodes.len() <= 0x8000_0000
        &&& self.callback_infos.len() >= self.leaf_nodes.len()
        &&& hd.leaf_bump_index <= self.leaf_nodes.len()
        &&& hd.inner_node_bump_index <= self.inner_nodes.len()
        &&& hd.leaf_free_list_len <= hd.leaf_bump_index
        &&& hd.inner_node_free_list_len <= hd.inner_node_bump_index
        &&& self.leaf_free_list().no_duplicates()
        &&& self.inner_free_list().no_duplicates()
        &&& forall|j: int|
            0 <= j < self.leaf_free_list().len() ==> self.leaf_free_list()[j]
                < hd.leaf_bump_index
        &&& forall|j: int|
            0 <= j < self.inner_free_list().len() ==> self.inner_free_list()[j]
                < hd.inner_node_bump_index
    }

    /// The leaves of the tree.
    pub closed spec fn tree_leaves(&self) -> Set<int> {
        if self.header.leaf_count == 0 {
            Set::empty()
        } else {
            self.sub_leaves(self.header.root_node)
        }
    }

    /// The inner nodes of the tree.
    pub closed spec fn tree_inners(&self) -> Set<int> {
        if self.header.leaf_count == 0 {
            Set::empty()
        } else {
            self.sub_inners(self.header.root_node)
        }
    }

    /// The orders in the tree: each key with the handle of its leaf.
    pub closed spec fn handles(&self) -> Map<u128, u32> {
        if self.header.leaf_count == 0 {
            Map::empty()
        } else {
            self.sub_keys(self.header.root_node)
        }
    }

    /// The slab is well formed: the tree is a valid critbit tree, its nodes
    /// are neither free nor beyond the bump indices, and the header counts
    /// agree with it.
    pub closed spec fn wf(&self) -> bool {
        let hd = self.header;
        &&& self.alloc_ok()
        &&& if hd.leaf_count == 0 {
            &&& hd.leaf_bump_index == hd.leaf_free_list_len
            &&& hd.inner_node_bump_index == hd.inner_node_free_list_len
        } else {
            &&& self.node_ok(hd.root_node)
            &&& forall|x: int|
                #![trigger self.tree_leaves().contains(x)]
                self.tree_leaves().contains(x) ==> x < hd.leaf_bump_index
                    && !self.leaf_free_list().contains(x as u32)
            &&& forall|x: int|
                #![trigger self.tree_inners().contains(x)]
                self.tree_inners().contains(x) ==> x < hd.inner_node_bump_index
                    && !self.inner_free_list().contains(x as u32)
            &&& hd.leaf_count == self.tree_leaves().len()
            &&& hd.leaf_bump_index - hd.leaf_free_list_len == hd.leaf_count
            &&& hd.inner_node_bump_index - hd.inner_node_free_list_len + 1 == hd.leaf_count
        }
    }
}


// ------------------------------------------------------------------------
// Facts about subtrees.
impl<C> Slab<C> {
    /// The key stored in a node: the key of a leaf, the reference key of an
    /// inner node.
    pub closed spec fn node_key(&self, h: u32) -> u128 {
        if is_leaf_handle(h) {
            self.leaf_nodes@[h as int].key
        } else {
            self.inner_nodes@[inner_index(h)].key
        }
    }

    /// What a valid subtree holds: finitely many leaves, one more than its
    /// inner nodes, all in range and below it in depth; its keys map to its
    /// leaves and back, and agree with the node's key on its prefix.
    pub proof fn lemma_sub_props(&self, h: u32)
        requires
            self.node_ok(h),
        ensures
            self.sub_leaves(h).finite(),
            self.sub_inners(h).finite(),
            self.sub_inners(h).len() + 1 == self.sub_leaves(h).len(),
            forall|x: int| #[trigger]
                self.sub_leaves(h).contains(x) ==> 0 <= x < self.leaf_nodes.len(),
            forall|i: int| #[trigger]
                self.sub_inners(h).contains(i) ==> 0 <= i < self.inner_nodes.len()
                    && self.inner_nodes@[i].prefix_len >= self.depth(h)
                    && self.inner_nodes@[i].prefix_len < 128,
            forall|k: u128| #[trigger]
                self.sub_keys(h).contains_key(k) ==> is_leaf_handle(self.sub_keys(h)[k])
                    && self.sub_leaves(h).contains(self.sub_keys(h)[k] as int)
                    && self.leaf_nodes@[self.sub_keys(h)[k] as int].key == k
                    && prefix_agree(k, self.node_key(h), self.depth(h)),
            forall|x: int| #[trigger]
                self.sub_leaves(h).contains(x) ==> self.sub_keys(h).contains_key(
                    self.leaf_nodes@[x].key,
                ) && self.sub_keys(h)[self.leaf_nodes@[x].key] == x,
            self.sub_keys(h).contains_key(self.node_key_witness(h)),
            is_leaf_handle(h) ==> self.sub_leaves(h) == set![h as int] && self.sub_inners(h)
                =~= Set::<int>::empty(),
            !is_leaf_handle(h) ==> self.sub_inners(h).contains(inner_index(h)),
        decreases 128 - self.depth(h),
    {
        if is_leaf_handle(h) {
            assert(self.sub_inners(h) =~= Set::<int>::empty());
        } else {
            let i = inner_index(h);
            let n = self.inner_nodes@[i];
            let c0 = self.child(h, 0);
            let c1 = self.child(h, 1);
            self.lemma_sub_props(c0);
            self.lemma_sub_props(c1);
            let l0 = self.sub_leaves(c0);
            let l1 = self.sub_leaves(c1);
            let i0 = self.sub_inners(c0);
            let i1 = self.sub_inners(c1);
            let k0 = self.sub_keys(c0);
            let k1 = self.sub_keys(c1);
            assert(self.sub_leaves(h) == l0.union(l1));
            assert(self.sub_inners(h) == i0.union(i1).insert(i));
            assert(self.sub_keys(h) == k0.union_prefer_right(k1));
            vstd::set_lib::lemma_set_disjoint_lens(l0, l1);
            vstd::set_lib::lemma_set_disjoint_lens(i0, i1);
            assert(!i0.union(i1).contains(i));
            // keys of the two sides are distinct
            assert forall|k: u128| k0.contains_key(k) implies !k1.contains_key(k) by {
                if k1.contains_key(k) {
                    assert(bit_at(k, n.prefix_len as int) == false);
                    assert(bit_at(k, n.prefix_len as int) == true);
                }
            }
            assert forall|k: u128| #[trigger]
                self.sub_keys(h).contains_key(k) implies is_leaf_handle(self.sub_keys(h)[k])
                && self.sub_leaves(h).contains(self.sub_keys(h)[k] as int)
                && self.leaf_nodes@[self.sub_keys(h)[k] as int].key == k && prefix_agree(
                k,
                self.node_key(h),
                self.depth(h),
            ) by {
                if k1.contains_key(k) {
                    assert(k1.contains_key(k));
                } else {
                    assert(k0.contains_key(k));
                }
            }
            assert forall|x: int| #[trigger]
                self.sub_leaves(h).contains(x) implies self.sub_keys(h).contains_key(
                self.leaf_nodes@[x].key,
            ) && self.sub_keys(h)[self.leaf_nodes@[x].key] == x by {
                if l0.contains(x) {
                    let k = self.leaf_nodes@[x].key;
                    assert(k0.contains_key(k));
                    assert(!k1.contains_key(k));
                } else {
                    assert(l1.contains(x));
                }
            }
            let w = self.node_key_witness(c0);
            assert(k0.contains_key(w));
            assert(self.node_key_witness(h) == w);
        }
    }

    /// Some key of the subtree: the key of its leftmost leaf.
    pub closed spec fn node_key_witness(&self, h: u32) -> u128
        decreases 128 - self.depth(h),
    {
        if is_leaf_handle(h) {
            self.leaf_nodes@[h as int].key
        } else if self.depth(h) < 128 && self.descends(h, 0) {
            self.node_key_witness(self.child(h, 0))
        } else {
            0
        }
    }
}


impl<C> Slab<C> {
    /// A valid subtree only depends on the keys of its leaves and on its
    /// inner nodes: another slab that agrees on those has the same subtree.
    pub proof fn lemma_frame(s: Slab<C>, t: Slab<C>, h: u32)
        requires
            s.node_ok(h),
            t.leaf_nodes.len() == s.leaf_nodes.len(),
            t.inner_nodes.len() == s.inner_nodes.len(),
            forall|x: int| #[trigger]
                s.sub_leaves(h).contains(x) ==> t.leaf_nodes@[x].key == s.leaf_nodes@[x].key,
            forall|i: int| #[trigger]
                s.sub_inners(h).contains(i) ==> t.inner_nodes@[i] == s.inner_nodes@[i],
        ensures
            t.node_ok(h),
            t.depth(h) == s.depth(h),
            t.sub_leaves(h) == s.sub_leaves(h),
            t.sub_inners(h) == s.sub_inners(h),
            t.sub_keys(h) == s.sub_keys(h),
        decreases 128 - s.depth(h),
    {
        s.lemma_sub_props(h);
        if !is_leaf_handle(h) {
            let i = inner_index(h);
            assert(s.sub_inners(h).contains(i));
            let c0 = s.child(h, 0);
            let c1 = s.child(h, 1);
            assert(t.child(h, 0) == c0);
            assert(t.child(h, 1) == c1);
            s.lemma_unfold(h);
            assert forall|x: int| #[trigger] s.sub_leaves(c0).contains(x) implies t.leaf_nodes@[x].key
                == s.leaf_nodes@[x].key by {
                assert(s.sub_leaves(h).contains(x));
            }
            assert forall|x: int| #[trigger] s.sub_leaves(c1).contains(x) implies t.leaf_nodes@[x].key
                == s.leaf_nodes@[x].key by {
                assert(s.sub_leaves(h).contains(x));
            }
            assert forall|x: int| #[trigger] s.sub_inners(c0).contains(x) implies t.inner_nodes@[x]
                == s.inner_nodes@[x] by {
                assert(s.sub_inners(h).contains(x));
            }
            assert forall|x: int| #[trigger] s.sub_inners(c1).contains(x) implies t.inner_nodes@[x]
                == s.inner_nodes@[x] by {
                assert(s.sub_inners(h).contains(x));
            }
            Self::lemma_frame(s, t, c0);
            Self::lemma_frame(s, t, c1);
        }
    }

    /// In a valid inner node, every key on side 0 is below every key on
    /// side 1.
    pub proof fn lemma_children_ordered(&self, h: u32, k0: u128, k1: u128)
        requires
            self.node_ok(h),
            !is_leaf_handle(h),
            self.sub_keys(self.child(h, 0)).contains_key(k0),
            self.sub_keys(self.child(h, 1)).contains_key(k1),
        ensures
            k0 < k1,
    {
        let n = self.inner_nodes@[inner_index(h)];
        assert(Self::side_ok(n, self.sub_keys(self.child(h, 0)), 0));
        assert(Self::side_ok(n, self.sub_keys(self.child(h, 1)), 1));
        assert(prefix_agree(k0, n.key, n.prefix_len as int));
        assert(prefix_agree(k1, n.key, n.prefix_len as int));
        lemma_agree_order(k0, k1, n.prefix_len as int);
    }

    /// The keys of each child of a valid inner node are keys of the node.
    pub proof fn lemma_child_submap(&self, h: u32)
        requires
            self.node_ok(h),
            !is_leaf_handle(h),
        ensures
            self.sub_keys(self.child(h, 0)).submap_of(self.sub_keys(h)),
            self.sub_keys(self.child(h, 1)).submap_of(self.sub_keys(h)),
    {
        self.lemma_unfold(h);
        let c0 = self.child(h, 0);
        let c1 = self.child(h, 1);
        assert forall|k: u128| #[trigger] self.sub_keys(c0).contains_key(k) implies !self.sub_keys(
            c1,
        ).contains_key(k) by {
            if self.sub_keys(c1).contains_key(k) {
                self.lemma_children_ordered(h, k, k);
            }
        }
    }

    /// The subtree of a valid inner node is its own node plus the subtrees
    /// of its children.
    pub proof fn lemma_unfold(&self, h: u32)
        requires
            self.node_ok(h),
            !is_leaf_handle(h),
        ensures
            self.sub_leaves(h) == self.sub_leaves(self.child(h, 0)).union(
                self.sub_leaves(self.child(h, 1)),
            ),
            self.sub_inners(h) == self.sub_inners(self.child(h, 0)).union(
                self.sub_inners(self.child(h, 1)),
            ).insert(inner_index(h)),
            self.sub_keys(h) == self.sub_keys(self.child(h, 0)).union_prefer_right(
                self.sub_keys(self.child(h, 1)),
            ),
            self.depth(h) == self.inner_nodes@[inner_index(h)].prefix_len,
            self.depth(self.child(h, 0)) > self.depth(h),
            self.depth(self.child(h, 1)) > self.depth(h),
            self.node_ok(self.child(h, 0)),
            self.node_ok(self.child(h, 1)),
            Self::side_ok(self.inner_nodes@[inner_index(h)], self.sub_keys(self.child(h, 0)), 0),
            Self::side_ok(self.inner_nodes@[inner_index(h)], self.sub_keys(self.child(h, 1)), 1),
            self.sub_leaves(self.child(h, 0)).disjoint(self.sub_leaves(self.child(h, 1))),
            self.sub_inners(self.child(h, 0)).disjoint(self.sub_inners(self.child(h, 1))),
            !self.sub_inners(self.child(h, 0)).contains(inner_index(h)),
            !self.sub_inners(self.child(h, 1)).contains(inner_index(h)),
            0 <= inner_index(h) < self.inner_nodes.len(),
    {
    }
}


/// Every key of `a` is a key of `b` with the same handle.
pub open spec fn keys_within(a: Map<u128, u32>, b: Map<u128, u32>) -> bool {
    forall|k: u128| #[trigger] a.contains_key(k) ==> b.contains_key(k) && b[k] == a[k]
}

/// The handle of the inner node at index `i`.
pub open spec fn handle_of_inner(i: int) -> u32 {
    (0xFFFF_FFFF - i) as u32
}

/// Agreeing on `n + 1` bits is agreeing on bit `n`.
pub proof fn lemma_agree_bit(a: u128, b: u128, n: int)
    requires
        0 <= n < 128,
        prefix_agree(a, b, n + 1),
    ensures
        bit_at(a, n) == bit_at(b, n),
        prefix_agree(a, b, n),
{
    lemma_agree_mono(a, b, n, n + 1);
}

impl<C> Slab<C> {
    /// The subtree of an inner node of a valid subtree lies inside it.
    pub proof fn lemma_contains(&self, g: u32, x: int)
        requires
            self.node_ok(g),
            self.sub_inners(g).contains(x),
        ensures
            inner_index(handle_of_inner(x)) == x,
            !is_leaf_handle(handle_of_inner(x)),
            self.node_ok(handle_of_inner(x)),
            self.depth(handle_of_inner(x)) >= self.depth(g),
            self.sub_leaves(handle_of_inner(x)).subset_of(self.sub_leaves(g)),
            self.sub_inners(handle_of_inner(x)).subset_of(self.sub_inners(g)),
            self.sub_keys(handle_of_inner(x)).submap_of(self.sub_keys(g)),
        decreases 128 - self.depth(g),
    {
        self.lemma_sub_props(g);
        if inner_index(g) == x {
            assert(g == handle_of_inner(x));
        } else {
            self.lemma_unfold(g);
            let c0 = self.child(g, 0);
            let c1 = self.child(g, 1);
            let d = if self.sub_inners(c0).contains(x) {
                c0
            } else {
                c1
            };
            self.lemma_contains(d, x);
            let xh = handle_of_inner(x);
            assert forall|k: u128| #[trigger]
                self.sub_keys(xh).contains_key(k) implies self.sub_keys(g).contains_key(k)
                && self.sub_keys(g)[k] == self.sub_keys(xh)[k] by {
                self.lemma_sub_props(c0);
                self.lemma_sub_props(c1);
                if d == c0 {
                    if self.sub_keys(c1).contains_key(k) {
                        self.lemma_children_ordered(g, k, k);
                    }
                }
            }
        }
    }

    /// Replacing the subtree below child `c` of the inner node `x` by a
    /// subtree `nc` that fits there changes the enclosing subtree `h` only
    /// there: its leaves, inner nodes and keys lose those of the old child
    /// and gain those of `nc`.
    pub proof fn lemma_replace(s: Slab<C>, t: Slab<C>, h: u32, x: int, c: int, nc: u32)
        requires
            s.node_ok(h),
            s.sub_inners(h).contains(x),
            c == 0 || c == 1,
            t.leaf_nodes.len() == s.leaf_nodes.len(),
            t.inner_nodes.len() == s.inner_nodes.len(),
            t.inner_nodes@[x].key == s.inner_nodes@[x].key,
            t.inner_nodes@[x].prefix_len == s.inner_nodes@[x].prefix_len,
            t.inner_nodes@[x].children[1 - c] == s.inner_nodes@[x].children[1 - c],
            t.inner_nodes@[x].children[c] == nc,
            forall|y: int| #[trigger]
                s.sub_leaves(h).contains(y) && !s.sub_leaves(
                    s.child(handle_of_inner(x), c),
                ).contains(y) ==> t.leaf_nodes@[y].key == s.leaf_nodes@[y].key,
            forall|i: int| #[trigger]
                s.sub_inners(h).contains(i) && !s.sub_inners(
                    s.child(handle_of_inner(x), c),
                ).contains(i) && i != x ==> t.inner_nodes@[i] == s.inner_nodes@[i],
            t.node_ok(nc),
            t.depth(nc) > s.inner_nodes@[x].prefix_len,
            forall|k: u128, k2: u128|
                t.sub_keys(nc).contains_key(k) && s.sub_keys(
                    s.child(handle_of_inner(x), c),
                ).contains_key(k2) ==> prefix_agree(k, k2, s.inner_nodes@[x].prefix_len + 1),
            t.sub_leaves(nc).disjoint(
                s.sub_leaves(h).difference(s.sub_leaves(s.child(handle_of_inner(x), c))),
            ),
            t.sub_inners(nc).disjoint(
                s.sub_inners(h).difference(s.sub_inners(s.child(handle_of_inner(x), c))),
            ),
        ensures
            t.node_ok(h),
            t.depth(h) == s.depth(h),
            t.sub_leaves(h) == s.sub_leaves(h).difference(
                s.sub_leaves(s.child(handle_of_inner(x), c)),
            ).union(t.sub_leaves(nc)),
            t.sub_inners(h) == s.sub_inners(h).difference(
                s.sub_inners(s.child(handle_of_inner(x), c)),
            ).union(t.sub_inners(nc)),
            t.sub_keys(h) == s.sub_keys(h).remove_keys(
                s.sub_keys(s.child(handle_of_inner(x), c)).dom(),
            ).union_prefer_right(t.sub_keys(nc)),
        decreases 128 - s.depth(h),
    {
        let xh = handle_of_inner(x);
        let r = s.child(xh, c);
        s.lemma_sub_props(h);
        s.lemma_contains(h, x);
        s.lemma_unfold(xh);
        s.lemma_sub_props(r);
        t.lemma_sub_props(nc);
        let i = inner_index(h);
        s.lemma_unfold(h);
        let c0 = s.child(h, 0);
        let c1 = s.child(h, 1);
        s.lemma_sub_props(c0);
        s.lemma_sub_props(c1);
        let p = s.inner_nodes@[x].prefix_len as int;
        let w = s.node_key_witness(r);
        if i == x {
            assert(h == xh);
            let o = s.child(h, 1 - c);
            assert(o == t.child(h, 1 - c));
            assert(nc == t.child(h, c));
            // the other child is untouched
            assert forall|y: int| #[trigger] s.sub_leaves(o).contains(y) implies t.leaf_nodes@[y].key
                == s.leaf_nodes@[y].key by {
                assert(s.sub_leaves(h).contains(y));
            }
            assert forall|y: int| #[trigger] s.sub_inners(o).contains(y) implies t.inner_nodes@[y]
                == s.inner_nodes@[y] by {
                assert(s.sub_inners(h).contains(y));
            }
            Self::lemma_frame(s, t, o);
            let n = s.inner_nodes@[x];
            let tn = t.inner_nodes@[x];
            assert(t.depth(h) == s.depth(h));
            assert(t.sub_leaves(nc).disjoint(s.sub_leaves(o))) by {
                assert forall|y: int| s.sub_leaves(o).contains(y) implies !t.sub_leaves(
                    nc,
                ).contains(y) by {
                    assert(s.sub_leaves(h).contains(y));
                }
            }
            assert(t.sub_inners(nc).disjoint(s.sub_inners(o))) by {
                assert forall|y: int| s.sub_inners(o).contains(y) implies !t.sub_inners(
                    nc,
                ).contains(y) by {
                    assert(s.sub_inners(h).contains(y));
                }
            }
            assert(!t.sub_inners(nc).contains(x)) by {
                assert(s.sub_inners(h).contains(x));
            }
            assert(Self::side_ok(tn, t.sub_keys(nc), c)) by {
                assert forall|k: u128| #[trigger] t.sub_keys(nc).contains_key(k) implies prefix_agree(
                    k,
                    tn.key,
                    tn.prefix_len as int,
                ) && bit_at(k, tn.prefix_len as int) == (c == 1) by {
                    assert(s.sub_keys(r).contains_key(w));
                    lemma_agree_bit(k, w, p);
                    if c == 0 {
                        assert(Self::side_ok(n, s.sub_keys(r), 0));
                    } else {
                        assert(Self::side_ok(n, s.sub_keys(r), 1));
                    }
                    lemma_agree_trans(k, w, n.key, p);
                }
            }
            assert(Self::side_ok(tn, t.sub_keys(o), 1 - c)) by {
                if c == 0 {
                    assert(Self::side_ok(n, s.sub_keys(o), 1));
                } else {
                    assert(Self::side_ok(n, s.sub_keys(o), 0));
                }
            }
            if c == 0 {
                assert(t.node_ok(h));
            } else {
                assert(t.node_ok(h));
            }
            assert(s.sub_leaves(h).difference(s.sub_leaves(r)) =~= s.sub_leaves(o));
            assert(s.sub_inners(h).difference(s.sub_inners(r)) =~= s.sub_inners(o).insert(x));
            assert(t.sub_leaves(h) =~= s.sub_leaves(o).union(t.sub_leaves(nc)));
            assert(t.sub_inners(h) =~= s.sub_inners(o).insert(x).union(t.sub_inners(nc)));
            // the key maps
            assert(s.sub_keys(h).remove_keys(s.sub_keys(r).dom()) =~= s.sub_keys(o)) by {
                assert forall|k: u128| #[trigger]
                    s.sub_keys(o).contains_key(k) implies !s.sub_keys(r).contains_key(k) by {
                    if s.sub_keys(r).contains_key(k) {
                        if c == 0 {
                            s.lemma_children_ordered(h, k, k);
                        } else {
                            s.lemma_children_ordered(h, k, k);
                        }
                    }
                }
            }
            assert forall|k: u128| #[trigger]
                t.sub_keys(nc).contains_key(k) implies !s.sub_keys(o).contains_key(k) by {
                assert(s.sub_keys(r).contains_key(w));
                lemma_agree_bit(k, w, p);
                if s.sub_keys(o).contains_key(k) {
                    if c == 0 {
                        assert(Self::side_ok(n, s.sub_keys(r), 0));
                        assert(Self::side_ok(n, s.sub_keys(o), 1));
                    } else {
                        assert(Self::side_ok(n, s.sub_keys(r), 1));
                        assert(Self::side_ok(n, s.sub_keys(o), 0));
                    }
                }
            }
            if c == 0 {
                assert(t.sub_keys(h) =~= s.sub_keys(o).union_prefer_right(t.sub_keys(nc)));
            } else {
                assert(t.sub_keys(h) =~= s.sub_keys(o).union_prefer_right(t.sub_keys(nc)));
            }
        } else {
            let d = if s.sub_inners(c0).contains(x) {
                0int
            } else {
                1int
            };
            let cd = s.child(h, d);
            let ce = s.child(h, 1 - d);
            assert(s.sub_inners(cd).contains(x));
            s.lemma_contains(cd, x);
            assert(s.sub_leaves(r).subset_of(s.sub_leaves(cd)));
            assert(s.sub_inners(r).subset_of(s.sub_inners(cd)));
            // the requirements hold of the child that holds x
            assert forall|y: int| #[trigger]
                s.sub_leaves(cd).contains(y) && !s.sub_leaves(r).contains(y) implies t.leaf_nodes@[y].key
                == s.leaf_nodes@[y].key by {
                assert(s.sub_leaves(h).contains(y));
            }
            assert forall|y: int| #[trigger]
                s.sub_inners(cd).contains(y) && !s.sub_inners(r).contains(y) && y != x implies t.inner_nodes@[y]
                == s.inner_nodes@[y] by {
                assert(s.sub_inners(h).contains(y));
            }
            assert(t.sub_leaves(nc).disjoint(s.sub_leaves(cd).difference(s.sub_leaves(r)))) by {
                assert forall|y: int|
                    s.sub_leaves(cd).difference(s.sub_leaves(r)).contains(y) implies !t.sub_leaves(
                    nc,
                ).contains(y) by {
                    assert(s.sub_leaves(h).contains(y));
                }
            }
            assert(t.sub_inners(nc).disjoint(s.sub_inners(cd).difference(s.sub_inners(r)))) by {
                assert forall|y: int|
                    s.sub_inners(cd).difference(s.sub_inners(r)).contains(y) implies !t.sub_inners(
                    nc,
                ).contains(y) by {
                    assert(s.sub_inners(h).contains(y));
                }
            }
            Self::lemma_replace(s, t, cd, x, c, nc);
            // the other child is untouched
            assert forall|y: int| #[trigger] s.sub_leaves(ce).contains(y) implies t.leaf_nodes@[y].key
                == s.leaf_nodes@[y].key by {
                assert(s.sub_leaves(h).contains(y));
            }
            assert forall|y: int| #[trigger] s.sub_inners(ce).contains(y) implies t.inner_nodes@[y]
                == s.inner_nodes@[y] by {
                assert(s.sub_inners(h).contains(y));
            }
            Self::lemma_frame(s, t, ce);
            assert(s.sub_inners(h).contains(i));
            assert(!s.sub_inners(r).contains(i));
            assert(t.inner_nodes@[i] == s.inner_nodes@[i]);
            assert(t.child(h, d) == cd);
            assert(t.child(h, 1 - d) == ce);
            let n = s.inner_nodes@[i];
            assert(t.depth(h) == s.depth(h));
            // the keys of the replaced child still fit this node
            assert(s.inner_nodes@[x].prefix_len >= s.depth(cd));
            assert(Self::side_ok(n, t.sub_keys(cd), d)) by {
                assert(Self::side_ok(n, s.sub_keys(cd), d));
                assert forall|k: u128| #[trigger] t.sub_keys(cd).contains_key(k) implies prefix_agree(
                    k,
                    n.key,
                    n.prefix_len as int,
                ) && bit_at(k, n.prefix_len as int) == (d == 1) by {
                    if t.sub_keys(nc).contains_key(k) {
                        assert(s.sub_keys(r).contains_key(w));
                        assert(s.sub_keys(cd).contains_key(w));
                        lemma_agree_mono(k, w, n.prefix_len + 1, p + 1);
                        lemma_agree_bit(k, w, n.prefix_len as int);
                        lemma_agree_trans(k, w, n.key, n.prefix_len as int);
                    } else {
                        assert(s.sub_keys(cd).contains_key(k));
                    }
                }
            }
            assert(t.sub_leaves(cd).disjoint(s.sub_leaves(ce))) by {
                assert forall|y: int| s.sub_leaves(ce).contains(y) implies !t.sub_leaves(
                    cd,
                ).contains(y) by {
                    assert(s.sub_leaves(h).contains(y));
                }
            }
            assert(t.sub_inners(cd).disjoint(s.sub_inners(ce))) by {
                assert forall|y: int| s.sub_inners(ce).contains(y) implies !t.sub_inners(
                    cd,
                ).contains(y) by {
                    assert(s.sub_inners(h).contains(y));
                }
            }
            assert(!t.sub_inners(cd).contains(i)) by {
                assert(s.sub_inners(h).contains(i));
            }
            if d == 0 {
                assert(t.node_ok(h));
            } else {
                assert(t.node_ok(h));
            }
            assert(t.sub_leaves(h) =~= s.sub_leaves(h).difference(s.sub_leaves(r)).union(
                t.sub_leaves(nc),
            ));
            assert(t.sub_inners(h) =~= s.sub_inners(h).difference(s.sub_inners(r)).union(
                t.sub_inners(nc),
            ));
            // the key maps
            assert forall|k: u128| #[trigger] s.sub_keys(ce).contains_key(k) implies !t.sub_keys(
                cd,
            ).contains_key(k) by {
                assert(Self::side_ok(n, s.sub_keys(ce), 1 - d));
            }
            assert forall|k: u128| #[trigger] s.sub_keys(ce).contains_key(k) implies !s.sub_keys(
                r,
            ).contains_key(k) by {
                if s.sub_keys(r).contains_key(k) {
                    assert(s.sub_keys(cd).contains_key(k));
                    assert(Self::side_ok(n, s.sub_keys(ce), 1 - d));
                    assert(Self::side_ok(n, s.sub_keys(cd), d));
                }
            }
            assert(t.sub_keys(h) =~= s.sub_keys(h).remove_keys(s.sub_keys(r).dom()).union_prefer_right(
                t.sub_keys(nc),
            ));
        }
    }
}


// ------------------------------------------------------------------------
// The free lists.
proof fn lemma_no_dup_cons(x: u32, s: Seq<u32>)
    requires
        s.no_duplicates(),
        !s.contains(x),
    ensures
        (seq![x] + s).no_duplicates(),
{
    let t = seq![x] + s;
    assert forall|i: int, j: int| 0 <= i < t.len() && 0 <= j < t.len() && i != j implies t[i] != t[j] by {
        if i == 0 && j > 0 {
            assert(t[j] == s[j - 1]);
        } else if j == 0 && i > 0 {
            assert(t[i] == s[i - 1]);
        } else if i > 0 && j > 0 {
            assert(t[i] == s[i - 1]);
            assert(t[j] == s[j - 1]);
        }
    }
}

impl<C> Slab<C> {
    proof fn lemma_leaf_seq_frame(s: Slab<C>, t: Slab<C>, head: u32, n: nat)
        requires
            forall|j: int|
                0 <= j < n ==> #[trigger] t.leaf_nodes@[s.leaf_free_seq(head, n)[j] as int].base_quantity
                    == s.leaf_nodes@[s.leaf_free_seq(head, n)[j] as int].base_quantity,
        ensures
            t.leaf_free_seq(head, n) == s.leaf_free_seq(head, n),
            s.leaf_free_seq(head, n).len() == n,
        decreases n,
    {
        if n > 0 {
            let next = s.leaf_nodes@[head as int].base_quantity as u32;
            let rest = s.leaf_free_seq(next, (n - 1) as nat);
            s.lemma_leaf_seq_len(next, (n - 1) as nat);
            assert(s.leaf_free_seq(head, n) == seq![head] + rest);
            assert(s.leaf_free_seq(head, n)[0] == head);
            assert forall|j: int| 0 <= j < n - 1 implies #[trigger] t.leaf_nodes@[rest[j] as int].base_quantity
                == s.leaf_nodes@[rest[j] as int].base_quantity by {
                assert(s.leaf_free_seq(head, n)[j + 1] == rest[j]);
            }
            Self::lemma_leaf_seq_frame(s, t, next, (n - 1) as nat);
            assert(t.leaf_nodes@[head as int].base_quantity == s.leaf_nodes@[head as int].base_quantity);
        }
    }

    proof fn lemma_inner_seq_frame(s: Slab<C>, t: Slab<C>, head: u32, n: nat)
        requires
            forall|j: int|
                0 <= j < n ==> #[trigger] t.inner_nodes@[s.inner_free_seq(head, n)[j] as int].prefix_len
                    == s.inner_nodes@[s.inner_free_seq(head, n)[j] as int].prefix_len,
        ensures
            t.inner_free_seq(head, n) == s.inner_free_seq(head, n),
            s.inner_free_seq(head, n).len() == n,
        decreases n,
    {
        if n > 0 {
            let next = s.inner_nodes@[head as int].prefix_len as u32;
            let rest = s.inner_free_seq(next, (n - 1) as nat);
            s.lemma_inner_seq_len(next, (n - 1) as nat);
            assert(s.inner_free_seq(head, n) == seq![head] + rest);
            assert(s.inner_free_seq(head, n)[0] == head);
            assert forall|j: int| 0 <= j < n - 1 implies #[trigger] t.inner_nodes@[rest[j] as int].prefix_len
                == s.inner_nodes@[rest[j] as int].prefix_len by {
                assert(s.inner_free_seq(head, n)[j + 1] == rest[j]);
            }
            Self::lemma_inner_seq_frame(s, t, next, (n - 1) as nat);
            assert(t.inner_nodes@[head as int].prefix_len == s.inner_nodes@[head as int].prefix_len);
        }
    }

    /// The leaf free list only depends on the base quantities of its own
    /// leaves.
    proof fn lemma_leaf_list_frame(s: Slab<C>, t: Slab<C>)
        requires
            t.header.leaf_free_list_head == s.header.leaf_free_list_head,
            t.header.leaf_free_list_len == s.header.leaf_free_list_len,
            forall|x: u32| #[trigger]
                s.leaf_free_list().contains(x) ==> t.leaf_nodes@[x as int].base_quantity
                    == s.leaf_nodes@[x as int].base_quantity,
        ensures
            t.leaf_free_list() == s.leaf_free_list(),
    {
        let sq = s.leaf_free_list();
        assert forall|j: int| 0 <= j < s.header.leaf_free_list_len as nat implies #[trigger] t.leaf_nodes@[sq[j] as int].base_quantity
            == s.leaf_nodes@[sq[j] as int].base_quantity by {
            s.lemma_leaf_seq_len(s.header.leaf_free_list_head, s.header.leaf_free_list_len as nat);
            assert(sq.contains(sq[j]));
        }
        Self::lemma_leaf_seq_frame(s, t, s.header.leaf_free_list_head, s.header.leaf_free_list_len as nat);
    }

    /// The inner free list only depends on the prefix lengths of its own
    /// nodes.
    proof fn lemma_inner_list_frame(s: Slab<C>, t: Slab<C>)
        requires
            t.header.inner_node_free_list_head == s.header.inner_node_free_list_head,
            t.header.inner_node_free_list_len == s.header.inner_node_free_list_len,
            forall|x: u32| #[trigger]
                s.inner_free_list().contains(x) ==> t.inner_nodes@[x as int].prefix_len
                    == s.inner_nodes@[x as int].prefix_len,
        ensures
            t.inner_free_list() == s.inner_free_list(),
    {
        let sq = s.inner_free_list();
        assert forall|j: int| 0 <= j < s.header.inner_node_free_list_len as nat implies #[trigger] t.inner_nodes@[sq[j] as int].prefix_len
            == s.inner_nodes@[sq[j] as int].prefix_len by {
            s.lemma_inner_seq_len(s.header.inner_node_free_list_head, s.header.inner_node_free_list_len as nat);
            assert(sq.contains(sq[j]));
        }
        Self::lemma_inner_seq_frame(s, t, s.header.inner_node_free_list_head, s.header.inner_node_free_list_len as nat);
    }

    proof fn lemma_leaf_seq_len(&self, head: u32, n: nat)
        ensures
            self.leaf_free_seq(head, n).len() == n,
        decreases n,
    {
        if n > 0 {
            self.lemma_leaf_seq_len(self.leaf_nodes@[head as int].base_quantity as u32, (n - 1) as nat);
        }
    }

    proof fn lemma_inner_seq_len(&self, head: u32, n: nat)
        ensures
            self.inner_free_seq(head, n).len() == n,
        decreases n,
    {
        if n > 0 {
            self.lemma_inner_seq_len(self.inner_nodes@[head as int].prefix_len as u32, (n - 1) as nat);
        }
    }

    /// Takes a leaf from the free list, or else from the bump index. Fails
    /// when neither has one left.
    pub(crate) fn allocate_leaf(&mut self) -> (r: Result<NodeHandle, AoError>)
        requires
            old(self).alloc_ok(),
        ensures
            r is Err <==> old(self).header.leaf_free_list_len == 0
                && old(self).header.leaf_bump_index >= old(self).leaf_nodes.len(),
            r is Err ==> *final(self) == *old(self) && r == Err::<NodeHandle, AoError>(
                AoError::SlabOutOfSpace,
            ),
            r matches Ok(h) ==> {
                &&& final(self).alloc_ok()
                &&& final(self).leaf_nodes == old(self).leaf_nodes
                &&& final(self).inner_nodes == old(self).inner_nodes
                &&& final(self).callback_infos == old(self).callback_infos
                &&& h < final(self).header.leaf_bump_index
                &&& h < final(self).leaf_nodes.len()
                &&& (old(self).header.leaf_free_list_len == 0 ==> h
                    == old(self).header.leaf_bump_index)
                &&& (old(self).header.leaf_free_list_len > 0 ==> h
                    == old(self).leaf_free_list()[0])
                &&& (old(self).header.leaf_free_list_len > 0 ==> {
                    &&& final(self).leaf_free_list() == old(self).leaf_free_list().drop_first()
                    &&& final(self).header.leaf_free_list_len == old(
                        self,
                    ).header.leaf_free_list_len - 1
                    &&& final(self).header.leaf_bump_index == old(self).header.leaf_bump_index
                })
                &&& (old(self).header.leaf_free_list_len == 0 ==> {
                    &&& final(self).leaf_free_list() == old(self).leaf_free_list()
                    &&& final(self).header.leaf_free_list_len == 0
                    &&& final(self).header.leaf_bump_index == old(self).header.leaf_bump_index
                        + 1
                })
                &&& !final(self).leaf_free_list().contains(h)
                &&& forall|j: int|
                    0 <= j < final(self).leaf_free_list().len() ==> old(
                        self,
                    ).leaf_free_list().contains(#[trigger] final(self).leaf_free_list()[j])
                &&& final(self).header.leaf_bump_index - final(self).header.leaf_free_list_len
                    == old(self).header.leaf_bump_index - old(self).header.leaf_free_list_len + 1
                &&& final(self).header.leaf_bump_index >= old(self).header.leaf_bump_index
                &&& final(self).header.inner_node_free_list_len == old(
                    self,
                ).header.inner_node_free_list_len
                &&& final(self).header.inner_node_free_list_head == old(
                    self,
                ).header.inner_node_free_list_head
                &&& final(self).header.inner_node_bump_index == old(self).header.inner_node_bump_index
                &&& final(self).header.root_node == old(self).header.root_node
                &&& final(self).header.leaf_count == old(self).header.leaf_count
                &&& final(self).header.market_address == old(self).header.market_address
                &&& final(self).inner_free_list() == old(self).inner_free_list()
            },
    {
        proof {
            self.lemma_leaf_seq_len(self.header.leaf_free_list_head, self.header.leaf_free_list_len as nat);
        }
        if self.header.leaf_free_list_len == 0 {
            if self.header.leaf_bump_index as usize >= self.leaf_nodes.len() {
                return Err(AoError::SlabOutOfSpace);
            }
            let ghost s0 = *self;
            let key = self.header.leaf_bump_index;
            self.header.leaf_bump_index = self.header.leaf_bump_index + 1;
            proof {
                assert(self.leaf_free_list() =~= Seq::<u32>::empty());
                Self::lemma_inner_seq_frame(s0, *self, s0.header.inner_node_free_list_head,
                    s0.header.inner_node_free_list_len as nat);
            }
            return Ok(key);
        }
        let ghost s = *self;
        let key = self.header.leaf_free_list_head;
        proof {
            assert(s.leaf_free_list()[0] == key);
            assert(s.leaf_free_list().contains(key));
        }
        let free_leaf = self.leaf_nodes[key as usize];
        let next = free_leaf.base_quantity as u32;
        self.header.leaf_free_list_head = next;
        self.header.leaf_free_list_len = self.header.leaf_free_list_len - 1;
        proof {
            let n = s.header.leaf_free_list_len as nat;
            s.lemma_leaf_seq_len(next, (n - 1) as nat);
            assert(s.leaf_free_seq(key, n) == seq![key] + s.leaf_free_seq(next, (n - 1) as nat));
            assert(s.leaf_free_list().drop_first() =~= s.leaf_free_seq(next, (n - 1) as nat));
            Self::lemma_leaf_seq_frame(s, *self, next, (n - 1) as nat);
            Self::lemma_inner_seq_frame(s, *self, s.header.inner_node_free_list_head, s.header.inner_node_free_list_len as nat);
            assert(self.leaf_free_list() == s.leaf_free_list().drop_first());
            assert(self.leaf_free_list() =~= s.leaf_free_list().subrange(1, n as int));
            assert forall|j: int| 0 <= j < self.leaf_free_list().len() implies s.leaf_free_list().contains(
                #[trigger] self.leaf_free_list()[j],
            ) by {
                assert(self.leaf_free_list()[j] == s.leaf_free_list()[j + 1]);
            }
            if self.leaf_free_list().contains(key) {
                let j = choose|j: int| 0 <= j < self.leaf_free_list().len() && self.leaf_free_list()[j] == key;
                assert(s.leaf_free_list()[j + 1] == key);
            }
        }
        Ok(key)
    }

    /// Puts a leaf back on the free list; its base quantity then holds the
    /// next free leaf.
    pub(crate) fn free_leaf(&mut self, handle: NodeHandle)
        requires
            old(self).alloc_ok(),
            handle < old(self).header.leaf_bump_index,
            !old(self).leaf_free_list().contains(handle),
            old(self).header.leaf_free_list_len < old(self).header.leaf_bump_index,
        ensures
            final(self).alloc_ok(),
            final(self).leaf_free_list() == seq![handle] + old(self).leaf_free_list(),
            final(self).leaf_nodes.len() == old(self).leaf_nodes.len(),
            forall|x: int|
                0 <= x < old(self).leaf_nodes.len() && x != handle ==> final(self).leaf_nodes@[x]
                    == old(self).leaf_nodes@[x],
            final(self).leaf_nodes@[handle as int].key == old(self).leaf_nodes@[handle as int].key,
            final(self).inner_nodes == old(self).inner_nodes,
            final(self).callback_infos == old(self).callback_infos,
            final(self).header == (SlabHeader {
                leaf_free_list_len: (old(self).header.leaf_free_list_len + 1) as u32,
                leaf_free_list_head: handle,
                ..old(self).header
            }),
            final(self).inner_free_list() == old(self).inner_free_list(),
    {
        let ghost s = *self;
        proof {
            self.lemma_leaf_seq_len(self.header.leaf_free_list_head, self.header.leaf_free_list_len as nat);
        }
        if self.header.leaf_free_list_len != 0 {
            let next = self.header.leaf_free_list_head;
            let mut l = self.leaf_nodes[handle as usize];
            l.base_quantity = next as u64;
            self.leaf_nodes.set(handle as usize, l);
        }
        self.header.leaf_free_list_len = self.header.leaf_free_list_len + 1;
        self.header.leaf_free_list_head = handle;
        proof {
            let n = s.header.leaf_free_list_len as nat;
            Self::lemma_leaf_seq_frame(s, *self, s.header.leaf_free_list_head, n);
            Self::lemma_inner_seq_frame(s, *self, s.header.inner_node_free_list_head,
                s.header.inner_node_free_list_len as nat);
            if n > 0 {
                assert((s.header.leaf_free_list_head as u64) as u32 == s.header.leaf_free_list_head);
            }
            if n == 0 {
                assert(self.leaf_free_seq(self.leaf_nodes@[handle as int].base_quantity as u32, 0)
                    =~= Seq::<u32>::empty());
                assert(self.leaf_free_seq(s.header.leaf_free_list_head, 0) =~= Seq::<u32>::empty());
            } else {
                assert(self.leaf_nodes@[handle as int].base_quantity as u32 == s.header.leaf_free_list_head);
            }
            assert(self.leaf_free_seq(handle, n + 1) == seq![handle] + self.leaf_free_seq(
                s.header.leaf_free_list_head, n));
            assert(self.leaf_free_seq(handle, n + 1) =~= seq![handle] + s.leaf_free_list());
            lemma_no_dup_cons(handle, s.leaf_free_list());
        }
    }

    /// Takes an inner node from the free list, or else from the bump index,
    /// and returns its handle. Fails when neither has one left.
    pub(crate) fn allocate_inner_node(&mut self) -> (r: Result<NodeHandle, AoError>)
        requires
            old(self).alloc_ok(),
        ensures
            r is Err <==> old(self).header.inner_node_free_list_len == 0
                && old(self).header.inner_node_bump_index >= old(self).inner_nodes.len(),
            r is Err ==> *final(self) == *old(self),
            r matches Ok(h) ==> {
                &&& final(self).alloc_ok()
                &&& !is_leaf_handle(h)
                &&& final(self).leaf_nodes == old(self).leaf_nodes
                &&& final(self).inner_nodes == old(self).inner_nodes
                &&& final(self).callback_infos == old(self).callback_infos
                &&& inner_index(h) < final(self).header.inner_node_bump_index
                &&& inner_index(h) < final(self).inner_nodes.len()
                &&& (old(self).header.inner_node_free_list_len == 0 ==> inner_index(h)
                    == old(self).header.inner_node_bump_index)
                &&& (old(self).header.inner_node_free_list_len > 0 ==> inner_index(h)
                    == old(self).inner_free_list()[0])
                &&& !final(self).inner_free_list().contains(inner_index(h) as u32)
                &&& forall|j: int|
                    0 <= j < final(self).inner_free_list().len() ==> old(
                        self,
                    ).inner_free_list().contains(#[trigger] final(self).inner_free_list()[j])
                &&& final(self).header.inner_node_bump_index
                    - final(self).header.inner_node_free_list_len == old(
                    self,
                ).header.inner_node_bump_index - old(self).header.inner_node_free_list_len + 1
                &&& final(self).header.inner_node_bump_index >= old(self).header.inner_node_bump_index
                &&& final(self).header.leaf_free_list_len == old(self).header.leaf_free_list_len
                &&& final(self).header.leaf_free_list_head == old(self).header.leaf_free_list_head
                &&& final(self).header.leaf_bump_index == old(self).header.leaf_bump_index
                &&& final(self).header.root_node == old(self).header.root_node
                &&& final(self).header.leaf_count == old(self).header.leaf_count
                &&& final(self).header.market_address == old(self).header.market_address
                &&& final(self).leaf_free_list() == old(self).leaf_free_list()
            },
    {
        proof {
            self.lemma_inner_seq_len(
                self.header.inner_node_free_list_head,
                self.header.inner_node_free_list_len as nat,
            );
        }
        if self.header.inner_node_free_list_len == 0 {
            if self.header.inner_node_bump_index as usize >= self.inner_nodes.len() {
                return Err(AoError::SlabOutOfSpace);
            }
            let ghost s0 = *self;
            let key = self.header.inner_node_bump_index;
            self.header.inner_node_bump_index = self.header.inner_node_bump_index + 1;
            proof {
                assert(self.inner_free_list() =~= Seq::<u32>::empty());
                Self::lemma_leaf_seq_frame(s0, *self, s0.header.leaf_free_list_head,
                    s0.header.leaf_free_list_len as nat);
            }
            return Ok(inner_handle(key));
        }
        let ghost s = *self;
        let key = self.header.inner_node_free_list_head;
        proof {
            assert(s.inner_free_list()[0] == key);
            assert(s.inner_free_list().contains(key));
        }
        let free_inner_node = self.inner_nodes[key as usize];
        let next = free_inner_node.prefix_len as u32;
        self.header.inner_node_free_list_head = next;
        self.header.inner_node_free_list_len = self.header.inner_node_free_list_len - 1;
        proof {
            let n = s.header.inner_node_free_list_len as nat;
            s.lemma_inner_seq_len(next, (n - 1) as nat);
            assert(s.inner_free_seq(key, n) == seq![key] + s.inner_free_seq(next, (n - 1) as nat));
            assert(s.inner_free_list().drop_first() =~= s.inner_free_seq(next, (n - 1) as nat));
            Self::lemma_inner_seq_frame(s, *self, next, (n - 1) as nat);
            Self::lemma_leaf_seq_frame(s, *self, s.header.leaf_free_list_head, s.header.leaf_free_list_len as nat);
            assert(self.inner_free_list() == s.inner_free_list().drop_first());
            assert(self.inner_free_list() =~= s.inner_free_list().subrange(1, n as int));
            assert forall|j: int| 0 <= j < self.inner_free_list().len() implies s.inner_free_list().contains(
                #[trigger] self.inner_free_list()[j],
            ) by {
                assert(self.inner_free_list()[j] == s.inner_free_list()[j + 1]);
            }
            if self.inner_free_list().contains(key) {
                let j = choose|j: int| 0 <= j < self.inner_free_list().len() && self.inner_free_list()[j] == key;
                assert(s.inner_free_list()[j + 1] == key);
            }
        }
        Ok(inner_handle(key))
    }

    /// Puts an inner node back on the free list; its prefix length then
    /// holds the next free inner node.
    pub(crate) fn free_inner_node(&mut self, handle: NodeHandle)
        requires
            old(self).alloc_ok(),
            !is_leaf_handle(handle),
            inner_index(handle) < old(self).header.inner_node_bump_index,
            !old(self).inner_free_list().contains(inner_index(handle) as u32),
            old(self).header.inner_node_free_list_len < old(self).header.inner_node_bump_index,
        ensures
            final(self).alloc_ok(),
            final(self).inner_free_list() == seq![inner_index(handle) as u32] + old(
                self,
            ).inner_free_list(),
            final(self).inner_nodes.len() == old(self).inner_nodes.len(),
            forall|x: int|
                0 <= x < old(self).inner_nodes.len() && x != inner_index(handle)
                    ==> final(self).inner_nodes@[x] == old(self).inner_nodes@[x],
            final(self).leaf_nodes == old(self).leaf_nodes,
            final(self).callback_infos == old(self).callback_infos,
            final(self).header == (SlabHeader {
                inner_node_free_list_len: (old(self).header.inner_node_free_list_len + 1) as u32,
                inner_node_free_list_head: inner_index(handle) as u32,
                ..old(self).header
            }),
            final(self).leaf_free_list() == old(self).leaf_free_list(),
    {
        let ghost s = *self;
        let idx = inner_idx(handle);
        proof {
            self.lemma_inner_seq_len(
                self.header.inner_node_free_list_head,
                self.header.inner_node_free_list_len as nat,
            );
        }
        if self.header.inner_node_free_list_len != 0 {
            let next = self.header.inner_node_free_list_head;
            let mut n = self.inner_nodes[idx];
            n.prefix_len = next as u64;
            self.inner_nodes.set(idx, n);
        }
        self.header.inner_node_free_list_len = self.header.inner_node_free_list_len + 1;
        self.header.inner_node_free_list_head = idx as u32;
        proof {
            let n = s.header.inner_node_free_list_len as nat;
            Self::lemma_inner_seq_frame(s, *self, s.header.inner_node_free_list_head, n);
            Self::lemma_leaf_seq_frame(s, *self, s.header.leaf_free_list_head,
                s.header.leaf_free_list_len as nat);
            if n > 0 {
                assert((s.header.inner_node_free_list_head as u64) as u32
                    == s.header.inner_node_free_list_head);
            }
            if n == 0 {
                assert(self.inner_free_seq(self.inner_nodes@[idx as int].prefix_len as u32, 0)
                    =~= Seq::<u32>::empty());
                assert(self.inner_free_seq(s.header.inner_node_free_list_head, 0) =~= Seq::<u32>::empty());
            } else {
                assert(self.inner_nodes@[idx as int].prefix_len as u32 == s.header.inner_node_free_list_head);
            }
            assert(self.inner_free_seq(idx as u32, n + 1) == seq![idx as u32] + self.inner_free_seq(
                s.header.inner_node_free_list_head, n));
            assert(self.inner_free_seq(idx as u32, n + 1) =~= seq![idx as u32] + s.inner_free_list());
            lemma_no_dup_cons(idx as u32, s.inner_free_list());
        }
    }
}


// ------------------------------------------------------------------------
// Reading the tree.
impl<C> Slab<C> {
    /// What the orders of a well formed slab are: each key maps to a leaf
    /// that holds it and has callback information, and no two keys share a
    /// leaf; there are `leaf_count` of them.
    pub proof fn lemma_handles(&self)
        requires
            self.wf(),
        ensures
            forall|k: u128| #[trigger]
                self.handles().contains_key(k) ==> self.handles()[k] < self.leaf_nodes.len()
                    && self.handles()[k] < self.callback_infos.len()
                    && self.leaf_nodes@[self.handles()[k] as int].key == k,
            self.handles().dom().finite(),
            self.handles().dom().len() == self.header.leaf_count,
            (self.header.leaf_count == 0) == (self.handles().dom() =~= Set::<u128>::empty()),
    {
        if self.header.leaf_count > 0 {
            let root = self.header.root_node;
            self.lemma_sub_props(root);
            let keys = self.sub_keys(root);
            let leaves = self.sub_leaves(root);
            // the keys are in one to one correspondence with the leaves
            let f = |k: u128| keys[k] as int;
            assert forall|k: u128| #[trigger] keys.contains_key(k) implies leaves.contains(f(k)) by {}
            assert(keys.dom() =~= leaves.map(|x: int| self.leaf_nodes@[x].key)) by {
                assert forall|k: u128| keys.contains_key(k) implies leaves.map(
                    |x: int| self.leaf_nodes@[x].key,
                ).contains(k) by {
                    assert(leaves.contains(keys[k] as int));
                }
            }
            vstd::set_lib::lemma_map_size(leaves, keys.dom(), |x: int| self.leaf_nodes@[x].key);
            assert(keys.contains_key(self.node_key_witness(root)));
        } else {
            assert(self.handles().dom() =~= Set::<u128>::empty());
        }
    }

    /// The root of the tree, if it holds any order.
    pub fn root(&self) -> (r: Option<NodeHandle>)
        ensures
            r == (if self.header.leaf_count == 0 {
                None
            } else {
                Some(self.header.root_node)
            }),
    {
        if self.header.leaf_count == 0 {
            None
        } else {
            Some(self.header.root_node)
        }
    }

    fn find_min_max(&self, find_max: bool) -> (r: Option<NodeHandle>)
        requires
            self.wf(),
        ensures
            r is None <==> self.handles().dom() =~= Set::<u128>::empty(),
            r matches Some(h) ==> {
                &&& self.handles().contains_key(self.leaf_nodes@[h as int].key)
                &&& self.handles()[self.leaf_nodes@[h as int].key] == h
                &&& forall|k: u128| #[trigger]
                    self.handles().contains_key(k) ==> if find_max {
                        k <= self.leaf_nodes@[h as int].key
                    } else {
                        self.leaf_nodes@[h as int].key <= k
                    }
            },
    {
        proof {
            self.lemma_handles();
        }
        if self.header.leaf_count == 0 {
            return None;
        }
        let mut root: NodeHandle = self.header.root_node;
        proof {
            self.lemma_sub_props(root);
        }
        loop
            invariant
                self.wf(),
                self.header.leaf_count > 0,
                self.node_ok(root),
                keys_within(self.sub_keys(root), self.handles()),
                forall|k: u128, k2: u128|
                    #![trigger self.handles().contains_key(k), self.sub_keys(root).contains_key(k2)]
                    self.handles().contains_key(k) && self.sub_keys(root).contains_key(k2)
                        && !self.sub_keys(root).contains_key(k) ==> if find_max {
                        k < k2
                    } else {
                        k2 < k
                    },
            decreases 128 - self.depth(root),
        {
            match Node::from_handle(root) {
                Node::Leaf => {
                    proof {
                        self.lemma_sub_props(root);
                        self.lemma_handles();
                        let key = self.leaf_nodes@[root as int].key;
                        assert(self.sub_keys(root).contains_key(key));
                        assert forall|k: u128| #[trigger] self.handles().contains_key(k) implies if find_max {
                            k <= key
                        } else {
                            key <= k
                        } by {
                            if self.sub_keys(root).contains_key(k) {
                                assert(self.sub_keys(root) =~= map![key => root]);
                            }
                        }
                    }
                    return Some(root);
                },
                Node::Inner => {
                    let node = self.inner_nodes[inner_idx(root)];
                    let next = if find_max {
                        node.children[1]
                    } else {
                        node.children[0]
                    };
                    proof {
                        self.lemma_unfold(root);
                        self.lemma_child_submap(root);
                        let c = if find_max {
                            1int
                        } else {
                            0int
                        };
                        assert(next == self.child(root, c));
                        let c0 = self.child(root, 0);
                        let c1 = self.child(root, 1);
                        assert forall|k: u128, k2: u128|
                            #![trigger self.handles().contains_key(k), self.sub_keys(next).contains_key(k2)]
                            self.handles().contains_key(k) && self.sub_keys(next).contains_key(k2)
                                && !self.sub_keys(next).contains_key(k) implies if find_max {
                            k < k2
                        } else {
                            k2 < k
                        } by {
                            assert(self.sub_keys(root).contains_key(k2));
                            if self.sub_keys(root).contains_key(k) {
                                if find_max {
                                    assert(self.sub_keys(c0).contains_key(k));
                                    self.lemma_children_ordered(root, k, k2);
                                } else {
                                    assert(self.sub_keys(c1).contains_key(k));
                                    self.lemma_children_ordered(root, k2, k);
                                }
                            }
                        }
                    }
                    proof {
                        assert forall|k: u128| #[trigger] self.sub_keys(next).contains_key(k) implies self.handles().contains_key(k)
                            && self.handles()[k] == self.sub_keys(next)[k] by {
                            if find_max {
                                assert(next == self.child(root, 1));
                            } else {
                                assert(next == self.child(root, 0));
                            }
                            assert(self.sub_keys(root).contains_key(k));
                            assert(self.sub_keys(root)[k] == self.sub_keys(next)[k]);
                            assert(self.handles()[k] == self.sub_keys(root)[k]);
                        }
                    }
                    root = next;
                },
            }
        }
    }

    /// The handle of the order with the smallest key.
    pub fn find_min(&self) -> (r: Option<NodeHandle>)
        requires
            self.wf(),
        ensures
            r is None <==> self.handles().dom() =~= Set::<u128>::empty(),
            r matches Some(h) ==> {
                &&& self.handles().contains_key(self.leaf_nodes@[h as int].key)
                &&& self.handles()[self.leaf_nodes@[h as int].key] == h
                &&& forall|k: u128| #[trigger]
                    self.handles().contains_key(k) ==> self.leaf_nodes@[h as int].key <= k
            },
    {
        self.find_min_max(false)
    }

    /// The handle of the order with the largest key.
    pub fn find_max(&self) -> (r: Option<NodeHandle>)
        requires
            self.wf(),
        ensures
            r is None <==> self.handles().dom() =~= Set::<u128>::empty(),
            r matches Some(h) ==> {
                &&& self.handles().contains_key(self.leaf_nodes@[h as int].key)
                &&& self.handles()[self.leaf_nodes@[h as int].key] == h
                &&& forall|k: u128| #[trigger]
                    self.handles().contains_key(k) ==> k <= self.leaf_nodes@[h as int].key
            },
    {
        self.find_min_max(true)
    }

    /// The handle of the order with the given key, if there is one.
    pub fn find_by_key(&self, search_key: u128) -> (r: Option<NodeHandle>)
        requires
            self.wf(),
        ensures
            r == (if self.handles().contains_key(search_key) {
                Some(self.handles()[search_key])
            } else {
                None
            }),
    {
        proof {
            self.lemma_handles();
        }
        if self.header.leaf_count == 0 {
            return None;
        }
        let mut node_handle: NodeHandle = self.header.root_node;
        loop
            invariant
                self.wf(),
                self.header.leaf_count > 0,
                self.node_ok(node_handle),
                keys_within(self.sub_keys(node_handle), self.handles()),
                self.handles().contains_key(search_key) ==> self.sub_keys(node_handle).contains_key(
                    search_key,
                ),
            decreases 128 - self.depth(node_handle),
        {
            proof {
                self.lemma_sub_props(node_handle);
            }
            match Node::from_handle(node_handle) {
                Node::Leaf => {
                    let n = self.leaf_nodes[node_handle as usize];
                    if search_key == n.key {
                        return Some(node_handle);
                    } else {
                        proof {
                            assert(self.sub_keys(node_handle) =~= map![n.key => node_handle]);
                        }
                        return None;
                    }
                },
                Node::Inner => {
                    let n = self.inner_nodes[inner_idx(node_handle)];
                    let common_prefix_len = shared_prefix_len(search_key, n.key);
                    proof {
                        self.lemma_unfold(node_handle);
                    }
                    if common_prefix_len < n.prefix_len as u32 {
                        proof {
                            if self.sub_keys(node_handle).contains_key(search_key) {
                                // every key of the subtree agrees with the node on its prefix
                                let c0 = self.child(node_handle, 0);
                                let c1 = self.child(node_handle, 1);
                                if self.sub_keys(c0).contains_key(search_key) {
                                    assert(Self::side_ok(n, self.sub_keys(c0), 0));
                                } else {
                                    assert(Self::side_ok(n, self.sub_keys(c1), 1));
                                }
                                lemma_agree_mono(search_key, n.key, common_prefix_len + 1, n.prefix_len as int);
                                lemma_agree_bit(search_key, n.key, common_prefix_len as int);
                            }
                        }
                        return None;
                    }
                    let (next, crit) = n.walk_down(search_key);
                    proof {
                        self.lemma_child_submap(node_handle);
                        let c0 = self.child(node_handle, 0);
                        let c1 = self.child(node_handle, 1);
                        if self.sub_keys(node_handle).contains_key(search_key) {
                            if crit {
                                if self.sub_keys(c0).contains_key(search_key) {
                                    assert(Self::side_ok(n, self.sub_keys(c0), 0));
                                }
                            } else {
                                if self.sub_keys(c1).contains_key(search_key) {
                                    assert(Self::side_ok(n, self.sub_keys(c1), 1));
                                }
                            }
                        }
                    }
                    proof {
                        assert forall|k: u128| #[trigger] self.sub_keys(next).contains_key(k) implies self.handles().contains_key(k)
                            && self.handles()[k] == self.sub_keys(next)[k] by {
                            if crit {
                                assert(next == self.child(node_handle, 1));
                            } else {
                                assert(next == self.child(node_handle, 0));
                            }
                            assert(self.sub_keys(node_handle).contains_key(k));
                            assert(self.sub_keys(node_handle)[k] == self.sub_keys(next)[k]);
                            assert(self.handles()[k] == self.sub_keys(node_handle)[k]);
                        }
                    }
                    node_handle = next;
                },
            }
        }
    }

    /// The callback information of a leaf.
    pub fn get_callback_info(&self, leaf_handle: NodeHandle) -> (r: &C)
        requires
            leaf_handle < self.callback_infos.len(),
        ensures
            *r == self.callback_infos@[leaf_handle as int],
    {
        &self.callback_infos[leaf_handle as usize]
    }

    /// The callback information of a leaf, to be written.
    pub fn get_callback_info_mut(&mut self, leaf_handle: NodeHandle) -> (r: &mut C)
        requires
            leaf_handle < old(self).callback_infos.len(),
        ensures
            *r == old(self).callback_infos@[leaf_handle as int],
            final(self).callback_infos@ == old(self).callback_infos@.update(leaf_handle as int, *final(r)),
            final(self).header == old(self).header,
            final(self).leaf_nodes == old(self).leaf_nodes,
            final(self).inner_nodes == old(self).inner_nodes,
    {
        &mut self.callback_infos[leaf_handle as usize]
    }
}


// ------------------------------------------------------------------------
// Inserting.
proof fn lemma_agree_refl(a: u128, n: int)
    ensures
        prefix_agree(a, a, n),
{
}

proof fn lemma_agree_sym(a: u128, b: u128, n: int)
    requires
        prefix_agree(a, b, n),
    ensures
        prefix_agree(b, a, n),
{
}

/// The bit at position `shared` of `k`, computed with a mask as the tree
/// does.
fn crit_bit_of(k: u128, shared: u32) -> (r: bool)
    requires
        shared < 128,
    ensures
        r == bit_at(k, shared as int),
{
    let p = shared as u64;
    proof {
        lemma_bv_crit_mask(k, p);
    }
    let crit_bit_mask: u128 = (1u128 << 127u128) >> p;
    (k & crit_bit_mask) != 0
}

impl<C> Slab<C> {
    /// The slab has no leaf left to allocate.
    pub open spec fn is_full(&self) -> bool {
        self.header.leaf_free_list_len == 0 && self.header.leaf_bump_index
            >= self.leaf_nodes.len()
    }

    /// Inserts an order. An order with the same key is replaced in place and
    /// returned; a new key takes a new leaf, and fails with
    /// `SlabOutOfSpace` when none is left. The callback information is not
    /// written.
    #[verifier::rlimit(40)]
    pub fn insert_leaf(&mut self, new_leaf: &LeafNode) -> (res: Result<
        (NodeHandle, Option<LeafNode>),
        AoError,
    >)
        requires
            old(self).wf(),
        ensures
            final(self).wf(),
            final(self).callback_infos == old(self).callback_infos,
            final(self).header.market_address == old(self).header.market_address,
            final(self).leaf_nodes.len() == old(self).leaf_nodes.len(),
            res is Err <==> !old(self).handles().contains_key(new_leaf.key) && old(self).is_full(),
            res is Err ==> res == Err::<(NodeHandle, Option<LeafNode>), AoError>(
                AoError::SlabOutOfSpace,
            ) && *final(self) == *old(self),
            res matches Ok((h, prev)) ==> {
                &&& final(self).handles() == old(self).handles().insert(new_leaf.key, h)
                &&& final(self).leaf_nodes@[h as int] == *new_leaf
                &&& prev == (if old(self).handles().contains_key(new_leaf.key) {
                    Some(old(self).leaf_nodes@[old(self).handles()[new_leaf.key] as int])
                } else {
                    None
                })
                &&& old(self).handles().contains_key(new_leaf.key) ==> h == old(
                    self,
                ).handles()[new_leaf.key]
                &&& forall|k: u128|
                    #[trigger] old(self).handles().contains_key(k) && k != new_leaf.key
                        ==> final(self).leaf_nodes@[old(self).handles()[k] as int] == old(
                        self,
                    ).leaf_nodes@[old(self).handles()[k] as int]
            },
    {
        let ghost s = *self;
        proof {
            s.lemma_handles();
        }
        if self.header.leaf_count == 0 {
            let new_leaf_handle = self.allocate_leaf()?;
            let ghost a = *self;
            self.leaf_nodes.set(new_leaf_handle as usize, *new_leaf);
            self.header.root_node = new_leaf_handle;
            self.header.leaf_count = self.header.leaf_count + 1;
            proof {
                Self::lemma_leaf_list_frame(a, *self);
                Self::lemma_inner_list_frame(a, *self);
                let l = new_leaf_handle;
                assert(self.node_ok(l));
                self.lemma_sub_props(l);
                assert(self.tree_leaves() == set![l as int]);
                assert(self.tree_inners() =~= Set::<int>::empty());
                assert(set![l as int].len() == 1) by {
                    assert(set![l as int] == Set::<int>::empty().insert(l as int));
                }
                assert(self.handles() =~= s.handles().insert(new_leaf.key, l));
            }
            return Ok((new_leaf_handle, None));
        }
        let mut root: NodeHandle = self.header.root_node;
        let mut parent_node: Option<NodeHandle> = None;
        let mut previous_critbit: Option<bool> = None;
        let ghost mut lo: int = 0;
        proof {
            s.lemma_sub_props(root);
        }
        let mut shared: u32 = 0;
        loop
            invariant
                *self == s,
                s == *old(self),
                s.wf(),
                s.header.leaf_count > 0,
                s.node_ok(root),
                0 <= lo <= s.depth(root),
                lo <= 128,
                parent_node is None ==> root == s.header.root_node && lo == 0,
                parent_node matches Some(p) ==> {
                    &&& !is_leaf_handle(p)
                    &&& s.tree_inners().contains(inner_index(p))
                    &&& previous_critbit is Some
                    &&& s.child(
                        p,
                        if previous_critbit == Some(true) {
                            1int
                        } else {
                            0int
                        },
                    ) == root
                    &&& lo == s.inner_nodes@[inner_index(p)].prefix_len + 1
                    &&& !s.sub_inners(root).contains(inner_index(p))
                },
                forall|k: u128| #[trigger]
                    s.sub_keys(root).contains_key(k) ==> prefix_agree(k, new_leaf.key, lo),
                keys_within(s.sub_keys(root), s.handles()),
                s.sub_leaves(root).subset_of(s.tree_leaves()),
                s.sub_inners(root).subset_of(s.tree_inners()),
                s.handles().contains_key(new_leaf.key) ==> s.sub_keys(root).contains_key(
                    new_leaf.key,
                ),
            ensures
                *self == s,
                s.node_ok(root),
                shared < 128,
                lo <= shared < s.depth(root),
                prefix_agree(s.node_key(root), new_leaf.key, shared as int),
                bit_at(s.node_key(root), shared as int) != bit_at(new_leaf.key, shared as int),
                !s.sub_keys(root).contains_key(new_leaf.key),
                !s.handles().contains_key(new_leaf.key),
                parent_node is None ==> root == s.header.root_node && lo == 0,
                parent_node matches Some(p) ==> {
                    &&& !is_leaf_handle(p)
                    &&& s.tree_inners().contains(inner_index(p))
                    &&& previous_critbit is Some
                    &&& s.child(
                        p,
                        if previous_critbit == Some(true) {
                            1int
                        } else {
                            0int
                        },
                    ) == root
                    &&& lo == s.inner_nodes@[inner_index(p)].prefix_len + 1
                    &&& !s.sub_inners(root).contains(inner_index(p))
                },
                forall|k: u128| #[trigger]
                    s.sub_keys(root).contains_key(k) ==> prefix_agree(k, new_leaf.key, lo),
                s.sub_leaves(root).subset_of(s.tree_leaves()),
                s.sub_inners(root).subset_of(s.tree_inners()),
            decreases 128 - s.depth(root),
        {
            proof {
                s.lemma_sub_props(root);
            }
            let w = Ghost(s.node_key_witness(root));
            match Node::from_handle(root) {
                Node::Inner => {
                    let root_node = self.inner_nodes[inner_idx(root)];
                    let spl = shared_prefix_len(root_node.key, new_leaf.key);
                    proof {
                        s.lemma_unfold(root);
                        s.lemma_child_submap(root);
                        // the new key agrees with the node's key on `lo` bits
                        assert(s.sub_keys(root).contains_key(w@));
                        lemma_agree_mono(w@, root_node.key, lo, root_node.prefix_len as int);
                        lemma_agree_sym(w@, root_node.key, lo);
                        lemma_agree_trans(root_node.key, w@, new_leaf.key, lo);
                        if spl < lo {
                            lemma_agree_mono(root_node.key, new_leaf.key, spl + 1, lo);
                            lemma_agree_bit(root_node.key, new_leaf.key, spl as int);
                        }
                    }
                    let keep_old_root = spl >= root_node.prefix_len as u32;
                    if keep_old_root {
                        let r = root_node.walk_down(new_leaf.key);
                        proof {
                            let c0 = s.child(root, 0);
                            let c1 = s.child(root, 1);
                            let cr = s.child(root, if r.1 { 1int } else { 0int });
                            assert(cr == r.0);
                            let p = root_node.prefix_len as int;
                            lemma_agree_mono(root_node.key, new_leaf.key, p, spl as int);
                            assert forall|k: u128| #[trigger] s.sub_keys(r.0).contains_key(k) implies prefix_agree(
                                k,
                                new_leaf.key,
                                p + 1,
                            ) by {
                                if r.1 {
                                    assert(Self::side_ok(root_node, s.sub_keys(c1), 1));
                                } else {
                                    assert(Self::side_ok(root_node, s.sub_keys(c0), 0));
                                }
                                lemma_agree_trans(k, root_node.key, new_leaf.key, p);
                                lemma_agree_step(k, new_leaf.key, p);
                            }
                            assert forall|k: u128| #[trigger] s.sub_keys(r.0).contains_key(k) implies s.handles().contains_key(k)
                                && s.handles()[k] == s.sub_keys(r.0)[k] by {
                                assert(s.sub_keys(root).contains_key(k));
                                assert(s.sub_keys(root)[k] == s.sub_keys(r.0)[k]);
                            }
                            if s.handles().contains_key(new_leaf.key) {
                                assert(s.sub_keys(root).contains_key(new_leaf.key));
                                if r.1 {
                                    if s.sub_keys(c0).contains_key(new_leaf.key) {
                                        assert(Self::side_ok(root_node, s.sub_keys(c0), 0));
                                    }
                                } else {
                                    if s.sub_keys(c1).contains_key(new_leaf.key) {
                                        assert(Self::side_ok(root_node, s.sub_keys(c1), 1));
                                    }
                                }
                            }
                            assert(s.tree_inners().contains(inner_index(root)));
                            lo = p + 1;
                        }
                        parent_node = Some(root);
                        root = r.0;
                        previous_critbit = Some(r.1);
                        continue ;
                    }
                    proof {
                        if s.sub_keys(root).contains_key(new_leaf.key) {
                            lemma_agree_sym(new_leaf.key, root_node.key, root_node.prefix_len as int);
                            lemma_agree_mono(root_node.key, new_leaf.key, spl + 1, root_node.prefix_len as int);
                            lemma_agree_bit(root_node.key, new_leaf.key, spl as int);
                        }
                    }
                    shared = spl;
                    break ;
                },
                Node::Leaf => {
                    let root_node = self.leaf_nodes[root as usize];
                    if root_node.key == new_leaf.key {
                        let leaf_copy = root_node;
                        self.leaf_nodes.set(root as usize, *new_leaf);
                        proof {
                            let t = *self;
                            assert(s.sub_keys(root).contains_key(new_leaf.key));
                            assert(s.handles()[new_leaf.key] == root);
                            assert(s.tree_leaves().contains(root as int));
                            let sroot = s.header.root_node;
                            s.lemma_sub_props(sroot);
                            s.lemma_handles();
                            assert forall|y: int| #[trigger] s.sub_leaves(sroot).contains(y) implies t.leaf_nodes@[y].key
                                == s.leaf_nodes@[y].key by {
                                if y == root as int {
                                    assert(s.leaf_nodes@[y].key == new_leaf.key);
                                }
                            }
                            Self::lemma_frame(s, t, sroot);
                            assert forall|x: u32| #[trigger] s.leaf_free_list().contains(x) implies t.leaf_nodes@[x as int].base_quantity
                                == s.leaf_nodes@[x as int].base_quantity by {
                                if x == root {
                                    assert(s.tree_leaves().contains(x as int));
                                }
                            }
                            Self::lemma_leaf_list_frame(s, t);
                            Self::lemma_inner_list_frame(s, t);
                            assert(t.handles() =~= s.handles().insert(new_leaf.key, root));
                            assert forall|k: u128|
                                #[trigger] s.handles().contains_key(k) && k != new_leaf.key
                                    implies t.leaf_nodes@[s.handles()[k] as int] == s.leaf_nodes@[s.handles()[k] as int] by {
                                assert(s.leaf_nodes@[s.handles()[k] as int].key == k);
                            }
                        }
                        return Ok((root, Some(leaf_copy)));
                    }
                    let spl = shared_prefix_len(root_node.key, new_leaf.key);
                    proof {
                        assert(s.sub_keys(root) =~= map![root_node.key => root]);
                        assert(s.sub_keys(root).contains_key(root_node.key));
                        if spl < lo {
                            lemma_agree_mono(root_node.key, new_leaf.key, spl + 1, lo);
                            lemma_agree_bit(root_node.key, new_leaf.key, spl as int);
                        }
                    }
                    shared = spl;
                    break ;
                },
            }
        }
        // `root` is where the new leaf branches off: put a new inner node in
        // its place with the new leaf and `root` as children.
        let new_leaf_crit_bit = crit_bit_of(new_leaf.key, shared);
        let new_leaf_handle = self.allocate_leaf()?;
        let ghost a1 = *self;
        self.leaf_nodes.set(new_leaf_handle as usize, *new_leaf);
        let ghost a2 = *self;
        proof {
            Self::lemma_leaf_list_frame(a1, a2);
            Self::lemma_inner_list_frame(a1, a2);
            // there is an inner node left: as many as leaves
            assert(a2.alloc_ok());
        }
        let new_root_node_handle = self.allocate_inner_node().unwrap();
        let ghost a3 = *self;
        let nidx = inner_idx(new_root_node_handle);
        let new_node = InnerNode {
            key: new_leaf.key,
            prefix_len: shared as u64,
            children: if new_leaf_crit_bit {
                [root, new_leaf_handle]
            } else {
                [new_leaf_handle, root]
            },
        };
        self.inner_nodes.set(nidx, new_node);
        let ghost a4 = *self;
        match parent_node {
            Some(n) => {
                let pidx = inner_idx(n);
                let mut node = self.inner_nodes[pidx];
                let pc = previous_critbit.unwrap();
                node.children = with_child(node.children, pc, new_root_node_handle);
                self.inner_nodes.set(pidx, node);
            },
            None => {
                self.header.root_node = new_root_node_handle;
            },
        }
        self.header.leaf_count = self.header.leaf_count + 1;
        proof {
            let t = *self;
            let l = new_leaf_handle;
            let nh = new_root_node_handle;
            let ni = nidx as int;
            let c = if new_leaf_crit_bit { 1int } else { 0int };
            assert(!s.tree_leaves().contains(l as int)) by {
                if s.tree_leaves().contains(l as int) {
                    assert(l < s.header.leaf_bump_index);
                    if s.header.leaf_free_list_len > 0 {
                        assert(s.leaf_free_list().contains(l));
                    }
                }
            }
            assert(!s.tree_inners().contains(ni)) by {
                if s.tree_inners().contains(ni) {
                    if s.header.inner_node_free_list_len > 0 {
                        assert(s.inner_free_list().contains(ni as u32));
                    }
                }
            }
            s.lemma_sub_props(root);
            // the subtree below `root` is untouched
            assert forall|y: int| #[trigger] s.sub_leaves(root).contains(y) implies t.leaf_nodes@[y].key
                == s.leaf_nodes@[y].key by {
                assert(s.tree_leaves().contains(y));
            }
            assert forall|y: int| #[trigger] s.sub_inners(root).contains(y) implies t.inner_nodes@[y]
                == s.inner_nodes@[y] by {
                assert(s.tree_inners().contains(y));
            }
            Self::lemma_frame(s, t, root);
            // the new inner node is a valid subtree
            assert(t.inner_nodes@[ni] == new_node);
            assert(t.depth(nh) == shared);
            assert(t.child(nh, c) == l);
            assert(t.child(nh, 1 - c) == root);
            assert(t.node_ok(l));
            t.lemma_sub_props(l);
            assert(t.sub_keys(l) =~= map![new_leaf.key => l]);
            assert(t.sub_leaves(l) =~= set![l as int]);
            assert(t.sub_inners(l) =~= Set::<int>::empty());
            assert(Self::side_ok(new_node, t.sub_keys(l), c)) by {
                lemma_agree_refl(new_leaf.key, shared as int);
            }
            assert(Self::side_ok(new_node, t.sub_keys(root), 1 - c)) by {
                assert forall|k: u128| #[trigger] t.sub_keys(root).contains_key(k) implies prefix_agree(
                    k,
                    new_node.key,
                    new_node.prefix_len as int,
                ) && bit_at(k, new_node.prefix_len as int) == (1 - c == 1) by {
                    lemma_agree_mono(k, s.node_key(root), shared + 1, s.depth(root));
                    lemma_agree_bit(k, s.node_key(root), shared as int);
                    lemma_agree_trans(k, s.node_key(root), new_leaf.key, shared as int);
                }
            }
            assert(!t.sub_inners(root).contains(ni));
            assert(!t.sub_leaves(root).contains(l as int));
            if c == 0 {
                assert(t.node_ok(nh));
            } else {
                assert(t.node_ok(nh));
            }
            t.lemma_unfold(nh);
            let keys_n = s.sub_keys(root).insert(new_leaf.key, l);
            assert(t.sub_keys(nh) =~= keys_n);
            assert(t.sub_leaves(nh) =~= s.sub_leaves(root).insert(l as int));
            assert(t.sub_inners(nh) =~= s.sub_inners(root).insert(ni));
            let sroot = s.header.root_node;
            match parent_node {
                Some(pn) => {
                    let x = inner_index(pn);
                    let pc = if previous_critbit == Some(true) { 1int } else { 0int };
                    assert(handle_of_inner(x) == pn);
                    assert forall|k: u128, k2: u128|
                        t.sub_keys(nh).contains_key(k) && s.sub_keys(s.child(handle_of_inner(x), pc)).contains_key(k2)
                        implies prefix_agree(k, k2, s.inner_nodes@[x].prefix_len + 1) by {
                        lemma_agree_sym(k2, new_leaf.key, lo);
                        if k == new_leaf.key {
                        } else {
                            lemma_agree_trans(k, new_leaf.key, k2, lo);
                        }
                    }
                    assert(t.sub_leaves(nh).disjoint(s.tree_leaves().difference(s.sub_leaves(root))));
                    assert(t.sub_inners(nh).disjoint(s.tree_inners().difference(s.sub_inners(root))));
                    assert forall|y: int| #[trigger]
                        s.sub_leaves(sroot).contains(y) && !s.sub_leaves(s.child(handle_of_inner(x), pc)).contains(y)
                        implies t.leaf_nodes@[y].key == s.leaf_nodes@[y].key by {
                        assert(s.tree_leaves().contains(y));
                    }
                    assert forall|y: int| #[trigger]
                        s.sub_inners(sroot).contains(y) && !s.sub_inners(s.child(handle_of_inner(x), pc)).contains(y) && y != x
                        implies t.inner_nodes@[y] == s.inner_nodes@[y] by {
                        assert(s.tree_inners().contains(y));
                    }
                    assert(s.inner_nodes@[x].prefix_len < shared);
                    Self::lemma_replace(s, t, sroot, x, pc, nh);
                    assert(t.handles() =~= s.handles().insert(new_leaf.key, l));
                    assert(t.tree_leaves() =~= s.tree_leaves().insert(l as int));
                    assert(t.tree_inners() =~= s.tree_inners().insert(ni));
                },
                None => {
                    assert(t.handles() =~= s.handles().insert(new_leaf.key, l));
                    assert(t.tree_leaves() =~= s.tree_leaves().insert(l as int));
                    assert(t.tree_inners() =~= s.tree_inners().insert(ni));
                },
            }
            // the free lists
            Self::lemma_leaf_list_frame(a3, t);
            assert forall|e: u32| #[trigger] a3.inner_free_list().contains(e) implies t.inner_nodes@[e as int].prefix_len
                == a3.inner_nodes@[e as int].prefix_len by {
                let j = choose|j: int| 0 <= j < a3.inner_free_list().len() && a3.inner_free_list()[j] == e;
                assert(s.inner_free_list().contains(a3.inner_free_list()[j]));
                if parent_node is Some {
                    assert(e as int != inner_index(parent_node->0));
                }
            }
            Self::lemma_inner_list_frame(a3, t);
            assert(t.alloc_ok());
            s.lemma_sub_props(sroot);
            assert forall|x: int| #![trigger t.tree_leaves().contains(x)] t.tree_leaves().contains(x) implies x
                < t.header.leaf_bump_index && !t.leaf_free_list().contains(x as u32) by {
                if x != l as int {
                    assert(s.tree_leaves().contains(x));
                    if t.leaf_free_list().contains(x as u32) {
                        let j = choose|j: int| 0 <= j < t.leaf_free_list().len() && t.leaf_free_list()[j] == x as u32;
                        assert(s.leaf_free_list().contains(t.leaf_free_list()[j]));
                    }
                }
            }
            assert forall|x: int| #![trigger t.tree_inners().contains(x)] t.tree_inners().contains(x) implies x
                < t.header.inner_node_bump_index && !t.inner_free_list().contains(x as u32) by {
                if x != ni {
                    assert(s.tree_inners().contains(x));
                    if t.inner_free_list().contains(x as u32) {
                        let j = choose|j: int| 0 <= j < t.inner_free_list().len() && t.inner_free_list()[j] == x as u32;
                        assert(s.inner_free_list().contains(t.inner_free_list()[j]));
                    }
                }
            }
            assert(t.wf());
            assert forall|k: u128|
                #[trigger] s.handles().contains_key(k) && k != new_leaf.key
                    implies t.leaf_nodes@[s.handles()[k] as int] == s.leaf_nodes@[s.handles()[k] as int] by {
                assert(s.tree_leaves().contains(s.handles()[k] as int));
            }
        }
        Ok((new_leaf_handle, None))
    }
}


// ------------------------------------------------------------------------
// Removing.
impl<C: Copy> Slab<C> {
    /// Removes the order with the given key and returns it with its
    /// callback information, or returns `None` when there is no such order.
    #[verifier::rlimit(40)]
    pub fn remove_by_key(&mut self, search_key: u128) -> (r: Option<(LeafNode, C)>)
        requires
            old(self).wf(),
        ensures
            final(self).wf(),
            final(self).callback_infos == old(self).callback_infos,
            final(self).header.market_address == old(self).header.market_address,
            final(self).leaf_nodes.len() == old(self).leaf_nodes.len(),
            r is None <==> !old(self).handles().contains_key(search_key),
            r is None ==> *final(self) == *old(self),
            r matches Some((leaf, cb)) ==> {
                &&& leaf == old(self).leaf_nodes@[old(self).handles()[search_key] as int]
                &&& cb == old(self).callback_infos@[old(self).handles()[search_key] as int]
                &&& final(self).handles() == old(self).handles().remove(search_key)
                &&& forall|k: u128|
                    #[trigger] old(self).handles().contains_key(k) && k != search_key
                        ==> final(self).leaf_nodes@[old(self).handles()[k] as int] == old(
                        self,
                    ).leaf_nodes@[old(self).handles()[k] as int]
            },
    {
        let ghost s = *self;
        proof {
            s.lemma_handles();
        }
        let mut grandparent_h: Option<NodeHandle> = None;
        if self.header.leaf_count == 0 {
            return None;
        }
        let mut parent_h = self.header.root_node;
        let mut child_h: NodeHandle = 0;
        let mut crit_bit = false;
        let mut prev_crit_bit: Option<bool> = None;
        let mut remove_root: Option<LeafNode> = None;
        let sroot = self.header.root_node;
        proof {
            s.lemma_sub_props(sroot);
        }
        match Node::from_handle(parent_h) {
            Node::Leaf => {
                let leaf = self.leaf_nodes[parent_h as usize];
                if leaf.key == search_key {
                    remove_root = Some(leaf);
                }
            },
            Node::Inner => {
                let node = self.inner_nodes[inner_idx(parent_h)];
                let (ch, cb) = node.walk_down(search_key);
                child_h = ch;
                crit_bit = cb;
            },
        }
        if let Some(leaf_copy) = remove_root {
            proof {
                assert(s.handles() =~= map![leaf_copy.key => sroot]);
                assert(s.tree_leaves().contains(sroot as int));
                assert(s.tree_leaves() == set![sroot as int]);
                assert(set![sroot as int].len() == 1) by {
                    assert(set![sroot as int] == Set::<int>::empty().insert(sroot as int));
                }
            }
            self.free_leaf(parent_h);
            let ghost b = *self;
            self.header.root_node = 0;
            self.header.leaf_count = 0;
            proof {
                Self::lemma_leaf_list_frame(b, *self);
                Self::lemma_inner_list_frame(b, *self);
                assert(self.handles() =~= s.handles().remove(search_key));
            }
            return Some((leaf_copy, *self.get_callback_info(parent_h)));
        }
        if Node::from_handle(parent_h) == Node::Leaf {
            // the root is a leaf with another key: the key is not held
            proof {
                assert(s.sub_keys(sroot) =~= map![s.leaf_nodes@[sroot as int].key => sroot]);
            }
            return None;
        }
        proof {
            s.lemma_unfold(sroot);
            s.lemma_child_submap(sroot);
            let n = s.inner_nodes@[inner_index(sroot)];
            if s.handles().contains_key(search_key) {
                if crit_bit {
                    if s.sub_keys(s.child(sroot, 0)).contains_key(search_key) {
                        assert(Self::side_ok(n, s.sub_keys(s.child(sroot, 0)), 0));
                    }
                } else {
                    if s.sub_keys(s.child(sroot, 1)).contains_key(search_key) {
                        assert(Self::side_ok(n, s.sub_keys(s.child(sroot, 1)), 1));
                    }
                }
            }
            assert(s.child(sroot, if crit_bit { 1int } else { 0int }) == child_h);
            assert(s.tree_inners().contains(inner_index(sroot)));
            assert forall|k: u128| #[trigger] s.sub_keys(child_h).contains_key(k) implies s.handles().contains_key(k)
                && s.handles()[k] == s.sub_keys(child_h)[k] by {
                if crit_bit {
                    assert(s.sub_keys(s.child(sroot, 1)).contains_key(k));
                } else {
                    assert(s.sub_keys(s.child(sroot, 0)).contains_key(k));
                }
            }
        }
        loop
            invariant
                *self == s,
                s == *old(self),
                s.wf(),
                s.header.leaf_count > 0,
                sroot == s.header.root_node,
                !is_leaf_handle(parent_h),
                s.node_ok(parent_h),
                s.tree_inners().contains(inner_index(parent_h)),
                s.child(parent_h, if crit_bit { 1int } else { 0int }) == child_h,
                crit_bit == bit_at(search_key, s.inner_nodes@[inner_index(parent_h)].prefix_len as int),
                grandparent_h is None ==> parent_h == sroot,
                grandparent_h matches Some(g) ==> {
                    &&& !is_leaf_handle(g)
                    &&& s.tree_inners().contains(inner_index(g))
                    &&& prev_crit_bit is Some
                    &&& s.child(g, if prev_crit_bit == Some(true) { 1int } else { 0int }) == parent_h
                },
                s.handles().contains_key(search_key) ==> s.sub_keys(child_h).contains_key(search_key),
                keys_within(s.sub_keys(child_h), s.handles()),
                s.sub_leaves(parent_h).subset_of(s.tree_leaves()),
                s.sub_inners(parent_h).subset_of(s.tree_inners()),
            ensures
                *self == s,
                is_leaf_handle(child_h),
                s.sub_keys(child_h).contains_key(search_key),
                !is_leaf_handle(parent_h),
                s.node_ok(parent_h),
                s.tree_inners().contains(inner_index(parent_h)),
                s.child(parent_h, if crit_bit { 1int } else { 0int }) == child_h,
                grandparent_h is None ==> parent_h == sroot,
                grandparent_h matches Some(g) ==> {
                    &&& !is_leaf_handle(g)
                    &&& s.tree_inners().contains(inner_index(g))
                    &&& prev_crit_bit is Some
                    &&& s.child(g, if prev_crit_bit == Some(true) { 1int } else { 0int }) == parent_h
                },
                s.sub_leaves(parent_h).subset_of(s.tree_leaves()),
                s.sub_inners(parent_h).subset_of(s.tree_inners()),
            decreases 128 - s.depth(child_h),
        {
            proof {
                s.lemma_unfold(parent_h);
                s.lemma_sub_props(child_h);
            }
            match Node::from_handle(child_h) {
                Node::Inner => {
                    let inner = self.inner_nodes[inner_idx(child_h)];
                    let (grandchild_h, grandchild_crit_bit) = inner.walk_down(search_key);
                    proof {
                        s.lemma_unfold(child_h);
                        s.lemma_child_submap(child_h);
                        let ch = child_h;
                        let n = inner;
                        let c0 = s.child(ch, 0);
                        let c1 = s.child(ch, 1);
                        if s.handles().contains_key(search_key) {
                            if grandchild_crit_bit {
                                if s.sub_keys(c0).contains_key(search_key) {
                                    assert(Self::side_ok(n, s.sub_keys(c0), 0));
                                }
                            } else {
                                if s.sub_keys(c1).contains_key(search_key) {
                                    assert(Self::side_ok(n, s.sub_keys(c1), 1));
                                }
                            }
                        }
                        assert(s.child(ch, if grandchild_crit_bit { 1int } else { 0int }) == grandchild_h);
                        assert forall|k: u128| #[trigger] s.sub_keys(grandchild_h).contains_key(k) implies s.handles().contains_key(k)
                            && s.handles()[k] == s.sub_keys(grandchild_h)[k] by {
                            assert(s.sub_keys(ch).contains_key(k));
                            assert(s.sub_keys(ch)[k] == s.sub_keys(grandchild_h)[k]);
                        }
                        assert(s.sub_inners(parent_h).contains(inner_index(ch)));
                        assert(s.tree_inners().contains(inner_index(ch)));
                    }
                    grandparent_h = Some(parent_h);
                    parent_h = child_h;
                    child_h = grandchild_h;
                    prev_crit_bit = Some(crit_bit);
                    crit_bit = grandchild_crit_bit;
                    continue ;
                },
                Node::Leaf => {
                    let leaf = self.leaf_nodes[child_h as usize];
                    if leaf.key != search_key {
                        proof {
                            assert(s.sub_keys(child_h) =~= map![leaf.key => child_h]);
                        }
                        return None;
                    }
                    proof {
                        assert(s.sub_keys(child_h) =~= map![leaf.key => child_h]);
                    }
                    break ;
                },
            }
        }
        // replace the parent with its other child, then free the leaf and
        // the parent
        let pidx = inner_idx(parent_h);
        let other_child_h = if crit_bit {
            self.inner_nodes[pidx].children[0]
        } else {
            self.inner_nodes[pidx].children[1]
        };
        match grandparent_h {
            Some(h) => {
                let gidx = inner_idx(h);
                let mut r = self.inner_nodes[gidx];
                r.children = with_child(r.children, prev_crit_bit.unwrap(), other_child_h);
                self.inner_nodes.set(gidx, r);
            },
            None => self.header.root_node = other_child_h,
        }
        self.header.leaf_count = self.header.leaf_count - 1;
        let ghost b1 = *self;
        let removed_leaf = self.leaf_nodes[child_h as usize];
        proof {
            s.lemma_sub_props(sroot);
            s.lemma_sub_props(parent_h);
            s.lemma_unfold(parent_h);
            assert(s.sub_leaves(parent_h).contains(child_h as int));
            assert(s.tree_leaves().contains(child_h as int));
            assert(s.tree_inners().contains(pidx as int));
            // at least two leaves, one inner node
            assert(s.sub_inners(parent_h).len() >= 1) by {
                assert(s.sub_inners(parent_h).contains(pidx as int));
                vstd::set_lib::lemma_set_empty_equivalency_len(s.sub_inners(parent_h));
            }
            vstd::set_lib::lemma_len_subset(s.sub_inners(parent_h), s.tree_inners());
            vstd::set_lib::lemma_len_subset(s.sub_leaves(parent_h), s.tree_leaves());
            s.lemma_sub_props(sroot);
            assert forall|x: u32| #[trigger] s.inner_free_list().contains(x) implies b1.inner_nodes@[x as int].prefix_len
                == s.inner_nodes@[x as int].prefix_len by {
                if grandparent_h is Some {
                    assert(x as int != inner_index(grandparent_h->0));
                }
            }
            Self::lemma_inner_list_frame(s, b1);
            Self::lemma_leaf_list_frame(s, b1);
            assert(b1.alloc_ok());
        }
        self.free_leaf(child_h);
        let ghost b2 = *self;
        self.free_inner_node(parent_h);
        proof {
            let t = *self;
            let ch = child_h;
            let ph = parent_h;
            let pi = pidx as int;
            let oc = other_child_h;
            let cc = if crit_bit { 1int } else { 0int };
            assert(s.child(ph, 1 - cc) == oc);
            s.lemma_sub_props(oc);
            s.lemma_child_submap(ph);
            // the other child's subtree is untouched
            assert forall|y: int| #[trigger] s.sub_leaves(oc).contains(y) implies t.leaf_nodes@[y].key
                == s.leaf_nodes@[y].key by {
                assert(s.sub_leaves(ph).contains(y));
            }
            if grandparent_h is Some {
                let g = grandparent_h->0;
                s.lemma_contains(sroot, inner_index(g));
                assert(handle_of_inner(inner_index(g)) == g);
                s.lemma_unfold(g);
            }
            assert forall|y: int| #[trigger] s.sub_inners(oc).contains(y) implies t.inner_nodes@[y]
                == s.inner_nodes@[y] by {
                assert(s.sub_inners(ph).contains(y));
                assert(s.tree_inners().contains(y));
            }
            Self::lemma_frame(s, t, oc);
            let keys_o = s.sub_keys(oc);
            assert(s.sub_keys(ph) =~= keys_o.insert(search_key, ch)) by {
                let kc = s.sub_keys(ch);
                assert(kc =~= map![search_key => ch]);
                if cc == 1 {
                    assert(s.sub_keys(ph) == keys_o.union_prefer_right(kc));
                } else {
                    assert(s.sub_keys(ph) == kc.union_prefer_right(keys_o));
                    assert(!keys_o.contains_key(search_key)) by {
                        if keys_o.contains_key(search_key) {
                            s.lemma_children_ordered(ph, search_key, search_key);
                        }
                    }
                }
            }
            assert(!keys_o.contains_key(search_key)) by {
                if keys_o.contains_key(search_key) {
                    if cc == 1 {
                        s.lemma_children_ordered(ph, search_key, search_key);
                    } else {
                        s.lemma_children_ordered(ph, search_key, search_key);
                    }
                }
            }
            assert(s.sub_leaves(ph) =~= s.sub_leaves(oc).insert(ch as int));
            assert(s.sub_inners(ph) =~= s.sub_inners(oc).insert(pi));
            match grandparent_h {
                Some(g) => {
                    let x = inner_index(g);
                    let gc = if prev_crit_bit == Some(true) { 1int } else { 0int };
                    assert(handle_of_inner(x) == g);
                    s.lemma_contains(sroot, x);
                    s.lemma_unfold(g);
                    assert forall|k: u128, k2: u128|
                        t.sub_keys(oc).contains_key(k) && s.sub_keys(s.child(handle_of_inner(x), gc)).contains_key(k2)
                        implies prefix_agree(k, k2, s.inner_nodes@[x].prefix_len + 1) by {
                        assert(s.sub_keys(ph).contains_key(k));
                        s.lemma_sub_props(ph);
                        lemma_agree_sym(k2, s.node_key(ph), s.depth(ph));
                        lemma_agree_trans(k, s.node_key(ph), k2, s.depth(ph));
                        lemma_agree_mono(k, k2, s.inner_nodes@[x].prefix_len + 1, s.depth(ph));
                    }
                    assert forall|y: int| #[trigger]
                        s.sub_leaves(sroot).contains(y) && !s.sub_leaves(s.child(handle_of_inner(x), gc)).contains(y)
                        implies t.leaf_nodes@[y].key == s.leaf_nodes@[y].key by {
                        assert(s.tree_leaves().contains(y));
                    }
                    assert forall|y: int| #[trigger]
                        s.sub_inners(sroot).contains(y) && !s.sub_inners(s.child(handle_of_inner(x), gc)).contains(y) && y != x
                        implies t.inner_nodes@[y] == s.inner_nodes@[y] by {
                        assert(s.tree_inners().contains(y));
                    }
                    assert(t.sub_leaves(oc).disjoint(s.tree_leaves().difference(s.sub_leaves(ph))));
                    assert(t.sub_inners(oc).disjoint(s.tree_inners().difference(s.sub_inners(ph))));
                    Self::lemma_replace(s, t, sroot, x, gc, oc);
                    assert(t.handles() =~= s.handles().remove(search_key));
                    assert(t.tree_leaves() =~= s.tree_leaves().remove(ch as int));
                    assert(t.tree_inners() =~= s.tree_inners().remove(pi));
                },
                None => {
                    assert(t.handles() =~= s.handles().remove(search_key));
                    assert(t.tree_leaves() =~= s.tree_leaves().remove(ch as int));
                    assert(t.tree_inners() =~= s.tree_inners().remove(pi));
                },
            }
            assert forall|x: int| #![trigger t.tree_leaves().contains(x)] t.tree_leaves().contains(x) implies x
                < t.header.leaf_bump_index && !t.leaf_free_list().contains(x as u32) by {
                assert(s.tree_leaves().contains(x));
                if t.leaf_free_list().contains(x as u32) {
                    let j = choose|j: int| 0 <= j < t.leaf_free_list().len() && t.leaf_free_list()[j] == x as u32;
                    if j > 0 {
                        assert(s.leaf_free_list()[j - 1] == x as u32);
                        assert(s.leaf_free_list().contains(x as u32));
                    }
                }
            }
            assert forall|x: int| #![trigger t.tree_inners().contains(x)] t.tree_inners().contains(x) implies x
                < t.header.inner_node_bump_index && !t.inner_free_list().contains(x as u32) by {
                assert(s.tree_inners().contains(x));
                if t.inner_free_list().contains(x as u32) {
                    let j = choose|j: int| 0 <= j < t.inner_free_list().len() && t.inner_free_list()[j] == x as u32;
                    if j > 0 {
                        assert(s.inner_free_list()[j - 1] == x as u32);
                        assert(s.inner_free_list().contains(x as u32));
                    }
                }
            }
            assert(t.wf());
            assert forall|k: u128|
                #[trigger] s.handles().contains_key(k) && k != search_key
                    implies t.leaf_nodes@[s.handles()[k] as int] == s.leaf_nodes@[s.handles()[k] as int] by {
                assert(s.leaf_nodes@[s.handles()[k] as int].key == k);
            }
        }
        Some((removed_leaf, *self.get_callback_info(child_h)))
    }
}


// ------------------------------------------------------------------------
// Updating an order in place.
impl<C> Slab<C> {
    /// The slab is full: it holds as many orders as it has leaves, at least
    /// one.
    pub proof fn lemma_full_nonempty(&self)
        requires
            self.wf(),
            self.is_full(),
        ensures
            self.header.leaf_count > 0,
            self.header.leaf_count == self.leaf_nodes.len(),
    {
    }

    /// A slab with a free leaf is not full.
    pub proof fn lemma_not_full(&self)
        requires
            self.wf(),
            self.header.leaf_count < self.leaf_nodes.len(),
        ensures
            !self.is_full(),
    {
    }

    /// Sets the base quantity of an order of the tree.
    pub(crate) fn set_leaf_base_quantity(&mut self, h: NodeHandle, base_quantity: u64)
        requires
            old(self).wf(),
            h < old(self).leaf_nodes.len(),
            old(self).handles().contains_key(old(self).leaf_nodes@[h as int].key),
            old(self).handles()[old(self).leaf_nodes@[h as int].key] == h,
        ensures
            final(self).wf(),
            final(self).handles() == old(self).handles(),
            final(self).leaf_nodes@ == old(self).leaf_nodes@.update(
                h as int,
                LeafNode { base_quantity, ..old(self).leaf_nodes@[h as int] },
            ),
            final(self).callback_infos == old(self).callback_infos,
            final(self).header == old(self).header,
    {
        let ghost s = *self;
        let mut l = self.leaf_nodes[h as usize];
        l.base_quantity = base_quantity;
        self.leaf_nodes.set(h as usize, l);
        proof {
            let t = *self;
            let root = s.header.root_node;
            s.lemma_sub_props(root);
            assert(s.tree_leaves().contains(h as int));
            Self::lemma_frame(s, t, root);
            assert forall|x: u32| #[trigger] s.leaf_free_list().contains(x) implies t.leaf_nodes@[x as int].base_quantity
                == s.leaf_nodes@[x as int].base_quantity by {
                if x == h {
                    assert(s.tree_leaves().contains(x as int));
                }
            }
            Self::lemma_leaf_list_frame(s, t);
            Self::lemma_inner_list_frame(s, t);
            assert(s.header.leaf_count > 0);
            assert(t.tree_leaves() == s.tree_leaves());
            assert(t.tree_inners() == s.tree_inners());
            assert(t.alloc_ok());
            assert(t.node_ok(root));
        }
    }
}


impl<C> Slab<C> {
    /// The orders and the tree only depend on the header and the node
    /// arrays: a slab that differs in its callback information alone (and
    /// has at least as many of them) is as well formed and holds the same
    /// orders.
    pub proof fn lemma_callback_frame(s: Slab<C>, t: Slab<C>)
        requires
            s.wf(),
            t.header == s.header,
            t.leaf_nodes == s.leaf_nodes,
            t.inner_nodes == s.inner_nodes,
            t.callback_infos.len() >= s.leaf_nodes.len(),
        ensures
            t.wf(),
            t.handles() == s.handles(),
    {
        Self::lemma_leaf_list_frame(s, t);
        Self::lemma_inner_list_frame(s, t);
        if s.header.leaf_count > 0 {
            let root = s.header.root_node;
            s.lemma_sub_props(root);
            Self::lemma_frame(s, t, root);
            assert(t.tree_leaves() == s.tree_leaves());
            assert(t.tree_inners() == s.tree_inners());
        }
    }
}


// ------------------------------------------------------------------------
// The orders of a slab.
impl<C> Slab<C> {
    /// The orders of the slab: each key with its base quantity and its
    /// callback information.
    pub open spec fn orders(&self) -> Map<u128, (u64, C)> {
        Map::new(
            |k: u128| self.handles().contains_key(k),
            |k: u128|
                (
                    self.leaf_nodes@[self.handles()[k] as int].base_quantity,
                    self.callback_infos@[self.handles()[k] as int],
                ),
        )
    }

    /// A well formed slab holds finitely many orders, as many as its leaf
    /// count and no more than it has leaves; it is full exactly when every
    /// leaf holds an order.
    pub proof fn lemma_orders(&self)
        requires
            self.wf(),
        ensures
            self.orders().dom() == self.handles().dom(),
            self.orders().dom().finite(),
            self.orders().dom().len() == self.header.leaf_count,
            self.header.leaf_count <= self.leaf_nodes.len(),
            self.is_full() <==> self.header.leaf_count == self.leaf_nodes.len(),
    {
        self.lemma_handles();
        assert(self.orders().dom() =~= self.handles().dom());
    }

    /// A slab with a fresh header and node arrays of the account's sizes is
    /// well formed and holds no order.
    pub proof fn lemma_fresh_slab(&self)
        requires
            self.header.is_fresh(),
            self.leaf_nodes.len() == self.inner_nodes.len() + 1,
            self.leaf_nodes.len() <= 0x8000_0000,
            self.callback_infos.len() >= self.leaf_nodes.len(),
        ensures
            self.wf(),
            self.orders() == Map::<u128, (u64, C)>::empty(),
    {
        assert(self.leaf_free_list() =~= Seq::<u32>::empty());
        assert(self.inner_free_list() =~= Seq::<u32>::empty());
        assert(self.orders() =~= Map::<u128, (u64, C)>::empty());
    }

    /// Setting the base quantity of an order changes that order alone.
    pub proof fn lemma_orders_set_quantity(s: Slab<C>, t: Slab<C>, k: u128, q: u64)
        requires
            s.wf(),
            s.handles().contains_key(k),
            t.handles() == s.handles(),
            t.leaf_nodes@ == s.leaf_nodes@.update(
                s.handles()[k] as int,
                LeafNode { base_quantity: q, ..s.leaf_nodes@[s.handles()[k] as int] },
            ),
            t.callback_infos == s.callback_infos,
        ensures
            t.orders() == s.orders().insert(k, (q, s.orders()[k].1)),
    {
        s.lemma_handles();
        assert(t.orders() =~= s.orders().insert(k, (q, s.orders()[k].1)));
    }

    /// Removing an order takes it out of the orders and leaves the others.
    pub proof fn lemma_orders_remove(s: Slab<C>, t: Slab<C>, k: u128)
        requires
            s.wf(),
            t.handles() == s.handles().remove(k),
            t.callback_infos == s.callback_infos,
            forall|k2: u128|
                #[trigger] s.handles().contains_key(k2) && k2 != k ==> t.leaf_nodes@[s.handles()[k2] as int]
                    == s.leaf_nodes@[s.handles()[k2] as int],
        ensures
            t.orders() == s.orders().remove(k),
    {
        assert(t.orders() =~= s.orders().remove(k));
    }

    /// Inserting an order and then writing its callback information adds
    /// that order and leaves the others.
    pub proof fn lemma_orders_insert(s: Slab<C>, t: Slab<C>, u: Slab<C>, leaf: LeafNode, h: u32, cb: C)
        requires
            s.wf(),
            t.wf(),
            t.handles() == s.handles().insert(leaf.key, h),
            t.leaf_nodes@[h as int] == leaf,
            forall|k2: u128|
                #[trigger] s.handles().contains_key(k2) && k2 != leaf.key ==> t.leaf_nodes@[s.handles()[k2] as int]
                    == s.leaf_nodes@[s.handles()[k2] as int],
            t.callback_infos == s.callback_infos,
            u.header == t.header,
            u.leaf_nodes == t.leaf_nodes,
            u.inner_nodes == t.inner_nodes,
            u.callback_infos@ == t.callback_infos@.update(h as int, cb),
        ensures
            u.wf(),
            u.orders() == s.orders().insert(leaf.key, (leaf.base_quantity, cb)),
    {
        t.lemma_handles();
        assert(t.handles().contains_key(leaf.key));
        assert(u.callback_infos.len() == t.callback_infos.len());
        assert(t.alloc_ok());
        Self::lemma_callback_frame(t, u);
        s.lemma_handles();
        assert forall|k2: u128| #[trigger] t.handles().contains_key(k2) && k2 != leaf.key implies t.handles()[k2] != h by {
            assert(t.leaf_nodes@[t.handles()[k2] as int].key == k2);
        }
        assert(u.orders() =~= s.orders().insert(leaf.key, (leaf.base_quantity, cb)));
    }

    /// Removing an order just inserted, its callback information written,
    /// leaves the orders as they were before the insertion.
    pub proof fn lemma_insert_then_remove(
        s: Slab<C>,
        t: Slab<C>,
        u: Slab<C>,
        w: Slab<C>,
        leaf: LeafNode,
        h: u32,
        cb: C,
    )
        requires
            s.wf(),
            t.wf(),
            !s.handles().contains_key(leaf.key),
            t.handles() == s.handles().insert(leaf.key, h),
            t.leaf_nodes@[h as int] == leaf,
            forall|k2: u128|
                #[trigger] s.handles().contains_key(k2) && k2 != leaf.key ==> t.leaf_nodes@[s.handles()[k2] as int]
                    == s.leaf_nodes@[s.handles()[k2] as int],
            t.callback_infos == s.callback_infos,
            u.header == t.header,
            u.leaf_nodes == t.leaf_nodes,
            u.inner_nodes == t.inner_nodes,
            u.callback_infos@ == t.callback_infos@.update(h as int, cb),
            w.handles() == u.handles().remove(leaf.key),
            w.callback_infos == u.callback_infos,
            forall|k2: u128|
                #[trigger] u.handles().contains_key(k2) && k2 != leaf.key ==> w.leaf_nodes@[u.handles()[k2] as int]
                    == u.leaf_nodes@[u.handles()[k2] as int],
        ensures
            w.orders() == s.orders(),
    {
        Self::lemma_orders_insert(s, t, u, leaf, h, cb);
        Self::lemma_orders_remove(u, w, leaf.key);
        s.lemma_orders();
        assert(s.orders().insert(leaf.key, (leaf.base_quantity, cb)).remove(leaf.key) =~= s.orders());
    }
}


// ------------------------------------------------------------------------
// Walking the orders in key order.
/// Every key of `a` comes after every key of `b` in the walk: below them
/// when `ascending`, above them otherwise.
pub open spec fn keys_before(a: Set<u128>, b: Set<u128>, ascending: bool) -> bool {
    forall|ka: u128, kb: u128|
        #![trigger a.contains(ka), b.contains(kb)]
        a.contains(ka) && b.contains(kb) ==> if ascending {
            ka < kb
        } else {
            kb < ka
        }
}

proof fn lemma_keys_before_subset(a: Set<u128>, a2: Set<u128>, b: Set<u128>, ascending: bool)
    requires
        keys_before(a, b, ascending),
        a2.subset_of(a),
    ensures
        keys_before(a2, b, ascending),
{
    assert forall|ka: u128, kb: u128|
        #![trigger a2.contains(ka), b.contains(kb)]
        a2.contains(ka) && b.contains(kb) implies if ascending {
        ka < kb
    } else {
        kb < ka
    } by {
        assert(a.contains(ka));
    }
}

/// An iterator over the orders of a slab, in ascending or descending key
/// order, that is, by price and then by time priority.
pub struct SlabIterator<'a, C> {
    pub slab: &'a Slab<C>,
    pub search_stack: Vec<u32>,
    pub ascending: bool,
}

impl<C> Slab<C> {
    /// The keys of the subtrees rooted at the handles of `stack`.
    pub closed spec fn stack_keys(&self, stack: Seq<u32>) -> Set<u128>
        decreases stack.len(),
    {
        if stack.len() == 0 {
            Set::empty()
        } else {
            self.stack_keys(stack.drop_last()).union(self.sub_keys(stack.last()).dom())
        }
    }

    /// The number of nodes in the subtrees rooted at the handles of `stack`.
    pub closed spec fn stack_size(&self, stack: Seq<u32>) -> nat
        decreases stack.len(),
    {
        if stack.len() == 0 {
            0
        } else {
            self.stack_size(stack.drop_last()) + self.sub_leaves(stack.last()).len()
                + self.sub_inners(stack.last()).len()
        }
    }

    /// A walk's stack: valid subtrees of the slab's tree, whose keys the
    /// walk meets from the top of the stack down.
    pub closed spec fn stack_ok(&self, stack: Seq<u32>, ascending: bool) -> bool {
        &&& self.wf()
        &&& forall|i: int| 0 <= i < stack.len() ==> #[trigger] self.node_ok(stack[i])
        &&& forall|i: int|
            0 <= i < stack.len() ==> keys_within(#[trigger] self.sub_keys(stack[i]), self.handles())
        &&& forall|i: int, j: int|
            0 <= i < j < stack.len() ==> keys_before(
                #[trigger] self.sub_keys(stack[j]).dom(),
                #[trigger] self.sub_keys(stack[i]).dom(),
                ascending,
            )
    }

    proof fn lemma_stack_push(&self, stack: Seq<u32>, h: u32)
        ensures
            self.stack_keys(stack.push(h)) == self.stack_keys(stack).union(self.sub_keys(h).dom()),
            self.stack_size(stack.push(h)) == self.stack_size(stack) + self.sub_leaves(h).len()
                + self.sub_inners(h).len(),
    {
        assert(stack.push(h).drop_last() =~= stack);
    }

    /// The keys below the top of a walk's stack all come after the top's.
    proof fn lemma_stack_after_top(&self, stack: Seq<u32>, ascending: bool)
        requires
            self.stack_ok(stack, ascending),
            stack.len() > 0,
        ensures
            keys_before(
                self.sub_keys(stack.last()).dom(),
                self.stack_keys(stack.drop_last()),
                ascending,
            ),
        decreases stack.len(),
    {
        let rest = stack.drop_last();
        if rest.len() > 0 {
            let shorter = rest.drop_last().push(stack.last());
            assert(self.stack_ok(shorter, ascending)) by {
                assert forall|i: int, j: int| 0 <= i < j < shorter.len() implies keys_before(
                    #[trigger] self.sub_keys(shorter[j]).dom(),
                    #[trigger] self.sub_keys(shorter[i]).dom(),
                    ascending,
                ) by {
                    if j == shorter.len() - 1 {
                        assert(shorter[j] == stack[stack.len() - 1]);
                        assert(shorter[i] == stack[i]);
                    } else {
                        assert(shorter[j] == stack[j]);
                        assert(shorter[i] == stack[i]);
                    }
                }
                assert forall|i: int| 0 <= i < shorter.len() implies #[trigger] self.node_ok(
                    shorter[i],
                ) by {
                    if i == shorter.len() - 1 {
                        assert(shorter[i] == stack[stack.len() - 1]);
                    } else {
                        assert(shorter[i] == stack[i]);
                    }
                }
                assert forall|i: int| 0 <= i < shorter.len() implies keys_within(
                    #[trigger] self.sub_keys(shorter[i]),
                    self.handles(),
                ) by {
                    if i == shorter.len() - 1 {
                        assert(shorter[i] == stack[stack.len() - 1]);
                    } else {
                        assert(shorter[i] == stack[i]);
                    }
                }
            }
            self.lemma_stack_after_top(shorter, ascending);
            assert(shorter.drop_last() =~= rest.drop_last());
            assert(keys_before(
                self.sub_keys(stack.last()).dom(),
                self.sub_keys(rest.last()).dom(),
                ascending,
            )) by {
                assert(rest.last() == stack[stack.len() - 2]);
                assert(stack.last() == stack[stack.len() - 1]);
            }
        }
    }
}

impl<C> SlabIterator<'_, C> {
    /// The keys of the orders that the walk has yet to meet.
    pub open spec fn remaining(&self) -> Set<u128> {
        self.slab.stack_keys(self.search_stack@)
    }

    /// The walk is consistent with its slab.
    pub open spec fn inv(&self) -> bool {
        self.slab.stack_ok(self.search_stack@, self.ascending)
    }
}

impl<C: Copy> Slab<C> {
    /// An iterator over the orders of the slab, in ascending key order when
    /// `price_ascending` and descending otherwise.
    pub fn into_iter(&self, price_ascending: bool) -> (r: SlabIterator<'_, C>)
        requires
            self.wf(),
        ensures
            r.slab == self,
            r.ascending == price_ascending,
            r.inv(),
            r.remaining() == self.handles().dom(),
    {
        let mut search_stack: Vec<u32> = Vec::new();
        if self.header.leaf_count != 0 {
            search_stack.push(self.header.root_node);
        }
        let r = SlabIterator { slab: self, search_stack, ascending: price_ascending };
        proof {
            if self.header.leaf_count != 0 {
                self.lemma_stack_push(Seq::empty(), self.header.root_node);
                assert(search_stack@ =~= Seq::<u32>::empty().push(self.header.root_node));
                assert(self.stack_keys(Seq::empty()) =~= Set::<u128>::empty());
                assert(r.remaining() =~= self.handles().dom());
            } else {
                assert(r.remaining() =~= self.handles().dom());
            }
        }
        r
    }
}

impl<'a, C: Copy> SlabIterator<'a, C> {
    /// The next order of the walk: the remaining order with the smallest key
    /// when ascending, the largest otherwise.
    pub fn next(&mut self) -> (r: Option<LeafNode>)
        requires
            old(self).inv(),
        ensures
            final(self).inv(),
            final(self).slab == old(self).slab,
            final(self).ascending == old(self).ascending,
            r is None <==> old(self).remaining() =~= Set::<u128>::empty(),
            r matches Some(leaf) ==> {
                &&& old(self).remaining().contains(leaf.key)
                &&& old(self).slab.handles().contains_key(leaf.key)
                &&& leaf == old(self).slab.leaf_nodes@[old(self).slab.handles()[leaf.key] as int]
                &&& forall|k: u128| #[trigger]
                    old(self).remaining().contains(k) ==> if old(self).ascending {
                        leaf.key <= k
                    } else {
                        k <= leaf.key
                    }
                &&& final(self).remaining() == old(self).remaining().remove(leaf.key)
            },
    {
        let ghost start = self.remaining();
        let slab = self.slab;
        let ascending = self.ascending;
        loop
            invariant
                self.slab == slab,
                self.ascending == ascending,
                slab == old(self).slab,
                ascending == old(self).ascending,
                start == old(self).remaining(),
                self.inv(),
                self.remaining() == start,
            decreases slab.stack_size(self.search_stack@),
        {
            let ghost stack = self.search_stack@;
            let current = match self.search_stack.pop() {
                Some(c) => c,
                None => {
                    proof {
                        assert(stack =~= Seq::<u32>::empty());
                    }
                    return None;
                },
            };
            let ghost rest = stack.drop_last();
            proof {
                assert(rest =~= self.search_stack@);
                assert(stack.last() == current);
                assert(slab.node_ok(stack[stack.len() - 1]));
                slab.lemma_sub_props(current);
                slab.lemma_stack_after_top(stack, ascending);
                assert(keys_within(slab.sub_keys(stack[stack.len() - 1]), slab.handles()));
            }
            match Node::from_handle(current) {
                Node::Inner => {
                    let n = slab.inner_nodes[inner_idx(current)];
                    let (near, far) = if ascending {
                        (n.children[0], n.children[1])
                    } else {
                        (n.children[1], n.children[0])
                    };
                    proof {
                        slab.lemma_unfold(current);
                        slab.lemma_child_submap(current);
                        slab.lemma_sub_props(slab.child(current, 0));
                        slab.lemma_sub_props(slab.child(current, 1));
                        vstd::set_lib::lemma_set_disjoint_lens(
                            slab.sub_leaves(slab.child(current, 0)),
                            slab.sub_leaves(slab.child(current, 1)),
                        );
                        vstd::set_lib::lemma_set_disjoint_lens(
                            slab.sub_inners(slab.child(current, 0)),
                            slab.sub_inners(slab.child(current, 1)),
                        );
                        assert(!slab.sub_inners(slab.child(current, 0)).union(
                            slab.sub_inners(slab.child(current, 1)),
                        ).contains(inner_index(current)));
                    }
                    self.search_stack.push(far);
                    self.search_stack.push(near);
                    proof {
                        let s2 = self.search_stack@;
                        assert(s2 =~= rest.push(far).push(near));
                        slab.lemma_stack_push(rest, far);
                        slab.lemma_stack_push(rest.push(far), near);
                        let kf = slab.sub_keys(far);
                        let kn = slab.sub_keys(near);
                        let kc = slab.sub_keys(current);
                        assert(kc.dom() =~= kf.dom().union(kn.dom()));
                        assert(self.remaining() =~= start);
                        // the near child comes before the far one
                        assert(keys_before(kn.dom(), kf.dom(), ascending)) by {
                            assert forall|a: u128, b: u128|
                                #![trigger kn.dom().contains(a), kf.dom().contains(b)]
                                kn.dom().contains(a) && kf.dom().contains(b) implies if ascending {
                                a < b
                            } else {
                                b < a
                            } by {
                                if ascending {
                                    slab.lemma_children_ordered(current, a, b);
                                } else {
                                    slab.lemma_children_ordered(current, b, a);
                                }
                            }
                        }
                        assert forall|i: int| 0 <= i < s2.len() implies #[trigger] slab.node_ok(
                            s2[i],
                        ) by {
                            if i < rest.len() {
                                assert(s2[i] == stack[i]);
                            }
                        }
                        let c_near = if ascending {
                            0int
                        } else {
                            1int
                        };
                        assert(near == slab.child(current, c_near));
                        assert(far == slab.child(current, 1 - c_near));
                        assert(s2[rest.len() as int] == far);
                        assert(s2[rest.len() as int + 1] == near);
                        assert(keys_within(kc, slab.handles())) by {
                            assert(stack[stack.len() - 1] == current);
                        }
                        assert(kf.submap_of(kc) && kn.submap_of(kc));
                        assert forall|k: u128| #[trigger] kf.contains_key(k) implies slab.handles().contains_key(k)
                            && slab.handles()[k] == kf[k] by {
                            assert(kc.contains_key(k));
                        }
                        assert forall|k: u128| #[trigger] kn.contains_key(k) implies slab.handles().contains_key(k)
                            && slab.handles()[k] == kn[k] by {
                            assert(kc.contains_key(k));
                        }
                        assert forall|i: int| 0 <= i < s2.len() implies keys_within(
                            #[trigger] slab.sub_keys(s2[i]),
                            slab.handles(),
                        ) by {
                            if i < rest.len() {
                                assert(s2[i] == stack[i]);
                            }
                        }
                        assert forall|i: int, j: int| 0 <= i < j < s2.len() implies keys_before(
                            #[trigger] slab.sub_keys(s2[j]).dom(),
                            #[trigger] slab.sub_keys(s2[i]).dom(),
                            ascending,
                        ) by {
                            if j < rest.len() {
                                assert(s2[i] == stack[i] && s2[j] == stack[j]);
                            } else if i < rest.len() {
                                assert(s2[i] == stack[i]);
                                assert(keys_before(
                                    kc.dom(),
                                    slab.sub_keys(stack[i]).dom(),
                                    ascending,
                                )) by {
                                    assert(stack[stack.len() - 1] == current);
                                }
                                lemma_keys_before_subset(
                                    kc.dom(),
                                    slab.sub_keys(s2[j]).dom(),
                                    slab.sub_keys(stack[i]).dom(),
                                    ascending,
                                );
                            }
                        }
                    }
                },
                Node::Leaf => {
                    let leaf = slab.leaf_nodes[current as usize];
                    proof {
                        let kc = slab.sub_keys(current);
                        assert(kc.dom() =~= set![leaf.key]);
                        assert(kc.contains_key(leaf.key));
                        assert(start =~= slab.stack_keys(rest).union(kc.dom()));
                        assert(!slab.stack_keys(rest).contains(leaf.key)) by {
                            if slab.stack_keys(rest).contains(leaf.key) {
                                assert(kc.dom().contains(leaf.key));
                            }
                        }
                        assert(self.remaining() =~= start.remove(leaf.key));
                        assert(self.inv()) by {
                            let s2 = self.search_stack@;
                            assert forall|i: int, j: int| 0 <= i < j < s2.len() implies keys_before(
                                #[trigger] slab.sub_keys(s2[j]).dom(),
                                #[trigger] slab.sub_keys(s2[i]).dom(),
                                ascending,
                            ) by {
                                assert(s2[i] == stack[i] && s2[j] == stack[j]);
                            }
                            assert forall|i: int| 0 <= i < s2.len() implies #[trigger] slab.node_ok(
                                s2[i],
                            ) by {
                                assert(s2[i] == stack[i]);
                            }
                            assert forall|i: int| 0 <= i < s2.len() implies keys_within(
                                #[trigger] slab.sub_keys(s2[i]),
                                slab.handles(),
                            ) by {
                                assert(s2[i] == stack[i]);
                            }
                        }
                        assert forall|k: u128| #[trigger] start.contains(k) implies if ascending {
                            leaf.key <= k
                        } else {
                            k <= leaf.key
                        } by {
                            if k != leaf.key {
                                assert(slab.stack_keys(rest).contains(k));
                            }
                        }
                    }
                    return Some(leaf);
                },
            }
        }
    }
}


// ------------------------------------------------------------------------
// The depth of the tree.
impl<C> Slab<C> {
    /// The number of nodes on the longest path from `h` down to a leaf.
    pub closed spec fn height(&self, h: u32) -> nat
        decreases 128 - self.depth(h),
    {
        if is_leaf_handle(h) {
            1
        } else if self.depth(h) < 128 {
            let l = if self.descends(h, 0) {
                self.height(self.child(h, 0))
            } else {
                0
            };
            let r = if self.descends(h, 1) {
                self.height(self.child(h, 1))
            } else {
                0
            };
            1 + if l < r {
                r
            } else {
                l
            }
        } else {
            1
        }
    }

    /// The depth of the tree: the number of nodes on its longest path from
    /// the root to a leaf, zero for an empty tree.
    pub open spec fn tree_depth(&self) -> nat {
        if self.header.leaf_count == 0 {
            0
        } else {
            self.height(self.header.root_node)
        }
    }

    /// A path down a valid subtree holds no more nodes than there are
    /// prefix lengths left below it.
    proof fn lemma_height_bound(&self, h: u32)
        requires
            self.node_ok(h),
        ensures
            1 <= self.height(h) <= 129 - self.depth(h),
        decreases 128 - self.depth(h),
    {
        if !is_leaf_handle(h) {
            self.lemma_unfold(h);
            self.lemma_height_bound(self.child(h, 0));
            self.lemma_height_bound(self.child(h, 1));
        }
    }

    /// The deepest leaf below the entries of a depth walk's stack: each
    /// entry is a node with the number of nodes on the path down to it.
    pub closed spec fn stack_best(&self, stack: Seq<(u32, usize)>) -> int
        decreases stack.len(),
    {
        if stack.len() == 0 {
            0
        } else {
            let rest = self.stack_best(stack.drop_last());
            let top = stack.last().1 - 1 + self.height(stack.last().0);
            if rest < top {
                top
            } else {
                rest
            }
        }
    }

    /// The number of nodes below the entries of a depth walk's stack.
    pub closed spec fn stack_nodes(&self, stack: Seq<(u32, usize)>) -> nat
        decreases stack.len(),
    {
        if stack.len() == 0 {
            0
        } else {
            self.stack_nodes(stack.drop_last()) + self.sub_leaves(stack.last().0).len()
                + self.sub_inners(stack.last().0).len()
        }
    }

    proof fn lemma_depth_stack_push(&self, stack: Seq<(u32, usize)>, e: (u32, usize))
        ensures
            self.stack_best(stack.push(e)) == (if self.stack_best(stack) < e.1 - 1 + self.height(
                e.0,
            ) {
                e.1 - 1 + self.height(e.0)
            } else {
                self.stack_best(stack)
            }),
            self.stack_nodes(stack.push(e)) == self.stack_nodes(stack) + self.sub_leaves(e.0).len()
                + self.sub_inners(e.0).len(),
    {
        assert(stack.push(e).drop_last() =~= stack);
    }

    /// The depth of the tree: the number of nodes on its longest path from
    /// the root to a leaf.
    pub fn get_depth(&self) -> (r: usize)
        requires
            self.wf(),
        ensures
            r == self.tree_depth(),
    {
        if self.header.leaf_count == 0 {
            return 0;
        }
        let root = self.header.root_node;
        let mut stack: Vec<(u32, usize)> = Vec::new();
        stack.push((root, 1));
        let mut max_depth: usize = 0;
        proof {
            self.lemma_height_bound(root);
            self.lemma_depth_stack_push(Seq::empty(), (root, 1usize));
            assert(stack@ =~= Seq::<(u32, usize)>::empty().push((root, 1usize)));
        }
        loop
            invariant
                self.wf(),
                self.header.leaf_count > 0,
                root == self.header.root_node,
                forall|i: int|
                    0 <= i < stack@.len() ==> #[trigger] self.node_ok(stack@[i].0) && 1
                        <= stack@[i].1 && stack@[i].1 - 1 + self.height(stack@[i].0) <= self.height(
                        root,
                    ),
                self.height(root) <= 129,
                max_depth <= self.height(root),
                (if max_depth < self.stack_best(stack@) {
                    self.stack_best(stack@)
                } else {
                    max_depth as int
                }) == self.height(root),
            ensures
                max_depth == self.height(root),
            decreases self.stack_nodes(stack@),
        {
            let ghost s = stack@;
            let (current_node, current_depth) = match stack.pop() {
                Some(e) => e,
                None => {
                    proof {
                        assert(s =~= Seq::<(u32, usize)>::empty());
                        assert(self.stack_best(s) == 0);
                    }
                    break;
                },
            };
            let ghost rest = s.drop_last();
            proof {
                assert(rest =~= stack@);
                assert(s.last() == (current_node, current_depth));
                assert(self.node_ok(s[s.len() - 1].0));
                self.lemma_sub_props(current_node);
                assert forall|i: int| 0 <= i < rest.len() implies #[trigger] self.node_ok(
                    rest[i].0,
                ) && 1 <= rest[i].1 && rest[i].1 - 1 + self.height(rest[i].0) <= self.height(
                    root,
                ) by {
                    assert(rest[i] == s[i]);
                }
                assert(current_depth - 1 + self.height(current_node) <= self.height(root));
            }
            match Node::from_handle(current_node) {
                Node::Inner => {
                    let node = self.inner_nodes[inner_idx(current_node)];
                    proof {
                        self.lemma_unfold(current_node);
                        self.lemma_height_bound(current_node);
                        self.lemma_height_bound(self.child(current_node, 0));
                        self.lemma_height_bound(self.child(current_node, 1));
                        self.lemma_sub_props(self.child(current_node, 0));
                        self.lemma_sub_props(self.child(current_node, 1));
                        vstd::set_lib::lemma_set_disjoint_lens(
                            self.sub_leaves(self.child(current_node, 0)),
                            self.sub_leaves(self.child(current_node, 1)),
                        );
                        vstd::set_lib::lemma_set_disjoint_lens(
                            self.sub_inners(self.child(current_node, 0)),
                            self.sub_inners(self.child(current_node, 1)),
                        );
                        assert(!self.sub_inners(self.child(current_node, 0)).union(
                            self.sub_inners(self.child(current_node, 1)),
                        ).contains(inner_index(current_node)));
                        assert(node.children[0] == self.child(current_node, 0));
                        assert(node.children[1] == self.child(current_node, 1));
                        assert(self.descends(current_node, 0) && self.descends(current_node, 1));
                        assert(self.height(current_node) >= 1 + self.height(node.children[0]));
                        assert(self.height(current_node) >= 1 + self.height(node.children[1]));
                    }
                    stack.push((node.children[0], current_depth + 1));
                    stack.push((node.children[1], current_depth + 1));
                    proof {
                        let e0 = (node.children[0], (current_depth + 1) as usize);
                        let e1 = (node.children[1], (current_depth + 1) as usize);
                        self.lemma_depth_stack_push(rest, e0);
                        self.lemma_depth_stack_push(rest.push(e0), e1);
                        assert(stack@ =~= rest.push(e0).push(e1));
                        assert forall|i: int| 0 <= i < stack@.len() implies #[trigger] self.node_ok(
                            stack@[i].0,
                        ) && 1 <= stack@[i].1 && stack@[i].1 - 1 + self.height(stack@[i].0)
                            <= self.height(root) by {
                            if i < rest.len() {
                                assert(stack@[i] == rest[i]);
                            }
                        }
                    }
                },
                Node::Leaf => {
                    if current_depth > max_depth {
                        max_depth = current_depth;
                    }
                },
            }
        }
        max_depth
    }
}


// ------------------------------------------------------------------------
// Checking the invariants of a slab read from an account.
/// The indices whose mark is set.
pub open spec fn marked(marks: Seq<bool>) -> Set<int> {
    Set::new(|x: int| 0 <= x < marks.len() && marks[x])
}

fn all_unmarked(n: usize) -> (r: Vec<bool>)
    ensures
        r@.len() == n,
        forall|x: int| 0 <= x < n ==> !r@[x],
        marked(r@) == Set::<int>::empty(),
{
    let mut marks: Vec<bool> = Vec::new();
    let mut i: usize = 0;
    while i < n
        invariant
            marks@.len() == i,
            i <= n,
            forall|x: int| 0 <= x < i ==> !marks@[x],
        decreases n - i,
    {
        marks.push(false);
        i = i + 1;
    }
    assert(marked(marks@) =~= Set::<int>::empty());
    marks
}

impl<C> Slab<C> {
    /// Walks the leaf free list: whether it holds distinct leaves below the
    /// bump index, and, when it does, which leaves it holds.
    fn check_leaf_free_list(&self) -> (r: (bool, Vec<bool>))
        requires
            self.header.leaf_bump_index <= self.leaf_nodes.len(),
            self.leaf_nodes.len() <= 0x8000_0000,
        ensures
            r.1@.len() == self.leaf_nodes.len(),
            r.0 == (self.leaf_free_list().no_duplicates() && forall|j: int|
                0 <= j < self.leaf_free_list().len() ==> self.leaf_free_list()[j]
                    < self.header.leaf_bump_index),
            r.0 ==> forall|x: int|
                0 <= x < self.leaf_nodes.len() ==> (r.1@[x] <==> self.leaf_free_list().contains(
                    x as u32,
                )),
    {
        let n = self.header.leaf_free_list_len;
        let bump = self.header.leaf_bump_index;
        let mut marks = all_unmarked(self.leaf_nodes.len());
        let ghost full = self.leaf_free_list();
        let ghost mut walked: Seq<u32> = Seq::empty();
        let mut cur = self.header.leaf_free_list_head;
        let mut j: u32 = 0;
        assert(full == walked + self.leaf_free_seq(cur, (n - j) as nat));
        while j < n
            invariant
                0 <= j <= n,
                n == self.header.leaf_free_list_len,
                bump == self.header.leaf_bump_index,
                bump <= self.leaf_nodes.len(),
                self.leaf_nodes.len() <= 0x8000_0000,
                marks@.len() == self.leaf_nodes.len(),
                full == self.leaf_free_list(),
                full == walked + self.leaf_free_seq(cur, (n - j) as nat),
                walked.len() == j,
                walked.no_duplicates(),
                forall|a: int| 0 <= a < walked.len() ==> walked[a] < bump,
                forall|x: int|
                    0 <= x < marks@.len() ==> (marks@[x] <==> walked.contains(x as u32)),
            decreases n - j,
        {
            let ghost rest = self.leaf_free_seq(cur, (n - j) as nat);
            assert(rest[0] == cur);
            assert(full[j as int] == cur);
            if cur >= bump {
                return (false, marks);
            }
            if marks[cur as usize] {
                proof {
                    let a = choose|a: int| 0 <= a < walked.len() && walked[a] == cur;
                    assert(full[a] == cur);
                }
                return (false, marks);
            }
            let next = self.leaf_nodes[cur as usize].base_quantity as u32;
            let ghost m0 = marks@;
            let ghost w0 = walked;
            proof {
                assert(rest == seq![cur] + self.leaf_free_seq(next, (n - j - 1) as nat));
                assert(walked + rest =~= walked.push(cur) + self.leaf_free_seq(
                    next,
                    (n - j - 1) as nat,
                ));
                walked = walked.push(cur);
            }
            marks.set(cur as usize, true);
            proof {
                assert forall|x: int| 0 <= x < marks@.len() implies (marks@[x] <==> walked.contains(
                    x as u32,
                )) by {
                    vstd::seq_lib::lemma_seq_contains_after_push(w0, cur, x as u32);
                    if x != cur as int {
                        assert(x as u32 != cur);
                        assert(marks@[x] == m0[x]);
                    }
                }
            }
            cur = next;
            j = j + 1;
        }
        assert(full =~= walked);
        (true, marks)
    }

    /// Walks the inner free list: whether it holds distinct inner nodes below
    /// the bump index, and, when it does, which inner nodes it holds.
    fn check_inner_free_list(&self) -> (r: (bool, Vec<bool>))
        requires
            self.header.inner_node_bump_index <= self.inner_nodes.len(),
            self.inner_nodes.len() <= 0x8000_0000,
        ensures
            r.1@.len() == self.inner_nodes.len(),
            r.0 == (self.inner_free_list().no_duplicates() && forall|j: int|
                0 <= j < self.inner_free_list().len() ==> self.inner_free_list()[j]
                    < self.header.inner_node_bump_index),
            r.0 ==> forall|x: int|
                0 <= x < self.inner_nodes.len() ==> (r.1@[x] <==> self.inner_free_list().contains(
                    x as u32,
                )),
    {
        let n = self.header.inner_node_free_list_len;
        let bump = self.header.inner_node_bump_index;
        let mut marks = all_unmarked(self.inner_nodes.len());
        let ghost full = self.inner_free_list();
        let ghost mut walked: Seq<u32> = Seq::empty();
        let mut cur = self.header.inner_node_free_list_head;
        let mut j: u32 = 0;
        assert(full == walked + self.inner_free_seq(cur, (n - j) as nat));
        while j < n
            invariant
                0 <= j <= n,
                n == self.header.inner_node_free_list_len,
                bump == self.header.inner_node_bump_index,
                bump <= self.inner_nodes.len(),
                self.inner_nodes.len() <= 0x8000_0000,
                marks@.len() == self.inner_nodes.len(),
                full == self.inner_free_list(),
                full == walked + self.inner_free_seq(cur, (n - j) as nat),
                walked.len() == j,
                walked.no_duplicates(),
                forall|a: int| 0 <= a < walked.len() ==> walked[a] < bump,
                forall|x: int|
                    0 <= x < marks@.len() ==> (marks@[x] <==> walked.contains(x as u32)),
            decreases n - j,
        {
            let ghost rest = self.inner_free_seq(cur, (n - j) as nat);
            assert(rest[0] == cur);
            assert(full[j as int] == cur);
            if cur >= bump {
                return (false, marks);
            }
            if marks[cur as usize] {
                proof {
                    let a = choose|a: int| 0 <= a < walked.len() && walked[a] == cur;
                    assert(full[a] == cur);
                }
                return (false, marks);
            }
            let next = self.inner_nodes[cur as usize].prefix_len as u32;
            let ghost m0 = marks@;
            let ghost w0 = walked;
            proof {
                assert(rest == seq![cur] + self.inner_free_seq(next, (n - j - 1) as nat));
                assert(walked + rest =~= walked.push(cur) + self.inner_free_seq(
                    next,
                    (n - j - 1) as nat,
                ));
                walked = walked.push(cur);
            }
            marks.set(cur as usize, true);
            proof {
                assert forall|x: int| 0 <= x < marks@.len() implies (marks@[x] <==> walked.contains(
                    x as u32,
                )) by {
                    vstd::seq_lib::lemma_seq_contains_after_push(w0, cur, x as u32);
                    if x != cur as int {
                        assert(x as u32 != cur);
                        assert(marks@[x] == m0[x]);
                    }
                }
            }
            cur = next;
            j = j + 1;
        }
        assert(full =~= walked);
        (true, marks)
    }
}


/// Leaf handles as integers.
pub open spec fn handle_ints(s: Seq<u32>) -> Seq<int> {
    s.map_values(|x: u32| x as int)
}

/// `k` lies on side `side` of the inner node `n`.
pub open spec fn key_on_side(n: InnerNode, k: u128, side: bool) -> bool {
    prefix_agree(k, n.key, n.prefix_len as int) && bit_at(k, n.prefix_len as int) == side
}

/// Every leaf that a subtree check adds to the list of leaves lands after
/// what the list held before.
proof fn lemma_new_leaves_in_range(
    before: Seq<u32>,
    after: Seq<u32>,
    mb: Set<int>,
    l: Set<int>,
    x: int,
)
    requires
        handle_ints(before).to_set() == mb,
        handle_ints(after).to_set() == mb.union(l),
        mb.disjoint(l),
        after.len() >= before.len(),
        after.subrange(0, before.len() as int) == before,
        l.contains(x),
    ensures
        exists|j: int| before.len() <= j < after.len() && after[j] as int == x,
{
    assert(handle_ints(after).to_set().contains(x));
    let j = choose|j: int| 0 <= j < handle_ints(after).len() && handle_ints(after)[j] == x;
    if j < before.len() {
        assert(before[j] == after.subrange(0, before.len() as int)[j]);
        assert(handle_ints(before)[j] == x);
        assert(handle_ints(before).to_set().contains(x));
    }
}

impl<C> Slab<C> {
    /// The depth of a node, as `depth` gives it.
    fn node_depth(&self, h: u32) -> (d: u64)
        ensures
            d == self.depth(h),
    {
        match Node::from_handle(h) {
            Node::Leaf => 128,
            Node::Inner => {
                let i = inner_idx(h);
                if i < self.inner_nodes.len() && self.inner_nodes[i].prefix_len < 128 {
                    self.inner_nodes[i].prefix_len
                } else {
                    128
                }
            },
        }
    }

    /// Whether the keys of the leaves `out[lo..hi]` all lie on side `side`
    /// of the inner node `n`.
    fn check_side(&self, n: &InnerNode, out: &Vec<u32>, lo: usize, hi: usize, side: bool) -> (r:
        bool)
        requires
            lo <= hi <= out@.len(),
            n.prefix_len < 128,
            forall|j: int| lo <= j < hi ==> out@[j] < self.leaf_nodes.len(),
        ensures
            r == forall|j: int|
                lo <= j < hi ==> #[trigger] key_on_side(
                    *n,
                    self.leaf_nodes@[out@[j] as int].key,
                    side,
                ),
    {
        let mut j = lo;
        while j < hi
            invariant
                lo <= j <= hi,
                hi <= out@.len(),
                n.prefix_len < 128,
                forall|t: int| lo <= t < hi ==> out@[t] < self.leaf_nodes.len(),
                forall|t: int|
                    lo <= t < j ==> #[trigger] key_on_side(
                        *n,
                        self.leaf_nodes@[out@[t] as int].key,
                        side,
                    ),
            decreases hi - j,
        {
            let k = self.leaf_nodes[out[j] as usize].key;
            let common = shared_prefix_len(k, n.key);
            if common < n.prefix_len as u32 {
                proof {
                    if prefix_agree(k, n.key, n.prefix_len as int) {
                        lemma_agree_mono(k, n.key, common + 1, n.prefix_len as int);
                        lemma_agree_bit(k, n.key, common as int);
                    }
                    assert(!key_on_side(*n, self.leaf_nodes@[out@[j as int] as int].key, side));
                }
                return false;
            }
            let (_, bit) = n.walk_down(k);
            if bit != side {
                assert(!key_on_side(*n, self.leaf_nodes@[out@[j as int] as int].key, side));
                return false;
            }
            proof {
                lemma_agree_mono(k, n.key, n.prefix_len as int, common as int);
                assert(key_on_side(*n, self.leaf_nodes@[out@[j as int] as int].key, side));
            }
            j = j + 1;
        }
        true
    }
}


impl<C> Slab<C> {
    /// The keys of a valid subtree lie on a side of an inner node exactly
    /// when the keys of its leaves do.
    proof fn lemma_side_by_leaves(&self, c: u32, n: InnerNode, side: bool)
        requires
            self.node_ok(c),
        ensures
            Self::side_ok(
                n,
                self.sub_keys(c),
                if side {
                    1
                } else {
                    0
                },
            ) <==> forall|x: int| #[trigger]
                self.sub_leaves(c).contains(x) ==> key_on_side(
                    n,
                    self.leaf_nodes@[x].key,
                    side,
                ),
    {
        self.lemma_sub_props(c);
        let ci: int = if side {
            1
        } else {
            0
        };
        if Self::side_ok(n, self.sub_keys(c), ci) {
            assert forall|x: int| #[trigger]
                self.sub_leaves(c).contains(x) implies key_on_side(
                n,
                self.leaf_nodes@[x].key,
                side,
            ) by {
                assert(self.sub_keys(c).contains_key(self.leaf_nodes@[x].key));
            }
        }
        if forall|x: int| #[trigger]
            self.sub_leaves(c).contains(x) ==> key_on_side(n, self.leaf_nodes@[x].key, side) {
            assert forall|k: u128| #[trigger] self.sub_keys(c).contains_key(k) implies prefix_agree(
                k,
                n.key,
                n.prefix_len as int,
            ) && bit_at(k, n.prefix_len as int) == (ci == 1) by {
                let x = self.sub_keys(c)[k] as int;
                assert(self.sub_leaves(c).contains(x));
            }
        }
    }

    /// Checks the subtree rooted at `h`: whether it is a valid critbit
    /// subtree whose leaves and inner nodes are not yet marked. Marks its
    /// leaves and inner nodes and appends its leaves to `out`.
    fn check_node(
        &self,
        h: u32,
        leaf_marks: &mut Vec<bool>,
        inner_marks: &mut Vec<bool>,
        out: &mut Vec<u32>,
    ) -> (r: bool)
        requires
            old(leaf_marks)@.len() == self.leaf_nodes.len(),
            old(inner_marks)@.len() == self.inner_nodes.len(),
            self.leaf_nodes.len() <= 0x8000_0000,
            handle_ints(old(out)@).to_set() == marked(old(leaf_marks)@),
            handle_ints(old(out)@).no_duplicates(),
        ensures
            final(leaf_marks)@.len() == self.leaf_nodes.len(),
            final(inner_marks)@.len() == self.inner_nodes.len(),
            handle_ints(final(out)@).to_set() == marked(final(leaf_marks)@),
            handle_ints(final(out)@).no_duplicates(),
            final(out)@.len() >= old(out)@.len(),
            final(out)@.subrange(0, old(out)@.len() as int) == old(out)@,
            r ==> {
                &&& self.node_ok(h)
                &&& marked(old(leaf_marks)@).disjoint(self.sub_leaves(h))
                &&& marked(final(leaf_marks)@) == marked(old(leaf_marks)@).union(
                    self.sub_leaves(h),
                )
                &&& marked(old(inner_marks)@).disjoint(self.sub_inners(h))
                &&& marked(final(inner_marks)@) == marked(old(inner_marks)@).union(
                    self.sub_inners(h),
                )
                &&& forall|j: int|
                    old(out)@.len() <= j < final(out)@.len() ==> #[trigger] self.sub_leaves(
                        h,
                    ).contains(final(out)@[j] as int)
            },
            self.node_ok(h) && marked(old(leaf_marks)@).disjoint(self.sub_leaves(h)) && marked(
                old(inner_marks)@,
            ).disjoint(self.sub_inners(h)) ==> r,
        decreases 128 - self.depth(h),
    {
        let ghost lm0 = leaf_marks@;
        let ghost im0 = inner_marks@;
        let ghost out0 = out@;
        assert(out@.subrange(0, out@.len() as int) =~= out@);
        match Node::from_handle(h) {
            Node::Leaf => {
                if h as usize >= self.leaf_nodes.len() {
                    return false;
                }
                assert(self.sub_leaves(h) == set![h as int]);
                if leaf_marks[h as usize] {
                    assert(marked(lm0).contains(h as int));
                    return false;
                }
                leaf_marks.set(h as usize, true);
                out.push(h);
                proof {
                    assert(marked(leaf_marks@) =~= marked(lm0).insert(h as int));
                    assert(handle_ints(out@) =~= handle_ints(out0).push(h as int));
                    assert(!handle_ints(out0).contains(h as int)) by {
                        if handle_ints(out0).contains(h as int) {
                            assert(handle_ints(out0).to_set().contains(h as int));
                        }
                    }
                    assert forall|y: int|
                        #[trigger] handle_ints(out@).to_set().contains(y) == handle_ints(
                            out0,
                        ).to_set().insert(h as int).contains(y) by {
                        vstd::seq_lib::lemma_seq_contains_after_push(handle_ints(out0), h as int, y);
                    }
                    assert(handle_ints(out@).to_set() =~= handle_ints(out0).to_set().insert(
                        h as int,
                    ));
                    assert(out@.subrange(0, out0.len() as int) =~= out0);
                    assert(self.sub_inners(h) =~= Set::<int>::empty());
                    assert(marked(inner_marks@) =~= marked(im0).union(self.sub_inners(h)));
                    assert(marked(leaf_marks@) =~= marked(lm0).union(self.sub_leaves(h)));
                    assert(self.sub_leaves(h).contains(out@[out0.len() as int] as int));
                }
                true
            },
            Node::Inner => {
                let i = inner_idx(h);
                if i >= self.inner_nodes.len() {
                    return false;
                }
                let n = self.inner_nodes[i];
                if n.prefix_len >= 128 {
                    return false;
                }
                if inner_marks[i] {
                    proof {
                        if self.node_ok(h) {
                            self.lemma_unfold(h);
                            assert(marked(im0).contains(i as int));
                        }
                    }
                    return false;
                }
                let c0 = n.children[0];
                let c1 = n.children[1];
                assert(c0 == self.child(h, 0) && c1 == self.child(h, 1));
                if self.node_depth(c0) <= n.prefix_len || self.node_depth(c1) <= n.prefix_len {
                    return false;
                }
                inner_marks.set(i, true);
                let ghost im1 = inner_marks@;
                proof {
                    assert(marked(im1) =~= marked(im0).insert(i as int));
                    if self.node_ok(h) {
                        self.lemma_unfold(h);
                    }
                }
                let start = out.len();
                if !self.check_node(c0, leaf_marks, inner_marks, out) {
                    proof {
                        if self.node_ok(h) && marked(lm0).disjoint(self.sub_leaves(h)) && marked(
                            im0,
                        ).disjoint(self.sub_inners(h)) {
                            self.lemma_unfold(h);
                            assert(marked(lm0).disjoint(self.sub_leaves(c0)));
                            assert(marked(im1).disjoint(self.sub_inners(c0)));
                        }
                    }
                    return false;
                }
                let ghost lm1 = leaf_marks@;
                let ghost im2 = inner_marks@;
                let ghost out1 = out@;
                let mid = out.len();
                proof {
                    assert forall|j: int| start <= j < mid implies out@[j] < self.leaf_nodes.len() by {
                        assert(self.sub_leaves(c0).contains(out@[j] as int));
                        self.lemma_sub_props(c0);
                    }
                }
                if !self.check_side(&n, out, start, mid, false) {
                    proof {
                        if self.node_ok(h) {
                            self.lemma_unfold(h);
                            self.lemma_side_by_leaves(c0, n, false);
                            assert forall|j: int| start <= j < mid implies #[trigger] key_on_side(
                                n,
                                self.leaf_nodes@[out@[j] as int].key,
                                false,
                            ) by {
                                assert(self.sub_leaves(c0).contains(out@[j] as int));
                            }
                        }
                    }
                    return false;
                }
                proof {
                    self.lemma_side_by_leaves(c0, n, false);
                    assert forall|x: int| #[trigger]
                        self.sub_leaves(c0).contains(x) implies key_on_side(
                        n,
                        self.leaf_nodes@[x].key,
                        false,
                    ) by {
                        lemma_new_leaves_in_range(out0, out@, marked(lm0), self.sub_leaves(c0), x);
                        let j = choose|j: int|
                            start <= j < mid && out@[j] as int == x;
                        assert(key_on_side(n, self.leaf_nodes@[out@[j] as int].key, false));
                    }
                }
                if !self.check_node(c1, leaf_marks, inner_marks, out) {
                    proof {
                        if self.node_ok(h) && marked(lm0).disjoint(self.sub_leaves(h)) && marked(
                            im0,
                        ).disjoint(self.sub_inners(h)) {
                            self.lemma_unfold(h);
                            assert(marked(lm1).disjoint(self.sub_leaves(c1)));
                            assert(marked(im2).disjoint(self.sub_inners(c1)));
                        }
                    }
                    return false;
                }
                let end = out.len();
                proof {
                    assert forall|j: int| mid <= j < end implies out@[j] < self.leaf_nodes.len() by {
                        assert(self.sub_leaves(c1).contains(out@[j] as int));
                        self.lemma_sub_props(c1);
                    }
                }
                if !self.check_side(&n, out, mid, end, true) {
                    proof {
                        if self.node_ok(h) {
                            self.lemma_unfold(h);
                            self.lemma_side_by_leaves(c1, n, true);
                            assert forall|j: int| mid <= j < end implies #[trigger] key_on_side(
                                n,
                                self.leaf_nodes@[out@[j] as int].key,
                                true,
                            ) by {
                                assert(self.sub_leaves(c1).contains(out@[j] as int));
                            }
                        }
                    }
                    return false;
                }
                proof {
                    self.lemma_side_by_leaves(c1, n, true);
                    assert forall|x: int| #[trigger]
                        self.sub_leaves(c1).contains(x) implies key_on_side(
                        n,
                        self.leaf_nodes@[x].key,
                        true,
                    ) by {
                        lemma_new_leaves_in_range(out1, out@, marked(lm1), self.sub_leaves(c1), x);
                        let j = choose|j: int|
                            mid <= j < end && out@[j] as int == x;
                        assert(key_on_side(n, self.leaf_nodes@[out@[j] as int].key, true));
                    }
                    assert(self.node_ok(h));
                    self.lemma_unfold(h);
                    assert(marked(leaf_marks@) =~= marked(lm0).union(self.sub_leaves(h)));
                    assert(marked(inner_marks@) =~= marked(im0).union(self.sub_inners(h)));
                    assert(out@.subrange(0, out0.len() as int) =~= out0) by {
                        assert(out1.subrange(0, out0.len() as int) == out0);
                        assert(out@.subrange(0, out1.len() as int) == out1);
                    }
                    assert forall|j: int|
                        out0.len() <= j < out@.len() implies #[trigger] self.sub_leaves(h).contains(
                        out@[j] as int,
                    ) by {
                        if j < mid {
                            assert(out@[j] == out1[j]);
                        }
                    }
                }
                true
            },
        }
    }
}


impl<C> Slab<C> {
    /// Checks that the slab is well formed: the node arrays have the sizes
    /// of an account's layout, the free lists hold distinct nodes below the
    /// bump indices, the tree is a valid critbit tree whose nodes are
    /// neither free nor beyond the bump indices, and the header counts agree
    /// with it.
    pub fn check_invariants(&self) -> (r: bool)
        ensures
            r == self.wf(),
    {
        let hd = self.header;
        let nl = self.leaf_nodes.len();
        let ni = self.inner_nodes.len();
        if nl == 0 || nl - 1 != ni || nl > 0x8000_0000 || self.callback_infos.len() < nl
            || hd.leaf_bump_index as usize > nl || hd.inner_node_bump_index as usize > ni
            || hd.leaf_free_list_len > hd.leaf_bump_index || hd.inner_node_free_list_len
            > hd.inner_node_bump_index {
            return false;
        }
        let (leaf_free_ok, leaf_free) = self.check_leaf_free_list();
        let (inner_free_ok, inner_free) = self.check_inner_free_list();
        if !leaf_free_ok || !inner_free_ok {
            return false;
        }
        assert(self.alloc_ok());
        if hd.leaf_count == 0 {
            return hd.leaf_bump_index == hd.leaf_free_list_len && hd.inner_node_bump_index
                == hd.inner_node_free_list_len;
        }
        let mut leaf_marks = all_unmarked(nl);
        let mut inner_marks = all_unmarked(ni);
        let mut out: Vec<u32> = Vec::new();
        proof {
            assert(handle_ints(out@) =~= Seq::<int>::empty());
            assert(handle_ints(out@).to_set() =~= Set::<int>::empty());
        }
        if !self.check_node(hd.root_node, &mut leaf_marks, &mut inner_marks, &mut out) {
            return false;
        }
        proof {
            assert(marked(leaf_marks@) =~= self.tree_leaves());
            assert(marked(inner_marks@) =~= self.tree_inners());
        }
        let mut x: usize = 0;
        while x < nl
            invariant
                x <= nl,
                nl == self.leaf_nodes.len(),
                leaf_marks@.len() == nl,
                leaf_free@.len() == nl,
                nl <= 0x8000_0000,
                marked(leaf_marks@) == self.tree_leaves(),
                hd == self.header,
                forall|y: int|
                    0 <= y < nl ==> (leaf_free@[y] <==> self.leaf_free_list().contains(
                        y as u32,
                    )),
                forall|y: int|
                    0 <= y < x && #[trigger] leaf_marks@[y] ==> y < hd.leaf_bump_index
                        && !leaf_free@[y],
            decreases nl - x,
        {
            if leaf_marks[x] && (x >= hd.leaf_bump_index as usize || leaf_free[x]) {
                proof {
                    assert(marked(leaf_marks@).contains(x as int));
                    assert(self.tree_leaves().contains(x as int));
                }
                return false;
            }
            x = x + 1;
        }
        let mut x: usize = 0;
        while x < ni
            invariant
                x <= ni,
                ni == self.inner_nodes.len(),
                inner_marks@.len() == ni,
                inner_free@.len() == ni,
                ni <= 0x8000_0000,
                marked(inner_marks@) == self.tree_inners(),
                hd == self.header,
                forall|y: int|
                    0 <= y < ni ==> (inner_free@[y] <==> self.inner_free_list().contains(
                        y as u32,
                    )),
                forall|y: int|
                    0 <= y < x && #[trigger] inner_marks@[y] ==> y < hd.inner_node_bump_index
                        && !inner_free@[y],
            decreases ni - x,
        {
            if inner_marks[x] && (x >= hd.inner_node_bump_index as usize || inner_free[x]) {
                proof {
                    assert(marked(inner_marks@).contains(x as int));
                    assert(self.tree_inners().contains(x as int));
                }
                return false;
            }
            x = x + 1;
        }
        proof {
            handle_ints(out@).unique_seq_to_set();
            assert forall|y: int|
                #![trigger self.tree_leaves().contains(y)]
                self.tree_leaves().contains(y) implies y < hd.leaf_bump_index
                && !self.leaf_free_list().contains(y as u32) by {
                assert(marked(leaf_marks@).contains(y));
                assert(leaf_marks@[y]);
            }
            assert forall|y: int|
                #![trigger self.tree_inners().contains(y)]
                self.tree_inners().contains(y) implies y < hd.inner_node_bump_index
                && !self.inner_free_list().contains(y as u32) by {
                assert(marked(inner_marks@).contains(y));
                assert(inner_marks@[y]);
            }
        }
        out.len() == hd.leaf_count as usize && hd.leaf_bump_index - hd.leaf_free_list_len
            == hd.leaf_count && (hd.inner_node_bump_index - hd.inner_node_free_list_len) as u64 + 1
            == hd.leaf_count as u64
    }
}

} // verus!
