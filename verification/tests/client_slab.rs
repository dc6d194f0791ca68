use agnostic_orderbook::wasm::critbit::{
    AccountTag, InnerNode, LeafNode, Node, Side, Slab, SLAB_HEADER_LEN,
};

const CALLBACK_INFO_LEN: usize = 32;

fn header(tag: u8, bump_index: u64, root: u32, leaf_count: u64) -> Vec<u8> {
    let mut h = vec![tag];
    h.extend_from_slice(&bump_index.to_le_bytes());
    h.extend_from_slice(&0u64.to_le_bytes());
    h.extend_from_slice(&0u32.to_le_bytes());
    h.extend_from_slice(&root.to_le_bytes());
    h.extend_from_slice(&leaf_count.to_le_bytes());
    h.extend_from_slice(&[7u8; 32]);
    assert_eq!(h.len(), SLAB_HEADER_LEN);
    h
}

fn slot(node: &Node, slot_size: usize) -> Vec<u8> {
    let mut b = Vec::new();
    node.serialize(&mut b);
    assert!(b.len() <= slot_size);
    b.resize(slot_size, 0);
    b
}

fn inner(prefix_len: u32, key: u128, children: [u32; 2]) -> Node {
    Node::Inner(InnerNode {
        prefix_len,
        key,
        children,
    })
}

fn leaf(price: u64, seq: u64, quantity: u64) -> Node {
    Node::Leaf(LeafNode::new(
        ((price as u128) << 64) | seq as u128,
        vec![1; CALLBACK_INFO_LEN],
        quantity,
    ))
}

/// Three bids: 5 at price 100, then 7 and 1 at price 200.
fn sample_slab() -> Slab {
    let slot_size = Slab::compute_slot_size(CALLBACK_INFO_LEN);
    let mut data = header(3, 5, 0, 3);
    data.extend(slot(&inner(56, 200u128 << 64, [1, 2]), slot_size));
    data.extend(slot(&leaf(100, 1, 5), slot_size));
    data.extend(slot(&inner(127, (200u128 << 64) | 2, [3, 4]), slot_size));
    data.extend(slot(&leaf(200, 2, 7), slot_size));
    data.extend(slot(&leaf(200, 3, 1), slot_size));
    Slab::new(data, CALLBACK_INFO_LEN, slot_size)
}

#[test]
fn client_slot_size() {
    assert_eq!(Slab::compute_slot_size(32), 57);
    assert_eq!(Slab::compute_slot_size(0), 32);
    assert_eq!(Slab::compute_slot_size(7), 32);
}

#[test]
fn client_slab_header() {
    let slab = sample_slab();
    assert_eq!(slab.header.account_tag, AccountTag::Bids);
    assert_eq!(slab.header.leaf_count, 3);
    assert_eq!(slab.header.bump_index, 5);
    assert_eq!(slab.header.market_address, [7u8; 32]);
    assert!(slab.check(Side::Bid));
    assert!(!slab.check(Side::Ask));
    assert_eq!(slab.root(), Some(0));
}

#[test]
fn client_slab_reads_nodes() {
    let slab = sample_slab();
    match slab.get_node(1) {
        Some(Node::Leaf(l)) => {
            assert_eq!(l.price(), 100);
            assert_eq!(l.base_quantity, 5);
            assert_eq!(l.callback_info, vec![1; CALLBACK_INFO_LEN]);
        }
        _ => panic!("slot 1 holds a leaf"),
    }
    match slab.get_node(2) {
        Some(Node::Inner(i)) => assert_eq!(i.children, [3, 4]),
        _ => panic!("slot 2 holds an inner node"),
    }
}

#[test]
fn client_slab_extremes() {
    let slab = sample_slab();
    assert!(slab.check_tree(5));
    assert_eq!(slab.find_min(), Some(1));
    assert_eq!(slab.find_max(), Some(4));
}

#[test]
fn client_slab_node_sequence() {
    let slab = sample_slab();
    assert_eq!(slab.find_node_sequence(10, true), vec![1, 3, 4]);
    assert_eq!(slab.find_node_sequence(2, true), vec![1, 3]);
    assert_eq!(slab.find_node_sequence(2, false), vec![4, 3]);
    assert_eq!(slab.find_node_sequence(0, false), Vec::<u32>::new());
}

#[test]
fn client_slab_l2_depth() {
    let slab = sample_slab();
    assert_eq!(slab.find_l2_depth(10, true), vec![5, 100, 8, 200]);
    assert_eq!(slab.find_l2_depth(1, true), vec![5, 100]);
    assert_eq!(slab.find_l2_depth(10, false), vec![8, 200, 5, 100]);
    // The scan stops as soon as the last level opens.
    assert_eq!(slab.find_l2_depth(1, false), vec![1, 200]);
    assert_eq!(slab.find_l2_depth(0, true), Vec::<u64>::new());
}

#[test]
fn client_empty_slab() {
    let slot_size = Slab::compute_slot_size(CALLBACK_INFO_LEN);
    let mut data = header(4, 0, 0, 0);
    data.extend(vec![0u8; 2 * slot_size]);
    let slab = Slab::new(data, CALLBACK_INFO_LEN, slot_size);
    assert!(slab.check(Side::Ask));
    assert_eq!(slab.root(), None);
    assert!(slab.check_tree(0));
    assert_eq!(slab.find_min(), None);
    assert_eq!(slab.find_max(), None);
    assert_eq!(slab.find_node_sequence(3, true), Vec::<u32>::new());
    assert_eq!(slab.find_l2_depth(3, true), Vec::<u64>::new());
}

#[test]
fn client_slab_refuses_bad_trees() {
    let slot_size = Slab::compute_slot_size(CALLBACK_INFO_LEN);
    // The root points at itself: no walk ends.
    let mut data = header(3, 1, 0, 1);
    data.extend(slot(&inner(1, 0, [0, 0]), slot_size));
    let slab = Slab::new(data, CALLBACK_INFO_LEN, slot_size);
    assert!(!slab.check_tree(10));
    // The root's child lies past the end of the buffer.
    let mut data = header(3, 1, 0, 1);
    data.extend(slot(&inner(1, 0, [0, 9]), slot_size));
    let slab = Slab::new(data, CALLBACK_INFO_LEN, slot_size);
    assert!(!slab.check_tree(10));
}

#[test]
fn client_l2_refuses_free_slots_and_overflow() {
    let slot_size = Slab::compute_slot_size(CALLBACK_INFO_LEN);
    let mut data = header(3, 3, 0, 2);
    data.extend(slot(&inner(56, 200u128 << 64, [1, 2]), slot_size));
    data.extend(slot(&leaf(100, 1, 5), slot_size));
    data.extend(slot(&Node::Uninitialized, slot_size));
    let slab = Slab::new(data, CALLBACK_INFO_LEN, slot_size);
    assert!(slab.check_tree(3));
    assert_eq!(slab.try_find_l2_depth(1, true), Some(vec![5, 100]));
    assert_eq!(slab.try_find_l2_depth(2, true), None);

    let mut data = header(3, 3, 0, 2);
    data.extend(slot(&inner(127, 200u128 << 64, [1, 2]), slot_size));
    data.extend(slot(&leaf(200, 1, u64::MAX), slot_size));
    data.extend(slot(&leaf(200, 2, 1), slot_size));
    let slab = Slab::new(data, CALLBACK_INFO_LEN, slot_size);
    assert_eq!(slab.try_find_l2_depth(1, false), Some(vec![1, 200]));
    assert_eq!(slab.try_find_l2_depth(2, true), None);
}

fn free(next: u32, last: bool) -> Node {
    let f = agnostic_orderbook::wasm::critbit::FreeNode { next };
    if last {
        Node::LastFree(f)
    } else {
        Node::Free(f)
    }
}

#[test]
fn client_remove_by_key() {
    let mut slab = sample_slab();
    // No order with this key: the walk ends at another one.
    assert_eq!(slab.remove_by_key((200u128 << 64) | 9), None);
    assert_eq!(slab.header.leaf_count, 3);
    let removed = slab.remove_by_key((200u128 << 64) | 2);
    assert_eq!(removed, Some(leaf(200, 2, 7)));
    assert_eq!(slab.header.leaf_count, 2);
    assert_eq!(slab.header.free_list_head, 3);
    assert_eq!(slab.header.free_list_len, 2);
    // The sibling moved into its parent's slot; both of the others are free.
    assert_eq!(slab.get_node(2), Some(leaf(200, 3, 1)));
    assert_eq!(slab.get_node(4), Some(free(0, true)));
    assert_eq!(slab.get_node(3), Some(free(4, false)));
    assert_eq!(slab.find_node_sequence(10, true), vec![1, 2]);
    assert_eq!(slab.find_l2_depth(10, true), vec![5, 100, 1, 200]);
}

#[test]
fn client_remove_min_and_max() {
    let mut slab = sample_slab();
    assert_eq!(slab.remove_min(), Some(leaf(100, 1, 5)));
    assert_eq!(slab.find_node_sequence(10, true), vec![3, 4]);
    assert_eq!(slab.get_node(0), Some(inner(127, (200u128 << 64) | 2, [3, 4])));

    let mut slab = sample_slab();
    assert_eq!(slab.remove_max(), Some(leaf(200, 3, 1)));
    assert_eq!(slab.find_node_sequence(10, false), vec![2, 1]);
    assert_eq!(slab.find_l2_depth(10, false), vec![7, 200, 5, 100]);
}

#[test]
fn client_remove_last_order() {
    let slot_size = Slab::compute_slot_size(CALLBACK_INFO_LEN);
    let mut data = header(3, 1, 0, 1);
    data.extend(slot(&leaf(42, 1, 10), slot_size));
    let mut slab = Slab::new(data, CALLBACK_INFO_LEN, slot_size);
    assert_eq!(slab.remove_by_key((42u128 << 64) | 2), None);
    assert_eq!(slab.remove_by_key((42u128 << 64) | 1), Some(leaf(42, 1, 10)));
    assert_eq!(slab.header.leaf_count, 0);
    assert_eq!(slab.header.root_node, 0);
    assert_eq!(slab.root(), None);
    assert_eq!(slab.get_node(0), Some(free(0, true)));
    assert_eq!(slab.remove_min(), None);
}

#[test]
fn client_insert_takes_free_slots_first() {
    let mut slab = sample_slab();
    // The buffer holds five slots, all used.
    assert_eq!(
        slab.insert(&leaf(300, 9, 1)),
        Err(agnostic_orderbook::wasm::critbit::NodeError::UnexpectedEof)
    );
    assert_eq!(slab.header.bump_index, 5);
    slab.remove_by_key((200u128 << 64) | 2);
    assert_eq!(slab.header.free_list_head, 3);
    assert_eq!(slab.insert(&leaf(300, 9, 1)), Ok(3));
    assert_eq!(slab.get_node(3), Some(leaf(300, 9, 1)));
    assert_eq!(slab.header.free_list_head, 4);
    assert_eq!(slab.header.free_list_len, 1);
    assert_eq!(slab.insert(&leaf(300, 10, 2)), Ok(4));
    assert_eq!(slab.header.free_list_len, 0);
    assert_eq!(slab.header.bump_index, 5);
}

#[test]
fn client_insert_past_used_slots() {
    let slot_size = Slab::compute_slot_size(CALLBACK_INFO_LEN);
    let mut data = header(3, 1, 0, 1);
    data.extend(slot(&leaf(42, 1, 10), slot_size));
    data.extend(vec![0u8; slot_size]);
    let mut slab = Slab::new(data, CALLBACK_INFO_LEN, slot_size);
    assert_eq!(slab.insert(&leaf(43, 2, 3)), Ok(1));
    assert_eq!(slab.header.bump_index, 2);
    assert_eq!(slab.get_node(1), Some(leaf(43, 2, 3)));
    assert_eq!(
        slab.insert(&leaf(44, 3, 3)),
        Err(agnostic_orderbook::wasm::critbit::NodeError::UnexpectedEof)
    );
}

#[test]
fn client_extremes_lead_the_sequences() {
    let slab = sample_slab();
    assert_eq!(slab.find_node_sequence(1, true), vec![slab.find_min().unwrap()]);
    assert_eq!(slab.find_node_sequence(1, false), vec![slab.find_max().unwrap()]);
}

#[test]
fn client_header_written_back() {
    let mut slab = sample_slab();
    slab.remove_by_key((200u128 << 64) | 2);
    // The removal changes the header in memory only.
    let stale = Slab::new(slab.buffer.clone(), CALLBACK_INFO_LEN, slab.slot_size);
    assert_eq!(stale.header.leaf_count, 3);
    slab.write_header();
    let reread = Slab::new(slab.buffer.clone(), CALLBACK_INFO_LEN, slab.slot_size);
    assert_eq!(reread.header, slab.header);
    assert_eq!(reread.header.leaf_count, 2);
    assert_eq!(reread.find_node_sequence(10, true), vec![1, 2]);
}
