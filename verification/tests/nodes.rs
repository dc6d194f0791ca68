use agnostic_orderbook::critbit::{
    InnerNode as SlotInner, LeafNode as SlotLeaf, Node as SlotNode, NodeRef, NodeTag,
};
use agnostic_orderbook::wasm::critbit::{FreeNode, InnerNode, LeafNode, Node, NodeError};

#[test]
fn wasm_leaf_roundtrip() {
    let leaf = LeafNode::new((7u128 << 64) | 3, vec![1, 2, 3, 4], 99);
    assert_eq!(leaf.price(), 7);
    assert_eq!(leaf.order_id(), (7u128 << 64) | 3);
    let mut bytes = Vec::new();
    leaf.serialize(&mut bytes);
    assert_eq!(bytes.len(), 16 + 4 + 8);
    let back = LeafNode::deserialize(&bytes, 4).unwrap();
    assert_eq!(back, leaf);
    let mut l = back;
    l.set_base_quantity(5);
    assert_eq!(l.base_quantity, 5);
}

#[test]
fn wasm_node_roundtrip() {
    let nodes = vec![
        Node::Uninitialized,
        Node::Inner(InnerNode {
            prefix_len: 5,
            key: 1234,
            children: [1, 2],
        }),
        Node::Leaf(LeafNode::new(77, vec![9; 8], 3)),
        Node::Free(FreeNode { next: 4 }),
        Node::LastFree(FreeNode { next: 0 }),
    ];
    for n in nodes {
        let mut bytes = Vec::new();
        n.serialize(&mut bytes);
        assert_eq!(Node::deserialize(&bytes, 8).unwrap(), n);
    }
    assert_eq!(Node::deserialize(&[9, 0, 0], 8).unwrap_err(), NodeError::InvalidData);
    assert_eq!(Node::deserialize(&[1, 0, 0], 8).unwrap_err(), NodeError::UnexpectedEof);
    let leaf = Node::Leaf(LeafNode::new(77, vec![9; 8], 3));
    assert_eq!(leaf.key(), Some(77));
    assert_eq!(leaf.prefix_len(), Ok(128));
    assert!(leaf.children().is_none());
    assert_eq!(leaf.as_leaf().unwrap().base_quantity, 3);
    assert_eq!(Node::Uninitialized.prefix_len(), Err(NodeError::InvalidData));
}

#[test]
fn slot_nodes() {
    let leaf = SlotLeaf {
        key: (3u128 << 64) | 1,
        callback_info_pt: 8,
        base_quantity: 10,
    };
    assert_eq!(leaf.price(), 3);
    let inner = SlotInner {
        key: 5,
        prefix_len: 2,
        children: [4, 6],
    };
    let r = NodeRef::Inner(&inner);
    assert_eq!(r.key(), Some(5));
    assert_eq!(r.prefix_len(), Some(2));
    assert_eq!(r.children(), Some(&[4, 6]));
    assert_eq!(r.to_owned(), SlotNode::Inner(inner));
    let l = NodeRef::Leaf(&leaf);
    assert_eq!(l.as_leaf(), Some(&leaf));
    assert_eq!(l.prefix_len(), Some(128));
    assert_eq!(l.to_owned().tag(), NodeTag::Leaf);
    assert_eq!(SlotNode::Leaf(leaf).as_leaf(), Some(&leaf));
    let mut m = leaf;
    m.set_base_quantity(1);
    assert_eq!(m.base_quantity, 1);
}
