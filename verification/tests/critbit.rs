use agnostic_orderbook::state::critbit::{LeafNode, Node, NodeHandle, Slab};
use agnostic_orderbook::state::AccountTag;
use rand::distributions::{Distribution, WeightedIndex};
use rand::prelude::{SliceRandom, StdRng};
use rand::{Rng, SeedableRng};
use solana_program::pubkey::Pubkey;
use std::collections::BTreeMap;

type TestSlab = Slab<[u8; 32]>;

fn new_slab(capacity: usize) -> TestSlab {
    let mut bytes = vec![0u8; TestSlab::compute_allocation_size(capacity)];
    bytes[0] = AccountTag::Asks.as_u8();
    TestSlab::from_buffer(&bytes, AccountTag::Asks).unwrap()
}

fn check_rec(
    slab: &TestSlab,
    h: NodeHandle,
    last_prefix_len: u64,
    last_prefix: u128,
    last_critbit: bool,
    leaf_count: &mut u64,
    inner_node_count: &mut u64,
) {
    match Node::from_handle(h) {
        Node::Leaf => {
            *leaf_count += 1;
            let node = &slab.leaf_nodes[h as usize];
            assert_eq!(
                last_critbit,
                (node.key & ((1u128 << 127) >> last_prefix_len)) != 0
            );
            let prefix_mask = (((((1u128) << 127) as i128) >> last_prefix_len) as u128) << 1;
            assert_eq!(last_prefix & prefix_mask, node.key & prefix_mask);
        }
        Node::Inner => {
            *inner_node_count += 1;
            let node = &slab.inner_nodes[(!h) as usize];
            assert!(node.prefix_len > last_prefix_len);
            assert_eq!(
                last_critbit,
                (node.key & ((1u128 << 127) >> last_prefix_len)) != 0
            );
            let prefix_mask = (((((1u128) << 127) as i128) >> last_prefix_len) as u128) << 1;
            assert_eq!(last_prefix & prefix_mask, node.key & prefix_mask);
            check_rec(
                slab,
                node.children[0],
                node.prefix_len,
                node.key,
                false,
                leaf_count,
                inner_node_count,
            );
            check_rec(
                slab,
                node.children[1],
                node.prefix_len,
                node.key,
                true,
                leaf_count,
                inner_node_count,
            );
        }
    }
}

fn check_invariants(slab: &TestSlab) {
    assert!(slab.check_invariants());
    let mut leaf_count = 0;
    let mut inner_node_count = 0;
    if let Some(root) = slab.root() {
        if matches!(Node::from_handle(root), Node::Inner) {
            inner_node_count += 1;
            let n = &slab.inner_nodes[(!root) as usize];
            check_rec(
                slab,
                n.children[0],
                n.prefix_len,
                n.key,
                false,
                &mut leaf_count,
                &mut inner_node_count,
            );
            check_rec(
                slab,
                n.children[1],
                n.prefix_len,
                n.key,
                true,
                &mut leaf_count,
                &mut inner_node_count,
            );
        } else {
            leaf_count += 1;
        }
    }
    assert_eq!(
        inner_node_count + slab.header.inner_node_free_list_len as u64,
        slab.header.inner_node_bump_index as u64
    );
    assert_eq!(
        slab.header.leaf_count as u64 + slab.header.leaf_free_list_len as u64,
        slab.header.leaf_bump_index as u64
    );
    assert_eq!(leaf_count, slab.header.leaf_count as u64);
}

fn walk_rec(slab: &TestSlab, sub_root: NodeHandle, buf: &mut Vec<(LeafNode, [u8; 32])>) {
    match Node::from_handle(sub_root) {
        Node::Leaf => {
            let callback_info = slab.get_callback_info(sub_root);
            buf.push((slab.leaf_nodes[sub_root as usize], *callback_info));
        }
        Node::Inner => {
            let n = slab.inner_nodes[(!sub_root) as usize];
            walk_rec(slab, n.children[0], buf);
            walk_rec(slab, n.children[1], buf);
        }
    }
}

fn traverse(slab: &TestSlab) -> Vec<(LeafNode, [u8; 32])> {
    let mut buf = Vec::with_capacity(slab.header.leaf_count as usize);
    if let Some(r) = slab.root() {
        walk_rec(slab, r, &mut buf);
    }
    assert_eq!(buf.len(), buf.capacity());
    buf
}

#[test]
fn simulate_find_min() {
    for trial in 0..10u64 {
        let mut slab = new_slab(10_000);
        slab.header.market_address = Pubkey::new_unique().to_bytes();

        let mut model: BTreeMap<u128, (LeafNode, [u8; 32])> = BTreeMap::new();
        let mut all_keys = vec![];
        let mut rng = StdRng::seed_from_u64(trial);

        assert_eq!(slab.find_min(), None);
        assert_eq!(slab.find_max(), None);

        for i in 0..100 {
            let key = rng.gen();
            let owner = Pubkey::new_unique();
            let qty = rng.gen();
            let leaf = LeafNode {
                key,
                base_quantity: qty,
            };

            println!("key : {:x}", key);
            println!("owner : {:?}", &owner.to_bytes());
            println!("{}", i);
            let h = slab.insert_leaf(&leaf).unwrap().0;
            let callback_info = owner.to_bytes();
            *slab.get_callback_info_mut(h) = callback_info;
            model
                .insert(key, (leaf, callback_info))
                .ok_or(())
                .unwrap_err();
            all_keys.push(key);

            let valid_search_key = *all_keys.choose(&mut rng).unwrap();
            let invalid_search_key = rng.gen();

            for &search_key in &[valid_search_key, invalid_search_key] {
                let slab_value = slab.find_by_key(search_key).map(|x| {
                    let s = slab.leaf_nodes[x as usize];
                    (s.to_owned(), *slab.get_callback_info(x))
                });
                let model_value = model.get(&search_key).cloned();
                assert_eq!(slab_value, model_value);
            }

            let min_h = slab.find_min().unwrap();
            let slab_min = slab.leaf_nodes[min_h as usize];
            let model_min = model.iter().next().unwrap().1;
            let owner = *slab.get_callback_info(min_h);
            assert_eq!(&(slab_min, owner), model_min);

            let max_h = slab.find_max().unwrap();
            let slab_max = slab.leaf_nodes[max_h as usize];
            let model_max = model.iter().next_back().unwrap().1;
            let owner = *slab.get_callback_info(max_h);
            assert_eq!(&(slab_max, owner), model_max);
        }
    }
}

#[derive(Copy, Clone, Debug)]
enum Op {
    InsertNew,
    InsertDup,
    Delete,
    Min,
    Max,
    End,
}

#[test]
fn simulate_operations() {
    let mut slab = new_slab(10_000);
    slab.header.market_address = Pubkey::new_unique().to_bytes();
    let mut model: BTreeMap<u128, (LeafNode, [u8; 32])> = BTreeMap::new();

    let mut all_keys = vec![];
    let mut rng = StdRng::seed_from_u64(1);

    for weights in &[
        [
            (Op::InsertNew, 2000),
            (Op::InsertDup, 200),
            (Op::Delete, 2210),
            (Op::Min, 500),
            (Op::Max, 500),
            (Op::End, 1),
        ],
        [
            (Op::InsertNew, 10),
            (Op::InsertDup, 200),
            (Op::Delete, 5210),
            (Op::Min, 500),
            (Op::Max, 500),
            (Op::End, 1),
        ],
    ] {
        let dist = WeightedIndex::new(weights.iter().map(|(_op, wt)| wt)).unwrap();

        for i in 0..100_000 {
            check_invariants(&slab);
            let model_state = model.values().collect::<Vec<_>>();
            let slab_state: Vec<(LeafNode, [u8; 32])> = traverse(&slab);
            assert_eq!(model_state, slab_state.iter().collect::<Vec<_>>());
            let op = weights[dist.sample(&mut rng)].0;
            println!("Operation : {:?}", op);

            match op {
                Op::InsertNew | Op::InsertDup => {
                    let key = match op {
                        Op::InsertNew => rng.gen(),
                        Op::InsertDup => *all_keys.choose(&mut rng).unwrap(),
                        _ => unreachable!(),
                    };
                    let owner = Pubkey::new_unique().to_bytes();
                    let qty = rng.gen();
                    let leaf = LeafNode {
                        key,
                        base_quantity: qty,
                    };
                    let (leaf_h, old_leaf) = slab.insert_leaf(&leaf).unwrap();
                    let old_owner = *slab.get_callback_info(leaf_h);
                    *slab.get_callback_info_mut(leaf_h) = owner;

                    println!("Insert {:x}", key);

                    all_keys.push(key);
                    let slab_value = old_leaf.map(|l| (l, old_owner));
                    let model_value = model.insert(key, (leaf, owner));
                    assert_eq!(slab_value, model_value);
                }
                Op::Delete => {
                    let key = all_keys
                        .choose(&mut rng)
                        .copied()
                        .unwrap_or_else(|| rng.gen());

                    println!("Remove {:x}", key);

                    let slab_value = slab.remove_by_key(key).map(|v| v.0);
                    let model_value = model.remove(&key).map(|(n, _)| n);
                    assert_eq!(slab_value, model_value);
                }
                Op::Min => {
                    if model.is_empty() {
                        assert_eq!(slab.header.leaf_count, 0);
                    } else {
                        let slab_min_h = slab.find_min().unwrap();
                        let slab_min = slab.leaf_nodes[slab_min_h as usize];
                        let owner = *slab.get_callback_info(slab_min_h);
                        let model_min = model.iter().next().unwrap().1;
                        assert_eq!(&(slab_min, owner), model_min);
                    }
                }
                Op::Max => {
                    if model.is_empty() {
                        assert_eq!(slab.header.leaf_count, 0);
                    } else {
                        let slab_max_h = slab.find_max().unwrap();
                        let slab_max = slab.leaf_nodes[slab_max_h as usize];
                        let owner = *slab.get_callback_info(slab_max_h);
                        let model_max = model.iter().next_back().unwrap().1;
                        assert_eq!(&(slab_max, owner), model_max);
                    }
                }
                Op::End => {
                    if i > 10_000 {
                        break;
                    }
                }
            }
        }
    }
}

#[test]
fn slab_iterates_in_key_order() {
    let mut slab = new_slab(100);
    let mut rng = StdRng::seed_from_u64(7);
    let mut keys: Vec<u128> = Vec::new();
    for _ in 0..60 {
        let key: u128 = rng.gen();
        slab.insert_leaf(&LeafNode {
            key,
            base_quantity: 1,
        })
        .unwrap();
        keys.push(key);
    }
    for k in keys.iter().take(20) {
        slab.remove_by_key(*k).unwrap();
    }
    let mut expected: Vec<u128> = keys[20..].to_vec();
    expected.sort();
    let mut it = slab.into_iter(true);
    let mut seen = Vec::new();
    while let Some(leaf) = it.next() {
        seen.push(leaf.key);
    }
    assert_eq!(seen, expected);
    expected.reverse();
    let mut it = slab.into_iter(false);
    let mut seen = Vec::new();
    while let Some(leaf) = it.next() {
        seen.push(leaf.key);
    }
    assert_eq!(seen, expected);
}

#[test]
fn slab_depth_counts_nodes_on_the_longest_path() {
    let mut slab = new_slab(10);
    assert_eq!(slab.get_depth(), 0);
    slab.insert_leaf(&LeafNode { key: 0, base_quantity: 1 }).unwrap();
    assert_eq!(slab.get_depth(), 1);
    slab.insert_leaf(&LeafNode { key: 2, base_quantity: 1 }).unwrap();
    assert_eq!(slab.get_depth(), 2);
    slab.insert_leaf(&LeafNode { key: 3, base_quantity: 1 }).unwrap();
    assert_eq!(slab.get_depth(), 3);
    slab.insert_leaf(&LeafNode { key: 1, base_quantity: 1 }).unwrap();
    assert_eq!(slab.get_depth(), 3);
    slab.insert_leaf(&LeafNode { key: 1 << 100, base_quantity: 1 }).unwrap();
    assert_eq!(slab.get_depth(), 4);
}

#[test]
fn slab_insert_then_remove_restores_orders() {
    let mut slab = new_slab(16);
    let mut rng = StdRng::seed_from_u64(11);
    for i in 0..8u8 {
        let key: u128 = rng.gen();
        let (h, _) = slab
            .insert_leaf(&LeafNode {
                key,
                base_quantity: i as u64 + 1,
            })
            .unwrap();
        *slab.get_callback_info_mut(h) = [i; 32];
    }
    let before = traverse(&slab);
    let mut sorted_before: Vec<(u128, u64, [u8; 32])> = before
        .iter()
        .map(|(l, c)| (l.key, l.base_quantity, *c))
        .collect();
    sorted_before.sort();

    let key: u128 = rng.gen();
    let (h, prev) = slab
        .insert_leaf(&LeafNode {
            key,
            base_quantity: 99,
        })
        .unwrap();
    assert!(prev.is_none());
    *slab.get_callback_info_mut(h) = [42; 32];
    let (leaf, cb) = slab.remove_by_key(key).unwrap();
    assert_eq!(leaf.base_quantity, 99);
    assert_eq!(cb, [42; 32]);

    let mut sorted_after: Vec<(u128, u64, [u8; 32])> = traverse(&slab)
        .iter()
        .map(|(l, c)| (l.key, l.base_quantity, *c))
        .collect();
    sorted_after.sort();
    assert_eq!(sorted_after, sorted_before);
    check_invariants(&slab);
}
