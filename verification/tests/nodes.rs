use catdb::trees::draw::{print_node, NodeLine};
use catdb::trees::insert::{insert_at_leaf_node, insert_at_node};
use catdb::trees::node::{LeafNode, Node, BTREE_MAX_KEYS, BTREE_MEDIAN_INDEX, BTREE_MIN_KEYS};
use catdb::trees::split::{split_leaf_node, split_node};

fn keys_of(node: &Node<u32>) -> Vec<u32> {
    let mut lines: Vec<NodeLine<u32>> = Vec::new();
    print_node(node, &String::new(), &mut lines);
    assert_eq!(lines.len(), 1);
    assert_eq!(lines[0].num_keys, lines[0].keys.len());
    lines[0].keys.clone()
}

fn full_leaf() -> LeafNode<u32> {
    let mut leaf = LeafNode::<u32>::new();
    for k in 0..BTREE_MAX_KEYS as u32 {
        let state = insert_at_leaf_node(&mut leaf, k * 2);
        assert!(state.success);
        assert_eq!(state.must_split, k as usize + 1 >= BTREE_MAX_KEYS);
    }
    leaf
}

#[test]
fn the_split_constants_are_as_documented() {
    assert_eq!(BTREE_MIN_KEYS, 15);
    assert_eq!(BTREE_MAX_KEYS, 31);
    assert_eq!(BTREE_MEDIAN_INDEX, 15);
    assert_eq!(BTREE_MAX_KEYS, 2 * BTREE_MIN_KEYS + 1);
}

#[test]
fn a_new_leaf_has_no_keys() {
    let leaf = LeafNode::<u32>::new();
    assert_eq!(keys_of(&Node::Leaf(leaf)), Vec::<u32>::new());
}

#[test]
fn a_leaf_keeps_its_keys_in_ascending_order() {
    let mut leaf = LeafNode::<u32>::new();
    for k in [50u32, 10, 30, 20, 40, 0, 60] {
        let state = insert_at_leaf_node(&mut leaf, k);
        assert!(state.success);
        assert!(!state.must_split);
    }
    assert_eq!(keys_of(&Node::Leaf(leaf)), vec![0, 10, 20, 30, 40, 50, 60]);
}

#[test]
fn a_leaf_takes_a_key_before_all_others_and_after_all_others() {
    let mut leaf = LeafNode::<u32>::new();
    assert!(insert_at_leaf_node(&mut leaf, 5).success);
    assert!(insert_at_leaf_node(&mut leaf, 1).success);
    assert!(insert_at_leaf_node(&mut leaf, 9).success);
    assert_eq!(keys_of(&Node::Leaf(leaf)), vec![1, 5, 9]);
}

#[test]
fn a_leaf_refuses_a_key_that_it_stores() {
    let mut leaf = LeafNode::<u32>::new();
    assert!(insert_at_leaf_node(&mut leaf, 7).success);
    assert!(insert_at_leaf_node(&mut leaf, 3).success);
    let state = insert_at_leaf_node(&mut leaf, 7);
    assert!(!state.success);
    assert!(!state.must_split);
    let state = insert_at_leaf_node(&mut leaf, 3);
    assert!(!state.success);
    assert!(!state.must_split);
    assert_eq!(keys_of(&Node::Leaf(leaf)), vec![3, 7]);
}

#[test]
fn a_leaf_must_split_when_it_reaches_max_keys() {
    let mut leaf = LeafNode::<u32>::new();
    for k in 0..30u32 {
        let state = insert_at_leaf_node(&mut leaf, 100 - k);
        assert!(state.success);
        assert!(!state.must_split);
    }
    let state = insert_at_leaf_node(&mut leaf, 100);
    assert!(!state.success);
    assert!(!state.must_split);
    let state = insert_at_leaf_node(&mut leaf, 0);
    assert!(state.success);
    assert!(state.must_split);
    assert_eq!(keys_of(&Node::Leaf(leaf)).len(), 31);
}

#[test]
fn a_full_leaf_splits_into_fifteen_median_fifteen() {
    let mut leaf = full_leaf();
    let res = split_leaf_node(&mut leaf);
    assert_eq!(res.median_key, 30);
    let left = keys_of(&Node::Leaf(leaf));
    let right = keys_of(&res.right);
    assert_eq!(left, (0..15u32).map(|k| k * 2).collect::<Vec<u32>>());
    assert_eq!(right, (16..31u32).map(|k| k * 2).collect::<Vec<u32>>());
    assert_eq!(left.len(), BTREE_MIN_KEYS);
    assert_eq!(right.len(), BTREE_MIN_KEYS);
    assert!(matches!(res.right, Node::Leaf(_)));
}

#[test]
fn split_node_splits_a_leaf_as_split_leaf_node_does() {
    let mut node = Node::Leaf(full_leaf());
    let res = split_node(&mut node);
    assert_eq!(res.median_key, 30);
    assert!(matches!(node, Node::Leaf(_)));
    assert!(matches!(res.right, Node::Leaf(_)));
    assert_eq!(keys_of(&node), (0..15u32).map(|k| k * 2).collect::<Vec<u32>>());
    assert_eq!(keys_of(&res.right), (16..31u32).map(|k| k * 2).collect::<Vec<u32>>());
}

#[test]
fn the_halves_of_a_split_leaf_take_further_keys() {
    let mut node = Node::Leaf(full_leaf());
    let mut res = split_node(&mut node);
    let state = insert_at_node(&mut node, 7);
    assert!(state.success);
    assert!(!state.must_split);
    let state = insert_at_node(&mut res.right, 61);
    assert!(state.success);
    assert!(!state.must_split);
    assert_eq!(keys_of(&node).len(), 16);
    assert_eq!(keys_of(&res.right).len(), 16);
    assert_eq!(keys_of(&node)[4], 7);
    assert_eq!(keys_of(&res.right)[15], 61);
}

#[test]
fn a_leaf_with_sixteen_keys_splits_into_fifteen_median_none() {
    let mut leaf = LeafNode::<u32>::new();
    for k in 0..16u32 {
        assert!(insert_at_leaf_node(&mut leaf, k).success);
    }
    let res = split_leaf_node(&mut leaf);
    assert_eq!(res.median_key, 15);
    assert_eq!(keys_of(&Node::Leaf(leaf)), (0..15u32).collect::<Vec<u32>>());
    assert_eq!(keys_of(&res.right), Vec::<u32>::new());
}

#[test]
fn insert_at_node_on_a_leaf_does_what_insert_at_leaf_node_does() {
    let mut node = Node::Leaf(LeafNode::<u32>::new());
    for k in [4u32, 2, 8, 6] {
        let state = insert_at_node(&mut node, k);
        assert!(state.success);
        assert!(!state.must_split);
    }
    let state = insert_at_node(&mut node, 8);
    assert!(!state.success);
    assert!(!state.must_split);
    assert_eq!(keys_of(&node), vec![2, 4, 6, 8]);
}
