use catdb::trees::draw::NodeLine;
use catdb::trees::BTree;

/// Walks the subtree whose top is line `at`, appends its keys to `out` in
/// the order from left to right and the depth of each leaf to `leaves`, and
/// returns the index of the first line after the subtree.
fn walk(lines: &Vec<NodeLine<u64>>, at: usize, depth: usize, out: &mut Vec<u64>, leaves: &mut Vec<usize>) -> usize {
    let line = &lines[at];
    assert_eq!(line.indent, " ".repeat(2 * depth));
    assert_eq!(line.num_keys, line.keys.len());
    assert!(line.num_keys <= 30);
    if line.is_leaf {
        out.extend(line.keys.iter().copied());
        leaves.push(depth);
        return at + 1;
    }
    let mut next = at + 1;
    for i in 0..line.num_keys + 1 {
        assert!(next < lines.len());
        assert_eq!(lines[next].indent.len(), 2 * (depth + 1));
        next = walk(lines, next, depth + 1, out, leaves);
        if i < line.num_keys {
            out.push(line.keys[i]);
        }
    }
    assert!(next == lines.len() || lines[next].indent.len() <= 2 * depth);
    next
}

fn check_tree(tree: &BTree<u64>) -> (Vec<u64>, usize) {
    let lines = tree.draw_tree();
    let mut out = Vec::new();
    let mut leaves = Vec::new();
    let end = walk(&lines, 0, 0, &mut out, &mut leaves);
    assert_eq!(end, lines.len());
    for pair in out.windows(2) {
        assert!(pair[0] < pair[1]);
    }
    assert_eq!(out.len(), tree.size());
    for d in leaves.iter() {
        assert_eq!(*d, leaves[0]);
    }
    (out, leaves[0])
}

#[test]
fn outline_of_an_empty_tree_is_one_empty_leaf() {
    let tree = BTree::<u64>::new();
    let lines = tree.draw_tree();
    assert_eq!(lines.len(), 1);
    assert_eq!(lines[0].indent, "");
    assert!(lines[0].is_leaf);
    assert_eq!(lines[0].num_keys, 0);
    assert!(lines[0].keys.is_empty());
}

#[test]
fn outline_of_a_small_tree_is_one_leaf_with_its_keys() {
    let mut tree = BTree::<u64>::new();
    for k in [9u64, 3, 6] {
        assert!(tree.insert(k));
    }
    let lines = tree.draw_tree();
    assert_eq!(lines.len(), 1);
    assert_eq!(lines[0].indent, "");
    assert!(lines[0].is_leaf);
    assert_eq!(lines[0].num_keys, 3);
    assert_eq!(*lines[0].keys, vec![3u64, 6, 9]);
}

#[test]
fn the_root_splits_at_the_thirty_first_key() {
    let mut tree = BTree::<u64>::new();
    for k in 0..30u64 {
        assert!(tree.insert(k));
    }
    assert_eq!(tree.draw_tree().len(), 1);
    assert!(tree.insert(30));
    let lines = tree.draw_tree();
    assert_eq!(lines.len(), 3);
    assert_eq!(lines[0].indent, "");
    assert!(!lines[0].is_leaf);
    assert_eq!(lines[0].num_keys, 1);
    assert_eq!(*lines[0].keys, vec![15u64]);
    assert_eq!(lines[1].indent, "  ");
    assert!(lines[1].is_leaf);
    assert_eq!(lines[1].num_keys, 15);
    assert_eq!(*lines[1].keys, (0..15u64).collect::<Vec<u64>>());
    assert_eq!(lines[2].indent, "  ");
    assert!(lines[2].is_leaf);
    assert_eq!(lines[2].num_keys, 15);
    assert_eq!(*lines[2].keys, (16..31u64).collect::<Vec<u64>>());
    assert_eq!(tree.size(), 31);
}

#[test]
fn a_full_child_hands_its_median_to_its_parent() {
    let mut tree = BTree::<u64>::new();
    for k in 0..47u64 {
        assert!(tree.insert(k));
    }
    let lines = tree.draw_tree();
    assert_eq!(lines.len(), 4);
    assert!(!lines[0].is_leaf);
    assert_eq!(*lines[0].keys, vec![15u64, 31]);
    assert_eq!(*lines[1].keys, (0..15u64).collect::<Vec<u64>>());
    assert_eq!(*lines[2].keys, (16..31u64).collect::<Vec<u64>>());
    assert_eq!(*lines[3].keys, (32..47u64).collect::<Vec<u64>>());
}

#[test]
fn a_median_goes_between_the_keys_of_the_parent() {
    let mut tree = BTree::<u64>::new();
    for k in 0..31u64 {
        assert!(tree.insert(k * 100));
    }
    for k in 1..=16u64 {
        assert!(tree.insert(k));
    }
    let lines = tree.draw_tree();
    assert_eq!(lines.len(), 4);
    assert_eq!(*lines[0].keys, vec![15u64, 1500]);
    assert_eq!(lines[1].num_keys, 15);
    assert_eq!(lines[2].num_keys, 15);
    assert_eq!(lines[3].num_keys, 15);
    assert_eq!(lines[1].keys[0], 0);
    assert_eq!(lines[1].keys[14], 14);
    assert_eq!(lines[2].keys[0], 16);
    assert_eq!(lines[2].keys[14], 1400);
    assert_eq!(lines[3].keys[0], 1600);
    check_tree(&tree);
}

#[test]
fn a_full_internal_root_splits_into_fifteen_median_fifteen() {
    let mut tree = BTree::<u64>::new();
    let mut k = 0u64;
    while check_tree(&tree).1 < 2 {
        assert!(tree.insert(k));
        k += 1;
    }
    let lines = tree.draw_tree();
    assert!(!lines[0].is_leaf);
    assert_eq!(lines[0].num_keys, 1);
    let second: Vec<&NodeLine<u64>> = lines.iter().filter(|l| l.indent == "  ").collect();
    assert_eq!(second.len(), 2);
    for half in second.iter() {
        assert!(!half.is_leaf);
        assert_eq!(half.num_keys, 15);
    }
    let third = lines.iter().filter(|l| l.indent == "    ").count();
    assert_eq!(third, 32);
    let (keys, height) = check_tree(&tree);
    assert_eq!(height, 2);
    assert_eq!(keys, (0..k).collect::<Vec<u64>>());
    assert!(lines[0].keys[0] > second[0].keys[14]);
    assert!(lines[0].keys[0] < second[1].keys[0]);
}

#[test]
fn the_tree_grows_by_one_level_at_a_time() {
    let mut tree = BTree::<u64>::new();
    let mut height = 0;
    for k in 0..2000u64 {
        assert!(tree.insert(k));
        let now = check_tree(&tree).1;
        assert!(now == height || now == height + 1);
        height = now;
    }
    assert_eq!(height, 2);
}

#[test]
fn the_walk_from_left_to_right_ascends_after_every_insertion() {
    let mut tree = BTree::<u64>::new();
    let mut x: u64 = 12345;
    let mut expected = std::collections::BTreeSet::new();
    for _ in 0..3000 {
        x = x.wrapping_mul(6364136223846793005).wrapping_add(1442695040888963407);
        let key = (x >> 33) % 2500;
        assert_eq!(tree.insert(key), expected.insert(key));
        let (keys, _) = check_tree(&tree);
        assert_eq!(keys, expected.iter().copied().collect::<Vec<u64>>());
    }
}

#[test]
fn every_node_keeps_the_structure_when_keys_come_in_descending_order() {
    let mut tree = BTree::<u64>::new();
    for k in (0..1500u64).rev() {
        assert!(tree.insert(k));
        check_tree(&tree);
    }
    let (keys, _) = check_tree(&tree);
    assert_eq!(keys, (0..1500u64).collect::<Vec<u64>>());
}
