use catdb::trees::BTree;

#[test]
fn an_empty_tree_finds_no_key_and_has_size_zero() {
    let tree = BTree::<i64>::new();
    for k in [i64::MIN, -1, 0, 1, 15, 31, i64::MAX] {
        assert!(!tree.find(&k));
    }
    assert_eq!(tree.size(), 0);
}

#[test]
fn an_inserted_key_is_found_and_stays_found() {
    let mut tree = BTree::<i32>::new();
    assert!(tree.insert(-40));
    assert!(tree.find(&-40));
    for k in 0..800 {
        assert!(tree.insert(k));
        assert!(tree.find(&-40));
    }
    for k in (-800..-40).rev() {
        assert!(tree.insert(k));
        assert!(tree.find(&-40));
    }
    for k in 0..800 {
        assert!(tree.find(&k));
    }
}

#[test]
fn a_second_insertion_of_a_key_adds_nothing() {
    let mut tree = BTree::<u32>::new();
    assert!(tree.insert(77));
    assert_eq!(tree.size(), 1);
    assert!(!tree.insert(77));
    assert_eq!(tree.size(), 1);
    assert!(tree.find(&77));
}

#[test]
fn a_second_insertion_adds_nothing_at_any_level_of_the_tree() {
    let mut tree = BTree::<u32>::new();
    for k in 0..1000 {
        assert!(tree.insert(k));
    }
    for k in 0..1000 {
        assert!(!tree.insert(k));
        assert_eq!(tree.size(), 1000);
    }
    for k in 0..1000 {
        assert!(tree.find(&k));
    }
    assert!(!tree.find(&1000));
}

#[test]
fn the_size_is_the_number_of_distinct_keys_inserted() {
    let mut tree = BTree::<u64>::new();
    let mut n = 0;
    for k in (0..700u64).map(|k| (k * 37) % 701) {
        assert!(tree.insert(k));
        n += 1;
        assert_eq!(tree.size(), n);
    }
    assert_eq!(tree.size(), 700);
}

#[test]
fn find_tells_stored_keys_from_their_neighbours() {
    let mut tree = BTree::<i64>::new();
    for k in -300..300 {
        assert!(tree.insert(k * 2));
    }
    for k in -300..300 {
        assert!(tree.find(&(k * 2)));
        assert!(!tree.find(&(k * 2 + 1)));
    }
    assert!(!tree.find(&-602));
    assert!(!tree.find(&600));
}

#[test]
fn the_tree_holds_the_extreme_keys_of_its_type() {
    let mut tree = BTree::<u32>::new();
    assert!(tree.insert(u32::MAX));
    assert!(tree.insert(0));
    assert!(tree.find(&u32::MAX));
    assert!(tree.find(&0));
    assert!(!tree.find(&1));
    assert!(!tree.insert(u32::MAX));
    assert_eq!(tree.size(), 2);
}
