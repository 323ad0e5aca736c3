use catdb::trees::node::{BTREE_MAX_KEYS, BTREE_MIN_KEYS};
use catdb::trees::BTree;

#[test]
fn empty_test_u32() {
    let empty = BTree::<u32>::new();

    assert!(!empty.find(&1331));
    assert!(!empty.find(&642426344));

    assert_eq!(empty.size(), 0 as usize);
}

#[test]
fn empty_test_i64() {
    let empty = BTree::<i64>::new();

    assert!(!empty.find(&1331));
    assert!(!empty.find(&642426344));

    assert_eq!(empty.size(), 0 as usize);
}

#[test]
fn test_insert_u32() {
    let mut tree = BTree::<u32>::new();

    assert!(tree.size() == 0 as usize);

    assert!(tree.insert(123));

    assert!(tree.size() == 1 as usize);
    assert!(tree.find(&123));
    assert!(!tree.find(&43));
    assert!(!tree.find(&5278945));

    assert!(tree.insert(5278945));

    assert!(tree.size() == 2 as usize);
    assert!(tree.find(&123));
    assert!(!tree.find(&43));
    assert!(tree.find(&5278945));

    assert!(!tree.insert(5278945));

    assert!(tree.size() == 2 as usize);
    assert!(tree.find(&123));
    assert!(!tree.find(&43));
    assert!(tree.find(&5278945));
}

#[test]
fn test_insert_more_i32() {
    let mut tree = BTree::<i32>::new();

    for i in 0..50 {
        assert!(tree.insert(i));
        assert_eq!(tree.size(), (i + 1) as usize);

        tree.draw_tree();

        for j in 0..1000 {
            assert_eq!(tree.find(&j), j <= i);
        }
    }
}

#[test]
fn test_insert_out_of_order_i64() {
    let mut count = 0;
    let mut tree = BTree::<i64>::new();

    for x in 0..BTREE_MIN_KEYS + 1 {
        assert_eq!(tree.size(), count);
        assert!(!tree.find(&(x as i64)));

        tree.insert(x as i64);
        count += 1;

        assert_eq!(tree.size(), count);
        assert!(tree.find(&(x as i64)));
    }

    for x in BTREE_MAX_KEYS * 50..BTREE_MAX_KEYS * 60 {
        assert_eq!(tree.size(), count);
        assert!(!tree.find(&(x as i64)));

        tree.insert(x as i64);
        count += 1;

        assert_eq!(tree.size(), count);
        assert!(tree.find(&(x as i64)));
    }

    for x in BTREE_MIN_KEYS + 1..100 {
        assert_eq!(tree.size(), count);
        assert!(!tree.find(&(x as i64)));

        tree.insert(x as i64);
        count += 1;

        assert_eq!(tree.size(), count);
        assert!(tree.find(&(x as i64)));
    }
}

#[test]
fn test_insert_much_more_u64() {
    let mut tree = BTree::<u64>::new();

    for i in 0..1000 {
        assert!(tree.insert(i));
        assert_eq!(tree.size(), (i + 1) as usize);

        for j in 0..1000 {
            assert_eq!(tree.find(&j), j <= i);
        }
    }
}
