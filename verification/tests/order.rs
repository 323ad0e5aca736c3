use catdb::order::{rank, Rank};

#[test]
fn rank_of_a_smaller_key_is_before() {
    assert!(matches!(rank(&3u32, &4u32), Rank::Before));
    assert!(matches!(rank(&0u64, &u64::MAX), Rank::Before));
    assert!(matches!(rank(&-7i32, &2i32), Rank::Before));
    assert!(matches!(rank(&i64::MIN, &i64::MAX), Rank::Before));
}

#[test]
fn rank_of_the_same_key_is_same() {
    assert!(matches!(rank(&4u32, &4u32), Rank::Same));
    assert!(matches!(rank(&u64::MAX, &u64::MAX), Rank::Same));
    assert!(matches!(rank(&-7i32, &-7i32), Rank::Same));
    assert!(matches!(rank(&0i64, &0i64), Rank::Same));
}

#[test]
fn rank_of_a_larger_key_is_after() {
    assert!(matches!(rank(&5u32, &4u32), Rank::After));
    assert!(matches!(rank(&u64::MAX, &0u64), Rank::After));
    assert!(matches!(rank(&2i32, &-7i32), Rank::After));
    assert!(matches!(rank(&i64::MAX, &i64::MIN), Rank::After));
}

#[test]
fn rank_is_the_mirror_of_the_swapped_rank() {
    let keys: Vec<i32> = vec![-5, -1, 0, 1, 7, 7, 100];
    for a in keys.iter() {
        for b in keys.iter() {
            let forth = rank(a, b);
            let back = rank(b, a);
            match forth {
                Rank::Before => assert!(matches!(back, Rank::After)),
                Rank::Same => assert!(matches!(back, Rank::Same)),
                Rank::After => assert!(matches!(back, Rank::Before)),
            }
        }
    }
}
