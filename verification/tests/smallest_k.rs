use net_coords::smallest_k::SmallestK;

#[test]
fn test_smallest_k_basic() {
    let lt = |a: &u64, b: &u64| *a < *b;
    let mut sk = SmallestK::new(3, &lt);
    assert!(sk.smallest_k == vec![]);
    sk.update(&6);
    assert!(sk.smallest_k == vec![6]);
    sk.update(&5);
    assert!(sk.smallest_k == vec![5, 6]);
    sk.update(&5);
    assert!(sk.smallest_k == vec![5, 5, 6]);
    sk.update(&7);
    assert!(sk.smallest_k == vec![5, 5, 6]);
    sk.update(&3);
    assert!(sk.smallest_k == vec![3, 5, 5]);
    sk.update(&4);
    assert!(sk.smallest_k == vec![3, 4, 5]);
    sk.update(&4);
    assert!(sk.smallest_k == vec![3, 4, 4]);
    sk.update(&2);
    assert!(sk.smallest_k == vec![2, 3, 4]);
    sk.update(&1);
    assert!(sk.smallest_k == vec![1, 2, 3]);
}
