use net_coords::chord::chains_array::{ChainsArray, csum_chain};

#[test]
fn test_csum_chain() {
    assert!(csum_chain(&vec![1, 2, 3, 4]) == 10);
    assert!(csum_chain(&vec![]) == 0);
    assert!(csum_chain(&vec![1]) == 1);
}

#[test]
fn test_chains_array() {
    let mut chains_array = ChainsArray::new();
    chains_array.insert_chain(vec![3, 9, 8, 1]);
    chains_array.insert_chain(vec![4, 3, 2, 1]);
    chains_array.insert_chain(vec![5, 3, 2, 1]);
    chains_array.insert_chain(vec![5, 3, 17, 2, 1]);
    chains_array.insert_chain(vec![6, 9, 8, 1]);
    chains_array.insert_chain(vec![7, 5, 3, 1]);
    chains_array.insert_chain(vec![11, 5, 3, 1]);
    chains_array.insert_chain(vec![18, 5, 3, 1]);
    chains_array.insert_chain(vec![25, 5, 3, 1]);
    chains_array.index();

    // Check exact match:
    assert!(*chains_array.find_closest_left(7) == vec![7, 5, 3, 1]);
    assert!(*chains_array.find_closest_right(7) == vec![7, 5, 3, 1]);

    assert!(*chains_array.find_closest_left(11) == vec![11, 5, 3, 1]);
    assert!(*chains_array.find_closest_right(11) == vec![11, 5, 3, 1]);

    // Check near match:
    assert!(*chains_array.find_closest_left(12) == vec![11, 5, 3, 1]);
    assert!(*chains_array.find_closest_right(12) == vec![18, 5, 3, 1]);

    // Check wraparound:
    assert!(*chains_array.find_closest_right(26) == vec![3, 9, 8, 1]);
    assert!(*chains_array.find_closest_left(2) == vec![25, 5, 3, 1]);

    // Prefer shorter chains:
    assert!(*chains_array.find_closest_right(5) == vec![5, 3, 2, 1]);
    assert!(*chains_array.find_closest_left(5) == vec![5, 3, 2, 1]);
}
