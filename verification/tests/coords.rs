use std::collections::HashSet;
use net_coords::coords::is_coord_unique;

#[test]
fn coords_test_hashset_vec() {
    let mut my_set: HashSet<Vec<usize>> = HashSet::new();
    my_set.insert(vec![1, 2, 3]);
    assert!(my_set.contains(&vec![1, 2, 3]));
    assert!(!my_set.contains(&vec![1, 2, 4]));
}

#[test]
fn test_is_coord_unique() {
    let unique = vec![vec![1u64, 2, 3], vec![1, 2, 4], vec![5, 6, 7]];
    assert!(is_coord_unique(&unique));

    let repeated = vec![vec![1u64, 2, 3], vec![5, 6, 7], vec![1, 2, 3]];
    assert!(!is_coord_unique(&repeated));

    let empty: Vec<Vec<u64>> = vec![];
    assert!(is_coord_unique(&empty));
}
