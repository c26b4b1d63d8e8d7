use net_coords::random_util::choose_k_nums;
use rand::SeedableRng;
use std::collections::HashSet;

#[test]
fn random_util_test_choose_k_nums() {
    let mut rng = rand::rngs::StdRng::seed_from_u64(4);
    let knums = choose_k_nums(3, 100, &mut rng);
    assert!(knums.len() == 3);
    for x in knums.into_iter() {
        assert!(x < 100);
    }
}

#[test]
fn network_sim_test_choose_k_nums() {
    let mut rng = rand::rngs::StdRng::seed_from_u64(11);
    let knums = choose_k_nums(7, 9, &mut rng);
    assert!(knums.len() == 7);
    for x in knums.into_iter() {
        assert!(x < 9);
    }
}

#[test]
fn network_sim_test_hashset_vec() {
    let mut my_set: HashSet<Vec<usize>> = HashSet::new();
    my_set.insert(vec![1, 2, 3]);
    assert!(my_set.contains(&vec![1, 2, 3]));
    assert!(!my_set.contains(&vec![1, 2, 4]));
}

#[test]
fn test_lexicographic() {
    let a = (1, 2);
    let b = (1, 3);
    assert!(a < b);

    let a = (1, 1, 9);
    let b = (1, 1, 10);
    assert!(a < b);

    let a = (2, 3, 9);
    let b = (2, 3, 8);
    assert!(a > b);
}
