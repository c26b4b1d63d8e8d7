use net_coords::chord::node_fingers::SemiChain;
use net_coords::chord::semi_chains_array::SemiChainsArray;

#[test]
fn test_semi_chains_array() {
    let mut semi_chains_array = SemiChainsArray::new();
    semi_chains_array.insert_schain(SemiChain { final_id: 3, length: 4 });
    semi_chains_array.insert_schain(SemiChain { final_id: 4, length: 4 });
    semi_chains_array.insert_schain(SemiChain { final_id: 5, length: 4 });
    semi_chains_array.insert_schain(SemiChain { final_id: 5, length: 5 });
    semi_chains_array.insert_schain(SemiChain { final_id: 6, length: 5 });
    semi_chains_array.insert_schain(SemiChain { final_id: 7, length: 4 });
    semi_chains_array.insert_schain(SemiChain { final_id: 11, length: 4 });
    semi_chains_array.insert_schain(SemiChain { final_id: 18, length: 4 });
    semi_chains_array.insert_schain(SemiChain { final_id: 25, length: 4 });
    semi_chains_array.index();

    // Check exact match:
    assert!(*semi_chains_array.find_closest_left(7) == SemiChain { final_id: 7, length: 4 });
    assert!(*semi_chains_array.find_closest_right(7) == SemiChain { final_id: 7, length: 4 });

    assert!(*semi_chains_array.find_closest_left(11) == SemiChain { final_id: 11, length: 4 });
    assert!(*semi_chains_array.find_closest_right(11) == SemiChain { final_id: 11, length: 4 });

    // Check near match:
    assert!(*semi_chains_array.find_closest_left(12) == SemiChain { final_id: 11, length: 4 });
    assert!(*semi_chains_array.find_closest_right(12) == SemiChain { final_id: 18, length: 4 });

    // Check wraparound:
    assert!(*semi_chains_array.find_closest_right(26) == SemiChain { final_id: 3, length: 4 });
    assert!(*semi_chains_array.find_closest_left(2) == SemiChain { final_id: 25, length: 4 });

    // Prefer shorter chains:
    assert!(*semi_chains_array.find_closest_right(5) == SemiChain { final_id: 5, length: 4 });
    assert!(*semi_chains_array.find_closest_left(5) == SemiChain { final_id: 5, length: 4 });
}

#[test]
fn test_semi_chains_array_tie_break() {
    // Among chains of the same winning final id, the one with fewer hops
    // wins, on non-exact matches and on wraparound too.
    let mut arr = SemiChainsArray::new();
    arr.insert_schain(SemiChain { final_id: 11, length: 4 });
    arr.insert_schain(SemiChain { final_id: 11, length: 7 });
    arr.insert_schain(SemiChain { final_id: 18, length: 4 });
    arr.index();

    assert!(*arr.find_closest_left(12) == SemiChain { final_id: 11, length: 4 });
    assert!(*arr.find_closest_left(11) == SemiChain { final_id: 11, length: 4 });
    // Wraparound: every final id lies above the target.
    assert!(*arr.find_closest_left(3) == SemiChain { final_id: 18, length: 4 });
    assert!(*arr.find_closest_right(19) == SemiChain { final_id: 11, length: 4 });
}
