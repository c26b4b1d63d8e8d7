use net_coords::chord::node_fingers::{SemiChain, Finger, SortedFingersLeft, SortedFingersRight,
                                      NodeFingers};
use net_coords::chord::map_counter::MapCounter;

/// Get finger structure by target_id. Used for testing and debugging
fn finger_by_target_id(sorted_fingers: &Vec<Finger>, target_id: u64) -> Option<&Finger> {
    sorted_fingers.iter().find(|finger| finger.target_id == target_id)
}

/* Right fingers */

fn make_sorted_fingers_right() -> (SortedFingersRight, MapCounter<SemiChain>) {
    let mut sfr = SortedFingersRight { sorted_fingers: Vec::new() };
    let mut map_counter: MapCounter<SemiChain> = MapCounter::new();

    {
        let mut insert_finger = |final_id, length, target_id| {
            let schain = SemiChain { final_id, length };
            sfr.sorted_fingers.push(Finger { target_id, schain: schain.clone() });
            map_counter.insert(schain);
        };

        insert_finger(14, 5, 11);
        insert_finger(14, 5, 12);
        insert_finger(17, 4, 15);
        insert_finger(14, 5, 18);
    }
    sfr.sorted_fingers.sort_by_key(|finger| finger.target_id);

    (sfr, map_counter)
}

#[test]
fn test_sorted_right_fingers_one_changed() {
    let (mut sfr, mut map_counter) = make_sorted_fingers_right();
    let sc = SemiChain { final_id: 11, length: 4 };
    assert!(!sfr.update(&sc, &mut map_counter, 7).is_none());
    assert!(finger_by_target_id(&sfr.sorted_fingers, 11).unwrap().schain == sc);
}

#[test]
fn test_sorted_right_fingers_unchanged() {
    let (mut sfr, mut map_counter) = make_sorted_fingers_right();
    let sc = SemiChain { final_id: 17, length: 4 };
    assert!(sfr.update(&sc, &mut map_counter, 7).is_none());
}

#[test]
fn test_sorted_right_fingers_change_both() {
    let (mut sfr, mut map_counter) = make_sorted_fingers_right();
    let sc = SemiChain { final_id: 13, length: 4 };
    assert!(!sfr.update(&sc, &mut map_counter, 7).is_none());
    assert!(finger_by_target_id(&sfr.sorted_fingers, 11).unwrap().schain == sc);
    assert!(finger_by_target_id(&sfr.sorted_fingers, 12).unwrap().schain == sc);
}

#[test]
fn test_sorted_right_fingers_change_cyclic() {
    let (mut sfr, mut map_counter) = make_sorted_fingers_right();
    let sc = SemiChain { final_id: 2, length: 4 };
    assert!(!sfr.update(&sc, &mut map_counter, 7).is_none());
    assert!(finger_by_target_id(&sfr.sorted_fingers, 18).unwrap().schain == sc);
}

/* Left fingers */

fn make_sorted_fingers_left() -> (SortedFingersLeft, MapCounter<SemiChain>) {
    let mut sfl = SortedFingersLeft { sorted_fingers: Vec::new() };
    let mut map_counter: MapCounter<SemiChain> = MapCounter::new();

    {
        let mut insert_finger = |final_id, length, target_id| {
            let schain = SemiChain { final_id, length };
            sfl.sorted_fingers.push(Finger { target_id, schain: schain.clone() });
            map_counter.insert(schain);
        };

        insert_finger(21, 5, 5);
        insert_finger(9, 5, 11);
        insert_finger(9, 5, 12);
        insert_finger(13, 4, 15);
        insert_finger(16, 3, 18);
    }

    sfl.sorted_fingers.sort_by_key(|finger| finger.target_id);

    (sfl, map_counter)
}

#[test]
fn test_sorted_left_fingers_one_changed() {
    let (mut sfl, mut map_counter) = make_sorted_fingers_left();
    let sc = SemiChain { final_id: 12, length: 4 };
    assert!(!sfl.update(&sc, &mut map_counter, 7).is_none());
    assert!(finger_by_target_id(&sfl.sorted_fingers, 12).unwrap().schain == sc);
}

#[test]
fn test_sorted_left_fingers_unchanged() {
    let (mut sfl, mut map_counter) = make_sorted_fingers_left();
    let sc = SemiChain { final_id: 8, length: 4 };
    assert!(sfl.update(&sc, &mut map_counter, 7).is_none());
}

#[test]
fn test_sorted_left_fingers_change_both() {
    let (mut sfl, mut map_counter) = make_sorted_fingers_left();
    let sc = SemiChain { final_id: 10, length: 4 };
    assert!(!sfl.update(&sc, &mut map_counter, 7).is_none());
    assert!(finger_by_target_id(&sfl.sorted_fingers, 11).unwrap().schain == sc);
    assert!(finger_by_target_id(&sfl.sorted_fingers, 12).unwrap().schain == sc);
}

#[test]
fn test_sorted_left_fingers_change_cyclic() {
    let (mut sfl, mut map_counter) = make_sorted_fingers_left();
    let sc = SemiChain { final_id: 29, length: 4 };
    assert!(!sfl.update(&sc, &mut map_counter, 7).is_none());
    assert!(finger_by_target_id(&sfl.sorted_fingers, 5).unwrap().schain == sc);
}

/* ***************************************************** */

#[test]
fn test_node_fingers_basic() {
    let mut nf = NodeFingers::new(6, &vec![1, 3, 7, 11, 54], &vec![5]);
    let sc = SemiChain { final_id: 3, length: 4 };
    assert!(!nf.update(&sc, 7).is_none());
    let sc = SemiChain { final_id: 5, length: 4 };
    assert!(!nf.update(&sc, 7).is_none());
    let sc = SemiChain { final_id: 6, length: 4 };
    assert!(nf.update(&sc, 7).is_none());

    let all_schains = nf.all_schains();
    assert!(all_schains.len() > 0);
}

#[test]
fn test_node_fingers_update_evictions() {
    // An accepted chain reports every chain it displaced for good, not just
    // the one at the walk's start slot.
    let mut nf = NodeFingers::new(0, &vec![63], &vec![10, 20]);
    // The self chain is still advertised elsewhere: nothing evicted for good.
    assert_eq!(nf.update(&SemiChain { final_id: 5, length: 1 }, 6), Some(vec![]));
    // This chain displaces both remaining self chains and the earlier one.
    let removed = nf.update(&SemiChain { final_id: 62, length: 1 }, 6).unwrap();
    assert_eq!(
        removed,
        vec![
            SemiChain { final_id: 0, length: 0 },
            SemiChain { final_id: 5, length: 1 },
        ]
    );
}
