use net_coords::chord::ids_chain::{get_msb, ids_chain};

#[test]
fn test_get_msb() {
    assert!(get_msb(0) == None);
    assert!(get_msb(1) == Some(0));
    assert!(get_msb(2) == Some(1));
    assert!(get_msb(3) == Some(1));
    assert!(get_msb(4) == Some(2));
    assert!(get_msb(5) == Some(2));
    assert!(get_msb(6) == Some(2));
    assert!(get_msb(7) == Some(2));
    assert!(get_msb(8) == Some(3));
    assert!(get_msb(9) == Some(3));
}

#[test]
fn test_ids_chain_trivial() {
    let ic = ids_chain(0, 1);
    println!("{:?}", ic);
    assert!(ic[0] == 0);
    assert!(ic[1] == 1);
    assert!(ic.len() == 2);
}

fn is_power2(x: u64) -> bool {
    match x {
        0 => false,
        1 => true,
        _ => x & (x - 1) == 0,
    }
}

/// Check if two ids are adjacent
fn is_adjacent(id_a: u64, id_b: u64) -> bool {
    match id_a >= id_b {
        true => is_power2(id_a - id_b),
        _ => is_power2(id_b - id_a),
    }
}

#[test]
fn test_ids_chain_long() {
    let ic = ids_chain(0xdeadbeef, 0x12345678);
    let ic0 = ic.iter();
    let ic1 = ic.iter().skip(1);

    assert!(ic1.zip(ic0).all(|(&next_id, &id)| is_adjacent(next_id, id)));
    assert!(ic.len() > 2);
}
