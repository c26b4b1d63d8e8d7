use net_coords::chord::map_counter::MapCounter;

#[test]
fn test_map_counter() {
    let mut map_counter: MapCounter<u64> = MapCounter::new();
    assert!(map_counter.len() == 0);
    map_counter.insert(3);
    assert!(map_counter.len() == 1);
    map_counter.insert(4);
    assert!(map_counter.len() == 2);
    map_counter.remove(&3);
    assert!(map_counter.len() == 1);
    map_counter.remove(&4);
    assert!(map_counter.len() == 0);

    // Check duplicity:
    map_counter.insert(5);
    assert!(map_counter.len() == 1);
    map_counter.insert(5);
    assert!(map_counter.len() == 1);
}

#[test]
fn test_map_counter_get_count() {
    let mut map_counter: MapCounter<u64> = MapCounter::new();
    assert!(map_counter.get_count(&9) == 0);
    map_counter.insert(9);
    map_counter.insert(9);
    assert!(map_counter.get_count(&9) == 2);
    map_counter.remove(&9);
    assert!(map_counter.get_count(&9) == 1);
}
