use net_coords::chord::index_id::IndexId;

#[test]
fn test_index_id() {
    let mut index_id = IndexId::new();
    index_id.add_node(2); // index: 0
    index_id.add_node(3); // index: 1
    assert!(index_id.index_to_id(0).unwrap() == 2);
    assert!(index_id.index_to_id(1).unwrap() == 3);
    assert!(index_id.index_to_id(2).is_none());
    assert!(index_id.index_to_id(3).is_none());
    assert!(index_id.index_to_id(4).is_none());

    assert!(index_id.id_to_index(2).unwrap() == 0);
    assert!(index_id.id_to_index(3).unwrap() == 1);
    assert!(index_id.id_to_index(4).is_none());
    assert!(index_id.id_to_index(0).is_none());
}
