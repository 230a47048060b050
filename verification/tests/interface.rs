use nevy::interface::ConnectionMap;

#[test]
fn connections_are_found_both_ways() {
    let mut map = ConnectionMap::new();
    assert!(!map.insert(7, 100));
    assert!(!map.insert(8, 101));
    assert_eq!(map.get_connection_entity(7), Some(100));
    assert_eq!(map.get_connection_id(101), Some(8));
    assert_eq!(map.get_connection_id(7), None);
    assert_eq!(map.remove_connection(7), Some(100));
    assert_eq!(map.remove_connection(7), None);
    assert_eq!(map.get_connection_entity(7), None);
    assert_eq!(map.get_connection_id(100), None);
    assert_eq!(map.get_connection_entity(8), Some(101));
}

#[test]
fn known_connections_are_not_spawned_again() {
    let mut map = ConnectionMap::new();
    assert_eq!(map.connected(7, || 100), 100);
    assert_eq!(map.connected(7, || 101), 100);
    assert_eq!(map.connected(8, || 101), 101);
    assert_eq!(map.get_connection_id(101), Some(8));
}
