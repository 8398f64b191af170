use boba::world_map::WorldMap;

#[test]
fn world_map_is_reached_by_handle_and_by_position() {
    let mut map = WorldMap::<u32>::new();
    assert!(map.is_empty());
    let h1 = map.insert(1);
    let h2 = map.insert(2);
    let h3 = map.insert(3);
    assert_eq!(map.len(), 3);
    assert!(map.contains(h2));
    assert_eq!(map.get(h2), Some(&2));
    assert_eq!(map.index_of(h1), Some(0));
    assert_eq!(map.index_of(h3), Some(2));
    assert_eq!(map.get_index(1), Some((h2, &2)));
    assert_eq!(map.get_index(3), None);
    assert_eq!(map.iter(), vec![(h1, &1), (h2, &2), (h3, &3)]);

    assert_eq!(map.remove(h1), Some(1));
    assert_eq!(map.remove(h1), None);
    assert_eq!(map.index_of(h1), None);
    assert_eq!(map.index_of(h3), Some(0));
    assert_eq!(map.iter(), vec![(h3, &3), (h2, &2)]);

    *map.get_mut(h3).unwrap() = 30;
    let (handle, value) = map.get_index_mut(1).unwrap();
    assert_eq!(handle, h2);
    *value = 20;
    assert!(map.get_index_mut(2).is_none());
    assert!(map.get_mut(h1).is_none());
    assert_eq!(map.iter(), vec![(h3, &30), (h2, &20)]);
    assert!(map.has_room());
}
