use boba::maps::PearlMap;

#[test]
fn remove() {
    let mut map = PearlMap::<u32>::new();
    let h1 = map.insert(1);
    let h2 = map.insert(2);
    let h3 = map.insert(3);
    assert_eq!(map.get(h1), Some(&1));
    assert_eq!(map.get(h2), Some(&2));
    assert_eq!(map.get(h3), Some(&3));

    map.remove(h1);
    assert_eq!(map.get(h1), None);
    assert_eq!(map.get(h2), Some(&2));
    assert_eq!(map.get(h3), Some(&3));

    map.remove(h2);
    assert_eq!(map.get(h1), None);
    assert_eq!(map.get(h2), None);
    assert_eq!(map.get(h3), Some(&3));

    map.remove(h3);
    assert_eq!(map.get(h1), None);
    assert_eq!(map.get(h2), None);
    assert_eq!(map.get(h3), None);
}

#[test]
fn pearl_map_keeps_entries_packed() {
    let mut map = PearlMap::<u32>::new();
    assert!(map.is_empty());
    assert!(map.last().is_none());
    let h1 = map.insert(1);
    let h2 = map.insert(2);
    let h3 = map.insert(3);
    assert_eq!(map.len(), 3);
    assert_eq!(map.get_index(h1), Some(0));
    assert_eq!(map.get_index(h3), Some(2));
    assert_eq!(map.last().unwrap().pearl, 3);
    assert_eq!(map.remove(h1), Some(1));
    assert_eq!(map.remove(h1), None);
    assert!(!map.contains(h1));
    assert_eq!(map.get_index(h3), Some(0));
    assert_eq!(map.get_index(h2), Some(1));
    assert_eq!(map.get_index(h1), None);
    let pearls: Vec<u32> = map.iter().iter().map(|entry| entry.pearl).collect();
    assert_eq!(pearls, vec![3, 2]);
    *map.get_mut(h2).unwrap() = 20;
    assert_eq!(map.get(h2), Some(&20));
    assert!(map.get_mut(h1).is_none());
    assert!(map.has_room());
}

#[test]
fn pearl_map_walks_its_values_for_changing() {
    let mut map = PearlMap::<u32>::new();
    let a = map.insert(1);
    let b = map.insert(2);
    let c = map.insert(3);
    map.remove(a);
    let mut seen = Vec::new();
    for position in 0..map.len() {
        let (handle, value) = map.iter_mut(position).unwrap();
        *value += 100;
        seen.push(handle);
    }
    assert_eq!(seen, vec![c, b]);
    assert_eq!(map.get(c), Some(&103));
    assert_eq!(map.get(b), Some(&102));
    assert!(map.iter_mut(2).is_none());
}
