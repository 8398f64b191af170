use boba::dense::DenseHandleMap;
use boba::handle::Handle;
use boba::sparse::SparseHandleMap;

#[test]
fn correct_shifts() {
    let handle = Handle::<()>::from_raw_parts(1, 2, 3);
    assert!(handle.index() == 1);
    assert!(handle.uindex() == 1);
    assert!(handle.generation() == 2);
    assert!(handle.metadata() == 3);
}

#[test]
fn insert_remove() {
    let mut map = SparseHandleMap::<u32>::new();
    let handle = map.insert(42);
    assert!(map.len() == 1);
    assert!(map.contains(handle));
    assert!(map.get(handle).unwrap() == &42);

    let handle2 = map.insert(1234);
    assert!(map.len() == 2);
    assert!(map.contains(handle2));
    assert!(map.get(handle2).unwrap() == &1234);

    let data = map.remove(handle).unwrap();
    assert!(data == 42);
    let data2 = map.remove(handle2).unwrap();
    assert!(data2 == 1234);
}

#[test]
fn predict() {
    let mut map = SparseHandleMap::<u32>::new();
    map.insert(42);

    let future_handle0 = map.predict_handle(0);
    let future_handle2 = map.predict_handle(2);
    map.insert(1234);
    map.insert(3456);
    map.insert(6789);

    assert!(map.contains(future_handle0));
    assert!(map.get(future_handle0).unwrap() == &1234);
    assert!(map.contains(future_handle2));
    assert!(map.get(future_handle2).unwrap() == &6789);
}

#[test]
fn dense_swap_remove_keeps_handles() {
    let mut map = DenseHandleMap::<u32>::new();
    let h1 = map.insert(1);
    let h2 = map.insert(2);
    let h3 = map.insert(3);
    assert_eq!(map.remove(h1), Some(1));
    assert_eq!(map.values(), &[3, 2]);
    assert_eq!(map.get(h2), Some(&2));
    assert_eq!(map.get(h3), Some(&3));
    assert_eq!(map.get(h1), None);
    *map.get_mut(h3).unwrap() = 30;
    assert_eq!(map.get(h3), Some(&30));
    assert_eq!(map.handles_copied(), vec![h3, h2]);
}

#[test]
fn handle_parts_round_trip() {
    let handle = Handle::<u8>::from_raw_parts(u32::MAX, u16::MAX, u16::MAX);
    assert_eq!(handle.id(), u64::MAX);
    assert_eq!(handle.into_raw_parts(), (u32::MAX, u16::MAX, u16::MAX));
    let handle = Handle::<u8>::from_raw_parts(7, 0, 2);
    assert_eq!(handle.id(), 7 + (2u64 << 48));
    let handle = Handle::<u8>::from_raw(0x0003_0002_0000_0001);
    assert_eq!(handle.into_raw_parts(), (1, 2, 3));
    let other: Handle<u32> = handle.into_type();
    assert_eq!(other.id(), handle.id());
    assert_eq!(handle, handle.clone());
    assert_ne!(handle, Handle::<u8>::from_raw(1));
}

#[test]
fn sparse_handle_is_invalid_after_removal_and_reuse() {
    let mut map = SparseHandleMap::<u32>::new();
    let first = map.insert(1);
    assert_eq!(map.remove(first), Some(1));
    assert!(!map.contains(first));
    assert_eq!(map.get(first), None);
    assert_eq!(map.remove(first), None);
    let second = map.insert(2);
    assert_eq!(second.index(), first.index());
    assert_eq!(second.generation(), first.generation() + 1);
    assert!(!map.contains(first));
    assert!(map.get_mut(first).is_none());
    assert_eq!(map.get(second), Some(&2));
    assert_eq!(map.len(), 1);
}

#[test]
fn sparse_fills_oldest_hole_first() {
    let mut map = SparseHandleMap::<u32>::with_id(9);
    assert_eq!(map.id(), 9);
    assert!(map.is_empty());
    let a = map.insert(1);
    let b = map.insert(2);
    let c = map.insert(3);
    assert_eq!(a.metadata(), 9);
    map.remove(b);
    map.remove(a);
    // an empty slot is not a value
    let next = map.predict_handle(0);
    assert!(!map.contains(next));
    assert_eq!(next.index(), b.index());
    assert_eq!(map.predict_handle(1).index(), a.index());
    assert_eq!(map.predict_handle(2).index(), 3);
    assert_eq!(map.insert(4), next);
    assert_eq!(map.iter(), vec![(next, &4), (c, &3)]);
    *map.get_mut(c).unwrap() = 30;
    assert_eq!(map.get(c), Some(&30));
    assert!(map.has_room());
}

#[test]
fn dense_handle_is_invalid_after_removal_and_reuse() {
    let mut map = DenseHandleMap::<u32>::with_id(4);
    assert_eq!(map.id(), 4);
    assert!(map.is_empty());
    let first = map.insert(1);
    let predicted = map.predict_handle(0);
    let second = map.insert(2);
    assert_eq!(predicted, second);
    assert_eq!(map.remove(first), Some(1));
    assert!(!map.contains(first));
    let third = map.insert(3);
    assert_eq!(third.index(), first.index());
    assert!(!map.contains(first));
    assert_eq!(map.get(first), None);
    assert_eq!(map.len(), 2);
    assert_eq!(map.get_index(second), Some(0));
    assert_eq!(map.get_index(third), Some(1));
    assert_eq!(map.get_index(first), None);
    assert_eq!(map.iter(), vec![(second, &2), (third, &3)]);
    assert_eq!(map.handles(), &[second, third]);
    assert!(map.has_room());
}

#[test]
fn sparse_walks_its_slots_for_changing() {
    let mut map = SparseHandleMap::<u32>::new();
    let a = map.insert(1);
    let b = map.insert(2);
    let c = map.insert(3);
    map.remove(b);
    assert_eq!(map.slots(), 3);
    let mut seen = Vec::new();
    for slot in 0..map.slots() {
        if let Some((handle, value)) = map.iter_mut(slot) {
            *value *= 10;
            seen.push(handle);
        }
    }
    assert_eq!(seen, vec![a, c]);
    assert_eq!(map.get(a), Some(&10));
    assert_eq!(map.get(c), Some(&30));
    // an empty slot and a slot past the end hold nothing
    assert!(map.iter_mut(1).is_none());
    assert!(map.iter_mut(3).is_none());
}

#[test]
fn dense_walks_its_values_for_changing() {
    let mut map = DenseHandleMap::<u32>::new();
    let a = map.insert(1);
    let b = map.insert(2);
    let c = map.insert(3);
    map.remove(a);
    let mut seen = Vec::new();
    for position in 0..map.len() {
        let (handle, value) = map.iter_mut(position).unwrap();
        *value += 100;
        seen.push(handle);
    }
    assert_eq!(seen, vec![c, b]);
    assert_eq!(map.values(), &[103, 102]);
    assert!(map.iter_mut(2).is_none());
}

#[test]
fn prediction_needs_indices_that_fit_a_handle() {
    let mut sparse = SparseHandleMap::<u32>::new();
    sparse.insert(1);
    assert!(sparse.can_predict(0));
    assert!(sparse.can_predict(u32::MAX as usize - 1));
    assert!(!sparse.can_predict(u32::MAX as usize));
    assert!(!sparse.can_predict(usize::MAX));
    let mut dense = DenseHandleMap::<u32>::new();
    assert!(dense.can_predict(u32::MAX as usize));
    dense.insert(1);
    dense.insert(2);
    assert!(dense.can_predict(u32::MAX as usize - 2));
    assert!(!dense.can_predict(u32::MAX as usize - 1));
    // a prediction two inserts ahead names the second insert
    let ahead = dense.predict_handle(1);
    dense.insert(3);
    assert_eq!(dense.insert(4), ahead);
}
