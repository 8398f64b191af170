use boba::link::Link;
use boba::queue::WorldQueue;
use boba::world::World;

const CIRCLE: u64 = 1;
const SQUARE: u64 = 2;
const TICK: u64 = 100;
const DRAW: u64 = 200;

#[test]
fn insert_then_get_returns_the_value() {
    let mut world = World::<u32>::new();
    assert!(world.is_empty());
    let a = world.insert(CIRCLE, 10);
    let b = world.insert(CIRCLE, 20);
    let c = world.insert(SQUARE, 30);
    assert_eq!(world.get(a), Some(&10));
    assert_eq!(world.get(b), Some(&20));
    assert_eq!(world.get(c), Some(&30));
    assert!(world.contains(a));
    assert_eq!(world.len(CIRCLE), 2);
    assert_eq!(world.len(SQUARE), 1);
    assert_eq!(world.len(3), 0);
    assert_eq!(world.types(), 2);
    assert!(world.has(CIRCLE));
    assert!(!world.has(3));
    assert!(!world.is_empty());
    assert!(world.has_room(CIRCLE));
    assert!(world.has_room(3));
}

#[test]
fn links_of_one_kind_share_the_store() {
    let mut world = World::<u32>::new();
    let a = world.insert(CIRCLE, 10);
    let b = world.insert(CIRCLE, 20);
    let c = world.insert(SQUARE, 30);
    assert_eq!(a.map_handle(), b.map_handle());
    assert_ne!(a.map_handle(), c.map_handle());
    assert_ne!(a, b);
    assert_eq!(world.links_copied(CIRCLE), vec![a, b]);
    assert_eq!(world.links_copied(SQUARE), vec![c]);
    assert_eq!(world.links_copied(3), vec![]);
}

#[test]
fn removed_link_stays_invalid_when_the_slot_is_used_again() {
    let mut world = World::<u32>::new();
    let a = world.insert(CIRCLE, 10);
    let b = world.insert(CIRCLE, 20);
    assert_eq!(world.remove(a), Some(10));
    assert!(!world.contains(a));
    assert_eq!(world.get(a), None);
    assert_eq!(world.remove(a), None);
    let c = world.insert(CIRCLE, 30);
    // the slot of the first value is used again, under another generation
    assert_eq!(c.pearl_handle().index(), a.pearl_handle().index());
    assert_ne!(c.pearl_handle().generation(), a.pearl_handle().generation());
    assert!(!world.contains(a));
    assert_eq!(world.get(c), Some(&30));
    assert_eq!(world.get(b), Some(&20));
    // the last value moved into the gap, and the new one follows it
    assert_eq!(world.links_copied(CIRCLE), vec![b, c]);
}

#[test]
fn store_goes_with_its_last_value() {
    let mut world = World::<u32>::new();
    let a = world.insert(CIRCLE, 10);
    let b = world.insert(SQUARE, 20);
    assert_eq!(world.remove(a), Some(10));
    assert!(!world.has(CIRCLE));
    assert_eq!(world.types(), 1);
    assert_eq!(world.len(CIRCLE), 0);
    // a new store for the kind does not bring the old link back
    let c = world.insert(CIRCLE, 30);
    assert!(world.has(CIRCLE));
    assert!(!world.contains(a));
    assert_ne!(a.map_handle(), c.map_handle());
    assert_eq!(world.get(b), Some(&20));
    assert_eq!(world.get(c), Some(&30));
}

#[test]
fn get_mut_changes_one_value() {
    let mut world = World::<u32>::new();
    let a = world.insert(CIRCLE, 10);
    let b = world.insert(CIRCLE, 20);
    *world.get_mut(a).unwrap() = 11;
    assert_eq!(world.get(a), Some(&11));
    assert_eq!(world.get(b), Some(&20));
    world.remove(a);
    assert!(world.get_mut(a).is_none());
}

#[test]
fn listeners_register_once_and_in_order() {
    let mut world = World::<u32>::new();
    world.insert(SQUARE, 1);
    world.insert(CIRCLE, 2);
    assert!(world.listen(TICK, SQUARE));
    assert!(world.listen(TICK, CIRCLE));
    assert!(!world.listen(TICK, SQUARE));
    assert!(world.listen(DRAW, CIRCLE));
    assert_eq!(world.listeners(TICK), vec![SQUARE, CIRCLE]);
    assert_eq!(world.listeners(DRAW), vec![CIRCLE]);
    assert_eq!(world.listeners(300), vec![]);
}

#[test]
fn dispatch_calls_what_was_there_when_it_began() {
    let mut world = World::<u32>::new();
    let s1 = world.insert(SQUARE, 1);
    let c1 = world.insert(CIRCLE, 2);
    let c2 = world.insert(CIRCLE, 3);
    world.listen(TICK, CIRCLE);
    world.listen(TICK, SQUARE);
    let targets = world.targets(TICK);
    assert_eq!(targets, vec![c1, c2, s1]);
    // a listener puts in a value of its own kind while the dispatch runs
    let c3 = world.insert(CIRCLE, 4);
    assert!(!targets.contains(&c3));
    // the next dispatch calls it
    assert_eq!(world.targets(TICK), vec![c1, c2, c3, s1]);
    assert_eq!(world.targets(DRAW), vec![]);
}

#[test]
fn kind_without_values_listens_no_more() {
    let mut world = World::<u32>::new();
    let s1 = world.insert(SQUARE, 1);
    let c1 = world.insert(CIRCLE, 2);
    let t1 = world.insert(3, 5);
    world.listen(TICK, SQUARE);
    world.listen(TICK, CIRCLE);
    world.listen(TICK, 3);
    world.listen(DRAW, SQUARE);
    assert_eq!(world.remove(s1), Some(1));
    // the others keep the order in which they registered
    assert_eq!(world.listeners(TICK), vec![CIRCLE, 3]);
    assert_eq!(world.listeners(DRAW), vec![]);
    assert_eq!(world.targets(TICK), vec![c1, t1]);
    // a new value of the kind does not listen until the kind registers again
    let s2 = world.insert(SQUARE, 6);
    assert_eq!(world.targets(TICK), vec![c1, t1]);
    assert!(world.listen(TICK, SQUARE));
    assert_eq!(world.targets(TICK), vec![c1, t1, s2]);
}

#[test]
fn destroy_is_accepted_once() {
    let mut world = World::<u32>::new();
    let a = world.insert(CIRCLE, 10);
    let b = world.insert(CIRCLE, 20);
    let mut queue = WorldQueue::new();
    assert!(queue.is_empty());
    assert!(queue.destroy(&world, a));
    assert!(!queue.destroy(&world, a));
    assert!(!queue.destroy(&world, a));
    assert!(queue.destroy(&world, b));
    assert_eq!(queue.len(), 2);
    // nothing is removed before the queue is flushed
    assert_eq!(world.get(a), Some(&10));
    assert_eq!(queue.pending(), vec![a.into_type::<()>(), b.into_type::<()>()]);
    assert_eq!(queue.flush(&mut world), vec![10, 20]);
    assert!(queue.is_empty());
    assert!(!world.contains(a));
    assert!(!world.contains(b));
    assert!(world.is_empty());
    // what is gone is not accepted
    assert!(!queue.destroy(&world, a));
    assert_eq!(queue.len(), 0);
}

#[test]
fn destroy_of_a_stale_link_is_refused() {
    let mut world = World::<u32>::new();
    let a = world.insert(CIRCLE, 10);
    world.remove(a);
    let mut queue = WorldQueue::new();
    assert!(!queue.destroy(&world, a));
    assert!(!queue.destroy(&world, Link::<u32>::from_raw(77, 88)));
    assert!(queue.take().is_empty());
}

#[test]
fn flush_skips_what_was_removed_in_between() {
    let mut world = World::<u32>::new();
    let a = world.insert(CIRCLE, 10);
    let b = world.insert(CIRCLE, 20);
    let c = world.insert(CIRCLE, 30);
    let mut queue = WorldQueue::new();
    assert!(queue.destroy(&world, c));
    assert!(queue.destroy(&world, a));
    assert_eq!(world.remove(c), Some(30));
    assert_eq!(queue.flush(&mut world), vec![10]);
    assert_eq!(world.links_copied(CIRCLE), vec![b]);
}

#[test]
fn take_empties_the_queue() {
    let mut world = World::<u32>::new();
    let a = world.insert(CIRCLE, 10);
    let mut queue = WorldQueue::new();
    assert!(queue.destroy(&world, a));
    let links = queue.take();
    assert_eq!(links, vec![a.into_type::<()>()]);
    assert!(queue.is_empty());
    // the link can be queued again now
    assert!(queue.destroy(&world, a));
}

#[test]
fn link_parts() {
    let link = Link::<u32>::from_raw(5, 9);
    assert_eq!(link.id(), 9);
    assert_eq!(link.map_handle().id(), 5);
    assert_eq!(link.pearl_handle().id(), 9);
    let other: Link<u8> = link.into_type();
    assert_eq!(other.id(), 9);
    assert_eq!(other.map_handle(), link.map_handle());
    assert_eq!(link, link.clone());
    assert_ne!(link, Link::<u32>::from_raw(5, 10));
    assert_ne!(link, Link::<u32>::from_raw(6, 9));
}

#[test]
fn links_and_handles_can_be_keys() {
    let mut seen = std::collections::HashSet::new();
    assert!(seen.insert(Link::<u32>::from_raw(1, 2)));
    assert!(!seen.insert(Link::<u32>::from_raw(1, 2)));
    assert!(seen.insert(Link::<u32>::from_raw(2, 1)));
    let mut handles = std::collections::HashSet::new();
    assert!(handles.insert(Link::<u32>::from_raw(1, 2).pearl_handle()));
    assert!(!handles.insert(Link::<u32>::from_raw(3, 2).pearl_handle()));
}

#[test]
fn world_walks_the_values_of_a_kind_for_changing() {
    let mut world = World::<u32>::new();
    let a = world.insert(CIRCLE, 1);
    let s = world.insert(SQUARE, 2);
    let b = world.insert(CIRCLE, 3);
    let mut seen = Vec::new();
    for position in 0..world.len(CIRCLE) {
        let (link, value) = world.iter_mut(CIRCLE, position).unwrap();
        *value += 100;
        seen.push(link);
    }
    assert_eq!(seen, vec![a, b]);
    assert_eq!(world.get(a), Some(&101));
    assert_eq!(world.get(b), Some(&103));
    assert_eq!(world.get(s), Some(&2));
    assert!(world.iter_mut(CIRCLE, 2).is_none());
    assert!(world.iter_mut(3, 0).is_none());
}

#[test]
fn registries_with_different_tags_do_not_take_each_others_links() {
    let mut first = World::<u32>::with_ids(1, boba::id::HandleMapId::starting_at(10));
    let mut second = World::<u32>::with_ids(2, boba::id::HandleMapId::starting_at(20));
    assert_eq!(first.id(), 1);
    assert_eq!(second.id(), 2);
    let a = first.insert(CIRCLE, 10);
    let b = second.insert(CIRCLE, 20);
    assert_eq!(a.map_handle().metadata(), 1);
    assert_eq!(b.map_handle().metadata(), 2);
    assert_eq!(a.pearl_handle().metadata(), 10);
    assert_eq!(b.pearl_handle().metadata(), 20);
    assert!(!first.contains(b));
    assert!(!second.contains(a));
    assert_eq!(second.get(a), None);
    assert_eq!(first.remove(b), None);
    assert_eq!(first.get(a), Some(&10));
    // with the same tag the links cannot be told apart
    let mut third = World::<u32>::new();
    let mut fourth = World::<u32>::new();
    assert_eq!(third.id(), 0);
    let c = third.insert(CIRCLE, 30);
    fourth.insert(CIRCLE, 40);
    assert_eq!(fourth.get(c), Some(&40));
}
