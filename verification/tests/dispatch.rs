use boba::link::Link;
use boba::pearl::{flush, insert, remove, trigger_nested, Pearl};
use boba::queue::WorldQueue;
use boba::view::PearlView;
use boba::world::World;
use std::any::Any;

const UNIT: u64 = 1;
const WATCHER: u64 = 2;
const TICK: u64 = 10;
const CHAIN: u64 = 11;

struct Tick {
    order: Vec<u64>,
}

#[derive(Debug, PartialEq, Clone)]
struct Unit {
    kind: u64,
    name: u64,
    calls: u32,
    inserted: bool,
    dropped_views: u32,
    spawns: bool,
    dies: bool,
    victim: Option<Link<Unit>>,
}

impl Unit {
    fn new(kind: u64, name: u64) -> Self {
        Unit {
            kind,
            name,
            calls: 0,
            inserted: false,
            dropped_views: 0,
            spawns: false,
            dies: false,
            victim: None,
        }
    }
}

impl Pearl for Unit {
    fn register(key: u64, world: &mut World<Self>) {
        world.listen(TICK, key);
        if key == UNIT {
            world.listen(CHAIN, key);
        }
    }

    fn on_insert<'a>(view: &mut PearlView<'a, Self>) {
        view.current_mut().inserted = true;
    }

    fn on_remove(pearl: &mut Self, _link: Link<Self>, world: &mut World<Self>) {
        pearl.calls += 1000;
        // tell every watcher that is left
        for link in world.links_copied(WATCHER) {
            world.get_mut(link).unwrap().calls += 100;
        }
    }

    fn on_view_drop<'a>(view: &mut PearlView<'a, Self>) {
        view.current_mut().dropped_views += 1;
    }

    fn trigger<'a, E: 'static>(view: &mut PearlView<'a, Self>, event: u64, data: &mut E) {
        let name = view.current().name;
        if let Some(tick) = (data as &mut dyn Any).downcast_mut::<Tick>() {
            tick.order.push(name);
        }
        view.current_mut().calls += 1;
        if event == CHAIN {
            view.trigger(TICK, data);
            return;
        }
        if view.current().spawns {
            let kind = view.current().kind;
            view.insert(kind, Unit::new(kind, name + 100));
        }
        if view.current().dies {
            assert!(view.destroy_self());
            assert!(!view.destroy_self());
        }
        if let Some(victim) = view.current().victim {
            view.destroy(victim);
        }
    }
}

#[test]
fn kind_registers_with_its_first_value() {
    let mut world = World::<Unit>::new();
    assert_eq!(world.listeners(TICK), vec![]);
    let a = insert(&mut world, UNIT, Unit::new(UNIT, 1));
    assert_eq!(world.listeners(TICK), vec![UNIT]);
    let b = insert(&mut world, UNIT, Unit::new(UNIT, 2));
    let w = insert(&mut world, WATCHER, Unit::new(WATCHER, 3));
    assert_eq!(world.listeners(TICK), vec![UNIT, WATCHER]);
    assert_eq!(world.listeners(CHAIN), vec![UNIT]);
    for link in [a, b, w] {
        assert!(world.get(link).unwrap().inserted);
        assert_eq!(world.get(link).unwrap().dropped_views, 1);
    }
}

#[test]
fn listeners_run_in_registration_order() {
    let mut world = World::<Unit>::new();
    insert(&mut world, WATCHER, Unit::new(WATCHER, 1));
    insert(&mut world, UNIT, Unit::new(UNIT, 2));
    insert(&mut world, WATCHER, Unit::new(WATCHER, 3));
    insert(&mut world, UNIT, Unit::new(UNIT, 4));
    let mut tick = Tick { order: vec![] };
    boba::pearl::trigger(&mut world, TICK, &mut tick);
    assert_eq!(tick.order, vec![1, 3, 2, 4]);
    // an event that nobody listens to calls nobody
    let mut tick = Tick { order: vec![] };
    boba::pearl::trigger(&mut world, 99, &mut tick);
    assert_eq!(tick.order, vec![]);
}

#[test]
fn value_put_in_by_a_listener_is_not_called_in_the_same_pass() {
    let mut world = World::<Unit>::new();
    let mut first = Unit::new(UNIT, 1);
    first.spawns = true;
    let a = insert(&mut world, UNIT, first);
    let mut tick = Tick { order: vec![] };
    boba::pearl::trigger(&mut world, TICK, &mut tick);
    assert_eq!(tick.order, vec![1]);
    assert_eq!(world.len(UNIT), 2);
    let b = world.links_copied(UNIT)[1];
    assert_eq!(world.get(b).unwrap().calls, 0);
    assert!(world.get(b).unwrap().inserted);
    // the next pass calls both
    let mut tick = Tick { order: vec![] };
    world.get_mut(a).unwrap().spawns = false;
    boba::pearl::trigger(&mut world, TICK, &mut tick);
    assert_eq!(tick.order, vec![1, 101]);
}

#[test]
fn destruction_waits_until_the_pass_is_over() {
    let mut world = World::<Unit>::new();
    let a = insert(&mut world, UNIT, Unit::new(UNIT, 1));
    let b = insert(&mut world, UNIT, Unit::new(UNIT, 2));
    let c = insert(&mut world, UNIT, Unit::new(UNIT, 3));
    let w = insert(&mut world, WATCHER, Unit::new(WATCHER, 4));
    // the first asks for the last to be destroyed, and dies itself
    world.get_mut(a).unwrap().victim = Some(c);
    world.get_mut(a).unwrap().dies = true;
    let mut tick = Tick { order: vec![] };
    boba::pearl::trigger(&mut world, TICK, &mut tick);
    // all were called, the doomed ones too
    assert_eq!(tick.order, vec![1, 2, 3, 4]);
    assert!(!world.contains(a));
    assert!(!world.contains(c));
    assert_eq!(world.get(b).unwrap().calls, 1);
    // the watcher was called once and told of two removals
    assert_eq!(world.get(w).unwrap().calls, 201);
    assert_eq!(world.links_copied(UNIT), vec![b]);
}

#[test]
fn dispatch_from_a_listener_shares_the_queue() {
    let mut world = World::<Unit>::new();
    let mut only = Unit::new(UNIT, 1);
    only.dies = true;
    let a = insert(&mut world, UNIT, only);
    let mut queue = WorldQueue::new();
    let mut tick = Tick { order: vec![] };
    // the chain event dispatches the tick from within its listener
    trigger_nested(&mut world, &mut queue, CHAIN, &mut tick);
    assert_eq!(tick.order, vec![1, 1]);
    assert!(world.contains(a));
    assert_eq!(queue.pending(), vec![a.into_type::<()>()]);
    flush(&mut world, &mut queue);
    assert!(!world.contains(a));
    assert!(queue.is_empty());
    assert!(world.is_empty());
    assert_eq!(world.listeners(TICK), vec![]);
}

#[test]
fn remove_calls_the_hook_once() {
    let mut world = World::<Unit>::new();
    let a = insert(&mut world, UNIT, Unit::new(UNIT, 1));
    let w = insert(&mut world, WATCHER, Unit::new(WATCHER, 2));
    let gone = remove(&mut world, a).unwrap();
    assert_eq!(gone.calls, 1000);
    assert_eq!(world.get(w).unwrap().calls, 100);
    assert!(remove(&mut world, a).is_none());
    assert_eq!(world.get(w).unwrap().calls, 100);
}

#[test]
fn view_reaches_other_values_and_keeps_its_own() {
    let mut world = World::<Unit>::new();
    let a = world.insert(UNIT, Unit::new(UNIT, 1));
    let b = world.insert(UNIT, Unit::new(UNIT, 2));
    let mut queue = WorldQueue::new();
    {
        let mut view = PearlView::new(a, &mut world, &mut queue).unwrap();
        assert_eq!(view.link(), a);
        assert_eq!(view.current().name, 1);
        {
            let mut other = view.get_view(b).unwrap();
            other.current_mut().calls = 7;
            assert!(other.destroy(a));
        }
        assert!(view.get_view(Link::from_raw(5, 5)).is_none());
        // the value of the view is still there, though its destruction was asked for
        assert!(!view.destroy_self());
        assert_eq!(view.current().name, 1);
        assert_eq!(view.targets(TICK), vec![]);
        let c = view.insert(WATCHER, Unit::new(WATCHER, 3));
        assert!(view.world().contains(c));
        assert!(view.world().get(c).unwrap().inserted);
        // the new kind registered with its first value
        assert_eq!(view.targets(TICK), vec![c]);
    }
    assert_eq!(world.get(b).unwrap().calls, 7);
    assert!(world.contains(a));
    assert_eq!(queue.len(), 1);
    let gone = queue.flush(&mut world);
    assert_eq!(gone.len(), 1);
    assert_eq!(gone[0].name, 1);
    assert!(!world.contains(a));
}

#[test]
fn view_of_a_stale_link_is_refused() {
    let mut world = World::<Unit>::new();
    let a = world.insert(UNIT, Unit::new(UNIT, 1));
    world.remove(a);
    let mut queue = WorldQueue::new();
    assert!(PearlView::new(a, &mut world, &mut queue).is_none());
}
