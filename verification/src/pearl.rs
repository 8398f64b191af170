//! What a kind of value does when it enters a registry, leaves it, or is
//! called by an event, and the dispatch that calls it.

use crate::link::Link;
use crate::queue::WorldQueue;
use crate::view::PearlView;
use crate::world::{World, WorldView};
use vstd::prelude::*;

verus! {

/// Whether `after` holds every value that `before` holds, under the same
/// link: nothing was taken out.
pub open spec fn nothing_removed<V>(before: WorldView<V>, after: WorldView<V>) -> bool {
    before.items.dom().subset_of(after.items.dom())
}

/// What a hook finds and leaves behind: what the registry holds, and the
/// links that wait for destruction.
pub struct Scope<V> {
    pub world: WorldView<V>,
    pub pending: Seq<(u64, u64)>,
}

/// The hooks of the values of a registry.
///
/// The registry calls them; whoever implements them promises what their
/// contracts say. A hook that is handed a view works through that view: it
/// may change values, put values in and queue values for destruction, and
/// takes nothing out.
///
/// What a hook does beyond that is its implementer's to say, in the five
/// relations at the head of the trait. One who says nothing leaves them at
/// `true`: the hook may then lead anywhere that its contract allows.
pub trait Pearl: Sized {
    /// Whether `register`, called for the kind `key`, may lead from the
    /// registry `before` to the registry `after`.
    open spec fn registered(key: u64, before: WorldView<Self>, after: WorldView<Self>) -> bool {
        true
    }

    /// Whether `on_insert`, called for the value under `link`, may lead
    /// from `before` to `after`.
    open spec fn put_in(before: Scope<Self>, link: (u64, u64), after: Scope<Self>) -> bool {
        true
    }

    /// Whether `trigger`, called for the value under `link` with `event`
    /// and the payload `data`, may lead from `before` to `after` and leave
    /// the payload `data_after`.
    open spec fn triggered<E>(
        before: Scope<Self>,
        link: (u64, u64),
        event: u64,
        data: E,
        after: Scope<Self>,
        data_after: E,
    ) -> bool {
        true
    }

    /// Whether `on_view_drop`, called for the value under `link`, may lead
    /// from `before` to `after`.
    open spec fn view_dropped(before: Scope<Self>, link: (u64, u64), after: Scope<Self>) -> bool {
        true
    }

    /// Whether `on_remove`, called with the value `pearl` that was taken
    /// out from under `link`, may lead from the registry `before` to the
    /// registry `after` and leave the value `pearl_after`.
    open spec fn removed(
        pearl: Self,
        link: (u64, u64),
        before: WorldView<Self>,
        pearl_after: Self,
        after: WorldView<Self>,
    ) -> bool {
        true
    }

    /// Called once when the first value of the kind `key` has been put in.
    /// This is where a kind registers as a listener; the values stay as
    /// they are.
    fn register(key: u64, world: &mut World<Self>)
        requires
            old(world).wf(),
            old(world)@.stores.dom().contains(key),
        ensures
            final(world).wf(),
            final(world)@.items == old(world)@.items,
            final(world)@.stores == old(world)@.stores,
            final(world)@.kinds == old(world)@.kinds,
            final(world)@.order == old(world)@.order,
            Self::registered(key, old(world)@, final(world)@),
    ;

    /// Called for each value after it has been put in.
    fn on_insert<'a>(view: &mut PearlView<'a, Self>)
        requires
            old(view).wf(),
        ensures
            final(view).wf(),
            final(view).link == old(view).link,
            nothing_removed(old(view).world@, final(view).world@),
            Self::put_in(
                (Scope { world: old(view).world@, pending: old(view).queue@ }),
                old(view).link@,
                (Scope { world: final(view).world@, pending: final(view).queue@ }),
            ),
            *final(final(view).world) == *final(old(view).world),
            *final(final(view).queue) == *final(old(view).queue),
    ;

    /// Called for each value after it has been taken out, with the link
    /// that named it.
    fn on_remove(pearl: &mut Self, link: Link<Self>, world: &mut World<Self>)
        requires
            old(world).wf(),
        ensures
            final(world).wf(),
            Self::removed(*old(pearl), link@, old(world)@, *final(pearl), final(world)@),
    ;

    /// Called when a view of a value is done with.
    fn on_view_drop<'a>(view: &mut PearlView<'a, Self>)
        requires
            old(view).wf(),
        ensures
            final(view).wf(),
            final(view).link == old(view).link,
            nothing_removed(old(view).world@, final(view).world@),
            Self::view_dropped(
                (Scope { world: old(view).world@, pending: old(view).queue@ }),
                old(view).link@,
                (Scope { world: final(view).world@, pending: final(view).queue@ }),
            ),
            *final(final(view).world) == *final(old(view).world),
            *final(final(view).queue) == *final(old(view).queue),
    ;

    /// Called for each value of a kind that listens to `event`, when the
    /// event is dispatched.
    fn trigger<'a, E: 'static>(view: &mut PearlView<'a, Self>, event: u64, data: &mut E)
        requires
            old(view).wf(),
        ensures
            final(view).wf(),
            final(view).link == old(view).link,
            nothing_removed(old(view).world@, final(view).world@),
            Self::triggered(
                (Scope { world: old(view).world@, pending: old(view).queue@ }),
                old(view).link@,
                event,
                *old(data),
                (Scope { world: final(view).world@, pending: final(view).queue@ }),
                *final(data),
            ),
            *final(final(view).world) == *final(old(view).world),
            *final(final(view).queue) == *final(old(view).queue),
    ;
}

/// Whether calling the value under `link` for `event`, and with that its
/// `trigger` and then its `on_view_drop`, may lead from `before` to
/// `after` and leave the payload `data_after`.
pub open spec fn called<V: Pearl, E>(
    before: Scope<V>,
    link: (u64, u64),
    event: u64,
    data: E,
    after: Scope<V>,
    data_after: E,
) -> bool {
    exists|mid: Scope<V>|
        V::triggered(before, link, event, data, mid, data_after) && V::view_dropped(
            mid,
            link,
            after,
        )
}

/// Whether calling the values under `links` for `event`, one after the
/// other in their order and each on what the one before it left, may lead
/// from `before` to `after` and leave the payload `data_after`. Calling
/// nobody changes nothing.
pub open spec fn called_all<V: Pearl, E>(
    links: Seq<(u64, u64)>,
    event: u64,
    before: Scope<V>,
    data: E,
    after: Scope<V>,
    data_after: E,
) -> bool
    decreases links.len(),
{
    if links.len() == 0 {
        before == after && data == data_after
    } else {
        exists|mid: Scope<V>, data_mid: E|
            called_all(links.drop_last(), event, before, data, mid, data_mid) && called(
                mid,
                links.last(),
                event,
                data_mid,
                after,
                data_after,
            )
    }
}

/// Whether taking the value under `link` out of the registry `before` and
/// calling its `on_remove` may lead to the registry `after`. A link that
/// names nothing changes nothing.
pub open spec fn taken_out<V: Pearl>(
    before: WorldView<V>,
    link: (u64, u64),
    after: WorldView<V>,
) -> bool {
    if before.items.dom().contains(link) {
        exists|pearl_after: V|
            V::removed(
                before.items[link],
                link,
                crate::world::without(before, link),
                pearl_after,
                after,
            )
    } else {
        after == before
    }
}

/// Whether taking the values under `links` out one after the other in
/// their order, each from what the removal before it left, may lead from
/// the registry `before` to the registry `after`.
pub open spec fn taken_out_all<V: Pearl>(
    links: Seq<(u64, u64)>,
    before: WorldView<V>,
    after: WorldView<V>,
) -> bool
    decreases links.len(),
{
    if links.len() == 0 {
        before == after
    } else {
        exists|mid: WorldView<V>|
            taken_out_all(links.drop_last(), before, mid) && taken_out(mid, links.last(), after)
    }
}

/// Whether making the kind `key` known may lead from the registry `stored`
/// to the registry `known`: a kind that had values before is known already
/// and nothing is done, and one that had none is registered.
pub open spec fn announced<V: Pearl>(
    had_values: bool,
    key: u64,
    stored: WorldView<V>,
    known: WorldView<V>,
) -> bool {
    if had_values {
        known == stored
    } else {
        V::registered(key, stored, known)
    }
}

/// Whether calling `on_insert` and then `on_view_drop` for the value under
/// `link` may lead from `before` to `after`.
pub open spec fn welcomed<V: Pearl>(before: Scope<V>, link: (u64, u64), after: Scope<V>) -> bool {
    exists|mid: Scope<V>| V::put_in(before, link, mid) && V::view_dropped(mid, link, after)
}

/// Whether putting `value` in as a value of kind `key`, under `link`, and
/// calling the hooks for it may lead from `before` to `after`: the value is
/// stored, its kind is registered if the value is the kind's first, and
/// then `on_insert` and `on_view_drop` are called for it.
pub open spec fn entered<V: Pearl>(
    before: Scope<V>,
    key: u64,
    link: (u64, u64),
    value: V,
    after: Scope<V>,
) -> bool {
    exists|stored: WorldView<V>, known: WorldView<V>|
        {
            &&& crate::world::inserted(before.world, stored, key, link, value)
            &&& #[trigger] announced(
                before.world.stores.dom().contains(key),
                key,
                stored,
                known,
            )
            &&& welcomed((Scope { world: known, pending: before.pending }), link, after)
        }
}

/// Calls the listeners of `event`: every value of every kind that listens
/// to it, as they were before the first of them was called, in the order
/// of [`crate::world::targets_of`]. Each is called through a view of its
/// own and has `on_view_drop` called after it. What the listeners ask to
/// be destroyed waits in `queue`; nothing is taken out.
pub fn trigger_nested<V: Pearl, E: 'static>(
    world: &mut World<V>,
    queue: &mut WorldQueue,
    event: u64,
    data: &mut E,
)
    requires
        old(world).wf(),
    ensures
        final(world).wf(),
        nothing_removed(old(world)@, final(world)@),
        called_all(
            crate::world::targets_of(old(world)@, event),
            event,
            (Scope { world: old(world)@, pending: old(queue)@ }),
            *old(data),
            (Scope { world: final(world)@, pending: final(queue)@ }),
            *final(data),
        ),
{
    let targets = world.targets(event);
    let ghost start = world@;
    let ghost first = Scope { world: world@, pending: queue@ };
    let ghost payload = *data;
    let ghost links = crate::world::targets_of(start, event);
    proof {
        world.lemma_invariant();
        crate::queue::lemma_links_are_live(start, crate::world::listeners_of(start, event));
        assert(links.subrange(0, 0) =~= Seq::<(u64, u64)>::empty());
    }
    let mut i: usize = 0;
    while i < targets.len()
        invariant
            world.wf(),
            i <= targets@.len(),
            nothing_removed(start, world@),
            links == crate::world::targets_of(start, event),
            targets@.len() == links.len(),
            forall|k: int| 0 <= k < targets@.len() ==> (#[trigger] targets@[k])@ == links[k],
            forall|k: int| 0 <= k < targets@.len() ==> start.items.dom().contains(
                (#[trigger] targets@[k])@,
            ),
            called_all(
                links.subrange(0, i as int),
                event,
                first,
                payload,
                (Scope { world: world@, pending: queue@ }),
                *data,
            ),
        decreases targets@.len() - i,
    {
        let link = targets[i];
        let ghost before = Scope { world: world@, pending: queue@ };
        let ghost data_before = *data;
        let mut view = PearlView::new_unchecked(link, world, queue);
        V::trigger(&mut view, event, data);
        let ghost mid = Scope { world: view.world@, pending: view.queue@ };
        V::on_view_drop(&mut view);
        proof {
            let after = Scope { world: world@, pending: queue@ };
            let done = links.subrange(0, i as int);
            let more = links.subrange(0, i as int + 1);
            assert(more.drop_last() =~= done);
            assert(more.last() == link@);
            assert(V::triggered(before, link@, event, data_before, mid, *data));
            assert(V::view_dropped(mid, link@, after));
            assert(called(before, link@, event, data_before, after, *data));
            assert(called_all(more, event, first, payload, after, *data));
        }
        i += 1;
    }
    proof {
        assert(links.subrange(0, links.len() as int) =~= links);
    }
}

/// Takes the values under the queued links out of `world`, one after the
/// other in the order of the queue, and calls `on_remove` for each. The
/// queue is empty afterwards.
pub fn flush<V: Pearl>(world: &mut World<V>, queue: &mut WorldQueue)
    requires
        old(world).wf(),
    ensures
        final(world).wf(),
        final(queue)@ == Seq::<(u64, u64)>::empty(),
        taken_out_all(old(queue)@, old(world)@, final(world)@),
{
    let ghost pending = queue@;
    let ghost start = world@;
    let links = queue.take();
    let mut i: usize = 0;
    proof {
        assert(pending.subrange(0, 0) =~= Seq::<(u64, u64)>::empty());
    }
    while i < links.len()
        invariant
            world.wf(),
            i <= links@.len(),
            links@.len() == pending.len(),
            forall|k: int| 0 <= k < links@.len() ==> (#[trigger] links@[k])@ == pending[k],
            taken_out_all(pending.subrange(0, i as int), start, world@),
        decreases links@.len() - i,
    {
        let link: Link<V> = links[i].into_type();
        let ghost before = world@;
        match world.remove(link) {
            Some(mut pearl) => {
                V::on_remove(&mut pearl, link, world);
            },
            None => {},
        }
        proof {
            let done = pending.subrange(0, i as int);
            let more = pending.subrange(0, i as int + 1);
            assert(more.drop_last() =~= done);
            assert(more.last() == link@);
            assert(taken_out(before, link@, world@));
            assert(taken_out_all(more, start, world@));
        }
        i += 1;
    }
    proof {
        assert(pending.subrange(0, pending.len() as int) =~= pending);
    }
}

/// Dispatches `event`: calls every value of every kind that listens to it,
/// as they were before the first of them was called, and then takes out
/// what the listeners asked to be destroyed, in the order in which they
/// asked.
pub fn trigger<V: Pearl, E: 'static>(world: &mut World<V>, event: u64, data: &mut E)
    requires
        old(world).wf(),
    ensures
        final(world).wf(),
        exists|mid: Scope<V>|
            called_all(
                crate::world::targets_of(old(world)@, event),
                event,
                (Scope { world: old(world)@, pending: Seq::<(u64, u64)>::empty() }),
                *old(data),
                mid,
                *final(data),
            ) && taken_out_all(mid.pending, mid.world, final(world)@),
{
    let mut queue = WorldQueue::new();
    trigger_nested(world, &mut queue, event, data);
    let ghost mid = Scope { world: world@, pending: queue@ };
    flush(world, &mut queue);
    proof {
        assert(taken_out_all(mid.pending, mid.world, world@));
    }
}

/// Puts `value` into `world` as a value of kind `key`, calls the hooks for
/// it, and returns the link that it was given. The first value of a kind
/// has the kind registered before its own hook is called. What the hooks
/// ask to be destroyed waits in `queue`; nothing is taken out, so the new
/// value is there when the call returns.
pub fn insert_nested<V: Pearl>(
    world: &mut World<V>,
    queue: &mut WorldQueue,
    key: u64,
    value: V,
) -> (link: Link<V>)
    requires
        old(world).wf(),
        old(world).spec_has_room(key),
    ensures
        final(world).wf(),
        !old(world)@.items.dom().contains(link@),
        final(world)@.items.dom().contains(link@),
        old(world)@.stores.dom().contains(key) ==> link@.0 == old(world)@.stores[key],
        nothing_removed(old(world)@, final(world)@),
        entered(
            (Scope { world: old(world)@, pending: old(queue)@ }),
            key,
            link@,
            value,
            (Scope { world: final(world)@, pending: final(queue)@ }),
        ),
{
    let ghost before = Scope { world: world@, pending: queue@ };
    let fresh: bool = !world.has(key);
    let link = world.insert(key, value);
    let ghost stored = world@;
    if fresh {
        V::register(key, world);
    }
    let ghost known = world@;
    let mut view = PearlView::new_unchecked(link, world, queue);
    V::on_insert(&mut view);
    let ghost mid = Scope { world: view.world@, pending: view.queue@ };
    V::on_view_drop(&mut view);
    proof {
        let after = Scope { world: world@, pending: queue@ };
        assert(crate::world::inserted(before.world, stored, key, link@, value));
        assert(announced(before.world.stores.dom().contains(key), key, stored, known));
        assert(V::put_in((Scope { world: known, pending: before.pending }), link@, mid));
        assert(V::view_dropped(mid, link@, after));
        assert(welcomed((Scope { world: known, pending: before.pending }), link@, after));
        assert(entered(before, key, link@, value, after));
    }
    link
}

/// Puts `value` into `world` as a value of kind `key`, calls the hooks for
/// it, and returns the link that it was given. The first value of a kind
/// has the kind registered before its own hook is called. What the hooks
/// asked to be destroyed is taken out before the call returns, in the
/// order in which they asked.
pub fn insert<V: Pearl>(world: &mut World<V>, key: u64, value: V) -> (link: Link<V>)
    requires
        old(world).wf(),
        old(world).spec_has_room(key),
    ensures
        final(world).wf(),
        !old(world)@.items.dom().contains(link@),
        old(world)@.stores.dom().contains(key) ==> link@.0 == old(world)@.stores[key],
        exists|mid: Scope<V>|
            entered(
                (Scope { world: old(world)@, pending: Seq::<(u64, u64)>::empty() }),
                key,
                link@,
                value,
                mid,
            ) && taken_out_all(mid.pending, mid.world, final(world)@),
{
    let mut queue = WorldQueue::new();
    let link = insert_nested(world, &mut queue, key, value);
    let ghost mid = Scope { world: world@, pending: queue@ };
    flush(world, &mut queue);
    proof {
        assert(taken_out_all(mid.pending, mid.world, world@));
    }
    link
}

/// Takes the value under `link` out of `world`, calls `on_remove` for it
/// and returns it as the hook left it, or returns `None` and changes
/// nothing if the link names nothing.
pub fn remove<V: Pearl>(world: &mut World<V>, link: Link<V>) -> (value: Option<V>)
    requires
        old(world).wf(),
    ensures
        final(world).wf(),
        value is Some <==> old(world)@.items.dom().contains(link@),
        taken_out(old(world)@, link@, final(world)@),
        match value {
            Some(pearl) => V::removed(
                old(world)@.items[link@],
                link@,
                crate::world::without(old(world)@, link@),
                pearl,
                final(world)@,
            ),
            None => final(world)@ == old(world)@,
        },
{
    match world.remove(link) {
        Some(mut pearl) => {
            V::on_remove(&mut pearl, link, world);
            Some(pearl)
        },
        None => None,
    }
}

} // verus!
