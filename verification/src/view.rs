//! Scoped access to one value of a registry.

use crate::link::Link;
use crate::queue::{destroy_accepts, destroy_leaves, WorldQueue};
use crate::world::{targets_of, World, WorldView};
use vstd::prelude::*;

verus! {

/// Access to one value of a registry for the length of a scope.
///
/// A view can reach other values of the registry and put new ones in. It
/// cannot take one out: what it is asked to destroy waits in a queue until
/// the scope has ended, so that the value under its link, and under the
/// link of every view that it was opened from, stays where it is.
pub struct PearlView<'a, V> {
    /// The registry that holds the value.
    pub world: &'a mut World<V>,
    /// The links that wait for destruction.
    pub queue: &'a mut WorldQueue,
    /// The link of the value that the view is for.
    pub link: Link<V>,
}

impl<'a, V> PearlView<'a, V> {
    /// The invariant of a view: its link names a value of its registry.
    pub open spec fn wf(&self) -> bool {
        &&& self.world.wf()
        &&& self.world@.items.dom().contains(self.link@)
    }

    /// The registry of the view as it is now.
    pub open spec fn spec_world(&self) -> World<V> {
        *self.world
    }

    /// A view of the value under `link`, or `None` if the link names
    /// nothing in `world`. Until the view is used, registry and queue are
    /// as they were.
    pub fn new(link: Link<V>, world: &'a mut World<V>, queue: &'a mut WorldQueue) -> (view: Option<
        PearlView<'a, V>,
    >)
        requires
            old(world).wf(),
        ensures
            view is Some <==> old(world)@.items.dom().contains(link@),
            match view {
                Some(v) => {
                    &&& v.wf()
                    &&& v.link == link
                    &&& *v.world == *old(world)
                    &&& *v.queue == *old(queue)
                    &&& *final(v.world) == *final(world)
                    &&& *final(v.queue) == *final(queue)
                },
                None => *final(world) == *old(world) && *final(queue) == *old(queue),
            },
    {
        if world.contains(link) {
            Some(PearlView { world, queue, link })
        } else {
            None
        }
    }

    /// A view of the value under `link`, which names a value of `world`.
    pub fn new_unchecked(
        link: Link<V>,
        world: &'a mut World<V>,
        queue: &'a mut WorldQueue,
    ) -> (view: PearlView<'a, V>)
        requires
            old(world).wf(),
            old(world)@.items.dom().contains(link@),
        ensures
            view.wf(),
            view.link == link,
            *view.world == *old(world),
            *view.queue == *old(queue),
            *final(view.world) == *final(world),
            *final(view.queue) == *final(queue),
    {
        PearlView { world, queue, link }
    }

    /// The link of the value that the view is for.
    pub fn link(&self) -> (link: Link<V>)
        ensures
            link == self.link,
    {
        self.link
    }

    /// The registry that holds the value.
    pub fn world(&self) -> (world: &World<V>)
        ensures
            *world == self.spec_world(),
    {
        &*self.world
    }

    /// The value that the view is for.
    pub fn current(&self) -> (value: &V)
        requires
            self.wf(),
        ensures
            *value == self.spec_world()@.items[self.link@],
    {
        self.world.get(self.link).unwrap()
    }

    /// The value that the view is for, for changing it in place. Nothing
    /// else in the registry changes.
    pub fn current_mut(&mut self) -> (value: &mut V)
        requires
            old(self).wf(),
        ensures
            *value == old(self).world@.items[old(self).link@],
            final(self).wf(),
            final(self).link == old(self).link,
            final(self).world@ == (WorldView {
                items: old(self).world@.items.insert(old(self).link@, *final(value)),
                ..old(self).world@
            }),
            forall|key: u64| #[trigger]
                final(self).world.spec_has_room(key) == old(self).world.spec_has_room(key),
            *final(self).queue == *old(self).queue,
            *final(final(self).world) == *final(old(self).world),
            *final(final(self).queue) == *final(old(self).queue),
    {
        self.world.get_mut(self.link).unwrap()
    }

    /// A view of another value of the registry, for as long as this view is
    /// not used. It shares the queue of this view. Returns `None` if `link`
    /// names nothing.
    pub fn get_view<'b>(&'b mut self, link: Link<V>) -> (view: Option<PearlView<'b, V>>)
        requires
            old(self).wf(),
        ensures
            view is Some <==> old(self).world@.items.dom().contains(link@),
            final(self).link == old(self).link,
            *final(final(self).world) == *final(old(self).world),
            *final(final(self).queue) == *final(old(self).queue),
            match view {
                Some(v) => {
                    &&& v.wf()
                    &&& v.link == link
                    &&& *v.world == *old(self).world
                    &&& *v.queue == *old(self).queue
                    &&& *final(v.world) == *final(self).world
                    &&& *final(v.queue) == *final(self).queue
                },
                None => *final(self).world == *old(self).world && *final(self).queue == *old(
                    self,
                ).queue,
            },
    {
        if self.world.contains(link) {
            Some(PearlView { world: &mut *self.world, queue: &mut *self.queue, link })
        } else {
            None
        }
    }

    /// Puts `value` into the registry as a value of kind `key`, calls the
    /// hooks for it and returns its link. What the hooks ask to be
    /// destroyed joins the queue of this view. No value is taken out, that
    /// of this view included.
    pub fn insert(&mut self, key: u64, value: V) -> (link: Link<V>) where V: crate::pearl::Pearl
        requires
            old(self).wf(),
            old(self).world.spec_has_room(key),
        ensures
            final(self).wf(),
            final(self).link == old(self).link,
            !old(self).world@.items.dom().contains(link@),
            final(self).world@.items.dom().contains(link@),
            old(self).world@.stores.dom().contains(key) ==> link@.0 == old(
                self,
            ).world@.stores[key],
            crate::pearl::nothing_removed(old(self).world@, final(self).world@),
            crate::pearl::entered(
                (crate::pearl::Scope { world: old(self).world@, pending: old(self).queue@ }),
                key,
                link@,
                value,
                (crate::pearl::Scope { world: final(self).world@, pending: final(self).queue@ }),
            ),
            *final(final(self).world) == *final(old(self).world),
            *final(final(self).queue) == *final(old(self).queue),
    {
        crate::pearl::insert_nested(&mut *self.world, &mut *self.queue, key, value)
    }

    /// Asks for the value under `link` to be destroyed when the scope has
    /// ended, and returns whether the link was queued: it is if it names a
    /// value and is not queued yet. The registry is not touched.
    pub fn destroy<P>(&mut self, link: Link<P>) -> (queued: bool)
        requires
            old(self).wf(),
        ensures
            final(self).wf(),
            final(self).link == old(self).link,
            *final(self).world == *old(self).world,
            queued == destroy_accepts(old(self).queue@, old(self).world@, link@),
            final(self).queue@ == destroy_leaves(old(self).queue@, old(self).world@, link@),
            *final(final(self).world) == *final(old(self).world),
            *final(final(self).queue) == *final(old(self).queue),
    {
        self.queue.destroy(&*self.world, link)
    }

    /// Asks for the value of this view to be destroyed when the scope has
    /// ended, and returns whether its link was queued: it is unless it was
    /// queued before.
    pub fn destroy_self(&mut self) -> (queued: bool)
        requires
            old(self).wf(),
        ensures
            final(self).wf(),
            final(self).link == old(self).link,
            *final(self).world == *old(self).world,
            queued == !old(self).queue@.contains(old(self).link@),
            final(self).queue@ == destroy_leaves(
                old(self).queue@,
                old(self).world@,
                old(self).link@,
            ),
            *final(final(self).world) == *final(old(self).world),
            *final(final(self).queue) == *final(old(self).queue),
    {
        self.queue.destroy(&*self.world, self.link)
    }

    /// The links of the values that a dispatch of `event` calls, taken
    /// before any of them is called.
    pub fn targets(&self, event: u64) -> (links: Vec<Link<V>>)
        requires
            self.wf(),
        ensures
            links@.len() == targets_of(self.spec_world()@, event).len(),
            forall|i: int|
                0 <= i < links@.len() ==> (#[trigger] links@[i])@ == targets_of(
                    self.spec_world()@,
                    event,
                )[i],
    {
        self.world.targets(event)
    }

    /// Dispatches `event` from within the scope of this view: the listeners
    /// are called, and what they ask to be destroyed joins the queue of this
    /// view. Nothing is taken out.
    pub fn trigger<E: 'static>(&mut self, event: u64, data: &mut E) where V: crate::pearl::Pearl
        requires
            old(self).wf(),
        ensures
            final(self).wf(),
            final(self).link == old(self).link,
            crate::pearl::nothing_removed(old(self).world@, final(self).world@),
            crate::pearl::called_all(
                targets_of(old(self).world@, event),
                event,
                (crate::pearl::Scope { world: old(self).world@, pending: old(self).queue@ }),
                *old(data),
                (crate::pearl::Scope { world: final(self).world@, pending: final(self).queue@ }),
                *final(data),
            ),
            *final(final(self).world) == *final(old(self).world),
            *final(final(self).queue) == *final(old(self).queue),
    {
        crate::pearl::trigger_nested(&mut *self.world, &mut *self.queue, event, data);
    }
}

} // verus!
