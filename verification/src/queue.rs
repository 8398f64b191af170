//! Destruction that waits: links queued while values are in use, and
//! removed together afterwards.

use crate::link::Link;
use crate::ordered::{pair_get_index, pair_insert, pair_items, pair_len, pair_new};
use crate::world::{
    inserted, links_of, links_of_all, listeners_of, targets_of, view_wf, without, World, WorldView,
};
use indexmap::IndexSet;
use vstd::prelude::*;

verus! {

/// Whether a queue that holds `pending` accepts `link` for destruction:
/// the link names a value, and is not queued yet.
pub open spec fn destroy_accepts<V>(
    pending: Seq<(u64, u64)>,
    w: WorldView<V>,
    link: (u64, u64),
) -> bool {
    w.items.dom().contains(link) && !pending.contains(link)
}

/// What a queue that held `pending` holds after it was asked to destroy
/// `link`.
pub open spec fn destroy_leaves<V>(
    pending: Seq<(u64, u64)>,
    w: WorldView<V>,
    link: (u64, u64),
) -> Seq<(u64, u64)> {
    if destroy_accepts(pending, w, link) {
        pending.push(link)
    } else {
        pending
    }
}

/// The registry without the values under `links`, removed one after the
/// other in their order.
pub open spec fn without_all<V>(w: WorldView<V>, links: Seq<(u64, u64)>) -> WorldView<V>
    decreases links.len(),
{
    if links.len() == 0 {
        w
    } else {
        without(without_all(w, links.drop_last()), links.last())
    }
}

/// The values that removing `links` one after the other takes out of the
/// registry, in the order of their removal.
pub open spec fn taken_all<V>(w: WorldView<V>, links: Seq<(u64, u64)>) -> Seq<V>
    decreases links.len(),
{
    if links.len() == 0 {
        Seq::empty()
    } else {
        let before = without_all(w, links.drop_last());
        if before.items.dom().contains(links.last()) {
            taken_all(w, links.drop_last()).push(before.items[links.last()])
        } else {
            taken_all(w, links.drop_last())
        }
    }
}

/// A link is destroyed once. After a queue has accepted a link, it accepts
/// that link no more, whatever else it has taken in since and whatever the
/// registry holds by then.
pub proof fn lemma_destroy_once<V>(
    pending: Seq<(u64, u64)>,
    w: WorldView<V>,
    link: (u64, u64),
    later: Seq<(u64, u64)>,
    then: WorldView<V>,
)
    requires
        destroy_accepts(pending, w, link),
        forall|l: (u64, u64)| destroy_leaves(pending, w, link).contains(l) ==> later.contains(l),
    ensures
        !destroy_accepts(later, then, link),
{
    let queued = destroy_leaves(pending, w, link);
    assert(queued[pending.len() as int] == link);
    assert(queued.contains(link));
}

/// A queue does not accept a link that names nothing, and stays as it is.
pub proof fn lemma_destroy_needs_value<V>(pending: Seq<(u64, u64)>, w: WorldView<V>, link: (u64, u64))
    requires
        !w.items.dom().contains(link),
    ensures
        !destroy_accepts(pending, w, link),
        destroy_leaves(pending, w, link) == pending,
{
}

/// The links of the values of some kinds all name values of the registry.
pub proof fn lemma_links_are_live<V>(w: WorldView<V>, keys: Seq<u64>)
    requires
        view_wf(w),
    ensures
        forall|i: int|
            0 <= i < links_of_all(w, keys).len() ==> w.items.dom().contains(
                #[trigger] links_of_all(w, keys)[i],
            ),
    decreases keys.len(),
{
    if keys.len() > 0 {
        lemma_links_are_live(w, keys.drop_last());
        let front = links_of_all(w, keys.drop_last());
        let back = links_of(w, keys.last());
        assert forall|i: int| 0 <= i < (front + back).len() implies w.items.dom().contains(
            #[trigger] (front + back)[i],
        ) by {
            if i >= front.len() {
                let j = i - front.len();
                let s = w.stores[keys.last()];
                assert(back[j] == (s, w.order[s][j]));
                assert(w.order[s].contains(w.order[s][j]));
                assert(w.items.dom().contains((s, w.order[s][j])));
            }
        }
    }
}

/// A dispatch calls only what was there when it began: a value that is put
/// in afterwards, by a listener or by anyone else, is not among the values
/// that the dispatch calls.
pub proof fn lemma_dispatch_skips_later_inserts<V>(
    before: WorldView<V>,
    after: WorldView<V>,
    event: u64,
    key: u64,
    link: (u64, u64),
    value: V,
)
    requires
        view_wf(before),
        inserted(before, after, key, link, value),
    ensures
        !targets_of(before, event).contains(link),
{
    lemma_links_are_live(before, listeners_of(before, event));
}

/// The links whose values are to be destroyed, in the order in which their
/// destruction was asked for. Each link is queued once.
pub struct WorldQueue {
    destroy: IndexSet<(u64, u64)>,
}

impl View for WorldQueue {
    type V = Seq<(u64, u64)>;

    /// The queued links in their order.
    closed spec fn view(&self) -> Seq<(u64, u64)> {
        pair_items(self.destroy)
    }
}

impl WorldQueue {
    /// A queue without links.
    pub fn new() -> (queue: Self)
        ensures
            queue@ == Seq::<(u64, u64)>::empty(),
    {
        WorldQueue { destroy: pair_new() }
    }

    /// The number of queued links.
    pub fn len(&self) -> (len: usize)
        ensures
            len == self@.len(),
    {
        pair_len(&self.destroy)
    }

    /// Whether no link is queued.
    pub fn is_empty(&self) -> (empty: bool)
        ensures
            empty == (self@.len() == 0),
    {
        pair_len(&self.destroy) == 0
    }

    /// Asks for the value under `link` to be destroyed, and returns whether
    /// the link was queued: it is if it names a value of `world` and is not
    /// queued yet. The registry is not touched.
    pub fn destroy<V, P>(&mut self, world: &World<V>, link: Link<P>) -> (queued: bool)
        requires
            world.wf(),
        ensures
            queued == destroy_accepts(old(self)@, world@, link@),
            final(self)@ == destroy_leaves(old(self)@, world@, link@),
    {
        if !world.contains(link) {
            return false;
        }
        pair_insert(&mut self.destroy, (link.map_handle().id(), link.id()))
    }

    /// The queued links in their order.
    pub fn pending(&self) -> (links: Vec<Link<()>>)
        ensures
            links@.len() == self@.len(),
            forall|i: int| 0 <= i < links@.len() ==> (#[trigger] links@[i])@ == self@[i],
    {
        let mut links: Vec<Link<()>> = Vec::new();
        let count: usize = pair_len(&self.destroy);
        let mut i: usize = 0;
        while i < count
            invariant
                count == self@.len(),
                i <= count,
                links@.len() == i,
                forall|k: int| 0 <= k < i ==> (#[trigger] links@[k])@ == self@[k],
            decreases count - i,
        {
            match pair_get_index(&self.destroy, i) {
                Some(pair) => {
                    links.push(Link::from_raw(pair.0, pair.1));
                },
                None => {},
            }
            i += 1;
        }
        links
    }

    /// Empties the queue and returns the links that it held, in their
    /// order.
    pub fn take(&mut self) -> (links: Vec<Link<()>>)
        ensures
            final(self)@ == Seq::<(u64, u64)>::empty(),
            links@.len() == old(self)@.len(),
            forall|i: int| 0 <= i < links@.len() ==> (#[trigger] links@[i])@ == old(self)@[i],
    {
        let links = self.pending();
        self.destroy = pair_new();
        links
    }

    /// Removes the values under the queued links from `world`, one after
    /// the other in the order of the queue, and returns them. The queue is
    /// empty afterwards.
    pub fn flush<V>(&mut self, world: &mut World<V>) -> (values: Vec<V>)
        requires
            old(world).wf(),
        ensures
            final(world).wf(),
            final(self)@ == Seq::<(u64, u64)>::empty(),
            final(world)@ == without_all(old(world)@, old(self)@),
            values@ == taken_all(old(world)@, old(self)@),
            forall|k: u64| old(world).spec_has_room(k) ==> #[trigger] final(world).spec_has_room(k),
    {
        let links = self.take();
        let ghost pending = old(self)@;
        let ghost start = *old(world);
        let mut values: Vec<V> = Vec::new();
        let mut i: usize = 0;
        assert(pending.subrange(0, 0) =~= Seq::<(u64, u64)>::empty());
        while i < links.len()
            invariant
                world.wf(),
                links@.len() == pending.len(),
                forall|k: int| 0 <= k < links@.len() ==> (#[trigger] links@[k])@ == pending[k],
                i <= links@.len(),
                world@ == without_all(start@, pending.subrange(0, i as int)),
                values@ == taken_all(start@, pending.subrange(0, i as int)),
                forall|k: u64| start.spec_has_room(k) ==> #[trigger] world.spec_has_room(k),
            decreases links@.len() - i,
        {
            let link: Link<V> = links[i].into_type();
            proof {
                let done = pending.subrange(0, i as int);
                let next = pending.subrange(0, i as int + 1);
                assert(next.drop_last() =~= done);
                assert(next.last() == link@);
            }
            match world.remove(link) {
                Some(value) => {
                    values.push(value);
                },
                None => {},
            }
            i += 1;
        }
        assert(pending.subrange(0, pending.len() as int) =~= pending);
        values
    }
}

} // verus!
