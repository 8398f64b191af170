//! A registry of values of many kinds: one packed store per kind, links
//! that name the values, and the kinds that listen to each event.

use crate::dense::DenseHandleMap;
use crate::handle::Handle;
use crate::id::HandleMapId;
use crate::keyed::{map_entries, map_get, map_insert, map_new, map_remove, KeyMap};
use crate::link::Link;
use crate::ordered::{set_get_index, set_insert, set_items, set_len, set_new, set_shift_remove};
use crate::seqs::{lemma_pushed, lemma_unlisted, swap_removed, unlisted};
use crate::sparse::SparseHandleMap;
use indexmap::IndexSet;
use vstd::prelude::*;

verus! {

/// What a registry holds.
pub struct WorldView<V> {
    /// The values, each under the identifiers of its link.
    pub items: Map<(u64, u64), V>,
    /// The handle of the store of each kind that has one.
    pub stores: Map<u64, u64>,
    /// The kind of each store.
    pub kinds: Map<u64, u64>,
    /// The handles of the values of each store, in the order in which the
    /// values lie in it.
    pub order: Map<u64, Seq<u64>>,
    /// The kinds that listen to each event, in the order in which they
    /// registered.
    pub listeners: Map<u64, Seq<u64>>,
}

/// The links of the values of kind `key`, in the order of their store.
pub open spec fn links_of<V>(w: WorldView<V>, key: u64) -> Seq<(u64, u64)> {
    if w.stores.dom().contains(key) {
        Seq::new(w.order[w.stores[key]].len(), |i: int| (w.stores[key], w.order[w.stores[key]][i]))
    } else {
        Seq::empty()
    }
}

/// The kinds that listen to `event`, in the order in which they registered.
pub open spec fn listeners_of<V>(w: WorldView<V>, event: u64) -> Seq<u64> {
    if w.listeners.dom().contains(event) {
        w.listeners[event]
    } else {
        Seq::empty()
    }
}

/// The links of all values of the kinds `keys`, kind after kind.
pub open spec fn links_of_all<V>(w: WorldView<V>, keys: Seq<u64>) -> Seq<(u64, u64)>
    decreases keys.len(),
{
    if keys.len() == 0 {
        Seq::empty()
    } else {
        links_of_all(w, keys.drop_last()) + links_of(w, keys.last())
    }
}

/// The links of the values that a dispatch of `event` calls: those of the
/// first kind that registered, then those of the second, and so on.
pub open spec fn targets_of<V>(w: WorldView<V>, event: u64) -> Seq<(u64, u64)> {
    links_of_all(w, listeners_of(w, event))
}

/// What holds of every registry: kinds and stores belong together one to
/// one, no store is empty, the values are those that the stores list, and
/// only kinds that have a store listen to an event.
pub open spec fn view_wf<V>(w: WorldView<V>) -> bool {
    &&& w.order.dom() == w.kinds.dom()
    &&& forall|key: u64| #[trigger]
        w.stores.dom().contains(key) ==> w.kinds.dom().contains(w.stores[key])
            && w.kinds[w.stores[key]] == key
    &&& forall|s: u64| #[trigger]
        w.kinds.dom().contains(s) ==> {
            &&& w.stores.dom().contains(w.kinds[s])
            &&& w.stores[w.kinds[s]] == s
            &&& w.order[s].len() > 0
            &&& w.order[s].no_duplicates()
        }
    &&& forall|s: u64, p: u64| #[trigger]
        w.items.dom().contains((s, p)) <==> w.kinds.dom().contains(s) && w.order[s].contains(p)
    &&& forall|e: u64| #[trigger]
        w.listeners.dom().contains(e) ==> w.listeners[e].no_duplicates()
    &&& forall|e: u64, k: u64|
        w.listeners.dom().contains(e) && #[trigger] w.listeners[e].contains(k)
            ==> w.stores.dom().contains(k)
}

/// Whether `after` is `before` with `value` put in under `link` as a value
/// of kind `key`: at the end of the store of that kind, or as the only
/// value of a new store if the kind had none.
pub open spec fn inserted<V>(
    before: WorldView<V>,
    after: WorldView<V>,
    key: u64,
    link: (u64, u64),
    value: V,
) -> bool {
    &&& !before.items.dom().contains(link)
    &&& after.items == before.items.insert(link, value)
    &&& after.listeners == before.listeners
    &&& if before.stores.dom().contains(key) {
        &&& link.0 == before.stores[key]
        &&& after.stores == before.stores
        &&& after.kinds == before.kinds
        &&& after.order == before.order.insert(link.0, before.order[link.0].push(link.1))
    } else {
        &&& !before.kinds.dom().contains(link.0)
        &&& after.stores == before.stores.insert(key, link.0)
        &&& after.kinds == before.kinds.insert(link.0, key)
        &&& after.order == before.order.insert(link.0, seq![link.1])
    }
}

/// What was put in is what comes out, and nothing else is touched: in a
/// registry that came from `before` by putting `value` in under `link`, the
/// link names `value`, and every link of `before` names what it named.
pub proof fn lemma_inserted_is_found<V>(
    before: WorldView<V>,
    after: WorldView<V>,
    key: u64,
    link: (u64, u64),
    value: V,
)
    requires
        inserted(before, after, key, link, value),
    ensures
        after.items.dom().contains(link),
        after.items[link] == value,
        forall|other: (u64, u64)| #[trigger]
            before.items.dom().contains(other) ==> after.items.dom().contains(other)
                && after.items[other] == before.items[other],
        forall|event: u64| listeners_of(after, event) == listeners_of(before, event),
{
}

/// The registry without the value under `link`.
///
/// The last value of the store moves into the position of the removed one.
/// A store that loses its last value goes, and with it its kind leaves the
/// listeners of every event. A link that names nothing changes nothing.
pub open spec fn without<V>(w: WorldView<V>, link: (u64, u64)) -> WorldView<V> {
    if !w.items.dom().contains(link) {
        w
    } else {
        let rest = swap_removed(w.order[link.0], w.order[link.0].index_of(link.1));
        if rest.len() == 0 {
            WorldView {
                items: w.items.remove(link),
                stores: w.stores.remove(w.kinds[link.0]),
                kinds: w.kinds.remove(link.0),
                order: w.order.remove(link.0),
                listeners: Map::new(
                    |e: u64| w.listeners.dom().contains(e),
                    |e: u64| unlisted(w.listeners[e], w.kinds[link.0]),
                ),
            }
        } else {
            WorldView {
                items: w.items.remove(link),
                stores: w.stores,
                kinds: w.kinds,
                order: w.order.insert(link.0, rest),
                listeners: w.listeners,
            }
        }
    }
}

/// What is taken out is gone, and nothing else is touched: in the registry
/// without the value under `link`, the link names nothing, and every other
/// link names what it named.
pub proof fn lemma_without_is_gone<V>(w: WorldView<V>, link: (u64, u64))
    ensures
        !without(w, link).items.dom().contains(link),
        forall|other: (u64, u64)|
            other != link ==> (#[trigger] without(w, link).items.dom().contains(other)
                == w.items.dom().contains(other)),
        forall|other: (u64, u64)|
            other != link && #[trigger] w.items.dom().contains(other) ==> without(
                w,
                link,
            ).items[other] == w.items[other],
{
}

/// The store of one kind.
struct Store<V> {
    key: u64,
    pearls: DenseHandleMap<V>,
}

/// The kinds that listen to one event.
struct EventTable {
    event: u64,
    listeners: IndexSet<u64>,
}

/// A registry of values of many kinds.
///
/// A kind is named by a key. The values of one kind lie packed in a store
/// of their own, which comes into being with the first value of the kind
/// and goes with the last. A [`Link`] names a value by the handle of its
/// store and its handle in that store.
pub struct World<V> {
    ids: HandleMapId,
    map_data: KeyMap,
    maps: SparseHandleMap<Store<V>>,
    event_index: KeyMap,
    tables: Vec<EventTable>,
}

impl<V> View for World<V> {
    type V = WorldView<V>;

    closed spec fn view(&self) -> WorldView<V> {
        WorldView {
            items: Map::new(
                |l: (u64, u64)|
                    self.maps@.dom().contains(l.0) && self.maps@[l.0].pearls@.dom().contains(l.1),
                |l: (u64, u64)| self.maps@[l.0].pearls@[l.1],
            ),
            stores: map_entries(self.map_data),
            kinds: Map::new(|s: u64| self.maps@.dom().contains(s), |s: u64| self.maps@[s].key),
            order: Map::new(
                |s: u64| self.maps@.dom().contains(s),
                |s: u64| self.maps@[s].pearls.spec_handles(),
            ),
            listeners: Map::new(
                |e: u64| map_entries(self.event_index).dom().contains(e),
                |e: u64| set_items(self.tables@[map_entries(self.event_index)[e] as int].listeners),
            ),
        }
    }
}

impl<V> World<V> {
    /// The invariant of the registry.
    pub closed spec fn wf(&self) -> bool {
        &&& self.maps.wf()
        &&& forall|key: u64| #[trigger]
            map_entries(self.map_data).dom().contains(key) ==> {
                &&& self.maps@.dom().contains(map_entries(self.map_data)[key])
                &&& self.maps@[map_entries(self.map_data)[key]].key == key
            }
        &&& forall|s: u64| #[trigger]
            self.maps@.dom().contains(s) ==> {
                &&& map_entries(self.map_data).dom().contains(self.maps@[s].key)
                &&& map_entries(self.map_data)[self.maps@[s].key] == s
                &&& self.maps@[s].pearls.wf()
                &&& self.maps@[s].pearls@.dom().len() > 0
            }
        &&& forall|e: u64| #[trigger]
            map_entries(self.event_index).dom().contains(e) ==> {
                &&& map_entries(self.event_index)[e] < self.tables@.len()
                &&& self.tables@[map_entries(self.event_index)[e] as int].event == e
            }
        &&& forall|i: int|
            0 <= i < self.tables@.len() ==> {
                &&& map_entries(self.event_index).dom().contains((#[trigger] self.tables@[i]).event)
                &&& map_entries(self.event_index)[self.tables@[i].event] == i
                &&& set_items(self.tables@[i].listeners).no_duplicates()
            }
        &&& forall|i: int, k: u64|
            0 <= i < self.tables@.len() && #[trigger] set_items(self.tables@[i].listeners).contains(
                k,
            ) ==> map_entries(self.map_data).dom().contains(k)
    }

    /// The tag of the registry, which the store handle of each of its links
    /// carries.
    pub closed spec fn spec_id(&self) -> u16 {
        self.maps.spec_id()
    }

    /// Whether a value of kind `key` can be put in: its store, or the list
    /// of stores if the kind has none, has a handle left to give.
    pub closed spec fn spec_has_room(&self, key: u64) -> bool {
        if map_entries(self.map_data).dom().contains(key) {
            self.maps@[map_entries(self.map_data)[key]].pearls.spec_has_room()
        } else {
            self.maps.spec_has_room()
        }
    }

    /// What holds of every registry: see [`view_wf`].
    pub proof fn lemma_invariant(&self)
        requires
            self.wf(),
        ensures
            view_wf(self@),
            self@.kinds.dom().finite(),
    {
        let w = self@;
        self.maps.lemma_len();
        assert(w.kinds.dom() =~= self.maps@.dom());
        assert(w.order.dom() =~= w.kinds.dom());
        assert forall|s: u64| #[trigger] w.kinds.dom().contains(s) implies {
            &&& w.stores.dom().contains(w.kinds[s])
            &&& w.stores[w.kinds[s]] == s
            &&& w.order[s].len() > 0
            &&& w.order[s].no_duplicates()
        } by {
            self.maps@[s].pearls.lemma_order();
        }
        assert forall|s: u64, p: u64| #[trigger]
            w.items.dom().contains((s, p)) <==> w.kinds.dom().contains(s) && w.order[s].contains(
                p,
            ) by {
            if self.maps@.dom().contains(s) {
                let store = self.maps@[s].pearls;
                store.lemma_order();
                if store@.dom().contains(p) {
                    assert(store.spec_handles()[store.spec_position(p)] == p);
                }
            }
        }
        assert forall|e: u64, k: u64|
            w.listeners.dom().contains(e) && #[trigger] w.listeners[e].contains(
                k,
            ) implies w.stores.dom().contains(k) by {
            let i = map_entries(self.event_index)[e] as int;
            assert(set_items(self.tables@[i].listeners).contains(k));
        }
    }

    /// A kind with fewer values than a handle has indices has room for one
    /// more, and so has a kind without values as long as there are fewer
    /// kinds than a handle has indices.
    pub proof fn lemma_room(&self, key: u64)
        requires
            self.wf(),
        ensures
            self@.kinds.dom().finite(),
            self@.stores.dom().contains(key) && links_of(self@, key).len() <= u32::MAX
                ==> self.spec_has_room(key),
            !self@.stores.dom().contains(key) && self@.kinds.dom().len() <= u32::MAX
                ==> self.spec_has_room(key),
    {
        self.maps.lemma_room();
        assert(self@.kinds.dom() =~= self.maps@.dom());
        if self@.stores.dom().contains(key) {
            let store = self.maps@[self@.stores[key]].pearls;
            store.lemma_room();
            store.lemma_order();
        }
    }

    /// The links of a registry carry its tag, so a link of a registry with
    /// another tag names nothing here.
    pub proof fn lemma_link_tag(&self, link: (u64, u64))
        requires
            self.wf(),
            self@.items.dom().contains(link),
        ensures
            crate::handle::tag_of(link.0) == self.spec_id(),
    {
        self.maps.lemma_live_handle(link.0);
    }

    /// A registry without values and without listeners, with the tag zero.
    pub fn new() -> (world: Self)
        ensures
            world.wf(),
            world.spec_id() == 0,
            world@.items == Map::<(u64, u64), V>::empty(),
            world@.stores == Map::<u64, u64>::empty(),
            world@.kinds == Map::<u64, u64>::empty(),
            world@.order == Map::<u64, Seq<u64>>::empty(),
            world@.listeners == Map::<u64, Seq<u64>>::empty(),
            forall|key: u64| world.spec_has_room(key),
    {
        Self::with_ids(0, HandleMapId::new())
    }

    /// The tag of the registry.
    pub fn id(&self) -> (id: u16)
        ensures
            id == self.spec_id(),
    {
        self.maps.id()
    }

    /// A registry without values and without listeners, with the tag `tag`.
    /// Its stores draw their own tags from `ids`. Registries with different
    /// tags do not take each other's links.
    pub fn with_ids(tag: u16, ids: HandleMapId) -> (world: Self)
        ensures
            world.wf(),
            world.spec_id() == tag,
            world@.items == Map::<(u64, u64), V>::empty(),
            world@.stores == Map::<u64, u64>::empty(),
            world@.kinds == Map::<u64, u64>::empty(),
            world@.order == Map::<u64, Seq<u64>>::empty(),
            world@.listeners == Map::<u64, Seq<u64>>::empty(),
            forall|key: u64| world.spec_has_room(key),
    {
        let world = World {
            ids,
            map_data: map_new(),
            maps: SparseHandleMap::with_id(tag),
            event_index: map_new(),
            tables: Vec::new(),
        };
        assert(world@.items =~= Map::<(u64, u64), V>::empty());
        assert(world@.kinds =~= Map::<u64, u64>::empty());
        assert(world@.order =~= Map::<u64, Seq<u64>>::empty());
        assert(world@.listeners =~= Map::<u64, Seq<u64>>::empty());
        world
    }

    /// The number of kinds that have a value in the registry.
    pub fn types(&self) -> (count: usize)
        requires
            self.wf(),
        ensures
            count == self@.kinds.dom().len(),
    {
        assert(self@.kinds.dom() =~= self.maps@.dom());
        self.maps.len()
    }

    /// Whether the registry holds no value.
    pub fn is_empty(&self) -> (empty: bool)
        requires
            self.wf(),
        ensures
            empty == (self@.kinds.dom().len() == 0),
            empty == (self@.items == Map::<(u64, u64), V>::empty()),
    {
        let empty = self.maps.is_empty();
        proof {
            assert(self@.kinds.dom() =~= self.maps@.dom());
            if empty {
                assert(self@.items =~= Map::<(u64, u64), V>::empty());
            } else {
                self.maps.lemma_len();
                let s = self.maps@.dom().choose();
                assert(self.maps@.dom().len() != 0);
                assert(self.maps@.dom().contains(s));
                let store = self.maps@[s].pearls;
                store.lemma_order();
                let p = store.spec_handles()[0];
                assert(self@.items.dom().contains((s, p)));
            }
        }
        empty
    }

    /// Whether the kind `key` has a value in the registry.
    pub fn has(&self, key: u64) -> (found: bool)
        requires
            self.wf(),
        ensures
            found == self@.stores.dom().contains(key),
    {
        map_get(&self.map_data, key).is_some()
    }

    /// The number of values of kind `key`.
    pub fn len(&self, key: u64) -> (count: usize)
        requires
            self.wf(),
        ensures
            count == links_of(self@, key).len(),
            count > 0 <==> self@.stores.dom().contains(key),
    {
        match map_get(&self.map_data, key) {
            Some(raw) => {
                match self.maps.get(Handle::from_raw(raw)) {
                    Some(store) => {
                        proof {
                            store.pearls.lemma_order();
                        }
                        store.pearls.len()
                    },
                    None => 0,
                }
            },
            None => 0,
        }
    }

    /// Whether a value of kind `key` can be put in.
    pub fn has_room(&self, key: u64) -> (room: bool)
        requires
            self.wf(),
        ensures
            room == self.spec_has_room(key),
    {
        match map_get(&self.map_data, key) {
            Some(raw) => {
                match self.maps.get(Handle::from_raw(raw)) {
                    Some(store) => store.pearls.has_room(),
                    None => false,
                }
            },
            None => self.maps.has_room(),
        }
    }

    /// Whether `link` names a value of the registry.
    pub fn contains<P>(&self, link: Link<P>) -> (found: bool)
        requires
            self.wf(),
        ensures
            found == self@.items.dom().contains(link@),
    {
        match self.maps.get(link.map_handle().into_type()) {
            Some(store) => store.pearls.contains(link.pearl_handle().into_type()),
            None => false,
        }
    }

    /// The kind of the value that `link` names, or `None` if it names
    /// nothing here.
    pub fn kind_of<P>(&self, link: Link<P>) -> (kind: Option<u64>)
        requires
            self.wf(),
        ensures
            kind == (if self@.items.dom().contains(link@) {
                Some(self@.kinds[link@.0])
            } else {
                None
            }),
    {
        match self.maps.get(link.map_handle().into_type()) {
            Some(store) => {
                if store.pearls.contains(link.pearl_handle().into_type()) {
                    Some(store.key)
                } else {
                    None
                }
            },
            None => None,
        }
    }

    /// The value that `link` names, or `None` if it names nothing here.
    pub fn get(&self, link: Link<V>) -> (value: Option<&V>)
        requires
            self.wf(),
        ensures
            value == (if self@.items.dom().contains(link@) {
                Some(&self@.items[link@])
            } else {
                None
            }),
    {
        match self.maps.get(link.map_handle().into_type()) {
            Some(store) => store.pearls.get(link.pearl_handle()),
            None => None,
        }
    }

    /// The values of kind `key`, in the order of their store.
    pub fn pearls(&self, key: u64) -> (values: Vec<&V>)
        requires
            self.wf(),
        ensures
            values@.len() == links_of(self@, key).len(),
            forall|i: int|
                0 <= i < values@.len() ==> *(#[trigger] values@[i]) == self@.items[links_of(
                    self@,
                    key,
                )[i]],
    {
        let mut values: Vec<&V> = Vec::new();
        match map_get(&self.map_data, key) {
            Some(raw) => {
                match self.maps.get(Handle::from_raw(raw)) {
                    Some(store) => {
                        proof {
                            store.pearls.lemma_order();
                        }
                        let all = store.pearls.values();
                        let mut i: usize = 0;
                        while i < all.len()
                            invariant
                                self@.stores.dom().contains(key),
                                self@.stores[key] == raw,
                                self.maps@.dom().contains(raw),
                                *store == self.maps@[raw],
                                store.pearls.wf(),
                                all@ == store.pearls.spec_values(),
                                all@.len() == self@.order[raw].len(),
                                i <= all@.len(),
                                values@.len() == i,
                                forall|k: int| 0 <= k < i ==> *(#[trigger] values@[k]) == all@[k],
                            decreases all@.len() - i,
                        {
                            values.push(&all[i]);
                            i += 1;
                        }
                        proof {
                            store.pearls.lemma_order();
                            assert forall|k: int| 0 <= k < values@.len() implies *(
                            #[trigger] values@[k]) == self@.items[links_of(self@, key)[k]] by {
                                let p = store.pearls.spec_handles()[k];
                                assert(store.pearls@.dom().contains(p));
                                assert(links_of(self@, key)[k] == (raw, p));
                            }
                        }
                    },
                    None => {},
                }
            },
            None => {},
        }
        values
    }

    /// The links of the values of kind `key`, in the order of their store.
    pub fn links_copied(&self, key: u64) -> (links: Vec<Link<V>>)
        requires
            self.wf(),
        ensures
            links@.len() == links_of(self@, key).len(),
            forall|i: int| 0 <= i < links@.len() ==> (#[trigger] links@[i])@ == links_of(self@, key)[i],
    {
        let mut links: Vec<Link<V>> = Vec::new();
        match map_get(&self.map_data, key) {
            Some(raw) => {
                let map_handle: Handle<()> = Handle::from_raw(raw);
                match self.maps.get(map_handle.into_type()) {
                    Some(store) => {
                        let handles = store.pearls.handles();
                        let mut i: usize = 0;
                        while i < handles.len()
                            invariant
                                self@.stores.dom().contains(key),
                                self@.stores[key] == raw,
                                map_handle@ == raw,
                                handles@.len() == self@.order[raw].len(),
                                forall|k: int|
                                    0 <= k < handles@.len() ==> (#[trigger] handles@[k])@
                                        == self@.order[raw][k],
                                i <= handles@.len(),
                                links@.len() == i,
                                forall|k: int|
                                    0 <= k < i ==> (#[trigger] links@[k])@ == (
                                        raw,
                                        self@.order[raw][k],
                                    ),
                            decreases handles@.len() - i,
                        {
                            links.push(Link::new(map_handle, handles[i]));
                            i += 1;
                        }
                    },
                    None => {},
                }
            },
            None => {},
        }
        links
    }

    /// Puts `value` into the registry as a value of kind `key` and returns
    /// the link that names it. The first value of a kind gets a store of its
    /// own. No other link is touched.
    pub fn insert(&mut self, key: u64, value: V) -> (link: Link<V>)
        requires
            old(self).wf(),
            old(self).spec_has_room(key),
        ensures
            final(self).wf(),
            final(self).spec_id() == old(self).spec_id(),
            inserted(old(self)@, final(self)@, key, link@, value),
            final(self)@.kinds.dom().finite(),
            forall|k: u64|
                final(self)@.stores.dom().contains(k) && links_of(final(self)@, k).len()
                    <= u32::MAX ==> #[trigger] final(self).spec_has_room(k),
            forall|k: u64|
                !final(self)@.stores.dom().contains(k) && final(self)@.kinds.dom().len()
                    <= u32::MAX ==> #[trigger] final(self).spec_has_room(k),
    {
        let ghost before = *self;
        match map_get(&self.map_data, key) {
            Some(raw) => {
                let map_handle: Handle<()> = Handle::from_raw(raw);
                let store = self.maps.get_mut(map_handle.into_type()).unwrap();
                let pearl_handle = store.pearls.insert(value);
                let link = Link::new(map_handle, pearl_handle);
                proof {
                    let ghost grown = self.maps@[raw];
                    assert(self.maps@ == before.maps@.insert(raw, grown));
                    assert(grown.key == key);
                    assert(self@.items =~= before@.items.insert(link@, value));
                    assert(self@.kinds =~= before@.kinds);
                    assert(self@.order =~= before@.order.insert(
                        raw,
                        before@.order[raw].push(link@.1),
                    ));
                    assert(self@.listeners =~= before@.listeners);
                    before.maps.lemma_len();
                    assert forall|s: u64| #[trigger] self.maps@.dom().contains(s) implies {
                        &&& map_entries(self.map_data).dom().contains(self.maps@[s].key)
                        &&& map_entries(self.map_data)[self.maps@[s].key] == s
                        &&& self.maps@[s].pearls.wf()
                        &&& self.maps@[s].pearls@.dom().len() > 0
                    } by {
                        assert(before.maps@.dom().contains(s));
                        if s == raw {
                            before.maps@[raw].pearls.lemma_order();
                        }
                    }
                }
                proof {
                    assert forall|k: u64| true implies {
                        &&& (self@.stores.dom().contains(k) && links_of(self@, k).len() <= u32::MAX
                            ==> #[trigger] self.spec_has_room(k))
                        &&& (!self@.stores.dom().contains(k) && self@.kinds.dom().len() <= u32::MAX
                            ==> self.spec_has_room(k))
                    } by {
                        self.lemma_room(k);
                    }
                    self.lemma_room(key);
                }
                link
            },
            None => {
                let tag: u16 = self.ids.generate();
                let mut pearls: DenseHandleMap<V> = DenseHandleMap::with_id(tag);
                let pearl_handle = pearls.insert(value);
                let store_handle = self.maps.insert(Store { key, pearls });
                map_insert(&mut self.map_data, key, store_handle.id());
                let link = Link::new(store_handle.into_type(), pearl_handle);
                proof {
                    let raw = store_handle@;
                    assert(self@.items =~= before@.items.insert(link@, value));
                    assert(self@.kinds =~= before@.kinds.insert(raw, key));
                    assert(self@.order =~= before@.order.insert(raw, seq![link@.1])) by {
                        assert(Seq::<u64>::empty().push(link@.1) =~= seq![link@.1]);
                    }
                    assert(self@.listeners =~= before@.listeners);
                    assert forall|k: u64| #[trigger]
                        map_entries(self.map_data).dom().contains(k) implies {
                        &&& self.maps@.dom().contains(map_entries(self.map_data)[k])
                        &&& self.maps@[map_entries(self.map_data)[k]].key == k
                    } by {
                        if k != key {
                            assert(map_entries(before.map_data).dom().contains(k));
                        }
                    }
                    assert forall|s: u64| #[trigger] self.maps@.dom().contains(s) implies {
                        &&& map_entries(self.map_data).dom().contains(self.maps@[s].key)
                        &&& map_entries(self.map_data)[self.maps@[s].key] == s
                        &&& self.maps@[s].pearls.wf()
                        &&& self.maps@[s].pearls@.dom().len() > 0
                    } by {
                        if s != raw {
                            assert(before.maps@.dom().contains(s));
                        }
                    }
                    assert forall|i: int, k: u64|
                        0 <= i < self.tables@.len() && #[trigger] set_items(
                            self.tables@[i].listeners,
                        ).contains(k) implies map_entries(self.map_data).dom().contains(k) by {
                        assert(set_items(before.tables@[i].listeners).contains(k));
                    }
                }
                proof {
                    assert forall|k: u64| true implies {
                        &&& (self@.stores.dom().contains(k) && links_of(self@, k).len() <= u32::MAX
                            ==> #[trigger] self.spec_has_room(k))
                        &&& (!self@.stores.dom().contains(k) && self@.kinds.dom().len() <= u32::MAX
                            ==> self.spec_has_room(k))
                    } by {
                        self.lemma_room(k);
                    }
                    self.lemma_room(key);
                }
                link
            },
        }
    }

    /// The value that `link` names, for changing it in place, or `None` if
    /// it names nothing here. Only that value can change.
    pub fn get_mut(&mut self, link: Link<V>) -> (value: Option<&mut V>)
        requires
            old(self).wf(),
        ensures
            value is Some <==> old(self)@.items.dom().contains(link@),
            match value {
                Some(r) => {
                    &&& *r == old(self)@.items[link@]
                    &&& final(self).wf()
                    &&& final(self)@ == (WorldView {
                        items: old(self)@.items.insert(link@, *final(r)),
                        ..old(self)@
                    })
                    &&& final(self).spec_id() == old(self).spec_id()
                    &&& forall|key: u64| #[trigger]
                        final(self).spec_has_room(key) == old(self).spec_has_room(key)
                },
                None => *final(self) == *old(self),
            },
    {
        let ghost before = *self;
        if !self.contains(link) {
            return None;
        }
        let store = self.maps.get_mut(link.map_handle().into_type()).unwrap();
        let value = store.pearls.get_mut(link.pearl_handle());
        proof {
            let after = after_borrow(*self);
            let raw = link@.0;
            let changed = after.maps@[raw];
            assert(after.maps@ == before.maps@.insert(raw, changed));
            assert(changed.key == before.maps@[raw].key);
            assert(after@.items =~= before@.items.insert(link@, *final(value.unwrap())));
            assert(after@.kinds =~= before@.kinds);
            assert(after@.order =~= before@.order);
            assert(after@.listeners =~= before@.listeners);
            assert(after@.stores == before@.stores);
            before.maps@[raw].pearls.lemma_order();
            changed.pearls.lemma_order();
            assert forall|s: u64| #[trigger] after.maps@.dom().contains(s) implies {
                &&& map_entries(after.map_data).dom().contains(after.maps@[s].key)
                &&& map_entries(after.map_data)[after.maps@[s].key] == s
                &&& after.maps@[s].pearls.wf()
                &&& after.maps@[s].pearls@.dom().len() > 0
            } by {
                assert(before.maps@.dom().contains(s));
            }
        }
        value
    }

    /// The value of kind `key` at position `index` of its store with its
    /// link, the value for changing it in place, or `None` past the end.
    /// Walking the positions from the first to the last reaches every value
    /// of the kind once. Only that value can change.
    pub fn iter_mut(&mut self, key: u64, index: usize) -> (entry: Option<(Link<V>, &mut V)>)
        requires
            old(self).wf(),
        ensures
            entry is Some <==> index < links_of(old(self)@, key).len(),
            match entry {
                Some((link, r)) => {
                    &&& link@ == links_of(old(self)@, key)[index as int]
                    &&& *r == old(self)@.items[link@]
                    &&& final(self).wf()
                    &&& final(self)@ == (WorldView {
                        items: old(self)@.items.insert(link@, *final(r)),
                        ..old(self)@
                    })
                    &&& final(self).spec_id() == old(self).spec_id()
                    &&& forall|k: u64| #[trigger]
                        final(self).spec_has_room(k) == old(self).spec_has_room(k)
                },
                None => *final(self) == *old(self),
            },
    {
        let raw: u64 = match map_get(&self.map_data, key) {
            Some(raw) => raw,
            None => {
                return None;
            },
        };
        let map_handle: Handle<()> = Handle::from_raw(raw);
        let handle: Handle<V> = match self.maps.get(map_handle.into_type()) {
            Some(store) => {
                let handles = store.pearls.handles();
                if index >= handles.len() {
                    return None;
                }
                handles[index]
            },
            None => {
                return None;
            },
        };
        let link = Link::new(map_handle, handle);
        proof {
            self.lemma_invariant();
            assert(link@ == (raw, self@.order[raw][index as int]));
            assert(self@.order[raw].contains(self@.order[raw][index as int]));
        }
        match self.get_mut(link) {
            Some(value) => Some((link, value)),
            None => None,
        }
    }

    /// Registers the kind `key` as a listener to `event`, after the kinds
    /// that listen to it already. Returns whether the kind was added: a kind
    /// that listens already is not added again.
    pub fn listen(&mut self, event: u64, key: u64) -> (added: bool)
        requires
            old(self).wf(),
            old(self)@.stores.dom().contains(key),
        ensures
            final(self).wf(),
            added == !listeners_of(old(self)@, event).contains(key),
            final(self)@ == (WorldView {
                listeners: old(self)@.listeners.insert(
                    event,
                    if added {
                        listeners_of(old(self)@, event).push(key)
                    } else {
                        listeners_of(old(self)@, event)
                    },
                ),
                ..old(self)@
            }),
            final(self).spec_id() == old(self).spec_id(),
            forall|k: u64| #[trigger] final(self).spec_has_room(k) == old(self).spec_has_room(k),
    {
        let ghost before = *self;
        let position: usize = match map_get(&self.event_index, event) {
            Some(at) => {
                let count: usize = self.tables.len();
                assert(at < count);
                at as usize
            },
            None => {
                let at: usize = self.tables.len();
                self.tables.push(EventTable { event, listeners: set_new() });
                map_insert(&mut self.event_index, event, at as u64);
                at
            },
        };
        let ghost mid = *self;
        proof {
            assert(mid.tables@[position as int].event == event);
            assert(map_entries(mid.event_index).dom().contains(event));
            assert(map_entries(mid.event_index)[event] == position);
            if map_entries(before.event_index).dom().contains(event) {
                assert(mid.tables@[position as int] == before.tables@[position as int]);
            } else {
                assert(set_items(mid.tables@[position as int].listeners) =~= Seq::<u64>::empty());
            }
            assert(set_items(mid.tables@[position as int].listeners) == listeners_of(
                before@,
                event,
            ));
            assert forall|i: int| 0 <= i < mid.tables@.len() implies {
                &&& map_entries(mid.event_index).dom().contains((#[trigger] mid.tables@[i]).event)
                &&& map_entries(mid.event_index)[mid.tables@[i].event] == i
                &&& set_items(mid.tables@[i].listeners).no_duplicates()
            } by {
                if i < before.tables@.len() {
                    assert(mid.tables@[i] == before.tables@[i]);
                }
            }
        }
        let table = &mut self.tables[position];
        let added = set_insert(&mut table.listeners, key);
        proof {
            let kinds = set_items(mid.tables@[position as int].listeners);
            if added {
                lemma_pushed(kinds, key);
            }
            assert forall|e: u64| #[trigger]
                map_entries(self.event_index).dom().contains(e) implies {
                &&& map_entries(self.event_index)[e] < self.tables@.len()
                &&& self.tables@[map_entries(self.event_index)[e] as int].event == e
            } by {
                if e != event {
                    assert(map_entries(before.event_index).dom().contains(e));
                }
            }
            assert forall|i: int| 0 <= i < self.tables@.len() implies {
                &&& map_entries(self.event_index).dom().contains((#[trigger] self.tables@[i]).event)
                &&& map_entries(self.event_index)[self.tables@[i].event] == i
                &&& set_items(self.tables@[i].listeners).no_duplicates()
            } by {
                assert(self.tables@[i].event == mid.tables@[i].event);
                if i != position {
                    assert(self.tables@[i] == mid.tables@[i]);
                }
            }
            assert forall|i: int, k: u64|
                0 <= i < self.tables@.len() && #[trigger] set_items(
                    self.tables@[i].listeners,
                ).contains(k) implies map_entries(self.map_data).dom().contains(k) by {
                if i != position {
                    assert(self.tables@[i] == mid.tables@[i]);
                    assert(mid.tables@[i] == before.tables@[i]);
                    assert(set_items(before.tables@[i].listeners).contains(k));
                } else if k != key {
                    assert(kinds.contains(k));
                    if position < before.tables@.len() {
                        assert(mid.tables@[i] == before.tables@[i]);
                        assert(set_items(before.tables@[i].listeners).contains(k));
                    }
                }
            }
            assert(self@.listeners =~= before@.listeners.insert(
                event,
                if added {
                    listeners_of(before@, event).push(key)
                } else {
                    listeners_of(before@, event)
                },
            )) by {
                assert forall|e: u64| #[trigger]
                    map_entries(before.event_index).dom().contains(e) && e
                        != event implies self@.listeners[e] == before@.listeners[e] by {
                    let i = map_entries(before.event_index)[e] as int;
                    assert(before.tables@[i].event == e);
                    assert(mid.tables@[i] == before.tables@[i]);
                    assert(i != position);
                    assert(self.tables@[i] == mid.tables@[i]);
                    assert(mid.tables@[i] == before.tables@[i]);
                }
            }
            assert(self@.items =~= before@.items);
            assert(self@.kinds =~= before@.kinds);
            assert(self@.order =~= before@.order);
        }
        added
    }

    /// The kinds that listen to `event`, in the order in which they
    /// registered.
    pub fn listeners(&self, event: u64) -> (kinds: Vec<u64>)
        requires
            self.wf(),
        ensures
            kinds@ == listeners_of(self@, event),
    {
        let mut kinds: Vec<u64> = Vec::new();
        match map_get(&self.event_index, event) {
            Some(at) => {
                let total: usize = self.tables.len();
                assert(at < total);
                let table = &self.tables[at as usize];
                let count: usize = set_len(&table.listeners);
                let mut i: usize = 0;
                while i < count
                    invariant
                        count == set_items(table.listeners).len(),
                        i <= count,
                        kinds@ == set_items(table.listeners).subrange(0, i as int),
                    decreases count - i,
                {
                    match set_get_index(&table.listeners, i) {
                        Some(kind) => {
                            kinds.push(kind);
                        },
                        None => {},
                    }
                    assert(kinds@ =~= set_items(table.listeners).subrange(0, i as int + 1));
                    i += 1;
                }
                assert(kinds@ =~= set_items(table.listeners));
            },
            None => {},
        }
        kinds
    }

    /// The links of the values that a dispatch of `event` calls, taken
    /// before any of them is called: those of the first kind that
    /// registered, then those of the second, and so on.
    pub fn targets(&self, event: u64) -> (links: Vec<Link<V>>)
        requires
            self.wf(),
        ensures
            links@.len() == targets_of(self@, event).len(),
            forall|i: int|
                0 <= i < links@.len() ==> (#[trigger] links@[i])@ == targets_of(self@, event)[i],
    {
        let kinds = self.listeners(event);
        let mut links: Vec<Link<V>> = Vec::new();
        let mut i: usize = 0;
        assert(kinds@.subrange(0, 0) =~= Seq::<u64>::empty());
        while i < kinds.len()
            invariant
                self.wf(),
                kinds@ == listeners_of(self@, event),
                i <= kinds@.len(),
                links@.len() == links_of_all(self@, kinds@.subrange(0, i as int)).len(),
                forall|k: int|
                    0 <= k < links@.len() ==> (#[trigger] links@[k])@ == links_of_all(
                        self@,
                        kinds@.subrange(0, i as int),
                    )[k],
            decreases kinds@.len() - i,
        {
            let mut more = self.links_copied(kinds[i]);
            let ghost had = links@;
            let ghost got = more@;
            links.append(&mut more);
            proof {
                let done = kinds@.subrange(0, i as int);
                let next = kinds@.subrange(0, i as int + 1);
                assert(next.drop_last() =~= done);
                assert(next.last() == kinds@[i as int]);
                assert(links@ == had + got);
            }
            i += 1;
        }
        assert(kinds@.subrange(0, kinds@.len() as int) =~= kinds@);
        links
    }

    /// Removes the value that `link` names and returns it, or returns `None`
    /// and changes nothing if it names nothing here.
    ///
    /// The last value of the store moves into the position of the removed
    /// one. A store that loses its last value goes, and its kind leaves the
    /// listeners of every event.
    pub fn remove(&mut self, link: Link<V>) -> (value: Option<V>)
        requires
            old(self).wf(),
        ensures
            final(self).wf(),
            value == (if old(self)@.items.dom().contains(link@) {
                Some(old(self)@.items[link@])
            } else {
                None
            }),
            final(self)@ == without(old(self)@, link@),
            final(self).spec_id() == old(self).spec_id(),
            forall|k: u64| old(self).spec_has_room(k) ==> #[trigger] final(self).spec_has_room(k),
    {
        let ghost before = *self;
        if !self.contains(link) {
            return None;
        }
        let store_handle: Handle<Store<V>> = link.map_handle().into_type();
        let ghost raw = link@.0;
        let ghost item = link@.1;
        proof {
            before.lemma_invariant();
            before.maps@[raw].pearls.lemma_order();
            before.maps.lemma_len();
        }
        let store = self.maps.get_mut(store_handle).unwrap();
        let value = store.pearls.remove(link.pearl_handle());
        let emptied: bool = store.pearls.is_empty();
        let key: u64 = store.key;
        let ghost mid = *self;
        let ghost old_order = before@.order[raw];
        let ghost rest = swap_removed(old_order, old_order.index_of(item));
        proof {
            let shrunk = mid.maps@[raw];
            assert(mid.maps@ == before.maps@.insert(raw, shrunk));
            assert(shrunk.key == key);
            assert(key == before@.kinds[raw]);
            shrunk.pearls.lemma_order();
            let at = before.maps@[raw].pearls.spec_position(item);
            assert(old_order[at] == item);
            assert(old_order.index_of(item) == at) by {
                let found = old_order.index_of(item);
                assert(old_order.contains(item));
                assert(old_order[found] == item);
            }
            assert(shrunk.pearls.spec_handles() == rest);
            assert(emptied == (rest.len() == 0));
            assert(mid@.items =~= before@.items.remove(link@));
            assert(mid@.kinds =~= before@.kinds);
            assert(mid@.order =~= before@.order.insert(raw, rest));
            assert(mid@.listeners =~= before@.listeners);
        }
        if !emptied {
            proof {
                assert forall|s: u64| #[trigger] self.maps@.dom().contains(s) implies {
                    &&& map_entries(self.map_data).dom().contains(self.maps@[s].key)
                    &&& map_entries(self.map_data)[self.maps@[s].key] == s
                    &&& self.maps@[s].pearls.wf()
                    &&& self.maps@[s].pearls@.dom().len() > 0
                } by {
                    assert(before.maps@.dom().contains(s));
                }
            }
            return value;
        }
        map_remove(&mut self.map_data, key);
        self.maps.remove(store_handle);
        let count: usize = self.tables.len();
        let mut i: usize = 0;
        while i < count
            invariant
                before.wf(),
                count == before.tables@.len(),
                self.tables@.len() == count,
                i <= count,
                self.ids == mid.ids,
                self.maps@ == before.maps@.remove(raw),
                self.maps.wf(),
                self.maps.spec_id() == before.maps.spec_id(),
                self.maps.spec_has_room(),
                self.event_index == before.event_index,
                map_entries(self.map_data) == map_entries(before.map_data).remove(key),
                forall|j: int|
                    0 <= j < count ==> (#[trigger] self.tables@[j]).event == before.tables@[j].event,
                forall|j: int|
                    0 <= j < i ==> set_items((#[trigger] self.tables@[j]).listeners) == unlisted(
                        set_items(before.tables@[j].listeners),
                        key,
                    ),
                forall|j: int| i <= j < count ==> #[trigger] self.tables@[j] == before.tables@[j],
            decreases count - i,
        {
            let table = &mut self.tables[i];
            set_shift_remove(&mut table.listeners, key);
            i += 1;
        }
        proof {
            let md = map_entries(self.map_data);
            assert forall|k: u64| #[trigger] md.dom().contains(k) implies {
                &&& self.maps@.dom().contains(md[k])
                &&& self.maps@[md[k]].key == k
            } by {
                assert(map_entries(before.map_data).dom().contains(k));
            }
            assert forall|s: u64| #[trigger] self.maps@.dom().contains(s) implies {
                &&& md.dom().contains(self.maps@[s].key)
                &&& md[self.maps@[s].key] == s
                &&& self.maps@[s].pearls.wf()
                &&& self.maps@[s].pearls@.dom().len() > 0
            } by {
                assert(before.maps@.dom().contains(s));
            }
            assert forall|j: int| 0 <= j < self.tables@.len() implies {
                &&& map_entries(self.event_index).dom().contains((#[trigger] self.tables@[j]).event)
                &&& map_entries(self.event_index)[self.tables@[j].event] == j
                &&& set_items(self.tables@[j].listeners).no_duplicates()
            } by {
                assert(self.tables@[j].event == before.tables@[j].event);
                lemma_unlisted(set_items(before.tables@[j].listeners), key);
            }
            assert forall|j: int, k: u64|
                0 <= j < self.tables@.len() && #[trigger] set_items(
                    self.tables@[j].listeners,
                ).contains(k) implies md.dom().contains(k) by {
                lemma_unlisted(set_items(before.tables@[j].listeners), key);
                assert(set_items(before.tables@[j].listeners).contains(k));
            }
            assert forall|e: u64| #[trigger]
                map_entries(self.event_index).dom().contains(e) implies {
                &&& map_entries(self.event_index)[e] < self.tables@.len()
                &&& self.tables@[map_entries(self.event_index)[e] as int].event == e
            } by {
                let j = map_entries(before.event_index)[e] as int;
                assert(self.tables@[j].event == before.tables@[j].event);
            }
            let after = without(before@, link@);
            assert(self@.items =~= after.items) by {
                assert forall|l: (u64, u64)| self@.items.dom().contains(l) <==> (
                before@.items.dom().contains(l) && l != link@) by {
                    if l.0 == raw && before@.items.dom().contains(l) && l != link@ {
                        assert(mid@.items.dom().contains(l));
                        assert(mid.maps@[raw].pearls@.dom().contains(l.1));
                    }
                }
            }
            assert(self@.kinds =~= after.kinds);
            assert(self@.order =~= after.order);
            assert(self@.listeners =~= after.listeners) by {
                assert forall|e: u64| #[trigger]
                    map_entries(self.event_index).dom().contains(e) implies self@.listeners[e]
                    == unlisted(before@.listeners[e], key) by {
                    let j = map_entries(before.event_index)[e] as int;
                    assert(set_items(self.tables@[j].listeners) == unlisted(
                        set_items(before.tables@[j].listeners),
                        key,
                    ));
                }
            }
            assert(self@.stores == after.stores);
        }
        value
    }
}

} // verus!
