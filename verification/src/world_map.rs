//! A packed store that is reached by handle and by position.

use crate::handle::Handle;
use crate::maps::{PearlEntry, PearlMap};
use vstd::prelude::*;

verus! {

/// A packed store of values that can be reached by their handles and, for
/// walking through them, by their positions.
///
/// A position holds for as long as no value is removed: removing one moves
/// the last value into its position.
pub struct WorldMap<T> {
    data: PearlMap<T>,
}

impl<T> View for WorldMap<T> {
    type V = Map<u64, T>;

    /// The values in the map, each under the identifier of its handle.
    closed spec fn view(&self) -> Map<u64, T> {
        self.data@
    }
}

impl<T> WorldMap<T> {
    /// The invariant of the map.
    pub closed spec fn wf(&self) -> bool {
        self.data.wf()
    }

    /// The identifiers of the handles, in the order of their values.
    pub closed spec fn spec_handles(&self) -> Seq<u64> {
        Seq::new(self.data.spec_entries().len(), |i: int| self.data.spec_entries()[i].handle@)
    }

    /// The values, in the order in which they lie in the map.
    pub closed spec fn spec_values(&self) -> Seq<T> {
        Seq::new(self.data.spec_entries().len(), |i: int| self.data.spec_entries()[i].pearl)
    }

    /// Whether an insert can take place.
    pub closed spec fn spec_has_room(&self) -> bool {
        self.data.spec_has_room()
    }

    /// How the view, the handles and the values belong together: the value
    /// at a position is the one that the handle at that position opens, and
    /// every handle of the map lies at one position.
    pub proof fn lemma_order(&self)
        requires
            self.wf(),
        ensures
            self@.dom().finite(),
            self.spec_handles().len() == self@.dom().len(),
            self.spec_values().len() == self@.dom().len(),
            forall|i: int|
                0 <= i < self.spec_handles().len() ==> {
                    &&& self@.dom().contains(#[trigger] self.spec_handles()[i])
                    &&& self@[self.spec_handles()[i]] == self.spec_values()[i]
                },
            forall|raw: u64| #[trigger]
                self@.dom().contains(raw) ==> self.spec_handles().contains(raw),
            self.spec_handles().no_duplicates(),
    {
        self.data.lemma_order();
        assert forall|raw: u64| #[trigger] self@.dom().contains(raw) implies self.spec_handles().contains(
            raw,
        ) by {
            let at = self.data.spec_position(raw);
            assert(self.spec_handles()[at] == raw);
        }
        assert forall|i: int, j: int|
            0 <= i < j < self.spec_handles().len() implies self.spec_handles()[i]
            != self.spec_handles()[j] by {
            assert(self.data.spec_position(self.data.spec_entries()[i].handle@) == i);
            assert(self.data.spec_position(self.data.spec_entries()[j].handle@) == j);
        }
    }

    /// A map with fewer values than a handle has indices has room for one
    /// more.
    pub proof fn lemma_room(&self)
        requires
            self.wf(),
        ensures
            self@.dom().finite(),
            self@.dom().len() <= u32::MAX ==> self.spec_has_room(),
    {
        self.data.lemma_room();
    }

    /// An empty map.
    pub fn new() -> (map: Self)
        ensures
            map.wf(),
            map@ == Map::<u64, T>::empty(),
            map.spec_handles() == Seq::<u64>::empty(),
            map.spec_values() == Seq::<T>::empty(),
            map.spec_has_room(),
    {
        let map = WorldMap { data: PearlMap::new() };
        assert(map.spec_handles() =~= Seq::<u64>::empty());
        assert(map.spec_values() =~= Seq::<T>::empty());
        map
    }

    /// The number of values in the map.
    pub fn len(&self) -> (len: usize)
        requires
            self.wf(),
        ensures
            len == self@.dom().len(),
            len == self.spec_values().len(),
    {
        self.data.len()
    }

    /// Whether the map holds no value.
    pub fn is_empty(&self) -> (empty: bool)
        requires
            self.wf(),
        ensures
            empty == (self@.dom().len() == 0),
    {
        self.data.is_empty()
    }

    /// Whether an insert can take place.
    pub fn has_room(&self) -> (room: bool)
        requires
            self.wf(),
        ensures
            room == self.spec_has_room(),
    {
        self.data.has_room()
    }

    /// Whether `handle` opens a value of this map.
    pub fn contains(&self, handle: Handle<T>) -> (found: bool)
        requires
            self.wf(),
        ensures
            found == self@.dom().contains(handle@),
    {
        self.data.get_index(handle).is_some()
    }

    /// The value that `handle` opens, or `None` if it opens nothing here.
    pub fn get(&self, handle: Handle<T>) -> (value: Option<&T>)
        requires
            self.wf(),
        ensures
            value == (if self@.dom().contains(handle@) {
                Some(&self@[handle@])
            } else {
                None
            }),
    {
        self.data.get(handle)
    }

    /// The value that `handle` opens, for changing it in place, or `None`
    /// if it opens nothing here. Only that value can change.
    pub fn get_mut(&mut self, handle: Handle<T>) -> (value: Option<&mut T>)
        requires
            old(self).wf(),
        ensures
            value is Some <==> old(self)@.dom().contains(handle@),
            match value {
                Some(r) => {
                    &&& *r == old(self)@[handle@]
                    &&& final(self)@ == old(self)@.insert(handle@, *final(r))
                    &&& final(self).wf()
                    &&& final(self).spec_has_room() == old(self).spec_has_room()
                    &&& final(self).spec_handles() == old(self).spec_handles()
                },
                None => *final(self) == *old(self),
            },
    {
        let ghost before = *self;
        let value = self.data.get_mut(handle);
        proof {
            if value is Some {
                let after = after_borrow(*self);
                before.data.lemma_order();
                assert(after.spec_handles() =~= before.spec_handles());
            }
        }
        value
    }

    /// The position of the value that `handle` opens, or `None` if it opens
    /// nothing here.
    pub fn index_of(&self, handle: Handle<T>) -> (position: Option<usize>)
        requires
            self.wf(),
        ensures
            position is Some <==> self@.dom().contains(handle@),
            position is Some ==> {
                &&& position.unwrap() < self.spec_handles().len()
                &&& self.spec_handles()[position.unwrap() as int] == handle@
            },
    {
        let position = self.data.get_index(handle);
        proof {
            self.data.lemma_order();
            if position is Some {
                let at = self.data.spec_position(handle@);
                assert(self@.dom().contains(handle@));
                assert(self.data.spec_entries()[at].handle@ == handle@);
                assert(self.spec_handles()[at] == handle@);
            }
        }
        position
    }

    /// The handle and the value at position `index`, or `None` past the
    /// end.
    pub fn get_index(&self, index: usize) -> (entry: Option<(Handle<T>, &T)>)
        requires
            self.wf(),
        ensures
            entry is Some <==> index < self.spec_values().len(),
            entry is Some ==> {
                &&& entry.unwrap().0@ == self.spec_handles()[index as int]
                &&& *entry.unwrap().1 == self.spec_values()[index as int]
            },
    {
        let entries = self.data.iter();
        if index < entries.len() {
            let found = &entries[index];
            Some((found.handle.into_type(), &found.pearl))
        } else {
            None
        }
    }

    /// The handle and the value at position `index`, the value for changing
    /// it in place, or `None` past the end.
    pub fn get_index_mut(&mut self, index: usize) -> (entry: Option<(Handle<T>, &mut T)>)
        requires
            old(self).wf(),
        ensures
            entry is Some <==> index < old(self).spec_values().len(),
            match entry {
                Some((handle, r)) => {
                    &&& handle@ == old(self).spec_handles()[index as int]
                    &&& *r == old(self).spec_values()[index as int]
                    &&& final(self)@ == old(self)@.insert(handle@, *final(r))
                    &&& final(self).wf()
                    &&& final(self).spec_has_room() == old(self).spec_has_room()
                    &&& final(self).spec_handles() == old(self).spec_handles()
                },
                None => *final(self) == *old(self),
            },
    {
        let ghost before = *self;
        if index >= self.data.iter().len() {
            return None;
        }
        let handle: Handle<T> = self.data.iter()[index].handle.into_type();
        proof {
            before.data.lemma_order();
        }
        match self.get_mut(handle) {
            Some(value) => Some((handle, value)),
            None => None,
        }
    }

    /// The handles with their values, in the order in which they lie in the
    /// map.
    pub fn iter(&self) -> (entries: Vec<(Handle<T>, &T)>)
        requires
            self.wf(),
        ensures
            entries@.len() == self.spec_handles().len(),
            forall|i: int|
                0 <= i < entries@.len() ==> {
                    &&& (#[trigger] entries@[i]).0@ == self.spec_handles()[i]
                    &&& *entries@[i].1 == self.spec_values()[i]
                },
    {
        let all = self.data.iter();
        let mut entries: Vec<(Handle<T>, &T)> = Vec::new();
        let mut i: usize = 0;
        while i < all.len()
            invariant
                all@ == self.data.spec_entries(),
                i <= all@.len(),
                entries@.len() == i,
                forall|k: int|
                    0 <= k < i ==> {
                        &&& (#[trigger] entries@[k]).0@ == all@[k].handle@
                        &&& *entries@[k].1 == all@[k].pearl
                    },
            decreases all@.len() - i,
        {
            entries.push((all[i].handle.into_type(), &all[i].pearl));
            i += 1;
        }
        entries
    }

    /// Puts `data` at the end of the map and returns the handle that opens
    /// it. No other handle is touched.
    pub fn insert(&mut self, data: T) -> (handle: Handle<T>)
        requires
            old(self).wf(),
            old(self).spec_has_room(),
        ensures
            final(self).wf(),
            !old(self)@.dom().contains(handle@),
            final(self)@ == old(self)@.insert(handle@, data),
            final(self)@.dom().finite(),
            final(self)@.dom().len() == old(self)@.dom().len() + 1,
            final(self)@.dom().len() <= u32::MAX ==> final(self).spec_has_room(),
            final(self).spec_handles() == old(self).spec_handles().push(handle@),
            final(self).spec_values() == old(self).spec_values().push(data),
    {
        let ghost before = *self;
        let handle = self.data.insert(data);
        proof {
            let was = before.data.spec_entries();
            let now = self.data.spec_entries();
            assert(now.drop_last() == was);
            assert forall|i: int| 0 <= i < was.len() implies now[i] == was[i] by {
                assert(now.drop_last()[i] == now[i]);
            }
            assert(self.spec_handles() =~= before.spec_handles().push(handle@));
            assert(self.spec_values() =~= before.spec_values().push(data));
        }
        handle
    }

    /// Removes the value that `handle` opens and returns it, or returns
    /// `None` and changes nothing if it opens nothing here.
    ///
    /// The last value of the map moves into the position of the removed
    /// one; its handle, like every other, keeps opening its own value.
    pub fn remove(&mut self, handle: Handle<T>) -> (value: Option<T>)
        requires
            old(self).wf(),
        ensures
            final(self).wf(),
            value == (if old(self)@.dom().contains(handle@) {
                Some(old(self)@[handle@])
            } else {
                None
            }),
            final(self)@ == old(self)@.remove(handle@),
            old(self).spec_has_room() ==> final(self).spec_has_room(),
            !old(self)@.dom().contains(handle@) ==> {
                &&& final(self).spec_handles() == old(self).spec_handles()
                &&& final(self).spec_values() == old(self).spec_values()
            },
            old(self)@.dom().contains(handle@) ==> {
                &&& final(self).spec_handles() == crate::seqs::swap_removed(
                    old(self).spec_handles(),
                    old(self).spec_handles().index_of(handle@),
                )
                &&& final(self).spec_values() == crate::seqs::swap_removed(
                    old(self).spec_values(),
                    old(self).spec_handles().index_of(handle@),
                )
            },
    {
        let ghost before = *self;
        let value = self.data.remove(handle);
        proof {
            if before@.dom().contains(handle@) {
                before.lemma_order();
                before.data.lemma_order();
                let at = before.data.spec_position(handle@);
                let found = before.spec_handles().index_of(handle@);
                assert(before.spec_handles()[at] == handle@);
                assert(before.spec_handles()[found] == handle@);
                assert(found == at);
                assert(self.spec_handles() =~= crate::seqs::swap_removed(
                    before.spec_handles(),
                    at,
                ));
                assert(self.spec_values() =~= crate::seqs::swap_removed(before.spec_values(), at));
            }
        }
        value
    }
}

} // verus!
