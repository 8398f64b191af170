//! A packed store of values behind handles, each value kept next to the
//! handle that opens it.

use crate::seqs::swap_removed;
use crate::handle::{index_of, Handle};
use crate::sparse::SparseHandleMap;
use vstd::prelude::*;

verus! {

/// A value of a [`PearlMap`] with the handle that opens it.
pub struct PearlEntry<P> {
    pub handle: Handle<usize>,
    pub pearl: P,
}

/// Storage that hands out a [`Handle`] for each value put in and keeps the
/// values packed: removing one moves the last value into the gap.
pub struct PearlMap<P> {
    indices: SparseHandleMap<usize>,
    pearls: Vec<PearlEntry<P>>,
}

impl<P> View for PearlMap<P> {
    type V = Map<u64, P>;

    /// The values in the map, each under the identifier of its handle.
    closed spec fn view(&self) -> Map<u64, P> {
        Map::new(
            |raw: u64| self.indices@.dom().contains(raw),
            |raw: u64| self.pearls@[self.indices@[raw] as int].pearl,
        )
    }
}

impl<P> PearlMap<P> {
    /// The values with their handles, in the order in which they lie in the
    /// map.
    pub closed spec fn spec_entries(&self) -> Seq<PearlEntry<P>> {
        self.pearls@
    }

    /// The position of the value that the handle with identifier `raw` opens.
    pub closed spec fn spec_position(&self, raw: u64) -> int {
        self.indices@[raw] as int
    }

    /// Whether an insert can take place: a freed index waits to be used
    /// again, or a further index still fits in a handle.
    pub closed spec fn spec_has_room(&self) -> bool {
        self.indices.spec_has_room()
    }

    /// How often a value has been removed under the index `index`.
    pub closed spec fn spec_removals(&self, index: int) -> nat {
        self.indices.spec_removals(index)
    }

    /// The number of indices that handles of this map have used so far.
    pub closed spec fn spec_slots(&self) -> nat {
        self.indices.spec_slots()
    }

    /// The invariant of the map: each handle leads to the position at which
    /// it lies with its value.
    pub closed spec fn wf(&self) -> bool {
        &&& self.indices.wf()
        &&& self.indices@.dom().len() == self.pearls@.len()
        &&& forall|i: int|
            0 <= i < self.pearls@.len() ==> {
                &&& self.indices@.dom().contains(#[trigger] self.pearls@[i].handle@)
                &&& self.indices@[self.pearls@[i].handle@] == i
            }
        &&& forall|raw: u64| #[trigger]
            self.indices@.dom().contains(raw) ==> {
                &&& self.indices@[raw] < self.pearls@.len()
                &&& self.pearls@[self.indices@[raw] as int].handle@ == raw
            }
    }

    /// How the view and the order of the entries belong together.
    pub proof fn lemma_order(&self)
        requires
            self.wf(),
        ensures
            self@.dom().finite(),
            self.spec_entries().len() == self@.dom().len(),
            forall|i: int|
                0 <= i < self.spec_entries().len() ==> {
                    &&& self@.dom().contains((#[trigger] self.spec_entries()[i]).handle@)
                    &&& self@[self.spec_entries()[i].handle@] == self.spec_entries()[i].pearl
                    &&& self.spec_position(self.spec_entries()[i].handle@) == i
                },
            forall|raw: u64| #[trigger]
                self@.dom().contains(raw) ==> {
                    &&& 0 <= self.spec_position(raw) < self.spec_entries().len()
                    &&& self.spec_entries()[self.spec_position(raw)].handle@ == raw
                    &&& index_of(raw) < self.spec_slots()
                },
    {
        self.indices.lemma_len();
        assert(self@.dom() =~= self.indices@.dom());
        assert forall|raw: u64| #[trigger] self@.dom().contains(raw) implies index_of(raw)
            < self.spec_slots() by {
            self.indices.lemma_live_handle(raw);
        }
    }

    /// A map with fewer values than a handle has indices has room for one
    /// more.
    pub proof fn lemma_room(&self)
        requires
            self.wf(),
        ensures
            self@.dom().finite(),
            self@.dom().len() <= u32::MAX ==> self.spec_has_room(),
    {
        self.indices.lemma_room();
        assert(self@.dom() =~= self.indices@.dom());
    }

    /// A removed handle stays shut. Once the index of a handle that opened
    /// a value has seen a removal, the handle opens nothing, whatever was
    /// put in since, until the generation under that index has gone round
    /// all its values.
    pub proof fn lemma_removed_handle_stays_out(then: &Self, now: &Self, handle: Handle<P>)
        requires
            then.wf(),
            now.wf(),
            then@.dom().contains(handle@),
            then.spec_removals(index_of(handle@) as int) < now.spec_removals(
                index_of(handle@) as int,
            ) < then.spec_removals(index_of(handle@) as int) + 0x1_0000,
        ensures
            !now@.dom().contains(handle@),
    {
        let link: Handle<usize> = Handle::<usize>::spec_from_raw(handle@);
        Handle::<usize>::lemma_spec_from_raw(handle@);
        SparseHandleMap::<usize>::lemma_removed_handle_stays_out(&then.indices, &now.indices, link);
    }

    /// An empty map.
    pub fn new() -> (map: Self)
        ensures
            map.wf(),
            map@ == Map::<u64, P>::empty(),
            map.spec_entries() == Seq::<PearlEntry<P>>::empty(),
            map.spec_has_room(),
    {
        let map = PearlMap { indices: SparseHandleMap::new(), pearls: Vec::new() };
        assert(map@ =~= Map::<u64, P>::empty());
        map
    }

    /// The number of values in the map.
    pub fn len(&self) -> (len: usize)
        requires
            self.wf(),
        ensures
            len == self@.dom().len(),
            len == self.spec_entries().len(),
    {
        proof {
            self.lemma_order();
        }
        self.pearls.len()
    }

    /// Whether the map holds no value.
    pub fn is_empty(&self) -> (empty: bool)
        requires
            self.wf(),
        ensures
            empty == (self@.dom().len() == 0),
            empty == (self@ == Map::<u64, P>::empty()),
    {
        proof {
            self.lemma_order();
            if self@.dom().len() == 0 {
                assert(self@ =~= Map::<u64, P>::empty());
            }
        }
        self.pearls.len() == 0
    }

    /// Whether an insert can take place.
    pub fn has_room(&self) -> (room: bool)
        requires
            self.wf(),
        ensures
            room == self.spec_has_room(),
    {
        self.indices.has_room()
    }

    /// Whether `handle` opens a value of this map.
    pub fn contains(&self, handle: Handle<P>) -> (found: bool)
        requires
            self.wf(),
        ensures
            found == self@.dom().contains(handle@),
    {
        self.indices.contains(handle.into_type())
    }

    /// The position of the value that `handle` opens, or `None` if it opens
    /// nothing here.
    pub fn get_index(&self, handle: Handle<P>) -> (position: Option<usize>)
        requires
            self.wf(),
        ensures
            position == (if self@.dom().contains(handle@) {
                Some(self.spec_position(handle@) as usize)
            } else {
                None
            }),
            position is Some ==> position.unwrap() < self.spec_entries().len(),
            position is Some ==> position.unwrap() as int == self.spec_position(handle@),
    {
        match self.indices.get(handle.into_type()) {
            Some(position) => Some(*position),
            None => None,
        }
    }

    /// The value that `handle` opens, or `None` if it opens nothing here.
    pub fn get(&self, handle: Handle<P>) -> (value: Option<&P>)
        requires
            self.wf(),
        ensures
            value == (if self@.dom().contains(handle@) {
                Some(&self@[handle@])
            } else {
                None
            }),
    {
        match self.get_index(handle) {
            Some(position) => Some(&self.pearls[position].pearl),
            None => None,
        }
    }

    /// The value that `handle` opens, for changing it in place, or `None`
    /// if it opens nothing here. Only that value can change.
    pub fn get_mut(&mut self, handle: Handle<P>) -> (value: Option<&mut P>)
        requires
            old(self).wf(),
        ensures
            value is Some <==> old(self)@.dom().contains(handle@),
            match value {
                Some(r) => {
                    &&& *r == old(self)@[handle@]
                    &&& final(self)@ == old(self)@.insert(handle@, *final(r))
                    &&& final(self).wf()
                    &&& final(self).spec_has_room() == old(self).spec_has_room()
                    &&& final(self).spec_slots() == old(self).spec_slots()
                    &&& final(self).spec_entries() == old(self).spec_entries().update(
                        old(self).spec_position(handle@),
                        PearlEntry {
                            handle: old(self).spec_entries()[old(self).spec_position(
                                handle@,
                            )].handle,
                            pearl: *final(r),
                        },
                    )
                    &&& forall|i: int| #[trigger]
                        final(self).spec_removals(i) == old(self).spec_removals(i)
                },
                None => *final(self) == *old(self),
            },
    {
        let ghost before = *self;
        let position: usize = match self.get_index(handle) {
            Some(position) => position,
            None => {
                return None;
            },
        };
        let entry = &mut self.pearls[position];
        let value = &mut entry.pearl;
        proof {
            let after = after_borrow(*self);
            assert(after.pearls@[position as int].handle == before.pearls@[position as int].handle);
            assert(after@ =~= before@.insert(handle@, *final(value))) by {
                assert forall|r: u64| #[trigger]
                    before.indices@.dom().contains(r) && r != handle@ implies after@[r]
                    == before@[r] by {
                    assert(before.pearls@[before.indices@[r] as int].handle@ == r);
                }
            }
            assert forall|i: int| 0 <= i < after.pearls@.len() implies {
                &&& after.indices@.dom().contains(#[trigger] after.pearls@[i].handle@)
                &&& after.indices@[after.pearls@[i].handle@] == i
            } by {
                assert(after.pearls@[i].handle == before.pearls@[i].handle);
            }
            assert forall|raw: u64| #[trigger] after.indices@.dom().contains(raw) implies {
                &&& after.indices@[raw] < after.pearls@.len()
                &&& after.pearls@[after.indices@[raw] as int].handle@ == raw
            } by {
                assert(after.pearls@[before.indices@[raw] as int].handle
                    == before.pearls@[before.indices@[raw] as int].handle);
            }
            assert(after.spec_entries() =~= before.spec_entries().update(
                before.spec_position(handle@),
                PearlEntry {
                    handle: before.spec_entries()[before.spec_position(handle@)].handle,
                    pearl: *final(value),
                },
            ));
        }
        Some(value)
    }

    /// Puts `pearl` at the end of the map and returns the handle that opens
    /// it. No other handle is touched.
    pub fn insert(&mut self, pearl: P) -> (handle: Handle<P>)
        requires
            old(self).wf(),
            old(self).spec_has_room(),
        ensures
            final(self).wf(),
            !old(self)@.dom().contains(handle@),
            final(self)@ == old(self)@.insert(handle@, pearl),
            final(self)@.dom().finite(),
            final(self)@.dom().len() == old(self)@.dom().len() + 1,
            final(self)@.dom().len() <= u32::MAX ==> final(self).spec_has_room(),
            final(self).spec_entries().len() == old(self).spec_entries().len() + 1,
            final(self).spec_entries().last().handle@ == handle@,
            final(self).spec_entries().last().pearl == pearl,
            final(self).spec_entries().drop_last() == old(self).spec_entries(),
            final(self).spec_slots() >= old(self).spec_slots(),
            forall|i: int|
                0 <= i < old(self).spec_slots() ==> #[trigger] final(self).spec_removals(i) == old(
                    self,
                ).spec_removals(i),
    {
        let ghost before = *self;
        let position: usize = self.pearls.len();
        let link = self.indices.insert(position);
        self.pearls.push(PearlEntry { handle: link, pearl });
        let handle: Handle<P> = link.into_type();
        proof {
            let raw = handle@;
            before.indices.lemma_len();
            assert(self@ =~= before@.insert(raw, pearl)) by {
                assert forall|r: u64| #[trigger] before.indices@.dom().contains(r) implies self@[r]
                    == before@[r] by {
                    assert(self.indices@[r] == before.indices@[r]);
                }
            }
            assert(self.spec_entries().drop_last() =~= before.spec_entries());
            assert(before@.dom() =~= before.indices@.dom());
            assert(self@.dom() =~= self.indices@.dom());
            assert forall|i: int| 0 <= i < self.pearls@.len() implies {
                &&& self.indices@.dom().contains(#[trigger] self.pearls@[i].handle@)
                &&& self.indices@[self.pearls@[i].handle@] == i
            } by {
                if i < before.pearls@.len() {
                    assert(self.pearls@[i] == before.pearls@[i]);
                }
            }
            assert forall|r: u64| #[trigger] self.indices@.dom().contains(r) implies {
                &&& self.indices@[r] < self.pearls@.len()
                &&& self.pearls@[self.indices@[r] as int].handle@ == r
            } by {
                if r != raw {
                    assert(before.indices@.dom().contains(r));
                    assert(self.pearls@[before.indices@[r] as int] == before.pearls@[
                        before.indices@[r] as int
                    ]);
                }
            }
        }
        handle
    }

    /// The entry that lies last in the map, or `None` if the map is empty.
    pub fn last(&self) -> (entry: Option<&PearlEntry<P>>)
        ensures
            entry == (if self.spec_entries().len() > 0 {
                Some(&self.spec_entries().last())
            } else {
                None
            }),
    {
        let count: usize = self.pearls.len();
        if count > 0 {
            Some(&self.pearls[count - 1])
        } else {
            None
        }
    }

    /// The value at position `index` with its handle, the value for
    /// changing it in place, or `None` past the end. Walking the positions
    /// from the first to the last reaches every value once. Only that value
    /// can change.
    pub fn iter_mut(&mut self, index: usize) -> (entry: Option<(Handle<P>, &mut P)>)
        requires
            old(self).wf(),
        ensures
            entry is Some <==> index < old(self).spec_entries().len(),
            match entry {
                Some((handle, r)) => {
                    &&& handle@ == old(self).spec_entries()[index as int].handle@
                    &&& old(self).spec_position(handle@) == index
                    &&& *r == old(self).spec_entries()[index as int].pearl
                    &&& final(self)@ == old(self)@.insert(handle@, *final(r))
                    &&& final(self).wf()
                    &&& final(self).spec_entries() == old(self).spec_entries().update(
                        index as int,
                        PearlEntry {
                            handle: old(self).spec_entries()[index as int].handle,
                            pearl: *final(r),
                        },
                    )
                    &&& final(self).spec_has_room() == old(self).spec_has_room()
                    &&& final(self).spec_slots() == old(self).spec_slots()
                },
                None => *final(self) == *old(self),
            },
    {
        if index >= self.pearls.len() {
            return None;
        }
        let handle: Handle<P> = self.pearls[index].handle.into_type();
        proof {
            self.lemma_order();
        }
        match self.get_mut(handle) {
            Some(value) => Some((handle, value)),
            None => None,
        }
    }

    /// Removes the value that `handle` opens and returns it, or returns
    /// `None` and changes nothing if it opens nothing here.
    ///
    /// The last entry of the map moves into the position of the removed
    /// one; its handle, like every other, keeps opening its own value.
    pub fn remove(&mut self, handle: Handle<P>) -> (value: Option<P>)
        requires
            old(self).wf(),
        ensures
            final(self).wf(),
            value == (if old(self)@.dom().contains(handle@) {
                Some(old(self)@[handle@])
            } else {
                None
            }),
            final(self)@ == old(self)@.remove(handle@),
            !final(self)@.dom().contains(handle@),
            final(self).spec_slots() == old(self).spec_slots(),
            old(self).spec_has_room() ==> final(self).spec_has_room(),
            !old(self)@.dom().contains(handle@) ==> {
                &&& final(self).spec_entries() == old(self).spec_entries()
                &&& forall|i: int|
                    0 <= i < old(self).spec_slots() ==> #[trigger] final(self).spec_removals(i)
                        == old(self).spec_removals(i)
            },
            old(self)@.dom().contains(handle@) ==> {
                &&& final(self).spec_has_room()
                &&& final(self).spec_entries() == swap_removed(
                    old(self).spec_entries(),
                    old(self).spec_position(handle@),
                )
                &&& final(self).spec_removals(index_of(handle@) as int) == old(self).spec_removals(
                    index_of(handle@) as int,
                ) + 1
                &&& forall|i: int|
                    0 <= i < old(self).spec_slots() && i != index_of(handle@)
                        ==> #[trigger] final(self).spec_removals(i) == old(self).spec_removals(i)
            },
    {
        let ghost before = *self;
        let position: usize = match self.indices.remove(handle.into_type()) {
            Some(position) => position,
            None => {
                assert(self@ =~= before@.remove(handle@));
                assert(self.indices@ =~= before.indices@);
                return None;
            },
        };
        let ghost mid = self.indices;
        proof {
            before.indices.lemma_len();
            before.indices.lemma_live_handle(handle@);
            mid.lemma_len();
        }
        let taken = self.pearls.swap_remove(position);
        if position < self.pearls.len() {
            let moved = self.pearls[position].handle;
            assert(moved == before.pearls@[before.pearls@.len() - 1].handle);
            assert(before.indices@.dom().contains(moved@));
            match self.indices.get_mut(moved) {
                Some(slot) => {
                    *slot = position;
                },
                None => {},
            }
        }
        proof {
            let raw = handle@;
            let last = before.pearls@.len() - 1;
            assert(self.indices@.dom() =~= before.indices@.dom().remove(raw));
            assert forall|i: int| 0 <= i < self.pearls@.len() implies {
                &&& self.indices@.dom().contains(#[trigger] self.pearls@[i].handle@)
                &&& self.indices@[self.pearls@[i].handle@] == i
            } by {
                if i == position {
                    assert(self.pearls@[i] == before.pearls@[last]);
                } else {
                    assert(self.pearls@[i] == before.pearls@[i]);
                    assert(before.indices@[before.pearls@[i].handle@] == i);
                    assert(before.indices@[before.pearls@[last].handle@] == last);
                }
            }
            assert forall|r: u64| #[trigger] self.indices@.dom().contains(r) implies {
                &&& self.indices@[r] < self.pearls@.len()
                &&& self.pearls@[self.indices@[r] as int].handle@ == r
                &&& self.pearls@[self.indices@[r] as int].pearl
                    == before.pearls@[before.indices@[r] as int].pearl
            } by {
                assert(before.indices@.dom().contains(r));
                assert(before.pearls@[before.indices@[r] as int].handle@ == r);
                assert(before.pearls@[position as int].handle@ == raw);
                if r != before.pearls@[last].handle@ {
                    assert(self.indices@[r] == before.indices@[r]);
                    assert(before.indices@[r] != last);
                }
            }
            assert(self@ =~= before@.remove(raw));
        }
        Some(taken.pearl)
    }

    /// The entries, in the order in which they lie in the map.
    pub fn iter(&self) -> (entries: &[PearlEntry<P>])
        ensures
            entries@ == self.spec_entries(),
    {
        self.pearls.as_slice()
    }
}

} // verus!
