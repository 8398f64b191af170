//! A handle map that keeps its values next to each other: removing one
//! moves the last value into the gap.

use crate::handle::{index_of, tag_of, Handle};
use crate::seqs::swap_removed;
use crate::sparse::SparseHandleMap;
use vstd::prelude::*;

verus! {

/// Storage that hands out a [`Handle`] for each value put in and keeps the
/// values packed.
///
/// A sparse map leads from each handle to the position of its value. When a
/// value is removed, the last value moves into its position and the entry
/// of the moved value's handle is set to the new position, so every other
/// handle keeps opening its own value.
pub struct DenseHandleMap<T> {
    id: u16,
    link_map: SparseHandleMap<usize>,
    back_link: Vec<Handle<T>>,
    values: Vec<T>,
}

impl<T> View for DenseHandleMap<T> {
    type V = Map<u64, T>;

    /// The values in the map, each under the identifier of its handle.
    closed spec fn view(&self) -> Map<u64, T> {
        Map::new(
            |raw: u64| self.link_map@.dom().contains(raw),
            |raw: u64| self.values@[self.link_map@[raw] as int],
        )
    }
}

impl<T> DenseHandleMap<T> {
    /// The tag that every handle of this map carries.
    pub closed spec fn spec_id(&self) -> u16 {
        self.id
    }

    /// The identifiers of the handles, in the order of their values.
    pub closed spec fn spec_handles(&self) -> Seq<u64> {
        Seq::new(self.back_link@.len(), |i: int| self.back_link@[i]@)
    }

    /// The values, in the order in which they lie in the map.
    pub closed spec fn spec_values(&self) -> Seq<T> {
        self.values@
    }

    /// The position of the value that the handle with identifier `raw` opens.
    pub closed spec fn spec_position(&self, raw: u64) -> int {
        self.link_map@[raw] as int
    }

    /// The identifier of the handle that the insert after `count` further
    /// inserts returns, if nothing is removed in between.
    pub closed spec fn spec_predict(&self, count: nat) -> u64 {
        self.link_map.spec_predict(count)
    }

    /// Whether an insert can take place: a freed index waits to be used
    /// again, or a further index still fits in a handle.
    pub closed spec fn spec_has_room(&self) -> bool {
        self.link_map.spec_has_room()
    }

    /// Whether `count` further inserts can be predicted: with them the map
    /// still holds no more values than a handle has indices.
    pub open spec fn spec_can_predict(&self, count: nat) -> bool {
        self@.dom().len() + count <= u32::MAX
    }

    /// How often a value has been removed under the index `index`.
    pub closed spec fn spec_removals(&self, index: int) -> nat {
        self.link_map.spec_removals(index)
    }

    /// The number of indices that handles of this map have used so far.
    pub closed spec fn spec_slots(&self) -> nat {
        self.link_map.spec_slots()
    }

    /// The invariant of the map: handles and values lie in the same order,
    /// and each handle leads to the position at which it lies.
    pub closed spec fn wf(&self) -> bool {
        &&& self.link_map.wf()
        &&& self.link_map.spec_id() == self.id
        &&& self.back_link@.len() == self.values@.len()
        &&& self.link_map@.dom().len() == self.values@.len()
        &&& forall|i: int|
            0 <= i < self.back_link@.len() ==> {
                &&& self.link_map@.dom().contains(#[trigger] self.back_link@[i]@)
                &&& self.link_map@[self.back_link@[i]@] == i
            }
        &&& forall|raw: u64| #[trigger]
            self.link_map@.dom().contains(raw) ==> {
                &&& self.link_map@[raw] < self.back_link@.len()
                &&& self.back_link@[self.link_map@[raw] as int]@ == raw
            }
    }

    /// How the view, the order of the handles and the order of the values
    /// belong together.
    pub proof fn lemma_order(&self)
        requires
            self.wf(),
        ensures
            self@.dom().finite(),
            self.spec_handles().len() == self@.dom().len(),
            self.spec_values().len() == self@.dom().len(),
            forall|i: int|
                0 <= i < self.spec_handles().len() ==> {
                    &&& self@.dom().contains(#[trigger] self.spec_handles()[i])
                    &&& self@[self.spec_handles()[i]] == self.spec_values()[i]
                    &&& self.spec_position(self.spec_handles()[i]) == i
                },
            forall|raw: u64| #[trigger]
                self@.dom().contains(raw) ==> {
                    &&& 0 <= self.spec_position(raw) < self.spec_handles().len()
                    &&& self.spec_handles()[self.spec_position(raw)] == raw
                    &&& tag_of(raw) == self.spec_id()
                    &&& index_of(raw) < self.spec_slots()
                },
            forall|i: int, j: int|
                0 <= i < j < self.spec_handles().len() ==> self.spec_handles()[i]
                    != self.spec_handles()[j],
    {
        self.link_map.lemma_len();
        assert(self@.dom() =~= self.link_map@.dom());
        assert forall|raw: u64| #[trigger] self@.dom().contains(raw) implies {
            &&& tag_of(raw) == self.spec_id()
            &&& index_of(raw) < self.spec_slots()
        } by {
            self.link_map.lemma_live_handle(raw);
        }
    }

    /// A map with fewer values than a handle has indices has room for one
    /// more.
    pub proof fn lemma_room(&self)
        requires
            self.wf(),
        ensures
            self@.dom().finite(),
            self@.dom().len() <= u32::MAX ==> self.spec_has_room(),
    {
        self.link_map.lemma_room();
        assert(self@.dom() =~= self.link_map@.dom());
    }

    /// A removed handle stays shut. Once the index of a handle that opened
    /// a value has seen a removal, the handle opens nothing, whatever was
    /// put in since, until the generation under that index has gone round
    /// all its values.
    pub proof fn lemma_removed_handle_stays_out(then: &Self, now: &Self, handle: Handle<T>)
        requires
            then.wf(),
            now.wf(),
            then@.dom().contains(handle@),
            then.spec_removals(index_of(handle@) as int) < now.spec_removals(
                index_of(handle@) as int,
            ) < then.spec_removals(index_of(handle@) as int) + 0x1_0000,
        ensures
            !now@.dom().contains(handle@),
    {
        let link: Handle<usize> = Handle::<usize>::spec_from_raw(handle@);
        Handle::<usize>::lemma_spec_from_raw(handle@);
        SparseHandleMap::<usize>::lemma_removed_handle_stays_out(
            &then.link_map,
            &now.link_map,
            link,
        );
    }

    /// What was put in is what comes out: in a map that came from `before`
    /// by putting `value` in under `handle`, looking up `handle` finds
    /// `value`, and every other handle finds what it found before.
    pub proof fn lemma_insert_then_get(before: &Self, after: &Self, handle: Handle<T>, value: T)
        requires
            after@ == before@.insert(handle@, value),
        ensures
            after@.dom().contains(handle@),
            after@[handle@] == value,
            forall|other: u64|
                other != handle@ ==> {
                    &&& after@.dom().contains(other) == before@.dom().contains(other)
                    &&& before@.dom().contains(other) ==> after@[other] == before@[other]
                },
    {
    }

    /// An empty map whose handles carry the tag `id`.
    pub fn with_id(id: u16) -> (map: Self)
        ensures
            map.wf(),
            map@ == Map::<u64, T>::empty(),
            map.spec_id() == id,
            map.spec_handles() == Seq::<u64>::empty(),
            map.spec_values() == Seq::<T>::empty(),
            map.spec_has_room(),
            map.spec_slots() == 0,
    {
        let map = DenseHandleMap {
            id,
            link_map: SparseHandleMap::with_id(id),
            back_link: Vec::new(),
            values: Vec::new(),
        };
        assert(map@ =~= Map::<u64, T>::empty());
        assert(map.spec_handles() =~= Seq::<u64>::empty());
        map
    }

    /// An empty map whose handles carry the tag zero.
    pub fn new() -> (map: Self)
        ensures
            map.wf(),
            map@ == Map::<u64, T>::empty(),
            map.spec_id() == 0,
            map.spec_handles() == Seq::<u64>::empty(),
            map.spec_values() == Seq::<T>::empty(),
            map.spec_has_room(),
            map.spec_slots() == 0,
    {
        Self::with_id(0)
    }

    /// The tag that every handle of this map carries.
    pub fn id(&self) -> (id: u16)
        ensures
            id == self.spec_id(),
    {
        self.id
    }

    /// The number of values in the map.
    pub fn len(&self) -> (len: usize)
        requires
            self.wf(),
        ensures
            len == self@.dom().len(),
            len == self.spec_values().len(),
    {
        proof {
            self.lemma_order();
        }
        self.values.len()
    }

    /// Whether the map holds no value.
    pub fn is_empty(&self) -> (empty: bool)
        requires
            self.wf(),
        ensures
            empty == (self@.dom().len() == 0),
            empty == (self@ == Map::<u64, T>::empty()),
    {
        proof {
            self.lemma_order();
            if self@.dom().len() == 0 {
                assert(self@ =~= Map::<u64, T>::empty());
            }
        }
        self.values.len() == 0
    }

    /// The handle that the insert after `count` further inserts returns.
    ///
    /// The prediction holds for a chain of inserts; a removal in between
    /// changes which index is used next and with it what is predicted.
    pub fn predict_handle(&self, count: usize) -> (handle: Handle<T>)
        requires
            self.wf(),
            self.spec_can_predict(count as nat),
        ensures
            handle@ == self.spec_predict(count as nat),
    {
        assert(self@.dom() =~= self.link_map@.dom());
        self.link_map.predict_handle(count).into_type()
    }

    /// Whether `count` further inserts can be predicted.
    pub fn can_predict(&self, count: usize) -> (can: bool)
        requires
            self.wf(),
        ensures
            can == self.spec_can_predict(count as nat),
    {
        assert(self@.dom() =~= self.link_map@.dom());
        self.link_map.can_predict(count)
    }

    /// Whether an insert can take place.
    pub fn has_room(&self) -> (room: bool)
        requires
            self.wf(),
        ensures
            room == self.spec_has_room(),
    {
        self.link_map.has_room()
    }

    /// Puts `value` at the end of the map and returns the handle that opens
    /// it. No other handle is touched.
    pub fn insert(&mut self, value: T) -> (handle: Handle<T>)
        requires
            old(self).wf(),
            old(self).spec_has_room(),
        ensures
            final(self).wf(),
            handle@ == old(self).spec_predict(0),
            !old(self)@.dom().contains(handle@),
            final(self)@ == old(self)@.insert(handle@, value),
            final(self)@.dom().finite(),
            final(self)@.dom().len() == old(self)@.dom().len() + 1,
            final(self)@.dom().len() <= u32::MAX ==> final(self).spec_has_room(),
            final(self).spec_id() == old(self).spec_id(),
            tag_of(handle@) == old(self).spec_id(),
            final(self).spec_handles() == old(self).spec_handles().push(handle@),
            final(self).spec_values() == old(self).spec_values().push(value),
            final(self).spec_slots() >= old(self).spec_slots(),
            final(self).spec_slots() <= old(self).spec_slots() + 1,
            forall|i: int|
                0 <= i < old(self).spec_slots() ==> #[trigger] final(self).spec_removals(i) == old(
                    self,
                ).spec_removals(i),
            forall|n: nat| #[trigger] final(self).spec_predict(n) == old(self).spec_predict(n + 1),
    {
        let ghost before = *self;
        let position: usize = self.values.len();
        let link = self.link_map.insert(position);
        let handle: Handle<T> = link.into_type();
        self.back_link.push(handle);
        self.values.push(value);
        proof {
            let raw = handle@;
            before.link_map.lemma_len();
            assert(self@ =~= before@.insert(raw, value)) by {
                assert forall|r: u64| #[trigger] before.link_map@.dom().contains(r) implies self@[r]
                    == before@[r] by {
                    assert(self.link_map@[r] == before.link_map@[r]);
                }
            }
            assert(self.spec_handles() =~= before.spec_handles().push(raw));
            assert(before@.dom() =~= before.link_map@.dom());
            assert(self@.dom() =~= self.link_map@.dom());
            assert forall|i: int| 0 <= i < self.back_link@.len() implies {
                &&& self.link_map@.dom().contains(#[trigger] self.back_link@[i]@)
                &&& self.link_map@[self.back_link@[i]@] == i
            } by {
                if i < before.back_link@.len() {
                    assert(self.back_link@[i] == before.back_link@[i]);
                }
            }
            assert forall|r: u64| #[trigger] self.link_map@.dom().contains(r) implies {
                &&& self.link_map@[r] < self.back_link@.len()
                &&& self.back_link@[self.link_map@[r] as int]@ == r
            } by {
                if r != raw {
                    assert(before.link_map@.dom().contains(r));
                    assert(self.back_link@[before.link_map@[r] as int] == before.back_link@[
                        before.link_map@[r] as int
                    ]);
                }
            }
        }
        handle
    }

    /// Whether `handle` opens a value of this map.
    pub fn contains(&self, handle: Handle<T>) -> (found: bool)
        requires
            self.wf(),
        ensures
            found == self@.dom().contains(handle@),
    {
        self.link_map.contains(handle.into_type())
    }

    /// The value that `handle` opens, or `None` if it opens nothing here.
    pub fn get(&self, handle: Handle<T>) -> (value: Option<&T>)
        requires
            self.wf(),
        ensures
            value == (if self@.dom().contains(handle@) {
                Some(&self@[handle@])
            } else {
                None
            }),
    {
        match self.link_map.get(handle.into_type()) {
            Some(position) => Some(&self.values[*position]),
            None => None,
        }
    }

    /// The position of the value that `handle` opens, or `None` if it opens
    /// nothing here.
    pub fn get_index(&self, handle: Handle<T>) -> (position: Option<usize>)
        requires
            self.wf(),
        ensures
            position == (if self@.dom().contains(handle@) {
                Some(self.spec_position(handle@) as usize)
            } else {
                None
            }),
            position is Some ==> position.unwrap() < self.spec_values().len(),
            position is Some ==> position.unwrap() as int == self.spec_position(handle@),
    {
        match self.link_map.get(handle.into_type()) {
            Some(position) => Some(*position),
            None => None,
        }
    }

    /// The value that `handle` opens, for changing it in place, or `None`
    /// if it opens nothing here. Only that value can change.
    pub fn get_mut(&mut self, handle: Handle<T>) -> (value: Option<&mut T>)
        requires
            old(self).wf(),
        ensures
            value is Some <==> old(self)@.dom().contains(handle@),
            match value {
                Some(r) => {
                    &&& *r == old(self)@[handle@]
                    &&& final(self)@ == old(self)@.insert(handle@, *final(r))
                    &&& final(self).wf()
                    &&& final(self).spec_id() == old(self).spec_id()
                    &&& final(self).spec_handles() == old(self).spec_handles()
                    &&& final(self).spec_values() == old(self).spec_values().update(
                        old(self).spec_position(handle@),
                        *final(r),
                    )
                    &&& final(self).spec_has_room() == old(self).spec_has_room()
                    &&& final(self).spec_slots() == old(self).spec_slots()
                    &&& forall|n: nat| #[trigger]
                        final(self).spec_predict(n) == old(self).spec_predict(n)
                    &&& forall|i: int| #[trigger]
                        final(self).spec_removals(i) == old(self).spec_removals(i)
                    &&& forall|raw: u64| #[trigger]
                        final(self).spec_position(raw) == old(self).spec_position(raw)
                },
                None => *final(self) == *old(self),
            },
    {
        let ghost before = *self;
        let position: usize = match self.link_map.get(handle.into_type()) {
            Some(position) => *position,
            None => {
                return None;
            },
        };
        let value = &mut self.values[position];
        proof {
            let after = after_borrow(*self);
            assert(after@ =~= before@.insert(handle@, *final(value))) by {
                assert forall|r: u64| #[trigger]
                    before.link_map@.dom().contains(r) && r != handle@ implies after@[r]
                    == before@[r] by {
                    assert(before.back_link@[before.link_map@[r] as int]@ == r);
                }
            }
        }
        Some(value)
    }

    /// The value at position `index` with its handle, the value for
    /// changing it in place, or `None` past the end. Walking the positions
    /// from the first to the last reaches every value once. Only that value
    /// can change.
    pub fn iter_mut(&mut self, index: usize) -> (entry: Option<(Handle<T>, &mut T)>)
        requires
            old(self).wf(),
        ensures
            entry is Some <==> index < old(self).spec_values().len(),
            match entry {
                Some((handle, r)) => {
                    &&& handle@ == old(self).spec_handles()[index as int]
                    &&& old(self).spec_position(handle@) == index
                    &&& *r == old(self).spec_values()[index as int]
                    &&& final(self)@ == old(self)@.insert(handle@, *final(r))
                    &&& final(self).wf()
                    &&& final(self).spec_id() == old(self).spec_id()
                    &&& final(self).spec_handles() == old(self).spec_handles()
                    &&& final(self).spec_values() == old(self).spec_values().update(
                        index as int,
                        *final(r),
                    )
                    &&& final(self).spec_has_room() == old(self).spec_has_room()
                    &&& final(self).spec_slots() == old(self).spec_slots()
                },
                None => *final(self) == *old(self),
            },
    {
        if index >= self.back_link.len() {
            return None;
        }
        let handle = self.back_link[index];
        proof {
            self.lemma_order();
        }
        match self.get_mut(handle) {
            Some(value) => Some((handle, value)),
            None => None,
        }
    }

    /// Removes the value that `handle` opens and returns it, or returns
    /// `None` and changes nothing if it opens nothing here.
    ///
    /// The last value of the map moves into the position of the removed
    /// one; its handle, like every other, keeps opening its own value.
    pub fn remove(&mut self, handle: Handle<T>) -> (value: Option<T>)
        requires
            old(self).wf(),
        ensures
            final(self).wf(),
            value == (if old(self)@.dom().contains(handle@) {
                Some(old(self)@[handle@])
            } else {
                None
            }),
            final(self)@ == old(self)@.remove(handle@),
            !final(self)@.dom().contains(handle@),
            final(self).spec_id() == old(self).spec_id(),
            final(self).spec_slots() == old(self).spec_slots(),
            old(self).spec_has_room() ==> final(self).spec_has_room(),
            !old(self)@.dom().contains(handle@) ==> {
                &&& final(self).spec_handles() == old(self).spec_handles()
                &&& final(self).spec_values() == old(self).spec_values()
                &&& forall|i: int|
                    0 <= i < old(self).spec_slots() ==> #[trigger] final(self).spec_removals(i)
                        == old(self).spec_removals(i)
            },
            old(self)@.dom().contains(handle@) ==> {
                &&& final(self).spec_has_room()
                &&& final(self).spec_handles() == swap_removed(
                    old(self).spec_handles(),
                    old(self).spec_position(handle@),
                )
                &&& final(self).spec_values() == swap_removed(
                    old(self).spec_values(),
                    old(self).spec_position(handle@),
                )
                &&& final(self).spec_removals(index_of(handle@) as int) == old(self).spec_removals(
                    index_of(handle@) as int,
                ) + 1
                &&& forall|i: int|
                    0 <= i < old(self).spec_slots() && i != index_of(handle@)
                        ==> #[trigger] final(self).spec_removals(i) == old(self).spec_removals(i)
            },
    {
        let ghost before = *self;
        let position: usize = match self.link_map.remove(handle.into_type()) {
            Some(position) => position,
            None => {
                assert(self@ =~= before@.remove(handle@));
                assert(self.link_map@ =~= before.link_map@);
                return None;
            },
        };
        let ghost mid = self.link_map;
        proof {
            before.link_map.lemma_len();
            before.link_map.lemma_live_handle(handle@);
            mid.lemma_len();
        }
        self.back_link.swap_remove(position);
        if position < self.back_link.len() {
            let moved = self.back_link[position];
            assert(moved == before.back_link@[before.back_link@.len() - 1]);
            assert(before.link_map@.dom().contains(moved@));
            match self.link_map.get_mut(moved.into_type()) {
                Some(slot) => {
                    *slot = position;
                },
                None => {},
            }
        }
        let value = self.values.swap_remove(position);
        proof {
            let raw = handle@;
            let last = before.back_link@.len() - 1;
            assert(self.link_map@.dom() =~= before.link_map@.dom().remove(raw));
            assert forall|i: int| 0 <= i < self.back_link@.len() implies {
                &&& self.link_map@.dom().contains(#[trigger] self.back_link@[i]@)
                &&& self.link_map@[self.back_link@[i]@] == i
            } by {
                if i == position {
                    assert(self.back_link@[i] == before.back_link@[last]);
                } else {
                    assert(self.back_link@[i] == before.back_link@[i]);
                    assert(before.link_map@[before.back_link@[i]@] == i);
                    assert(before.link_map@[before.back_link@[last]@] == last);
                }
            }
            assert forall|r: u64| #[trigger] self.link_map@.dom().contains(r) implies {
                &&& self.link_map@[r] < self.back_link@.len()
                &&& self.back_link@[self.link_map@[r] as int]@ == r
            } by {
                assert(before.link_map@.dom().contains(r));
                assert(before.back_link@[before.link_map@[r] as int]@ == r);
                assert(before.back_link@[position as int]@ == raw);
                if r != before.back_link@[last]@ {
                    assert(self.link_map@[r] == before.link_map@[r]);
                    assert(before.link_map@[r] != last);
                }
            }
            assert(self@ =~= before@.remove(raw)) by {
                assert forall|r: u64| #[trigger]
                    self.link_map@.dom().contains(r) implies self.values@[self.link_map@[r] as int]
                    == before.values@[before.link_map@[r] as int] by {
                    assert(before.link_map@.dom().contains(r));
                    assert(before.back_link@[before.link_map@[r] as int]@ == r);
                    assert(before.back_link@[position as int]@ == raw);
                    if r != before.back_link@[last]@ {
                        assert(self.link_map@[r] == before.link_map@[r]);
                        assert(before.link_map@[r] != last);
                    }
                }
            }
            assert(self.spec_handles() =~= swap_removed(
                before.spec_handles(),
                before.spec_position(raw),
            ));
        }
        Some(value)
    }

    /// The handles, in the order of their values.
    pub fn handles(&self) -> (handles: &[Handle<T>])
        requires
            self.wf(),
        ensures
            handles@.len() == self.spec_handles().len(),
            forall|i: int| 0 <= i < handles@.len() ==> (#[trigger] handles@[i])@ == self.spec_handles()[i],
    {
        self.back_link.as_slice()
    }

    /// The values, in the order in which they lie in the map.
    pub fn values(&self) -> (values: &[T])
        ensures
            values@ == self.spec_values(),
    {
        self.values.as_slice()
    }

    /// The values with their handles, in the order in which they lie in the
    /// map.
    pub fn iter(&self) -> (entries: Vec<(Handle<T>, &T)>)
        requires
            self.wf(),
        ensures
            entries@.len() == self.spec_handles().len(),
            forall|i: int|
                0 <= i < entries@.len() ==> {
                    &&& (#[trigger] entries@[i]).0@ == self.spec_handles()[i]
                    &&& *entries@[i].1 == self.spec_values()[i]
                },
    {
        let mut entries: Vec<(Handle<T>, &T)> = Vec::new();
        let mut i: usize = 0;
        while i < self.back_link.len()
            invariant
                self.back_link@.len() == self.values@.len(),
                i <= self.back_link@.len(),
                entries@.len() == i,
                forall|k: int|
                    0 <= k < i ==> {
                        &&& (#[trigger] entries@[k]).0 == self.back_link@[k]
                        &&& *entries@[k].1 == self.values@[k]
                    },
            decreases self.back_link@.len() - i,
        {
            entries.push((self.back_link[i], &self.values[i]));
            i += 1;
        }
        entries
    }

    /// A copy of the handles, in the order of their values.
    pub fn handles_copied(&self) -> (handles: Vec<Handle<T>>)
        requires
            self.wf(),
        ensures
            handles@.len() == self.spec_handles().len(),
            forall|i: int| 0 <= i < handles@.len() ==> (#[trigger] handles@[i])@ == self.spec_handles()[i],
    {
        let mut handles: Vec<Handle<T>> = Vec::new();
        let mut i: usize = 0;
        while i < self.back_link.len()
            invariant
                i <= self.back_link@.len(),
                handles@.len() == i,
                forall|k: int| 0 <= k < i ==> #[trigger] handles@[k] == self.back_link@[k],
            decreases self.back_link@.len() - i,
        {
            handles.push(self.back_link[i]);
            i += 1;
        }
        handles
    }
}

} // verus!
