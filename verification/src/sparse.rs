//! A handle map that leaves a hole where an entry was removed and fills the
//! holes again, oldest first, on later inserts.

use crate::handle::{generation_of, index_of, lemma_pack_parts, pack, tag_of, Handle};
use std::collections::VecDeque;
use vstd::prelude::*;

verus! {

/// One slot of a sparse map: the handle that currently opens the slot, and
/// the value if the slot is in use.
pub struct SparseEntry<T> {
    handle: Handle<T>,
    data: Option<T>,
}

impl<T> SparseEntry<T> {
    /// The handle that opens this slot.
    pub closed spec fn spec_handle(&self) -> Handle<T> {
        self.handle
    }

    /// The value in this slot, if any.
    pub closed spec fn spec_data(&self) -> Option<T> {
        self.data
    }

    /// A slot in use, opened by `handle` and holding `data`.
    pub fn new(handle: Handle<T>, data: T) -> (entry: Self)
        ensures
            entry.spec_handle() == handle,
            entry.spec_data() == Some(data),
    {
        SparseEntry { handle, data: Some(data) }
    }
}

/// The generation after `generation`, going back to zero after the last.
pub open spec fn next_generation(generation: u16) -> u16 {
    if generation == u16::MAX {
        0u16
    } else {
        (generation + 1) as u16
    }
}

/// Storage that hands out a [`Handle`] for each value put in.
///
/// A removed entry leaves its slot empty. The slot's generation goes up by
/// one, so the handle that opened it no longer does, and the slot waits in a
/// queue to be filled by a later insert.
pub struct SparseHandleMap<T> {
    id: u16,
    values: Vec<SparseEntry<T>>,
    open_slots: VecDeque<usize>,
    removals: Ghost<Seq<nat>>,
}

impl<T> View for SparseHandleMap<T> {
    type V = Map<u64, T>;

    /// The values in the map, each under the identifier of its handle.
    closed spec fn view(&self) -> Map<u64, T> {
        Map::new(|raw: u64| self.live(raw), |raw: u64| self.values@[index_of(raw) as int].data.unwrap())
    }
}

impl<T> SparseHandleMap<T> {
    spec fn live(&self, raw: u64) -> bool {
        &&& index_of(raw) < self.values@.len()
        &&& self.values@[index_of(raw) as int].handle@ == raw
        &&& self.values@[index_of(raw) as int].data is Some
    }

    /// The tag that every handle of this map carries.
    pub closed spec fn spec_id(&self) -> u16 {
        self.id
    }

    /// The number of slots, in use or empty.
    pub closed spec fn spec_slots(&self) -> nat {
        self.values@.len()
    }

    /// The empty slots, in the order in which inserts will fill them.
    pub closed spec fn spec_free(&self) -> Seq<usize> {
        self.open_slots@
    }

    /// The identifier of the handle that currently opens slot `index`.
    pub closed spec fn spec_slot_handle(&self, index: int) -> u64 {
        self.values@[index].handle@
    }

    /// How often an entry has been removed from slot `index`.
    pub closed spec fn spec_removals(&self, index: int) -> nat {
        self.removals@[index]
    }

    /// The invariant of the map: slot `i` is opened by a handle with index
    /// `i`, this map's tag and a generation that counts the slot's removals;
    /// the queue of empty slots lists each empty slot once and nothing else.
    pub closed spec fn wf(&self) -> bool {
        &&& self.values@.len() <= 0x1_0000_0000
        &&& self.removals@.len() == self.values@.len()
        &&& forall|i: int|
            0 <= i < self.values@.len() ==> {
                &&& index_of(#[trigger] self.values@[i].handle@) == i
                &&& tag_of(self.values@[i].handle@) == self.id
                &&& generation_of(self.values@[i].handle@) == self.removals@[i] % 0x1_0000
            }
        &&& forall|j: int|
            0 <= j < self.open_slots@.len() ==> {
                &&& (#[trigger] self.open_slots@[j]) < self.values@.len()
                &&& self.values@[self.open_slots@[j] as int].data is None
            }
        &&& forall|j: int, k: int|
            0 <= j < k < self.open_slots@.len() ==> #[trigger] self.open_slots@[j]
                != #[trigger] self.open_slots@[k]
        &&& self@.dom().finite()
        &&& self@.dom().len() + self.open_slots@.len() == self.values@.len()
    }

    /// The identifier of the handle that the insert after `count` further
    /// inserts returns, if nothing is removed in between.
    pub open spec fn spec_predict(&self, count: nat) -> u64 {
        if count < self.spec_free().len() {
            self.spec_slot_handle(self.spec_free()[count as int] as int)
        } else {
            pack((self.spec_slots() + count - self.spec_free().len()) as u32, 0, self.spec_id())
        }
    }

    /// Whether `count` further inserts can be predicted: with them the map
    /// still holds no more entries than a handle has indices.
    pub open spec fn spec_can_predict(&self, count: nat) -> bool {
        self@.dom().len() + count <= u32::MAX
    }

    /// Whether an insert can take place: an empty slot waits, or the index of
    /// a further slot still fits in a handle.
    pub open spec fn spec_has_room(&self) -> bool {
        self.spec_free().len() > 0 || self.spec_slots() <= u32::MAX
    }

    /// Whether `other` has the same tag, slots, handles, removal counts and
    /// queue of empty slots as this map.
    pub open spec fn same_layout(&self, other: &Self) -> bool {
        &&& self.spec_id() == other.spec_id()
        &&& self.spec_slots() == other.spec_slots()
        &&& self.spec_free() == other.spec_free()
        &&& forall|i: int|
            0 <= i < self.spec_slots() ==> #[trigger] self.spec_slot_handle(i)
                == other.spec_slot_handle(i)
        &&& forall|i: int|
            0 <= i < self.spec_slots() ==> #[trigger] self.spec_removals(i) == other.spec_removals(
                i,
            )
    }

    /// What the invariant says of the handles in the map: each has this
    /// map's tag, the index of a slot, the generation that the slot's
    /// removals give, and opens that slot.
    pub proof fn lemma_live_handle(&self, raw: u64)
        requires
            self.wf(),
            self@.dom().contains(raw),
        ensures
            index_of(raw) < self.spec_slots(),
            tag_of(raw) == self.spec_id(),
            generation_of(raw) == self.spec_removals(index_of(raw) as int) % 0x1_0000,
            self.spec_slot_handle(index_of(raw) as int) == raw,
            forall|j: int| 0 <= j < self.spec_free().len() ==> self.spec_free()[j] != index_of(raw),
    {
    }

    /// The map holds finitely many entries, and each slot is either in use
    /// or waits in the queue of empty slots.
    pub proof fn lemma_len(&self)
        requires
            self.wf(),
        ensures
            self@.dom().finite(),
            self@.dom().len() + self.spec_free().len() == self.spec_slots(),
            self.spec_slots() <= 0x1_0000_0000,
    {
    }

    /// A removed handle stays shut. Once the slot of a handle that opened
    /// an entry has seen a removal, the handle opens nothing, whatever was
    /// put into the slot since, until the slot's generation has gone round
    /// all its values.
    pub proof fn lemma_removed_handle_stays_out(then: &Self, now: &Self, handle: Handle<T>)
        requires
            then.wf(),
            now.wf(),
            then@.dom().contains(handle@),
            then.spec_removals(index_of(handle@) as int) < now.spec_removals(
                index_of(handle@) as int,
            ) < then.spec_removals(index_of(handle@) as int) + 0x1_0000,
        ensures
            !now@.dom().contains(handle@),
    {
        let a = then.removals@[index_of(handle@) as int] as int;
        let b = now.removals@[index_of(handle@) as int] as int;
        if now@.dom().contains(handle@) {
            assert(a % 0x1_0000 == b % 0x1_0000);
            assert(false) by (nonlinear_arith)
                requires
                    0 <= a < b < a + 0x1_0000,
                    a % 0x1_0000 == b % 0x1_0000,
            ;
        }
    }

    /// What was put in is what comes out: in a map that came from `before`
    /// by putting `data` in under `handle`, looking up `handle` finds `data`,
    /// and every other handle finds what it found before.
    pub proof fn lemma_insert_then_get(before: &Self, after: &Self, handle: Handle<T>, data: T)
        requires
            after@ == before@.insert(handle@, data),
        ensures
            after@.dom().contains(handle@),
            after@[handle@] == data,
            forall|other: u64|
                other != handle@ ==> {
                    &&& after@.dom().contains(other) == before@.dom().contains(other)
                    &&& before@.dom().contains(other) ==> after@[other] == before@[other]
                },
    {
    }

    /// A map with fewer entries than a handle has indices has room for one
    /// more.
    pub proof fn lemma_room(&self)
        requires
            self.wf(),
        ensures
            self@.dom().finite(),
            self@.dom().len() <= u32::MAX ==> self.spec_has_room(),
    {
    }

    /// An empty map whose handles carry the tag `id`.
    pub fn with_id(id: u16) -> (map: Self)
        ensures
            map.wf(),
            map@ == Map::<u64, T>::empty(),
            map.spec_id() == id,
            map.spec_slots() == 0,
            map.spec_free() == Seq::<usize>::empty(),
            map.spec_has_room(),
    {
        let map = SparseHandleMap {
            id,
            values: Vec::new(),
            open_slots: VecDeque::new(),
            removals: Ghost(Seq::empty()),
        };
        assert(map@ =~= Map::<u64, T>::empty());
        map
    }

    /// An empty map whose handles carry the tag zero.
    pub fn new() -> (map: Self)
        ensures
            map.wf(),
            map@ == Map::<u64, T>::empty(),
            map.spec_id() == 0,
            map.spec_slots() == 0,
            map.spec_free() == Seq::<usize>::empty(),
            map.spec_has_room(),
    {
        Self::with_id(0)
    }

    /// The tag that every handle of this map carries.
    pub fn id(&self) -> (id: u16)
        ensures
            id == self.spec_id(),
    {
        self.id
    }

    /// The number of entries in the map.
    pub fn len(&self) -> (len: usize)
        requires
            self.wf(),
        ensures
            len == self@.dom().len(),
            len == self.spec_slots() - self.spec_free().len(),
    {
        self.values.len() - self.open_slots.len()
    }

    /// Whether the map holds no entry.
    pub fn is_empty(&self) -> (empty: bool)
        requires
            self.wf(),
        ensures
            empty == (self@.dom().len() == 0),
            empty == (self@ == Map::<u64, T>::empty()),
    {
        proof {
            if self@.dom().len() == 0 {
                assert(self@ =~= Map::<u64, T>::empty());
            }
        }
        self.values.len() == self.open_slots.len()
    }

    /// The handle that the insert after `count` further inserts returns.
    ///
    /// The prediction holds for a chain of inserts; a removal in between
    /// changes the queue of empty slots and with it what is predicted.
    pub fn predict_handle(&self, count: usize) -> (handle: Handle<T>)
        requires
            self.wf(),
            self.spec_can_predict(count as nat),
        ensures
            handle@ == self.spec_predict(count as nat),
    {
        if count < self.open_slots.len() {
            let index: usize = self.open_slots[count];
            self.values[index].handle
        } else {
            let new_indices: usize = count - self.open_slots.len();
            let index: usize = self.values.len() + new_indices;
            Handle::from_raw_parts(index as u32, 0, self.id)
        }
    }

    /// Whether `count` further inserts can be predicted.
    pub fn can_predict(&self, count: usize) -> (can: bool)
        requires
            self.wf(),
        ensures
            can == self.spec_can_predict(count as nat),
    {
        let held: usize = self.len();
        count <= 0xffff_ffff && held <= 0xffff_ffff && held as u64 + count as u64 <= 0xffff_ffff
    }

    /// Whether an insert can take place.
    pub fn has_room(&self) -> (room: bool)
        requires
            self.wf(),
        ensures
            room == self.spec_has_room(),
    {
        self.open_slots.len() > 0 || self.values.len() as u64 <= 0xffff_ffff
    }

    /// Puts `data` into the map and returns the handle that opens it: the
    /// oldest empty slot is filled if there is one, else a slot is added.
    pub fn insert(&mut self, data: T) -> (handle: Handle<T>)
        requires
            old(self).wf(),
            old(self).spec_has_room(),
        ensures
            final(self).wf(),
            handle@ == old(self).spec_predict(0),
            !old(self)@.dom().contains(handle@),
            final(self)@ == old(self)@.insert(handle@, data),
            final(self)@.dom().finite(),
            final(self)@.dom().len() == old(self)@.dom().len() + 1,
            final(self)@.dom().len() <= u32::MAX ==> final(self).spec_has_room(),
            final(self).spec_id() == old(self).spec_id(),
            tag_of(handle@) == old(self).spec_id(),
            old(self).spec_free().len() > 0 ==> {
                &&& final(self).spec_slots() == old(self).spec_slots()
                &&& final(self).spec_free() == old(self).spec_free().subrange(
                    1,
                    old(self).spec_free().len() as int,
                )
                &&& index_of(handle@) == old(self).spec_free()[0]
            },
            old(self).spec_free().len() == 0 ==> {
                &&& final(self).spec_slots() == old(self).spec_slots() + 1
                &&& final(self).spec_free() == old(self).spec_free()
                &&& index_of(handle@) == old(self).spec_slots()
                &&& final(self).spec_removals(old(self).spec_slots() as int) == 0
            },
            final(self).spec_slot_handle(index_of(handle@) as int) == handle@,
            forall|i: int|
                0 <= i < old(self).spec_slots() ==> #[trigger] final(self).spec_slot_handle(i)
                    == old(self).spec_slot_handle(i),
            forall|i: int|
                0 <= i < old(self).spec_slots() ==> #[trigger] final(self).spec_removals(i) == old(
                    self,
                ).spec_removals(i),
            forall|n: nat| #[trigger] final(self).spec_predict(n) == old(self).spec_predict(n + 1),
    {
        let ghost before = *self;
        match self.open_slots.pop_front() {
            Some(index) => {
                assert(index == before.open_slots@[0]);
                let entry = &mut self.values[index];
                entry.data = Some(data);
                let handle = entry.handle;
                proof {
                    let raw = handle@;
                    assert(self.values@[index as int].handle@ == before.values@[index as int].handle@);
                    assert(index_of(raw) == index);
                    assert(!before.live(raw));
                    assert forall|r: u64| self.live(r) <==> (r == raw || before.live(r)) by {
                        if index_of(r) < before.values@.len() && index_of(r) != index {
                            assert(self.values@[index_of(r) as int] == before.values@[index_of(
                                r,
                            ) as int]);
                        }
                    }
                    assert(self@ =~= before@.insert(raw, data));
                    assert forall|j: int| 0 <= j < self.open_slots@.len() implies {
                        &&& (#[trigger] self.open_slots@[j]) < self.values@.len()
                        &&& self.values@[self.open_slots@[j] as int].data is None
                    } by {
                        assert(self.open_slots@[j] == before.open_slots@[j + 1]);
                        assert(before.open_slots@[0] != before.open_slots@[j + 1]);
                    }
                    assert forall|j: int, k: int| 0 <= j < k < self.open_slots@.len() implies
                        #[trigger] self.open_slots@[j] != #[trigger] self.open_slots@[k] by {
                        assert(self.open_slots@[j] == before.open_slots@[j + 1]);
                        assert(self.open_slots@[k] == before.open_slots@[k + 1]);
                    }
                    assert forall|n: nat| #[trigger]
                        self.spec_predict(n) == before.spec_predict(n + 1) by {
                        if n < self.open_slots@.len() {
                            assert(self.open_slots@[n as int] == before.open_slots@[n as int + 1]);
                        }
                    }
                }
                handle
            },
            None => {
                let index: usize = self.values.len();
                let handle = Handle::from_raw_parts(index as u32, 0, self.id);
                self.values.push(SparseEntry::new(handle, data));
                proof {
                    self.removals@ = self.removals@.push(0);
                    let raw = handle@;
                    lemma_pack_parts(index as u32, 0, self.id);
                    assert(!before.live(raw));
                    assert forall|r: u64| self.live(r) <==> (r == raw || before.live(r)) by {
                        if index_of(r) < before.values@.len() {
                            assert(self.values@[index_of(r) as int] == before.values@[index_of(
                                r,
                            ) as int]);
                        }
                    }
                    assert(self@ =~= before@.insert(raw, data));
                    assert forall|i: int| 0 <= i < self.values@.len() implies {
                        &&& index_of(#[trigger] self.values@[i].handle@) == i
                        &&& tag_of(self.values@[i].handle@) == self.id
                        &&& generation_of(self.values@[i].handle@) == self.removals@[i] % 0x1_0000
                    } by {
                        if i < before.values@.len() {
                            assert(self.values@[i] == before.values@[i]);
                        }
                    }
                }
                handle
            },
        }
    }

    /// Whether `handle` opens an entry of this map.
    pub fn contains(&self, handle: Handle<T>) -> (found: bool)
        requires
            self.wf(),
        ensures
            found == self@.dom().contains(handle@),
    {
        let index: usize = handle.uindex();
        if index < self.values.len() {
            let entry = &self.values[index];
            entry.handle == handle && entry.data.is_some()
        } else {
            false
        }
    }

    /// The value that `handle` opens, or `None` if it opens nothing here.
    pub fn get(&self, handle: Handle<T>) -> (value: Option<&T>)
        requires
            self.wf(),
        ensures
            value == (if self@.dom().contains(handle@) {
                Some(&self@[handle@])
            } else {
                None
            }),
    {
        let index: usize = handle.uindex();
        if index < self.values.len() {
            let entry = &self.values[index];
            if entry.handle == handle {
                entry.data.as_ref()
            } else {
                None
            }
        } else {
            None
        }
    }

    /// The value that `handle` opens, for changing it in place, or `None`
    /// if it opens nothing here. Only that value can change.
    pub fn get_mut(&mut self, handle: Handle<T>) -> (value: Option<&mut T>)
        requires
            old(self).wf(),
        ensures
            value is Some <==> old(self)@.dom().contains(handle@),
            match value {
                Some(r) => {
                    &&& *r == old(self)@[handle@]
                    &&& final(self)@ == old(self)@.insert(handle@, *final(r))
                    &&& final(self).wf()
                    &&& final(self).same_layout(old(self))
                },
                None => *final(self) == *old(self),
            },
    {
        let ghost before = *self;
        let index: usize = handle.uindex();
        if index >= self.values.len() {
            return None;
        }
        if !(self.values[index].handle == handle) || self.values[index].data.is_none() {
            return None;
        }
        let entry = &mut self.values[index];
        let value = entry.data.as_mut();
        proof {
            if value is Some {
                let after = after_borrow(*self);
                let raw = handle@;
                assert(after.values@[index as int].handle == before.values@[index as int].handle);
                assert forall|r: u64| after.live(r) <==> before.live(r) by {
                    if index_of(r) < before.values@.len() && index_of(r) != index {
                        assert(after.values@[index_of(r) as int] == before.values@[index_of(
                            r,
                        ) as int]);
                    }
                }
                assert(after@.dom() =~= before@.dom());
                assert(after@ =~= before@.insert(raw, *final(value.unwrap())));
                assert forall|j: int| 0 <= j < after.open_slots@.len() implies {
                    &&& (#[trigger] after.open_slots@[j]) < after.values@.len()
                    &&& after.values@[after.open_slots@[j] as int].data is None
                } by {
                    assert(before.open_slots@[j] != index);
                }
            }
        }
        value
    }

    /// The entries of the map with their handles, in the order of their
    /// slots.
    pub fn iter(&self) -> (entries: Vec<(Handle<T>, &T)>)
        requires
            self.wf(),
        ensures
            forall|k: int|
                0 <= k < entries@.len() ==> {
                    &&& self@.dom().contains((#[trigger] entries@[k]).0@)
                    &&& *entries@[k].1 == self@[entries@[k].0@]
                },
            forall|j: int, k: int|
                0 <= j < k < entries@.len() ==> index_of((#[trigger] entries@[j]).0@) < index_of(
                    (#[trigger] entries@[k]).0@,
                ),
            forall|raw: u64|
                self@.dom().contains(raw) ==> exists|k: int|
                    0 <= k < entries@.len() && (#[trigger] entries@[k]).0@ == raw,
    {
        let mut entries: Vec<(Handle<T>, &T)> = Vec::new();
        let mut i: usize = 0;
        while i < self.values.len()
            invariant
                self.wf(),
                i <= self.values@.len(),
                forall|k: int|
                    0 <= k < entries@.len() ==> {
                        &&& self@.dom().contains((#[trigger] entries@[k]).0@)
                        &&& *entries@[k].1 == self@[entries@[k].0@]
                        &&& index_of(entries@[k].0@) < i
                    },
                forall|j: int, k: int|
                    0 <= j < k < entries@.len() ==> index_of((#[trigger] entries@[j]).0@)
                        < index_of((#[trigger] entries@[k]).0@),
                forall|raw: u64|
                    self@.dom().contains(raw) && index_of(raw) < i ==> exists|k: int|
                        0 <= k < entries@.len() && (#[trigger] entries@[k]).0@ == raw,
            decreases self.values@.len() - i,
        {
            let entry = &self.values[i];
            let ghost before = entries@;
            match entry.data.as_ref() {
                Some(data) => {
                    entries.push((entry.handle, data));
                    proof {
                        let last = before.len() as int;
                        assert(entries@[last].0@ == entry.handle@);
                        assert(self.live(entry.handle@));
                        assert forall|raw: u64|
                            self@.dom().contains(raw) && index_of(raw) < i + 1 implies exists|
                            k: int,
                        |
                            0 <= k < entries@.len() && (#[trigger] entries@[k]).0@ == raw by {
                            if index_of(raw) < i {
                                let k = choose|k: int|
                                    0 <= k < before.len() && (#[trigger] before[k]).0@ == raw;
                                assert(entries@[k] == before[k]);
                            } else {
                                assert(entries@[last].0@ == raw);
                            }
                        }
                        assert forall|j: int, k: int| 0 <= j < k < entries@.len() implies index_of(
                            (#[trigger] entries@[j]).0@,
                        ) < index_of((#[trigger] entries@[k]).0@) by {
                            assert(entries@[j] == before[j]);
                            if k < last {
                                assert(entries@[k] == before[k]);
                            }
                        }
                    }
                },
                None => {
                    proof {
                        assert forall|raw: u64|
                            self@.dom().contains(raw) && index_of(raw) < i + 1 implies exists|
                            k: int,
                        |
                            0 <= k < entries@.len() && (#[trigger] entries@[k]).0@ == raw by {
                            assert(index_of(raw) != i);
                        }
                    }
                },
            }
            i += 1;
        }
        entries
    }

    /// The number of slots, in use or empty.
    pub fn slots(&self) -> (slots: usize)
        ensures
            slots == self.spec_slots(),
    {
        self.values.len()
    }

    /// The entry in slot `index` with its handle, the value for changing it
    /// in place, or `None` if the slot is empty or `index` is past the last
    /// slot. Walking the slots from the first to the last reaches every
    /// entry once. Only that value can change.
    pub fn iter_mut(&mut self, index: usize) -> (entry: Option<(Handle<T>, &mut T)>)
        requires
            old(self).wf(),
        ensures
            entry is Some <==> index < old(self).spec_slots() && old(self)@.dom().contains(
                old(self).spec_slot_handle(index as int),
            ),
            match entry {
                Some((handle, r)) => {
                    &&& handle@ == old(self).spec_slot_handle(index as int)
                    &&& index_of(handle@) == index
                    &&& *r == old(self)@[handle@]
                    &&& final(self)@ == old(self)@.insert(handle@, *final(r))
                    &&& final(self).wf()
                    &&& final(self).same_layout(old(self))
                },
                None => *final(self) == *old(self),
            },
    {
        if index >= self.values.len() {
            return None;
        }
        let handle = self.values[index].handle;
        match self.get_mut(handle) {
            Some(value) => Some((handle, value)),
            None => None,
        }
    }

    /// Removes the entry that `handle` opens and returns its value, or
    /// returns `None` and changes nothing if it opens nothing here.
    ///
    /// The slot's generation goes up by one and the slot joins the end of
    /// the queue of empty slots.
    pub fn remove(&mut self, handle: Handle<T>) -> (value: Option<T>)
        requires
            old(self).wf(),
        ensures
            final(self).wf(),
            value == (if old(self)@.dom().contains(handle@) {
                Some(old(self)@[handle@])
            } else {
                None
            }),
            final(self)@ == old(self)@.remove(handle@),
            !final(self)@.dom().contains(handle@),
            final(self).spec_id() == old(self).spec_id(),
            final(self).spec_slots() == old(self).spec_slots(),
            !old(self)@.dom().contains(handle@) ==> final(self).same_layout(old(self)),
            old(self)@.dom().contains(handle@) ==> {
                &&& final(self).spec_free() == old(self).spec_free().push(
                    index_of(handle@) as usize,
                )
                &&& final(self).spec_slot_handle(index_of(handle@) as int) == pack(
                    index_of(handle@),
                    next_generation(generation_of(handle@)),
                    tag_of(handle@),
                )
                &&& final(self).spec_removals(index_of(handle@) as int) == old(self).spec_removals(
                    index_of(handle@) as int,
                ) + 1
                &&& forall|i: int|
                    0 <= i < old(self).spec_slots() && i != index_of(handle@)
                        ==> #[trigger] final(self).spec_slot_handle(i) == old(
                        self,
                    ).spec_slot_handle(i)
                &&& forall|i: int|
                    0 <= i < old(self).spec_slots() && i != index_of(handle@)
                        ==> #[trigger] final(self).spec_removals(i) == old(self).spec_removals(i)
            },
    {
        let ghost before = *self;
        let slot: usize = handle.uindex();
        if slot >= self.values.len() {
            assert(self@ =~= before@.remove(handle@));
            return None;
        }
        if !(self.values[slot].handle == handle) || self.values[slot].data.is_none() {
            assert(self@ =~= before@.remove(handle@));
            return None;
        }
        let (index, gen, meta) = handle.into_raw_parts();
        let bumped: u16 = if gen == u16::MAX {
            0
        } else {
            gen + 1
        };
        let entry = &mut self.values[slot];
        entry.handle = Handle::from_raw_parts(index, bumped, meta);
        let data = entry.data.take();
        self.open_slots.push_back(slot);
        proof {
            self.removals@ = self.removals@.update(slot as int, self.removals@[slot as int] + 1);
            let raw = handle@;
            lemma_pack_parts(index, bumped, meta);
            assert(before.live(raw));
            assert(before.removals@[slot as int] % 0x1_0000 == gen);
            assert((before.removals@[slot as int] + 1) % 0x1_0000 == bumped as int) by {
                let r = before.removals@[slot as int] as int;
                assert((r + 1) % 0x1_0000 == (if r % 0x1_0000 == 0xffff {
                    0
                } else {
                    r % 0x1_0000 + 1
                })) by (nonlinear_arith)
                    requires
                        r >= 0,
                ;
            }
            assert forall|r: u64| self.live(r) <==> (r != raw && before.live(r)) by {
                if index_of(r) < before.values@.len() && index_of(r) != slot {
                    assert(self.values@[index_of(r) as int] == before.values@[index_of(r) as int]);
                }
            }
            assert(self@ =~= before@.remove(raw));
            assert forall|i: int| 0 <= i < self.values@.len() implies {
                &&& index_of(#[trigger] self.values@[i].handle@) == i
                &&& tag_of(self.values@[i].handle@) == self.id
                &&& generation_of(self.values@[i].handle@) == self.removals@[i] % 0x1_0000
            } by {
                if i != slot {
                    assert(self.values@[i] == before.values@[i]);
                }
            }
            assert forall|j: int| 0 <= j < self.open_slots@.len() implies {
                &&& (#[trigger] self.open_slots@[j]) < self.values@.len()
                &&& self.values@[self.open_slots@[j] as int].data is None
            } by {
                if j < before.open_slots@.len() {
                    assert(self.open_slots@[j] == before.open_slots@[j]);
                    assert(before.open_slots@[j] != slot);
                }
            }
            assert forall|j: int, k: int| 0 <= j < k < self.open_slots@.len() implies
                #[trigger] self.open_slots@[j] != #[trigger] self.open_slots@[k] by {
                assert(self.open_slots@[j] == before.open_slots@[j]);
                if k < before.open_slots@.len() {
                    assert(self.open_slots@[k] == before.open_slots@[k]);
                }
            }
        }
        data
    }
}

} // verus!
