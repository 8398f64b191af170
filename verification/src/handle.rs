//! Opaque identifiers that pack a slot index, a generation counter and a
//! tag into a single 64-bit integer.

use core::marker::PhantomData;
use vstd::prelude::*;

verus! {

/// Number of distinct values of the 32-bit index part.
pub const INDEX_SPAN: u64 = 0x1_0000_0000;

/// Number of distinct values of the 16-bit generation and tag parts.
pub const PART_SPAN: u64 = 0x1_0000;

/// The integer that holds `index` in its low 32 bits, `generation` in the
/// next 16 and `tag` in the top 16.
pub open spec fn pack(index: u32, generation: u16, tag: u16) -> u64 {
    (index as int + generation as int * 0x1_0000_0000 + tag as int * 0x1_0000_0000_0000) as u64
}

/// The index part of a packed identifier.
pub open spec fn index_of(raw: u64) -> u32 {
    (raw as int % 0x1_0000_0000) as u32
}

/// The generation part of a packed identifier.
pub open spec fn generation_of(raw: u64) -> u16 {
    ((raw as int / 0x1_0000_0000) % 0x1_0000) as u16
}

/// The tag part of a packed identifier.
pub open spec fn tag_of(raw: u64) -> u16 {
    (raw as int / 0x1_0000_0000_0000) as u16
}

/// Packing three parts and taking them out again gives the same parts.
pub proof fn lemma_pack_parts(index: u32, generation: u16, tag: u16)
    ensures
        index_of(pack(index, generation, tag)) == index,
        generation_of(pack(index, generation, tag)) == generation,
        tag_of(pack(index, generation, tag)) == tag,
        pack(index, generation, tag) == index as int + generation as int * 0x1_0000_0000
            + tag as int * 0x1_0000_0000_0000,
{
    let i = index as int;
    let g = generation as int;
    let t = tag as int;
    assert(i + g * 0x1_0000_0000 + t * 0x1_0000_0000_0000 <= u64::MAX) by (nonlinear_arith)
        requires
            0 <= i <= 0xffff_ffff,
            0 <= g <= 0xffff,
            0 <= t <= 0xffff,
    ;
    let raw = i + g * 0x1_0000_0000 + t * 0x1_0000_0000_0000;
    assert(raw % 0x1_0000_0000 == i && raw / 0x1_0000_0000 == g + t * 0x1_0000) by (nonlinear_arith)
        requires
            raw == i + g * 0x1_0000_0000 + t * 0x1_0000_0000_0000,
            0 <= i <= 0xffff_ffff,
            0 <= g <= 0xffff,
            0 <= t <= 0xffff,
    ;
    assert((g + t * 0x1_0000) % 0x1_0000 == g && raw / 0x1_0000_0000_0000 == t) by (nonlinear_arith)
        requires
            raw == i + g * 0x1_0000_0000 + t * 0x1_0000_0000_0000,
            0 <= i <= 0xffff_ffff,
            0 <= g <= 0xffff,
            0 <= t <= 0xffff,
    ;
}

/// Every identifier is the packing of its own three parts.
pub proof fn lemma_parts_pack(raw: u64)
    ensures
        pack(index_of(raw), generation_of(raw), tag_of(raw)) == raw,
{
    let r = raw as int;
    assert(r == r % 0x1_0000_0000 + ((r / 0x1_0000_0000) % 0x1_0000) * 0x1_0000_0000 + (r
        / 0x1_0000_0000_0000) * 0x1_0000_0000_0000 && 0 <= r / 0x1_0000_0000_0000 <= 0xffff)
        by (nonlinear_arith)
        requires
            0 <= r <= 0xffff_ffff_ffff_ffff,
    ;
}

/// Two identifiers with the same three parts are the same identifier.
pub proof fn lemma_parts_determine(a: u64, b: u64)
    requires
        index_of(a) == index_of(b),
        generation_of(a) == generation_of(b),
        tag_of(a) == tag_of(b),
    ensures
        a == b,
{
    lemma_parts_pack(a);
    lemma_parts_pack(b);
}

/// An identifier of one entry of a handle map, tied to the type `T` of what
/// the entry stores. The tie is for the reader of a signature only: a handle
/// can be turned into one for any other type with `into_type`.
#[derive(Debug, Hash)]
pub struct Handle<T> {
    raw: u64,
    _type: PhantomData<T>,
}

impl<T> View for Handle<T> {
    type V = u64;

    /// The packed identifier.
    closed spec fn view(&self) -> u64 {
        self.raw
    }
}

impl<T> Copy for Handle<T> {

}

impl<T> Clone for Handle<T> {
    fn clone(&self) -> (r: Self)
        ensures
            r == *self,
    {
        Handle { raw: self.raw, _type: PhantomData }
    }
}

impl<T> Eq for Handle<T> {

}

impl<T> PartialEq for Handle<T> {
    fn eq(&self, other: &Self) -> (r: bool) {
        self.raw == other.raw
    }
}

impl<T> vstd::std_specs::cmp::PartialEqSpecImpl for Handle<T> {
    open spec fn obeys_eq_spec() -> bool {
        true
    }

    open spec fn eq_spec(&self, other: &Self) -> bool {
        self@ == other@
    }
}

impl<T> Handle<T> {
    /// Handles are equal exactly when their packed identifiers are.
    pub proof fn lemma_view_injective(self, other: Self)
        ensures
            self@ == other@ <==> self == other,
    {
    }

    /// The index part.
    pub open spec fn spec_index(self) -> u32 {
        index_of(self@)
    }

    /// The generation part.
    pub open spec fn spec_generation(self) -> u16 {
        generation_of(self@)
    }

    /// The tag part.
    pub open spec fn spec_metadata(self) -> u16 {
        tag_of(self@)
    }

    /// The handle whose packed identifier is `raw`.
    pub closed spec fn spec_from_raw(raw: u64) -> Self {
        Handle { raw, _type: PhantomData }
    }

    /// `spec_from_raw` gives the handle with the identifier asked for.
    pub broadcast proof fn lemma_spec_from_raw(raw: u64)
        ensures
            (#[trigger] Self::spec_from_raw(raw))@ == raw,
    {
    }

    /// The handle whose packed identifier is `raw`.
    pub fn from_raw(raw: u64) -> (h: Self)
        ensures
            h@ == raw,
    {
        Handle { raw, _type: PhantomData }
    }

    /// The handle with the given index, generation and tag.
    pub fn from_raw_parts(index: u32, gen: u16, meta: u16) -> (h: Self)
        ensures
            h@ == pack(index, gen, meta),
            h.spec_index() == index,
            h.spec_generation() == gen,
            h.spec_metadata() == meta,
    {
        proof {
            lemma_pack_parts(index, gen, meta);
        }
        let low: u64 = index as u64;
        let mid: u64 = (gen as u64) << 32;
        let high: u64 = (meta as u64) << 48;
        assert(mid == (gen as u64) * 0x1_0000_0000) by (bit_vector)
            requires
                mid == (gen as u64) << 32,
        ;
        assert(high == ((meta as u64) * 0x1_0000_0000_0000) as u64) by (bit_vector)
            requires
                high == (meta as u64) << 48,
        ;
        let id: u64 = low + mid + high;
        Self::from_raw(id)
    }

    /// The index, generation and tag of this handle, in that order.
    pub fn into_raw_parts(self) -> (parts: (u32, u16, u16))
        ensures
            parts.0 == self.spec_index(),
            parts.1 == self.spec_generation(),
            parts.2 == self.spec_metadata(),
            pack(parts.0, parts.1, parts.2) == self@,
    {
        proof {
            lemma_parts_pack(self@);
        }
        (self.index(), self.generation(), self.metadata())
    }

    /// The same identifier as a handle for another type.
    pub fn into_type<U>(self) -> (h: Handle<U>)
        ensures
            h@ == self@,
    {
        Handle::from_raw(self.raw)
    }

    /// The packed identifier.
    pub fn id(&self) -> (raw: u64)
        ensures
            raw == self@,
    {
        self.raw
    }

    /// The index part.
    pub fn index(&self) -> (index: u32)
        ensures
            index == self.spec_index(),
    {
        let raw: u64 = self.raw;
        let index: u32 = raw as u32;
        assert(index == raw % 0x1_0000_0000) by (bit_vector)
            requires
                index == raw as u32,
        ;
        index
    }

    /// The index part, as a position in a vector.
    pub fn uindex(&self) -> (index: usize)
        ensures
            index == self.spec_index(),
    {
        self.index() as usize
    }

    /// The generation part.
    pub fn generation(&self) -> (generation: u16)
        ensures
            generation == self.spec_generation(),
    {
        let raw: u64 = self.raw;
        let generation: u16 = (raw >> 32) as u16;
        assert(generation == (raw / 0x1_0000_0000) % 0x1_0000) by (bit_vector)
            requires
                generation == (raw >> 32) as u16,
        ;
        generation
    }

    /// The tag part.
    pub fn metadata(&self) -> (meta: u16)
        ensures
            meta == self.spec_metadata(),
    {
        let raw: u64 = self.raw;
        let meta: u16 = (raw >> 48) as u16;
        assert(meta == raw / 0x1_0000_0000_0000) by (bit_vector)
            requires
                meta == (raw >> 48) as u16,
        ;
        meta
    }
}

} // verus!
