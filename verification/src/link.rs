//! Names of the values in a registry.

use crate::handle::Handle;
use vstd::prelude::*;

verus! {

/// The name of one value in a [`crate::world::World`]: the handle of the
/// store that holds the value, and the handle of the value in that store.
///
/// The type `P` says what kind of value the link is meant for. It is for
/// the reader of a signature only: a link can be turned into one for any
/// other type with `into_type`.
#[derive(Debug, Hash)]
pub struct Link<P> {
    map_handle: Handle<()>,
    pearl_handle: Handle<P>,
}

impl<P> View for Link<P> {
    type V = (u64, u64);

    /// The identifier of the store's handle, then that of the value's.
    closed spec fn view(&self) -> (u64, u64) {
        (self.map_handle@, self.pearl_handle@)
    }
}

impl<P> Copy for Link<P> {

}

impl<P> Clone for Link<P> {
    fn clone(&self) -> (r: Self)
        ensures
            r == *self,
    {
        Link { map_handle: self.map_handle, pearl_handle: self.pearl_handle }
    }
}

impl<P> Eq for Link<P> {

}

impl<P> PartialEq for Link<P> {
    fn eq(&self, other: &Self) -> (r: bool) {
        self.map_handle == other.map_handle && self.pearl_handle == other.pearl_handle
    }
}

impl<P> vstd::std_specs::cmp::PartialEqSpecImpl for Link<P> {
    open spec fn obeys_eq_spec() -> bool {
        true
    }

    open spec fn eq_spec(&self, other: &Self) -> bool {
        self@ == other@
    }
}

impl<P> Link<P> {
    /// Links are equal exactly when both their identifiers are.
    pub proof fn lemma_view_injective(self, other: Self)
        ensures
            self@ == other@ <==> self == other,
    {
        self.map_handle.lemma_view_injective(other.map_handle);
        self.pearl_handle.lemma_view_injective(other.pearl_handle);
    }

    /// The link made of a store's handle and a value's handle.
    pub fn new(map_handle: Handle<()>, pearl_handle: Handle<P>) -> (link: Self)
        ensures
            link@ == (map_handle@, pearl_handle@),
    {
        Link { map_handle, pearl_handle }
    }

    /// The handle of the store that the link leads to.
    pub fn map_handle(&self) -> (handle: Handle<()>)
        ensures
            handle@ == self@.0,
    {
        self.map_handle
    }

    /// The handle of the value in its store.
    pub fn pearl_handle(&self) -> (handle: Handle<P>)
        ensures
            handle@ == self@.1,
    {
        self.pearl_handle
    }

    /// The identifier of the value's handle.
    pub fn id(&self) -> (raw: u64)
        ensures
            raw == self@.1,
    {
        self.pearl_handle.id()
    }

    /// The same link for another type.
    pub fn into_type<P2>(&self) -> (link: Link<P2>)
        ensures
            link@ == self@,
    {
        Link { map_handle: self.map_handle, pearl_handle: self.pearl_handle.into_type() }
    }

    /// The link with the identifier `v1` for the store and `v2` for the
    /// value.
    pub fn from_raw(v1: u64, v2: u64) -> (link: Self)
        ensures
            link@ == (v1, v2),
    {
        Link { map_handle: Handle::from_raw(v1), pearl_handle: Handle::from_raw(v2) }
    }
}

} // verus!
