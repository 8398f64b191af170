//! Allocation of the 16-bit tags that tell handle maps apart.

use vstd::prelude::*;

verus! {

/// A counter that hands out tags for handle maps. Whoever owns several maps
/// owns one counter and draws each map's tag from it, so that two maps of
/// one owner share a tag only after the counter has gone round all values.
pub struct HandleMapId {
    next: u16,
}

impl HandleMapId {
    /// The tag that the next call of `generate` returns.
    pub closed spec fn spec_next(&self) -> u16 {
        self.next
    }

    /// A counter that starts at tag zero.
    pub fn new() -> (ids: Self)
        ensures
            ids.spec_next() == 0,
    {
        HandleMapId { next: 0 }
    }

    /// A counter that starts at the tag `next`.
    pub fn starting_at(next: u16) -> (ids: Self)
        ensures
            ids.spec_next() == next,
    {
        HandleMapId { next }
    }

    /// Returns the current tag and moves on to the next one, going back to
    /// zero after the last.
    pub fn generate(&mut self) -> (tag: u16)
        ensures
            tag == old(self).spec_next(),
            final(self).spec_next() == (if old(self).spec_next() == u16::MAX {
                0u16
            } else {
                (old(self).spec_next() + 1) as u16
            }),
    {
        let tag: u16 = self.next;
        self.next = if tag == u16::MAX {
            0
        } else {
            tag + 1
        };
        tag
    }
}

} // verus!
