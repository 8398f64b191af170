//! Insertion-ordered sets of identifiers, kept in `indexmap::IndexSet`.
//!
//! Nothing in this file is proved. Each function below calls one method of
//! `IndexSet` and states what that method's documentation says of it; the
//! rest of the library is verified against these statements.

use crate::seqs::swap_removed;
use indexmap::IndexSet;
use vstd::prelude::*;

verus! {

/// `indexmap::IndexSet`, declared so that it can stand in fields and
/// signatures. Verus sees nothing inside a value of it.
#[verifier::external_type_specification]
#[verifier::external_body]
#[verifier::reject_recursive_types(T)]
#[verifier::reject_recursive_types(S)]
pub struct ExIndexSet<T, S>(IndexSet<T, S>);

/// The identifiers that a set holds, in the order in which they were put
/// in, as far as no removal has moved one.
pub uninterp spec fn set_items(set: IndexSet<u64>) -> Seq<u64>;

/// `IndexSet::new`: a set that holds nothing.
#[verifier::external_body]
pub(crate) fn set_new() -> (set: IndexSet<u64>)
    ensures
        set_items(set) == Seq::<u64>::empty(),
{
    IndexSet::new()
}

/// `IndexSet::len`: the number of identifiers in the set.
#[verifier::external_body]
pub(crate) fn set_len(set: &IndexSet<u64>) -> (len: usize)
    ensures
        len == set_items(*set).len(),
{
    set.len()
}

/// `IndexSet::get_index`: the identifier at position `index` of the order,
/// or `None` past the end.
#[verifier::external_body]
pub(crate) fn set_get_index(set: &IndexSet<u64>, index: usize) -> (value: Option<u64>)
    ensures
        value == (if index < set_items(*set).len() {
            Some(set_items(*set)[index as int])
        } else {
            None
        }),
{
    set.get_index(index).copied()
}

/// `IndexSet::insert`: a value that the set does not hold yet goes to the
/// end of the order and the call returns `true`; for one that it holds the
/// set stays as it is and the call returns `false`.
#[verifier::external_body]
pub(crate) fn set_insert(set: &mut IndexSet<u64>, value: u64) -> (added: bool)
    ensures
        added == !set_items(*old(set)).contains(value),
        set_items(*final(set)) == (if added {
            set_items(*old(set)).push(value)
        } else {
            set_items(*old(set))
        }),
{
    set.insert(value)
}

/// `IndexSet::swap_remove`: a value that the set holds is taken out, the
/// last value of the order moves to its position, and the call returns
/// `true`; for one that it does not hold the set stays as it is and the call
/// returns `false`.
#[verifier::external_body]
pub(crate) fn set_swap_remove(set: &mut IndexSet<u64>, value: u64) -> (removed: bool)
    ensures
        removed == set_items(*old(set)).contains(value),
        set_items(*final(set)) == (if removed {
            swap_removed(set_items(*old(set)), set_items(*old(set)).index_of(value))
        } else {
            set_items(*old(set))
        }),
{
    set.swap_remove(&value)
}

/// `IndexSet::shift_remove`: a value that the set holds is taken out, the
/// values after it move up by one position and keep their order, and the
/// call returns `true`; for one that it does not hold the set stays as it
/// is and the call returns `false`.
#[verifier::external_body]
pub(crate) fn set_shift_remove(set: &mut IndexSet<u64>, value: u64) -> (removed: bool)
    ensures
        removed == set_items(*old(set)).contains(value),
        set_items(*final(set)) == (if removed {
            set_items(*old(set)).remove(set_items(*old(set)).index_of(value))
        } else {
            set_items(*old(set))
        }),
{
    set.shift_remove(&value)
}

/// The pairs of identifiers that a set of links holds, in the order in
/// which they were put in.
pub uninterp spec fn pair_items(set: IndexSet<(u64, u64)>) -> Seq<(u64, u64)>;

/// The sequence without pairs.
pub open spec fn no_pairs() -> Seq<(u64, u64)> {
    Seq::empty()
}

/// `IndexSet::new`, for a set of links: a set that holds nothing.
#[verifier::external_body]
pub(crate) fn pair_new() -> (set: IndexSet<(u64, u64)>)
    ensures
        pair_items(set) == no_pairs(),
{
    IndexSet::new()
}

/// `IndexSet::len`, for a set of links: the number of pairs in the set.
#[verifier::external_body]
pub(crate) fn pair_len(set: &IndexSet<(u64, u64)>) -> (len: usize)
    ensures
        len == pair_items(*set).len(),
{
    set.len()
}

/// `IndexSet::get_index`, for a set of links: the pair at position `index`
/// of the order, or `None` past the end.
#[verifier::external_body]
pub(crate) fn pair_get_index(set: &IndexSet<(u64, u64)>, index: usize) -> (value: Option<
    (u64, u64),
>)
    ensures
        value == (if index < pair_items(*set).len() {
            Some(pair_items(*set)[index as int])
        } else {
            None
        }),
{
    set.get_index(index).copied()
}

/// `IndexSet::insert`, for a set of links: a pair that the set does not
/// hold yet goes to the end of the order and the call returns `true`; for
/// one that it holds the set stays as it is and the call returns `false`.
#[verifier::external_body]
pub(crate) fn pair_insert(set: &mut IndexSet<(u64, u64)>, value: (u64, u64)) -> (added: bool)
    ensures
        added == !pair_items(*old(set)).contains(value),
        pair_items(*final(set)) == (if added {
            pair_items(*old(set)).push(value)
        } else {
            pair_items(*old(set))
        }),
{
    set.insert(value)
}

} // verus!
