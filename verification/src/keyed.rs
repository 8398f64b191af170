//! Maps from one identifier to another, kept in `hashbrown::HashMap`.
//!
//! Nothing in this file is proved. Each function below calls one method of
//! `HashMap` and states what that method's documentation says of it; the
//! rest of the library is verified against these statements.

use hashbrown::HashMap;
use vstd::prelude::*;

verus! {

/// A `hashbrown::HashMap` from identifiers to identifiers. Verus sees
/// nothing inside a value of it.
#[verifier::external_body]
pub struct KeyMap {
    inner: HashMap<u64, u64>,
}

/// The entries that a map holds.
pub uninterp spec fn map_entries(map: KeyMap) -> Map<u64, u64>;

/// The map without entries.
pub open spec fn no_entries() -> Map<u64, u64> {
    Map::empty()
}

/// `HashMap::new`: a map that holds nothing.
#[verifier::external_body]
pub(crate) fn map_new() -> (table: KeyMap)
    ensures
        map_entries(table) == no_entries(),
{
    KeyMap { inner: HashMap::new() }
}

/// `HashMap::get`: the value under `key`, or `None` if the map has no such
/// key.
#[verifier::external_body]
pub(crate) fn map_get(table: &KeyMap, key: u64) -> (value: Option<u64>)
    ensures
        value == (if map_entries(*table).dom().contains(key) {
            Some(map_entries(*table)[key])
        } else {
            None
        }),
{
    table.inner.get(&key).copied()
}

/// `HashMap::insert`: `value` stands under `key` afterwards, whatever stood
/// there before, and the other entries are as they were.
#[verifier::external_body]
pub(crate) fn map_insert(table: &mut KeyMap, key: u64, value: u64)
    ensures
        map_entries(*final(table)) == map_entries(*old(table)).insert(key, value),
{
    table.inner.insert(key, value);
}

/// `HashMap::remove`: nothing stands under `key` afterwards, and the other
/// entries are as they were.
#[verifier::external_body]
pub(crate) fn map_remove(table: &mut KeyMap, key: u64)
    ensures
        map_entries(*final(table)) == map_entries(*old(table)).remove(key),
{
    table.inner.remove(&key);
}

} // verus!
