//! The root set's storage: a slot map from stable keys to payload addresses.

use slotmap::{DefaultKey, SlotMap};
use vstd::prelude::*;

verus! {

#[verifier::external_type_specification]
#[verifier::external_body]
pub struct ExDefaultKey(DefaultKey);

/// A `slotmap::SlotMap` from keys to payload addresses.
#[verifier::external_body]
pub struct HandleTable {
    inner: SlotMap<DefaultKey, usize>,
}

/// The entries that a table holds: each live key with its address.
pub uninterp spec fn table_entries(t: HandleTable) -> Map<DefaultKey, usize>;

/// The most entries a table takes: the slot map keeps one slot of its 32-bit
/// index space for itself and refuses to grow past the index space.
pub open spec fn table_limit() -> int {
    0xFFFF_FFFE
}

/// `SlotMap::with_key`: a table without entries.
#[verifier::external_body]
pub(crate) fn table_new() -> (t: HandleTable)
    ensures
        table_entries(t) == (Map::<DefaultKey, usize>::empty()),
{
    HandleTable { inner: SlotMap::with_key() }
}

/// `SlotMap::insert`: stores `v` under a key that no live entry has, and
/// returns the key. The slot map panics when it is full, which a table below
/// `table_limit()` entries is not.
#[verifier::external_body]
pub(crate) fn table_insert(t: &mut HandleTable, v: usize) -> (k: DefaultKey)
    requires
        table_entries(*old(t)).dom().finite(),
        table_entries(*old(t)).dom().len() < table_limit(),
    ensures
        !table_entries(*old(t)).contains_key(k),
        table_entries(*final(t)) == table_entries(*old(t)).insert(k, v),
{
    t.inner.insert(v)
}

/// `SlotMap::get`: the address stored under `k`, if `k` is live.
#[verifier::external_body]
pub(crate) fn table_get(t: &HandleTable, k: DefaultKey) -> (r: Option<usize>)
    ensures
        r == (if table_entries(*t).contains_key(k) {
            Some(table_entries(*t)[k])
        } else {
            None
        }),
{
    t.inner.get(k).copied()
}

/// `SlotMap::remove`: drops the entry under `k`, if there is one, and returns
/// what it held.
#[verifier::external_body]
pub(crate) fn table_remove(t: &mut HandleTable, k: DefaultKey) -> (r: Option<usize>)
    ensures
        r == (if table_entries(*old(t)).contains_key(k) {
            Some(table_entries(*old(t))[k])
        } else {
            None
        }),
        table_entries(*final(t)) == table_entries(*old(t)).remove(k),
{
    t.inner.remove(k)
}

/// `SlotMap`'s `IndexMut`: replaces the address stored under the live key `k`.
#[verifier::external_body]
pub(crate) fn table_set(t: &mut HandleTable, k: DefaultKey, v: usize)
    requires
        table_entries(*old(t)).contains_key(k),
    ensures
        table_entries(*final(t)) == table_entries(*old(t)).insert(k, v),
{
    t.inner[k] = v;
}

/// `SlotMap::keys`: every live key once, in the order of the slots, which the
/// entries alone do not determine.
#[verifier::external_body]
pub(crate) fn table_keys(t: &HandleTable) -> (keys: Vec<DefaultKey>)
    ensures
        keys@.no_duplicates(),
        forall|k: DefaultKey| keys@.contains(k) <==> table_entries(*t).contains_key(k),
{
    t.inner.keys().collect()
}

} // verus!
