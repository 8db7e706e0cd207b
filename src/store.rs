//! The concurrent map that holds the ledger's records, seen through the
//! contents it holds.

use dashmap::DashMap;
use vstd::prelude::*;

verus! {

#[verifier::external_type_specification]
#[verifier::external_body]
#[verifier::reject_recursive_types(K)]
#[verifier::reject_recursive_types(V)]
#[verifier::reject_recursive_types(S)]
pub struct ExDashMap<K, V, S>(DashMap<K, V, S>);

/// What a map of the ledger holds, key by key.
pub uninterp spec fn entries(m: DashMap<u128, u64>) -> Map<u128, u64>;

/// Relies on `DashMap::new`: a new map holds no entry.
#[verifier::external_body]
pub(crate) fn new_map() -> (r: DashMap<u128, u64>)
    ensures
        entries(r) =~= Map::empty(),
{
    DashMap::new()
}

/// Relies on `DashMap::get`: the value stored under `k`, if there is one.
#[verifier::external_body]
pub(crate) fn map_get(m: &DashMap<u128, u64>, k: u128) -> (r: Option<u64>)
    ensures
        r == (if entries(*m).contains_key(k) {
            Some(entries(*m)[k])
        } else {
            None::<u64>
        }),
{
    m.get(&k).map(|v| *v)
}

/// Relies on `DashMap::insert`: `k` maps to `v` afterwards, other keys keep
/// their values.
#[verifier::external_body]
pub(crate) fn map_insert(m: &mut DashMap<u128, u64>, k: u128, v: u64)
    ensures
        entries(*final(m)) == entries(*old(m)).insert(k, v),
{
    m.insert(k, v);
}

/// What the order directory holds, key by key: an account and whether the
/// order buys.
pub uninterp spec fn directory_entries(m: DashMap<u128, (u64, bool)>) -> Map<u128, (u64, bool)>;

/// Relies on `DashMap::new`: a new map holds no entry.
#[verifier::external_body]
pub(crate) fn new_directory() -> (r: DashMap<u128, (u64, bool)>)
    ensures
        directory_entries(r) =~= Map::empty(),
{
    DashMap::new()
}

/// Relies on `DashMap::get`: the value stored under `k`, if there is one.
#[verifier::external_body]
pub(crate) fn directory_get(m: &DashMap<u128, (u64, bool)>, k: u128) -> (r: Option<(u64, bool)>)
    ensures
        r == (if directory_entries(*m).contains_key(k) {
            Some(directory_entries(*m)[k])
        } else {
            None::<(u64, bool)>
        }),
{
    m.get(&k).map(|v| *v)
}

/// Relies on `DashMap::insert`: `k` maps to `v` afterwards, other keys keep
/// their values.
#[verifier::external_body]
pub(crate) fn directory_insert(m: &mut DashMap<u128, (u64, bool)>, k: u128, v: (u64, bool))
    ensures
        directory_entries(*final(m)) == directory_entries(*old(m)).insert(k, v),
{
    m.insert(k, v);
}

/// Relies on `DashMap::remove`: `k` is absent afterwards, other keys keep
/// their values.
#[verifier::external_body]
pub(crate) fn directory_remove(m: &mut DashMap<u128, (u64, bool)>, k: u128)
    ensures
        directory_entries(*final(m)) == directory_entries(*old(m)).remove(k),
{
    m.remove(&k);
}

} // verus!
