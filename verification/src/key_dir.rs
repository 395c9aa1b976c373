//! The key directory: a concurrent map from raw key bytes to the location
//! of the key's latest record in the log. The map itself is
//! `dashmap::DashMap`, taken on trust through the items below; everything
//! that reads or fills it is verified against their contracts.

use dashmap::DashMap;
use vstd::prelude::*;

verus! {

/// Where the latest record for a key lives: the byte offset of its header
/// in the log, the summed key and value size, and its timestamp.
#[derive(Clone, Copy, Debug, PartialEq, Eq, Structural)]
pub struct KeyEntry {
    pub total_size: u64,
    pub value_offset: u64,
    pub timestamp: u32,
}

#[verifier::external_type_specification]
#[verifier::external_body]
#[verifier::reject_recursive_types(K)]
#[verifier::reject_recursive_types(V)]
#[verifier::reject_recursive_types(S)]
pub struct ExDashMap<K, V, S>(DashMap<K, V, S>);

/// The key directory: raw key bytes to the entry for the key's latest record.
pub type KeyDirectory = DashMap<Vec<u8>, KeyEntry>;

/// The entries a key directory holds, as a map from key bytes to entry.
pub uninterp spec fn kd_contents(m: KeyDirectory) -> Map<Seq<u8>, KeyEntry>;

/// The contents of a directory with no entries.
pub open spec fn kd_empty() -> Map<Seq<u8>, KeyEntry> {
    Map::empty()
}

/// Relies on dashmap::DashMap::new: a newly created map holds no entries.
#[verifier::external_body]
pub(crate) fn kd_new() -> (r: KeyDirectory)
    ensures
        kd_contents(r) == kd_empty(),
{
    DashMap::new()
}

/// Relies on dashmap::DashMap::insert: stores `entry` under `key`,
/// replacing any entry the key had before.
#[verifier::external_body]
pub(crate) fn kd_insert(m: &mut KeyDirectory, key: Vec<u8>, entry: KeyEntry)
    ensures
        kd_contents(*final(m)) == kd_contents(*old(m)).insert(key@, entry),
{
    m.insert(key, entry);
}

/// Relies on dashmap::DashMap::get: returns the entry stored under `key`,
/// or nothing when the key is absent.
#[verifier::external_body]
pub(crate) fn kd_lookup(m: &KeyDirectory, key: &Vec<u8>) -> (r: Option<KeyEntry>)
    ensures
        r == (if kd_contents(*m).contains_key(key@) {
            Some(kd_contents(*m)[key@])
        } else {
            None::<KeyEntry>
        }),
{
    m.get(key).map(|e| *e.value())
}

} // verus!
