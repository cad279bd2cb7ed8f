//! The concurrent map (`dashmap::DashMap`) that holds the named buffer slots.
//!
//! Every slot maps its name to `(data, fingerprint, creation stamp)`.  The
//! verified code sees the map through `slot_table`, which gives each entry by
//! the characters of its name, the bytes of its data, its fingerprint and its
//! stamp.

use vstd::prelude::*;
use bytes::Bytes;
use dashmap::DashMap;
use crate::shared_bytes::bytes_contents;

verus! {

/// `dashmap::DashMap`, declared so that it can be held in a field.
#[verifier::external_type_specification]
#[verifier::external_body]
#[verifier::reject_recursive_types(K)]
#[verifier::reject_recursive_types(V)]
#[verifier::reject_recursive_types(S)]
pub struct ExDashMap<K, V, S>(DashMap<K, V, S>);

/// What one slot stores: its data, its fingerprint and its creation stamp.
pub type SlotValue = (Bytes, u64, u64);

/// The map from slot names to slot values.
pub type SlotMap = DashMap<String, SlotValue>;

/// The abstract content of one slot: data bytes, fingerprint, creation stamp.
pub type SlotEntry = (Seq<u8>, u64, u64);

/// What a slot map holds, keyed by the characters of each slot name.
pub uninterp spec fn slot_table(m: SlotMap) -> Map<Seq<char>, SlotEntry>;

/// The table of a map without slots.
pub open spec fn no_slots() -> Map<Seq<char>, SlotEntry> {
    Map::empty()
}

/// The abstract content of a stored slot value.
pub open spec fn entry_of(v: SlotValue) -> SlotEntry {
    (bytes_contents(v.0), v.1, v.2)
}

/// `DashMap::new`: an empty map.
#[verifier::external_body]
pub(crate) fn slots_new() -> (r: SlotMap)
    ensures
        slot_table(r) == no_slots(),
{
    DashMap::new()
}

/// `DashMap::insert`: the key now maps to the given value (an earlier value
/// under the same key is replaced and dropped).
#[verifier::external_body]
pub(crate) fn slots_insert(m: &mut SlotMap, key: String, value: SlotValue)
    ensures
        slot_table(*final(m)) == slot_table(*old(m)).insert(key@, entry_of(value)),
{
    m.insert(key, value);
}

/// `DashMap::remove`: takes the entry out of the map and hands back its value.
#[verifier::external_body]
pub(crate) fn slots_remove(m: &mut SlotMap, key: &str) -> (r: Option<SlotValue>)
    ensures
        slot_table(*final(m)) == slot_table(*old(m)).remove(key@),
        r is Some <==> slot_table(*old(m)).contains_key(key@),
        r matches Some(v) ==> entry_of(v) == slot_table(*old(m))[key@],
{
    m.remove(key).map(|(_, v)| v)
}

/// `DashMap::get`, with the value cloned out of the read guard.
#[verifier::external_body]
pub(crate) fn slots_get(m: &SlotMap, key: &str) -> (r: Option<SlotValue>)
    ensures
        r is Some <==> slot_table(*m).contains_key(key@),
        r matches Some(v) ==> entry_of(v) == slot_table(*m)[key@],
{
    m.get(key).map(|e| e.value().clone())
}

/// `DashMap::contains_key`.
#[verifier::external_body]
pub(crate) fn slots_contains(m: &SlotMap, key: &str) -> (r: bool)
    ensures
        r == slot_table(*m).contains_key(key@),
{
    m.contains_key(key)
}

/// `DashMap::len`: the number of entries.
#[verifier::external_body]
pub(crate) fn slots_len(m: &SlotMap) -> (r: usize)
    ensures
        r == slot_table(*m).len(),
{
    m.len()
}

/// `DashMap::clear`: removes every entry.
#[verifier::external_body]
pub(crate) fn slots_clear(m: &mut SlotMap)
    ensures
        slot_table(*final(m)) == no_slots(),
{
    m.clear();
}

/// `DashMap::iter`, collected: every entry once, as (name, value), in the
/// map's own iteration order (which depends on the hasher's random seed and
/// is therefore left open).
#[verifier::external_body]
pub(crate) fn slots_snapshot(m: &SlotMap) -> (r: Vec<(String, SlotValue)>)
    ensures
        r.len() == slot_table(*m).len(),
        forall|i: int| 0 <= i < r.len() ==> #[trigger] slot_table(*m).contains_key(r[i].0@)
            && slot_table(*m)[r[i].0@] == entry_of(r[i].1),
        forall|i: int, j: int| 0 <= i < j < r.len() ==> r[i].0@ != r[j].0@,
        forall|k: Seq<char>| #[trigger] slot_table(*m).contains_key(k)
            ==> exists|i: int| 0 <= i < r.len() && r[i].0@ == k,
{
    m.iter().map(|e| (e.key().clone(), e.value().clone())).collect()
}

} // verus!
