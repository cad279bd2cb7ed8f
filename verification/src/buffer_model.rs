//! The mathematical model of the buffer pool: how many bytes a set of slots
//! holds, which slot is the oldest, and what eviction keeps.

use vstd::prelude::*;
use crate::slot_map::SlotEntry;

verus! {

/// Slot contents keyed by slot name: (data, fingerprint, creation stamp).
pub type SlotTable = Map<Seq<char>, SlotEntry>;

/// Total number of data bytes held by the slots.
pub open spec fn bytes_held(m: SlotTable) -> nat
    decreases m.dom().len(),
{
    if m.dom().finite() && m.dom().len() > 0 && m.contains_key(m.dom().choose()) {
        let k = m.dom().choose();
        m[k].0.len() + bytes_held(m.remove(k))
    } else {
        0
    }
}

/// No two slots share a creation stamp.
pub open spec fn stamps_distinct(m: SlotTable) -> bool {
    forall|a: Seq<char>, b: Seq<char>|
        #[trigger] m.contains_key(a) && #[trigger] m.contains_key(b) && a != b ==> m[a].2 != m[b].2
}

/// `k` is a slot whose stamp is not larger than that of any other slot.
pub open spec fn is_oldest(m: SlotTable, k: Seq<char>) -> bool {
    &&& m.contains_key(k)
    &&& forall|j: Seq<char>| #[trigger] m.contains_key(j) ==> m[k].2 <= m[j].2
}

/// The oldest slot (the one created first).
pub open spec fn oldest_slot(m: SlotTable) -> Seq<char> {
    choose|k: Seq<char>| is_oldest(m, k)
}

/// What eviction keeps: while the slots and `needed` more bytes exceed
/// `limit`, the oldest slot is dropped.
pub open spec fn evict_oldest(m: SlotTable, needed: nat, limit: nat) -> SlotTable
    decreases m.dom().len(),
{
    if m.dom().finite() && bytes_held(m) + needed > limit && m.contains_key(oldest_slot(m)) {
        evict_oldest(m.remove(oldest_slot(m)), needed, limit)
    } else {
        m
    }
}

/// `a` plus `n`, wrapping around at 2^64 (an atomic counter's `fetch_add`).
pub open spec fn wrap_add(a: u64, n: nat) -> u64 {
    ((a + n) % 0x1_0000_0000_0000_0000) as u64
}

/// Removing one slot takes away exactly its bytes.
pub proof fn lemma_bytes_held_remove(m: SlotTable, k: Seq<char>)
    requires
        m.dom().finite(),
        m.contains_key(k),
    ensures
        bytes_held(m) == m[k].0.len() + bytes_held(m.remove(k)),
    decreases m.dom().len(),
{
    assert(m.dom().contains(k));
    let c = m.dom().choose();
    assert(m.dom().contains(c));
    if c != k {
        assert(m.remove(c).dom() =~= m.dom().remove(c));
        assert(m.remove(k).dom() =~= m.dom().remove(k));
        lemma_bytes_held_remove(m.remove(c), k);
        lemma_bytes_held_remove(m.remove(k), c);
        assert(m.remove(c).remove(k) =~= m.remove(k).remove(c));
    }
}

/// Adding a fresh slot adds exactly its bytes.
pub proof fn lemma_bytes_held_insert(m: SlotTable, k: Seq<char>, e: SlotEntry)
    requires
        m.dom().finite(),
        !m.contains_key(k),
    ensures
        bytes_held(m.insert(k, e)) == e.0.len() + bytes_held(m),
{
    lemma_bytes_held_remove(m.insert(k, e), k);
    assert(m.insert(k, e).remove(k) =~= m);
}

/// No slots hold no bytes.
pub proof fn lemma_bytes_held_empty(m: SlotTable)
    requires
        m.dom().finite(),
        m.dom().len() == 0,
    ensures
        bytes_held(m) == 0,
{
}

/// Every finite, non-empty set of slots has an oldest slot.
pub proof fn lemma_oldest_exists(m: SlotTable)
    requires
        m.dom().finite(),
        m.dom().len() > 0,
    ensures
        is_oldest(m, oldest_slot(m)),
    decreases m.dom().len(),
{
    let c = m.dom().choose();
    assert(m.dom().contains(c));
    let rest = m.remove(c);
    assert(rest.dom() =~= m.dom().remove(c));
    if rest.dom().len() == 0 {
        assert forall|j: Seq<char>| #[trigger] m.contains_key(j) implies m[c].2 <= m[j].2 by {
            if j != c {
                assert(rest.dom().contains(j));
            }
        }
        assert(is_oldest(m, c));
    } else {
        lemma_oldest_exists(rest);
        let o = oldest_slot(rest);
        if m[c].2 <= m[o].2 {
            assert(is_oldest(m, c));
        } else {
            assert forall|j: Seq<char>| #[trigger] m.contains_key(j) implies m[o].2 <= m[j].2 by {
                if j != c {
                    assert(rest.contains_key(j));
                }
            }
            assert(is_oldest(m, o));
        }
    }
}

/// With distinct stamps, the oldest slot is the one with the smallest stamp.
pub proof fn lemma_oldest_unique(m: SlotTable, k: Seq<char>)
    requires
        stamps_distinct(m),
        is_oldest(m, k),
    ensures
        oldest_slot(m) == k,
{
    let o = oldest_slot(m);
    assert(is_oldest(m, o));
    if o != k {
        assert(m[o].2 <= m[k].2);
        assert(m[k].2 <= m[o].2);
        assert(m.contains_key(o) && m.contains_key(k));
        assert(false);
    }
}

/// One eviction step: when the slots do not fit, eviction continues from the
/// slots without the oldest one.
pub proof fn lemma_evict_step(m: SlotTable, needed: nat, limit: nat)
    requires
        m.dom().finite(),
        m.dom().len() > 0,
        bytes_held(m) + needed > limit,
    ensures
        m.contains_key(oldest_slot(m)),
        evict_oldest(m, needed, limit) == evict_oldest(m.remove(oldest_slot(m)), needed, limit),
{
    lemma_oldest_exists(m);
}

/// Eviction keeps a sub-table that is finite, keeps distinct stamps, and
/// either fits or is empty.
pub proof fn lemma_evict_shape(m: SlotTable, needed: nat, limit: nat)
    requires
        m.dom().finite(),
    ensures
        evict_oldest(m, needed, limit).dom().finite(),
        evict_oldest(m, needed, limit).submap_of(m),
        evict_oldest(m, needed, limit).dom().len() <= m.dom().len(),
        bytes_held(evict_oldest(m, needed, limit)) + needed <= limit
            || evict_oldest(m, needed, limit).dom().len() == 0,
        stamps_distinct(m) ==> stamps_distinct(evict_oldest(m, needed, limit)),
    decreases m.dom().len(),
{
    if bytes_held(m) + needed > limit && m.dom().len() > 0 {
        lemma_oldest_exists(m);
        let o = oldest_slot(m);
        let rest = m.remove(o);
        assert(rest.dom() =~= m.dom().remove(o));
        lemma_evict_shape(rest, needed, limit);
        let r = evict_oldest(rest, needed, limit);
        assert forall|k: Seq<char>| #[trigger] r.contains_key(k) implies m.contains_key(k)
            && r[k] == m[k] by {
            assert(rest.contains_key(k));
        }
    }
}

} // verus!

verus! {

/// Eviction is oldest-first: every slot that eviction drops was created
/// before every slot that it keeps.
pub proof fn law_eviction_oldest_first(m: SlotTable, needed: nat, limit: nat)
    requires
        m.dom().finite(),
        stamps_distinct(m),
    ensures
        forall|e: Seq<char>, k: Seq<char>|
            #![trigger m.contains_key(e), evict_oldest(m, needed, limit).contains_key(k)]
            m.contains_key(e) && !evict_oldest(m, needed, limit).contains_key(e)
                && evict_oldest(m, needed, limit).contains_key(k) ==> m[e].2 < m[k].2,
    decreases m.dom().len(),
{
    let kept = evict_oldest(m, needed, limit);
    lemma_evict_shape(m, needed, limit);
    if bytes_held(m) + needed > limit && m.dom().len() > 0 {
        lemma_evict_step(m, needed, limit);
        lemma_oldest_exists(m);
        let o = oldest_slot(m);
        let rest = m.remove(o);
        assert(rest.dom() =~= m.dom().remove(o));
        assert(stamps_distinct(rest)) by {
            assert forall|a: Seq<char>, b: Seq<char>|
                #[trigger] rest.contains_key(a) && #[trigger] rest.contains_key(b) && a != b
                implies rest[a].2 != rest[b].2 by {
                assert(m.contains_key(a) && m.contains_key(b));
            }
        }
        law_eviction_oldest_first(rest, needed, limit);
        lemma_evict_shape(rest, needed, limit);
        assert forall|e: Seq<char>, k: Seq<char>|
            m.contains_key(e) && !kept.contains_key(e) && kept.contains_key(k)
            implies m[e].2 < m[k].2 by {
            assert(rest.contains_key(k));
            if e == o {
                assert(m.contains_key(k));
                assert(m[o].2 <= m[k].2);
                assert(k != o);
            } else {
                assert(rest.contains_key(e));
                assert(evict_oldest(rest, needed, limit).contains_key(k));
            }
        }
    }
}

/// Eviction stops as soon as the data fits: slots that already leave room
/// for `needed` bytes are all kept.
pub proof fn law_eviction_only_when_needed(m: SlotTable, needed: nat, limit: nat)
    requires
        bytes_held(m) + needed <= limit,
    ensures
        evict_oldest(m, needed, limit) == m,
{
}

/// Eviction makes room for `needed` bytes exactly when `needed` does not
/// exceed the limit on its own.
pub proof fn law_eviction_makes_room(m: SlotTable, needed: nat, limit: nat)
    requires
        m.dom().finite(),
    ensures
        bytes_held(evict_oldest(m, needed, limit)) + needed <= limit <==> needed <= limit,
{
    lemma_evict_shape(m, needed, limit);
    let kept = evict_oldest(m, needed, limit);
    if kept.dom().len() == 0 {
        lemma_bytes_held_empty(kept);
    }
}

} // verus!

verus! {

/// `wrapping_add` is addition modulo 2^64.
pub proof fn lemma_wrapping_add_is_wrap(a: u64, b: u64)
    ensures
        vstd::wrapping::u64_specs::wrapping_add(a, b) == wrap_add(a, b as nat),
{
    if a + b >= 0x1_0000_0000_0000_0000 {
        vstd::arithmetic::div_mod::lemma_mod_add_multiples_vanish(
            (a + b - 0x1_0000_0000_0000_0000) as int, 0x1_0000_0000_0000_0000);
        vstd::arithmetic::div_mod::lemma_small_mod(
            (a + b - 0x1_0000_0000_0000_0000) as nat, 0x1_0000_0000_0000_0000);
    } else {
        vstd::arithmetic::div_mod::lemma_small_mod((a + b) as nat, 0x1_0000_0000_0000_0000);
    }
}

} // verus!
