//! Zero-copy shared buffer pool for passing data between components.
//!
//! Named slots hold reference-counted byte buffers; reading a slot hands out
//! a new handle on the same bytes, taking a slot removes it.  The pool keeps
//! the total number of stored bytes under a fixed limit and, when a new
//! buffer does not fit, evicts the oldest slots first.

use vstd::prelude::*;
use bytes::Bytes;
use crate::shared_bytes::{bytes_contents, bytes_len, bytes_is_empty};
use crate::slot_map::{
    SlotMap, SlotEntry, slot_table, no_slots, slots_new, slots_insert, slots_remove, slots_get,
    slots_contains, slots_len, slots_clear, slots_snapshot,
};
use crate::buffer_model::{
    SlotTable, bytes_held, stamps_distinct, is_oldest, evict_oldest, wrap_add,
    lemma_bytes_held_remove, lemma_bytes_held_insert, lemma_oldest_unique, lemma_evict_step,
    lemma_evict_shape,
};

verus! {

/// A handle to a named shared buffer slot.
#[derive(Debug, Clone)]
pub struct SharedBuffer {
    /// Slot name (identifier for this buffer).
    pub slot: String,
    /// The actual data, reference-counted for zero-copy cloning.
    pub data: Bytes,
    /// Fingerprint for cache validation / versioning.
    pub fingerprint: u64,
    /// Creation stamp: slots created later carry larger stamps.
    pub created_at: u64,
}

/// The abstract content of a buffer handle: data, fingerprint, stamp.
pub open spec fn buffer_entry(b: SharedBuffer) -> SlotEntry {
    (bytes_contents(b.data), b.fingerprint, b.created_at)
}

impl SharedBuffer {
    /// Data length in bytes.
    pub fn len(&self) -> (r: usize)
        ensures
            r == bytes_contents(self.data).len(),
    {
        bytes_len(&self.data)
    }

    /// Whether the buffer is empty.
    pub fn is_empty(&self) -> (r: bool)
        ensures
            r == (bytes_contents(self.data).len() == 0),
    {
        bytes_is_empty(&self.data)
    }
}

/// Cumulative statistics for the buffer pool.
///
/// Each counter wraps around on overflow, as an atomic `fetch_add` does.
#[derive(Debug)]
pub struct BufferStats {
    pub allocations: u64,
    pub zero_copy_reads: u64,
    pub takes: u64,
    pub bytes_stored_total: u64,
    pub evictions: u64,
}

impl Default for BufferStats {
    fn default() -> (r: Self)
        ensures
            r.allocations == 0,
            r.zero_copy_reads == 0,
            r.takes == 0,
            r.bytes_stored_total == 0,
            r.evictions == 0,
    {
        BufferStats { allocations: 0, zero_copy_reads: 0, takes: 0, bytes_stored_total: 0, evictions: 0 }
    }
}

impl BufferStats {
    /// Snapshot of the current counters.
    pub fn snapshot(&self) -> (r: BufferStatsSnapshot)
        ensures
            r.allocations == self.allocations,
            r.zero_copy_reads == self.zero_copy_reads,
            r.takes == self.takes,
            r.bytes_stored_total == self.bytes_stored_total,
            r.evictions == self.evictions,
    {
        BufferStatsSnapshot {
            allocations: self.allocations,
            zero_copy_reads: self.zero_copy_reads,
            takes: self.takes,
            bytes_stored_total: self.bytes_stored_total,
            evictions: self.evictions,
        }
    }
}

/// Plain snapshot of buffer statistics.
#[derive(Debug, Clone, Copy, PartialEq, Eq)]
pub struct BufferStatsSnapshot {
    pub allocations: u64,
    pub zero_copy_reads: u64,
    pub takes: u64,
    pub bytes_stored_total: u64,
    pub evictions: u64,
}

/// Error type for buffer operations.
#[derive(Debug, Clone, PartialEq, Eq)]
pub enum BufferError {
    /// The data does not fit even after eviction.
    CapacityExceeded { needed: usize, limit: usize, used: usize },
    /// No slot under that name.
    SlotNotFound(String),
}

} // verus!

verus! {

/// The slots that `put` keeps besides the new one: the earlier slot of the
/// same name is dropped, then the oldest slots are evicted until the data fits.
pub open spec fn put_keeps(slots: SlotTable, slot: Seq<char>, needed: nat, limit: nat) -> SlotTable {
    evict_oldest(slots.remove(slot), needed, limit)
}

/// Pool of named shared buffers for zero-copy data passing.
///
/// - `put` stores data in a named slot,
/// - `take` consumes and removes a slot (single consumer),
/// - `get` reads a slot without removing it (a new handle on the same bytes).
pub struct SharedBufferPool {
    buffers: SlotMap,
    max_total_bytes: usize,
    current_bytes: usize,
    next_stamp: u64,
    stats: BufferStats,
}

impl SharedBufferPool {
    /// The slots, by name.
    pub closed spec fn slots(&self) -> SlotTable {
        slot_table(self.buffers)
    }

    /// Bytes currently accounted as used.
    pub closed spec fn used(&self) -> nat {
        self.current_bytes as nat
    }

    /// Capacity in bytes.
    pub closed spec fn limit(&self) -> nat {
        self.max_total_bytes as nat
    }

    /// The stamp the next stored slot receives.
    pub closed spec fn stamp(&self) -> u64 {
        self.next_stamp
    }

    /// The statistics counters.
    pub closed spec fn counters(&self) -> BufferStatsSnapshot {
        BufferStatsSnapshot {
            allocations: self.stats.allocations,
            zero_copy_reads: self.stats.zero_copy_reads,
            takes: self.stats.takes,
            bytes_stored_total: self.stats.bytes_stored_total,
            evictions: self.stats.evictions,
        }
    }

    /// The pool's invariant: usage is the sum of the slot sizes and within the
    /// limit; creation stamps are distinct and below the next stamp.
    pub closed spec fn wf(&self) -> bool {
        &&& self.slots().dom().finite()
        &&& self.used() == bytes_held(self.slots())
        &&& self.used() <= self.limit()
        &&& stamps_distinct(self.slots())
        &&& forall|k: Seq<char>| #[trigger] self.slots().contains_key(k)
            ==> self.slots()[k].2 < self.next_stamp
    }

    /// Create a new pool with a maximum total byte limit.
    pub fn new(max_total_bytes: usize) -> (r: Self)
        ensures
            r.wf(),
            r.slots() == no_slots(),
            r.used() == 0,
            r.limit() == max_total_bytes,
            r.stamp() == 0,
            r.counters() == (BufferStatsSnapshot {
                allocations: 0, zero_copy_reads: 0, takes: 0, bytes_stored_total: 0, evictions: 0,
            }),
    {
        let r = SharedBufferPool {
            buffers: slots_new(),
            max_total_bytes,
            current_bytes: 0,
            next_stamp: 0,
            stats: BufferStats::default(),
        };
        proof {
            assert(r.slots().dom() =~= Set::<Seq<char>>::empty());
        }
        r
    }

    /// Number of active slots.
    pub fn slot_count(&self) -> (r: usize)
        ensures
            r == self.slots().len(),
    {
        slots_len(&self.buffers)
    }

    /// Check if a slot exists.
    pub fn contains(&self, slot: &str) -> (r: bool)
        ensures
            r == self.slots().contains_key(slot@),
    {
        slots_contains(&self.buffers, slot)
    }

    /// Current total bytes used.
    pub fn current_usage_bytes(&self) -> (r: usize)
        ensures
            r == self.used(),
    {
        self.current_bytes
    }

    /// Maximum capacity in bytes.
    pub fn max_bytes(&self) -> (r: usize)
        ensures
            r == self.limit(),
    {
        self.max_total_bytes
    }


    /// Evict the oldest slots until `needed_bytes` more bytes fit (or no slot
    /// is left).
    fn evict_until_available(&mut self, needed_bytes: usize)
        requires
            old(self).wf(),
        ensures
            final(self).wf(),
            final(self).slots() == evict_oldest(old(self).slots(), needed_bytes as nat, old(self).limit()),
            final(self).limit() == old(self).limit(),
            final(self).stamp() == old(self).stamp(),
            final(self).counters() == (BufferStatsSnapshot {
                evictions: wrap_add(old(self).counters().evictions,
                    (old(self).slots().len() - final(self).slots().len()) as nat),
                ..old(self).counters()
            }),
    {
        let ghost m = self.slots();
        let ghost limit = self.limit();
        let ghost needed = needed_bytes as nat;
        let entries = slots_snapshot(&self.buffers);
        // (name, stamp, size) of every slot not yet chosen for eviction.
        let mut pending: Vec<(String, u64, usize)> = Vec::new();
        let mut i: usize = 0;
        while i < entries.len()
            invariant
                i <= entries.len(),
                pending.len() == i,
                forall|j: int| 0 <= j < i ==> #[trigger] pending[j].0@ == entries[j].0@
                    && pending[j].1 == entries[j].1.2
                    && pending[j].2 == bytes_contents(entries[j].1.0).len(),
            decreases entries.len() - i,
        {
            let name = entries[i].0.clone();
            let stamp = entries[i].1.2;
            let size = bytes_len(&entries[i].1.0);
            pending.push((name, stamp, size));
            i = i + 1;
        }
        let ghost mut rest = m;
        proof {
            assert forall|k: Seq<char>| #[trigger] rest.contains_key(k)
                implies exists|j: int| 0 <= j < pending.len() && pending[j].0@ == k by {
                let e = choose|e: int| 0 <= e < entries.len() && entries[e].0@ == k;
                assert(pending[e].0@ == k);
            }
        }
        let mut to_remove: Vec<String> = Vec::new();
        let mut freed: usize = 0;
        let current = self.current_bytes;
        loop
            invariant
                m == self.slots(),
                self.wf(),
                current == self.current_bytes,
                limit == self.limit(),
                needed == needed_bytes,
                rest.dom().finite(),
                rest.submap_of(m),
                stamps_distinct(rest),
                freed + bytes_held(rest) == bytes_held(m),
                evict_oldest(rest, needed, limit) == evict_oldest(m, needed, limit),
                rest.dom().len() + to_remove.len() == m.dom().len(),
                forall|j: int| 0 <= j < pending.len() ==> #[trigger] rest.contains_key(pending[j].0@)
                    && rest[pending[j].0@].2 == pending[j].1
                    && rest[pending[j].0@].0.len() == pending[j].2,
                forall|j: int, l: int| 0 <= j < l < pending.len() ==> pending[j].0@ != pending[l].0@,
                forall|k: Seq<char>| #[trigger] rest.contains_key(k)
                    ==> exists|j: int| 0 <= j < pending.len() && pending[j].0@ == k,
                forall|j: int| 0 <= j < to_remove.len() ==> #[trigger] m.contains_key(to_remove[j]@)
                    && !rest.contains_key(to_remove[j]@),
                forall|j: int, l: int| 0 <= j < l < to_remove.len() ==> to_remove[j]@ != to_remove[l]@,
                forall|k: Seq<char>| #[trigger] m.contains_key(k) && !rest.contains_key(k)
                    ==> exists|j: int| 0 <= j < to_remove.len() && to_remove[j]@ == k,
            ensures
                evict_oldest(m, needed, limit) == rest,
                rest.dom().finite(),
                rest.submap_of(m),
                rest.dom().len() + to_remove.len() == m.dom().len(),
                forall|j: int| 0 <= j < to_remove.len() ==> #[trigger] m.contains_key(to_remove[j]@)
                    && !rest.contains_key(to_remove[j]@),
                forall|j: int, l: int| 0 <= j < l < to_remove.len() ==> to_remove[j]@ != to_remove[l]@,
                forall|k: Seq<char>| #[trigger] m.contains_key(k) && !rest.contains_key(k)
                    ==> exists|j: int| 0 <= j < to_remove.len() && to_remove[j]@ == k,
            decreases pending.len(),
        {
            if pending.len() == 0 {
                proof {
                    assert(rest.dom() =~= Set::<Seq<char>>::empty()) by {
                        assert forall|k: Seq<char>| !rest.dom().contains(k) by {
                            if rest.contains_key(k) {
                                let j = choose|j: int| 0 <= j < pending.len() && pending[j].0@ == k;
                            }
                        }
                    }
                }
                break;
            }
            if needed_bytes <= self.max_total_bytes - (current - freed) {
                break;
            }
            // The oldest remaining slot.
            let mut best: usize = 0;
            let mut j: usize = 1;
            while j < pending.len()
                invariant
                    0 < pending.len(),
                    best < pending.len(),
                    1 <= j <= pending.len(),
                    forall|l: int| 0 <= l < j ==> pending[best as int].1 <= #[trigger] pending[l].1,
                decreases pending.len() - j,
            {
                if pending[j].1 < pending[best].1 {
                    best = j;
                }
                j = j + 1;
            }
            let ghost pre = pending@;
            let ghost old_rest = rest;
            let (name, _stamp, size) = pending.remove(best);
            proof {
                let k = name@;
                assert(rest.contains_key(k));
                assert(is_oldest(rest, k)) by {
                    assert forall|q: Seq<char>| #[trigger] rest.contains_key(q)
                        implies rest[k].2 <= rest[q].2 by {
                        let l = choose|l: int| 0 <= l < pre.len() && pre[l].0@ == q;
                        assert(pre[l].1 >= pre[best as int].1);
                    }
                }
                lemma_oldest_unique(rest, k);
                lemma_evict_step(rest, needed, limit);
                lemma_bytes_held_remove(rest, k);
                assert(rest.remove(k).dom() =~= rest.dom().remove(k));
                let new_rest = rest.remove(k);
                assert forall|q: Seq<char>| #[trigger] new_rest.contains_key(q)
                    implies exists|l: int| 0 <= l < pending.len() && pending[l].0@ == q by {
                    let l = choose|l: int| 0 <= l < pre.len() && pre[l].0@ == q;
                    if l < best {
                        assert(pending[l].0@ == q);
                    } else {
                        assert(l > best);
                        assert(pending[l - 1].0@ == q);
                    }
                }
                assert forall|a: Seq<char>, b: Seq<char>|
                    #[trigger] new_rest.contains_key(a) && #[trigger] new_rest.contains_key(b) && a != b
                    implies new_rest[a].2 != new_rest[b].2 by {
                    assert(rest.contains_key(a) && rest.contains_key(b));
                }
                rest = new_rest;
            }
            let ghost pre_remove = to_remove@;
            to_remove.push(name);
            proof {
                assert forall|j: int, l: int| 0 <= j < l < to_remove.len()
                    implies to_remove[j]@ != to_remove[l]@ by {
                    if l == to_remove.len() - 1 {
                        assert(!old_rest.contains_key(pre_remove[j]@));
                        assert(old_rest.contains_key(to_remove[l]@));
                    } else {
                        assert(to_remove[j]@ == pre_remove[j]@ && to_remove[l]@ == pre_remove[l]@);
                    }
                }
                assert forall|k: Seq<char>| #[trigger] m.contains_key(k) && !rest.contains_key(k)
                    implies exists|l: int| 0 <= l < to_remove.len() && to_remove[l]@ == k by {
                    if k == to_remove[to_remove.len() - 1]@ {
                    } else {
                        let l = choose|l: int| 0 <= l < pre_remove.len() && pre_remove[l]@ == k;
                        assert(to_remove[l]@ == k);
                    }
                }
            }
            freed = freed + size;
        }
        // Remove the chosen slots from the map.
        let mut r: usize = 0;
        let ghost kept = rest;
        let ghost evictions0 = self.stats.evictions;
        while r < to_remove.len()
            invariant
                r <= to_remove.len(),
                kept.dom().finite(),
                kept.submap_of(m),
                kept.dom().len() + to_remove.len() == m.dom().len(),
                forall|j: int| 0 <= j < to_remove.len() ==> #[trigger] m.contains_key(to_remove[j]@)
                    && !kept.contains_key(to_remove[j]@),
                forall|j: int, l: int| 0 <= j < l < to_remove.len() ==> to_remove[j]@ != to_remove[l]@,
                forall|k: Seq<char>| #[trigger] m.contains_key(k) && !kept.contains_key(k)
                    ==> exists|j: int| 0 <= j < to_remove.len() && to_remove[j]@ == k,
                self.slots().dom().finite(),
                self.slots().submap_of(m),
                kept.submap_of(self.slots()),
                forall|j: int| r <= j < to_remove.len() ==> #[trigger] self.slots().contains_key(to_remove[j]@),
                forall|j: int| 0 <= j < r ==> !#[trigger] self.slots().contains_key(to_remove[j]@),
                forall|k: Seq<char>| #[trigger] self.slots().contains_key(k) && !kept.contains_key(k)
                    ==> exists|j: int| r <= j < to_remove.len() && to_remove[j]@ == k,
                self.slots().dom().len() == kept.dom().len() + (to_remove.len() - r),
                self.current_bytes == bytes_held(self.slots()),
                self.current_bytes <= self.max_total_bytes,
                self.max_total_bytes == limit,
                self.next_stamp == old(self).next_stamp,
                stamps_distinct(self.slots()),
                forall|k: Seq<char>| #[trigger] self.slots().contains_key(k) ==> self.slots()[k].2 < self.next_stamp,
                self.stats.evictions == wrap_add(evictions0, r as nat),
                self.stats.allocations == old(self).stats.allocations,
                self.stats.zero_copy_reads == old(self).stats.zero_copy_reads,
                self.stats.takes == old(self).stats.takes,
                self.stats.bytes_stored_total == old(self).stats.bytes_stored_total,
                evictions0 == old(self).stats.evictions,
                m == old(self).slots(),
            decreases to_remove.len() - r,
        {
            let ghost before = self.slots();
            let removed = slots_remove(&mut self.buffers, to_remove[r].as_str());
            match removed {
                Some(v) => {
                    let size = bytes_len(&v.0);
                    proof {
                        lemma_bytes_held_remove(before, to_remove[r as int]@);
                        assert(before.remove(to_remove[r as int]@).dom() =~= before.dom().remove(to_remove[r as int]@));
                    }
                    self.current_bytes = self.current_bytes - size;
                    proof {
                        vstd::arithmetic::div_mod::lemma_add_mod_noop(
                            evictions0 + r, 1, 0x1_0000_0000_0000_0000);
                        vstd::arithmetic::div_mod::lemma_small_mod(1, 0x1_0000_0000_0000_0000);
                        vstd::arithmetic::div_mod::lemma_mod_bound(
                            evictions0 + r, 0x1_0000_0000_0000_0000);
                        let w = self.stats.evictions;
                        if w + 1 >= 0x1_0000_0000_0000_0000 {
                            vstd::arithmetic::div_mod::lemma_mod_add_multiples_vanish(0, 0x1_0000_0000_0000_0000);
                            vstd::arithmetic::div_mod::lemma_small_mod(0, 0x1_0000_0000_0000_0000);
                        } else {
                            vstd::arithmetic::div_mod::lemma_small_mod((w + 1) as nat, 0x1_0000_0000_0000_0000);
                        }
                    }
                    self.stats.evictions = self.stats.evictions.wrapping_add(1);
                },
                None => {
                    assert(false);
                },
            }
            proof {
                let after = self.slots();
                assert forall|k: Seq<char>| #[trigger] kept.contains_key(k)
                    implies after.contains_key(k) && after[k] == kept[k] by {
                    assert(m.contains_key(to_remove[r as int]@));
                    assert(k != to_remove[r as int]@);
                }
                assert forall|k: Seq<char>| #[trigger] after.contains_key(k) && !kept.contains_key(k)
                    implies exists|j: int| r + 1 <= j < to_remove.len() && to_remove[j]@ == k by {
                    let j = choose|j: int| r <= j < to_remove.len() && to_remove[j]@ == k;
                    assert(j != r);
                }
                assert forall|a: Seq<char>, b: Seq<char>|
                    #[trigger] after.contains_key(a) && #[trigger] after.contains_key(b) && a != b
                    implies after[a].2 != after[b].2 by {
                    assert(before.contains_key(a) && before.contains_key(b));
                }
            }
            r = r + 1;
        }
        proof {
            assert(self.slots() =~= kept) by {
                assert forall|k: Seq<char>| #[trigger] self.slots().contains_key(k)
                    implies kept.contains_key(k) by {
                    if !kept.contains_key(k) {
                        let j = choose|j: int| r <= j < to_remove.len() && to_remove[j]@ == k;
                    }
                }
            }
        }
    }


    /// Store data in a named slot.
    ///
    /// If the slot already exists, the old data is replaced and its size
    /// reclaimed.  If the data does not fit, the oldest slots are evicted
    /// until it does; if it still does not fit (it is larger than the whole
    /// pool), `CapacityExceeded` is returned.
    pub fn put(&mut self, slot: &str, data: Bytes, fingerprint: u64) -> (r: Result<(), BufferError>)
        requires
            old(self).wf(),
            old(self).stamp() < u64::MAX,
        ensures
            final(self).wf(),
            final(self).limit() == old(self).limit(),
            r is Ok <==> bytes_contents(data).len() <= old(self).limit(),
            ({
                let kept = put_keeps(old(self).slots(), slot@, bytes_contents(data).len(), old(self).limit());
                let evicted = (old(self).slots().remove(slot@).len() - kept.len()) as nat;
                match r {
                    Ok(()) => {
                        &&& final(self).slots() == kept.insert(slot@,
                                (bytes_contents(data), fingerprint, old(self).stamp()))
                        &&& final(self).stamp() == old(self).stamp() + 1
                        &&& final(self).counters() == (BufferStatsSnapshot {
                                allocations: wrap_add(old(self).counters().allocations, 1),
                                bytes_stored_total: wrap_add(old(self).counters().bytes_stored_total,
                                    bytes_contents(data).len()),
                                evictions: wrap_add(old(self).counters().evictions, evicted),
                                ..old(self).counters()
                            })
                    },
                    Err(e) => {
                        &&& e == BufferError::CapacityExceeded {
                                needed: bytes_contents(data).len() as usize,
                                limit: old(self).limit() as usize,
                                used: bytes_held(kept) as usize,
                            }
                        &&& final(self).slots() == kept
                        &&& final(self).stamp() == old(self).stamp()
                        &&& final(self).counters() == (BufferStatsSnapshot {
                                evictions: wrap_add(old(self).counters().evictions, evicted),
                                ..old(self).counters()
                            })
                    },
                }
            }),
    {
        let new_size = bytes_len(&data);
        let ghost m0 = self.slots();
        // Reclaim space from an existing slot of the same name.
        let previous = slots_remove(&mut self.buffers, slot);
        match previous {
            Some(v) => {
                let old_size = bytes_len(&v.0);
                proof {
                    lemma_bytes_held_remove(m0, slot@);
                }
                self.current_bytes = self.current_bytes - old_size;
            },
            None => {
                assert(m0.remove(slot@) =~= m0);
            },
        }
        proof {
            let m1 = self.slots();
            assert(m1.dom() =~= m0.dom().remove(slot@));
            assert forall|a: Seq<char>, b: Seq<char>|
                #[trigger] m1.contains_key(a) && #[trigger] m1.contains_key(b) && a != b
                implies m1[a].2 != m1[b].2 by {
                assert(m0.contains_key(a) && m0.contains_key(b));
            }
        }
        let ghost m1 = self.slots();
        let ghost ev0 = self.stats.evictions;
        if new_size > self.max_total_bytes - self.current_bytes {
            self.evict_until_available(new_size);
            if new_size > self.max_total_bytes - self.current_bytes {
                proof {
                    lemma_evict_shape(m1, new_size as nat, self.limit());
                    assert(m1.dom().len() == m1.len());
                }
                return Err(BufferError::CapacityExceeded {
                    needed: new_size,
                    limit: self.max_total_bytes,
                    used: self.current_bytes,
                });
            }
        } else {
            assert(evict_oldest(m1, new_size as nat, self.limit()) == m1);
            proof {
                vstd::arithmetic::div_mod::lemma_small_mod(ev0 as nat, 0x1_0000_0000_0000_0000);
            }
        }
        let ghost m2 = self.slots();
        proof {
            lemma_evict_shape(m1, new_size as nat, self.limit());
            lemma_bytes_held_insert(m2, slot@, (bytes_contents(data), fingerprint, self.next_stamp));
            vstd::arithmetic::div_mod::lemma_small_mod(1, 0x1_0000_0000_0000_0000);
        }
        self.current_bytes = self.current_bytes + new_size;
        proof {
            let a = self.stats.allocations;
            let b = self.stats.bytes_stored_total;
            if a + 1 >= 0x1_0000_0000_0000_0000 {
                vstd::arithmetic::div_mod::lemma_mod_self_0(0x1_0000_0000_0000_0000);
            } else {
                vstd::arithmetic::div_mod::lemma_small_mod((a + 1) as nat, 0x1_0000_0000_0000_0000);
            }
            if b + new_size >= 0x1_0000_0000_0000_0000 {
                vstd::arithmetic::div_mod::lemma_mod_add_multiples_vanish(
                    (b + new_size - 0x1_0000_0000_0000_0000) as int, 0x1_0000_0000_0000_0000);
                vstd::arithmetic::div_mod::lemma_small_mod(
                    (b + new_size - 0x1_0000_0000_0000_0000) as nat, 0x1_0000_0000_0000_0000);
            } else {
                vstd::arithmetic::div_mod::lemma_small_mod((b + new_size) as nat, 0x1_0000_0000_0000_0000);
            }
        }
        self.stats.allocations = self.stats.allocations.wrapping_add(1);
        self.stats.bytes_stored_total = self.stats.bytes_stored_total.wrapping_add(new_size as u64);
        let stamp = self.next_stamp;
        self.next_stamp = stamp + 1;
        slots_insert(&mut self.buffers, slot.to_owned(), (data, fingerprint, stamp));
        proof {
            let m3 = self.slots();
            assert forall|a: Seq<char>, b: Seq<char>|
                #[trigger] m3.contains_key(a) && #[trigger] m3.contains_key(b) && a != b
                implies m3[a].2 != m3[b].2 by {
                if a != slot@ {
                    assert(m2.contains_key(a));
                }
                if b != slot@ {
                    assert(m2.contains_key(b));
                }
            }
        }
        Ok(())
    }

    /// Read data from a slot without removing it: the buffer handed out is a
    /// new handle on the same bytes.
    pub fn get(&mut self, slot: &str) -> (r: Option<SharedBuffer>)
        requires
            old(self).wf(),
        ensures
            final(self).wf(),
            final(self).slots() == old(self).slots(),
            final(self).limit() == old(self).limit(),
            final(self).stamp() == old(self).stamp(),
            r is Some <==> old(self).slots().contains_key(slot@),
            r matches Some(b) ==> b.slot@ == slot@ && buffer_entry(b) == old(self).slots()[slot@],
            final(self).counters() == (if r is Some {
                BufferStatsSnapshot {
                    zero_copy_reads: wrap_add(old(self).counters().zero_copy_reads, 1),
                    ..old(self).counters()
                }
            } else {
                old(self).counters()
            }),
    {
        match slots_get(&self.buffers, slot) {
            Some(v) => {
                proof {
                    let z = self.stats.zero_copy_reads;
                    if z + 1 >= 0x1_0000_0000_0000_0000 {
                        vstd::arithmetic::div_mod::lemma_mod_self_0(0x1_0000_0000_0000_0000);
                    } else {
                        vstd::arithmetic::div_mod::lemma_small_mod((z + 1) as nat, 0x1_0000_0000_0000_0000);
                    }
                }
                self.stats.zero_copy_reads = self.stats.zero_copy_reads.wrapping_add(1);
                Some(SharedBuffer { slot: slot.to_owned(), data: v.0, fingerprint: v.1, created_at: v.2 })
            },
            None => None,
        }
    }

    /// Take data from a slot, removing it (single-consumer pattern).
    pub fn take(&mut self, slot: &str) -> (r: Option<SharedBuffer>)
        requires
            old(self).wf(),
        ensures
            final(self).wf(),
            final(self).slots() == old(self).slots().remove(slot@),
            final(self).limit() == old(self).limit(),
            final(self).stamp() == old(self).stamp(),
            r is Some <==> old(self).slots().contains_key(slot@),
            r matches Some(b) ==> b.slot@ == slot@ && buffer_entry(b) == old(self).slots()[slot@],
            final(self).counters() == (if r is Some {
                BufferStatsSnapshot {
                    takes: wrap_add(old(self).counters().takes, 1),
                    ..old(self).counters()
                }
            } else {
                old(self).counters()
            }),
    {
        let ghost m0 = self.slots();
        match slots_remove(&mut self.buffers, slot) {
            Some(v) => {
                let size = bytes_len(&v.0);
                proof {
                    lemma_bytes_held_remove(m0, slot@);
                    let m1 = self.slots();
                    assert(m1.dom() =~= m0.dom().remove(slot@));
                    assert forall|a: Seq<char>, b: Seq<char>|
                        #[trigger] m1.contains_key(a) && #[trigger] m1.contains_key(b) && a != b
                        implies m1[a].2 != m1[b].2 by {
                        assert(m0.contains_key(a) && m0.contains_key(b));
                    }
                    let t = self.stats.takes;
                    if t + 1 >= 0x1_0000_0000_0000_0000 {
                        vstd::arithmetic::div_mod::lemma_mod_self_0(0x1_0000_0000_0000_0000);
                    } else {
                        vstd::arithmetic::div_mod::lemma_small_mod((t + 1) as nat, 0x1_0000_0000_0000_0000);
                    }
                }
                self.current_bytes = self.current_bytes - size;
                self.stats.takes = self.stats.takes.wrapping_add(1);
                Some(SharedBuffer { slot: slot.to_owned(), data: v.0, fingerprint: v.1, created_at: v.2 })
            },
            None => {
                assert(m0.remove(slot@) =~= m0);
                None
            },
        }
    }

    /// Clear all slots.
    pub fn clear(&mut self)
        requires
            old(self).wf(),
        ensures
            final(self).wf(),
            final(self).slots() == no_slots(),
            final(self).used() == 0,
            final(self).limit() == old(self).limit(),
            final(self).stamp() == old(self).stamp(),
            final(self).counters() == old(self).counters(),
    {
        slots_clear(&mut self.buffers);
        self.current_bytes = 0;
        assert(self.slots().dom() =~= Set::<Seq<char>>::empty());
    }

    /// Whether a creation stamp is left for one more `put` (stamps are 64-bit
    /// and handed out in increasing order).
    pub fn has_fresh_stamp(&self) -> (r: bool)
        ensures
            r == (self.stamp() < u64::MAX),
    {
        self.next_stamp < u64::MAX
    }

    /// Get stats snapshot.
    pub fn stats(&self) -> (r: BufferStatsSnapshot)
        ensures
            r == self.counters(),
    {
        self.stats.snapshot()
    }
}

} // verus!

verus! {

/// The pool's accounting: the pool holds finitely many slots, the bytes
/// reported as used are exactly the sizes of the stored buffers added up,
/// and they never exceed the capacity.
pub proof fn law_usage_is_total_size(p: &SharedBufferPool)
    requires
        p.wf(),
    ensures
        p.slots().dom().finite(),
        p.used() == bytes_held(p.slots()),
        p.used() <= p.limit(),
{
}

/// Read after write: right after a successful `put`, the slot holds exactly
/// the data, fingerprint and stamp just stored (so `get` and `take` return them).
pub proof fn law_read_after_put(
    slots: SlotTable,
    slot: Seq<char>,
    data: Seq<u8>,
    fingerprint: u64,
    stamp: u64,
    limit: nat,
)
    ensures
        put_keeps(slots, slot, data.len(), limit).insert(slot, (data, fingerprint, stamp)).contains_key(slot),
        put_keeps(slots, slot, data.len(), limit).insert(slot, (data, fingerprint, stamp))[slot]
            == (data, fingerprint, stamp),
{
}

/// A `put` whose data is larger than the whole pool is refused, and by then
/// eviction has emptied the pool.
pub proof fn law_oversized_put_empties_pool(slots: SlotTable, slot: Seq<char>, needed: nat, limit: nat)
    requires
        slots.dom().finite(),
        needed > limit,
    ensures
        put_keeps(slots, slot, needed, limit).dom().len() == 0,
        bytes_held(put_keeps(slots, slot, needed, limit)) == 0,
{
    assert(slots.remove(slot).dom() =~= slots.dom().remove(slot));
    lemma_evict_shape(slots.remove(slot), needed, limit);
    crate::buffer_model::lemma_bytes_held_empty(put_keeps(slots, slot, needed, limit));
}

/// A `put` of data that fits into the pool always succeeds: eviction of the
/// oldest slots makes enough room.
pub proof fn law_fitting_put_succeeds(slots: SlotTable, slot: Seq<char>, needed: nat, limit: nat)
    requires
        slots.dom().finite(),
        needed <= limit,
    ensures
        bytes_held(put_keeps(slots, slot, needed, limit)) + needed <= limit,
{
    assert(slots.remove(slot).dom() =~= slots.dom().remove(slot));
    crate::buffer_model::law_eviction_makes_room(slots.remove(slot), needed, limit);
}

/// Replacing a slot reclaims its space: when the new data fits beside the
/// other slots, nothing is evicted and the pool then holds the old total
/// minus the old data plus the new data.
pub proof fn law_replace_reclaims(
    slots: SlotTable,
    slot: Seq<char>,
    data: Seq<u8>,
    fingerprint: u64,
    stamp: u64,
    limit: nat,
)
    requires
        slots.dom().finite(),
        slots.contains_key(slot),
        bytes_held(slots.remove(slot)) + data.len() <= limit,
    ensures
        put_keeps(slots, slot, data.len(), limit) == slots.remove(slot),
        bytes_held(put_keeps(slots, slot, data.len(), limit).insert(slot, (data, fingerprint, stamp)))
            == bytes_held(slots) - slots[slot].0.len() + data.len(),
{
    lemma_bytes_held_remove(slots, slot);
    assert(slots.remove(slot).dom() =~= slots.dom().remove(slot));
    lemma_bytes_held_insert(slots.remove(slot), slot, (data, fingerprint, stamp));
}

/// Taking is single-consumer: once a slot has been taken it is gone, so a
/// second `take` (or `get`) of it finds nothing, and every other slot stays;
/// the pool then holds one slot fewer and the taken data's bytes less.
pub proof fn law_take_consumes(slots: SlotTable, slot: Seq<char>)
    requires
        slots.dom().finite(),
    ensures
        !slots.remove(slot).contains_key(slot),
        forall|k: Seq<char>| k != slot && #[trigger] slots.contains_key(k)
            ==> slots.remove(slot).contains_key(k) && slots.remove(slot)[k] == slots[k],
        slots.contains_key(slot) ==> slots.remove(slot).len() == slots.len() - 1
            && bytes_held(slots.remove(slot)) == bytes_held(slots) - slots[slot].0.len(),
        !slots.contains_key(slot) ==> slots.remove(slot) == slots,
{
    if slots.contains_key(slot) {
        lemma_bytes_held_remove(slots, slot);
        assert(slots.remove(slot).dom() =~= slots.dom().remove(slot));
    } else {
        assert(slots.remove(slot) =~= slots);
    }
}

/// Putting a new slot that fits and then taking it restores the pool: the
/// same slots, holding the same bytes, and the buffer handed back is the one
/// stored.
pub proof fn law_put_then_take_restores(
    slots: SlotTable,
    slot: Seq<char>,
    data: Seq<u8>,
    fingerprint: u64,
    stamp: u64,
    limit: nat,
)
    requires
        slots.dom().finite(),
        !slots.contains_key(slot),
        bytes_held(slots) + data.len() <= limit,
    ensures
        put_keeps(slots, slot, data.len(), limit).insert(slot, (data, fingerprint, stamp))[slot]
            == (data, fingerprint, stamp),
        put_keeps(slots, slot, data.len(), limit).insert(slot, (data, fingerprint, stamp)).remove(slot)
            == slots,
        bytes_held(put_keeps(slots, slot, data.len(), limit).insert(slot, (data, fingerprint, stamp)))
            == bytes_held(slots) + data.len(),
{
    assert(slots.remove(slot) =~= slots);
    assert(put_keeps(slots, slot, data.len(), limit) == slots);
    lemma_bytes_held_insert(slots, slot, (data, fingerprint, stamp));
    assert(slots.insert(slot, (data, fingerprint, stamp)).remove(slot) =~= slots);
}

} // verus!
