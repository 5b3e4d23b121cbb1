//! A per-hart **decode cache**: the result of fetching and expanding an instruction,
//! kept under its virtual pc, so that a re-executed instruction skips straight to
//! dispatch. Plain data, no generated code. A cached entry is a *translated*
//! instruction, so it is valid for one address space and until the guest invalidates
//! translations; a `satp` change and an `sfence.vma` both flush.

use vstd::prelude::*;

verus! {

/// Direct-mapped slots, indexed by `pc / 2` (instructions are 2-byte aligned).
pub const SLOTS: usize = 32768;

/// A decoded instruction ready for the executor: the 32-bit form it consumes
/// (compressed instructions already expanded) plus the length to advance the pc by.
#[derive(Clone, Copy, Debug, PartialEq, Eq, Structural)]
pub struct Decoded {
    pub raw: u32,
    pub ilen: u64,
}

/// One direct-mapped slot: the full pc as a tag, the epoch it was written in (for
/// flushing at once), and the decoded instruction.
#[derive(Clone, Copy)]
struct Slot {
    epoch: u64,
    tag: u64,
    decoded: Decoded,
}

/// A per-hart decode cache: a direct-mapped array. Slots of an earlier epoch are
/// stale, so a flush is an epoch bump.
pub struct DecodeCache {
    /// The address space the live entries belong to.
    satp: u64,
    /// The current epoch; it starts at 1, so the initial slots (epoch 0) are invalid.
    epoch: u64,
    slots: Vec<Slot>,
    hits: u64,
    misses: u64,
}

/// What a [`DecodeCache`] holds: the live entries by pc, their address space, and the
/// lookup counts.
pub struct DecodeState {
    pub satp: u64,
    pub entries: Map<u64, Decoded>,
    pub hits: u64,
    pub misses: u64,
}

/// The slot of `pc`; two pcs with one slot evict each other.
pub open spec fn slot_index(pc: u64) -> int {
    pc as int / 2 % SLOTS as int
}

impl DecodeState {
    /// A cold cache.
    pub open spec fn cold() -> DecodeState {
        DecodeState { satp: 0, entries: Map::empty(), hits: 0, misses: 0 }
    }

    /// No entry left; the address space stays.
    pub open spec fn flushed(self) -> DecodeState {
        DecodeState { entries: Map::empty(), ..self }
    }

    /// The cache as it stands for address space `satp`: another space flushes.
    pub open spec fn in_space(self, satp: u64) -> DecodeState {
        if satp != self.satp {
            DecodeState { satp, ..self.flushed() }
        } else {
            self
        }
    }

    /// The entry that a lookup of `pc` in address space `satp` finds.
    pub open spec fn lookup(self, satp: u64, pc: u64) -> Option<Decoded> {
        if self.in_space(satp).entries.dom().contains(pc) {
            Some(self.in_space(satp).entries[pc])
        } else {
            None
        }
    }

    /// The cache after that lookup, which is counted.
    pub open spec fn after_lookup(self, satp: u64, pc: u64) -> DecodeState {
        match self.lookup(satp, pc) {
            Some(_) => DecodeState {
                hits: self.hits.wrapping_add(1),
                ..self.in_space(satp)
            },
            None => DecodeState {
                misses: self.misses.wrapping_add(1),
                ..self.in_space(satp)
            },
        }
    }

    /// The cache with `decoded` recorded for `pc`; whatever shared its slot is gone.
    pub open spec fn with(self, pc: u64, decoded: Decoded) -> DecodeState {
        DecodeState {
            entries: Map::new(
                |q: u64| q == pc || (self.entries.dom().contains(q) && slot_index(q) != slot_index(
                    pc,
                )),
                |q: u64|
                    if q == pc {
                        decoded
                    } else {
                        self.entries[q]
                    },
            ),
            ..self
        }
    }
}

impl View for DecodeCache {
    type V = DecodeState;

    closed spec fn view(&self) -> DecodeState {
        DecodeState {
            satp: self.satp,
            entries: Map::new(
                |pc: u64| self.slots@[slot_index(pc)].epoch == self.epoch && self.slots@[slot_index(pc)].tag
                    == pc,
                |pc: u64| self.slots@[slot_index(pc)].decoded,
            ),
            hits: self.hits,
            misses: self.misses,
        }
    }
}

impl Clone for DecodeCache {
    fn clone(&self) -> (r: Self)
        ensures
            r@ == self@,
            self.wf() ==> r.wf(),
    {
        let slots = self.slots.clone();
        proof {
            assert(slots@ =~= self.slots@);
        }
        DecodeCache {
            satp: self.satp,
            epoch: self.epoch,
            slots,
            hits: self.hits,
            misses: self.misses,
        }
    }
}

impl Default for DecodeCache {
    fn default() -> (r: Self)
        ensures
            r.wf(),
            r@ == DecodeState::cold(),
    {
        Self::new()
    }
}

impl DecodeCache {
    /// Every slot is there, and none is of an epoch to come.
    pub closed spec fn wf(self) -> bool {
        &&& self.slots@.len() == SLOTS
        &&& self.epoch >= 1
        &&& forall|i: int| 0 <= i < SLOTS ==> (#[trigger] self.slots@[i]).epoch <= self.epoch
    }

    pub fn new() -> (r: Self)
        ensures
            r.wf(),
            r@ == DecodeState::cold(),
    {
        let empty: Slot = Slot { epoch: 0, tag: 0, decoded: Decoded { raw: 0, ilen: 0 } };
        let slots: Vec<Slot> = vec![empty; SLOTS];
        let r = Self { satp: 0, epoch: 1, slots, hits: 0, misses: 0 };
        proof {
            assert forall|i: int| 0 <= i < SLOTS implies (#[trigger] r.slots@[i]).epoch == 0 by {
                assert(cloned(empty, r.slots@[i]));
            }
            assert(r@.entries =~= Map::<u64, Decoded>::empty());
        }
        r
    }

    fn index(pc: u64) -> (r: usize)
        ensures
            r == slot_index(pc),
            r < SLOTS,
    {
        (pc / 2 % SLOTS as u64) as usize
    }

    /// Look up `pc` in address space `satp`. A `satp` change flushes first (the slots
    /// map different physical code). A hit is an entry for this exact pc.
    pub fn get(&mut self, satp: u64, pc: u64) -> (r: Option<Decoded>)
        requires
            old(self).wf(),
        ensures
            final(self).wf(),
            r == old(self)@.lookup(satp, pc),
            final(self)@ == old(self)@.after_lookup(satp, pc),
    {
        if satp != self.satp {
            self.satp = satp;
            self.flush();
        }
        let slot: Slot = self.slots[Self::index(pc)];
        let ghost before = self@.entries;
        if slot.epoch == self.epoch && slot.tag == pc {
            self.hits = self.hits.wrapping_add(1);
            proof {
                assert(self@.entries =~= before);
            }
            Some(slot.decoded)
        } else {
            self.misses = self.misses.wrapping_add(1);
            proof {
                assert(self@.entries =~= before);
            }
            None
        }
    }

    /// Record the slow-path decode of `pc`, evicting whatever aliased its slot.
    pub fn insert(&mut self, pc: u64, decoded: Decoded)
        requires
            old(self).wf(),
        ensures
            final(self).wf(),
            final(self)@ == old(self)@.with(pc, decoded),
    {
        let i: usize = Self::index(pc);
        self.slots[i] = Slot { epoch: self.epoch, tag: pc, decoded };
        proof {
            assert(self@.entries =~= old(self)@.with(pc, decoded).entries);
        }
    }

    /// Invalidate every slot: the guest invalidated translations (`sfence.vma`). The
    /// `satp` marker is left as it is.
    pub fn flush(&mut self)
        requires
            old(self).wf(),
        ensures
            final(self).wf(),
            final(self)@ == old(self)@.flushed(),
    {
        if self.epoch == u64::MAX {
            let fresh = Self::new();
            self.slots = fresh.slots;
            self.epoch = fresh.epoch;
            proof {
                assert(fresh@.entries =~= Map::<u64, Decoded>::empty());
                assert forall|pc: u64| !self@.entries.dom().contains(pc) by {
                    assert(!fresh@.entries.dom().contains(pc));
                }
            }
        } else {
            self.epoch = self.epoch + 1;
        }
        proof {
            assert(self@.entries =~= Map::<u64, Decoded>::empty());
        }
    }

    /// Lookups that found an entry.
    pub fn hits(&self) -> (r: u64)
        ensures
            r == self@.hits,
    {
        self.hits
    }
}

/// What was recorded for a pc is found there, and nothing else shares its slot.
pub proof fn law_lookup_after_insert(c: DecodeState, pc: u64, q: u64, decoded: Decoded)
    ensures
        c.with(pc, decoded).lookup(c.satp, pc) == Some(decoded),
        slot_index(q) != slot_index(pc) ==> c.with(pc, decoded).lookup(c.satp, q) == c.lookup(
            c.satp,
            q,
        ),
        q != pc && slot_index(q) == slot_index(pc) ==> c.with(pc, decoded).lookup(c.satp, q)
            is None,
{
}

/// Nothing survives a flush, nor a change of address space, even one back again.
pub proof fn law_a_flush_drops_everything(c: DecodeState, satp: u64, pc: u64)
    ensures
        c.flushed().lookup(satp, pc) is None,
        satp != c.satp ==> c.lookup(satp, pc) is None && c.in_space(satp).lookup(c.satp, pc)
            is None,
{
}

} // verus!
