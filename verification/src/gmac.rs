//! A model of the JH7110 GMAC1 register window, and of the `sys_syscon` word that
//! holds its PHY-mode field: enough register state to accept a transmit descriptor
//! ring, and the frames it has transmitted. Registers other than the DMA ring's are
//! read-only.

use vstd::prelude::*;
use crate::bytes::{le_bytes, lemma_le_of_le_bytes, lemma_span_of_widths, overwrite};
use crate::mem::{
    law_scrambled_bytes_share_no_cell, lemma_place_bounds, lemma_place_in_frame, lemma_place_same,
    offset, well_scrambled, MemState, Memory, PAGE, RAM_BASE,
};

verus! {

/// GMAC1 (`ethernet@16040000`).
pub const GMAC1_BASE: u64 = 0x1604_0000;
pub const GMAC1_SIZE: u64 = 0x1_0000;

/// `sys_syscon`, which holds `phy_intf_sel` at +0x90.
pub const SYS_SYSCON_BASE: u64 = 0x1303_0000;
pub const SYS_SYSCON_SIZE: u64 = 0x1000;
/// Offset of the `phy_intf_sel` word.
pub const PHY_INTF_SEL_OFFSET: u64 = 0x90;

/// Offset of the MAC version register within the GMAC window.
pub const VERSION_OFFSET: u64 = 0x0110;

/// What the version register reports: the core version in the low byte, a vendor
/// version above it.
pub const SNPSVER_5_20: u64 = 0x0000_1052;

/// `phy_intf_sel` = RGMII (1) at shift 2.
pub const PHY_INTF_SEL_WORD: u64 = 0x4;

/// `DMA_CHAN_TX_BASE_ADDR` (channel 0), low half.
pub const TX_BASE_ADDR: u64 = 0x1114;
/// `DMA_CHAN_TX_BASE_ADDR_HI` (channel 0).
pub const TX_BASE_ADDR_HI: u64 = 0x1110;
/// `DMA_CHAN_TX_RING_LEN` (channel 0).
pub const TX_RING_LEN: u64 = 0x112C;
/// `DMA_CHAN_TX_END_ADDR`, the tail pointer: writing it is the transmit trigger.
pub const TX_END_ADDR: u64 = 0x1120;

/// The descriptor's OWN bit.
pub const TDES3_OWN: u32 = 0x8000_0000;
/// The writeback's error-summary bit: the transmit failed.
pub const TDES3_ERROR_SUMMARY: u32 = 0x8000;
/// Values of the descriptor's buffer-length field.
pub const TDES2_SIZES: u32 = 0x4000;
/// One descriptor is four 32-bit words.
pub const DESCRIPTOR_BYTES: u64 = 16;
/// How many descriptors a single kick will walk, whatever the ring length register
/// says: a guard against a corrupt length.
pub const MAX_WALK: u32 = 64;

/// The modelled GMAC1.
pub struct Gmac {
    tx_base: u64,
    tx_ring_len: u32,
    /// Where the engine is in the ring. Not reset per kick: the device resumes from its
    /// current descriptor.
    tx_current: u32,
    frames: Vec<Vec<u8>>,
}

/// What a [`Gmac`] holds.
pub struct GmacState {
    pub tx_base: u64,
    pub tx_ring_len: u32,
    pub tx_current: u32,
    pub frames: Seq<Seq<u8>>,
}

impl GmacState {
    /// What the register at `addr` shows.
    pub open spec fn register(self, addr: u64) -> u64 {
        if addr == GMAC1_BASE + VERSION_OFFSET {
            SNPSVER_5_20
        } else if addr == SYS_SYSCON_BASE + PHY_INTF_SEL_OFFSET {
            PHY_INTF_SEL_WORD
        } else if addr == GMAC1_BASE + TX_BASE_ADDR {
            self.tx_base % 0x1_0000_0000
        } else if addr == GMAC1_BASE + TX_BASE_ADDR_HI {
            self.tx_base / 0x1_0000_0000
        } else if addr == GMAC1_BASE + TX_RING_LEN {
            self.tx_ring_len as u64
        } else {
            0
        }
    }

    /// The device after `value` was written to the register at `addr`.
    pub open spec fn after_write(self, addr: u64, value: u32) -> GmacState {
        if addr == GMAC1_BASE + TX_BASE_ADDR {
            GmacState {
                tx_base: (self.tx_base as int / 0x1_0000_0000 * 0x1_0000_0000 + value) as u64,
                ..self
            }
        } else if addr == GMAC1_BASE + TX_BASE_ADDR_HI {
            GmacState {
                tx_base: (self.tx_base as int % 0x1_0000_0000 + value * 0x1_0000_0000) as u64,
                ..self
            }
        } else if addr == GMAC1_BASE + TX_RING_LEN {
            GmacState { tx_ring_len: value, ..self }
        } else {
            self
        }
    }

    /// The address of the descriptor the engine is at.
    pub open spec fn descriptor(self) -> u64 {
        offset(self.tx_base, self.tx_current * DESCRIPTOR_BYTES)
    }

    /// The frame the descriptor at `desc` points at, or `None` where its buffer does
    /// not resolve.
    pub open spec fn frame_at(m: MemState, desc: u64) -> Option<Seq<u8>> {
        let lo = m.load_or_zero(desc, 4);
        let hi = m.load_or_zero(offset(desc, 4), 4);
        let len = m.load_or_zero(offset(desc, 8), 4) % TDES2_SIZES as nat;
        m.fetch((hi * 0x1_0000_0000 + lo) as u64, len as int)
    }

    /// The device and memory after a walk of at most `n` descriptors: each one the
    /// guest has handed over is transmitted and handed back, OWN cleared, with the
    /// error bit set where its buffer does not resolve. The walk stops at the first
    /// descriptor that software still owns.
    pub open spec fn transmit(self, m: MemState, n: nat) -> (GmacState, MemState)
        decreases n,
    {
        let desc = self.descriptor();
        let tdes3 = m.load_or_zero(offset(desc, 12), 4) as u32;
        if n == 0 || tdes3 < TDES3_OWN {
            (self, m)
        } else {
            let given_back = (tdes3 - TDES3_OWN) as u32;
            let next = ((self.tx_current as int + 1) % self.tx_ring_len as int) as u32;
            match Self::frame_at(m, desc) {
                Some(frame) => GmacState {
                    frames: self.frames.push(frame),
                    tx_current: next,
                    ..self
                }.transmit(
                    m.store_if_mapped(offset(desc, 12), 4, given_back as nat),
                    (n - 1) as nat,
                ),
                None => GmacState { tx_current: next, ..self }.transmit(
                    m.store_if_mapped(
                        offset(desc, 12),
                        4,
                        (given_back | TDES3_ERROR_SUMMARY) as nat,
                    ),
                    (n - 1) as nat,
                ),
            }
        }
    }

    /// The device and memory after a transmit kick.
    pub open spec fn kicked(self, m: MemState) -> (GmacState, MemState) {
        if self.tx_base == 0 || self.tx_ring_len == 0 {
            (self, m)
        } else {
            self.transmit(
                m,
                if self.tx_ring_len < MAX_WALK {
                    self.tx_ring_len as nat
                } else {
                    MAX_WALK as nat
                },
            )
        }
    }
}

impl View for Gmac {
    type V = GmacState;

    closed spec fn view(&self) -> GmacState {
        GmacState {
            tx_base: self.tx_base,
            tx_ring_len: self.tx_ring_len,
            tx_current: self.tx_current,
            frames: Seq::new(self.frames@.len(), |i: int| self.frames@[i]@),
        }
    }
}

impl Default for Gmac {
    fn default() -> (r: Self)
        ensures
            r@ == (GmacState {
                tx_base: 0,
                tx_ring_len: 0,
                tx_current: 0,
                frames: Seq::empty(),
            }),
    {
        Self::new()
    }
}

impl Gmac {
    pub fn new() -> (r: Self)
        ensures
            r@ == (GmacState {
                tx_base: 0,
                tx_ring_len: 0,
                tx_current: 0,
                frames: Seq::empty(),
            }),
    {
        let r = Gmac { tx_base: 0, tx_ring_len: 0, tx_current: 0, frames: Vec::new() };
        proof {
            assert(r@.frames =~= Seq::<Seq<u8>>::empty());
        }
        r
    }

    /// Whether `addr` is in the GMAC1 or `sys_syscon` window.
    pub fn in_window(addr: u64) -> (r: bool)
        ensures
            r == (GMAC1_BASE <= addr < GMAC1_BASE + GMAC1_SIZE || SYS_SYSCON_BASE <= addr
                < SYS_SYSCON_BASE + SYS_SYSCON_SIZE),
    {
        (GMAC1_BASE <= addr && addr < GMAC1_BASE + GMAC1_SIZE) || (SYS_SYSCON_BASE <= addr && addr
            < SYS_SYSCON_BASE + SYS_SYSCON_SIZE)
    }

    /// Whether writing `addr` hands the device control: [`Gmac::service_tx`] is called
    /// after such a write.
    pub fn is_tx_kick(addr: u64) -> (r: bool)
        ensures
            r == (addr == GMAC1_BASE + TX_END_ADDR),
    {
        addr == GMAC1_BASE + TX_END_ADDR
    }

    /// Frames handed to the device so far, oldest first.
    pub fn frames(&self) -> (r: &[Vec<u8>])
        ensures
            Seq::new(r@.len(), |i: int| r@[i]@) == self@.frames,
    {
        self.frames.as_slice()
    }

    /// Read semantics: the version register identifies the core, the DMA registers
    /// read back what the guest wrote, everything else is zero.
    pub fn read(&self, addr: u64) -> (r: u64)
        ensures
            r == self@.register(addr),
    {
        if addr == GMAC1_BASE + VERSION_OFFSET {
            SNPSVER_5_20
        } else if addr == SYS_SYSCON_BASE + PHY_INTF_SEL_OFFSET {
            PHY_INTF_SEL_WORD
        } else if addr == GMAC1_BASE + TX_BASE_ADDR {
            self.tx_base % 0x1_0000_0000
        } else if addr == GMAC1_BASE + TX_BASE_ADDR_HI {
            self.tx_base / 0x1_0000_0000
        } else if addr == GMAC1_BASE + TX_RING_LEN {
            self.tx_ring_len as u64
        } else {
            0
        }
    }

    /// Capture the DMA registers; swallow everything else.
    pub fn write(&mut self, addr: u64, value: u32)
        ensures
            final(self)@ == old(self)@.after_write(addr, value),
    {
        if addr == GMAC1_BASE + TX_BASE_ADDR {
            self.tx_base = self.tx_base / 0x1_0000_0000 * 0x1_0000_0000 + value as u64;
        } else if addr == GMAC1_BASE + TX_BASE_ADDR_HI {
            self.tx_base = self.tx_base % 0x1_0000_0000 + value as u64 * 0x1_0000_0000;
        } else if addr == GMAC1_BASE + TX_RING_LEN {
            self.tx_ring_len = value;
        }
        proof {
            assert(self@.frames =~= old(self)@.frames);
        }
    }

    /// Walk the descriptor ring from the current descriptor, transmitting every one the
    /// guest has handed over and handing each back by clearing OWN. Stops at the first
    /// descriptor software still owns: completion is in order.
    pub fn service_tx(&mut self, ram: &mut Memory)
        ensures
            (final(self)@, final(ram)@) == old(self)@.kicked(old(ram)@),
    {
        if self.tx_base == 0 {
            return;
        }
        if self.tx_ring_len == 0 {
            return;
        }
        let walk: u32 = if self.tx_ring_len < MAX_WALK {
            self.tx_ring_len
        } else {
            MAX_WALK
        };
        let mut left: u32 = walk;
        let ghost goal = old(self)@.kicked(old(ram)@);
        while left > 0
            invariant
                self.tx_ring_len > 0,
                goal == self@.transmit(ram@, left as nat),
                goal == old(self)@.kicked(old(ram)@),
            decreases left,
        {
            if !self.transmit_one(ram, Ghost(left as nat)) {
                return;
            }
            left = left - 1;
        }
    }

    /// One step of the walk: whether the current descriptor was the device's to send.
    fn transmit_one(&mut self, ram: &mut Memory, Ghost(n): Ghost<nat>) -> (sent: bool)
        requires
            n > 0,
            old(self).tx_ring_len > 0,
        ensures
            final(self).tx_ring_len == old(self).tx_ring_len,
            sent ==> old(self)@.transmit(old(ram)@, n) == final(self)@.transmit(
                final(ram)@,
                (n - 1) as nat,
            ),
            !sent ==> old(self)@.transmit(old(ram)@, n) == (final(self)@, final(ram)@),
    {
        proof {
            lemma_span_of_widths();
        }
        let desc: u64 = self.tx_base.wrapping_add(self.tx_current as u64 * DESCRIPTOR_BYTES);
        let a4: u64 = desc.wrapping_add(4);
        let a8: u64 = desc.wrapping_add(8);
        let a12: u64 = desc.wrapping_add(12);
        proof {
            assert(desc == self@.descriptor());
            assert(a4 == offset(desc, 4));
            assert(a8 == offset(desc, 8));
            assert(a12 == offset(desc, 12));
        }
        let tdes3: u32 = ram.read_u32_or_zero(a12);
        if tdes3 < TDES3_OWN {
            return false;
        }
        let lo: u64 = ram.read_u32_or_zero(desc) as u64;
        let hi: u64 = ram.read_u32_or_zero(a4) as u64;
        let len: u32 = ram.read_u32_or_zero(a8) % TDES2_SIZES;
        let given_back: u32 = tdes3 - TDES3_OWN;
        let next: u32 = ((self.tx_current as u64 + 1) % self.tx_ring_len as u64) as u32;
        let ghost before = self@;
        let writeback: u32 = match ram.fetch(hi * 0x1_0000_0000 + lo, len as usize) {
            Some(frame) => {
                self.frames.push(frame);
                proof {
                    assert(self@.frames =~= before.frames.push(frame@));
                }
                given_back
            },
            None => given_back | TDES3_ERROR_SUMMARY,
        };
        let _ = ram.write_u32(a12, writeback);
        self.tx_current = next;
        true
    }
}

/// Frames are only ever added, in the order in which they were sent.
pub proof fn law_sent_frames_stay_sent(g: GmacState, m: MemState, n: nat)
    ensures
        g.frames.is_prefix_of(g.transmit(m, n).0.frames),
    decreases n,
{
    let desc = g.descriptor();
    let tdes3 = m.load_or_zero(offset(desc, 12), 4) as u32;
    if n > 0 && tdes3 >= TDES3_OWN {
        let given_back = (tdes3 - TDES3_OWN) as u32;
        let next = ((g.tx_current as int + 1) % g.tx_ring_len as int) as u32;
        match GmacState::frame_at(m, desc) {
            Some(frame) => law_sent_frames_stay_sent(
                GmacState { frames: g.frames.push(frame), tx_current: next, ..g },
                m.store_if_mapped(offset(desc, 12), 4, given_back as nat),
                (n - 1) as nat,
            ),
            None => law_sent_frames_stay_sent(
                GmacState { tx_current: next, ..g },
                m.store_if_mapped(
                    offset(desc, 12),
                    4,
                    (given_back | TDES3_ERROR_SUMMARY) as nat,
                ),
                (n - 1) as nat,
            ),
        }
    }
}

// A whole kick, over the ring as it was.

impl GmacState {
    /// The ring position `j` after the current one.
    pub open spec fn slot(self, j: int) -> int {
        if self.tx_current + j < self.tx_ring_len {
            self.tx_current + j
        } else {
            self.tx_current + j - self.tx_ring_len
        }
    }

    /// The descriptor `j` after the current one.
    pub open spec fn slot_descriptor(self, j: int) -> u64 {
        offset(self.tx_base, self.slot(j) * DESCRIPTOR_BYTES)
    }

    /// Word 3 of that descriptor.
    pub open spec fn word3(self, m: MemState, j: int) -> u32 {
        m.load_or_zero(offset(self.slot_descriptor(j), 12), 4) as u32
    }

    /// How many descriptors in a row, from the `j`th after the current one on, the guest has
    /// handed over, `n` at most.
    pub open spec fn handed_over(self, m: MemState, j: int, n: nat) -> nat
        decreases n,
    {
        if n == 0 || self.word3(m, j) < TDES3_OWN {
            0
        } else {
            1 + self.handed_over(m, j + 1, (n - 1) as nat)
        }
    }

    /// What word 3 of that descriptor becomes: OWN cleared, and the error bit set where the
    /// buffer does not resolve.
    pub open spec fn given_back(self, m: MemState, j: int) -> u32 {
        let cleared = (self.word3(m, j) - TDES3_OWN) as u32;
        if Self::frame_at(m, self.slot_descriptor(j)) is Some {
            cleared
        } else {
            cleared | TDES3_ERROR_SUMMARY
        }
    }

    /// The frames of the first `k` descriptors, in ring order, those whose buffer does not
    /// resolve left out.
    pub open spec fn sent(self, m: MemState, k: nat) -> Seq<Seq<u8>>
        decreases k,
    {
        if k == 0 {
            Seq::empty()
        } else {
            let rest = self.sent(m, (k - 1) as nat);
            match Self::frame_at(m, self.slot_descriptor(k - 1)) {
                Some(frame) => rest.push(frame),
                None => rest,
            }
        }
    }

    /// Memory with the first `k` descriptors given back.
    pub open spec fn returned(self, m: MemState, k: nat) -> MemState
        decreases k,
    {
        if k == 0 {
            m
        } else {
            self.returned(m, (k - 1) as nat).store_if_mapped(
                offset(self.slot_descriptor(k - 1), 12),
                4,
                self.given_back(m, k - 1) as nat,
            )
        }
    }

    /// Where word 3 of that descriptor is in RAM.
    pub open spec fn word3_at(self, j: int) -> int {
        self.tx_base - RAM_BASE + self.slot(j) * DESCRIPTOR_BYTES + 12
    }

    /// Whether a byte of RAM is in word 3 of one of the first `k` descriptors.
    pub open spec fn in_word3(self, k: nat, i: int) -> bool {
        exists|j: int| 0 <= j < k && #[trigger] self.word3_at(j) <= i < self.word3_at(j) + 4
    }

    /// Whether a byte of RAM is in the ring.
    pub open spec fn in_ring(self, i: int) -> bool {
        self.tx_base - RAM_BASE <= i < self.tx_base - RAM_BASE + self.tx_ring_len
            * DESCRIPTOR_BYTES
    }

    /// Whether no word of the ring crosses a frame: the ring is aligned to words, or lies in
    /// one frame.
    pub open spec fn words_are_whole(self) -> bool {
        self.tx_base % 4 == 0 || self.tx_base as int % PAGE as int + self.tx_ring_len
            * DESCRIPTOR_BYTES <= PAGE
    }

    /// Whether the ring is in RAM, and no buffer it points at overlaps it. In stress mode, RAM
    /// is scrambled as it should be, and no word of the ring crosses a frame; buffers may, since
    /// they are read byte by byte.
    #[verifier::opaque]
    pub open spec fn ring_apart(self, m: MemState) -> bool {
        &&& m.scramble is Some ==> well_scrambled(m) && self.words_are_whole()
        &&& m.bytes.len() <= u64::MAX - RAM_BASE
        &&& RAM_BASE <= self.tx_base
        &&& self.tx_base + self.tx_ring_len * DESCRIPTOR_BYTES <= RAM_BASE + m.bytes.len()
        &&& self.tx_current < self.tx_ring_len
        &&& forall|j: int, i: int|
            0 <= j < self.tx_ring_len && 0 <= i < Self::buffer(m, self.slot_descriptor(j)).1
                ==> !self.in_ring(
                #[trigger] offset(Self::buffer(m, self.slot_descriptor(j)).0, i) - RAM_BASE,
            )
    }

    /// The buffer a descriptor points at, and its length.
    pub open spec fn buffer(m: MemState, desc: u64) -> (u64, int) {
        let lo = m.load_or_zero(desc, 4);
        let hi = m.load_or_zero(offset(desc, 4), 4);
        (
            (hi * 0x1_0000_0000 + lo) as u64,
            m.load_or_zero(offset(desc, 8), 4) as int % TDES2_SIZES as int,
        )
    }
}

proof fn lemma_addresses(g: GmacState, m: MemState, j: int)
    requires
        g.ring_apart(m),
        0 <= j < g.tx_ring_len,
    ensures
        g.tx_current < g.tx_ring_len,
        0 <= g.slot(j) < g.tx_ring_len,
        g.slot_descriptor(j) == g.tx_base + g.slot(j) * DESCRIPTOR_BYTES,
        forall|o: int|
            0 <= o < 16 ==> #[trigger] offset(g.slot_descriptor(j), o) == g.slot_descriptor(j) + o,
        0 <= g.slot_descriptor(j) - RAM_BASE,
        g.slot_descriptor(j) - RAM_BASE + 16 <= m.bytes.len(),
        g.word3_at(j) == g.slot_descriptor(j) - RAM_BASE + 12,
{
    reveal(GmacState::ring_apart);
}

/// Two bytes of RAM are stored in RAM, and apart.
proof fn lemma_cells(g: GmacState, m: MemState, a: int, b: int)
    requires
        g.ring_apart(m),
        0 <= a < m.bytes.len(),
        0 <= b < m.bytes.len(),
    ensures
        0 <= m.place(a) < m.bytes.len(),
        a != b ==> m.place(a) != m.place(b),
{
    reveal(GmacState::ring_apart);
    if m.scramble is Some {
        law_scrambled_bytes_share_no_cell(m, a, b);
    } else {
        lemma_place_bounds(m, a);
        lemma_place_bounds(m, b);
    }
}

proof fn lemma_words_are_whole(g: GmacState, m: MemState, j: int, o: int)
    requires
        g.ring_apart(m),
        m.scramble is Some,
        0 <= j < g.tx_ring_len,
        o == 0 || o == 4 || o == 8 || o == 12,
    ensures
        (g.slot_descriptor(j) - RAM_BASE + o) % PAGE as int <= PAGE - 4,
{
    lemma_addresses(g, m, j);
    assert(g.words_are_whole()) by {
        reveal(GmacState::ring_apart);
    }
    let start = g.tx_base - RAM_BASE;
    let i = g.slot(j) * DESCRIPTOR_BYTES + o;
    assert(start % PAGE as int == g.tx_base as int % PAGE as int);
    if g.tx_base % 4 == 0 {
        assert((start + i) % 4 == 0);
    } else {
        assert(start % PAGE as int + i + 4 <= PAGE);
    }
}

/// A word of the ring is four bytes of storage in a row.
proof fn lemma_word(g: GmacState, m: MemState, j: int, o: int)
    requires
        g.ring_apart(m),
        0 <= j < g.tx_ring_len,
        o == 0 || o == 4 || o == 8 || o == 12,
    ensures
        ({
            let raw = g.slot_descriptor(j) - RAM_BASE + o;
            &&& 0 <= raw && raw + 4 <= m.bytes.len()
            &&& 0 <= m.place(raw) && m.place(raw) + 4 <= m.bytes.len()
            &&& m.place(raw + 1) == m.place(raw) + 1
            &&& m.place(raw + 2) == m.place(raw) + 2
            &&& m.place(raw + 3) == m.place(raw) + 3
            &&& m.span(offset(g.slot_descriptor(j), o), 4) == Some(m.place(raw))
        }),
{
    lemma_addresses(g, m, j);
    let raw = g.slot_descriptor(j) - RAM_BASE + o;
    assert(offset(g.slot_descriptor(j), o) == g.slot_descriptor(j) + o);
    if m.scramble is Some {
        lemma_words_are_whole(g, m, j, o);
    }
    lemma_place_in_frame(m, raw, 1);
    lemma_place_in_frame(m, raw, 2);
    lemma_place_in_frame(m, raw, 3);
    lemma_cells(g, m, raw, raw + 3);
    lemma_cells(g, m, raw + 3, raw);
}

/// Giving descriptors back changes their word 3 and nothing else.
pub proof fn law_only_word_3_is_given_back(g: GmacState, m: MemState, k: nat)
    requires
        g.ring_apart(m),
        k <= g.tx_ring_len,
    ensures
        ({
            let after = g.returned(m, k);
            &&& after.bytes.len() == m.bytes.len()
            &&& after.scramble == m.scramble
            &&& forall|i: int|
                0 <= i < m.bytes.len() && !g.in_word3(k, i) ==> after.bytes[#[trigger] m.place(i)]
                    == m.bytes[m.place(i)]
            &&& forall|j: int|
                0 <= j < k ==> after.bytes.subrange(
                    m.place(#[trigger] g.word3_at(j)),
                    m.place(g.word3_at(j)) + 4,
                ) == le_bytes(g.given_back(m, j) as nat, 4)
        }),
    decreases k,
{
    if k > 0 {
        let before = g.returned(m, (k - 1) as nat);
        let after = g.returned(m, k);
        law_only_word_3_is_given_back(g, m, (k - 1) as nat);
        lemma_addresses(g, m, k - 1);
        lemma_word(g, m, k - 1, 12);
        lemma_place_same(m, before);
        let raw = g.word3_at(k - 1);
        let at = m.place(raw);
        let value = g.given_back(m, k - 1) as nat;
        lemma_le_of_le_bytes(value, 4);
        assert(g.slot_descriptor(k - 1) - RAM_BASE + 12 == raw);
        assert(before.span(offset(g.slot_descriptor(k - 1), 12), 4) == Some(at));
        assert(after.bytes == overwrite(before.bytes, at, le_bytes(value, 4)));
        assert forall|i: int| 0 <= i < m.bytes.len() && !g.in_word3(k, i) implies after.bytes[
        #[trigger] m.place(i)] == m.bytes[m.place(i)] by {
            if g.in_word3((k - 1) as nat, i) {
                let j = choose|j: int|
                    0 <= j < k - 1 && #[trigger] g.word3_at(j) <= i < g.word3_at(j) + 4;
                assert(0 <= j < k && g.word3_at(j) <= i < g.word3_at(j) + 4);
            }
            assert(!(raw <= i < raw + 4));
            lemma_cells(g, m, i, raw);
            lemma_cells(g, m, i, raw + 1);
            lemma_cells(g, m, i, raw + 2);
            lemma_cells(g, m, i, raw + 3);
            assert(!(at <= m.place(i) < at + 4));
        }
        assert forall|j: int| 0 <= j < k implies after.bytes.subrange(
            m.place(#[trigger] g.word3_at(j)),
            m.place(g.word3_at(j)) + 4,
        ) == le_bytes(g.given_back(m, j) as nat, 4) by {
            lemma_addresses(g, m, j);
            if j == k - 1 {
                assert(after.bytes.subrange(at, at + 4) =~= le_bytes(value, 4));
            } else {
                assert(g.slot(j) != g.slot(k - 1));
                lemma_word(g, m, j, 12);
                let other = g.word3_at(j);
                assert(g.slot_descriptor(j) - RAM_BASE + 12 == other);
                lemma_words_apart(g, m, other, raw);
                assert(after.bytes.subrange(m.place(other), m.place(other) + 4)
                    =~= before.bytes.subrange(m.place(other), m.place(other) + 4));
            }
        }
    }
}

/// Two words that are apart are stored apart.
proof fn lemma_words_apart(g: GmacState, m: MemState, a: int, b: int)
    requires
        g.ring_apart(m),
        0 <= a && a + 4 <= m.bytes.len(),
        0 <= b && b + 4 <= m.bytes.len(),
        a + 4 <= b || b + 4 <= a,
        m.place(a + 1) == m.place(a) + 1,
        m.place(a + 2) == m.place(a) + 2,
        m.place(a + 3) == m.place(a) + 3,
        m.place(b + 1) == m.place(b) + 1,
        m.place(b + 2) == m.place(b) + 2,
        m.place(b + 3) == m.place(b) + 3,
    ensures
        m.place(a) + 4 <= m.place(b) || m.place(b) + 4 <= m.place(a),
{
    lemma_cells(g, m, a, b);
    lemma_cells(g, m, a, b + 1);
    lemma_cells(g, m, a, b + 2);
    lemma_cells(g, m, a, b + 3);
    lemma_cells(g, m, a + 1, b);
    lemma_cells(g, m, a + 2, b);
    lemma_cells(g, m, a + 3, b);
}

/// Handing back earlier descriptors changes nothing outside their words 3.
proof fn lemma_the_rest_is_as_before(g: GmacState, m: MemState, k: nat, i: int)
    requires
        g.ring_apart(m),
        k < g.tx_ring_len,
        0 <= i < m.bytes.len(),
        g.in_ring(i) ==> g.slot_descriptor(k as int) <= i + RAM_BASE < g.slot_descriptor(k as int)
            + 16,
    ensures
        g.returned(m, k).bytes[m.place(i)] == m.bytes[m.place(i)],
{
    law_only_word_3_is_given_back(g, m, k);
    lemma_addresses(g, m, k as int);
    if g.in_word3(k, i) {
        let j = choose|j: int| 0 <= j < k && #[trigger] g.word3_at(j) <= i < g.word3_at(j) + 4;
        lemma_addresses(g, m, j);
        assert(g.slot(j) != g.slot(k as int));
    }
}

/// Handing back earlier descriptors leaves the words of a later one.
proof fn lemma_later_words_are_as_before(g: GmacState, m: MemState, k: nat, o: int)
    requires
        g.ring_apart(m),
        k < g.tx_ring_len,
        o == 0 || o == 4 || o == 8 || o == 12,
    ensures
        ({
            let at = offset(g.slot_descriptor(k as int), o);
            g.returned(m, k).load_or_zero(at, 4) == m.load_or_zero(at, 4)
        }),
{
    law_only_word_3_is_given_back(g, m, k);
    lemma_addresses(g, m, k as int);
    lemma_word(g, m, k as int, o);
    let after = g.returned(m, k);
    lemma_place_same(m, after);
    let raw = g.slot_descriptor(k as int) - RAM_BASE + o;
    let at = m.place(raw);
    lemma_the_rest_is_as_before(g, m, k, raw);
    lemma_the_rest_is_as_before(g, m, k, raw + 1);
    lemma_the_rest_is_as_before(g, m, k, raw + 2);
    lemma_the_rest_is_as_before(g, m, k, raw + 3);
    assert(after.bytes.subrange(at, at + 4) =~= m.bytes.subrange(at, at + 4));
}

/// Handing back earlier descriptors leaves a later one's buffer.
proof fn lemma_later_bytes_are_as_before(g: GmacState, m: MemState, k: nat, i: int)
    requires
        g.ring_apart(m),
        k < g.tx_ring_len,
        0 <= i < GmacState::buffer(m, g.slot_descriptor(k as int)).1,
    ensures
        ({
            let at = offset(GmacState::buffer(m, g.slot_descriptor(k as int)).0, i);
            g.returned(m, k).load(at, 1) == m.load(at, 1)
        }),
{
    law_only_word_3_is_given_back(g, m, k);
    let after = g.returned(m, k);
    lemma_place_same(m, after);
    let raw = offset(GmacState::buffer(m, g.slot_descriptor(k as int)).0, i) - RAM_BASE;
    assert(!g.in_ring(raw)) by {
        reveal(GmacState::ring_apart);
    }
    if 0 <= raw < m.bytes.len() {
        lemma_cells(g, m, raw, raw);
        lemma_the_rest_is_as_before(g, m, k, raw);
        let at = m.place(raw);
        assert(after.bytes.subrange(at, at + 1) =~= m.bytes.subrange(at, at + 1));
    }
}

/// Handing back earlier descriptors changes nothing that a later one is read from.
proof fn lemma_later_descriptors_are_as_before(g: GmacState, m: MemState, k: nat)
    requires
        g.ring_apart(m),
        k < g.tx_ring_len,
    ensures
        ({
            let after = g.returned(m, k);
            let desc = g.slot_descriptor(k as int);
            &&& after.load_or_zero(offset(desc, 12), 4) == m.load_or_zero(offset(desc, 12), 4)
            &&& GmacState::frame_at(after, desc) == GmacState::frame_at(m, desc)
        }),
{
    let after = g.returned(m, k);
    let desc = g.slot_descriptor(k as int);
    lemma_addresses(g, m, k as int);
    assert(offset(desc, 0) == desc);
    lemma_later_words_are_as_before(g, m, k, 0);
    lemma_later_words_are_as_before(g, m, k, 4);
    lemma_later_words_are_as_before(g, m, k, 8);
    lemma_later_words_are_as_before(g, m, k, 12);
    let (buf, len) = GmacState::buffer(m, desc);
    assert forall|i: int| 0 <= i < len implies #[trigger] after.load(offset(buf, i), 1) == m.load(
        offset(buf, i),
        1,
    ) by {
        lemma_later_bytes_are_as_before(g, m, k, i);
    }
    lemma_same_bytes_same_frame(m, after, buf, len);
}

proof fn lemma_same_bytes_same_frame(m: MemState, n: MemState, buf: u64, len: int)
    requires
        0 <= len,
        forall|i: int|
            0 <= i < len ==> #[trigger] n.load(offset(buf, i), 1) == m.load(offset(buf, i), 1),
    ensures
        n.fetch(buf, len) == m.fetch(buf, len),
{
    if m.mapped(buf, len) {
        assert forall|i: int| 0 <= i < len implies #[trigger] n.load(offset(buf, i), 1) is Some by {
            assert(m.load(offset(buf, i), 1) is Some);
        }
        let a = n.fetch(buf, len)->0;
        let b = m.fetch(buf, len)->0;
        assert forall|i: int| 0 <= i < a.len() implies a[i] == b[i] by {
            assert(n.load(offset(buf, i), 1) == m.load(offset(buf, i), 1));
        }
        assert(a =~= b);
    }
    if n.mapped(buf, len) {
        assert forall|i: int| 0 <= i < len implies #[trigger] m.load(offset(buf, i), 1) is Some by {
            assert(n.load(offset(buf, i), 1) is Some);
        }
    }
}

proof fn lemma_walk(g: GmacState, m: MemState, j: nat, n: nat)
    requires
        g.ring_apart(m),
        j + n <= g.tx_ring_len,
    ensures
        ({
            let here = GmacState {
                frames: g.frames + g.sent(m, j),
                tx_current: g.slot(j as int) as u32,
                ..g
            };
            let k = j + g.handed_over(m, j as int, n);
            here.transmit(g.returned(m, j), n) == (
                GmacState {
                    frames: g.frames + g.sent(m, k),
                    tx_current: g.slot(k as int) as u32,
                    ..g
                },
                g.returned(m, k),
            )
        }),
    decreases n,
{
    let here = GmacState {
        frames: g.frames + g.sent(m, j),
        tx_current: g.slot(j as int) as u32,
        ..g
    };
    if n > 0 {
        lemma_later_descriptors_are_as_before(g, m, j);
        lemma_addresses(g, m, j as int);
        let desc = g.slot_descriptor(j as int);
        assert(here.descriptor() == desc);
        if g.word3(m, j as int) >= TDES3_OWN {
            lemma_walk(g, m, j + 1, (n - 1) as nat);
            assert((here.tx_current as int + 1) % g.tx_ring_len as int == g.slot((j + 1) as int))
                by {
                let x = here.tx_current as int + 1;
                let r = g.tx_ring_len as int;
                if x < r {
                    vstd::arithmetic::div_mod::lemma_small_mod(x as nat, r as nat);
                } else {
                    vstd::arithmetic::div_mod::lemma_mod_self_0(r);
                }
            }
            match GmacState::frame_at(m, desc) {
                Some(frame) => {
                    assert(here.frames.push(frame) =~= g.frames + g.sent(m, (j + 1) as nat));
                },
                None => {},
            }
        }
    }
}

/// A kick handles the descriptors in a row that the guest has handed over, and no others, in
/// ring order: their buffers are sent, word 3 of each is given back, and the next kick goes
/// on after them.
pub proof fn law_a_kick_sends_what_was_handed_over(g: GmacState, m: MemState)
    requires
        g.tx_base != 0,
        0 < g.tx_ring_len <= MAX_WALK,
        g.ring_apart(m),
    ensures
        ({
            let k = g.handed_over(m, 0, g.tx_ring_len as nat);
            g.kicked(m) == (
                GmacState {
                    frames: g.frames + g.sent(m, k),
                    tx_current: g.slot(k as int) as u32,
                    ..g
                },
                g.returned(m, k),
            )
        }),
{
    lemma_addresses(g, m, 0);
    lemma_walk(g, m, 0, g.tx_ring_len as nat);
    assert(g.frames + g.sent(m, 0) =~= g.frames);
}

} // verus!
