//! A multi-hart machine: several [`Hart`]s sharing one [`Bus`] and a common clock. The
//! scheduler is deterministic round-robin, one instruction (or compiled block) per running
//! hart per round. Memory is sequentially consistent: one shared bus, an instruction is
//! indivisible.

use std::collections::hash_map::DefaultHasher;
use std::collections::HashMap;
use std::hash::Hasher;
use vstd::prelude::*;
use vstd::std_specs::hash::DefaultHasherAdditionalSpecFns;
use vstd::string::*;
use crate::bus::{Bus, BusState};
use crate::bytes::{le_bytes, push_le};
use crate::cpu::{
    all_wf, memop_charge, service_sbi, serviced, states, Hart, HartEffect, HartState, Privilege,
    StepError,
};
use crate::csr::addr;
use crate::decode_cache::DecodeState;
use crate::framebuffer::{
    packed_rows, ppm_header, render_ppm, rgb_rows, to_minifb_buffer,
};
use crate::fwcfg::{Fwcfg, RamfbCfg};
use crate::mem::{offset, BusError, MemState, Memory};
use crate::model::{native_memop, step, BlockCacheState, HartModel};
use crate::text::{
    append_bus_error, append_decimal, append_step_error, ascii, bus_error_text, decimal,
    step_error_text,
};
use crate::uart::UartState;

verus! {

broadcast use vstd::std_specs::hash::group_hash_axioms;

/// A memory op being timed on one hart: its return address, the length it was called
/// with, and the instructions retired since its entry.
#[derive(Debug, Clone, Copy, PartialEq, Eq, Structural)]
pub struct InFlight {
    pub return_pc: u64,
    pub len: u64,
    pub count: u64,
}

/// Calibration probe for the native-op collapse. With native ops off it watches each
/// `memset`/`memcpy` from its entry to its return, recording how many instructions the
/// interpreter retired next to what [`memop_charge`] would have charged.
struct MemopProbe {
    /// Per hart: the op being timed, if the hart is inside one.
    inflight: Vec<Option<InFlight>>,
    invocations: u64,
    real: u64,
    charged: u64,
}

/// What the probe holds.
pub struct ProbeState {
    pub inflight: Seq<Option<InFlight>>,
    pub invocations: u64,
    pub real: u64,
    pub charged: u64,
}

impl View for MemopProbe {
    type V = ProbeState;

    closed spec fn view(&self) -> ProbeState {
        ProbeState {
            inflight: self.inflight@,
            invocations: self.invocations,
            real: self.real,
            charged: self.charged,
        }
    }
}

/// A machine over one shared address space. `Clone` is the snapshot primitive: a machine
/// has no hidden state, so a snapshot is a deep copy.
pub struct Machine {
    pub harts: Vec<Hart>,
    pub bus: Bus,
    /// The shared monotonic clock: one tick per instruction executed by any hart.
    time: u64,
    /// Exact profiler: instructions retired per pc, across all harts. `None` when off.
    profile: Option<HashMap<u64, u64>>,
    /// Where `memset` / `memcpy` start in the guest, for the native-op helper.
    memset_pc: Option<u64>,
    memcpy_pc: Option<u64>,
    native_ops: bool,
    memop_probe: Option<MemopProbe>,
}

/// What a [`Machine`] holds.
pub struct MachineState {
    pub harts: Seq<HartModel>,
    pub bus: BusState,
    pub time: u64,
    pub profile: Option<Map<u64, u64>>,
    pub memset_pc: Option<u64>,
    pub memcpy_pc: Option<u64>,
    pub native_ops: bool,
    pub probe: Option<ProbeState>,
}

/// What came of a hart's turn: whether it retired anything, or why it could not go on.
pub type Turn = Result<bool, StepError>;

impl MachineState {
    /// The clock advanced by `n`.
    pub open spec fn ticked(self, n: u64) -> MachineState {
        MachineState { time: self.time.wrapping_add(n), ..self }
    }

    /// `n` instructions attributed to `pc`, where profiling is on.
    pub open spec fn counted(self, pc: u64, n: u64) -> MachineState {
        MachineState {
            profile: match self.profile {
                Some(p) => Some(
                    p.insert(
                        pc,
                        (if p.dom().contains(pc) {
                            p[pc]
                        } else {
                            0
                        }).wrapping_add(n),
                    ),
                ),
                None => None,
            },
            ..self
        }
    }

    /// Whether `pc` is where `memset` or `memcpy` starts.
    pub open spec fn is_memop(self, pc: u64) -> bool {
        self.memset_pc == Some(pc) || self.memcpy_pc == Some(pc)
    }

    /// The probe has seen hart `i` about to execute at `pc`: a memory op that starts here
    /// is timed from now on, unless one is already.
    #[verifier::opaque]
    pub open spec fn entered(self, i: int, pc: u64) -> MachineState {
        match self.probe {
            Some(p) if self.is_memop(pc) && p.inflight[i] is None => MachineState {
                probe: Some(
                    ProbeState {
                        inflight: p.inflight.update(
                            i,
                            Some(
                                InFlight {
                                    return_pc: self.harts[i].x[1],
                                    len: self.harts[i].x[12],
                                    count: 0,
                                },
                            ),
                        ),
                        ..p
                    },
                ),
                ..self
            },
            _ => self,
        }
    }

    /// The probe has seen hart `i` retire an instruction: it counts toward the op being
    /// timed, and the op is done when the hart is back at its return address.
    #[verifier::opaque]
    pub open spec fn noted(self, i: int) -> MachineState {
        match self.probe {
            Some(p) => match p.inflight[i] {
                Some(f) => {
                    let count = f.count.wrapping_add(1);
                    let next = if self.harts[i].pc == f.return_pc {
                        ProbeState {
                            inflight: p.inflight.update(i, None),
                            invocations: p.invocations.wrapping_add(1),
                            real: p.real.wrapping_add(count),
                            charged: p.charged.wrapping_add(
                                crate::model::memop_charge(f.len),
                            ),
                        }
                    } else {
                        ProbeState {
                            inflight: p.inflight.update(i, Some(InFlight { count, ..f })),
                            ..p
                        }
                    };
                    MachineState { probe: Some(next), ..self }
                },
                None => self,
            },
            None => self,
        }
    }

    /// Hart `i` has stepped against the shared clock and bus; `probing` says whether the
    /// probe watches.
    #[verifier::opaque]
    pub open spec fn turn(self, i: int, probing: bool) -> (MachineState, Turn) {
        let pc = self.harts[i].pc;
        let m0 = if probing {
            self.entered(i, pc)
        } else {
            self
        };
        let (h, bus, r) = step(HartModel { cycle: self.time, ..self.harts[i] }, self.bus);
        let m1 = MachineState { harts: self.harts.update(i, h), bus, ..m0 };
        match r {
            Err(e) => (m1, Err(e)),
            Ok(HartEffect::Idle) => (m1, Ok(false)),
            Ok(HartEffect::Block(n)) => (m1.ticked(n).counted(pc, n), Ok(true)),
            Ok(HartEffect::Retired) => (m1.after_one(i, pc, probing), Ok(true)),
            Ok(HartEffect::Sbi(req)) => (
                MachineState { harts: serviced(m1.harts, i, req), ..m1 }.after_one(
                    i,
                    pc,
                    probing,
                ),
                Ok(true),
            ),
        }
    }

    /// One instruction of hart `i` at `pc` has retired.
    pub open spec fn after_one(self, i: int, pc: u64, probing: bool) -> MachineState {
        if probing {
            self.ticked(1).noted(i).counted(pc, 1)
        } else {
            self.ticked(1).counted(pc, 1)
        }
    }

    /// The turns of a round from hart `i` on, `retired` saying whether anything has
    /// retired before. Stopped harts are passed over.
    pub open spec fn turns(self, i: int, retired: bool) -> (MachineState, Turn)
        decreases self.harts.len() - i,
        when 0 <= i <= self.harts.len()
        via Self::turns_decreases
    {
        if i >= self.harts.len() {
            (self, Ok(retired))
        } else if self.harts[i].run == HartState::Stopped {
            self.turns(i + 1, retired)
        } else {
            match self.turn(i, true) {
                (m, Err(e)) => (m, Err(e)),
                (m, Ok(b)) => m.turns(i + 1, retired || b),
            }
        }
    }

    #[via_fn]
    proof fn turns_decreases(self, i: int, retired: bool) {
        if 0 <= i < self.harts.len() {
            self.lemma_turn_keeps_harts(i, true);
        }
    }

    /// The probe's watch on entries changes nothing but the probe.
    pub proof fn lemma_entered_keeps(self, i: int, pc: u64)
        ensures
            self.entered(i, pc) == (MachineState { probe: self.entered(i, pc).probe, ..self }),
    {
        reveal(MachineState::entered);
    }

    /// A turn adds and removes no hart, nor a probe slot, nor the helpers' settings.
    pub proof fn lemma_turn_keeps_harts(self, i: int, probing: bool)
        requires
            0 <= i < self.harts.len(),
        ensures
            self.turn(i, probing).0.harts.len() == self.harts.len(),
            self.turn(i, probing).0.memset_pc == self.memset_pc,
            self.turn(i, probing).0.memcpy_pc == self.memcpy_pc,
            self.turn(i, probing).0.native_ops == self.native_ops,
    {
        reveal(MachineState::turn);
        reveal(MachineState::entered);
        reveal(MachineState::noted);
        reveal(serviced);
    }

    /// The soonest clock value at which the armed timer of one of the first `n` harts
    /// would wake it, if it is idle.
    pub open spec fn earliest_deadline(harts: Seq<HartModel>, n: int) -> Option<u64>
        decreases n,
    {
        if n <= 0 {
            None
        } else {
            let rest = Self::earliest_deadline(harts, n - 1);
            let own = if harts[n - 1].run == HartState::Idle {
                harts[n - 1].deadline()
            } else {
                None
            };
            match (rest, own) {
                (Some(a), Some(b)) => Some(
                    if b < a {
                        b
                    } else {
                        a
                    },
                ),
                (None, b) => b,
                (a, None) => a,
            }
        }
    }

    /// One scheduler round: each hart's turn, in id order. Where nothing retired, the
    /// clock jumps to the earliest armed deadline.
    #[verifier::opaque]
    pub open spec fn round(self) -> (MachineState, Result<(), StepError>) {
        match self.turns(0, false) {
            (m, Err(e)) => (m, Err(e)),
            (m, Ok(true)) => (m, Ok(())),
            (m, Ok(false)) => (
                match Self::earliest_deadline(m.harts, m.harts.len() as int) {
                    Some(t) if t > m.time => MachineState { time: t, ..m },
                    _ => m,
                },
                Ok(()),
            ),
        }
    }

    /// The turns of every hart but `i`, from hart `j` on, while `i`'s memory op is
    /// collapsed.
    pub open spec fn peers(self, i: int, j: int) -> (MachineState, Result<(), StepError>)
        decreases self.harts.len() - j,
        when 0 <= j <= self.harts.len()
        via Self::peers_decreases
    {
        if j >= self.harts.len() {
            (self, Ok(()))
        } else if j == i || self.harts[j].run == HartState::Stopped {
            self.peers(i, j + 1)
        } else {
            match self.turn(j, false) {
                (m, Err(e)) => (m, Err(e)),
                (m, Ok(_)) => m.peers(i, j + 1),
            }
        }
    }

    #[via_fn]
    proof fn peers_decreases(self, i: int, j: int) {
        if 0 <= j < self.harts.len() {
            self.lemma_turn_keeps_harts(j, false);
        }
    }

    /// `n` rounds in which hart `i` retires one instruction of its memory op and every
    /// other hart has a turn.
    pub open spec fn peer_rounds(self, i: int, n: u64) -> (MachineState, Result<(), StepError>)
        decreases n,
    {
        if n == 0 {
            (self, Ok(()))
        } else {
            match self.ticked(1).peers(i, 0) {
                (m, Err(e)) => (m, Err(e)),
                (m, Ok(())) => m.peer_rounds(i, (n - 1) as u64),
            }
        }
    }

    /// Whether hart `j` neither retires nor wakes before the clock reaches `end`.
    pub open spec fn quiet(h: HartModel, end: u64) -> bool {
        h.run == HartState::Stopped || (h.run == HartState::Idle && match h.deadline() {
            Some(t) => t > end,
            None => true,
        })
    }

    /// The machine after the `charged` instructions of hart `i`'s collapsed memory op: a
    /// jump of the clock where no other hart would have moved, else the rounds it stands
    /// for.
    #[verifier::opaque]
    pub open spec fn collapsed(self, i: int, charged: u64) -> (
        MachineState,
        Result<(), StepError>,
    ) {
        let end = self.time.wrapping_add(charged);
        if forall|j: int|
            0 <= j < self.harts.len() && j != i ==> Self::quiet(#[trigger] self.harts[j], end) {
            (MachineState { time: end, ..self }, Ok(()))
        } else {
            self.peer_rounds(i, charged)
        }
    }

    /// The lowest-id running hart from `i` on that is at the start of a memory op.
    pub open spec fn at_memop(self, i: int) -> Option<int>
        decreases self.harts.len() - i,
    {
        if i < 0 || i >= self.harts.len() {
            None
        } else if self.harts[i].run == HartState::Running && self.is_memop(self.harts[i].pc) {
            Some(i)
        } else {
            self.at_memop(i + 1)
        }
    }

    /// The machine advanced: a memory op collapsed, or one round.
    #[verifier::opaque]
    pub open spec fn stepped(self) -> (MachineState, Result<(), StepError>) {
        match self.at_memop(0) {
            Some(i) if self.native_ops => {
                let (h, bus, done) = native_memop(
                    self.harts[i],
                    self.bus,
                    self.memset_pc,
                    self.memcpy_pc,
                );
                let m = MachineState { harts: self.harts.update(i, h), bus, ..self };
                match done {
                    Some(charged) => m.counted(self.harts[i].pc, charged).collapsed(i, charged),
                    None => m.round(),
                }
            },
            _ => self.round(),
        }
    }

    /// Steps until the UART has printed `marker`, at most `left` more. `seen` is how much
    /// output has been searched, `steps` how many steps were taken.
    pub open spec fn until_uart(self, marker: Seq<u8>, seen: int, left: nat, steps: u64) -> (
        MachineState,
        Result<u64, Option<StepError>>,
    )
        decreases left,
    {
        if left == 0 {
            (self, Err(None))
        } else if self.bus.uart.output.len() != seen && occurs(self.bus.uart.output, marker) {
            (self, Ok(steps))
        } else {
            match self.stepped() {
                (m, Err(e)) => (m, Err(Some(e))),
                (m, Ok(())) => m.until_uart(
                    marker,
                    self.bus.uart.output.len() as int,
                    (left - 1) as nat,
                    steps.wrapping_add(1),
                ),
            }
        }
    }
}

/// Whether `needle` occurs in `s`.
pub open spec fn occurs(s: Seq<u8>, needle: Seq<u8>) -> bool {
    exists|i: int|
        0 <= i <= s.len() - needle.len() && #[trigger] s.subrange(i, i + needle.len()) == needle
}

/// Whether `needle` occurs in `s`.
fn find(s: &[u8], needle: &[u8]) -> (r: bool)
    ensures
        r == occurs(s@, needle@),
{
    let n: usize = needle.len();
    if s.len() < n {
        return false;
    }
    let mut i: usize = 0;
    let last: usize = s.len() - n;
    while i <= last
        invariant
            last == s@.len() - n,
            n == needle@.len(),
            i <= last + 1,
            forall|k: int|
                0 <= k < i ==> #[trigger] s@.subrange(k, k + needle@.len()) != needle@,
        decreases last + 1 - i,
    {
        if starts_with(s, i, needle) {
            return true;
        }
        if i == last {
            return false;
        }
        i += 1;
    }
    false
}

/// Whether `needle` stands at offset `at` of `s`.
pub fn starts_with(s: &[u8], at: usize, needle: &[u8]) -> (r: bool)
    requires
        at + needle@.len() <= s.len(),
    ensures
        r == (s@.subrange(at as int, at + needle@.len()) == needle@),
{
    let mut k: usize = 0;
    while k < needle.len()
        invariant
            k <= needle@.len(),
            at + needle@.len() <= s.len(),
            forall|j: int| 0 <= j < k ==> s@[at + j] == needle@[j],
        decreases needle@.len() - k,
    {
        if s[at + k] != needle[k] {
            proof {
                assert(s@.subrange(at as int, at + needle@.len())[k as int] != needle@[k as int]);
            }
            return false;
        }
        k += 1;
    }
    proof {
        assert(s@.subrange(at as int, at + needle@.len()) =~= needle@);
    }
    true
}

// The bytes a machine's state is hashed from.

/// A word.
pub open spec fn word_bytes(v: u64) -> Seq<u8> {
    le_bytes(v as nat, 8)
}

/// How many bytes a `usize` takes on this machine.
pub open spec fn usize_width() -> nat {
    if usize::MAX > 0xffff_ffff {
        8
    } else {
        4
    }
}

/// A length or the number of an alternative: of the machine's own word size.
pub open spec fn length_bytes(v: nat) -> Seq<u8> {
    le_bytes(v, usize_width())
}

/// Words, one after the other.
pub open spec fn words_bytes(s: Seq<u64>, n: int) -> Seq<u8>
    decreases n,
{
    if n <= 0 {
        Seq::empty()
    } else {
        words_bytes(s, n - 1) + word_bytes(s[n - 1])
    }
}

/// A byte string, after its length.
pub open spec fn sized_bytes(s: Seq<u8>) -> Seq<u8> {
    length_bytes(s.len()) + s
}

/// A hart's architectural state: registers, pc, privilege, CSRs, reservation, and whether
/// it runs. Performance toggles and diagnostics are left out.
pub open spec fn hart_bytes(h: HartModel) -> Seq<u8> {
    length_bytes(32) + words_bytes(h.x, 32) + word_bytes(h.pc) + length_bytes(
        match h.privilege {
            Privilege::User => 0,
            Privilege::Supervisor => 1,
        },
    ) + length_bytes(10) + words_bytes(h.csr, 10) + reservation_bytes(h.reservation) + length_bytes(
        match h.run {
            HartState::Running => 0,
            HartState::Stopped => 1,
            HartState::Idle => 2,
        },
    )
}

/// The harts' states, in id order.
pub open spec fn harts_bytes(harts: Seq<HartModel>, n: int) -> Seq<u8>
    decreases n,
{
    if n <= 0 {
        Seq::empty()
    } else {
        harts_bytes(harts, n - 1) + hart_bytes(harts[n - 1])
    }
}

/// The part of RAM that was ever written, by the loader or by the guest: everything above it
/// is 0.
pub open spec fn written(m: MemState) -> Seq<u8> {
    if m.extent < m.bytes.len() {
        m.bytes.take(m.extent as int)
    } else {
        m.bytes
    }
}

/// The guest-visible state: the clock, the harts, RAM as far as it was written, and the
/// output streams.
pub open spec fn state_bytes(m: MachineState) -> Seq<u8> {
    word_bytes(m.time) + harts_bytes(m.harts, m.harts.len() as int) + word_bytes(
        m.bus.ram.extent,
    ) + sized_bytes(written(m.bus.ram)) + sized_bytes(m.bus.uart.output) + sized_bytes(
        m.bus.virtio.output,
    )
}

fn push_word(out: &mut Vec<u8>, v: u64)
    ensures
        final(out)@ == old(out)@ + word_bytes(v),
{
    push_le(out, v, 8);
}

pub fn push_length(out: &mut Vec<u8>, v: usize)
    ensures
        final(out)@ == old(out)@ + length_bytes(v as nat),
{
    let width: usize = if usize::MAX > 0xffff_ffff {
        8
    } else {
        4
    };
    push_le(out, v as u64, width);
}

fn push_words(out: &mut Vec<u8>, s: &[u64])
    ensures
        final(out)@ == old(out)@ + words_bytes(s@, s@.len() as int),
{
    let ghost before = out@;
    let mut i: usize = 0;
    proof {
        assert(out@ =~= before + words_bytes(s@, 0));
    }
    while i < s.len()
        invariant
            i <= s@.len(),
            out@ == before + words_bytes(s@, i as int),
        decreases s@.len() - i,
    {
        push_word(out, s[i]);
        i += 1;
        proof {
            assert(out@ =~= before + words_bytes(s@, i as int));
        }
    }
}

fn push_sized(out: &mut Vec<u8>, s: &[u8])
    ensures
        final(out)@ == old(out)@ + sized_bytes(s@),
{
    push_length(out, s.len());
    out.extend_from_slice(s);
    proof {
        assert(out@ =~= old(out)@ + sized_bytes(s@));
    }
}

proof fn lemma_appended(s: Seq<u8>, a: Seq<u8>, b: Seq<u8>)
    ensures
        (s + a) + b == s + (a + b),
{
    assert((s + a) + b =~= s + (a + b));
}

/// The bytes of a reservation.
pub open spec fn reservation_bytes(reservation: Option<u64>) -> Seq<u8> {
    match reservation {
        Some(a) => length_bytes(1) + word_bytes(a),
        None => length_bytes(0),
    }
}

fn push_reservation(out: &mut Vec<u8>, reservation: Option<u64>)
    ensures
        final(out)@ == old(out)@ + reservation_bytes(reservation),
{
    match reservation {
        Some(a) => {
            push_length(out, 1);
            push_word(out, a);
            proof {
                lemma_appended(old(out)@, length_bytes(1), word_bytes(a));
            }
        },
        None => {
            push_length(out, 0);
        },
    }
}

fn push_hart(out: &mut Vec<u8>, h: &Hart)
    ensures
        final(out)@ == old(out)@ + hart_bytes(h@),
{
    let ghost s = out@;
    let privilege: usize = match h.privilege {
        Privilege::User => 0,
        Privilege::Supervisor => 1,
    };
    let run: usize = match h.state {
        HartState::Running => 0,
        HartState::Stopped => 1,
        HartState::Idle => 2,
    };
    push_length(out, 32);
    push_words(out, h.x.as_slice());
    push_word(out, h.pc);
    push_length(out, privilege);
    push_length(out, 10);
    push_words(out, h.csr.values().as_slice());
    push_reservation(out, h.reservation);
    push_length(out, run);
    proof {
        let a = length_bytes(32);
        let b = a + words_bytes(h@.x, 32);
        let c = b + word_bytes(h@.pc);
        let d = c + length_bytes(privilege as nat);
        let e = d + length_bytes(10);
        let f = e + words_bytes(h@.csr, 10);
        let g = f + reservation_bytes(h@.reservation);
        lemma_appended(s, a, words_bytes(h@.x, 32));
        lemma_appended(s, b, word_bytes(h@.pc));
        lemma_appended(s, c, length_bytes(privilege as nat));
        lemma_appended(s, d, length_bytes(10));
        lemma_appended(s, e, words_bytes(h@.csr, 10));
        lemma_appended(s, f, reservation_bytes(h@.reservation));
        lemma_appended(s, g, length_bytes(run as nat));
    }
}

/// The 64-bit SipHash of one byte string under the fixed key of a fresh `DefaultHasher`.
pub open spec fn digest(bytes: Seq<u8>) -> u64 {
    DefaultHasher::spec_finish(seq![bytes])
}

/// Hash one byte string with a fresh `DefaultHasher`.
pub fn digest_of(bytes: &[u8]) -> (r: u64)
    ensures
        r == digest(bytes@),
{
    let mut h: DefaultHasher = DefaultHasher::new();
    h.write(bytes);
    proof {
        assert(h@ =~= seq![bytes@]);
    }
    h.finish()
}

/// The pixel bytes a ramfb configuration points at: `stride * height` of them, 0 where RAM
/// is not mapped.
pub open spec fn captured(m: MemState, cfg: RamfbCfg) -> Seq<u8> {
    Seq::new(
        (cfg.stride * cfg.height) as nat,
        |i: int| m.load_or_zero(offset(cfg.addr, i), 1) as u8,
    )
}

impl View for Machine {
    type V = MachineState;

    closed spec fn view(&self) -> MachineState {
        MachineState {
            harts: states(self.harts@),
            bus: self.bus@,
            time: self.time,
            profile: match self.profile {
                Some(p) => Some(p@),
                None => None,
            },
            memset_pc: self.memset_pc,
            memcpy_pc: self.memcpy_pc,
            native_ops: self.native_ops,
            probe: match self.memop_probe {
                Some(p) => Some(p@),
                None => None,
            },
        }
    }
}

impl Clone for Machine {
    fn clone(&self) -> (r: Self)
        ensures
            r@ == self@,
            self.wf() ==> r.wf(),
    {
        let mut harts: Vec<Hart> = Vec::new();
        let mut i: usize = 0;
        while i < self.harts.len()
            invariant
                i <= self.harts@.len(),
                harts@.len() == i,
                forall|j: int|
                    0 <= j < i ==> (#[trigger] harts@[j])@ == self.harts@[j]@ && (self.harts@[j].wf()
                        ==> harts@[j].wf()),
            decreases self.harts@.len() - i,
        {
            harts.push(self.harts[i].clone());
            i += 1;
        }
        let profile: Option<HashMap<u64, u64>> = match &self.profile {
            Some(p) => Some(p.clone()),
            None => None,
        };
        let memop_probe: Option<MemopProbe> = match &self.memop_probe {
            Some(p) => {
                let inflight = p.inflight.clone();
                proof {
                    assert(inflight@ =~= p.inflight@);
                }
                Some(
                    MemopProbe {
                        inflight,
                        invocations: p.invocations,
                        real: p.real,
                        charged: p.charged,
                    },
                )
            },
            None => None,
        };
        let r = Machine {
            harts,
            bus: self.bus.clone(),
            time: self.time,
            profile,
            memset_pc: self.memset_pc,
            memcpy_pc: self.memcpy_pc,
            native_ops: self.native_ops,
            memop_probe,
        };
        proof {
            assert(states(r.harts@) =~= states(self.harts@));
            assert(r@ == self@);
        }
        r
    }
}

impl Machine {
    /// The harts and the bus are well-formed, and the probe has a slot per hart.
    pub closed spec fn wf(self) -> bool {
        &&& all_wf(self.harts@)
        &&& self.bus.wf()
        &&& match self.memop_probe {
            Some(p) => p.inflight@.len() == self.harts@.len(),
            None => true,
        }
    }

    /// A machine over `mem` with `hart_count` harts. Hart 0 boots running; every secondary
    /// starts parked, waiting for an SBI `hart_start`.
    #[must_use]
    pub fn new(mem: Memory, hart_count: usize) -> (r: Self)
        requires
            mem@.covered(),
        ensures
            r.wf(),
            r@ == fresh(mem@, hart_count as nat),
    {
        let mut harts: Vec<Hart> = Vec::new();
        while harts.len() < hart_count
            invariant
                harts@.len() <= hart_count,
                all_wf(harts@),
                forall|j: int|
                    0 <= j < harts@.len() ==> (#[trigger] harts@[j])@ == fresh_hart(j),
            decreases hart_count - harts.len(),
        {
            let mut hart: Hart = Hart::new();
            if harts.len() > 0 {
                hart.park();
            }
            harts.push(hart);
        }
        let r = Self {
            harts,
            bus: Bus::new(mem),
            time: 0,
            profile: None,
            memset_pc: None,
            memcpy_pc: None,
            native_ops: false,
            memop_probe: None,
        };
        proof {
            assert(states(r.harts@) =~= Seq::new(hart_count as nat, |j: int| fresh_hart(j)));
        }
        r
    }

    /// Register the guest entry pcs of `memset`/`memcpy`, so that the native-op helper can
    /// intercept them.
    pub fn set_native_op_pcs(&mut self, memset_pc: Option<u64>, memcpy_pc: Option<u64>)
        requires
            old(self).wf(),
        ensures
            final(self).wf(),
            final(self)@ == (MachineState { memset_pc, memcpy_pc, ..old(self)@ }),
    {
        self.memset_pc = memset_pc;
        self.memcpy_pc = memcpy_pc;
    }

    /// Enable/disable the native-op helper (off by default).
    pub fn set_native_ops(&mut self, on: bool)
        requires
            old(self).wf(),
        ensures
            final(self).wf(),
            final(self)@ == (MachineState { native_ops: on, ..old(self)@ }),
    {
        self.native_ops = on;
    }

    /// Enable the memop calibration probe, from zero.
    pub fn enable_memop_probe(&mut self)
        requires
            old(self).wf(),
        ensures
            final(self).wf(),
            final(self)@ == (MachineState {
                probe: Some(
                    ProbeState {
                        inflight: Seq::new(old(self)@.harts.len(), |i: int| None),
                        invocations: 0,
                        real: 0,
                        charged: 0,
                    },
                ),
                ..old(self)@
            }),
    {
        let inflight: Vec<Option<InFlight>> = vec![None; self.harts.len()];
        proof {
            assert(inflight@ =~= Seq::new(
                old(self)@.harts.len(),
                |i: int| None::<InFlight>,
            ));
        }
        self.memop_probe = Some(MemopProbe { inflight, invocations: 0, real: 0, charged: 0 });
    }

    /// The probe's `(invocations, real_retired, charged)` totals, or `None` if the probe
    /// was never enabled.
    #[must_use]
    pub fn memop_probe_report(&self) -> (r: Option<(u64, u64, u64)>)
        ensures
            r == match self@.probe {
                Some(p) => Some((p.invocations, p.real, p.charged)),
                None => None,
            },
    {
        match &self.memop_probe {
            Some(p) => Some((p.invocations, p.real, p.charged)),
            None => None,
        }
    }

    /// Start (or reset) exact profiling. The histogram begins empty; every instruction
    /// retired from now on is attributed to the pc it executed at.
    pub fn enable_profiling(&mut self)
        requires
            old(self).wf(),
        ensures
            final(self).wf(),
            final(self)@ == (MachineState { profile: Some(Map::empty()), ..old(self)@ }),
    {
        self.profile = Some(HashMap::new());
    }

    /// Take the accumulated histogram, leaving profiling off. `None` if profiling was
    /// never enabled.
    #[must_use]
    pub fn take_profile(&mut self) -> (r: Option<HashMap<u64, u64>>)
        requires
            old(self).wf(),
        ensures
            final(self).wf(),
            final(self)@ == (MachineState { profile: None, ..old(self)@ }),
            match old(self)@.profile {
                Some(p) => r is Some && r->0@ == p,
                None => r is None,
            },
    {
        self.profile.take()
    }

    /// Advance the machine: normally one scheduler round. When the native-op helper is on
    /// and a running hart sits at a `memset`/`memcpy` entry, that whole op is collapsed
    /// instead, which subsumes many rounds. The clock is accounted identically either way.
    pub fn step(&mut self) -> (r: Result<(), StepError>)
        requires
            old(self).wf(),
        ensures
            final(self).wf(),
            (final(self)@, r) == old(self)@.stepped(),
    {
        proof {
            reveal(MachineState::stepped);
        }
        if self.native_ops {
            match self.hart_at_memop() {
                Some(i) => {
                    let entry_pc: u64 = self.harts[i].pc();
                    proof {
                        assert(self@.harts[i as int] == self.harts@[i as int]@);
                    }
                    let done: Option<u64> = self.memop_on(i);
                    match done {
                        Some(charged) => {
                            self.count(entry_pc, charged);
                            return self.collapse_memop(i, charged);
                        },
                        None => {},
                    }
                },
                None => {},
            }
        }
        self.step_round()
    }

    /// Try the native memory op hart `i` is at.
    fn memop_on(&mut self, i: usize) -> (r: Option<u64>)
        requires
            old(self).wf(),
            i < old(self)@.harts.len(),
        ensures
            final(self).wf(),
            final(self).harts@.len() == old(self).harts@.len(),
            final(self)@ == (MachineState {
                harts: old(self)@.harts.update(
                    i as int,
                    native_memop(
                        old(self)@.harts[i as int],
                        old(self)@.bus,
                        old(self)@.memset_pc,
                        old(self)@.memcpy_pc,
                    ).0,
                ),
                bus: native_memop(
                    old(self)@.harts[i as int],
                    old(self)@.bus,
                    old(self)@.memset_pc,
                    old(self)@.memcpy_pc,
                ).1,
                ..old(self)@
            }),
            r == native_memop(
                old(self)@.harts[i as int],
                old(self)@.bus,
                old(self)@.memset_pc,
                old(self)@.memcpy_pc,
            ).2,
    {
        let (set, cpy): (Option<u64>, Option<u64>) = (self.memset_pc, self.memcpy_pc);
        proof {
            assert(self.harts@[i as int].wf());
            assert(self@.harts[i as int] == self.harts@[i as int]@);
        }
        let done: Option<u64> = self.harts[i].try_native_memop(&mut self.bus, set, cpy);
        proof {
            lemma_harts_after(old(self).harts@, self.harts@, i as int);
        }
        done
    }

    /// Attribute `n` instructions to `pc`, where profiling is on.
    fn count(&mut self, pc: u64, n: u64)
        requires
            old(self).wf(),
        ensures
            final(self).wf(),
            final(self).harts@ == old(self).harts@,
            final(self)@ == old(self)@.counted(pc, n),
    {
        match &mut self.profile {
            Some(p) => {
                let so_far: u64 = match p.get(&pc) {
                    Some(v) => *v,
                    None => 0,
                };
                p.insert(pc, so_far.wrapping_add(n));
            },
            None => {},
        }
    }

    /// One scheduler round: step each running or idle hart once, in id order, each
    /// observing the shared clock, which advances one tick per executed instruction. Where
    /// nothing retired (every running hart is parked on wfi), the clock jumps to the
    /// earliest armed deadline, so that the next round wakes the hart.
    fn step_round(&mut self) -> (r: Result<(), StepError>)
        requires
            old(self).wf(),
        ensures
            final(self).wf(),
            (final(self)@, r) == old(self)@.round(),
    {
        proof {
            reveal(MachineState::round);
        }
        let mut retired: bool = false;
        let mut i: usize = 0;
        let ghost goal = self@.turns(0, false);
        while i < self.harts.len()
            invariant
                self.wf(),
                i <= self.harts@.len(),
                goal == old(self)@.turns(0, false),
                goal == self@.turns(i as int, retired),
            decreases self.harts@.len() - i,
        {
            proof {
                reveal(MachineState::round);
                assert(self.harts@[i as int].wf());
                assert(self@.harts[i as int] == self.harts@[i as int]@);
            }
            if !self.harts[i].is_stopped() {
                match self.take_turn(i, true) {
                    Ok(moved) => {
                        retired = retired || moved;
                    },
                    Err(e) => {
                        return Err(e);
                    },
                }
            }
            i += 1;
        }
        if !retired {
            match self.earliest_wake_deadline() {
                Some(deadline) => {
                    if deadline > self.time {
                        self.time = deadline;
                    }
                },
                None => {},
            }
        }
        Ok(())
    }

    /// Step hart `i` against the shared clock and bus, and account for what it did.
    fn take_turn(&mut self, i: usize, probing: bool) -> (r: Turn)
        requires
            old(self).wf(),
            i < old(self).harts@.len(),
        ensures
            final(self).wf(),
            final(self).harts@.len() == old(self).harts@.len(),
            (final(self)@, r) == old(self)@.turn(i as int, probing),
    {
        proof {
            reveal(MachineState::turn);
            self@.lemma_entered_keeps(i as int, self.harts@[i as int].pc);
            assert(self.harts@[i as int].wf());
            assert(self@.harts[i as int] == self.harts@[i as int]@);
        }
        // The pc of the instruction about to execute, captured before it advances.
        let pc: u64 = self.harts[i].pc();
        if probing {
            self.probe_memop_entry(i, pc);
        }
        let effect: Result<HartEffect, StepError> = self.step_hart(i);
        match effect {
            Err(e) => Err(e),
            Ok(HartEffect::Idle) => Ok(false),
            Ok(HartEffect::Block(n)) => {
                self.time = self.time.wrapping_add(n);
                self.count(pc, n);
                Ok(true)
            },
            Ok(HartEffect::Retired) => {
                self.finish_one(i, pc, probing);
                Ok(true)
            },
            Ok(HartEffect::Sbi(req)) => {
                service_sbi(&mut self.harts, i, &req);
                self.finish_one(i, pc, probing);
                Ok(true)
            },
        }
    }

    /// Step hart `i` alone.
    fn step_hart(&mut self, i: usize) -> (r: Result<HartEffect, StepError>)
        requires
            old(self).wf(),
            i < old(self).harts@.len(),
        ensures
            final(self).wf(),
            final(self).harts@.len() == old(self).harts@.len(),
            ({
                let s = step(
                    HartModel { cycle: old(self)@.time, ..old(self)@.harts[i as int] },
                    old(self)@.bus,
                );
                &&& final(self)@ == (MachineState {
                    harts: old(self)@.harts.update(i as int, s.0),
                    bus: s.1,
                    ..old(self)@
                })
                &&& r == s.2
            }),
    {
        proof {
            assert(self.harts@[i as int].wf());
            assert(self@.harts[i as int] == self.harts@[i as int]@);
        }
        let now: u64 = self.time;
        self.harts[i].set_cycle(now);
        let effect: Result<HartEffect, StepError> = self.harts[i].step(&mut self.bus);
        proof {
            assert(self.harts@ =~= old(self).harts@.update(i as int, self.harts@[i as int]));
            lemma_harts_after(old(self).harts@, self.harts@, i as int);
        }
        effect
    }

    /// Account for one retired instruction of hart `i`.
    fn finish_one(&mut self, i: usize, pc: u64, probing: bool)
        requires
            old(self).wf(),
            i < old(self).harts@.len(),
        ensures
            final(self).wf(),
            final(self).harts@.len() == old(self).harts@.len(),
            final(self)@ == old(self)@.after_one(i as int, pc, probing),
    {
        self.time = self.time.wrapping_add(1);
        if probing {
            self.probe_memop_retire(i);
        }
        self.count(pc, 1);
    }

    /// The lowest-id running hart whose pc is a `memset`/`memcpy` entry, or `None`.
    fn hart_at_memop(&self) -> (r: Option<usize>)
        requires
            self.wf(),
        ensures
            match self@.at_memop(0) {
                Some(i) => r == Some(i as usize) && 0 <= i < self@.harts.len() && i as usize == i,
                None => r is None,
            },
    {
        let mut i: usize = 0;
        while i < self.harts.len()
            invariant
                i <= self.harts@.len(),
                self@.at_memop(0) == self@.at_memop(i as int),
            decreases self.harts@.len() - i,
        {
            proof {
                assert(self@.harts[i as int] == self.harts@[i as int]@);
            }
            let here: u64 = self.harts[i].pc();
            if self.harts[i].is_running() && (self.memset_pc == Some(here) || self.memcpy_pc
                == Some(here)) {
                return Some(i);
            }
            i += 1;
        }
        None
    }

    /// Probe hook: if hart `i` is at a memop entry and not already inside one, start
    /// timing the op.
    fn probe_memop_entry(&mut self, i: usize, pc: u64)
        requires
            old(self).wf(),
            i < old(self).harts@.len(),
        ensures
            final(self).wf(),
            final(self).harts@.len() == old(self).harts@.len(),
            final(self)@ == old(self)@.entered(i as int, pc),
    {
        proof {
            reveal(MachineState::entered);
            assert(self@.harts[i as int] == self.harts@[i as int]@);
        }
        if self.memset_pc != Some(pc) && self.memcpy_pc != Some(pc) {
            return;
        }
        let return_pc: u64 = self.harts[i].reg(1);
        let len: u64 = self.harts[i].reg(12);
        match &mut self.memop_probe {
            Some(probe) => {
                if probe.inflight[i].is_none() {
                    probe.inflight[i] = Some(InFlight { return_pc, len, count: 0 });
                }
            },
            None => {},
        }
    }

    /// Probe hook: hart `i` retired one instruction. Count it toward any op being timed;
    /// when the hart is back at the op's return address, commit the counts.
    fn probe_memop_retire(&mut self, i: usize)
        requires
            old(self).wf(),
            i < old(self).harts@.len(),
        ensures
            final(self).wf(),
            final(self).harts@.len() == old(self).harts@.len(),
            final(self)@ == old(self)@.noted(i as int),
    {
        proof {
            reveal(MachineState::noted);
            assert(self@.harts[i as int] == self.harts@[i as int]@);
        }
        let new_pc: u64 = self.harts[i].pc();
        match &mut self.memop_probe {
            Some(probe) => match probe.inflight[i] {
                Some(f) => {
                    let count: u64 = f.count.wrapping_add(1);
                    if new_pc == f.return_pc {
                        probe.inflight[i] = None;
                        probe.invocations = probe.invocations.wrapping_add(1);
                        probe.real = probe.real.wrapping_add(count);
                        probe.charged = probe.charged.wrapping_add(memop_charge(f.len));
                    } else {
                        probe.inflight[i] = Some(
                            InFlight { return_pc: f.return_pc, len: f.len, count },
                        );
                    }
                },
                None => {},
            },
            None => {},
        }
    }

    /// Reproduce the `charged` scheduler rounds that hart `i`'s memory op collapses, its
    /// stores already applied. Each round advances the clock by hart `i`'s one store, then
    /// steps every other non-stopped hart once against that clock. Where no other hart
    /// would retire or wake within the span, the clock just jumps.
    fn collapse_memop(&mut self, i: usize, charged: u64) -> (r: Result<(), StepError>)
        requires
            old(self).wf(),
            i < old(self).harts@.len(),
        ensures
            final(self).wf(),
            (final(self)@, r) == old(self)@.collapsed(i as int, charged),
    {
        proof {
            reveal(MachineState::collapsed);
        }
        let end: u64 = self.time.wrapping_add(charged);
        if self.no_peer_activity_within(i, end) {
            self.time = end;
            return Ok(());
        }
        let mut left: u64 = charged;
        let ghost goal = self@.peer_rounds(i as int, charged);
        while left > 0
            invariant
                self.wf(),
                i < self.harts@.len(),
                goal == old(self)@.collapsed(i as int, charged),
                goal == self@.peer_rounds(i as int, left),
            decreases left,
        {
            // Hart i's store this round.
            self.time = self.time.wrapping_add(1);
            match self.step_peers(i) {
                Ok(()) => {},
                Err(e) => {
                    return Err(e);
                },
            }
            left = left - 1;
        }
        Ok(())
    }

    /// One turn for every hart but `i`.
    fn step_peers(&mut self, i: usize) -> (r: Result<(), StepError>)
        requires
            old(self).wf(),
        ensures
            final(self).wf(),
            final(self).harts@.len() == old(self).harts@.len(),
            (final(self)@, r) == old(self)@.peers(i as int, 0),
    {
        let mut j: usize = 0;
        let ghost goal = self@.peers(i as int, 0);
        while j < self.harts.len()
            invariant
                self.wf(),
                j <= self.harts@.len(),
                self.harts@.len() == old(self).harts@.len(),
                goal == old(self)@.peers(i as int, 0),
                goal == self@.peers(i as int, j as int),
            decreases self.harts@.len() - j,
        {
            proof {
                assert(self@.harts[j as int] == self.harts@[j as int]@);
            }
            if j != i && !self.harts[j].is_stopped() {
                match self.take_turn(j, false) {
                    Ok(_) => {},
                    Err(e) => {
                        return Err(e);
                    },
                }
            }
            j += 1;
        }
        Ok(())
    }

    /// Whether no hart other than `i` will retire or wake before the clock reaches `end`:
    /// every other hart is stopped, or idle with no timer armed to fire by then.
    fn no_peer_activity_within(&self, i: usize, end: u64) -> (r: bool)
        requires
            self.wf(),
        ensures
            r == (forall|j: int|
                0 <= j < self@.harts.len() && j != i ==> MachineState::quiet(
                    #[trigger] self@.harts[j],
                    end,
                )),
    {
        let mut j: usize = 0;
        while j < self.harts.len()
            invariant
                j <= self.harts@.len(),
                forall|k: int|
                    0 <= k < j && k != i ==> MachineState::quiet(#[trigger] self@.harts[k], end),
            decreases self.harts@.len() - j,
        {
            proof {
                assert(self@.harts[j as int] == self.harts@[j as int]@);
            }
            if j != i && !self.harts[j].is_stopped() {
                if !self.harts[j].is_idle() {
                    return false;
                }
                match self.harts[j].wake_deadline() {
                    Some(deadline) => {
                        if deadline <= end {
                            return false;
                        }
                    },
                    None => {},
                }
            }
            j += 1;
        }
        true
    }

    /// The soonest clock value at which any idle hart's armed timer would wake it.
    fn earliest_wake_deadline(&self) -> (r: Option<u64>)
        requires
            self.wf(),
        ensures
            r == MachineState::earliest_deadline(self@.harts, self@.harts.len() as int),
    {
        let mut best: Option<u64> = None;
        let mut i: usize = 0;
        while i < self.harts.len()
            invariant
                i <= self.harts@.len(),
                best == MachineState::earliest_deadline(self@.harts, i as int),
            decreases self.harts@.len() - i,
        {
            proof {
                assert(self@.harts[i as int] == self.harts@[i as int]@);
            }
            if self.harts[i].is_idle() {
                match self.harts[i].wake_deadline() {
                    Some(deadline) => {
                        best =
                        match best {
                            Some(a) => if deadline < a {
                                Some(deadline)
                            } else {
                                Some(a)
                            },
                            None => Some(deadline),
                        };
                    },
                    None => {},
                }
            }
            i += 1;
        }
        best
    }

    /// Step until the UART output contains `marker`, or `max_steps` elapse. Returns the
    /// steps taken, or what went wrong.
    pub fn run_until_uart(&mut self, marker: &[u8], max_steps: u64) -> (r: Result<u64, String>)
        requires
            old(self).wf(),
            marker@.len() > 0,
        ensures
            final(self).wf(),
            ({
                let (m, done) = old(self)@.until_uart(marker@, 0, max_steps as nat, 0);
                &&& final(self)@ == m
                &&& match done {
                    Ok(n) => r == Ok::<u64, String>(n),
                    Err(Some(e)) => r is Err && r->Err_0@ == "fault before UART marker: "@
                        + step_error_text(e),
                    Err(None) => r is Err && r->Err_0@ == "UART marker not seen within "@ + ascii(
                        decimal(max_steps as nat),
                    ) + " steps"@,
                }
            }),
    {
        let mut steps: u64 = 0;
        let mut seen_len: usize = 0;
        let ghost goal = self@.until_uart(marker@, 0, max_steps as nat, 0);
        while steps < max_steps
            invariant
                self.wf(),
                steps <= max_steps,
                goal == old(self)@.until_uart(marker@, 0, max_steps as nat, 0),
                goal == self@.until_uart(
                    marker@,
                    seen_len as int,
                    (max_steps - steps) as nat,
                    steps,
                ),
            decreases max_steps - steps,
        {
            let len: usize = self.bus.uart_output().len();
            if len != seen_len {
                seen_len = len;
                if find(self.bus.uart_output(), marker) {
                    return Ok(steps);
                }
            }
            match self.step() {
                Ok(()) => {},
                Err(e) => {
                    let mut text: String = "fault before UART marker: ".to_owned();
                    append_step_error(&mut text, e);
                    return Err(text);
                },
            }
            steps += 1;
        }
        let mut text: String = "UART marker not seen within ".to_owned();
        append_decimal(&mut text, max_steps);
        text.append(" steps");
        Err(text)
    }

    /// Overwrite guest RAM at `addr`: used to patch the DTB's bootargs into a snapshot
    /// before resuming it.
    pub fn write_ram(&mut self, addr: u64, bytes: &[u8]) -> (r: Result<(), String>)
        requires
            old(self).wf(),
        ensures
            final(self).wf(),
            final(self)@ == (MachineState {
                bus: BusState {
                    ram: old(self)@.bus.ram.write(addr, bytes@).1,
                    ..old(self)@.bus
                },
                ..old(self)@
            }),
            match old(self)@.bus.ram.write(addr, bytes@).0 {
                None => r is Ok,
                Some(at) => r is Err && r->Err_0@ == "write_ram: "@ + bus_error_text(
                    BusError::OutOfRange { addr: at },
                ),
            },
    {
        match self.bus.write_ram(addr, bytes) {
            Ok(()) => Ok(()),
            Err(e) => {
                let mut text: String = "write_ram: ".to_owned();
                append_bus_error(&mut text, e);
                Err(text)
            },
        }
    }

    #[must_use]
    pub fn hart_count(&self) -> (r: usize)
        ensures
            r == self@.harts.len(),
    {
        self.harts.len()
    }

    #[must_use]
    pub fn is_running(&self, hart: usize) -> (r: bool)
        requires
            hart < self@.harts.len(),
        ensures
            r == (self@.harts[hart as int].run == HartState::Running),
    {
        self.harts[hart].is_running()
    }

    #[must_use]
    pub fn reg(&self, hart: usize, i: usize) -> (r: u64)
        requires
            hart < self@.harts.len(),
            i < 32,
        ensures
            r == self@.harts[hart as int].x[i as int],
    {
        self.harts[hart].reg(i)
    }

    pub fn set_reg(&mut self, hart: usize, i: usize, value: u64)
        requires
            old(self).wf(),
            hart < old(self)@.harts.len(),
            i < 32,
        ensures
            final(self).wf(),
            final(self)@ == (MachineState {
                harts: old(self)@.harts.update(
                    hart as int,
                    old(self)@.harts[hart as int].with_reg(i as int, value),
                ),
                ..old(self)@
            }),
    {
        proof {
            assert(self.harts@[hart as int].wf());
        }
        self.harts[hart].set_reg(i, value);
        proof {
            lemma_harts_after(old(self).harts@, self.harts@, hart as int);
        }
    }

    pub fn set_pc(&mut self, hart: usize, pc: u64)
        requires
            old(self).wf(),
            hart < old(self)@.harts.len(),
        ensures
            final(self).wf(),
            final(self)@ == (MachineState {
                harts: old(self)@.harts.update(
                    hart as int,
                    old(self)@.harts[hart as int].with_pc(pc),
                ),
                ..old(self)@
            }),
    {
        proof {
            assert(self.harts@[hart as int].wf());
        }
        self.harts[hart].set_pc(pc);
        proof {
            lemma_harts_after(old(self).harts@, self.harts@, hart as int);
        }
    }

    #[must_use]
    pub fn pc(&self, hart: usize) -> (r: u64)
        requires
            hart < self@.harts.len(),
        ensures
            r == self@.harts[hart as int].pc,
    {
        self.harts[hart].pc()
    }

    #[must_use]
    pub fn satp(&self, hart: usize) -> (r: u64)
        requires
            hart < self@.harts.len(),
        ensures
            r == self@.harts[hart as int].get(addr::SATP),
    {
        self.harts[hart].satp()
    }

    #[must_use]
    pub fn uart_output(&self) -> (r: &[u8])
        ensures
            r@ == self@.bus.uart.output,
    {
        self.bus.uart_output()
    }

    /// Inject host console input for the guest to read through the UART receive buffer.
    pub fn push_console_input(&mut self, bytes: &[u8])
        requires
            old(self).wf(),
        ensures
            final(self).wf(),
            final(self)@ == (MachineState {
                bus: BusState {
                    uart: UartState {
                        output: old(self)@.bus.uart.output,
                        input: old(self)@.bus.uart.input + bytes@,
                    },
                    ..old(self)@.bus
                },
                ..old(self)@
            }),
    {
        self.bus.push_console_input(bytes);
    }

    /// Make `etc/ramfb` exist in the guest's fw_cfg directory. Off by default; call before
    /// booting a machine that should find it.
    pub fn enable_fwcfg_ramfb(&mut self)
        requires
            old(self).wf(),
        ensures
            final(self).wf(),
            final(self)@ == (MachineState {
                bus: BusState {
                    fwcfg: Fwcfg { ramfb: true, ..old(self)@.bus.fwcfg },
                    ..old(self)@.bus
                },
                ..old(self)@
            }),
    {
        self.bus.fwcfg_enable_ramfb();
    }

    /// Extract the captured framebuffer's raw pixel bytes from guest RAM, alongside its
    /// `(width, height, stride)`; `None` if no DMA write has completed.
    fn read_framebuffer(&self) -> (r: Option<(Vec<u8>, u32, u32, u32)>)
        ensures
            match self@.bus.fwcfg.ramfb_cfg {
                Some(cfg) => r is Some && (r->0).0@ == captured(self@.bus.ram, cfg) && (r->0).1
                    == cfg.width && (r->0).2 == cfg.height && (r->0).3 == cfg.stride,
                None => r is None,
            },
    {
        let cfg: RamfbCfg = match self.bus.fwcfg_ramfb_cfg() {
            Some(cfg) => cfg,
            None => {
                return None;
            },
        };
        proof {
            assert(0 <= cfg.stride * cfg.height <= 0xffff_ffff * 0xffff_ffff) by (nonlinear_arith)
                requires
                    0 <= cfg.stride <= 0xffff_ffff,
                    0 <= cfg.height <= 0xffff_ffff,
            ;
        }
        let len: u64 = cfg.stride as u64 * cfg.height as u64;
        let mut pixels: Vec<u8> = Vec::new();
        let mut i: u64 = 0;
        while i < len
            invariant
                i <= len,
                len == cfg.stride * cfg.height,
                pixels@.len() == i,
                forall|j: int|
                    0 <= j < i ==> pixels@[j] == captured(self@.bus.ram, cfg)[j],
            decreases len - i,
        {
            let at: u64 = cfg.addr.wrapping_add(i);
            proof {
                assert(at == offset(cfg.addr, i as int));
            }
            let b: u8 = match self.bus.ram().read_u8(at) {
                Ok(b) => b,
                Err(_) => 0,
            };
            pixels.push(b);
            i += 1;
        }
        proof {
            assert(pixels@ =~= captured(self@.bus.ram, cfg));
        }
        Some((pixels, cfg.width, cfg.height, cfg.stride))
    }

    /// Render the captured framebuffer as a binary PPM (P6) image; `None` if nothing was
    /// ever captured.
    #[must_use]
    pub fn dump_framebuffer(&self) -> (r: Option<Vec<u8>>)
        ensures
            match self@.bus.fwcfg.ramfb_cfg {
                Some(cfg) => r is Some && r->0@ == ppm_header(cfg.width as nat, cfg.height as nat)
                    + rgb_rows(
                    captured(self@.bus.ram, cfg),
                    cfg.width as nat,
                    cfg.stride as nat,
                    cfg.height as nat,
                ),
                None => r is None,
            },
    {
        match self.read_framebuffer() {
            Some((pixels, width, height, stride)) => Some(
                render_ppm(pixels.as_slice(), width, height, stride),
            ),
            None => None,
        }
    }

    /// Render the captured framebuffer as one `u32` per pixel, `0x00RRGGBB`, plus its
    /// `(width, height)`; `None` if nothing was ever captured.
    #[must_use]
    pub fn framebuffer_pixels(&self) -> (r: Option<(Vec<u32>, u32, u32)>)
        ensures
            match self@.bus.fwcfg.ramfb_cfg {
                Some(cfg) => r is Some && (r->0).0@ == packed_rows(
                    captured(self@.bus.ram, cfg),
                    cfg.width as nat,
                    cfg.stride as nat,
                    cfg.height as nat,
                ) && (r->0).1 == cfg.width && (r->0).2 == cfg.height,
                None => r is None,
            },
    {
        match self.read_framebuffer() {
            Some((pixels, width, height, stride)) => Some(
                (to_minifb_buffer(pixels.as_slice(), width, height, stride), width, height),
            ),
            None => None,
        }
    }

    #[must_use]
    pub fn virtio_tx_output(&self) -> (r: &[u8])
        ensures
            r@ == self@.bus.virtio.output,
    {
        self.bus.virtio_tx_output()
    }

    /// Total guest instructions retired across all harts: the shared clock.
    #[must_use]
    pub fn instret(&self) -> (r: u64)
        ensures
            r == self@.time,
    {
        self.time
    }

    /// A content hash of the machine's guest-visible state: the clock, every hart's
    /// architectural registers, guest RAM and device output. Two runs fed the same input to
    /// the same instruction hash equal. Performance toggles are left out.
    #[must_use]
    pub fn state_hash(&self) -> (r: u64)
        ensures
            r == digest(state_bytes(self@)),
            self.wf() ==> self@.bus.ram.covered(),
    {
        let mut out: Vec<u8> = Vec::new();
        push_word(&mut out, self.time);
        let ghost head = out@;
        let mut i: usize = 0;
        proof {
            assert(out@ =~= head + harts_bytes(self@.harts, 0));
        }
        while i < self.harts.len()
            invariant
                i <= self.harts@.len(),
                out@ == head + harts_bytes(self@.harts, i as int),
            decreases self.harts@.len() - i,
        {
            proof {
                assert(self@.harts[i as int] == self.harts@[i as int]@);
            }
            push_hart(&mut out, &self.harts[i]);
            i += 1;
            proof {
                assert(out@ =~= head + harts_bytes(self@.harts, i as int));
            }
        }
        push_word(&mut out, self.bus.ram().extent());
        let seen: Vec<u8> = self.bus.ram().written();
        push_sized(&mut out, seen.as_slice());
        push_sized(&mut out, self.bus.uart_output());
        push_sized(&mut out, self.bus.virtio_tx_output());
        proof {
            assert(out@ =~= state_bytes(self@));
        }
        digest_of(out.as_slice())
    }

    /// Guest RAM footprint so far: the highest byte the guest has written.
    #[must_use]
    pub fn ram_high_water(&self) -> (r: u64)
        ensures
            r == self@.bus.ram.high_water,
    {
        self.bus.ram().high_water()
    }

    /// Total supervisor timer interrupts delivered across all harts (diagnostic).
    #[must_use]
    pub fn timer_fires(&self) -> (r: u64)
        ensures
            r == total_fires(self@.harts, self@.harts.len() as int),
    {
        let mut total: u64 = 0;
        let mut i: usize = 0;
        while i < self.harts.len()
            invariant
                i <= self.harts@.len(),
                total == total_fires(self@.harts, i as int),
            decreases self.harts@.len() - i,
        {
            proof {
                assert(self@.harts[i as int] == self.harts@[i as int]@);
            }
            total = total.wrapping_add(self.harts[i].timer_fires());
            i += 1;
        }
        total
    }

    /// Turn a switch on **every** hart.
    fn set_on_every_hart(&mut self, switch: Switch, on: bool)
        requires
            old(self).wf(),
        ensures
            final(self).wf(),
            final(self)@ == (MachineState {
                harts: Seq::new(
                    old(self)@.harts.len(),
                    |i: int| switch.on_hart(old(self)@.harts[i], on),
                ),
                ..old(self)@
            }),
    {
        let ghost before = self.harts@;
        let mut i: usize = 0;
        while i < self.harts.len()
            invariant
                self.wf(),
                i <= self.harts@.len(),
                self.harts@.len() == before.len(),
                before == old(self).harts@,
                self.bus == old(self).bus,
                self.time == old(self).time,
                self.profile == old(self).profile,
                self.memset_pc == old(self).memset_pc,
                self.memcpy_pc == old(self).memcpy_pc,
                self.native_ops == old(self).native_ops,
                self.memop_probe == old(self).memop_probe,
                forall|j: int|
                    0 <= j < i ==> (#[trigger] self.harts@[j])@ == switch.on_hart(before[j]@, on),
                forall|j: int| i <= j < before.len() ==> self.harts@[j] == before[j],
            decreases self.harts@.len() - i,
        {
            proof {
                assert(self.harts@[i as int].wf());
            }
            let ghost mid = self.harts@;
            switch.set(&mut self.harts[i], on);
            proof {
                lemma_harts_after(mid, self.harts@, i as int);
            }
            i += 1;
        }
        proof {
            assert(self@.harts =~= Seq::new(
                old(self)@.harts.len(),
                |i: int| switch.on_hart(old(self)@.harts[i], on),
            ));
        }
    }

    /// Enable or disable the decode cache on **every** hart. Off by default.
    pub fn set_decode_cache(&mut self, on: bool)
        requires
            old(self).wf(),
        ensures
            final(self).wf(),
            final(self)@ == (MachineState {
                harts: Seq::new(
                    old(self)@.harts.len(),
                    |i: int| HartModel {
                        decode: if on {
                            Some(DecodeState::cold())
                        } else {
                            None
                        },
                        ..old(self)@.harts[i]
                    },
                ),
                ..old(self)@
            }),
    {
        self.set_on_every_hart(Switch::DecodeCache, on);
        proof {
            assert(self@.harts =~= Seq::new(
                old(self)@.harts.len(),
                |i: int| HartModel {
                    decode: if on {
                        Some(DecodeState::cold())
                    } else {
                        None
                    },
                    ..old(self)@.harts[i]
                },
            ));
        }
    }

    /// Enable or disable the block JIT on **every** hart. Off by default.
    pub fn set_block_jit(&mut self, on: bool)
        requires
            old(self).wf(),
        ensures
            final(self).wf(),
            final(self)@ == (MachineState {
                harts: Seq::new(
                    old(self)@.harts.len(),
                    |i: int| HartModel {
                        blocks: if on {
                            Some(BlockCacheState::cold())
                        } else {
                            None
                        },
                        ..old(self)@.harts[i]
                    },
                ),
                ..old(self)@
            }),
    {
        self.set_on_every_hart(Switch::BlockJit, on);
        proof {
            assert(self@.harts =~= Seq::new(
                old(self)@.harts.len(),
                |i: int| HartModel {
                    blocks: if on {
                        Some(BlockCacheState::cold())
                    } else {
                        None
                    },
                    ..old(self)@.harts[i]
                },
            ));
        }
    }

    /// Select the native backend for the block JIT on **every** hart. Off by default.
    pub fn set_native_jit(&mut self, on: bool)
        requires
            old(self).wf(),
        ensures
            final(self).wf(),
            final(self)@ == (MachineState {
                harts: Seq::new(
                    old(self)@.harts.len(),
                    |i: int| HartModel {
                        native_jit: on,
                        ..old(self)@.harts[i]
                    },
                ),
                ..old(self)@
            }),
    {
        self.set_on_every_hart(Switch::NativeJit, on);
        proof {
            assert(self@.harts =~= Seq::new(
                old(self)@.harts.len(),
                |i: int| HartModel {
                    native_jit: on,
                    ..old(self)@.harts[i]
                },
            ));
        }
    }

    /// Select the translation cache on **every** hart. Off by default.
    pub fn set_tlb(&mut self, on: bool)
        requires
            old(self).wf(),
        ensures
            final(self).wf(),
            final(self)@ == (MachineState {
                harts: Seq::new(
                    old(self)@.harts.len(),
                    |i: int| HartModel {
                        tlb: on,
                        ..old(self)@.harts[i]
                    },
                ),
                ..old(self)@
            }),
    {
        self.set_on_every_hart(Switch::Tlb, on);
        proof {
            assert(self@.harts =~= Seq::new(
                old(self)@.harts.len(),
                |i: int| HartModel {
                    tlb: on,
                    ..old(self)@.harts[i]
                },
            ));
        }
    }

    /// Enable or disable block-executor register caching on **every** hart. On by default.
    pub fn set_register_cache(&mut self, on: bool)
        requires
            old(self).wf(),
        ensures
            final(self).wf(),
            final(self)@ == (MachineState {
                harts: Seq::new(
                    old(self)@.harts.len(),
                    |i: int| HartModel {
                        reg_cache: on,
                        ..old(self)@.harts[i]
                    },
                ),
                ..old(self)@
            }),
    {
        self.set_on_every_hart(Switch::RegisterCache, on);
        proof {
            assert(self@.harts =~= Seq::new(
                old(self)@.harts.len(),
                |i: int| HartModel {
                    reg_cache: on,
                    ..old(self)@.harts[i]
                },
            ));
        }
    }

    /// Enable or disable `wfi` idle-skip on **every** hart (on by default).
    pub fn set_idle_skip(&mut self, on: bool)
        requires
            old(self).wf(),
        ensures
            final(self).wf(),
            final(self)@ == (MachineState {
                harts: Seq::new(
                    old(self)@.harts.len(),
                    |i: int| HartModel {
                        idle_skip: on,
                        ..old(self)@.harts[i]
                    },
                ),
                ..old(self)@
            }),
    {
        self.set_on_every_hart(Switch::IdleSkip, on);
        proof {
            assert(self@.harts =~= Seq::new(
                old(self)@.harts.len(),
                |i: int| HartModel {
                    idle_skip: on,
                    ..old(self)@.harts[i]
                },
            ));
        }
    }
}

/// What every hart of a machine can have switched on or off.
#[derive(Clone, Copy)]
enum Switch {
    DecodeCache,
    BlockJit,
    NativeJit,
    Tlb,
    RegisterCache,
    IdleSkip,
}

impl Switch {
    /// A hart with the switch turned.
    spec fn on_hart(self, h: HartModel, on: bool) -> HartModel {
        match self {
            Switch::DecodeCache => HartModel {
                decode: if on {
                    Some(DecodeState::cold())
                } else {
                    None
                },
                ..h
            },
            Switch::BlockJit => HartModel {
                blocks: if on {
                    Some(BlockCacheState::cold())
                } else {
                    None
                },
                ..h
            },
            Switch::NativeJit => HartModel { native_jit: on, ..h },
            Switch::Tlb => HartModel { tlb: on, ..h },
            Switch::RegisterCache => HartModel { reg_cache: on, ..h },
            Switch::IdleSkip => HartModel { idle_skip: on, ..h },
        }
    }

    /// Turn the switch on a hart.
    fn set(self, hart: &mut Hart, on: bool)
        requires
            old(hart).wf(),
        ensures
            final(hart).wf(),
            final(hart)@ == self.on_hart(old(hart)@, on),
    {
        match self {
            Switch::DecodeCache => hart.set_decode_cache(on),
            Switch::BlockJit => hart.set_block_jit(on),
            Switch::NativeJit => hart.set_native_jit(on),
            Switch::Tlb => hart.set_tlb(on),
            Switch::RegisterCache => hart.set_register_cache(on),
            Switch::IdleSkip => hart.set_idle_skip(on),
        }
    }
}

/// The state of hart `j` of a fresh machine.
pub open spec fn fresh_hart(j: int) -> HartModel {
    if j == 0 {
        HartModel::reset()
    } else {
        HartModel { run: HartState::Stopped, ..HartModel::reset() }
    }
}

/// A fresh machine over `ram` with `n` harts.
pub open spec fn fresh(ram: MemState, n: nat) -> MachineState {
    MachineState {
        harts: Seq::new(n, |j: int| fresh_hart(j)),
        bus: crate::bus::fresh(ram),
        time: 0,
        profile: None,
        memset_pc: None,
        memcpy_pc: None,
        native_ops: false,
        probe: None,
    }
}

/// The timer interrupts of the first `n` harts, wrapping.
pub open spec fn total_fires(harts: Seq<HartModel>, n: int) -> u64
    decreases n,
{
    if n <= 0 {
        0
    } else {
        total_fires(harts, n - 1).wrapping_add(harts[n - 1].timer_fires)
    }
}

/// What changing one hart does to the set's states.
proof fn lemma_harts_after(before: Seq<Hart>, after: Seq<Hart>, i: int)
    requires
        0 <= i < before.len(),
        after == before.update(i, after[i]),
    ensures
        states(after) == states(before).update(i, after[i]@),
        all_wf(before) && after[i].wf() ==> all_wf(after),
{
    assert(states(after) =~= states(before).update(i, after[i]@));
    assert forall|j: int| 0 <= j < after.len() && all_wf(before) && after[i].wf() implies (
    #[trigger] after[j]).wf() by {
        if j != i {
            assert(after[j] == before[j]);
            assert(before[j].wf());
        }
    }
}

proof fn lemma_turns_keep_harts(m: MachineState, i: int, retired: bool)
    requires
        0 <= i <= m.harts.len(),
    ensures
        m.turns(i, retired).0.harts.len() == m.harts.len(),
    decreases m.harts.len() - i,
{
    if i < m.harts.len() {
        if m.harts[i].run == HartState::Stopped {
            lemma_turns_keep_harts(m, i + 1, retired);
        } else {
            m.lemma_turn_keeps_harts(i, true);
            let (n, turn) = m.turn(i, true);
            if let Ok(b) = turn {
                lemma_turns_keep_harts(n, i + 1, retired || b);
            }
        }
    }
}

proof fn lemma_peers_keep_harts(m: MachineState, i: int, j: int)
    requires
        0 <= j <= m.harts.len(),
    ensures
        m.peers(i, j).0.harts.len() == m.harts.len(),
    decreases m.harts.len() - j,
{
    if j < m.harts.len() {
        if j == i || m.harts[j].run == HartState::Stopped {
            lemma_peers_keep_harts(m, i, j + 1);
        } else {
            m.lemma_turn_keeps_harts(j, false);
            lemma_peers_keep_harts(m.turn(j, false).0, i, j + 1);
        }
    }
}

proof fn lemma_peer_rounds_keep_harts(m: MachineState, i: int, n: u64)
    ensures
        m.peer_rounds(i, n).0.harts.len() == m.harts.len(),
    decreases n,
{
    if n > 0 {
        let t = m.ticked(1);
        lemma_peers_keep_harts(t, i, 0);
        lemma_peer_rounds_keep_harts(t.peers(i, 0).0, i, (n - 1) as u64);
    }
}

pub proof fn lemma_at_memop_is_a_hart(m: MachineState, j: int)
    ensures
        match m.at_memop(j) {
            Some(i) => 0 <= i < m.harts.len(),
            None => true,
        },
    decreases m.harts.len() - j,
{
    if 0 <= j < m.harts.len() {
        lemma_at_memop_is_a_hart(m, j + 1);
    }
}

/// A machine has as many harts after a step as before.
pub proof fn law_a_step_keeps_the_harts(m: MachineState)
    ensures
        m.stepped().0.harts.len() == m.harts.len(),
{
    reveal(MachineState::stepped);
    reveal(MachineState::round);
    reveal(MachineState::collapsed);
    lemma_turns_keep_harts(m, 0, false);
    lemma_at_memop_is_a_hart(m, 0);
    if let Some(i) = m.at_memop(0) {
        let (h, bus, done) = native_memop(m.harts[i], m.bus, m.memset_pc, m.memcpy_pc);
        let n = MachineState { harts: m.harts.update(i, h), bus, ..m };
        lemma_turns_keep_harts(n, 0, false);
        if let Some(charged) = done {
            lemma_peer_rounds_keep_harts(n.counted(m.harts[i].pc, charged), i, charged);
        }
    }
}

/// The state hash covers all of RAM: what is hashed, and zeros after it, is the whole of it.
pub proof fn law_the_state_hash_covers_ram(m: MemState)
    requires
        m.covered(),
    ensures
        m.bytes == written(m) + Seq::new(
            (m.bytes.len() - written(m).len()) as nat,
            |i: int| 0u8,
        ),
{
    assert(m.bytes =~= written(m) + Seq::new(
        (m.bytes.len() - written(m).len()) as nat,
        |i: int| 0u8,
    ));
}

/// The state hash sees the guest-visible state and nothing else: performance toggles,
/// caches, the profiler and the probe do not enter it.
pub proof fn law_the_state_hash_ignores_toggles(m: MachineState, n: MachineState)
    requires
        m.time == n.time,
        m.bus.ram.bytes == n.bus.ram.bytes,
        m.bus.ram.extent == n.bus.ram.extent,
        m.bus.uart.output == n.bus.uart.output,
        m.bus.virtio.output == n.bus.virtio.output,
        m.harts.len() == n.harts.len(),
        forall|i: int|
            0 <= i < m.harts.len() ==> {
                let (a, b) = (#[trigger] m.harts[i], n.harts[i]);
                a.x == b.x && a.pc == b.pc && a.privilege == b.privilege && a.csr == b.csr
                    && a.reservation == b.reservation && a.run == b.run
            },
    ensures
        digest(state_bytes(m)) == digest(state_bytes(n)),
{
    lemma_harts_bytes_agree(m.harts, n.harts, m.harts.len() as int);
}

proof fn lemma_harts_bytes_agree(a: Seq<HartModel>, b: Seq<HartModel>, n: int)
    requires
        0 <= n <= a.len(),
        a.len() == b.len(),
        forall|i: int|
            0 <= i < a.len() ==> hart_bytes(#[trigger] a[i]) == hart_bytes(b[i]),
    ensures
        harts_bytes(a, n) == harts_bytes(b, n),
    decreases n,
{
    if n > 0 {
        lemma_harts_bytes_agree(a, b, n - 1);
        assert(hart_bytes(a[n - 1]) == hart_bytes(b[n - 1]));
    }
}

/// The earliest deadline is that of an idle hart, and no idle hart has an earlier one.
pub proof fn law_the_clock_jumps_to_the_earliest_deadline(harts: Seq<HartModel>, n: int)
    requires
        0 <= n <= harts.len(),
    ensures
        match MachineState::earliest_deadline(harts, n) {
            Some(t) => {
                &&& exists|i: int|
                    0 <= i < n && (#[trigger] harts[i]).run == HartState::Idle
                        && harts[i].deadline() == Some(t)
                &&& forall|i: int|
                    0 <= i < n && (#[trigger] harts[i]).run == HartState::Idle
                        && harts[i].deadline() is Some ==> t <= harts[i].deadline()->0
            },
            None => forall|i: int|
                0 <= i < n && (#[trigger] harts[i]).run == HartState::Idle
                    ==> harts[i].deadline() is None,
        },
    decreases n,
{
    if n > 0 {
        law_the_clock_jumps_to_the_earliest_deadline(harts, n - 1);
        let h = harts[n - 1];
        if MachineState::earliest_deadline(harts, n - 1) is Some {
            let i = choose|i: int|
                0 <= i < n - 1 && (#[trigger] harts[i]).run == HartState::Idle
                    && harts[i].deadline() == MachineState::earliest_deadline(harts, n - 1);
            assert(harts[i].run == HartState::Idle);
        }
    }
}

} // verus!
