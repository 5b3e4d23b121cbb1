//! A differential probe: one fixed guest program, run for a fixed number of steps, whose
//! result is the same on a 64-bit host and on a 32-bit one. It builds a value wider than 32
//! bits, takes it through RAM above 2^31, and writes a byte to a device.

use vstd::prelude::*;
use vstd::string::*;
use crate::bytes::{le_bytes, push_le};
use crate::cpu::StepError;
use crate::decode_cache::DecodeState;
use crate::loader::blank;
use crate::machine::{digest, digest_of, fresh, law_a_step_keeps_the_harts, length_bytes, push_length, state_bytes, Machine, MachineState};
use crate::mem::{Memory, RAM_BASE};
use crate::model::{BlockCacheState, HartModel};
use crate::text::{describe_step_error, step_error_text};

pub mod trace;

verus! {

/// Where the probe stores its 64-bit test value: past the end of the program.
pub const SCRATCH: u64 = 0x8000_0100;

/// The UART's transmit register.
pub const UART_THR: u64 = 0x1000_0000;

/// How many steps to take. The program's last instruction is a jump to itself, so that any
/// number past its length ends in the same state.
pub const BUDGET: u64 = 64;

/// How much RAM the probe has.
pub const PROBE_RAM: usize = 0x1_0000;

/// A value that does not fit in 32 bits.
pub const WIDE: u64 = 0x100_0000_0000;

/// Host values for [`hash_diagnostics`].
pub const EXPECTED_HASH_DIAGNOSTICS: [u64; 3] = [
    2_170_039_440_619_509_621,
    8_086_395_815_454_877_121,
    6_984_003_033_159_075_747,
];

/// The guest program.
pub open spec fn program() -> Seq<u32> {
    seq![
        0x0010_0093u32,  //  0: addi x1, x0, 1
        0x0280_9113,  //  4: slli x2, x1, 40       -> x2 = 1 << 40
        0x0010_0193,  //  8: addi x3, x0, 1
        0x01F1_9193,  // 12: slli x3, x3, 31       -> x3 = the RAM base
        0x1001_8193,  // 16: addi x3, x3, 0x100    -> x3 = SCRATCH
        0x0021_B023,  // 20: sd   x2, 0(x3)        -> 8-byte store, high address
        0x0001_B203,  // 24: ld   x4, 0(x3)        -> and back
        0x0010_0313,  // 28: addi x6, x0, 1
        0x01C3_1313,  // 32: slli x6, x6, 28       -> x6 = UART_THR
        0x0410_0393,  // 36: addi x7, x0, 0x41     -> 'A'
        0x0073_0023,  // 40: sb   x7, 0(x6)        -> device byte write
        0x0012_8293,  // 44: addi x5, x5, 1
        0x0000_006F,  // 48: jal  x0, 0            -> spin here forever
    ]
}

/// The guest program.
fn program_words() -> (r: Vec<u32>)
    ensures
        r@ == program(),
{
    let r: Vec<u32> = vec![
        0x0010_0093,
        0x0280_9113,
        0x0010_0193,
        0x01F1_9193,
        0x1001_8193,
        0x0021_B023,
        0x0001_B203,
        0x0010_0313,
        0x01C3_1313,
        0x0410_0393,
        0x0073_0023,
        0x0012_8293,
        0x0000_006F,
    ];
    proof {
        assert(r@ =~= program());
    }
    r
}

/// Instructions as they stand in memory.
pub open spec fn image_of(words: Seq<u32>) -> Seq<u8>
    decreases words.len(),
{
    if words.len() == 0 {
        Seq::empty()
    } else {
        image_of(words.drop_last()) + le_bytes(words.last() as nat, 4)
    }
}

/// Lay instructions out as they stand in memory.
pub fn assemble(words: &[u32]) -> (r: Vec<u8>)
    ensures
        r@ == image_of(words@),
{
    let mut out: Vec<u8> = Vec::new();
    let mut i: usize = 0;
    proof {
        assert(out@ =~= image_of(words@.take(0)));
    }
    while i < words.len()
        invariant
            i <= words@.len(),
            out@ == image_of(words@.take(i as int)),
        decreases words@.len() - i,
    {
        push_le(&mut out, words[i] as u64, 4);
        i += 1;
        proof {
            assert(words@.take(i as int).drop_last() =~= words@.take(i - 1));
            assert(out@ =~= image_of(words@.take(i as int)));
        }
    }
    proof {
        assert(words@.take(i as int) =~= words@);
    }
    out
}

/// What one probe run observed.
#[derive(Debug, PartialEq, Eq)]
pub struct Probe {
    /// Instructions retired.
    pub instret: u64,
    /// `x0..=x7`. `x0` is among them precisely because it must stay zero.
    pub regs: [u64; 8],
    /// Bytes the guest wrote to the UART.
    pub uart: Vec<u8>,
    /// The whole-machine hash: registers, CSRs and written RAM folded together.
    pub state_hash: u64,
    /// The error text if stepping faulted, so that a fault names itself.
    pub fault: Option<String>,
}

/// Which of the optional accelerators to switch on. The plain interpreter is the oracle.
#[derive(Debug, Clone, Copy, PartialEq, Eq, Structural)]
pub struct Speedups {
    /// The decode cache.
    pub fetch_cache: bool,
    /// The portable block compiler.
    pub block_jit: bool,
    /// The translation cache.
    pub tlb: bool,
}

impl Speedups {
    /// The interpreter oracle: every accelerator off, as a new hart has them.
    #[verifier::allow_in_spec]
    pub fn off() -> (r: Self)
        returns
            (Speedups { fetch_cache: false, block_jit: false, tlb: false }),
    {
        Speedups { fetch_cache: false, block_jit: false, tlb: false }
    }

    /// What the browser build enables.
    #[verifier::allow_in_spec]
    pub fn on() -> (r: Self)
        returns
            (Speedups { fetch_cache: true, block_jit: true, tlb: true }),
    {
        Speedups { fetch_cache: true, block_jit: true, tlb: true }
    }

    /// A hart with the accelerators set.
    pub open spec fn on_hart(self, h: HartModel) -> HartModel {
        HartModel {
            decode: if self.fetch_cache {
                Some(DecodeState::cold())
            } else {
                None
            },
            blocks: if self.block_jit {
                Some(BlockCacheState::cold())
            } else {
                None
            },
            tlb: self.tlb,
            ..h
        }
    }

    /// A machine with the accelerators set on every hart.
    pub open spec fn on_machine(self, m: MachineState) -> MachineState {
        MachineState {
            harts: Seq::new(m.harts.len(), |i: int| self.on_hart(m.harts[i])),
            ..m
        }
    }

    /// Apply to a machine: the one place where the choice of accelerators is written down.
    pub fn apply(self, machine: &mut Machine)
        requires
            old(machine).wf(),
        ensures
            final(machine).wf(),
            final(machine)@ == self.on_machine(old(machine)@),
    {
        machine.set_decode_cache(self.fetch_cache);
        machine.set_block_jit(self.block_jit);
        machine.set_tlb(self.tlb);
        proof {
            assert(machine@.harts =~= self.on_machine(old(machine)@).harts);
        }
    }
}

/// The machine before its first step.
pub open spec fn loaded(speedups: Speedups) -> MachineState {
    let m = speedups.on_machine(fresh(blank(PROBE_RAM as nat), 1));
    MachineState {
        bus: crate::bus::BusState {
            ram: m.bus.ram.write(RAM_BASE, image_of(program())).1,
            ..m.bus
        },
        harts: m.harts.update(0, m.harts[0].with_pc(RAM_BASE)),
        ..m
    }
}

/// The machine after at most `n` steps, and the error that stopped it, if one did.
pub open spec fn after(m: MachineState, n: nat) -> (MachineState, Option<StepError>)
    decreases n,
{
    if n == 0 {
        (m, None)
    } else {
        match m.stepped() {
            (next, Ok(())) => after(next, (n - 1) as nat),
            (next, Err(e)) => (next, Some(e)),
        }
    }
}

/// Run the program for [`BUDGET`] steps with every accelerator off.
#[must_use]
pub fn run() -> (r: Probe)
    ensures
        observes(r, Speedups::off()),
{
    run_with(Speedups::off())
}

/// Whether the probe is what a run with these accelerators gives.
pub open spec fn observes(p: Probe, speedups: Speedups) -> bool {
    let (m, fault) = after(loaded(speedups), BUDGET as nat);
    &&& p.instret == m.time
    &&& forall|i: int| 0 <= i < 8 ==> (#[trigger] p.regs@[i]) == m.harts[0].x[i]
    &&& p.uart@ == m.bus.uart.output
    &&& p.state_hash == digest(state_bytes(m))
    &&& match fault {
        Some(e) => p.fault is Some && (p.fault->0)@ == step_error_text(e),
        None => p.fault is None,
    }
}

/// The harts a machine has stay as many whatever it does.
proof fn lemma_after_keeps_harts(m: MachineState, n: nat)
    ensures
        after(m, n).0.harts.len() == m.harts.len(),
    decreases n,
{
    if n > 0 {
        law_a_step_keeps_the_harts(m);
        lemma_after_keeps_harts(m.stepped().0, (n - 1) as nat);
    }
}

/// [`run`], with a chosen accelerator configuration. Deterministic by construction: no clock,
/// no entropy, no I/O.
#[must_use]
pub fn run_with(speedups: Speedups) -> (r: Probe)
    ensures
        observes(r, speedups),
{
    let mut machine: Machine = Machine::new(Memory::new(PROBE_RAM), 1);
    proof {
        assert(machine@.bus.ram.bytes =~= blank(PROBE_RAM as nat).bytes);
    }
    speedups.apply(&mut machine);
    let words: Vec<u32> = program_words();
    let image: Vec<u8> = assemble(words.as_slice());
    let _ = machine.write_ram(RAM_BASE, image.as_slice());
    machine.set_pc(0, RAM_BASE);
    let ghost start = machine@;
    proof {
        lemma_after_keeps_harts(start, BUDGET as nat);
        assert(start.harts =~= loaded(speedups).harts);
    }
    let mut fault: Option<String> = None;
    let mut left: u64 = BUDGET;
    let ghost goal = after(start, BUDGET as nat);
    while left > 0
        invariant_except_break
            goal == after(machine@, left as nat),
            fault is None,
        invariant
            machine.wf(),
        ensures
            goal.0 == machine@,
            match goal.1 {
                Some(e) => fault is Some && (fault->0)@ == step_error_text(e),
                None => fault is None,
            },
        decreases left,
    {
        match machine.step() {
            Ok(()) => {},
            Err(e) => {
                fault = Some(describe_step_error(e));
                break;
            },
        }
        left = left - 1;
    }
    let mut regs: [u64; 8] = [0;8];
    let mut i: usize = 0;
    while i < 8
        invariant
            i <= 8,
            machine@.harts.len() == 1,
            forall|k: int| 0 <= k < i ==> (#[trigger] regs@[k]) == machine@.harts[0].x[k],
        decreases 8 - i,
    {
        regs[i] = machine.reg(0, i);
        i += 1;
    }
    Probe {
        instret: machine.instret(),
        regs,
        uart: vstd::slice::slice_to_vec(machine.uart_output()),
        state_hash: machine.state_hash(),
        fault,
    }
}

/// What a probe disagrees about first, if it does: every expectation is derived from the
/// program, and none from a run.
pub open spec fn disagreement(p: Probe) -> Option<Seq<char>> {
    if p.fault is Some {
        Some("stepping faulted"@)
    } else if p.instret != BUDGET {
        Some("every budgeted instruction should retire"@)
    } else if p.regs@[0] != 0 {
        Some("x0 is hardwired zero"@)
    } else if p.regs@[1] != 1 {
        Some("x1 = 1"@)
    } else if p.regs@[2] != WIDE {
        Some("x2 = 1 << 40 — a value that does not fit in 32 bits"@)
    } else if p.regs@[3] != SCRATCH {
        Some("x3 = a guest address above 2^31"@)
    } else if p.regs@[4] != WIDE {
        Some("x4 = the same wide value, round-tripped through RAM"@)
    } else if p.regs@[5] != 1 {
        Some("x5 = 1"@)
    } else if p.regs@[6] != UART_THR {
        Some("x6 = the UART base"@)
    } else if p.regs@[7] != 0x41 {
        Some("x7 = 'A'"@)
    } else if p.uart@ != seq![0x41u8] {
        Some("the MMIO byte write reached the UART"@)
    } else {
        None
    }
}

/// Everything that two hosts must agree on: the architectural result of running the program.
/// The state hash is not among it: lengths are hashed at the host's word size. What comes
/// back names the first expectation that fails.
pub fn check_portable(p: &Probe) -> (r: Result<(), &'static str>)
    ensures
        match disagreement(*p) {
            Some(text) => r is Err && (r->Err_0)@ == text,
            None => r is Ok,
        },
{
    if p.fault.is_some() {
        return Err("stepping faulted");
    }
    if p.instret != BUDGET {
        return Err("every budgeted instruction should retire");
    }
    if p.regs[0] != 0 {
        return Err("x0 is hardwired zero");
    }
    if p.regs[1] != 1 {
        return Err("x1 = 1");
    }
    if p.regs[2] != WIDE {
        return Err("x2 = 1 << 40 — a value that does not fit in 32 bits");
    }
    if p.regs[3] != SCRATCH {
        return Err("x3 = a guest address above 2^31");
    }
    if p.regs[4] != WIDE {
        return Err("x4 = the same wide value, round-tripped through RAM");
    }
    if p.regs[5] != 1 {
        return Err("x5 = 1");
    }
    if p.regs[6] != UART_THR {
        return Err("x6 = the UART base");
    }
    if p.regs[7] != 0x41 {
        return Err("x7 = 'A'");
    }
    if p.uart.len() != 1 || p.uart[0] != 0x41 {
        return Err("the MMIO byte write reached the UART");
    }
    proof {
        assert(p.uart@ =~= seq![0x41u8]);
    }
    Ok(())
}

/// Three digests that tell why a hash can differ between two hosts: of a 64-bit number, of
/// three bytes after their length, whose width is the host's, and of the three bytes alone.
#[must_use]
pub fn hash_diagnostics() -> (r: [u64; 3])
    ensures
        r@[0] == digest(le_bytes(0xDEAD_BEEF, 8)),
        r@[1] == digest(length_bytes(3) + seq![1u8, 2, 3]),
        r@[2] == digest(seq![1u8, 2, 3]),
{
    let mut number: Vec<u8> = Vec::new();
    push_le(&mut number, 0xDEAD_BEEF, 8);
    let raw: Vec<u8> = vec![1, 2, 3];
    let mut sized: Vec<u8> = Vec::new();
    push_length(&mut sized, 3);
    sized.extend_from_slice(raw.as_slice());
    proof {
        assert(number@ =~= le_bytes(0xDEAD_BEEF, 8));
        assert(raw@ =~= seq![1u8, 2, 3]);
        assert(sized@ =~= length_bytes(3) + seq![1u8, 2, 3]);
    }
    [digest_of(number.as_slice()), digest_of(sized.as_slice()), digest_of(raw.as_slice())]
}

} // verus!
