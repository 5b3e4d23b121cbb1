//! The mathematical model of a hart: its state, and what each instruction, trap, block
//! and step does to it and to the bus. Executable code elsewhere is proved against these
//! functions.

use vstd::prelude::*;
use crate::alu::{
    amo_combined, amo_combined_w, even, low32, muldiv, muldiv_w, sext32, to_word, with_bit, word,
};
use crate::block::{
    condition, imm_alu, imm_alu_32, lowered, reg_alu, reg_alu_32, BlockState, Compiled, Op,
};
use crate::bus::BusState;
use crate::cpu::{cause, HartEffect, HartState, Privilege, SbiRequest, StepError};
use crate::csr::{addr, csr_get, csr_set, slot_of, sstatus};
use crate::decode::{
    amo_op, expansion, funct3, funct7, is_compressed, opcode, priv12, sign_extend, system, Instr,
};
use crate::decode_cache::{DecodeState, Decoded};
use crate::mem::BusError;
use crate::mmu::{translation, Access};

verus! {

/// Instruction lengths in bytes.
pub const ILEN_FULL: u64 = 4;
pub const ILEN_COMPRESSED: u64 = 2;

/// `sie.STIE` / `sie.SSIE`: supervisor timer / software interrupt enables.
pub const SIE_STIE: u64 = 0x20;
pub const SIE_SSIE: u64 = 0x2;
/// `sip.SSIP`: supervisor software interrupt pending.
pub const SIP_SSIP: u64 = 0x2;

/// The most ops a block holds: it bounds how late a timer can be delivered.
pub const MAX_OPS: usize = 64;

/// What the block cache holds for a pc: a visit count, or the compiled block.
pub enum BlockEntry {
    Hot(u32),
    Compiled(BlockState),
}

/// What a block cache holds.
pub struct BlockCacheState {
    pub entries: Map<u64, BlockEntry>,
    pub hits: u64,
}

/// The block-cache slot of `pc`.
pub open spec fn block_slot(pc: u64) -> int {
    pc as int / 2 % crate::block::SLOTS as int
}

impl BlockCacheState {
    /// A cold cache.
    pub open spec fn cold() -> BlockCacheState {
        BlockCacheState { entries: Map::empty(), hits: 0 }
    }

    pub open spec fn flushed(self) -> BlockCacheState {
        BlockCacheState { entries: Map::empty(), ..self }
    }

    /// The compiled block at `pc`, if there is one.
    pub open spec fn compiled(self, pc: u64) -> Option<BlockState> {
        if self.entries.dom().contains(pc) {
            match self.entries[pc] {
                BlockEntry::Compiled(block) => Some(block),
                BlockEntry::Hot(_) => None,
            }
        } else {
            None
        }
    }

    /// The cache after a lookup of `pc`: a hit is counted.
    pub open spec fn after_lookup(self, pc: u64) -> BlockCacheState {
        match self.compiled(pc) {
            Some(_) => BlockCacheState { hits: self.hits.wrapping_add(1), ..self },
            None => self,
        }
    }

    /// The cache with `entry` for `pc`; whatever shared its slot is gone.
    pub open spec fn with(self, pc: u64, entry: BlockEntry) -> BlockCacheState {
        BlockCacheState {
            entries: Map::new(
                |q: u64| q == pc || (self.entries.dom().contains(q) && block_slot(q) != block_slot(
                    pc,
                )),
                |q: u64|
                    if q == pc {
                        entry
                    } else {
                        self.entries[q]
                    },
            ),
            ..self
        }
    }

    /// How often `pc` has been visited cold, this visit included.
    pub open spec fn heat(self, pc: u64) -> u32 {
        if self.entries.dom().contains(pc) {
            match self.entries[pc] {
                BlockEntry::Hot(n) => n.saturating_add(1),
                BlockEntry::Compiled(_) => 1,
            }
        } else {
            1
        }
    }
}

/// The state of a hart.
pub struct HartModel {
    pub x: Seq<u64>,
    pub pc: u64,
    pub instret: u64,
    pub cycle: u64,
    pub ilen: u64,
    pub privilege: Privilege,
    pub csr: Seq<u64>,
    pub reservation: Option<u64>,
    pub run: HartState,
    pub pending_sbi: Option<SbiRequest>,
    pub decode: Option<DecodeState>,
    pub blocks: Option<BlockCacheState>,
    pub reg_cache: bool,
    pub idle_skip: bool,
    pub native_jit: bool,
    pub tlb: bool,
    pub timer_fires: u64,
}

/// A hart and the bus after an instruction, and whether it could be carried out.
pub type Outcome = (HartModel, BusState, Result<(), StepError>);

impl HartModel {
    /// A hart out of reset: S-mode, at the RAM base, running.
    pub open spec fn reset() -> HartModel {
        HartModel {
            x: Seq::new(32, |i: int| 0u64),
            pc: crate::mem::RAM_BASE,
            instret: 0,
            cycle: 0,
            ilen: ILEN_FULL,
            privilege: Privilege::Supervisor,
            csr: Seq::new(10, |i: int| 0u64),
            reservation: None,
            run: HartState::Running,
            pending_sbi: None,
            decode: None,
            blocks: None,
            reg_cache: true,
            idle_skip: true,
            native_jit: false,
            tlb: false,
            timer_fires: 0,
        }
    }

    /// There are 32 registers and `x0` is zero; every modelled CSR is there.
    pub open spec fn wf(self) -> bool {
        &&& self.x.len() == 32
        &&& self.x[0] == 0
        &&& self.csr.len() == crate::csr::CSR_COUNT
    }

    /// Register `i` set to `v`; writes to `x0` are discarded.
    pub open spec fn with_reg(self, i: int, v: u64) -> HartModel {
        if i == 0 {
            self
        } else {
            HartModel { x: self.x.update(i, v), ..self }
        }
    }

    pub open spec fn with_pc(self, pc: u64) -> HartModel {
        HartModel { pc, ..self }
    }

    /// At the next sequential instruction.
    pub open spec fn advanced(self) -> HartModel {
        HartModel { pc: word(self.pc + self.ilen), ..self }
    }

    pub open spec fn get(self, a: u16) -> u64 {
        csr_get(self.csr, a)
    }

    pub open spec fn put(self, a: u16, v: u64) -> HartModel {
        HartModel { csr: csr_set(self.csr, a, v), ..self }
    }

    pub open spec fn is_user(self) -> bool {
        self.privilege == Privilege::User
    }

    /// Whether S-mode may access user pages.
    pub open spec fn sum(self) -> bool {
        self.get(addr::SSTATUS) & sstatus::SUM != 0
    }

    /// Where `va` is, or `None` where the access faults.
    pub open spec fn translate(self, b: BusState, va: u64, access: Access) -> Option<u64> {
        translation(self.get(addr::SATP), va, access, b.ram, self.is_user(), self.sum())
    }

    /// In the trap handler: the cause recorded, the interrupt enable saved and masked,
    /// the interrupted privilege recorded, at `stvec` (direct mode).
    #[verifier::opaque]
    pub open spec fn trapped(self, cause: u64, tval: u64) -> HartModel {
        let before = self.get(addr::SSTATUS);
        let saved = with_bit(before, sstatus::SPIE, before & sstatus::SIE != 0);
        let masked = with_bit(saved, sstatus::SIE, false);
        let status = with_bit(masked, sstatus::SPP, self.privilege == Privilege::Supervisor);
        let h = self.put(addr::SSTATUS, status).put(addr::SEPC, self.pc).put(
            addr::SCAUSE,
            cause,
        ).put(addr::STVAL, tval);
        let stvec = h.get(addr::STVEC);
        HartModel {
            privilege: Privilege::Supervisor,
            pc: (stvec - stvec % 4) as u64,
            ..h
        }
    }

    /// Out of the trap handler: interrupt enable and privilege restored, at `sepc`.
    #[verifier::opaque]
    pub open spec fn returned(self) -> HartModel {
        let before = self.get(addr::SSTATUS);
        let restored = with_bit(before, sstatus::SIE, before & sstatus::SPIE != 0);
        let status = with_bit(with_bit(restored, sstatus::SPIE, true), sstatus::SPP, false);
        let h = self.put(addr::SSTATUS, status);
        HartModel {
            privilege: if before & sstatus::SPP != 0 {
                Privilege::Supervisor
            } else {
                Privilege::User
            },
            pc: h.get(addr::SEPC),
            ..h
        }
    }

    /// Whether supervisor interrupts are taken at all: always in U-mode, in S-mode with
    /// the global enable.
    pub open spec fn interruptible(self) -> bool {
        self.is_user() || self.get(addr::SSTATUS) & sstatus::SIE != 0
    }

    /// Whether a software interrupt (an IPI) is pending and deliverable.
    pub open spec fn software_pending(self) -> bool {
        &&& self.get(addr::SIP) & SIP_SSIP != 0
        &&& self.get(addr::SIE) & SIE_SSIE != 0
        &&& self.interruptible()
    }

    /// Whether the timer has reached its deadline and its interrupt is deliverable.
    pub open spec fn timer_pending(self) -> bool {
        &&& self.cycle >= self.get(addr::STIMECMP)
        &&& self.get(addr::SIE) & SIE_STIE != 0
        &&& self.interruptible()
    }

    /// The highest-priority deliverable interrupt: software above timer.
    #[verifier::opaque]
    pub open spec fn pending(self) -> Option<u64> {
        if self.software_pending() {
            Some(cause::SUPERVISOR_SOFTWARE)
        } else if self.timer_pending() {
            Some(cause::SUPERVISOR_TIMER)
        } else {
            None
        }
    }

    /// The clock value at which this hart's armed timer would wake it. `stimecmp` of all
    /// ones is disarmed.
    #[verifier::opaque]
    pub open spec fn deadline(self) -> Option<u64> {
        if self.get(addr::SIE) & SIE_STIE != 0 && self.interruptible() && self.get(addr::STIMECMP)
            != u64::MAX {
            Some(self.get(addr::STIMECMP))
        } else {
            None
        }
    }

    /// With the translated-code caches emptied.
    pub open spec fn flushed(self) -> HartModel {
        HartModel {
            decode: match self.decode {
                Some(c) => Some(c.flushed()),
                None => None,
            },
            blocks: match self.blocks {
                Some(c) => Some(c.flushed()),
                None => None,
            },
            ..self
        }
    }

    pub open spec fn unimplemented(self, instr: u32) -> StepError {
        StepError::Unimplemented { pc: self.pc, instr }
    }
}

/// The bus error of an access at `addr`.
pub open spec fn out_of_range(addr: u64) -> StepError {
    StepError::Bus(BusError::OutOfRange { addr })
}

// Loads and stores.

/// The width of a load, in bytes.
pub open spec fn load_width(f3: u32) -> Option<int> {
    if f3 == funct3::load::LB || f3 == funct3::load::LBU {
        Some(1)
    } else if f3 == funct3::load::LH || f3 == funct3::load::LHU {
        Some(2)
    } else if f3 == funct3::load::LW || f3 == funct3::load::LWU {
        Some(4)
    } else if f3 == funct3::load::LD {
        Some(8)
    } else {
        None
    }
}

/// The loaded value, sign- or zero-extended.
pub open spec fn extended(f3: u32, v: nat) -> u64 {
    if f3 == funct3::load::LB {
        sign_extend(v as u32, 0x80)
    } else if f3 == funct3::load::LH {
        sign_extend(v as u32, 0x8000)
    } else if f3 == funct3::load::LW {
        sign_extend(v as u32, 0x8000_0000)
    } else {
        v as u64
    }
}

/// A load from `base + imm`: the value, or `None` where it page-faulted and the trap was
/// taken.
#[verifier::opaque]
pub open spec fn load_value(
    h: HartModel,
    b: BusState,
    f3: u32,
    base: u64,
    imm: u64,
) -> (HartModel, BusState, Result<Option<u64>, StepError>) {
    let va = word(base + imm);
    match h.translate(b, va, Access::Load) {
        None => (h.trapped(cause::LOAD_PAGE_FAULT, va), b, Ok(None)),
        Some(pa) => match load_width(f3) {
            None => (h, b, Err(h.unimplemented(f3))),
            Some(w) => match b.read(pa, w) {
                (None, after) => (h, after, Err(out_of_range(pa))),
                (Some(v), after) => (h, after, Ok(Some(extended(f3, v)))),
            },
        },
    }
}

/// The width of a store, in bytes.
pub open spec fn store_width(f3: u32) -> Option<int> {
    if f3 == funct3::store::SB {
        Some(1)
    } else if f3 == funct3::store::SH {
        Some(2)
    } else if f3 == funct3::store::SW {
        Some(4)
    } else if f3 == funct3::store::SD {
        Some(8)
    } else {
        None
    }
}

/// The low `w` bytes of a word.
pub open spec fn truncated(v: u64, w: int) -> nat {
    if w == 1 {
        v as nat % 0x100
    } else if w == 2 {
        v as nat % 0x1_0000
    } else if w == 4 {
        v as nat % 0x1_0000_0000
    } else {
        v as nat
    }
}

/// A store of `value` to `base + imm`: whether it page-faulted and the trap was taken.
/// A store to the reserved address breaks the reservation.
#[verifier::opaque]
pub open spec fn store_value(
    h: HartModel,
    b: BusState,
    f3: u32,
    base: u64,
    imm: u64,
    value: u64,
) -> (HartModel, BusState, Result<bool, StepError>) {
    let va = word(base + imm);
    match h.translate(b, va, Access::Store) {
        None => (h.trapped(cause::STORE_PAGE_FAULT, va), b, Ok(true)),
        Some(pa) => {
            let h1 = if h.reservation == Some(pa) {
                HartModel { reservation: None, ..h }
            } else {
                h
            };
            match store_width(f3) {
                None => (h1, b, Err(h1.unimplemented(f3))),
                Some(w) => match b.write(pa, w, truncated(value, w)) {
                    None => (h1, b, Err(out_of_range(pa))),
                    Some(after) => (h1, after, Ok(false)),
                },
            }
        },
    }
}

// The instruction families.

/// OP: register-register integer ops, and the M extension.
#[verifier::opaque]
pub open spec fn sem_op(h: HartModel, i: Instr) -> HartModel {
    let a = h.x[i.rs1() as int];
    let b = h.x[i.rs2() as int];
    let v = if i.funct7() == funct7::MULDIV {
        muldiv(i.funct3(), a, b)
    } else {
        reg_alu(i).result(a, b)
    };
    h.with_reg(i.rd() as int, v).advanced()
}

/// OP-IMM: register-immediate integer ops.
#[verifier::opaque]
pub open spec fn sem_op_imm(h: HartModel, i: Instr) -> HartModel {
    let (alu, imm) = imm_alu(i);
    h.with_reg(i.rd() as int, alu.result(h.x[i.rs1() as int], imm)).advanced()
}

/// OP-IMM-32: 32-bit register-immediate ops, sign-extended to 64.
#[verifier::opaque]
pub open spec fn sem_op_imm_32(h: HartModel, i: Instr) -> (HartModel, Result<(), StepError>) {
    match imm_alu_32(i) {
        Some((alu, imm)) => (
            h.with_reg(i.rd() as int, alu.result(h.x[i.rs1() as int], imm)).advanced(),
            Ok(()),
        ),
        None => (h, Err(h.unimplemented(i.0))),
    }
}

/// OP-32: 32-bit register-register ops, sign-extended to 64, and the M extension.
#[verifier::opaque]
pub open spec fn sem_op_32(h: HartModel, i: Instr) -> (HartModel, Result<(), StepError>) {
    let a = h.x[i.rs1() as int];
    let b = h.x[i.rs2() as int];
    let v = if i.funct7() == funct7::MULDIV {
        muldiv_w(i.funct3(), a, b)
    } else {
        match reg_alu_32(i) {
            Some(alu) => Some(alu.result(a, b)),
            None => None,
        }
    };
    match v {
        Some(v) => (h.with_reg(i.rd() as int, v).advanced(), Ok(())),
        None => (h, Err(h.unimplemented(i.0))),
    }
}

/// BRANCH: conditionally add the offset to pc, else advance.
#[verifier::opaque]
pub open spec fn sem_branch(h: HartModel, i: Instr) -> (HartModel, Result<(), StepError>) {
    match condition(i.funct3()) {
        Some(cond) => (
            if cond.holds(h.x[i.rs1() as int], h.x[i.rs2() as int]) {
                h.with_pc(word(h.pc + i.b_imm()))
            } else {
                h.advanced()
            },
            Ok(()),
        ),
        None => (h, Err(h.unimplemented(i.0))),
    }
}

/// JAL: link the next instruction's address into rd, jump to `pc + offset`.
#[verifier::opaque]
pub open spec fn sem_jal(h: HartModel, i: Instr) -> HartModel {
    h.with_reg(i.rd() as int, word(h.pc + h.ilen)).with_pc(word(h.pc + i.j_imm()))
}

/// JALR: link the next instruction's address into rd, jump to `(rs1 + offset) & !1`.
#[verifier::opaque]
pub open spec fn sem_jalr(h: HartModel, i: Instr) -> HartModel {
    h.with_reg(i.rd() as int, word(h.pc + h.ilen)).with_pc(
        even(word(h.x[i.rs1() as int] + i.i_imm())),
    )
}

/// LOAD: read memory at `rs1 + imm` into rd.
#[verifier::opaque]
pub open spec fn sem_load(h: HartModel, b: BusState, i: Instr) -> Outcome {
    let (h1, b1, r) = load_value(h, b, i.funct3(), h.x[i.rs1() as int], i.i_imm());
    match r {
        Err(e) => (h1, b1, Err(e)),
        Ok(None) => (h1, b1, Ok(())),
        Ok(Some(v)) => (h1.with_reg(i.rd() as int, v).advanced(), b1, Ok(())),
    }
}

/// STORE: write rs2, truncated to the access width, to `rs1 + imm`.
#[verifier::opaque]
pub open spec fn sem_store(h: HartModel, b: BusState, i: Instr) -> Outcome {
    let (h1, b1, r) = store_value(
        h,
        b,
        i.funct3(),
        h.x[i.rs1() as int],
        i.s_imm(),
        h.x[i.rs2() as int],
    );
    match r {
        Err(e) => (h1, b1, Err(e)),
        Ok(true) => (h1, b1, Ok(())),
        Ok(false) => (h1.advanced(), b1, Ok(())),
    }
}

/// The width of an atomic op, in bytes.
pub open spec fn amo_width(f3: u32) -> Option<int> {
    if f3 == funct3::amo::W {
        Some(4)
    } else if f3 == funct3::amo::D {
        Some(8)
    } else {
        None
    }
}

/// What an atomic op of width `w` puts in rd for the value `v` in memory.
pub open spec fn amo_loaded(w: int, v: nat) -> u64 {
    if w == 4 {
        sext32(v as u32)
    } else {
        v as u64
    }
}

/// `lr.w`/`lr.d`: load the addressed value into rd and reserve the address.
#[verifier::opaque]
pub open spec fn sem_lr(h: HartModel, b: BusState, i: Instr, pa: u64) -> Outcome {
    match amo_width(i.funct3()) {
        None => (h, b, Err(h.unimplemented(i.0))),
        Some(w) => match b.read(pa, w) {
            (None, after) => (h, after, Err(out_of_range(pa))),
            (Some(v), after) => (
                HartModel { reservation: Some(pa), ..h }.with_reg(
                    i.rd() as int,
                    amo_loaded(w, v),
                ).advanced(),
                after,
                Ok(()),
            ),
        },
    }
}

/// `sc.w`/`sc.d`: store rs2 iff the reservation still names this address, writing 0
/// (success) or 1 (failure) to rd. The reservation clears either way.
#[verifier::opaque]
pub open spec fn sem_sc(h: HartModel, b: BusState, i: Instr, pa: u64) -> Outcome {
    let h1 = HartModel { reservation: None, ..h };
    let rs2 = h.x[i.rs2() as int];
    if h.reservation != Some(pa) {
        (h1.with_reg(i.rd() as int, 1).advanced(), b, Ok(()))
    } else {
        match amo_width(i.funct3()) {
            None => (h1, b, Err(h.unimplemented(i.0))),
            Some(w) => match b.write(pa, w, truncated(rs2, w)) {
                None => (h1, b, Err(out_of_range(pa))),
                Some(after) => (h1.with_reg(i.rd() as int, 0).advanced(), after, Ok(())),
            },
        }
    }
}

/// What an arithmetic atomic op leaves in memory.
pub open spec fn amo_stored(f5: u32, w: int, v: nat, rs2: u64) -> Option<nat> {
    if w == 4 {
        match amo_combined_w(f5, v as u32, low32(rs2)) {
            Some(n) => Some(n as nat),
            None => None,
        }
    } else {
        match amo_combined(f5, v as u64, rs2) {
            Some(n) => Some(n as nat),
            None => None,
        }
    }
}

/// An arithmetic atomic read-modify-write at `pa`: the old value into rd.
#[verifier::opaque]
pub open spec fn sem_amo_rmw(h: HartModel, b: BusState, i: Instr, pa: u64) -> Outcome {
    match amo_width(i.funct3()) {
        None => (h, b, Err(h.unimplemented(i.0))),
        Some(w) => match b.read(pa, w) {
            (None, seen) => (h, seen, Err(out_of_range(pa))),
            (Some(v), seen) => match amo_stored(i.funct5(), w, v, h.x[i.rs2() as int]) {
                None => (h, seen, Err(h.unimplemented(i.0))),
                Some(n) => match seen.write(pa, w, n) {
                    None => (h, seen, Err(out_of_range(pa))),
                    Some(after) => (
                        h.with_reg(i.rd() as int, amo_loaded(w, v)).advanced(),
                        after,
                        Ok(()),
                    ),
                },
            },
        },
    }
}

/// AMO: atomic read-modify-write, load-reserved and store-conditional at the address in
/// rs1. The page must be writable.
#[verifier::opaque]
pub open spec fn sem_amo(h: HartModel, b: BusState, i: Instr) -> Outcome {
    let va = h.x[i.rs1() as int];
    match h.translate(b, va, Access::Store) {
        None => (h.trapped(cause::STORE_PAGE_FAULT, va), b, Ok(())),
        Some(pa) => if i.funct5() == amo_op::LR {
            sem_lr(h, b, i, pa)
        } else if i.funct5() == amo_op::SC {
            sem_sc(h, b, i, pa)
        } else {
            sem_amo_rmw(h, b, i, pa)
        },
    }
}

/// How a `csr*` instruction combines the source operand with the old value.
pub enum CsrOp {
    Write,
    SetBits,
    ClearBits,
}

/// Read-modify-write a CSR: the old value into rd, the source combined in. Setting and
/// clearing bits skip the write when the source is zero; `time` is read-only and shows the
/// machine clock; a write to `satp` switches the address space, so translated code goes.
#[verifier::opaque]
pub open spec fn sem_csr(h: HartModel, i: Instr, source: u64, op: CsrOp) -> (
    HartModel,
    Result<(), StepError>,
) {
    let a = i.csr();
    let rd = i.rd() as int;
    if a == addr::TIME {
        (h.with_reg(rd, h.cycle).advanced(), Ok(()))
    } else if slot_of(a) is None {
        (h, Err(StepError::UnknownCsr { pc: h.pc, addr: a }))
    } else {
        let before = h.get(a);
        let h1 = match op {
            CsrOp::Write => h.put(a, source),
            CsrOp::SetBits => if source != 0 {
                h.put(a, before | source)
            } else {
                h
            },
            CsrOp::ClearBits => if source != 0 {
                h.put(a, before & !source)
            } else {
                h
            },
        };
        let h2 = if a == addr::SATP && (op is Write || source != 0) {
            h1.flushed()
        } else {
            h1
        };
        (h2.with_reg(rd, before).advanced(), Ok(()))
    }
}

/// Privileged SYSTEM ops: `sfence.vma`, `ecall`, `ebreak`, `sret`, `wfi`. A U-mode
/// `ecall` is a syscall and traps; an S-mode one is an SBI call, captured for the driver.
#[verifier::opaque]
pub open spec fn sem_priv(h: HartModel, i: Instr) -> (HartModel, Result<(), StepError>) {
    if i.funct7() == funct7::SFENCE_VMA {
        (h.flushed().advanced(), Ok(()))
    } else if i.funct12() == priv12::ECALL {
        match h.privilege {
            Privilege::User => (h.trapped(cause::ECALL_FROM_U, 0), Ok(())),
            Privilege::Supervisor => (
                HartModel {
                    pending_sbi: Some(
                        SbiRequest {
                            eid: h.x[17],
                            fid: h.x[16],
                            arg0: h.x[10],
                            arg1: h.x[11],
                            arg2: h.x[12],
                        },
                    ),
                    ..h
                }.advanced(),
                Ok(()),
            ),
        }
    } else if i.funct12() == priv12::EBREAK {
        (h.trapped(cause::BREAKPOINT, h.pc), Ok(()))
    } else if i.funct12() == priv12::SRET {
        (h.returned(), Ok(()))
    } else if i.funct12() == priv12::WFI {
        let h1 = h.advanced();
        (
            if h1.idle_skip && h1.pending() is None {
                HartModel { run: HartState::Idle, ..h1 }
            } else {
                h1
            },
            Ok(()),
        )
    } else {
        (h, Err(h.unimplemented(i.0)))
    }
}

/// SYSTEM: CSR instructions and privileged ops.
#[verifier::opaque]
pub open spec fn sem_system(h: HartModel, i: Instr) -> (HartModel, Result<(), StepError>) {
    let reg = h.x[i.rs1() as int];
    let imm = i.rs1() as u64;
    let f3 = i.funct3();
    if f3 == system::PRIV {
        sem_priv(h, i)
    } else if f3 == system::CSRRW {
        sem_csr(h, i, reg, CsrOp::Write)
    } else if f3 == system::CSRRS {
        sem_csr(h, i, reg, CsrOp::SetBits)
    } else if f3 == system::CSRRC {
        sem_csr(h, i, reg, CsrOp::ClearBits)
    } else if f3 == system::CSRRWI {
        sem_csr(h, i, imm, CsrOp::Write)
    } else if f3 == system::CSRRSI {
        sem_csr(h, i, imm, CsrOp::SetBits)
    } else if f3 == system::CSRRCI {
        sem_csr(h, i, imm, CsrOp::ClearBits)
    } else {
        (h, Err(h.unimplemented(i.0)))
    }
}

/// One instruction, whose length is `h.ilen`.
#[verifier::opaque]
pub open spec fn execute(h: HartModel, b: BusState, raw: u32) -> Outcome {
    let i = Instr(raw);
    let op = i.opcode();
    let rd = i.rd() as int;
    if op == opcode::LUI {
        (h.with_reg(rd, i.u_imm()).advanced(), b, Ok(()))
    } else if op == opcode::AUIPC {
        (h.with_reg(rd, word(h.pc + i.u_imm())).advanced(), b, Ok(()))
    } else if op == opcode::OP_IMM {
        (sem_op_imm(h, i), b, Ok(()))
    } else if op == opcode::OP {
        (sem_op(h, i), b, Ok(()))
    } else if op == opcode::OP_IMM_32 {
        (sem_op_imm_32(h, i).0, b, sem_op_imm_32(h, i).1)
    } else if op == opcode::OP_32 {
        (sem_op_32(h, i).0, b, sem_op_32(h, i).1)
    } else if op == opcode::BRANCH {
        (sem_branch(h, i).0, b, sem_branch(h, i).1)
    } else if op == opcode::JAL {
        (sem_jal(h, i), b, Ok(()))
    } else if op == opcode::JALR {
        (sem_jalr(h, i), b, Ok(()))
    } else if op == opcode::LOAD {
        sem_load(h, b, i)
    } else if op == opcode::STORE {
        sem_store(h, b, i)
    } else if op == opcode::AMO {
        sem_amo(h, b, i)
    } else if op == opcode::SYSTEM {
        (sem_system(h, i).0, b, sem_system(h, i).1)
    } else if op == opcode::MISC_MEM {
        (h.advanced(), b, Ok(()))
    } else {
        (h, b, Err(h.unimplemented(raw)))
    }
}

// Blocks.

/// How a block goes on after an op.
pub enum Flow {
    Next,
    Stop,
    Fail(StepError),
}

/// One IR op.
#[verifier::opaque]
pub open spec fn run_op(h: HartModel, b: BusState, op: Op) -> (HartModel, BusState, Flow) {
    match op {
        Op::AluImm { alu, rd, rs1, imm } => (
            h.with_reg(rd as int, alu.result(h.x[rs1 as int], to_word(imm))),
            b,
            Flow::Next,
        ),
        Op::AluReg { alu, rd, rs1, rs2 } => (
            h.with_reg(rd as int, alu.result(h.x[rs1 as int], h.x[rs2 as int])),
            b,
            Flow::Next,
        ),
        Op::SetImm { rd, value } => (h.with_reg(rd as int, value), b, Flow::Next),
        Op::Load { funct3, rd, rs1, imm, pc } => match load_value(
            h.with_pc(pc),
            b,
            funct3,
            h.x[rs1 as int],
            to_word(imm),
        ) {
            (h1, b1, Ok(Some(v))) => (h1.with_reg(rd as int, v), b1, Flow::Next),
            (h1, b1, Ok(None)) => (h1, b1, Flow::Stop),
            (h1, b1, Err(e)) => (h1, b1, Flow::Fail(e)),
        },
        Op::Store { funct3, rs1, rs2, imm, pc } => match store_value(
            h.with_pc(pc),
            b,
            funct3,
            h.x[rs1 as int],
            to_word(imm),
            h.x[rs2 as int],
        ) {
            (h1, b1, Ok(false)) => (h1, b1, Flow::Next),
            (h1, b1, Ok(true)) => (h1, b1, Flow::Stop),
            (h1, b1, Err(e)) => (h1, b1, Flow::Fail(e)),
        },
        Op::Branch { cond, rs1, rs2, taken, not_taken } => (
            h.with_pc(
                if cond.holds(h.x[rs1 as int], h.x[rs2 as int]) {
                    taken
                } else {
                    not_taken
                },
            ),
            b,
            Flow::Stop,
        ),
        Op::Jump { rd, link, target } => (
            h.with_reg(rd as int, link).with_pc(target),
            b,
            Flow::Stop,
        ),
        Op::JumpReg { rd, rs1, imm, link } => (
            h.with_reg(rd as int, link).with_pc(even(word(h.x[rs1 as int] + to_word(imm)))),
            b,
            Flow::Stop,
        ),
    }
}

/// The ops of a block from the `from`-th on: the instructions retired in all.
pub open spec fn run_ops(h: HartModel, b: BusState, ops: Seq<Op>, exit_pc: u64, from: int) -> (
    HartModel,
    BusState,
    Result<u64, StepError>,
)
    decreases ops.len() - from,
{
    if from < 0 || from >= ops.len() {
        (h.with_pc(exit_pc), b, Ok(from as u64))
    } else {
        match run_op(h, b, ops[from]) {
            (h1, b1, Flow::Next) => run_ops(h1, b1, ops, exit_pc, from + 1),
            (h1, b1, Flow::Stop) => (h1, b1, Ok((from + 1) as u64)),
            (h1, b1, Flow::Fail(e)) => (h1, b1, Err(e)),
        }
    }
}

/// How a block goes on after `done` of its ops, the last of which ended in `o`.
pub open spec fn resumed(
    o: (HartModel, BusState, Flow),
    ops: Seq<Op>,
    exit_pc: u64,
    done: int,
) -> (HartModel, BusState, Result<u64, StepError>) {
    match o.2 {
        Flow::Next => run_ops(o.0, o.1, ops, exit_pc, done),
        Flow::Stop => (o.0, o.1, Ok(done as u64)),
        Flow::Fail(e) => (o.0, o.1, Err(e)),
    }
}

/// The decoded instruction at `pc`, or `None` where it cannot be fetched or is a
/// compressed encoding that stands for nothing. To look an instruction up for a block has no
/// effect on a device.
#[verifier::opaque]
pub open spec fn fetched(h: HartModel, b: BusState, pc: u64) -> Option<Decoded> {
    match h.translate(b, pc, Access::Fetch) {
        None => None,
        Some(pa) => match b.peek(pa, 2) {
            None => None,
            Some(half) => if is_compressed(half as u16) {
                match expansion(half as u16) {
                    Some(raw) => Some(Decoded { raw, ilen: ILEN_COMPRESSED }),
                    None => None,
                }
            } else {
                match b.peek(pa, 4) {
                    Some(raw) => Some(Decoded { raw: raw as u32, ilen: ILEN_FULL }),
                    None => None,
                }
            },
        },
    }
}

/// The block of at most `most` ops that starts at `pc`: instructions are lowered until a
/// block-ending one (kept), or one that cannot be fetched or lowered (left out).
pub open spec fn block_at(h: HartModel, b: BusState, pc: u64, most: nat) -> BlockState
    decreases most,
{
    if most == 0 {
        BlockState { ops: Seq::empty(), exit_pc: pc }
    } else {
        match fetched(h, b, pc) {
            None => BlockState { ops: Seq::empty(), exit_pc: pc },
            Some(d) => match lowered(d.raw, d.ilen, pc) {
                Compiled::Continue(op) => {
                    let rest = block_at(h, b, word(pc + d.ilen), (most - 1) as nat);
                    BlockState { ops: seq![op] + rest.ops, exit_pc: rest.exit_pc }
                },
                Compiled::Terminate(op) => BlockState {
                    ops: seq![op],
                    exit_pc: word(pc + d.ilen),
                },
                Compiled::Unsupported => BlockState { ops: Seq::empty(), exit_pc: pc },
            },
        }
    }
}

/// The block JIT at the current pc: a compiled block runs; otherwise the visit is
/// counted, and once hot the block is compiled and run. `None` where there is no block to
/// run, so one instruction is interpreted.
#[verifier::opaque]
pub open spec fn try_block(h: HartModel, b: BusState) -> (
    HartModel,
    BusState,
    Result<Option<u64>, StepError>,
) {
    let cache = h.blocks->0;
    match cache.compiled(h.pc) {
        Some(block) => {
            let h1 = HartModel { blocks: Some(cache.after_lookup(h.pc)), ..h };
            if block.ops.len() == 0 {
                (h1, b, Ok(None))
            } else {
                ran(run_ops(h1, b, block.ops, block.exit_pc, 0))
            }
        },
        None => {
            let warm = cache.with(h.pc, BlockEntry::Hot(cache.heat(h.pc)));
            if cache.heat(h.pc) < crate::block::HOT_THRESHOLD {
                (HartModel { blocks: Some(warm), ..h }, b, Ok(None))
            } else {
                let block = block_at(h, b, h.pc, MAX_OPS as nat);
                let h1 = HartModel {
                    blocks: Some(warm.with(h.pc, BlockEntry::Compiled(block))),
                    ..h
                };
                if block.ops.len() == 0 {
                    (h1, b, Ok(None))
                } else {
                    ran(run_ops(h1, b, block.ops, block.exit_pc, 0))
                }
            }
        },
    }
}

/// A block that was run.
pub open spec fn ran(o: (HartModel, BusState, Result<u64, StepError>)) -> (
    HartModel,
    BusState,
    Result<Option<u64>, StepError>,
) {
    (
        o.0,
        o.1,
        match o.2 {
            Ok(n) => Ok(Some(n)),
            Err(e) => Err(e),
        },
    )
}

// Steps.

/// Execute `raw` and retire it; a captured SBI call is handed to the driver.
#[verifier::opaque]
pub open spec fn retire(h: HartModel, b: BusState, raw: u32) -> (
    HartModel,
    BusState,
    Result<HartEffect, StepError>,
) {
    let (h1, b1, r) = execute(h, b, raw);
    match r {
        Err(e) => (h1, b1, Err(e)),
        Ok(()) => (
            HartModel { instret: h1.instret.wrapping_add(1), pending_sbi: None, ..h1 },
            b1,
            Ok(
                match h1.pending_sbi {
                    Some(req) => HartEffect::Sbi(req),
                    None => HartEffect::Retired,
                },
            ),
        ),
    }
}

/// With the decode of the current instruction recorded.
pub open spec fn remembering(h: HartModel, raw: u32) -> HartModel {
    HartModel {
        decode: match h.decode {
            Some(c) => Some(c.with(h.pc, Decoded { raw, ilen: h.ilen })),
            None => None,
        },
        ..h
    }
}

/// Fetch, expand, record and execute the instruction at pc. A fetch fault is taken as a
/// trap. A fetch reads the bus like a load does: each of its one or two reads takes a byte
/// off the UART where the pc is at the receive register.
#[verifier::opaque]
pub open spec fn fetch_and_retire(h: HartModel, b: BusState) -> (
    HartModel,
    BusState,
    Result<HartEffect, StepError>,
) {
    match h.translate(b, h.pc, Access::Fetch) {
        None => (h.trapped(cause::INSTRUCTION_PAGE_FAULT, h.pc), b, Ok(HartEffect::Retired)),
        Some(pa) => match b.read(pa, 2) {
            (None, b1) => (h, b1, Err(out_of_range(pa))),
            (Some(half), b1) => if is_compressed(half as u16) {
                let h1 = HartModel { ilen: ILEN_COMPRESSED, ..h };
                match expansion(half as u16) {
                    None => (h1, b1, Err(h.unimplemented(half as u32))),
                    Some(raw) => retire(remembering(h1, raw), b1, raw),
                }
            } else {
                let h1 = HartModel { ilen: ILEN_FULL, ..h };
                match b1.read(pa, 4) {
                    (None, b2) => (h1, b2, Err(out_of_range(pa))),
                    (Some(raw), b2) => retire(remembering(h1, raw as u32), b2, raw as u32),
                }
            },
        },
    }
}

/// Interpret one instruction: a decode-cache hit skips the fetch.
#[verifier::opaque]
pub open spec fn interpret(h: HartModel, b: BusState) -> (
    HartModel,
    BusState,
    Result<HartEffect, StepError>,
) {
    match h.decode {
        None => fetch_and_retire(h, b),
        Some(cache) => {
            let satp = h.get(addr::SATP);
            let h1 = HartModel { decode: Some(cache.after_lookup(satp, h.pc)), ..h };
            match cache.lookup(satp, h.pc) {
                Some(d) => retire(HartModel { ilen: d.ilen, ..h1 }, b, d.raw),
                None => fetch_and_retire(h1, b),
            }
        },
    }
}

/// A compiled block, or else one interpreted instruction.
#[verifier::opaque]
pub open spec fn run_next(h: HartModel, b: BusState) -> (
    HartModel,
    BusState,
    Result<HartEffect, StepError>,
) {
    if h.blocks is Some {
        match try_block(h, b) {
            (h1, b1, Err(e)) => (h1, b1, Err(e)),
            (h1, b1, Ok(Some(n))) => (
                HartModel { instret: h1.instret.wrapping_add(n), ..h1 },
                b1,
                Ok(HartEffect::Block(n)),
            ),
            (h1, b1, Ok(None)) => interpret(h1, b1),
        }
    } else {
        interpret(h, b)
    }
}

/// In the handler of interrupt `cause`, which came before the instruction at pc. Timer
/// interrupts are counted.
#[verifier::opaque]
pub open spec fn interrupted(h: HartModel, cause: u64) -> HartModel {
    if cause == cause::SUPERVISOR_TIMER {
        HartModel { timer_fires: h.timer_fires.wrapping_add(1), ..h }.trapped(cause, 0)
    } else {
        h.trapped(cause, 0)
    }
}

/// One step. A parked hart stays parked until an interrupt is pending; a pending
/// interrupt is delivered before anything is fetched; then a block runs, or one
/// instruction.
#[verifier::opaque]
pub open spec fn step(h: HartModel, b: BusState) -> (
    HartModel,
    BusState,
    Result<HartEffect, StepError>,
) {
    let awake = if h.run == HartState::Idle {
        HartModel { run: HartState::Running, ..h }
    } else {
        h
    };
    match h.pending() {
        Some(cause) => (interrupted(awake, cause), b, Ok(HartEffect::Retired)),
        None => if h.run == HartState::Idle {
            (h, b, Ok(HartEffect::Idle))
        } else {
            run_next(h, b)
        },
    }
}

/// A load does not read the register file: its operands are values.
pub proof fn lemma_load_ignores_registers(
    h: HartModel,
    b: BusState,
    f3: u32,
    base: u64,
    imm: u64,
    x: Seq<u64>,
)
    ensures
        load_value(HartModel { x, ..h }, b, f3, base, imm) == (
            HartModel { x, ..load_value(h, b, f3, base, imm).0 },
            load_value(h, b, f3, base, imm).1,
            load_value(h, b, f3, base, imm).2,
        ),
        load_value(h, b, f3, base, imm).0.x == h.x,
{
    reveal(load_value);
    reveal(HartModel::trapped);
}

/// A store does not read the register file either.
pub proof fn lemma_store_ignores_registers(
    h: HartModel,
    b: BusState,
    f3: u32,
    base: u64,
    imm: u64,
    value: u64,
    x: Seq<u64>,
)
    ensures
        store_value(HartModel { x, ..h }, b, f3, base, imm, value) == (
            HartModel { x, ..store_value(h, b, f3, base, imm, value).0 },
            store_value(h, b, f3, base, imm, value).1,
            store_value(h, b, f3, base, imm, value).2,
        ),
        store_value(h, b, f3, base, imm, value).0.x == h.x,
{
    reveal(store_value);
    reveal(HartModel::trapped);
}

// Native memory ops.

/// What the interpreter would retire for a `memset`/`memcpy` of `len` bytes: a fixed cost
/// per call, 3 instructions a word and 4 a byte of the tail.
pub open spec fn memop_charge(len: u64) -> u64 {
    (24 + (len as int / 8) * 3 + (len as int % 8) * 4) as u64
}

/// One page-bounded piece of a native memory op: destination and source physical address
/// and length.
pub struct Chunk {
    pub dst: u64,
    pub src: u64,
    pub len: u64,
}

/// The length of the piece at offset `off`: up to the end, the end of the destination's
/// page and, for a copy, of the source's.
#[verifier::opaque]
pub open spec fn chunk_len(is_set: bool, dst: u64, src: u64, len: u64, off: u64) -> int {
    let d = 0x1000 - word(dst + off) as int % 0x1000;
    let s = 0x1000 - word(src + off) as int % 0x1000;
    let c = if d < len - off {
        d
    } else {
        len - off
    };
    if !is_set && s < c {
        s
    } else {
        c
    }
}

/// The piece at offset `off`, or `None` where its page would fault.
#[verifier::opaque]
pub open spec fn chunk_at(
    h: HartModel,
    b: BusState,
    is_set: bool,
    dst: u64,
    src: u64,
    len: u64,
    off: u64,
) -> Option<Chunk> {
    let source = if is_set {
        Some(0u64)
    } else {
        h.translate(b, word(src + off), Access::Load)
    };
    match (h.translate(b, word(dst + off), Access::Store), source) {
        (Some(d), Some(s)) => Some(
            Chunk { dst: d, src: s, len: chunk_len(is_set, dst, src, len, off) as u64 },
        ),
        _ => None,
    }
}

/// A piece is not empty, and ends within the op.
pub proof fn lemma_chunk_len(is_set: bool, dst: u64, src: u64, len: u64, off: u64)
    requires
        off < len,
    ensures
        0 < chunk_len(is_set, dst, src, len, off) <= 0x1000,
        off + chunk_len(is_set, dst, src, len, off) <= len,
{
    reveal(chunk_len);
}

/// The pieces of a native memory op from offset `off` on, or `None` where a page of it
/// would fault.
pub open spec fn memop_plan(
    h: HartModel,
    b: BusState,
    is_set: bool,
    dst: u64,
    src: u64,
    len: u64,
    off: u64,
) -> Option<Seq<Chunk>>
    decreases len - off,
    via memop_plan_decreases
{
    if off >= len {
        Some(Seq::empty())
    } else {
        match chunk_at(h, b, is_set, dst, src, len, off) {
            None => None,
            Some(c) => match memop_plan(h, b, is_set, dst, src, len, (off + c.len) as u64) {
                Some(rest) => Some(seq![c] + rest),
                None => None,
            },
        }
    }
}

#[via_fn]
proof fn memop_plan_decreases(
    h: HartModel,
    b: BusState,
    is_set: bool,
    dst: u64,
    src: u64,
    len: u64,
    off: u64,
) {
    if off < len {
        reveal(chunk_at);
        lemma_chunk_len(is_set, dst, src, len, off);
    }
}

/// Carry out the pieces from the `from`-th on: fill each with `value`, or copy it. Whether
/// all of them were mapped RAM.
pub open spec fn memop_run(b: BusState, is_set: bool, value: u8, chunks: Seq<Chunk>, from: int) -> (
    BusState,
    bool,
)
    decreases chunks.len() - from,
{
    if from < 0 || from >= chunks.len() {
        (b, true)
    } else {
        let c = chunks[from];
        let data = if is_set {
            Some(Seq::new(c.len as nat, |i: int| value))
        } else {
            b.ram.fetch(c.src, c.len as int)
        };
        match data {
            None => (b, false),
            Some(data) => {
                let (fault, ram) = b.ram.write(c.dst, data);
                let b1 = BusState { ram, ..b };
                if fault is Some {
                    (b1, false)
                } else {
                    memop_run(b1, is_set, value, chunks, from + 1)
                }
            },
        }
    }
}

/// A native `memset`/`memcpy` at the entry of the routine, or `None` where it is declined:
/// not a routine's entry, a page that would fault, or an address that is not RAM. On
/// success the hart has returned to `ra` with the destination in `a0`.
#[verifier::opaque]
pub open spec fn native_memop(
    h: HartModel,
    b: BusState,
    memset_pc: Option<u64>,
    memcpy_pc: Option<u64>,
) -> (HartModel, BusState, Option<u64>) {
    let is_set = memset_pc == Some(h.pc);
    if !is_set && memcpy_pc != Some(h.pc) {
        (h, b, None)
    } else {
        match memop_plan(h, b, is_set, h.x[10], h.x[11], h.x[12], 0) {
            None => (h, b, None),
            Some(chunks) => {
                let (b1, done) = memop_run(
                    b,
                    is_set,
                    (h.x[11] as int % 0x100) as u8,
                    chunks,
                    0,
                );
                if done {
                    (h.with_pc(h.x[1]), b1, Some(memop_charge(h.x[12])))
                } else {
                    (h, b1, None)
                }
            },
        }
    }
}

} // verus!
