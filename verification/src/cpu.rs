//! The hart: register file, program counter, instruction-count clock, and the
//! fetch/decode/execute `step`; and the single-hart machine around one.

use std::sync::Arc;
use vstd::prelude::*;
use crate::alu::{
    amo_combine_u32, amo_combine_u64, even, low32, muldiv_value, muldiv_w_value, sext32, with_bit,
    word,
};
use crate::block::{
    branch_cond, compile_op, decode_imm_alu, decode_imm_alu_32, decode_reg_alu, decode_reg_alu_32,
    ops_wf, share, Block, BlockCache, Compiled, Op,
};
use crate::bus::{Bus, BusState};
use crate::csr::{addr, slot_of, sstatus, Csr, CsrError};
use crate::decode::{
    amo_op, expand, funct3, funct7, is_compressed, opcode, priv12, sign_extend, system, Instr,
};
use crate::decode_cache::{DecodeCache, DecodeState, Decoded};
use crate::mem::{BusError, Memory, RAM_BASE};
use crate::mmu::{translate, Access};
use crate::model::{
    block_at, chunk_at, chunk_len, fetch_and_retire, fetched, interpret, interrupted, memop_plan,
    memop_run, native_memop, retire, run_next, run_ops, sem_amo, sem_amo_rmw, sem_branch, sem_csr,
    sem_jal, sem_jalr, sem_load, sem_lr, sem_op, sem_op_32, sem_op_imm, sem_op_imm_32, sem_priv,
    sem_sc, sem_store, sem_system, try_block, BlockCacheState, Chunk, CsrOp, HartModel,
    ILEN_COMPRESSED, ILEN_FULL, MAX_OPS, SIE_SSIE, SIE_STIE, SIP_SSIP,
};

pub mod cause;
pub mod sbi;

verus! {

/// The privilege mode the hart is executing in.
#[derive(Debug, Clone, Copy, PartialEq, Eq, Structural)]
pub enum Privilege {
    User,
    Supervisor,
}

/// Whether a hart is executing or parked. Secondary harts boot `Stopped` and are woken by
/// an SBI `hart_start`; the boot hart starts `Running`.
#[derive(Debug, Clone, Copy, PartialEq, Eq, Structural)]
pub enum HartState {
    Running,
    Stopped,
    /// Halted on `wfi`, waiting for an interrupt to become pending. Retires no
    /// instructions until woken.
    Idle,
}

/// An SBI firmware call captured from an S-mode `ecall`, serviced by the driver against
/// the whole hart set.
#[derive(Debug, Clone, Copy, PartialEq, Eq, Structural)]
pub struct SbiRequest {
    pub eid: u64,
    pub fid: u64,
    pub arg0: u64,
    pub arg1: u64,
    pub arg2: u64,
}

/// What a `step` asks the driver to do after it returns.
#[derive(Debug, Clone, Copy, PartialEq, Eq, Structural)]
pub enum HartEffect {
    /// One instruction retired, or a trap was taken.
    Retired,
    Sbi(SbiRequest),
    /// The hart is parked on `wfi` and retired nothing this step.
    Idle,
    /// A block retired this many instructions.
    Block(u64),
}

/// Why a `step` could not complete.
#[derive(Debug, Clone, Copy, PartialEq, Eq, Structural)]
pub enum StepError {
    /// Instruction fetch or a memory access fell outside RAM.
    Bus(BusError),
    /// The decoder does not know this instruction.
    Unimplemented { pc: u64, instr: u32 },
    /// A `csr*` instruction named a CSR that is not modelled.
    UnknownCsr { pc: u64, addr: u16 },
    /// Translation failed for `va` outside a guest access.
    PageFault { va: u64 },
}

fn csr_step_error(pc: u64, e: CsrError) -> (r: StepError)
    ensures
        r == match e {
            CsrError::Unknown(a) => StepError::UnknownCsr { pc, addr: a },
        },
{
    match e {
        CsrError::Unknown(a) => StepError::UnknownCsr { pc, addr: a },
    }
}

/// Instructions the interpreter would retire for a `memset`/`memcpy` of `len` bytes,
/// dominated by the word-store loop (3 a word), plus a per-call fixed cost and a byte tail
/// of 4 each. The native-op helper charges this to the clock.
pub fn memop_charge(len: u64) -> (r: u64)
    ensures
        r == crate::model::memop_charge(len),
        r == 24 + len / 8 * 3 + len % 8 * 4,
{
    24 + (len / 8) * 3 + (len % 8) * 4
}

/// A single RISC-V hart: register file, pc, CSRs, and privilege. The memory and devices it
/// runs against live in a shared [`Bus`] threaded through `step`.
pub struct Hart {
    pub x: [u64; 32],
    pub pc: u64,
    pub instret: u64,
    /// The shared machine clock as of this step: the `rdtime` / `stimecmp` source.
    pub cycle: u64,
    /// Length in bytes of the instruction currently executing (2 or 4).
    pub cur_ilen: u64,
    pub privilege: Privilege,
    pub csr: Csr,
    /// Address reserved by the most recent `lr`, if still valid.
    pub reservation: Option<u64>,
    /// Running or parked.
    pub state: HartState,
    /// An SBI request captured from an S-mode `ecall` this step.
    pub pending_sbi: Option<SbiRequest>,
    /// The decode cache, or `None` when disabled: the default, which interprets purely.
    pub decode_cache: Option<DecodeCache>,
    /// The block JIT's `pc -> block` cache, or `None` when disabled.
    pub block_cache: Option<BlockCache>,
    /// Whether the block executor caches the register file in a local.
    pub reg_cache: bool,
    /// Whether `wfi` parks the hart, vs. acting as a bare nop that advances.
    pub idle_skip: bool,
    /// Whether a native backend is selected for compiled blocks.
    pub native_jit: bool,
    /// Whether a translation cache is selected.
    pub tlb: bool,
    /// Supervisor timer interrupts delivered to this hart (diagnostic).
    pub timer_fires: u64,
}

impl View for Hart {
    type V = HartModel;

    open spec fn view(&self) -> HartModel {
        HartModel {
            x: self.x@,
            pc: self.pc,
            instret: self.instret,
            cycle: self.cycle,
            ilen: self.cur_ilen,
            privilege: self.privilege,
            csr: self.csr@,
            reservation: self.reservation,
            run: self.state,
            pending_sbi: self.pending_sbi,
            decode: match self.decode_cache {
                Some(c) => Some(c@),
                None => None,
            },
            blocks: match self.block_cache {
                Some(c) => Some(c@),
                None => None,
            },
            reg_cache: self.reg_cache,
            idle_skip: self.idle_skip,
            native_jit: self.native_jit,
            tlb: self.tlb,
            timer_fires: self.timer_fires,
        }
    }
}

impl Clone for Hart {
    fn clone(&self) -> (r: Self)
        ensures
            r@ == self@,
            self.wf() ==> r.wf(),
    {
        let decode_cache: Option<DecodeCache> = match &self.decode_cache {
            Some(c) => Some(c.clone()),
            None => None,
        };
        let block_cache: Option<BlockCache> = match &self.block_cache {
            Some(c) => Some(c.clone()),
            None => None,
        };
        Hart {
            x: self.x,
            pc: self.pc,
            instret: self.instret,
            cycle: self.cycle,
            cur_ilen: self.cur_ilen,
            privilege: self.privilege,
            csr: self.csr,
            reservation: self.reservation,
            state: self.state,
            pending_sbi: self.pending_sbi,
            decode_cache,
            block_cache,
            reg_cache: self.reg_cache,
            idle_skip: self.idle_skip,
            native_jit: self.native_jit,
            tlb: self.tlb,
            timer_fires: self.timer_fires,
        }
    }
}

/// The trap cause of a page fault on `access`.
pub open spec fn page_fault(access: Access) -> u64 {
    match access {
        Access::Fetch => cause::INSTRUCTION_PAGE_FAULT,
        Access::Load => cause::LOAD_PAGE_FAULT,
        Access::Store => cause::STORE_PAGE_FAULT,
    }
}

impl Hart {
    /// `x0` is zero, and the caches are well-formed.
    pub open spec fn wf(self) -> bool {
        &&& self.x@[0] == 0
        &&& match self.decode_cache {
            Some(c) => c.wf(),
            None => true,
        }
        &&& match self.block_cache {
            Some(c) => c.wf(),
            None => true,
        }
    }

    /// A fresh hart, started in S-mode (firmware has already dropped out of M-mode).
    #[must_use]
    pub fn new() -> (r: Self)
        ensures
            r.wf(),
            r@ == HartModel::reset(),
    {
        let x: [u64; 32] = [0;32];
        let r = Self {
            x,
            pc: RAM_BASE,
            instret: 0,
            cycle: 0,
            cur_ilen: ILEN_FULL,
            privilege: Privilege::Supervisor,
            csr: Csr::new(),
            reservation: None,
            state: HartState::Running,
            pending_sbi: None,
            decode_cache: None,
            block_cache: None,
            reg_cache: true,
            idle_skip: true,
            native_jit: false,
            tlb: false,
            timer_fires: 0,
        };
        proof {
            assert(r.x@ =~= Seq::new(32, |i: int| 0u64));
        }
        r
    }

    /// Supervisor timer interrupts delivered to this hart (diagnostic).
    pub fn timer_fires(&self) -> (r: u64)
        ensures
            r == self@.timer_fires,
    {
        self.timer_fires
    }

    /// Enable or disable this hart's decode cache. Enabling starts from a cold cache;
    /// disabling drops it (back to the pure interpreter).
    pub fn set_decode_cache(&mut self, on: bool)
        requires
            old(self).wf(),
        ensures
            final(self).wf(),
            final(self)@ == (HartModel {
                decode: if on {
                    Some(DecodeState::cold())
                } else {
                    None
                },
                ..old(self)@
            }),
    {
        self.decode_cache = if on {
            Some(DecodeCache::new())
        } else {
            None
        };
    }

    /// Enable or disable this hart's block JIT. Starts from a cold cache; disabling drops
    /// it.
    pub fn set_block_jit(&mut self, on: bool)
        requires
            old(self).wf(),
        ensures
            final(self).wf(),
            final(self)@ == (HartModel {
                blocks: if on {
                    Some(BlockCacheState::cold())
                } else {
                    None
                },
                ..old(self)@
            }),
    {
        self.block_cache = if on {
            Some(BlockCache::default())
        } else {
            None
        };
    }

    /// Select the native backend for this hart's block JIT.
    pub fn set_native_jit(&mut self, on: bool)
        requires
            old(self).wf(),
        ensures
            final(self).wf(),
            final(self)@ == (HartModel { native_jit: on, ..old(self)@ }),
    {
        self.native_jit = on;
    }

    /// Whether the native backend is selected.
    pub fn native_jit_enabled(&self) -> (r: bool)
        ensures
            r == self@.native_jit,
    {
        self.native_jit
    }

    /// Select the translation cache.
    pub fn set_tlb(&mut self, on: bool)
        requires
            old(self).wf(),
        ensures
            final(self).wf(),
            final(self)@ == (HartModel { tlb: on, ..old(self)@ }),
    {
        self.tlb = on;
    }

    /// Enable/disable register caching in the block executor.
    pub fn set_register_cache(&mut self, on: bool)
        requires
            old(self).wf(),
        ensures
            final(self).wf(),
            final(self)@ == (HartModel { reg_cache: on, ..old(self)@ }),
    {
        self.reg_cache = on;
    }

    pub fn reg_cache_enabled(&self) -> (r: bool)
        ensures
            r == self@.reg_cache,
    {
        self.reg_cache
    }

    /// Block JIT hits so far.
    pub fn block_jit_hits(&self) -> (r: u64)
        ensures
            r == match self@.blocks {
                Some(c) => c.hits,
                None => 0,
            },
    {
        match &self.block_cache {
            Some(c) => c.hits(),
            None => 0,
        }
    }

    /// Decode-cache hits so far.
    pub fn decode_cache_hits(&self) -> (r: u64)
        ensures
            r == match self@.decode {
                Some(c) => c.hits,
                None => 0,
            },
    {
        match &self.decode_cache {
            Some(c) => c.hits(),
            None => 0,
        }
    }

    /// Enable or disable `wfi` idle-skip. With it off, `wfi` is a bare nop.
    pub fn set_idle_skip(&mut self, on: bool)
        requires
            old(self).wf(),
        ensures
            final(self).wf(),
            final(self)@ == (HartModel { idle_skip: on, ..old(self)@ }),
    {
        self.idle_skip = on;
    }

    /// Park this hart (a secondary before its `hart_start`).
    pub fn park(&mut self)
        requires
            old(self).wf(),
        ensures
            final(self).wf(),
            final(self)@ == (HartModel { run: HartState::Stopped, ..old(self)@ }),
    {
        self.state = HartState::Stopped;
    }

    /// Wake this parked hart at `pc` with `a0 = hartid`, `a1 = opaque`: the SBI
    /// `hart_start` contract.
    pub fn start(&mut self, pc: u64, hartid: u64, opaque: u64)
        requires
            old(self).wf(),
        ensures
            final(self).wf(),
            final(self)@ == started(old(self)@, pc, hartid, opaque),
    {
        self.pc = pc;
        self.set_reg(10, hartid);
        self.set_reg(11, opaque);
        self.state = HartState::Running;
    }

    /// Raise this hart's supervisor software-interrupt pending bit: the effect of an IPI
    /// targeting it.
    pub fn raise_software_interrupt(&mut self)
        requires
            old(self).wf(),
        ensures
            final(self).wf(),
            final(self)@ == old(self)@.put(addr::SIP, old(self)@.get(addr::SIP) | SIP_SSIP),
    {
        let sip: u64 = self.csr_read(addr::SIP) | SIP_SSIP;
        self.csr_write(addr::SIP, sip);
    }

    #[must_use]
    pub fn is_running(&self) -> (r: bool)
        ensures
            r == (self@.run == HartState::Running),
    {
        self.state == HartState::Running
    }

    #[must_use]
    pub fn is_idle(&self) -> (r: bool)
        ensures
            r == (self@.run == HartState::Idle),
    {
        self.state == HartState::Idle
    }

    #[must_use]
    pub fn is_stopped(&self) -> (r: bool)
        ensures
            r == (self@.run == HartState::Stopped),
    {
        self.state == HartState::Stopped
    }

    /// Arm this hart's supervisor timer at `deadline` with the interrupt fully enabled,
    /// and park it idle: the state a hart is in after `wfi` in the idle loop.
    pub fn arm_idle_timer(&mut self, deadline: u64)
        requires
            old(self).wf(),
        ensures
            final(self).wf(),
            final(self)@ == (HartModel {
                run: HartState::Idle,
                ..old(self)@.put(addr::STIMECMP, deadline).put(addr::SIE, SIE_STIE).put(
                    addr::SSTATUS,
                    sstatus::SIE,
                )
            }),
    {
        self.csr_write(addr::STIMECMP, deadline);
        self.csr_write(addr::SIE, SIE_STIE);
        self.csr_write(addr::SSTATUS, sstatus::SIE);
        self.state = HartState::Idle;
    }

    /// Set the shared machine clock this hart observes for its next `step`.
    pub fn set_cycle(&mut self, cycle: u64)
        requires
            old(self).wf(),
        ensures
            final(self).wf(),
            final(self)@ == (HartModel { cycle, ..old(self)@ }),
    {
        self.cycle = cycle;
    }

    /// The current `satp` value (for diagnostics).
    #[must_use]
    pub fn satp(&self) -> (r: u64)
        ensures
            r == self@.get(addr::SATP),
    {
        self.csr_read(addr::SATP)
    }

    #[must_use]
    pub fn reg(&self, i: usize) -> (r: u64)
        requires
            i < 32,
        ensures
            r == self@.x[i as int],
    {
        self.x[i]
    }

    pub fn set_reg(&mut self, i: usize, value: u64)
        requires
            i < 32,
            old(self).wf(),
        ensures
            final(self).wf(),
            final(self)@ == old(self)@.with_reg(i as int, value),
    {
        if i != 0 {
            self.x[i] = value;
        }
    }

    /// Snapshot the register file.
    pub fn registers(&self) -> (r: [u64; 32])
        ensures
            r == self.x,
    {
        self.x
    }

    /// Restore the register file from a block executor's copy, keeping `x0` zero.
    pub fn set_registers(&mut self, regs: [u64; 32])
        requires
            old(self).wf(),
        ensures
            final(self).wf(),
            final(self)@ == (HartModel { x: regs@.update(0, 0), ..old(self)@ }),
            regs@[0] == 0 ==> final(self)@.x == regs@,
    {
        let mut kept: [u64; 32] = regs;
        kept[0] = 0;
        self.x = kept;
        proof {
            if regs@[0] == 0 {
                assert(self.x@ =~= regs@);
            }
        }
    }

    #[must_use]
    pub fn pc(&self) -> (r: u64)
        ensures
            r == self@.pc,
    {
        self.pc
    }

    pub fn set_pc(&mut self, pc: u64)
        requires
            old(self).wf(),
        ensures
            final(self).wf(),
            final(self)@ == old(self)@.with_pc(pc),
    {
        self.pc = pc;
    }

    /// Move the program counter to the next sequential instruction.
    fn advance(&mut self)
        requires
            old(self).wf(),
        ensures
            final(self).wf(),
            final(self)@ == old(self)@.advanced(),
    {
        self.pc = self.pc.wrapping_add(self.cur_ilen);
    }

    /// Read a CSR that is modelled.
    pub fn csr_read(&self, a: u16) -> (r: u64)
        requires
            slot_of(a) is Some,
        ensures
            r == self@.get(a),
            self@.csr.len() == 10,
    {
        match self.csr.read(a) {
            Ok(v) => v,
            Err(_) => 0,
        }
    }

    /// Write a CSR that is modelled.
    fn csr_write(&mut self, a: u16, value: u64)
        requires
            old(self).wf(),
            slot_of(a) is Some,
        ensures
            final(self).wf(),
            final(self)@ == old(self)@.put(a, value),
    {
        let _ = self.csr.write(a, value);
    }

    fn unimplemented(&self, instr: u32) -> (r: StepError)
        ensures
            r == self@.unimplemented(instr),
    {
        StepError::Unimplemented { pc: self.pc, instr }
    }

    /// Whether S-mode may access user pages.
    fn sum(&self) -> (r: bool)
        ensures
            r == self@.sum(),
    {
        self.csr_read(addr::SSTATUS) & sstatus::SUM != 0
    }

    /// Translate a guest virtual address, without a trap.
    fn locate(&self, va: u64, access: Access, bus: &Bus) -> (r: Option<u64>)
        ensures
            r == self@.translate(bus@, va, access),
    {
        let satp: u64 = self.csr_read(addr::SATP);
        let user: bool = self.privilege == Privilege::User;
        match translate(satp, va, access, bus.ram(), user, self.sum()) {
            Ok(pa) => Some(pa),
            Err(_) => None,
        }
    }

    /// Translate a guest virtual address through `satp`. On a page fault, deliver an
    /// S-mode trap and return `None`, so that the caller aborts the instruction.
    fn translate_or_trap(&mut self, va: u64, access: Access, bus: &Bus) -> (r: Option<u64>)
        requires
            old(self).wf(),
        ensures
            final(self).wf(),
            r == old(self)@.translate(bus@, va, access),
            final(self)@ == if r is None {
                old(self)@.trapped(page_fault(access), va)
            } else {
                old(self)@
            },
    {
        match self.locate(va, access, bus) {
            Some(pa) => Some(pa),
            None => {
                let cause: u64 = match access {
                    Access::Fetch => cause::INSTRUCTION_PAGE_FAULT,
                    Access::Load => cause::LOAD_PAGE_FAULT,
                    Access::Store => cause::STORE_PAGE_FAULT,
                };
                self.take_trap(cause, va);
                None
            },
        }
    }

    /// Enter the S-mode trap handler: record the cause, save and mask the
    /// interrupt-enable state, record the interrupted privilege, and jump to `stvec`
    /// (direct mode).
    pub fn take_trap(&mut self, cause: u64, tval: u64)
        requires
            old(self).wf(),
        ensures
            final(self).wf(),
            final(self)@ == old(self)@.trapped(cause, tval),
    {
        proof {
            reveal(HartModel::trapped);
        }
        let before: u64 = self.csr_read(addr::SSTATUS);
        let from_supervisor: bool = self.privilege == Privilege::Supervisor;
        let saved: u64 = with_bit(before, sstatus::SPIE, before & sstatus::SIE != 0);
        let masked: u64 = with_bit(saved, sstatus::SIE, false);
        let status: u64 = with_bit(masked, sstatus::SPP, from_supervisor);
        self.csr_write(addr::SSTATUS, status);
        self.csr_write(addr::SEPC, self.pc);
        self.csr_write(addr::SCAUSE, cause);
        self.csr_write(addr::STVAL, tval);
        self.privilege = Privilege::Supervisor;
        let stvec: u64 = self.csr_read(addr::STVEC);
        self.pc = stvec - stvec % 4;
    }

    /// Return from an S-mode trap: restore the interrupt-enable and privilege from the
    /// `SPIE`/`SPP` fields and resume at `sepc`.
    pub fn sret(&mut self)
        requires
            old(self).wf(),
        ensures
            final(self).wf(),
            final(self)@ == old(self)@.returned(),
    {
        proof {
            reveal(HartModel::returned);
        }
        let before: u64 = self.csr_read(addr::SSTATUS);
        let restored: u64 = with_bit(before, sstatus::SIE, before & sstatus::SPIE != 0);
        let reset: u64 = with_bit(restored, sstatus::SPIE, true);
        let status: u64 = with_bit(reset, sstatus::SPP, false);
        self.csr_write(addr::SSTATUS, status);
        self.privilege = if before & sstatus::SPP != 0 {
            Privilege::Supervisor
        } else {
            Privilege::User
        };
        self.pc = self.csr_read(addr::SEPC);
    }

    /// Whether supervisor interrupts are taken at all.
    fn interruptible(&self) -> (r: bool)
        ensures
            r == self@.interruptible(),
    {
        match self.privilege {
            Privilege::User => true,
            Privilege::Supervisor => self.csr_read(addr::SSTATUS) & sstatus::SIE != 0,
        }
    }

    /// Whether a supervisor software interrupt (an IPI) is pending and currently
    /// deliverable.
    fn software_interrupt_pending(&self) -> (r: bool)
        ensures
            r == self@.software_pending(),
    {
        if self.csr_read(addr::SIP) & SIP_SSIP == 0 {
            return false;
        }
        if self.csr_read(addr::SIE) & SIE_SSIE == 0 {
            return false;
        }
        self.interruptible()
    }

    /// Whether a supervisor timer interrupt is pending and currently deliverable: `time`
    /// has reached `stimecmp`, `sie.STIE` is set, and the privilege gate is met.
    fn timer_interrupt_pending(&self) -> (r: bool)
        ensures
            r == self@.timer_pending(),
    {
        if self.cycle < self.csr_read(addr::STIMECMP) {
            return false;
        }
        if self.csr_read(addr::SIE) & SIE_STIE == 0 {
            return false;
        }
        self.interruptible()
    }

    /// The highest-priority deliverable supervisor interrupt, if any: software above
    /// timer.
    fn pending_interrupt(&self) -> (r: Option<u64>)
        ensures
            r == self@.pending(),
    {
        proof {
            reveal(HartModel::pending);
        }
        if self.software_interrupt_pending() {
            return Some(cause::SUPERVISOR_SOFTWARE);
        }
        if self.timer_interrupt_pending() {
            return Some(cause::SUPERVISOR_TIMER);
        }
        None
    }

    /// The clock value at which this hart's armed timer would wake it, else `None`: only
    /// an IPI can wake this hart.
    pub fn wake_deadline(&self) -> (r: Option<u64>)
        ensures
            r == self@.deadline(),
    {
        proof {
            reveal(HartModel::deadline);
        }
        if self.csr_read(addr::SIE) & SIE_STIE == 0 {
            return None;
        }
        if !self.interruptible() {
            return None;
        }
        let stimecmp: u64 = self.csr_read(addr::STIMECMP);
        if stimecmp == u64::MAX {
            None
        } else {
            Some(stimecmp)
        }
    }

    /// Drop translated code: the guest changed or invalidated translations.
    fn flush_caches(&mut self)
        requires
            old(self).wf(),
        ensures
            final(self).wf(),
            final(self)@ == old(self)@.flushed(),
    {
        match &mut self.decode_cache {
            Some(cache) => {
                cache.flush();
            },
            None => {},
        }
        match &mut self.block_cache {
            Some(cache) => {
                cache.flush();
            },
            None => {},
        }
    }

    /// OP: register-register integer ops, and the M extension.
    fn op(&mut self, instr: Instr)
        requires
            old(self).wf(),
        ensures
            final(self).wf(),
            final(self)@ == sem_op(old(self)@, instr),
    {
        proof {
            reveal(sem_op);
        }
        let a: u64 = self.x[instr.rs1()];
        let b: u64 = self.x[instr.rs2()];
        let value: u64 = if instr.funct7() == funct7::MULDIV {
            muldiv_value(instr.funct3(), a, b)
        } else {
            decode_reg_alu(instr).apply(a, b)
        };
        self.set_reg(instr.rd(), value);
        self.advance();
    }

    /// OP-IMM: register-immediate integer ops.
    fn op_imm(&mut self, instr: Instr)
        requires
            old(self).wf(),
        ensures
            final(self).wf(),
            final(self)@ == sem_op_imm(old(self)@, instr),
    {
        proof {
            reveal(sem_op_imm);
        }
        let (alu, imm) = decode_imm_alu(instr);
        let value: u64 = alu.apply(self.x[instr.rs1()], imm);
        self.set_reg(instr.rd(), value);
        self.advance();
    }

    /// OP-IMM-32: 32-bit register-immediate ops, sign-extended to 64.
    fn op_imm_32(&mut self, instr: Instr) -> (r: Result<(), StepError>)
        requires
            old(self).wf(),
        ensures
            final(self).wf(),
            (final(self)@, r) == sem_op_imm_32(old(self)@, instr),
    {
        proof {
            reveal(sem_op_imm_32);
        }
        match decode_imm_alu_32(instr) {
            Some((alu, imm)) => {
                let value: u64 = alu.apply(self.x[instr.rs1()], imm);
                self.set_reg(instr.rd(), value);
                self.advance();
                Ok(())
            },
            None => Err(self.unimplemented(instr.0)),
        }
    }

    /// OP-32: 32-bit register-register ops, sign-extended to 64, and the M extension.
    fn op_32(&mut self, instr: Instr) -> (r: Result<(), StepError>)
        requires
            old(self).wf(),
        ensures
            final(self).wf(),
            (final(self)@, r) == sem_op_32(old(self)@, instr),
    {
        proof {
            reveal(sem_op_32);
        }
        let a: u64 = self.x[instr.rs1()];
        let b: u64 = self.x[instr.rs2()];
        let value: Option<u64> = if instr.funct7() == funct7::MULDIV {
            muldiv_w_value(instr.funct3(), a, b)
        } else {
            match decode_reg_alu_32(instr) {
                Some(alu) => Some(alu.apply(a, b)),
                None => None,
            }
        };
        match value {
            Some(value) => {
                self.set_reg(instr.rd(), value);
                self.advance();
                Ok(())
            },
            None => Err(self.unimplemented(instr.0)),
        }
    }

    /// BRANCH: conditionally add the offset to pc, else advance.
    fn branch(&mut self, instr: Instr) -> (r: Result<(), StepError>)
        requires
            old(self).wf(),
        ensures
            final(self).wf(),
            (final(self)@, r) == sem_branch(old(self)@, instr),
    {
        proof {
            reveal(sem_branch);
        }
        match branch_cond(instr.funct3()) {
            Some(cond) => {
                if cond.eval(self.x[instr.rs1()], self.x[instr.rs2()]) {
                    self.pc = self.pc.wrapping_add(instr.b_imm());
                } else {
                    self.advance();
                }
                Ok(())
            },
            None => Err(self.unimplemented(instr.0)),
        }
    }

    /// JAL: link the next instruction's address into rd, jump to `pc + offset`.
    fn jal(&mut self, instr: Instr)
        requires
            old(self).wf(),
        ensures
            final(self).wf(),
            final(self)@ == sem_jal(old(self)@, instr),
    {
        proof {
            reveal(sem_jal);
        }
        self.set_reg(instr.rd(), self.pc.wrapping_add(self.cur_ilen));
        self.pc = self.pc.wrapping_add(instr.j_imm());
    }

    /// JALR: link the next instruction's address into rd, jump to `(rs1 + offset) & !1`.
    fn jalr(&mut self, instr: Instr)
        requires
            old(self).wf(),
        ensures
            final(self).wf(),
            final(self)@ == sem_jalr(old(self)@, instr),
    {
        proof {
            reveal(sem_jalr);
        }
        let target: u64 = even(self.x[instr.rs1()].wrapping_add(instr.i_imm()));
        self.set_reg(instr.rd(), self.pc.wrapping_add(self.cur_ilen));
        self.pc = target;
    }

    /// LOAD: read memory at `rs1 + imm`, sign/zero-extend into rd.
    fn load(&mut self, instr: Instr, bus: &mut Bus) -> (r: Result<(), StepError>)
        requires
            old(self).wf(),
            old(bus).wf(),
        ensures
            final(self).wf(),
            final(bus).wf(),
            (final(self)@, final(bus)@, r) == sem_load(old(self)@, old(bus)@, instr),
    {
        proof {
            reveal(sem_load);
        }
        let base: u64 = self.x[instr.rs1()];
        match self.load_value(bus, instr.funct3(), base, instr.i_imm()) {
            Err(e) => Err(e),
            // Faulted: trapped, so the pc is the handler's.
            Ok(None) => Ok(()),
            Ok(Some(value)) => {
                self.set_reg(instr.rd(), value);
                self.advance();
                Ok(())
            },
        }
    }

    /// STORE: write rs2 (truncated to the access width) to `rs1 + imm`.
    fn store(&mut self, instr: Instr, bus: &mut Bus) -> (r: Result<(), StepError>)
        requires
            old(self).wf(),
            old(bus).wf(),
        ensures
            final(self).wf(),
            final(bus).wf(),
            (final(self)@, final(bus)@, r) == sem_store(old(self)@, old(bus)@, instr),
    {
        proof {
            reveal(sem_store);
        }
        let base: u64 = self.x[instr.rs1()];
        let value: u64 = self.x[instr.rs2()];
        match self.store_value(bus, instr.funct3(), base, instr.s_imm(), value) {
            Err(e) => Err(e),
            Ok(true) => Ok(()),
            Ok(false) => {
                self.advance();
                Ok(())
            },
        }
    }

    /// Execute a LOAD from base address `base` + `imm`, returning the loaded value
    /// (sign/zero-extended per `f3`), or `None` if it page-faulted (a trap was taken
    /// against the current `pc`). Takes and returns values, not register indices.
    pub fn load_value(&mut self, bus: &mut Bus, f3: u32, base: u64, imm: u64) -> (r: Result<
        Option<u64>,
        StepError,
    >)
        requires
            old(self).wf(),
            old(bus).wf(),
        ensures
            final(self).wf(),
            final(bus).wf(),
            (final(self)@, final(bus)@, r) == crate::model::load_value(
                old(self)@,
                old(bus)@,
                f3,
                base,
                imm,
            ),
    {
        proof {
            reveal(crate::model::load_value);
        }
        let va: u64 = base.wrapping_add(imm);
        let pa: u64 = match self.translate_or_trap(va, Access::Load, bus) {
            Some(pa) => pa,
            None => {
                return Ok(None);
            },
        };
        if f3 == funct3::load::LB || f3 == funct3::load::LBU {
            match bus.read_u8(pa) {
                Ok(v) => if f3 == funct3::load::LB {
                    Ok(Some(sign_extend(v as u32, 0x80)))
                } else {
                    Ok(Some(v as u64))
                },
                Err(e) => Err(StepError::Bus(e)),
            }
        } else if f3 == funct3::load::LH || f3 == funct3::load::LHU {
            match bus.read_u16(pa) {
                Ok(v) => if f3 == funct3::load::LH {
                    Ok(Some(sign_extend(v as u32, 0x8000)))
                } else {
                    Ok(Some(v as u64))
                },
                Err(e) => Err(StepError::Bus(e)),
            }
        } else if f3 == funct3::load::LW || f3 == funct3::load::LWU {
            match bus.read_u32(pa) {
                Ok(v) => if f3 == funct3::load::LW {
                    Ok(Some(sign_extend(v, 0x8000_0000)))
                } else {
                    Ok(Some(v as u64))
                },
                Err(e) => Err(StepError::Bus(e)),
            }
        } else if f3 == funct3::load::LD {
            match bus.read_u64(pa) {
                Ok(v) => Ok(Some(v)),
                Err(e) => Err(StepError::Bus(e)),
            }
        } else {
            Err(self.unimplemented(f3))
        }
    }

    /// Execute a STORE of `value` to base `base` + `imm`. Returns `true` if it
    /// page-faulted (trap taken, the caller must stop).
    pub fn store_value(
        &mut self,
        bus: &mut Bus,
        f3: u32,
        base: u64,
        imm: u64,
        value: u64,
    ) -> (r: Result<bool, StepError>)
        requires
            old(self).wf(),
            old(bus).wf(),
        ensures
            final(self).wf(),
            final(bus).wf(),
            (final(self)@, final(bus)@, r) == crate::model::store_value(
                old(self)@,
                old(bus)@,
                f3,
                base,
                imm,
                value,
            ),
    {
        proof {
            reveal(crate::model::store_value);
        }
        let va: u64 = base.wrapping_add(imm);
        let pa: u64 = match self.translate_or_trap(va, Access::Store, bus) {
            Some(pa) => pa,
            None => {
                return Ok(true);
            },
        };
        if self.reservation == Some(pa) {
            // A write to the reserved cell breaks lr/sc.
            self.reservation = None;
        }
        let written: Result<(), BusError> = if f3 == funct3::store::SB {
            bus.write_u8(pa, (value % 0x100) as u8)
        } else if f3 == funct3::store::SH {
            bus.write_u16(pa, (value % 0x1_0000) as u16)
        } else if f3 == funct3::store::SW {
            bus.write_u32(pa, low32(value))
        } else if f3 == funct3::store::SD {
            bus.write_u64(pa, value)
        } else {
            return Err(self.unimplemented(f3));
        };
        match written {
            Ok(()) => Ok(false),
            Err(e) => Err(StepError::Bus(e)),
        }
    }

    /// AMO: atomic read-modify-write, LR and SC. The page must be writable, which for the
    /// kernel's data mappings suffices.
    fn amo(&mut self, instr: Instr, bus: &mut Bus) -> (r: Result<(), StepError>)
        requires
            old(self).wf(),
            old(bus).wf(),
        ensures
            final(self).wf(),
            final(bus).wf(),
            (final(self)@, final(bus)@, r) == sem_amo(old(self)@, old(bus)@, instr),
    {
        proof {
            reveal(sem_amo);
        }
        let va: u64 = self.x[instr.rs1()];
        let pa: u64 = match self.translate_or_trap(va, Access::Store, bus) {
            Some(pa) => pa,
            None => {
                return Ok(());
            },
        };
        if instr.funct5() == amo_op::LR {
            self.load_reserved(instr, pa, bus)
        } else if instr.funct5() == amo_op::SC {
            self.store_conditional(instr, pa, bus)
        } else {
            self.amo_rmw(instr, pa, bus)
        }
    }

    /// The arithmetic atomic ops: combine the addressed value with rs2, store the result,
    /// and return the old value in rd.
    fn amo_rmw(&mut self, instr: Instr, pa: u64, bus: &mut Bus) -> (r: Result<(), StepError>)
        requires
            old(self).wf(),
            old(bus).wf(),
        ensures
            final(self).wf(),
            final(bus).wf(),
            (final(self)@, final(bus)@, r) == sem_amo_rmw(old(self)@, old(bus)@, instr, pa),
    {
        proof {
            reveal(sem_amo_rmw);
        }
        let rs2: u64 = self.x[instr.rs2()];
        let loaded: u64 = if instr.funct3() == funct3::amo::W {
            let before: u32 = match bus.read_u32(pa) {
                Ok(v) => v,
                Err(e) => {
                    return Err(StepError::Bus(e));
                },
            };
            let new: u32 = match amo_combine_u32(instr.funct5(), before, low32(rs2)) {
                Some(v) => v,
                None => {
                    return Err(self.unimplemented(instr.0));
                },
            };
            match bus.write_u32(pa, new) {
                Ok(()) => {},
                Err(e) => {
                    return Err(StepError::Bus(e));
                },
            }
            sext32(before)
        } else if instr.funct3() == funct3::amo::D {
            let before: u64 = match bus.read_u64(pa) {
                Ok(v) => v,
                Err(e) => {
                    return Err(StepError::Bus(e));
                },
            };
            let new: u64 = match amo_combine_u64(instr.funct5(), before, rs2) {
                Some(v) => v,
                None => {
                    return Err(self.unimplemented(instr.0));
                },
            };
            match bus.write_u64(pa, new) {
                Ok(()) => {},
                Err(e) => {
                    return Err(StepError::Bus(e));
                },
            }
            before
        } else {
            return Err(self.unimplemented(instr.0));
        };
        self.set_reg(instr.rd(), loaded);
        self.advance();
        Ok(())
    }

    /// `lr.w`/`lr.d`: load the addressed value into rd and reserve the address.
    fn load_reserved(&mut self, instr: Instr, pa: u64, bus: &mut Bus) -> (r: Result<
        (),
        StepError,
    >)
        requires
            old(self).wf(),
            old(bus).wf(),
        ensures
            final(self).wf(),
            final(bus).wf(),
            (final(self)@, final(bus)@, r) == sem_lr(old(self)@, old(bus)@, instr, pa),
    {
        proof {
            reveal(sem_lr);
        }
        let value: u64 = if instr.funct3() == funct3::amo::W {
            match bus.read_u32(pa) {
                Ok(v) => sext32(v),
                Err(e) => {
                    return Err(StepError::Bus(e));
                },
            }
        } else if instr.funct3() == funct3::amo::D {
            match bus.read_u64(pa) {
                Ok(v) => v,
                Err(e) => {
                    return Err(StepError::Bus(e));
                },
            }
        } else {
            return Err(self.unimplemented(instr.0));
        };
        self.reservation = Some(pa);
        self.set_reg(instr.rd(), value);
        self.advance();
        Ok(())
    }

    /// `sc.w`/`sc.d`: store rs2 iff the reservation still names this address, writing 0
    /// (success) or 1 (failure) to rd. The reservation clears either way.
    fn store_conditional(&mut self, instr: Instr, pa: u64, bus: &mut Bus) -> (r: Result<
        (),
        StepError,
    >)
        requires
            old(self).wf(),
            old(bus).wf(),
        ensures
            final(self).wf(),
            final(bus).wf(),
            (final(self)@, final(bus)@, r) == sem_sc(old(self)@, old(bus)@, instr, pa),
    {
        proof {
            reveal(sem_sc);
        }
        let rs2: u64 = self.x[instr.rs2()];
        let reserved: bool = self.reservation == Some(pa);
        self.reservation = None;
        if reserved {
            let written: Result<(), BusError> = if instr.funct3() == funct3::amo::W {
                bus.write_u32(pa, low32(rs2))
            } else if instr.funct3() == funct3::amo::D {
                bus.write_u64(pa, rs2)
            } else {
                return Err(self.unimplemented(instr.0));
            };
            match written {
                Ok(()) => {},
                Err(e) => {
                    return Err(StepError::Bus(e));
                },
            }
        }
        self.set_reg(
            instr.rd(),
            if reserved {
                0
            } else {
                1
            },
        );
        self.advance();
        Ok(())
    }

    /// SYSTEM: CSR instructions and privileged ops.
    fn system(&mut self, instr: Instr) -> (r: Result<(), StepError>)
        requires
            old(self).wf(),
        ensures
            final(self).wf(),
            (final(self)@, r) == sem_system(old(self)@, instr),
    {
        proof {
            reveal(sem_system);
        }
        let reg_source: u64 = self.x[instr.rs1()];
        // The rs1 field is a 5-bit zero-extended immediate here.
        let imm_source: u64 = instr.rs1() as u64;
        let f3: u32 = instr.funct3();
        if f3 == system::PRIV {
            self.priv_op(instr)
        } else if f3 == system::CSRRW {
            self.csr_access(instr, reg_source, CsrOp::Write)
        } else if f3 == system::CSRRS {
            self.csr_access(instr, reg_source, CsrOp::SetBits)
        } else if f3 == system::CSRRC {
            self.csr_access(instr, reg_source, CsrOp::ClearBits)
        } else if f3 == system::CSRRWI {
            self.csr_access(instr, imm_source, CsrOp::Write)
        } else if f3 == system::CSRRSI {
            self.csr_access(instr, imm_source, CsrOp::SetBits)
        } else if f3 == system::CSRRCI {
            self.csr_access(instr, imm_source, CsrOp::ClearBits)
        } else {
            Err(self.unimplemented(instr.0))
        }
    }

    /// Read-modify-write a CSR: old value into rd, combine the source per `op`.
    /// `Set`/`Clear` skip the write when the source is zero (no spurious write).
    fn csr_access(&mut self, instr: Instr, source: u64, op: CsrOp) -> (r: Result<(), StepError>)
        requires
            old(self).wf(),
        ensures
            final(self).wf(),
            (final(self)@, r) == sem_csr(old(self)@, instr, source, op),
    {
        proof {
            reveal(sem_csr);
        }
        let pc: u64 = self.pc;
        let csr: u16 = instr.csr();
        if csr == addr::TIME {
            // The `time` counter is read-only and computed: the shared machine clock.
            let now: u64 = self.cycle;
            self.set_reg(instr.rd(), now);
            self.advance();
            return Ok(());
        }
        let before: u64 = match self.csr.read(csr) {
            Ok(v) => v,
            Err(e) => {
                return Err(csr_step_error(pc, e));
            },
        };
        let (new, do_write): (u64, bool) = match op {
            CsrOp::Write => (source, true),
            CsrOp::SetBits => (before | source, source != 0),
            CsrOp::ClearBits => (before & !source, source != 0),
        };
        if do_write {
            self.csr_write(csr, new);
            // Writing `satp` switches the address space, so every translated instruction
            // is now stale.
            if csr == addr::SATP {
                self.flush_caches();
            }
        }
        self.set_reg(instr.rd(), before);
        self.advance();
        Ok(())
    }

    /// Privileged SYSTEM ops (funct3 = 0), dispatched by funct12.
    fn priv_op(&mut self, instr: Instr) -> (r: Result<(), StepError>)
        requires
            old(self).wf(),
        ensures
            final(self).wf(),
            (final(self)@, r) == sem_priv(old(self)@, instr),
    {
        proof {
            reveal(sem_priv);
        }
        if instr.funct7() == funct7::SFENCE_VMA {
            // Translation walks on every access, but the caches hold translated code.
            self.flush_caches();
            self.advance();
            return Ok(());
        }
        let code: u32 = instr.funct12();
        if code == priv12::ECALL {
            match self.privilege {
                Privilege::User => self.take_trap(cause::ECALL_FROM_U, 0),
                Privilege::Supervisor => self.capture_sbi_call(),
            }
            Ok(())
        } else if code == priv12::EBREAK {
            let pc: u64 = self.pc;
            self.take_trap(cause::BREAKPOINT, pc);
            Ok(())
        } else if code == priv12::SRET {
            self.sret();
            Ok(())
        } else if code == priv12::WFI {
            // wfi retires and advances past itself; if nothing is pending, the hart parks
            // at the next instruction until an interrupt arrives.
            self.advance();
            if self.idle_skip && self.pending_interrupt().is_none() {
                self.state = HartState::Idle;
            }
            Ok(())
        } else {
            Err(self.unimplemented(instr.0))
        }
    }

    /// Capture an S-mode `ecall`'s SBI arguments (`a7` = EID, `a6` = FID, `a0..a2`) and
    /// advance past it.
    fn capture_sbi_call(&mut self)
        requires
            old(self).wf(),
        ensures
            final(self).wf(),
            final(self)@ == (HartModel {
                pending_sbi: Some(
                    SbiRequest {
                        eid: old(self)@.x[17],
                        fid: old(self)@.x[16],
                        arg0: old(self)@.x[10],
                        arg1: old(self)@.x[11],
                        arg2: old(self)@.x[12],
                    },
                ),
                ..old(self)@
            }).advanced(),
    {
        self.pending_sbi =
        Some(
            SbiRequest {
                eid: self.x[17],
                fid: self.x[16],
                arg0: self.x[10],
                arg1: self.x[11],
                arg2: self.x[12],
            },
        );
        self.advance();
    }

    /// Execute one 32-bit instruction word.
    fn execute(&mut self, raw: u32, bus: &mut Bus) -> (r: Result<(), StepError>)
        requires
            old(self).wf(),
            old(bus).wf(),
        ensures
            final(self).wf(),
            final(bus).wf(),
            (final(self)@, final(bus)@, r) == crate::model::execute(old(self)@, old(bus)@, raw),
    {
        proof {
            reveal(crate::model::execute);
        }
        let instr = Instr(raw);
        let op: u32 = instr.opcode();
        if op == opcode::LUI {
            self.set_reg(instr.rd(), instr.u_imm());
            self.advance();
            Ok(())
        } else if op == opcode::AUIPC {
            let value: u64 = self.pc.wrapping_add(instr.u_imm());
            self.set_reg(instr.rd(), value);
            self.advance();
            Ok(())
        } else if op == opcode::OP_IMM {
            self.op_imm(instr);
            Ok(())
        } else if op == opcode::OP {
            self.op(instr);
            Ok(())
        } else if op == opcode::OP_IMM_32 {
            self.op_imm_32(instr)
        } else if op == opcode::OP_32 {
            self.op_32(instr)
        } else if op == opcode::BRANCH {
            self.branch(instr)
        } else if op == opcode::JAL {
            self.jal(instr);
            Ok(())
        } else if op == opcode::JALR {
            self.jalr(instr);
            Ok(())
        } else if op == opcode::LOAD {
            self.load(instr, bus)
        } else if op == opcode::STORE {
            self.store(instr, bus)
        } else if op == opcode::AMO {
            self.amo(instr, bus)
        } else if op == opcode::SYSTEM {
            self.system(instr)
        } else if op == opcode::MISC_MEM {
            // fence / fence.i: no caches or store buffers to order.
            self.advance();
            Ok(())
        } else {
            Err(self.unimplemented(raw))
        }
    }

    /// Block JIT fast path: if a compiled hot block starts at the current pc, run it and
    /// return the instructions it retired. Otherwise count the pc toward hotness, compile
    /// it once hot, and, for a non-empty block, run it. `None` when there is no block to
    /// run, so the caller interprets one instruction.
    fn try_run_block(&mut self, bus: &mut Bus) -> (r: Result<Option<u64>, StepError>)
        requires
            old(self).wf(),
            old(bus).wf(),
            old(self).block_cache is Some,
        ensures
            final(self).wf(),
            final(bus).wf(),
            (final(self)@, final(bus)@, r) == try_block(old(self)@, old(bus)@),
    {
        proof {
            reveal(try_block);
        }
        let pc: u64 = self.pc;
        let known: Option<Arc<Block>> = match &mut self.block_cache {
            Some(cache) => cache.get(pc),
            None => None,
        };
        match known {
            Some(block) => {
                if block.is_empty() {
                    // Nothing compilable starts here.
                    return Ok(None);
                }
                return match self.run_block(&block, bus) {
                    Ok(n) => Ok(Some(n)),
                    Err(e) => Err(e),
                };
            },
            None => {},
        }
        let hot: bool = match &mut self.block_cache {
            Some(cache) => cache.record_hot(pc),
            None => false,
        };
        if !hot {
            return Ok(None);
        }
        let block: Arc<Block> = Arc::new(self.compile_block(bus));
        proof {
            lemma_block_at_ignores_caches(old(self)@, self@.blocks, bus@, pc, MAX_OPS as nat);
        }
        let shared: Arc<Block> = share(&block);
        match &mut self.block_cache {
            Some(cache) => {
                cache.insert(pc, shared);
            },
            None => {},
        }
        if block.is_empty() {
            return Ok(None);
        }
        match self.run_block(&block, bus) {
            Ok(n) => Ok(Some(n)),
            Err(e) => Err(e),
        }
    }

    /// Execute a compiled block: by the native backend where it is selected and takes the
    /// block, else by walking the ops. Both are architecturally identical.
    pub fn run_block(&mut self, block: &Block, bus: &mut Bus) -> (r: Result<u64, StepError>)
        requires
            block.wf(),
            old(self).wf(),
            old(bus).wf(),
        ensures
            final(self).wf(),
            final(bus).wf(),
            (final(self)@, final(bus)@, r) == run_ops(
                old(self)@,
                old(bus)@,
                block@.ops,
                block@.exit_pc,
                0,
            ),
    {
        if self.native_jit_enabled() {
            match self.run_block_native(block) {
                Some(retired) => {
                    return Ok(retired);
                },
                None => {},
            }
        }
        block.exec(self, bus)
    }

    /// The portable build has no native backend: every block is declined, and the caller
    /// walks the ops.
    fn run_block_native(&mut self, _block: &Block) -> (r: Option<u64>)
        requires
            old(self).wf(),
        ensures
            r is None,
            final(self).wf(),
            final(self)@ == old(self)@,
    {
        None
    }

    /// Compile the basic block starting at the current pc into IR. Walks instructions,
    /// fetching without executing or trapping, until a block-ending one, one that cannot
    /// be lowered or fetched, or the length cap.
    pub fn compile_block(&self, bus: &Bus) -> (r: Block)
        requires
            bus.wf(),
        ensures
            r.wf(),
            r@ == block_at(self@, bus@, self@.pc, MAX_OPS as nat),
    {
        let mut ops: Vec<Op> = Vec::new();
        let mut pc: u64 = self.pc;
        let mut left: usize = MAX_OPS;
        let ghost goal = block_at(self@, bus@, pc, MAX_OPS as nat);
        proof {
            assert(ops@ + goal.ops =~= goal.ops);
        }
        while left > 0
            invariant
                left <= MAX_OPS,
                bus.wf(),
                ops_wf(ops@),
                goal == block_at(self@, bus@, self@.pc, MAX_OPS as nat),
                goal.ops == ops@ + block_at(self@, bus@, pc, left as nat).ops,
                goal.exit_pc == block_at(self@, bus@, pc, left as nat).exit_pc,
            decreases left,
        {
            let decoded: Decoded = match self.fetch_for_compile(pc, bus) {
                Some(decoded) => decoded,
                None => {
                    proof {
                        assert(goal.ops =~= ops@);
                    }
                    return Block::new(ops, pc);
                },
            };
            let ghost rest = block_at(
                self@,
                bus@,
                word(pc + decoded.ilen),
                (left - 1) as nat,
            ).ops;
            match compile_op(decoded.raw, decoded.ilen, pc) {
                Compiled::Continue(op) => {
                    proof {
                        assert(ops@ + (seq![op] + rest) =~= ops@.push(op) + rest);
                    }
                    ops.push(op);
                    pc = pc.wrapping_add(decoded.ilen);
                },
                Compiled::Terminate(op) => {
                    proof {
                        assert(ops@ + seq![op] =~= ops@.push(op));
                    }
                    ops.push(op);
                    return Block::new(ops, pc.wrapping_add(decoded.ilen));
                },
                Compiled::Unsupported => {
                    proof {
                        assert(goal.ops =~= ops@);
                    }
                    return Block::new(ops, pc);
                },
            }
            left = left - 1;
        }
        proof {
            assert(goal.ops =~= ops@);
        }
        Block::new(ops, pc)
    }

    /// Fetch and decode the instruction at `pc` without executing or trapping. `None` on a
    /// fetch fault or an illegal compressed encoding: the compiler ends the block there, and
    /// the interpreter fetches again and traps. Side-effect-free: nothing is taken off a device.
    fn fetch_for_compile(&self, pc: u64, bus: &Bus) -> (r: Option<Decoded>)
        requires
            bus.wf(),
        ensures
            r == fetched(self@, bus@, pc),
    {
        proof {
            reveal(fetched);
        }
        let pa: u64 = match self.locate(pc, Access::Fetch, bus) {
            Some(pa) => pa,
            None => {
                return None;
            },
        };
        let half: u16 = match bus.peek_u16(pa) {
            Ok(half) => half,
            Err(_) => {
                return None;
            },
        };
        if is_compressed(half) {
            match expand(half) {
                Some(raw) => Some(Decoded { raw, ilen: ILEN_COMPRESSED }),
                None => None,
            }
        } else {
            match bus.peek_u32(pa) {
                Ok(raw) => Some(Decoded { raw, ilen: ILEN_FULL }),
                Err(_) => None,
            }
        }
    }

    /// Fetch, decode, and execute one instruction (16- or 32-bit), or one compiled block,
    /// against `bus`. Returns any cross-hart work for the driver to service.
    pub fn step(&mut self, bus: &mut Bus) -> (r: Result<HartEffect, StepError>)
        requires
            old(self).wf(),
            old(bus).wf(),
        ensures
            final(self).wf(),
            final(bus).wf(),
            (final(self)@, final(bus)@, r) == crate::model::step(old(self)@, old(bus)@),
    {
        proof {
            reveal(crate::model::step);
            reveal(HartModel::pending);
        }
        match self.pending_interrupt() {
            Some(cause) => {
                // Delivered before fetching: `sepc` then points at the un-run instruction,
                // so `sret` resumes exactly there. A parked hart wakes for it.
                if self.state == HartState::Idle {
                    self.state = HartState::Running;
                }
                self.take_interrupt(cause);
                Ok(HartEffect::Retired)
            },
            None => {
                // A parked (wfi) hart stays parked, retiring nothing.
                if self.state == HartState::Idle {
                    return Ok(HartEffect::Idle);
                }
                self.run_next(bus)
            },
        }
    }

    /// Take interrupt `cause`, counting the timer's.
    fn take_interrupt(&mut self, cause: u64)
        requires
            old(self).wf(),
        ensures
            final(self).wf(),
            final(self)@ == interrupted(old(self)@, cause),
    {
        proof {
            reveal(interrupted);
        }
        if cause == cause::SUPERVISOR_TIMER {
            self.timer_fires = self.timer_fires.wrapping_add(1);
        }
        self.take_trap(cause, 0);
    }

    /// Run a compiled hot block in one shot, or else interpret one instruction. Interrupts
    /// were checked before.
    fn run_next(&mut self, bus: &mut Bus) -> (r: Result<HartEffect, StepError>)
        requires
            old(self).wf(),
            old(bus).wf(),
        ensures
            final(self).wf(),
            final(bus).wf(),
            (final(self)@, final(bus)@, r) == run_next(old(self)@, old(bus)@),
    {
        proof {
            reveal(run_next);
        }
        if self.block_cache.is_some() {
            match self.try_run_block(bus) {
                Err(e) => {
                    return Err(e);
                },
                Ok(Some(n)) => {
                    self.instret = self.instret.wrapping_add(n);
                    return Ok(HartEffect::Block(n));
                },
                Ok(None) => {},
            }
        }
        self.interpret(bus)
    }

    /// Interpret one instruction. A decode-cache hit skips the whole fetch pipeline and
    /// goes straight to dispatch.
    fn interpret(&mut self, bus: &mut Bus) -> (r: Result<HartEffect, StepError>)
        requires
            old(self).wf(),
            old(bus).wf(),
        ensures
            final(self).wf(),
            final(bus).wf(),
            (final(self)@, final(bus)@, r) == interpret(old(self)@, old(bus)@),
    {
        proof {
            reveal(interpret);
        }
        let satp: u64 = self.satp();
        let pc: u64 = self.pc;
        let hit: Option<Decoded> = match &mut self.decode_cache {
            Some(cache) => cache.get(satp, pc),
            None => None,
        };
        match hit {
            Some(decoded) => {
                self.cur_ilen = decoded.ilen;
                self.retire(decoded.raw, bus)
            },
            None => self.fetch_and_retire(bus),
        }
    }

    /// The full fetch pipeline, then cache the result and execute it.
    fn fetch_and_retire(&mut self, bus: &mut Bus) -> (r: Result<HartEffect, StepError>)
        requires
            old(self).wf(),
            old(bus).wf(),
        ensures
            final(self).wf(),
            final(bus).wf(),
            (final(self)@, final(bus)@, r) == fetch_and_retire(old(self)@, old(bus)@),
    {
        proof {
            reveal(fetch_and_retire);
        }
        let pc: u64 = self.pc;
        let pa: u64 = match self.translate_or_trap(pc, Access::Fetch, bus) {
            Some(pa) => pa,
            None => {
                return Ok(HartEffect::Retired);
            },
        };
        let half: u16 = match bus.read_u16(pa) {
            Ok(half) => half,
            Err(e) => {
                return Err(StepError::Bus(e));
            },
        };
        let raw: u32 = if is_compressed(half) {
            self.cur_ilen = ILEN_COMPRESSED;
            match expand(half) {
                Some(raw) => raw,
                None => {
                    return Err(self.unimplemented(half as u32));
                },
            }
        } else {
            self.cur_ilen = ILEN_FULL;
            match bus.read_u32(pa) {
                Ok(raw) => raw,
                Err(e) => {
                    return Err(StepError::Bus(e));
                },
            }
        };
        let ilen: u64 = self.cur_ilen;
        match &mut self.decode_cache {
            Some(cache) => {
                cache.insert(pc, Decoded { raw, ilen });
            },
            None => {},
        }
        self.retire(raw, bus)
    }

    /// Execute `raw` and count it; a captured SBI call goes to the driver.
    fn retire(&mut self, raw: u32, bus: &mut Bus) -> (r: Result<HartEffect, StepError>)
        requires
            old(self).wf(),
            old(bus).wf(),
        ensures
            final(self).wf(),
            final(bus).wf(),
            (final(self)@, final(bus)@, r) == retire(old(self)@, old(bus)@, raw),
    {
        proof {
            reveal(retire);
        }
        match self.execute(raw, bus) {
            Ok(()) => {},
            Err(e) => {
                return Err(e);
            },
        }
        self.instret = self.instret.wrapping_add(1);
        let request: Option<SbiRequest> = self.pending_sbi;
        self.pending_sbi = None;
        match request {
            Some(req) => Ok(HartEffect::Sbi(req)),
            None => Ok(HartEffect::Retired),
        }
    }

    /// Native-op helper: if `pc` is the entry of `memset` or `memcpy`, execute the whole op
    /// against guest RAM in one shot and return the instructions the interpreted loop would
    /// have retired. `None` declines (not a routine's entry, or a page it would fault on:
    /// the interpreter runs it and traps). `memset(a0=dst, a1=val, a2=len)`,
    /// `memcpy(a0=dst, a1=src, a2=len)`, both returning `dst` in `a0`, `ra` = return.
    pub fn try_native_memop(
        &mut self,
        bus: &mut Bus,
        memset_pc: Option<u64>,
        memcpy_pc: Option<u64>,
    ) -> (r: Option<u64>)
        requires
            old(self).wf(),
            old(bus).wf(),
        ensures
            final(self).wf(),
            final(bus).wf(),
            (final(self)@, final(bus)@, r) == native_memop(
                old(self)@,
                old(bus)@,
                memset_pc,
                memcpy_pc,
            ),
    {
        proof {
            reveal(native_memop);
        }
        let pc: u64 = self.pc;
        let is_set: bool = memset_pc == Some(pc);
        if !is_set && memcpy_pc != Some(pc) {
            return None;
        }
        let dst: u64 = self.x[10];
        let src: u64 = self.x[11];
        let len: u64 = self.x[12];
        // Every piece is translated up front, so a fault aborts before any write.
        let chunks: Vec<Chunk> = match self.plan_memop(bus, is_set, dst, src, len) {
            Some(chunks) => chunks,
            None => {
                return None;
            },
        };
        if !run_memop(bus, is_set, (src % 0x100) as u8, &chunks) {
            return None;
        }
        self.set_reg(10, dst);
        let ra: u64 = self.x[1];
        self.set_pc(ra);
        proof {
            assert(old(self)@.x.update(10, dst) =~= old(self)@.x);
        }
        Some(memop_charge(len))
    }

    /// The piece of a native memory op at offset `off`.
    fn plan_chunk(&self, bus: &Bus, is_set: bool, dst: u64, src: u64, len: u64, off: u64) -> (r:
        Option<Chunk>)
        requires
            off < len,
        ensures
            r == chunk_at(self@, bus@, is_set, dst, src, len, off),
            r is Some ==> 0 < (r->0).len <= 0x1000 && off + (r->0).len <= len,
    {
        proof {
            reveal(chunk_at);
            reveal(chunk_len);
        }
        let dva: u64 = dst.wrapping_add(off);
        let sva: u64 = src.wrapping_add(off);
        let mut clen: u64 = 0x1000 - dva % 0x1000;
        if len - off < clen {
            clen = len - off;
        }
        if !is_set && 0x1000 - sva % 0x1000 < clen {
            clen = 0x1000 - sva % 0x1000;
        }
        let d: u64 = match self.locate(dva, Access::Store, bus) {
            Some(pa) => pa,
            None => {
                return None;
            },
        };
        let s: u64 = if is_set {
            0
        } else {
            match self.locate(sva, Access::Load, bus) {
                Some(pa) => pa,
                None => {
                    return None;
                },
            }
        };
        Some(Chunk { dst: d, src: s, len: clen })
    }

    /// Cut a native memory op into pieces that stay within one page of the destination and
    /// one of the source, and translate each.
    fn plan_memop(&self, bus: &Bus, is_set: bool, dst: u64, src: u64, len: u64) -> (r: Option<
        Vec<Chunk>,
    >)
        ensures
            match memop_plan(self@, bus@, is_set, dst, src, len, 0) {
                Some(chunks) => r is Some && r->0@ == chunks,
                None => r is None,
            },
            r is Some ==> page_bounded(r->0@),
    {
        let mut chunks: Vec<Chunk> = Vec::new();
        let mut off: u64 = 0;
        let ghost goal = memop_plan(self@, bus@, is_set, dst, src, len, 0);
        proof {
            if goal is Some {
                assert(chunks@ + goal->0 =~= goal->0);
            }
        }
        while off < len
            invariant
                off <= len,
                page_bounded(chunks@),
                goal == memop_plan(self@, bus@, is_set, dst, src, len, 0),
                goal is Some <==> memop_plan(self@, bus@, is_set, dst, src, len, off) is Some,
                goal is Some ==> goal->0 == chunks@ + memop_plan(
                    self@,
                    bus@,
                    is_set,
                    dst,
                    src,
                    len,
                    off,
                )->0,
            decreases len - off,
        {
            let chunk: Chunk = match self.plan_chunk(bus, is_set, dst, src, len, off) {
                Some(chunk) => chunk,
                None => {
                    return None;
                },
            };
            proof {
                let rest = memop_plan(
                    self@,
                    bus@,
                    is_set,
                    dst,
                    src,
                    len,
                    (off + chunk.len) as u64,
                );
                if rest is Some {
                    assert(chunks@ + (seq![chunk] + rest->0) =~= chunks@.push(chunk) + rest->0);
                }
            }
            off = off + chunk.len;
            chunks.push(chunk);
        }
        proof {
            assert(goal->0 =~= chunks@);
        }
        Some(chunks)
    }
}

/// Whether no piece is longer than a page.
pub open spec fn page_bounded(chunks: Seq<Chunk>) -> bool {
    forall|i: int| 0 <= i < chunks.len() ==> (#[trigger] chunks[i]).len <= 0x1000
}

/// Carry out the pieces of a native memory op: whether all of it was mapped RAM.
fn run_memop(bus: &mut Bus, is_set: bool, value: u8, chunks: &Vec<Chunk>) -> (r: bool)
    requires
        old(bus).wf(),
        page_bounded(chunks@),
    ensures
        final(bus).wf(),
        (final(bus)@, r) == memop_run(old(bus)@, is_set, value, chunks@, 0),
{
    let mut i: usize = 0;
    let ghost goal = memop_run(bus@, is_set, value, chunks@, 0);
    while i < chunks.len()
        invariant
            i <= chunks@.len(),
            page_bounded(chunks@),
            bus.wf(),
            goal == memop_run(old(bus)@, is_set, value, chunks@, 0),
            goal == memop_run(bus@, is_set, value, chunks@, i as int),
        decreases chunks@.len() - i,
    {
        let c: &Chunk = &chunks[i];
        proof {
            assert(chunks@[i as int].len <= 0x1000);
        }
        let data: Vec<u8> = if is_set {
            fill(value, c.len)
        } else {
            match bus.ram().fetch(c.src, c.len as usize) {
                Some(data) => data,
                None => {
                    return false;
                },
            }
        };
        match bus.write_ram(c.dst, data.as_slice()) {
            Ok(()) => {},
            Err(_) => {
                return false;
            },
        }
        i += 1;
    }
    true
}

/// `len` bytes of `value`.
fn fill(value: u8, len: u64) -> (r: Vec<u8>)
    requires
        len <= usize::MAX,
    ensures
        r@ == Seq::new(len as nat, |i: int| value),
{
    let r: Vec<u8> = vec![value; len as usize];
    proof {
        assert(r@ =~= Seq::new(len as nat, |i: int| value));
    }
    r
}

/// Compiling a block reads neither cache.
proof fn lemma_block_at_ignores_caches(
    h: HartModel,
    blocks: Option<BlockCacheState>,
    b: BusState,
    pc: u64,
    most: nat,
)
    ensures
        block_at(HartModel { blocks, ..h }, b, pc, most) == block_at(h, b, pc, most),
    decreases most,
{
    let h2 = HartModel { blocks, ..h };
    reveal(fetched);
    if most > 0 {
        match fetched(h, b, pc) {
            Some(d) => {
                lemma_block_at_ignores_caches(
                    h,
                    blocks,
                    b,
                    word(pc + d.ilen),
                    (most - 1) as nat,
                );
            },
            None => {},
        }
    }
}

/// A parked hart, started.
pub open spec fn started(h: HartModel, pc: u64, hartid: u64, opaque: u64) -> HartModel {
    HartModel {
        run: HartState::Running,
        ..h.with_pc(pc).with_reg(10, hartid).with_reg(11, opaque)
    }
}

// SBI firmware calls, serviced against the whole hart set.

/// The states of a set of harts.
pub open spec fn states(harts: Seq<Hart>) -> Seq<HartModel> {
    Seq::new(harts.len(), |i: int| harts[i]@)
}

/// Whether every hart of a set is well-formed.
pub open spec fn all_wf(harts: Seq<Hart>) -> bool {
    forall|i: int| 0 <= i < harts.len() ==> (#[trigger] harts[i]).wf()
}

/// Whether bit `id - base` of `mask` is set: hart `id` is targeted.
pub open spec fn targeted(mask: u64, base: u64, id: int) -> bool {
    base <= id < base + 64 && (mask >> ((id - base) as u64)) & 1 != 0
}

/// A hart with its software interrupt pending.
pub open spec fn poked(h: HartModel) -> HartModel {
    h.put(addr::SIP, h.get(addr::SIP) | SIP_SSIP)
}

/// The harts after a call from hart `caller`: `send_ipi` pokes the targeted harts,
/// `hart_start` wakes a hart that is not running, anything else is not supported. The
/// caller's `a0` holds the error and its `a1` is 0.
#[verifier::opaque]
pub open spec fn serviced(harts: Seq<HartModel>, caller: int, req: SbiRequest) -> Seq<HartModel> {
    let (after, error) = if req.eid == sbi::EID_IPI && req.fid == sbi::FID_SEND_IPI {
        (
            Seq::new(
                harts.len(),
                |i: int|
                    if targeted(req.arg0, req.arg1, i) {
                        poked(harts[i])
                    } else {
                        harts[i]
                    },
            ),
            sbi::SUCCESS,
        )
    } else if req.eid == sbi::EID_HSM && req.fid == sbi::FID_HART_START {
        if req.arg0 >= harts.len() {
            (harts, sbi::ERR_INVALID_PARAM)
        } else if harts[req.arg0 as int].run == HartState::Running {
            (harts, sbi::ERR_ALREADY_AVAILABLE)
        } else {
            (
                harts.update(
                    req.arg0 as int,
                    started(harts[req.arg0 as int], req.arg1, req.arg0, req.arg2),
                ),
                sbi::SUCCESS,
            )
        }
    } else {
        (harts, sbi::ERR_NOT_SUPPORTED)
    };
    after.update(caller, after[caller].with_reg(10, error).with_reg(11, 0))
}

/// Service an SBI request from hart `caller` against the whole hart set. The result
/// (`a0` = error, `a1` = value) is written back into the caller.
pub fn service_sbi(harts: &mut Vec<Hart>, caller: usize, req: &SbiRequest)
    requires
        caller < old(harts)@.len(),
        all_wf(old(harts)@),
    ensures
        all_wf(final(harts)@),
        states(final(harts)@) == serviced(states(old(harts)@), caller as int, *req),
        final(harts)@.len() == old(harts)@.len(),
{
    proof {
        reveal(serviced);
    }
    let error: u64 = if req.eid == sbi::EID_IPI && req.fid == sbi::FID_SEND_IPI {
        send_ipi(harts, req.arg0, req.arg1);
        sbi::SUCCESS
    } else if req.eid == sbi::EID_HSM && req.fid == sbi::FID_HART_START {
        hart_start(harts, req.arg0, req.arg1, req.arg2)
    } else {
        sbi::ERR_NOT_SUPPORTED
    };
    let ghost mid = harts@;
    harts[caller].set_reg(10, error);
    harts[caller].set_reg(11, 0);
    proof {
        assert(states(harts@) =~= states(mid).update(
            caller as int,
            states(mid)[caller as int].with_reg(10, error).with_reg(11, 0),
        ));
        assert forall|i: int| 0 <= i < harts@.len() implies (#[trigger] harts@[i]).wf() by {
            if i != caller {
                assert(harts@[i] == mid[i]);
            }
        }
    }
}

/// Raise `sip.SSIP` on every hart the mask selects: bit `k` of `hart_mask` targets hart
/// `hart_mask_base + k`.
pub fn send_ipi(harts: &mut Vec<Hart>, hart_mask: u64, hart_mask_base: u64)
    requires
        all_wf(old(harts)@),
    ensures
        all_wf(final(harts)@),
        final(harts)@.len() == old(harts)@.len(),
        states(final(harts)@) == Seq::new(
            old(harts)@.len(),
            |i: int|
                if targeted(hart_mask, hart_mask_base, i) {
                    poked(states(old(harts)@)[i])
                } else {
                    states(old(harts)@)[i]
                },
        ),
{
    let mut i: usize = 0;
    let ghost before = harts@;
    while i < harts.len()
        invariant
            i <= harts@.len(),
            harts@.len() == before.len(),
            all_wf(before),
            all_wf(harts@),
            forall|j: int|
                0 <= j < i ==> (#[trigger] harts@[j])@ == if targeted(
                    hart_mask,
                    hart_mask_base,
                    j,
                ) {
                    poked(before[j]@)
                } else {
                    before[j]@
                },
            forall|j: int| i <= j < harts@.len() ==> harts@[j] == before[j],
        decreases harts@.len() - i,
    {
        let id: u64 = i as u64;
        if id >= hart_mask_base && id - hart_mask_base < 64 && (hart_mask >> (id - hart_mask_base))
            & 1 != 0 {
            let ghost mid = harts@;
            harts[i].raise_software_interrupt();
            proof {
                assert forall|j: int| 0 <= j < harts@.len() implies (#[trigger] harts@[j]).wf() by {
                    if j != i {
                        assert(harts@[j] == mid[j]);
                    }
                }
            }
        }
        i += 1;
    }
    proof {
        assert(states(harts@) =~= Seq::new(
            before.len(),
            |i: int|
                if targeted(hart_mask, hart_mask_base, i) {
                    poked(states(before)[i])
                } else {
                    states(before)[i]
                },
        ));
    }
}

/// Wake the target hart at `start_addr` with `a0 = hartid`, `a1 = opaque`. Errors if the
/// hart id is unknown or already running.
fn hart_start(harts: &mut Vec<Hart>, hartid: u64, start_addr: u64, opaque: u64) -> (error: u64)
    requires
        all_wf(old(harts)@),
    ensures
        all_wf(final(harts)@),
        final(harts)@.len() == old(harts)@.len(),
        (states(final(harts)@), error) == if hartid >= old(harts)@.len() {
            (states(old(harts)@), sbi::ERR_INVALID_PARAM)
        } else if old(harts)@[hartid as int]@.run == HartState::Running {
            (states(old(harts)@), sbi::ERR_ALREADY_AVAILABLE)
        } else {
            (
                states(old(harts)@).update(
                    hartid as int,
                    started(states(old(harts)@)[hartid as int], start_addr, hartid, opaque),
                ),
                sbi::SUCCESS,
            )
        },
{
    if hartid >= harts.len() as u64 {
        return sbi::ERR_INVALID_PARAM;
    }
    let i: usize = hartid as usize;
    if harts[i].is_running() {
        return sbi::ERR_ALREADY_AVAILABLE;
    }
    let ghost before = harts@;
    harts[i].start(start_addr, hartid, opaque);
    proof {
        assert(states(harts@) =~= states(before).update(
            i as int,
            started(states(before)[i as int], start_addr, hartid, opaque),
        ));
        assert forall|j: int| 0 <= j < harts@.len() implies (#[trigger] harts@[j]).wf() by {
            if j != i {
                assert(harts@[j] == before[j]);
            }
        }
    }
    sbi::SUCCESS
}

/// A single-hart machine: one [`Hart`] plus the [`Bus`] it owns.
pub struct Cpu {
    pub hart: Hart,
    pub bus: Bus,
}

/// A lone hart and its bus after a step: the clock is its own retired count, an SBI call
/// is serviced against the hart itself, and a parked hart's clock jumps to its deadline.
pub open spec fn cpu_step(h: HartModel, b: BusState) -> (
    HartModel,
    BusState,
    Result<(), StepError>,
) {
    let (h1, b1, r) = crate::model::step(HartModel { cycle: h.instret, ..h }, b);
    match r {
        Err(e) => (h1, b1, Err(e)),
        Ok(HartEffect::Sbi(req)) => (serviced(seq![h1], 0, req)[0], b1, Ok(())),
        Ok(HartEffect::Idle) => (
            match h1.deadline() {
                Some(t) if t > h1.instret => HartModel { instret: t, ..h1 },
                _ => h1,
            },
            b1,
            Ok(()),
        ),
        Ok(_) => (h1, b1, Ok(())),
    }
}

impl Cpu {
    pub open spec fn wf(self) -> bool {
        self.hart.wf() && self.bus.wf()
    }

    /// A fresh single-hart machine over `mem`, positioned at the RAM base.
    #[must_use]
    pub fn new(mem: Memory) -> (r: Self)
        requires
            mem@.covered(),
        ensures
            r.wf(),
            r.hart@ == HartModel::reset(),
            r.bus@ == crate::bus::fresh(mem@),
    {
        Self { hart: Hart::new(), bus: Bus::new(mem) }
    }

    /// Fetch/decode/execute one instruction against this machine's bus. The single hart's
    /// clock is just its own retired count; an SBI call is serviced against the lone hart.
    pub fn step(&mut self) -> (r: Result<(), StepError>)
        requires
            old(self).wf(),
        ensures
            final(self).wf(),
            (final(self).hart@, final(self).bus@, r) == cpu_step(old(self).hart@, old(self).bus@),
    {
        let now: u64 = self.hart.instret;
        self.hart.set_cycle(now);
        match self.hart.step(&mut self.bus) {
            Err(e) => Err(e),
            Ok(HartEffect::Sbi(req)) => {
                let mut taken: Hart = Hart::new();
                core::mem::swap(&mut self.hart, &mut taken);
                let ghost h1 = taken@;
                let mut harts: Vec<Hart> = Vec::new();
                harts.push(taken);
                proof {
                    assert(states(harts@) =~= seq![h1]);
                }
                service_sbi(&mut harts, 0, &req);
                proof {
                    assert(states(harts@)[0] == harts@[0]@);
                    assert(harts@[0].wf());
                }
                match harts.pop() {
                    Some(served) => {
                        self.hart = served;
                    },
                    None => {},
                }
                Ok(())
            },
            Ok(HartEffect::Idle) => {
                // The lone hart parked on wfi: jump its clock to the timer deadline, so
                // that the next step delivers the interrupt.
                match self.hart.wake_deadline() {
                    Some(deadline) => {
                        if deadline > self.hart.instret {
                            self.hart.instret = deadline;
                        }
                    },
                    None => {},
                }
                Ok(())
            },
            Ok(HartEffect::Retired) => Ok(()),
            Ok(HartEffect::Block(_)) => Ok(()),
        }
    }

    #[must_use]
    pub fn privilege(&self) -> (r: Privilege)
        ensures
            r == self.hart@.privilege,
    {
        self.hart.privilege
    }

    #[must_use]
    pub fn uart_output(&self) -> (r: &[u8])
        ensures
            r@ == self.bus@.uart.output,
    {
        self.bus.uart_output()
    }

    /// Bytes the virtio-console has transmitted (the telemetry stream).
    #[must_use]
    pub fn virtio_tx_output(&self) -> (r: &[u8])
        ensures
            r@ == self.bus@.virtio.output,
    {
        self.bus.virtio_tx_output()
    }

    /// The current `satp` value (for diagnostics).
    #[must_use]
    pub fn satp(&self) -> (r: u64)
        ensures
            r == self.hart@.get(addr::SATP),
    {
        self.hart.satp()
    }

    #[must_use]
    pub fn reg(&self, i: usize) -> (r: u64)
        requires
            i < 32,
        ensures
            r == self.hart@.x[i as int],
    {
        self.hart.reg(i)
    }

    pub fn set_reg(&mut self, i: usize, value: u64)
        requires
            i < 32,
            old(self).wf(),
        ensures
            final(self).wf(),
            final(self).hart@ == old(self).hart@.with_reg(i as int, value),
            final(self).bus == old(self).bus,
    {
        self.hart.set_reg(i, value);
    }

    #[must_use]
    pub fn pc(&self) -> (r: u64)
        ensures
            r == self.hart@.pc,
    {
        self.hart.pc
    }

    pub fn set_pc(&mut self, addr: u64)
        requires
            old(self).wf(),
        ensures
            final(self).wf(),
            final(self).hart@ == old(self).hart@.with_pc(addr),
            final(self).bus == old(self).bus,
    {
        self.hart.set_pc(addr);
    }

    #[must_use]
    pub fn instret(&self) -> (r: u64)
        ensures
            r == self.hart@.instret,
    {
        self.hart.instret
    }

    /// Enable or disable this hart's decode cache.
    pub fn set_decode_cache(&mut self, on: bool)
        requires
            old(self).wf(),
        ensures
            final(self).wf(),
            final(self).hart@ == (HartModel {
                decode: if on {
                    Some(DecodeState::cold())
                } else {
                    None
                },
                ..old(self).hart@
            }),
            final(self).bus == old(self).bus,
    {
        self.hart.set_decode_cache(on);
    }

    /// Enable/disable the block JIT on the lone hart.
    pub fn set_block_jit(&mut self, on: bool)
        requires
            old(self).wf(),
        ensures
            final(self).wf(),
            final(self).hart@ == (HartModel {
                blocks: if on {
                    Some(BlockCacheState::cold())
                } else {
                    None
                },
                ..old(self).hart@
            }),
            final(self).bus == old(self).bus,
    {
        self.hart.set_block_jit(on);
    }

    /// Select the native backend for the block JIT on the lone hart. Off by default.
    pub fn set_native_jit(&mut self, on: bool)
        requires
            old(self).wf(),
        ensures
            final(self).wf(),
            final(self).hart@ == (HartModel { native_jit: on, ..old(self).hart@ }),
            final(self).bus == old(self).bus,
    {
        self.hart.set_native_jit(on);
    }

    /// Enable/disable block-executor register caching on the lone hart.
    pub fn set_register_cache(&mut self, on: bool)
        requires
            old(self).wf(),
        ensures
            final(self).wf(),
            final(self).hart@ == (HartModel { reg_cache: on, ..old(self).hart@ }),
            final(self).bus == old(self).bus,
    {
        self.hart.set_register_cache(on);
    }

    /// Enable or disable `wfi` idle-skip (on by default). Off restores the bare nop.
    pub fn set_idle_skip(&mut self, on: bool)
        requires
            old(self).wf(),
        ensures
            final(self).wf(),
            final(self).hart@ == (HartModel { idle_skip: on, ..old(self).hart@ }),
            final(self).bus == old(self).bus,
    {
        self.hart.set_idle_skip(on);
    }

    /// Decode-cache hits so far (0 when the cache is disabled).
    #[must_use]
    pub fn decode_cache_hits(&self) -> (r: u64)
        ensures
            r == match self.hart@.decode {
                Some(c) => c.hits,
                None => 0,
            },
    {
        self.hart.decode_cache_hits()
    }
}

} // verus!
