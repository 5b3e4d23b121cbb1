//! What traps, returns, interrupts and the privileged instructions do, and how a step comes by
//! the instruction it carries out.

use vstd::prelude::*;
use crate::bus::{lemma_read_shows_what_a_peek_does, BusState};
use crate::cpu::{HartEffect, HartState, Privilege, SbiRequest, StepError};
use crate::csr::csr_get;
use crate::decode::{expansion, Instr};
use crate::decode_cache::Decoded;
use crate::isa::memory::{in_ram, law_ram_is_read, number};
use crate::isa::{at, done, lemma_immediate_word, lemma_sum_wraps, register, twos, wrote};
use crate::mem::BusError;
use crate::mmu::{translation, Access};
use crate::model::{
    execute, fetch_and_retire, fetched, interpret, interrupted, load_value, retire, run_next, sem_amo,
    sem_csr, sem_load, sem_priv, sem_store, sem_system, step, store_value, BlockEntry, CsrOp,
    HartModel,
};

verus! {

/// Whether every modelled status register but `sstatus`, `sepc`, `scause` and `stval` is in `t`
/// what it is in `h`.
pub open spec fn other_registers_kept(h: HartModel, t: HartModel) -> bool {
    &&& t.csr.len() == h.csr.len()
    &&& csr_get(t.csr, 0x104) == csr_get(h.csr, 0x104)
    &&& csr_get(t.csr, 0x105) == csr_get(h.csr, 0x105)
    &&& csr_get(t.csr, 0x140) == csr_get(h.csr, 0x140)
    &&& csr_get(t.csr, 0x144) == csr_get(h.csr, 0x144)
    &&& csr_get(t.csr, 0x180) == csr_get(h.csr, 0x180)
    &&& csr_get(t.csr, 0x14d) == csr_get(h.csr, 0x14d)
}

/// Whether `t` is `h` in its trap handler: `scause` and `stval` tell why, `sepc` where, and
/// `sstatus` from which privilege and whether interrupts were enabled, which they no longer are.
/// The registers are as they were.
pub open spec fn took_trap(h: HartModel, t: HartModel, cause: u64, tval: u64) -> bool {
    let s = csr_get(h.csr, 0x100);
    let n = csr_get(t.csr, 0x100);
    &&& t == HartModel { csr: t.csr, privilege: t.privilege, pc: t.pc, ..h }
    &&& t.privilege == Privilege::Supervisor
    &&& t.pc == csr_get(h.csr, 0x105) as int / 4 * 4
    &&& csr_get(t.csr, 0x142) == cause
    &&& csr_get(t.csr, 0x143) == tval
    &&& csr_get(t.csr, 0x141) == h.pc
    &&& n & 0x2 == 0
    &&& (n & 0x20 != 0) == (s & 0x2 != 0)
    &&& (n & 0x100 != 0) == (h.privilege == Privilege::Supervisor)
    &&& n & !0x122 == s & !0x122
    &&& other_registers_kept(h, t)
}

proof fn lemma_trap_bits(s: u64, supervisor: bool)
    ensures
        ({
            let saved = crate::alu::with_bit(s, 0x20, s & 0x2 != 0);
            let masked = crate::alu::with_bit(saved, 0x2, false);
            let n = crate::alu::with_bit(masked, 0x100, supervisor);
            &&& n & 0x2 == 0
            &&& (n & 0x20 != 0) == (s & 0x2 != 0)
            &&& (n & 0x100 != 0) == supervisor
            &&& n & !0x122 == s & !0x122
        }),
{
    assert(({
        let a = if s & 0x2 != 0 { s | 0x20 } else { s & !0x20 };
        let m = a & !0x2;
        let n = if supervisor { m | 0x100 } else { m & !0x100 };
        &&& n & 0x2 == 0
        &&& (n & 0x20 != 0) == (s & 0x2 != 0)
        &&& (n & 0x100 != 0) == supervisor
        &&& n & !0x122 == s & !0x122
    })) by (bit_vector);
}

/// A trap takes the hart to its handler.
pub proof fn law_a_trap_is_taken(h: HartModel, cause: u64, tval: u64)
    requires
        h.csr.len() == 10,
    ensures
        took_trap(h, h.trapped(cause, tval), cause, tval),
{
    reveal(HartModel::trapped);
    lemma_trap_bits(csr_get(h.csr, 0x100), h.privilege == Privilege::Supervisor);
}

proof fn lemma_return_bits(s: u64)
    ensures
        ({
            let restored = crate::alu::with_bit(s, 0x2, s & 0x20 != 0);
            let n = crate::alu::with_bit(crate::alu::with_bit(restored, 0x20, true), 0x100, false);
            &&& (n & 0x2 != 0) == (s & 0x20 != 0)
            &&& n & 0x20 != 0
            &&& n & 0x100 == 0
            &&& n & !0x122 == s & !0x122
        }),
{
    assert(({
        let a = if s & 0x20 != 0 { s | 0x2 } else { s & !0x2 };
        let n = (a | 0x20) & !0x100;
        &&& (n & 0x2 != 0) == (s & 0x20 != 0)
        &&& n & 0x20 != 0
        &&& n & 0x100 == 0
        &&& n & !0x122 == s & !0x122
    })) by (bit_vector);
}

/// `sret` goes back to where `sepc` says, to the privilege and the interrupt enable that
/// `sstatus` holds of before the trap. The registers are as they were.
pub proof fn law_a_return(h: HartModel, b: BusState)
    requires
        h.csr.len() == 10,
    ensures
        ({
            let (t, b1, r) = execute(h, b, 0x1020_0073);
            let s = csr_get(h.csr, 0x100);
            let n = csr_get(t.csr, 0x100);
            &&& r is Ok && b1 == b
            &&& t == HartModel { csr: t.csr, privilege: t.privilege, pc: t.pc, ..h }
            &&& t.pc == csr_get(h.csr, 0x141)
            &&& t.privilege == if s & 0x100 != 0 {
                Privilege::Supervisor
            } else {
                Privilege::User
            }
            &&& (n & 0x2 != 0) == (s & 0x20 != 0)
            &&& n & 0x20 != 0
            &&& n & 0x100 == 0
            &&& n & !0x122 == s & !0x122
            &&& other_registers_kept(h, t)
            &&& csr_get(t.csr, 0x141) == csr_get(h.csr, 0x141)
            &&& csr_get(t.csr, 0x142) == csr_get(h.csr, 0x142)
            &&& csr_get(t.csr, 0x143) == csr_get(h.csr, 0x143)
        }),
{
    reveal(execute);
    reveal(sem_system);
    reveal(sem_priv);
    reveal(HartModel::returned);
    lemma_return_bits(csr_get(h.csr, 0x100));
}

/// `ecall` is a trap from user mode, of cause 8. From supervisor mode it asks the firmware for
/// what registers 16 and 17 name, of registers 10 to 12, and goes on.
pub proof fn law_environment_calls(h: HartModel, b: BusState)
    requires
        h.csr.len() == 10,
    ensures
        ({
            let (t, b1, r) = execute(h, b, 0x0000_0073);
            &&& r is Ok && b1 == b
            &&& h.privilege == Privilege::User ==> took_trap(h, t, 8, 0)
            &&& h.privilege == Privilege::Supervisor ==> t == at(
                HartModel {
                    pending_sbi: Some(
                        SbiRequest {
                            eid: h.x[17],
                            fid: h.x[16],
                            arg0: h.x[10],
                            arg1: h.x[11],
                            arg2: h.x[12],
                        },
                    ),
                    ..h
                },
                h.pc + h.ilen,
            )
        }),
{
    reveal(execute);
    reveal(sem_system);
    reveal(sem_priv);
    law_a_trap_is_taken(h, 8, 0);
}

/// `ebreak` is a trap of cause 3 at its own address.
pub proof fn law_breakpoints(h: HartModel, b: BusState)
    requires
        h.csr.len() == 10,
    ensures
        ({
            let (t, b1, r) = execute(h, b, 0x0010_0073);
            r is Ok && b1 == b && took_trap(h, t, 3, h.pc)
        }),
{
    reveal(execute);
    reveal(sem_system);
    reveal(sem_priv);
    law_a_trap_is_taken(h, 3, h.pc);
}

/// `wfi` parks the hart until an interrupt is pending, if it may; `sfence.vma` forgets
/// translated code. Both go on to the next instruction.
pub proof fn law_waiting_and_fencing(h: HartModel, b: BusState, raw: u32)
    ensures
        execute(h, b, 0x1050_0073) == done(
            HartModel {
                run: if h.idle_skip && h.pending() is None {
                    HartState::Idle
                } else {
                    h.run
                },
                ..at(h, h.pc + h.ilen)
            },
            b,
        ),
        raw % 0x80 == 0x73 && raw as int / 0x1000 % 8 == 0 && raw / 0x200_0000 == 9 ==> execute(
            h,
            b,
            raw,
        ) == done(
            HartModel {
                decode: match h.decode {
                    Some(c) => Some(
                        crate::decode_cache::DecodeState { entries: Map::empty(), ..c },
                    ),
                    None => None,
                },
                blocks: match h.blocks {
                    Some(c) => Some(
                        crate::model::BlockCacheState { entries: Map::empty(), ..c },
                    ),
                    None => None,
                },
                ..at(h, h.pc + h.ilen)
            },
            b,
        ),
{
    reveal(execute);
    reveal(sem_system);
    reveal(sem_priv);
    reveal(HartModel::pending);
    let raw = 0x1050_0073u32;
    assert(Instr(raw).funct7() == 8 && Instr(raw).funct12() == 0x105);
    assert(h.advanced().pending() == h.pending());
}

/// Where an access goes is decided by `satp`, the privilege, and the bit of `sstatus` that opens
/// user memory to the supervisor.
pub proof fn law_accesses_are_translated(h: HartModel, b: BusState, va: u64, access: Access)
    ensures
        h.translate(b, va, access) == translation(
            csr_get(h.csr, 0x180),
            va,
            access,
            b.ram,
            h.privilege == Privilege::User,
            csr_get(h.csr, 0x100) & 0x4_0000 != 0,
        ),
{
}

/// An access to an address that is not mapped for it is a trap that names the address: of cause
/// 13 for a load, 15 for a store or an atomic instruction. Memory is as it was.
pub proof fn law_page_faults(h: HartModel, b: BusState, raw: u32)
    requires
        h.csr.len() == 10,
    ensures
        ({
            let (t, b1, r) = execute(h, b, raw);
            let base = h.x[register(raw, 0x8000)];
            let loaded = ((base + twos(raw as int / 0x10_0000, 0x1000))
                % 0x1_0000_0000_0000_0000) as u64;
            let stored = ((base + twos(
                raw as int / 0x200_0000 * 0x20 + raw as int / 0x80 % 0x20,
                0x1000,
            )) % 0x1_0000_0000_0000_0000) as u64;
            &&& raw % 0x80 == 0x03 && h.translate(b, loaded, Access::Load) is None ==> r is Ok
                && b1 == b && took_trap(h, t, 13, loaded)
            &&& raw % 0x80 == 0x23 && h.translate(b, stored, Access::Store) is None ==> r is Ok
                && b1 == b && took_trap(h, t, 15, stored)
            &&& raw % 0x80 == 0x2f && h.translate(b, base, Access::Store) is None ==> r is Ok && b1
                == b && took_trap(h, t, 15, base)
        }),
{
    reveal(execute);
    reveal(sem_load);
    reveal(sem_store);
    reveal(sem_amo);
    reveal(load_value);
    reveal(store_value);
    let base = h.x[register(raw, 0x8000)];
    let load_offset = twos(raw as int / 0x10_0000, 0x1000);
    let store_offset = twos(raw as int / 0x200_0000 * 0x20 + raw as int / 0x80 % 0x20, 0x1000);
    lemma_immediate_word(raw);
    crate::isa::memory::lemma_store_offset(raw);
    lemma_sum_wraps(base as int, Instr(raw).i_imm() as int, load_offset);
    lemma_sum_wraps(base as int, Instr(raw).s_imm() as int, store_offset);
    law_a_trap_is_taken(h, 13, ((base + load_offset) % 0x1_0000_0000_0000_0000) as u64);
    law_a_trap_is_taken(h, 15, ((base + store_offset) % 0x1_0000_0000_0000_0000) as u64);
    law_a_trap_is_taken(h, 15, base);
}

// Status registers.

/// The status registers there are.
pub open spec fn modelled(a: int) -> bool {
    a == 0x100 || a == 0x104 || a == 0x105 || a == 0x140 || a == 0x141 || a == 0x142 || a == 0x143
        || a == 0x144 || a == 0x180 || a == 0x14d
}

/// The instructions `csrrw`, `csrrs`, `csrrc` and their immediate forms put the old value of a
/// status register in rd, and write the source to it, set the bits of the source in it, or clear
/// them. Setting and clearing nothing writes nothing. The source is a register, or the five bits
/// that would name one. No other status register changes, nor does any register but rd.
pub proof fn law_status_registers(h: HartModel, b: BusState, raw: u32, other: u16)
    requires
        raw % 0x80 == 0x73,
        raw as int / 0x1000 % 4 != 0,
        h.csr.len() == 10,
        modelled(raw as int / 0x10_0000),
        modelled(other as int),
    ensures
        ({
            let (t, b1, r) = execute(h, b, raw);
            let a = (raw as int / 0x10_0000) as u16;
            let before = csr_get(h.csr, a);
            let source = if raw as int / 0x4000 % 2 == 1 {
                register(raw, 0x8000) as u64
            } else {
                h.x[register(raw, 0x8000)]
            };
            let kind = raw as int / 0x1000 % 4;
            let cleared = HartModel {
                csr: t.csr,
                decode: t.decode,
                blocks: t.blocks,
                ..wrote(h, register(raw, 0x80), before as int)
            };
            &&& r is Ok && b1 == b
            &&& t == cleared
            &&& csr_get(t.csr, a) == if kind == 1 {
                source
            } else if kind == 2 {
                before | source
            } else {
                before & !source
            }
            &&& other != a ==> csr_get(t.csr, other) == csr_get(h.csr, other)
            &&& a != 0x180 ==> t.decode == h.decode && t.blocks == h.blocks
            &&& a == 0x180 && (kind == 1 || source != 0) ==> match t.decode {
                Some(c) => c.entries == Map::<u64, Decoded>::empty(),
                None => h.decode is None,
            } && match t.blocks {
                Some(c) => c.entries == Map::<u64, BlockEntry>::empty(),
                None => h.blocks is None,
            }
        }),
{
    let source = if raw as int / 0x4000 % 2 == 1 {
        register(raw, 0x8000) as u64
    } else {
        h.x[register(raw, 0x8000)]
    };
    let op = status_op(raw as int / 0x1000 % 4);
    lemma_status_instruction(h, b, raw);
    lemma_status_register(h, Instr(raw), source, op, other);
}

spec fn status_op(kind: int) -> CsrOp {
    if kind == 1 {
        CsrOp::Write
    } else if kind == 2 {
        CsrOp::SetBits
    } else {
        CsrOp::ClearBits
    }
}

proof fn lemma_status_instruction(h: HartModel, b: BusState, raw: u32)
    requires
        raw % 0x80 == 0x73,
        raw as int / 0x1000 % 4 != 0,
    ensures
        ({
            let source = if raw as int / 0x4000 % 2 == 1 {
                register(raw, 0x8000) as u64
            } else {
                h.x[register(raw, 0x8000)]
            };
            let op = status_op(raw as int / 0x1000 % 4);
            execute(h, b, raw) == (
                sem_csr(h, Instr(raw), source, op).0,
                b,
                sem_csr(h, Instr(raw), source, op).1,
            )
        }),
{
    reveal(execute);
    reveal(sem_system);
    let f3 = Instr(raw).funct3() as int;
    assert(f3 % 4 == raw as int / 0x1000 % 4);
    assert(f3 / 4 == raw as int / 0x4000 % 2);
}

proof fn lemma_status_register(h: HartModel, i: Instr, source: u64, op: CsrOp, other: u16)
    requires
        h.csr.len() == 10,
        modelled(i.csr() as int),
        modelled(other as int),
    ensures
        ({
            let (t, r) = sem_csr(h, i, source, op);
            let a = i.csr();
            let before = csr_get(h.csr, a);
            &&& r is Ok
            &&& t == HartModel {
                csr: t.csr,
                decode: t.decode,
                blocks: t.blocks,
                ..wrote(h, i.rd() as int, before as int)
            }
            &&& csr_get(t.csr, a) == match op {
                CsrOp::Write => source,
                CsrOp::SetBits => before | source,
                CsrOp::ClearBits => before & !source,
            }
            &&& other != a ==> csr_get(t.csr, other) == csr_get(h.csr, other)
            &&& a != 0x180 ==> t.decode == h.decode && t.blocks == h.blocks
            &&& a == 0x180 && (op is Write || source != 0) ==> match t.decode {
                Some(c) => c.entries == Map::<u64, Decoded>::empty(),
                None => h.decode is None,
            } && match t.blocks {
                Some(c) => c.entries == Map::<u64, BlockEntry>::empty(),
                None => h.blocks is None,
            }
        }),
{
    reveal(sem_csr);
    let before = csr_get(h.csr, i.csr());
    assert(before | 0 == before && before & !0 == before) by (bit_vector);
}

/// The clock is read as the status register `0xc01`, which nothing writes; a status register
/// that there is not is an error that names it.
pub proof fn law_the_clock_and_unknown_registers(h: HartModel, b: BusState, raw: u32)
    requires
        raw % 0x80 == 0x73,
        raw as int / 0x1000 % 4 != 0,
    ensures
        raw / 0x10_0000 == 0xc01 ==> execute(h, b, raw) == done(
            wrote(h, register(raw, 0x80), h.cycle as int),
            b,
        ),
        raw / 0x10_0000 != 0xc01 && !modelled(raw as int / 0x10_0000) ==> execute(h, b, raw) == (
            h,
            b,
            Err::<(), StepError>(
                StepError::UnknownCsr { pc: h.pc, addr: (raw as int / 0x10_0000) as u16 },
            ),
        ),
{
    lemma_status_instruction(h, b, raw);
    reveal(sem_csr);
}

// Interrupts.

/// An interrupt is pending where it is raised and enabled, and interrupts are: in user mode they
/// always are. A software interrupt is raised by bit 1 of `sip`, the timer's by the clock. A
/// software interrupt comes first.
pub proof fn law_pending_interrupts(h: HartModel)
    ensures
        ({
            let enabled = h.privilege == Privilege::User || csr_get(h.csr, 0x100) & 0x2 != 0;
            let software = csr_get(h.csr, 0x144) & 0x2 != 0 && csr_get(h.csr, 0x104) & 0x2 != 0;
            let timer = h.cycle >= csr_get(h.csr, 0x14d) && csr_get(h.csr, 0x104) & 0x20 != 0;
            h.pending() == if enabled && software {
                Some(0x8000_0000_0000_0001u64)
            } else if enabled && timer {
                Some(0x8000_0000_0000_0005)
            } else {
                None
            }
        }),
{
    reveal(HartModel::pending);
}

/// A step of a hart for which an interrupt is pending is the trap of it, which wakes a parked
/// hart. Timer interrupts are counted.
pub proof fn law_interrupts_are_taken(h: HartModel, b: BusState, cause: u64)
    requires
        h.csr.len() == 10,
        h.pending() == Some(cause),
    ensures
        ({
            let (t, b1, r) = step(h, b);
            let awake = HartModel {
                run: if h.run == HartState::Idle {
                    HartState::Running
                } else {
                    h.run
                },
                timer_fires: if cause == 0x8000_0000_0000_0005 {
                    h.timer_fires.wrapping_add(1)
                } else {
                    h.timer_fires
                },
                ..h
            };
            &&& r == Ok::<HartEffect, StepError>(HartEffect::Retired)
            &&& b1 == b
            &&& took_trap(awake, t, cause, 0)
        }),
{
    reveal(step);
    reveal(interrupted);
    let awake = HartModel {
        run: if h.run == HartState::Idle {
            HartState::Running
        } else {
            h.run
        },
        timer_fires: if cause == 0x8000_0000_0000_0005 {
            h.timer_fires.wrapping_add(1)
        } else {
            h.timer_fires
        },
        ..h
    };
    law_a_trap_is_taken(awake, cause, 0);
}

// Steps.

/// An executed instruction, retired: it is counted, and a call of the firmware is handed out.
pub open spec fn retired(o: (HartModel, BusState, Result<(), StepError>)) -> (
    HartModel,
    BusState,
    Result<HartEffect, StepError>,
) {
    match o.2 {
        Err(e) => (o.0, o.1, Err(e)),
        Ok(()) => (
            HartModel {
                instret: ((o.0.instret + 1) % 0x1_0000_0000_0000_0000) as u64,
                pending_sbi: None,
                ..o.0
            },
            o.1,
            Ok(
                match o.0.pending_sbi {
                    Some(request) => HartEffect::Sbi(request),
                    None => HartEffect::Retired,
                },
            ),
        ),
    }
}

/// A step of a running hart carries out the instruction at its pc. Four bytes that end in the
/// digits 11 are one; otherwise two bytes are a short form of one, and the next comes after two
/// bytes. An address that is not mapped for fetching is a trap of cause 12.
pub proof fn law_a_step_carries_out_the_instruction_at_the_pc(h: HartModel, b: BusState)
    requires
        h.csr.len() == 10,
        h.run == HartState::Running,
        h.pending() is None,
        h.blocks is None,
        h.decode is None,
    ensures
        match h.translate(b, h.pc, Access::Fetch) {
            None => {
                let (t, b1, r) = step(h, b);
                &&& r == Ok::<HartEffect, StepError>(HartEffect::Retired)
                &&& b1 == b
                &&& took_trap(h, t, 12, h.pc)
            },
            Some(pa) => {
                let half = number(b.ram.bytes, pa - 0x8000_0000, 2);
                let full = number(b.ram.bytes, pa - 0x8000_0000, 4);
                &&& in_ram(b, pa, 4) && half % 4 == 3 ==> step(h, b) == retired(
                    execute(HartModel { ilen: 4, ..h }, b, full as u32),
                )
                &&& in_ram(b, pa, 2) && half % 4 != 3 ==> match expansion(half as u16) {
                    Some(raw) => step(h, b) == retired(
                        execute(HartModel { ilen: 2, ..h }, b, raw),
                    ),
                    None => step(h, b) == (
                        HartModel { ilen: 2, ..h },
                        b,
                        Err::<HartEffect, StepError>(
                            StepError::Unimplemented { pc: h.pc, instr: half as u32 },
                        ),
                    ),
                }
                &&& 0x8000_0000 <= pa && pa - 0x8000_0000 + 2 > b.ram.bytes.len() ==> step(h, b)
                    == (
                    h,
                    b,
                    Err::<HartEffect, StepError>(StepError::Bus(BusError::OutOfRange { addr: pa })),
                )
            },
        },
{
    reveal(step);
    reveal(run_next);
    reveal(interpret);
    reveal(fetch_and_retire);
    reveal(retire);
    law_a_trap_is_taken(h, 12, h.pc);
    if let Some(pa) = h.translate(b, h.pc, Access::Fetch) {
        if in_ram(b, pa, 2) {
            law_ram_is_read(b, pa, 2);
            crate::isa::memory::lemma_number_bound(b.ram.bytes, pa - 0x8000_0000, 2);
        } else if 0x8000_0000 <= pa && pa - 0x8000_0000 + 2 > b.ram.bytes.len() {
            crate::isa::memory::law_past_ram_there_is_nothing(b, pa, 2, 0);
        }
        if in_ram(b, pa, 4) {
            law_ram_is_read(b, pa, 4);
            crate::isa::memory::lemma_number_bound(b.ram.bytes, pa - 0x8000_0000, 4);
        }
    }
}

/// What is found at an address for compiling is the instruction that a step would carry out
/// there, and its length.
pub proof fn law_what_is_found_for_compiling(h: HartModel, b: BusState, pc: u64, pa: u64)
    requires
        h.translate(b, pc, Access::Fetch) == Some(pa),
    ensures
        ({
            let half = number(b.ram.bytes, pa - 0x8000_0000, 2);
            let full = number(b.ram.bytes, pa - 0x8000_0000, 4);
            &&& in_ram(b, pa, 4) && half % 4 == 3 ==> fetched(h, b, pc) == Some(
                Decoded { raw: full as u32, ilen: 4 },
            )
            &&& in_ram(b, pa, 2) && half % 4 != 3 ==> match expansion(half as u16) {
                Some(raw) => fetched(h, b, pc) == Some(Decoded { raw, ilen: 2 }),
                None => fetched(h, b, pc) is None,
            }
        }),
{
    reveal(fetched);
    if in_ram(b, pa, 2) {
        law_ram_is_read(b, pa, 2);
        lemma_read_shows_what_a_peek_does(b, pa, 2);
        crate::isa::memory::lemma_number_bound(b.ram.bytes, pa - 0x8000_0000, 2);
    }
    if in_ram(b, pa, 4) {
        law_ram_is_read(b, pa, 4);
        lemma_read_shows_what_a_peek_does(b, pa, 4);
        crate::isa::memory::lemma_number_bound(b.ram.bytes, pa - 0x8000_0000, 4);
    }
}

} // verus!
