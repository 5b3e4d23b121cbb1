//! The decode cache over a run: as long as what it holds is what a fetch would give, a hart
//! goes through the same states with it and without.

use vstd::prelude::*;
use crate::block::Op;
use crate::bus::{lemma_read_shows_what_a_peek_does, BusState};
use crate::cpu::{cause, cpu_step, serviced, HartEffect, HartState, SbiRequest, StepError};
use crate::csr::{addr, csr_get};
use crate::decode::{expansion, Instr};
use crate::decode_cache::{DecodeState, Decoded};
use crate::laws::{
    coherent_at_pc, executed_in_order, fetch_is_quiet, instructions_at,
    law_a_block_does_what_its_instructions_do, law_instructions_ignore_toggles,
    law_the_decode_cache_changes_only_speed, lemma_block_at_len, lemma_block_lowers,
    lemma_lowers_len, lemma_plain_pending, lemma_plain_trap, plain, retired_by, same_end,
};
use crate::mmu::Access;
use crate::model::{
    block_at, execute, fetch_and_retire, fetched, interpret, interrupted, load_value, remembering,
    retire, run_next, run_op, run_ops, sem_amo, sem_amo_rmw, sem_branch, sem_csr, sem_jal,
    sem_jalr, sem_load, sem_lr, sem_op, sem_op_32, sem_op_imm, sem_op_imm_32, sem_priv, sem_sc,
    sem_store, sem_system, step, store_value, try_block, BlockEntry, CsrOp, Flow, HartModel,
    ILEN_COMPRESSED, ILEN_FULL,
};
use crate::tuning::cpu_steps;

verus! {

// A hart without a block compiler never gets one.

proof fn lemma_trap_keeps_blocks(h: HartModel, cause: u64, tval: u64)
    ensures
        h.trapped(cause, tval).blocks == h.blocks,
{
    reveal(HartModel::trapped);
}

proof fn lemma_integer_keeps_blocks(h: HartModel, i: Instr)
    ensures
        sem_op(h, i).blocks == h.blocks,
        sem_op_imm(h, i).blocks == h.blocks,
        sem_op_32(h, i).0.blocks == h.blocks,
        sem_op_imm_32(h, i).0.blocks == h.blocks,
        sem_branch(h, i).0.blocks == h.blocks,
        sem_jal(h, i).blocks == h.blocks,
        sem_jalr(h, i).blocks == h.blocks,
{
    reveal(sem_op);
    reveal(sem_op_imm);
    reveal(sem_op_32);
    reveal(sem_op_imm_32);
    reveal(sem_branch);
    reveal(sem_jal);
    reveal(sem_jalr);
}

proof fn lemma_access_keeps_blocks(h: HartModel, b: BusState, i: Instr)
    ensures
        sem_load(h, b, i).0.blocks == h.blocks,
        sem_store(h, b, i).0.blocks == h.blocks,
{
    reveal(sem_load);
    reveal(sem_store);
    reveal(load_value);
    reveal(store_value);
    reveal(HartModel::trapped);
}

proof fn lemma_amo_keeps_blocks(h: HartModel, b: BusState, i: Instr)
    ensures
        sem_amo(h, b, i).0.blocks == h.blocks,
{
    reveal(sem_amo);
    reveal(sem_lr);
    reveal(sem_sc);
    reveal(sem_amo_rmw);
    lemma_trap_keeps_blocks(h, cause::STORE_PAGE_FAULT, h.x[i.rs1() as int]);
}

proof fn lemma_csr_keeps_blocks_off(h: HartModel, i: Instr, source: u64, op: CsrOp)
    requires
        h.blocks is None,
    ensures
        sem_csr(h, i, source, op).0.blocks is None,
{
    reveal(sem_csr);
}

proof fn lemma_priv_keeps_blocks_off(h: HartModel, i: Instr)
    requires
        h.blocks is None,
    ensures
        sem_priv(h, i).0.blocks is None,
{
    reveal(sem_priv);
    reveal(HartModel::returned);
    lemma_trap_keeps_blocks(h, cause::ECALL_FROM_U, 0);
    lemma_trap_keeps_blocks(h, cause::BREAKPOINT, h.pc);
}

proof fn lemma_system_keeps_blocks_off(h: HartModel, i: Instr)
    requires
        h.blocks is None,
    ensures
        sem_system(h, i).0.blocks is None,
{
    reveal(sem_system);
    lemma_priv_keeps_blocks_off(h, i);
    let reg = h.x[i.rs1() as int];
    let imm = i.rs1() as u64;
    lemma_csr_keeps_blocks_off(h, i, reg, CsrOp::Write);
    lemma_csr_keeps_blocks_off(h, i, reg, CsrOp::SetBits);
    lemma_csr_keeps_blocks_off(h, i, reg, CsrOp::ClearBits);
    lemma_csr_keeps_blocks_off(h, i, imm, CsrOp::Write);
    lemma_csr_keeps_blocks_off(h, i, imm, CsrOp::SetBits);
    lemma_csr_keeps_blocks_off(h, i, imm, CsrOp::ClearBits);
}

proof fn lemma_retire_keeps_blocks_off(h: HartModel, b: BusState, raw: u32)
    requires
        h.blocks is None,
    ensures
        retire(h, b, raw).0.blocks is None,
{
    reveal(retire);
    reveal(execute);
    let i = Instr(raw);
    lemma_integer_keeps_blocks(h, i);
    lemma_access_keeps_blocks(h, b, i);
    lemma_amo_keeps_blocks(h, b, i);
    lemma_system_keeps_blocks_off(h, i);
}

proof fn lemma_fetch_keeps_blocks_off(h: HartModel, b: BusState)
    requires
        h.blocks is None,
    ensures
        fetch_and_retire(h, b).0.blocks is None,
{
    reveal(fetch_and_retire);
    lemma_trap_keeps_blocks(h, cause::INSTRUCTION_PAGE_FAULT, h.pc);
    if let Some(pa) = h.translate(b, h.pc, Access::Fetch) {
        let (half, b1) = b.read(pa, 2);
        let (word, b2) = b1.read(pa, 4);
        if let Some(raw) = expansion(half->0 as u16) {
            let h1 = HartModel { ilen: ILEN_COMPRESSED, ..h };
            lemma_retire_keeps_blocks_off(remembering(h1, raw), b1, raw);
        }
        let raw = word->0 as u32;
        let h1 = HartModel { ilen: ILEN_FULL, ..h };
        lemma_retire_keeps_blocks_off(remembering(h1, raw), b2, raw);
    }
}

proof fn lemma_interpret_keeps_blocks_off(h: HartModel, b: BusState)
    requires
        h.blocks is None,
    ensures
        interpret(h, b).0.blocks is None,
{
    reveal(interpret);
    match h.decode {
        None => lemma_fetch_keeps_blocks_off(h, b),
        Some(cache) => {
            let satp = h.get(addr::SATP);
            let h1 = HartModel { decode: Some(cache.after_lookup(satp, h.pc)), ..h };
            lemma_fetch_keeps_blocks_off(h1, b);
            if let Some(d) = cache.lookup(satp, h.pc) {
                lemma_retire_keeps_blocks_off(HartModel { ilen: d.ilen, ..h1 }, b, d.raw);
            }
        },
    }
}

// Steps.

/// A step leaves what it leaves without the decode cache.
proof fn lemma_step(h: HartModel, b: BusState)
    requires
        h.blocks is None,
        coherent_at_pc(h, b),
    ensures
        ({
            let (h1, b1, r1) = step(h, b);
            &&& step(plain(h), b) == (plain(h1), b1, r1)
            &&& h1.blocks is None
        }),
{
    reveal(step);
    reveal(run_next);
    lemma_plain_pending(h);
    lemma_interpret_keeps_blocks_off(h, b);
    law_the_decode_cache_changes_only_speed(h, b);
    if let Some(cause) = h.pending() {
        reveal(interrupted);
        let awake = if h.run == HartState::Idle {
            HartModel { run: HartState::Running, ..h }
        } else {
            h
        };
        let fired = HartModel { timer_fires: awake.timer_fires.wrapping_add(1), ..awake };
        lemma_plain_trap(awake, cause, 0);
        lemma_plain_trap(fired, cause, 0);
        lemma_trap_keeps_blocks(awake, cause, 0);
        lemma_trap_keeps_blocks(fired, cause, 0);
    }
}

proof fn lemma_serviced(h: HartModel, req: SbiRequest)
    ensures
        serviced(seq![plain(h)], 0, req)[0] == plain(serviced(seq![h], 0, req)[0]),
        serviced(seq![h], 0, req)[0].blocks == h.blocks,
{
    reveal(serviced);
}

proof fn lemma_cpu_step(h: HartModel, b: BusState)
    requires
        h.blocks is None,
        coherent_at_pc(h, b),
    ensures
        ({
            let (h1, b1, r1) = cpu_step(h, b);
            &&& cpu_step(plain(h), b) == (plain(h1), b1, r1)
            &&& h1.blocks is None
        }),
{
    let g = HartModel { cycle: h.instret, ..h };
    assert(coherent_at_pc(g, b)) by {
        reveal(fetched);
    }
    lemma_step(g, b);
    let (h1, b1, r) = step(g, b);
    match r {
        Ok(HartEffect::Sbi(req)) => lemma_serviced(h1, req),
        Ok(HartEffect::Idle) => {
            reveal(HartModel::deadline);
        },
        _ => {},
    }
}

/// Whether the decode cache holds what a fetch would give at the start of each of `k` steps.
pub open spec fn coherent_for(h: HartModel, b: BusState, k: nat) -> bool
    decreases k,
{
    k == 0 || {
        let (h1, b1, r1) = cpu_steps(h, b, (k - 1) as nat);
        &&& coherent_for(h, b, (k - 1) as nat)
        &&& r1 is Ok ==> coherent_at_pc(h1, b1)
    }
}

/// The decode cache changes only speed, however long a hart runs: as long as its entry for
/// the pc, if it has one, is what a fetch would give at each step, the hart and the bus are
/// after any number of steps what they are without it.
pub proof fn law_the_decode_cache_changes_only_the_speed_of_a_run(h: HartModel, b: BusState, k: nat)
    requires
        h.blocks is None,
        coherent_for(h, b, k),
    ensures
        ({
            let (h1, b1, r1) = cpu_steps(h, b, k);
            &&& cpu_steps(plain(h), b, k) == (plain(h1), b1, r1)
            &&& h1.blocks is None
        }),
    decreases k,
{
    if k > 0 {
        law_the_decode_cache_changes_only_the_speed_of_a_run(h, b, (k - 1) as nat);
        let (h1, b1, r1) = cpu_steps(h, b, (k - 1) as nat);
        if r1 is Ok {
            lemma_cpu_step(h1, b1);
        }
    }
}

// What the caches are filled with.

/// An instruction that the decode cache has for the pc is carried out without a fetch; one that
/// it has not is fetched, and remembered there as it was fetched, with its length.
pub proof fn law_what_was_fetched_is_remembered(h: HartModel, b: BusState, c: DecodeState, d: Decoded)
    requires
        h.decode == Some(c),
    ensures
        ({
            let satp = csr_get(h.csr, 0x180);
            let found = c.lookup(satp, h.pc);
            &&& found == Some(d) ==> interpret(h, b) == retire(
                HartModel { decode: Some(c.after_lookup(satp, h.pc)), ilen: d.ilen, ..h },
                b,
                d.raw,
            )
            &&& found is None && fetched(h, b, h.pc) == Some(d) && fetch_is_quiet(h, b)
                ==> interpret(h, b) == retire(
                HartModel {
                    decode: Some(c.after_lookup(satp, h.pc).with(h.pc, d)),
                    ilen: d.ilen,
                    ..h
                },
                b,
                d.raw,
            )
        }),
{
    reveal(interpret);
    reveal(fetch_and_retire);
    reveal(fetched);
    if let Some(pa) = h.translate(b, h.pc, Access::Fetch) {
        lemma_read_shows_what_a_peek_does(b, pa, 2);
        lemma_read_shows_what_a_peek_does(b, pa, 4);
    }
}

/// Whether what the block cache holds for the pc, if it holds a block, is what would be compiled
/// there now.
pub open spec fn block_is_current(h: HartModel, b: BusState) -> bool {
    match (h.blocks->0).compiled(h.pc) {
        Some(block) => block == block_at(h, b, h.pc, 64),
        None => true,
    }
}

proof fn lemma_plain_in_order(h: HartModel, b: BusState, code: Seq<Decoded>, n: nat)
    ensures
        ({
            let (h1, b1, r1) = executed_in_order(h, b, code, n);
            executed_in_order(plain(h), b, code, n) == (plain(h1), b1, r1)
        }),
    decreases n,
{
    if 0 < n <= code.len() {
        lemma_plain_in_order(h, b, code, (n - 1) as nat);
        let (h1, b1, r1) = executed_in_order(h, b, code, (n - 1) as nat);
        if r1 is Ok {
            let hi = HartModel { ilen: code[n - 1].ilen, ..h1 };
            law_instructions_ignore_toggles(hi, b1, code[n - 1].raw);
            assert(plain(hi) == HartModel { ilen: code[n - 1].ilen, ..plain(h1) });
        }
    }
}

proof fn lemma_block_retires(h: HartModel, b: BusState, ops: Seq<Op>, exit_pc: u64, from: int)
    requires
        0 <= from <= ops.len() <= 0xffff,
    ensures
        match run_ops(h, b, ops, exit_pc, from).2 {
            Ok(n) => from <= n <= ops.len() && (from < ops.len() ==> from < n),
            Err(_) => true,
        },
    decreases ops.len() - from,
{
    if from < ops.len() {
        if let (h1, b1, Flow::Next) = run_op(h, b, ops[from]) {
            lemma_block_retires(h1, b1, ops, exit_pc, from + 1);
        }
    }
}

proof fn lemma_block_run(h: HartModel, b: BusState, g: HartModel)
    requires
        plain(g) == plain(h),
    ensures
        ({
            let block = block_at(h, b, h.pc, 64);
            let code = instructions_at(h, b, h.pc, 64);
            let (h1, b1, r) = run_ops(g, b, block.ops, block.exit_pc, 0);
            let (h2, b2, r2) = executed_in_order(plain(h), b, code, retired_by(r, code.len()));
            &&& same_end(r, r2)
            &&& b1 == b2
            &&& plain(h1) == (HartModel { ilen: h1.ilen, ..h2 })
            &&& block.ops.len() > 0 && r is Ok ==> 0 < r->Ok_0 <= code.len()
        }),
{
    let block = block_at(h, b, h.pc, 64);
    let code = instructions_at(h, b, h.pc, 64);
    assert(g.pc == plain(g).pc && h.pc == plain(h).pc);
    law_a_block_does_what_its_instructions_do(g, b, h, b, 64);
    let (h1, b1, r) = run_ops(g, b, block.ops, block.exit_pc, 0);
    let n = retired_by(r, code.len());
    lemma_plain_in_order(g, b, code, n);
    lemma_block_lowers(h, b, h.pc, 64);
    lemma_lowers_len(block.ops, code, h.pc, block.exit_pc);
    lemma_block_at_len(h, b, h.pc, 64);
    lemma_block_retires(g, b, block.ops, block.exit_pc, 0);
    let h2 = executed_in_order(g, b, code, n).0;
    assert(plain(h1) == HartModel { ilen: h1.ilen, ..plain(h2) });
}

/// Running a block is running the instructions from the pc on: as many as it reports are carried
/// out one after the other, with their effects on the hart and the bus and no others, and where
/// one fails the block fails likewise. Where no block is run, the hart and the bus are as they
/// were. (What the caches hold may change, and the length of the last instruction.)
pub proof fn law_a_block_is_its_instructions(h: HartModel, b: BusState)
    requires
        h.blocks is Some,
        block_is_current(h, b),
    ensures
        ({
            let (h1, b1, r) = try_block(h, b);
            let code = instructions_at(h, b, h.pc, 64);
            match r {
                Ok(None) => b1 == b && plain(h1) == plain(h),
                Ok(Some(n)) => {
                    let (h2, b2, r2) = executed_in_order(plain(h), b, code, n as nat);
                    &&& 0 < n <= code.len()
                    &&& r2 is Ok
                    &&& b1 == b2
                    &&& plain(h1) == (HartModel { ilen: h1.ilen, ..h2 })
                },
                Err(e) => {
                    let (h2, b2, r2) = executed_in_order(plain(h), b, code, code.len());
                    &&& r2 == Err::<(), StepError>(e)
                    &&& b1 == b2
                    &&& plain(h1) == (HartModel { ilen: h1.ilen, ..h2 })
                },
            }
        }),
{
    reveal(try_block);
    let cache = h.blocks->0;
    match cache.compiled(h.pc) {
        Some(_) => {
            lemma_block_run(h, b, HartModel { blocks: Some(cache.after_lookup(h.pc)), ..h });
        },
        None => {
            let warm = cache.with(h.pc, BlockEntry::Hot(cache.heat(h.pc)));
            let block = block_at(h, b, h.pc, 64);
            let c = warm.with(h.pc, BlockEntry::Compiled(block));
            lemma_block_run(h, b, HartModel { blocks: Some(c), ..h });
        },
    }
}

/// A block that was compiled is there the next time, and is what would have been compiled; the
/// second visit of an address compiles it.
pub proof fn law_what_was_compiled_is_kept(h: HartModel, b: BusState)
    requires
        h.blocks is Some,
        (h.blocks->0).compiled(h.pc) is None,
        block_at(h, b, h.pc, 64).ops.len() == 0,
    ensures
        ({
            let before = h.blocks->0;
            let after = try_block(h, b).0.blocks->0;
            let visited = before.entries.dom().contains(h.pc);
            &&& try_block(h, b).2 == Ok::<Option<u64>, StepError>(None)
            &&& !visited ==> after.compiled(h.pc) is None && after.entries.dom().contains(h.pc)
            &&& visited && (before.entries[h.pc] matches BlockEntry::Hot(n) && n >= 1)
                ==> after.compiled(h.pc) == Some(block_at(h, b, h.pc, 64))
        }),
{
    reveal(try_block);
}

} // verus!
