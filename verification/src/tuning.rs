//! Settings that change only how fast a hart runs: whether a block keeps the registers at
//! hand, whether native code is generated, and whether translations are cached. A step never
//! depends on them.

use vstd::prelude::*;
use crate::block::Op;
use crate::bus::BusState;
use crate::cpu::{cause, cpu_step, serviced, HartEffect, HartState, SbiRequest, StepError};
use crate::decode::{expansion, Instr};
use crate::mmu::Access;
use crate::model::{
    block_at, execute, fetch_and_retire, fetched, interpret, interrupted, load_value, remembering,
    retire, run_next, run_op, run_ops, sem_amo, sem_amo_rmw, sem_branch, sem_csr, sem_jal,
    sem_jalr, sem_load, sem_lr, sem_op, sem_op_32, sem_op_imm, sem_op_imm_32, sem_priv, sem_sc,
    sem_store, sem_system, step, store_value, try_block, CsrOp, HartModel, ILEN_COMPRESSED,
    ILEN_FULL, MAX_OPS,
};

verus! {

/// Settings that change only speed.
pub struct Tuning {
    pub reg_cache: bool,
    pub native_jit: bool,
    pub tlb: bool,
}

/// A hart with these settings.
pub open spec fn tuned(h: HartModel, t: Tuning) -> HartModel {
    HartModel { reg_cache: t.reg_cache, native_jit: t.native_jit, tlb: t.tlb, ..h }
}

#[verifier::spinoff_prover]
#[verifier::rlimit(60)]
proof fn lemma_integer(h: HartModel, t: Tuning, i: Instr)
    ensures
        sem_op(tuned(h, t), i) == tuned(sem_op(h, i), t),
        sem_op_imm(tuned(h, t), i) == tuned(sem_op_imm(h, i), t),
        sem_op_32(tuned(h, t), i) == (tuned(sem_op_32(h, i).0, t), sem_op_32(h, i).1),
        sem_op_imm_32(tuned(h, t), i) == (tuned(sem_op_imm_32(h, i).0, t), sem_op_imm_32(h, i).1),
        sem_branch(tuned(h, t), i) == (tuned(sem_branch(h, i).0, t), sem_branch(h, i).1),
        sem_jal(tuned(h, t), i) == tuned(sem_jal(h, i), t),
        sem_jalr(tuned(h, t), i) == tuned(sem_jalr(h, i), t),
{
    reveal(sem_op);
    reveal(sem_op_imm);
    reveal(sem_op_32);
    reveal(sem_op_imm_32);
    reveal(sem_branch);
    reveal(sem_jal);
    reveal(sem_jalr);
}

proof fn lemma_trapped(h: HartModel, t: Tuning, cause: u64, tval: u64)
    ensures
        tuned(h, t).trapped(cause, tval) == tuned(h.trapped(cause, tval), t),
{
    reveal(HartModel::trapped);
}

proof fn lemma_returned(h: HartModel, t: Tuning)
    ensures
        tuned(h, t).returned() == tuned(h.returned(), t),
{
    reveal(HartModel::returned);
}

proof fn lemma_pending(h: HartModel, t: Tuning)
    ensures
        tuned(h, t).pending() == h.pending(),
{
    reveal(HartModel::pending);
}

proof fn lemma_csr(h: HartModel, t: Tuning, i: Instr, source: u64, op: CsrOp)
    ensures
        sem_csr(tuned(h, t), i, source, op) == (
            tuned(sem_csr(h, i, source, op).0, t),
            sem_csr(h, i, source, op).1,
        ),
{
    reveal(sem_csr);
}

proof fn lemma_priv(h: HartModel, t: Tuning, i: Instr)
    ensures
        sem_priv(tuned(h, t), i) == (tuned(sem_priv(h, i).0, t), sem_priv(h, i).1),
{
    reveal(sem_priv);
    lemma_trapped(h, t, cause::ECALL_FROM_U, 0);
    lemma_trapped(h, t, cause::BREAKPOINT, h.pc);
    lemma_returned(h, t);
    lemma_pending(h.advanced(), t);
}

proof fn lemma_system(h: HartModel, t: Tuning, i: Instr)
    ensures
        sem_system(tuned(h, t), i) == (tuned(sem_system(h, i).0, t), sem_system(h, i).1),
{
    reveal(sem_system);
    lemma_priv(h, t, i);
    let reg = h.x[i.rs1() as int];
    let imm = i.rs1() as u64;
    lemma_csr(h, t, i, reg, CsrOp::Write);
    lemma_csr(h, t, i, reg, CsrOp::SetBits);
    lemma_csr(h, t, i, reg, CsrOp::ClearBits);
    lemma_csr(h, t, i, imm, CsrOp::Write);
    lemma_csr(h, t, i, imm, CsrOp::SetBits);
    lemma_csr(h, t, i, imm, CsrOp::ClearBits);
}

proof fn lemma_translate(h: HartModel, t: Tuning, b: BusState, va: u64, access: Access)
    ensures
        tuned(h, t).translate(b, va, access) == h.translate(b, va, access),
{
}

proof fn lemma_amo(h: HartModel, t: Tuning, b: BusState, i: Instr)
    ensures
        ({
            let (h1, b1, r1) = sem_amo(h, b, i);
            sem_amo(tuned(h, t), b, i) == (tuned(h1, t), b1, r1)
        }),
{
    reveal(sem_amo);
    reveal(sem_lr);
    reveal(sem_sc);
    reveal(sem_amo_rmw);
    reveal(HartModel::trapped);
    lemma_translate(h, t, b, h.x[i.rs1() as int], Access::Store);
}

proof fn lemma_load(h: HartModel, t: Tuning, b: BusState, f3: u32, base: u64, imm: u64)
    ensures
        ({
            let (h1, b1, r1) = load_value(h, b, f3, base, imm);
            load_value(tuned(h, t), b, f3, base, imm) == (tuned(h1, t), b1, r1)
        }),
{
    reveal(load_value);
    reveal(HartModel::trapped);
}

proof fn lemma_store(h: HartModel, t: Tuning, b: BusState, f3: u32, base: u64, imm: u64, value: u64)
    ensures
        ({
            let (h1, b1, r1) = store_value(h, b, f3, base, imm, value);
            store_value(tuned(h, t), b, f3, base, imm, value) == (tuned(h1, t), b1, r1)
        }),
{
    reveal(store_value);
    reveal(HartModel::trapped);
}

proof fn lemma_sem_load(h: HartModel, t: Tuning, b: BusState, i: Instr)
    ensures
        ({
            let (h1, b1, r1) = sem_load(h, b, i);
            sem_load(tuned(h, t), b, i) == (tuned(h1, t), b1, r1)
        }),
{
    reveal(sem_load);
    lemma_load(h, t, b, i.funct3(), h.x[i.rs1() as int], i.i_imm());
}

proof fn lemma_sem_store(h: HartModel, t: Tuning, b: BusState, i: Instr)
    ensures
        ({
            let (h1, b1, r1) = sem_store(h, b, i);
            sem_store(tuned(h, t), b, i) == (tuned(h1, t), b1, r1)
        }),
{
    reveal(sem_store);
    lemma_store(
        h,
        t,
        b,
        i.funct3(),
        h.x[i.rs1() as int],
        i.s_imm(),
        h.x[i.rs2() as int],
    );
}

#[verifier::spinoff_prover]
#[verifier::rlimit(60)]
proof fn lemma_execute(h: HartModel, t: Tuning, b: BusState, raw: u32)
    ensures
        ({
            let (h1, b1, r1) = execute(h, b, raw);
            execute(tuned(h, t), b, raw) == (tuned(h1, t), b1, r1)
        }),
{
    reveal(execute);
    let i = Instr(raw);
    lemma_integer(h, t, i);
    lemma_system(h, t, i);
    lemma_amo(h, t, b, i);
    lemma_sem_load(h, t, b, i);
    lemma_sem_store(h, t, b, i);
}

proof fn lemma_retire(h: HartModel, t: Tuning, b: BusState, raw: u32)
    ensures
        ({
            let (h1, b1, r1) = retire(h, b, raw);
            retire(tuned(h, t), b, raw) == (tuned(h1, t), b1, r1)
        }),
{
    reveal(retire);
    lemma_execute(h, t, b, raw);
}

proof fn lemma_fetch(h: HartModel, t: Tuning, b: BusState)
    ensures
        ({
            let (h1, b1, r1) = fetch_and_retire(h, b);
            fetch_and_retire(tuned(h, t), b) == (tuned(h1, t), b1, r1)
        }),
{
    reveal(fetch_and_retire);
    reveal(HartModel::trapped);
    lemma_translate(h, t, b, h.pc, Access::Fetch);
    match h.translate(b, h.pc, Access::Fetch) {
        None => {},
        Some(pa) => {
            let (half, b1) = b.read(pa, 2);
            let (word, b2) = b1.read(pa, 4);
            if let Some(raw) = expansion(half->0 as u16) {
                let h1 = HartModel { ilen: ILEN_COMPRESSED, ..h };
                lemma_retire(remembering(h1, raw), t, b1, raw);
            }
            let raw = word->0 as u32;
            let h1 = HartModel { ilen: ILEN_FULL, ..h };
            lemma_retire(remembering(h1, raw), t, b2, raw);
        },
    }
}

proof fn lemma_interpret(h: HartModel, t: Tuning, b: BusState)
    ensures
        ({
            let (h1, b1, r1) = interpret(h, b);
            interpret(tuned(h, t), b) == (tuned(h1, t), b1, r1)
        }),
{
    reveal(interpret);
    match h.decode {
        None => {
            lemma_fetch(h, t, b);
        },
        Some(c) => {
            let satp = h.get(crate::csr::addr::SATP);
            let h1 = HartModel { decode: Some(c.after_lookup(satp, h.pc)), ..h };
            match c.lookup(satp, h.pc) {
                Some(d) => lemma_retire(HartModel { ilen: d.ilen, ..h1 }, t, b, d.raw),
                None => lemma_fetch(h1, t, b),
            }
        },
    }
}

#[verifier::spinoff_prover]
#[verifier::rlimit(60)]
proof fn lemma_load_op(h: HartModel, t: Tuning, b: BusState, op: Op)
    requires
        op is Load,
    ensures
        ({
            let (h1, b1, r1) = run_op(h, b, op);
            run_op(tuned(h, t), b, op) == (tuned(h1, t), b1, r1)
        }),
{
    reveal(run_op);
    if let Op::Load { funct3, rs1, imm, pc, .. } = op {
        lemma_load(h.with_pc(pc), t, b, funct3, h.x[rs1 as int], crate::alu::to_word(imm));
    }
}

#[verifier::spinoff_prover]
#[verifier::rlimit(60)]
proof fn lemma_store_op(h: HartModel, t: Tuning, b: BusState, op: Op)
    requires
        op is Store,
    ensures
        ({
            let (h1, b1, r1) = run_op(h, b, op);
            run_op(tuned(h, t), b, op) == (tuned(h1, t), b1, r1)
        }),
{
    reveal(run_op);
    if let Op::Store { funct3, rs1, rs2, imm, pc } = op {
        lemma_store(
            h.with_pc(pc),
            t,
            b,
            funct3,
            h.x[rs1 as int],
            crate::alu::to_word(imm),
            h.x[rs2 as int],
        );
    }
}

#[verifier::spinoff_prover]
#[verifier::rlimit(60)]
proof fn lemma_register_op(h: HartModel, t: Tuning, b: BusState, op: Op)
    requires
        !(op is Load),
        !(op is Store),
    ensures
        run_op(tuned(h, t), b, op).0 == tuned(run_op(h, b, op).0, t),
        run_op(tuned(h, t), b, op).1 == b,
        run_op(h, b, op).1 == b,
        run_op(tuned(h, t), b, op).2 == run_op(h, b, op).2,
{
    reveal(run_op);
    let g = tuned(h, t);
    assert(g.x == h.x);
    assert(forall|r: int, v: u64| #[trigger] g.with_reg(r, v) == tuned(h.with_reg(r, v), t));
    assert(forall|pc: u64| #[trigger] g.with_pc(pc) == tuned(h.with_pc(pc), t));
    match op {
        Op::AluImm { .. } => {},
        Op::AluReg { .. } => {},
        Op::SetImm { .. } => {},
        Op::Branch { .. } => {},
        Op::Jump { rd, link, target } => {
            let h1 = h.with_reg(rd as int, link);
            assert(g.with_reg(rd as int, link).with_pc(target) == tuned(h1.with_pc(target), t));
        },
        Op::JumpReg { rd, rs1, imm, link } => {
            let h1 = h.with_reg(rd as int, link);
            assert(g.with_reg(rd as int, link) == tuned(h1, t));
        },
        _ => {},
    }
}

proof fn lemma_op(h: HartModel, t: Tuning, b: BusState, op: Op)
    ensures
        ({
            let (h1, b1, r1) = run_op(h, b, op);
            run_op(tuned(h, t), b, op) == (tuned(h1, t), b1, r1)
        }),
{
    match op {
        Op::Load { .. } => {
            lemma_load_op(h, t, b, op);
        },
        Op::Store { .. } => {
            lemma_store_op(h, t, b, op);
        },
        _ => {
            lemma_register_op(h, t, b, op);
        },
    }
}

proof fn lemma_ops(h: HartModel, t: Tuning, b: BusState, ops: Seq<Op>, exit_pc: u64, from: int)
    ensures
        ({
            let (h1, b1, r1) = run_ops(h, b, ops, exit_pc, from);
            run_ops(tuned(h, t), b, ops, exit_pc, from) == (tuned(h1, t), b1, r1)
        }),
    decreases ops.len() - from,
{
    if 0 <= from < ops.len() {
        lemma_op(h, t, b, ops[from]);
        let (h1, b1, _) = run_op(h, b, ops[from]);
        lemma_ops(h1, t, b1, ops, exit_pc, from + 1);
    }
}

proof fn lemma_block_at(h: HartModel, t: Tuning, b: BusState, pc: u64, most: nat)
    ensures
        block_at(tuned(h, t), b, pc, most) == block_at(h, b, pc, most),
    decreases most,
{
    if most > 0 {
        reveal(fetched);
        assert(fetched(tuned(h, t), b, pc) == fetched(h, b, pc));
        if let Some(d) = fetched(h, b, pc) {
            lemma_block_at(h, t, b, crate::alu::word(pc + d.ilen), (most - 1) as nat);
        }
    }
}

proof fn lemma_block(h: HartModel, t: Tuning, b: BusState)
    ensures
        ({
            let (h1, b1, r1) = try_block(h, b);
            try_block(tuned(h, t), b) == (tuned(h1, t), b1, r1)
        }),
{
    reveal(try_block);
    let cache = h.blocks->0;
    lemma_block_at(h, t, b, h.pc, MAX_OPS as nat);
    match cache.compiled(h.pc) {
        Some(block) => {
            let h1 = HartModel { blocks: Some(cache.after_lookup(h.pc)), ..h };
            lemma_ops(h1, t, b, block.ops, block.exit_pc, 0);
        },
        None => {
            let warm = cache.with(h.pc, crate::model::BlockEntry::Hot(cache.heat(h.pc)));
            let block = block_at(h, b, h.pc, MAX_OPS as nat);
            let h1 = HartModel {
                blocks: Some(warm.with(h.pc, crate::model::BlockEntry::Compiled(block))),
                ..h
            };
            lemma_ops(h1, t, b, block.ops, block.exit_pc, 0);
        },
    }
}

proof fn lemma_next(h: HartModel, t: Tuning, b: BusState)
    ensures
        ({
            let (h1, b1, r1) = run_next(h, b);
            run_next(tuned(h, t), b) == (tuned(h1, t), b1, r1)
        }),
{
    reveal(run_next);
    if h.blocks is Some {
        lemma_block(h, t, b);
        let (h1, b1, _) = try_block(h, b);
        lemma_interpret(h1, t, b1);
    } else {
        lemma_interpret(h, t, b);
    }
}

/// A hart's step does not depend on its settings.
pub proof fn law_a_step_ignores_the_tuning(h: HartModel, t: Tuning, b: BusState)
    ensures
        ({
            let (h1, b1, r1) = step(h, b);
            step(tuned(h, t), b) == (tuned(h1, t), b1, r1)
        }),
{
    reveal(step);
    lemma_pending(h, t);
    lemma_next(h, t, b);
    if let Some(cause) = h.pending() {
        reveal(interrupted);
        let awake = if h.run == HartState::Idle {
            HartModel { run: HartState::Running, ..h }
        } else {
            h
        };
        lemma_trapped(awake, t, cause, 0);
        lemma_trapped(
            HartModel { timer_fires: awake.timer_fires.wrapping_add(1), ..awake },
            t,
            cause,
            0,
        );
    }
}

/// Harts with these settings.
pub open spec fn all_tuned(harts: Seq<HartModel>, t: Tuning) -> Seq<HartModel> {
    harts.map_values(|h: HartModel| tuned(h, t))
}

proof fn lemma_serviced(harts: Seq<HartModel>, t: Tuning, caller: int, req: SbiRequest)
    requires
        0 <= caller < harts.len(),
    ensures
        serviced(all_tuned(harts, t), caller, req) == all_tuned(serviced(harts, caller, req), t),
{
    reveal(serviced);
    assert(serviced(all_tuned(harts, t), caller, req) =~= all_tuned(
        serviced(harts, caller, req),
        t,
    ));
}

/// A lone hart after `k` steps, as long as each succeeds.
pub open spec fn cpu_steps(h: HartModel, b: BusState, k: nat) -> (
    HartModel,
    BusState,
    Result<(), StepError>,
)
    decreases k,
{
    if k == 0 {
        (h, b, Ok(()))
    } else {
        match cpu_steps(h, b, (k - 1) as nat) {
            (h1, b1, Ok(())) => cpu_step(h1, b1),
            stopped => stopped,
        }
    }
}

proof fn lemma_cpu_step(h: HartModel, t: Tuning, b: BusState)
    ensures
        ({
            let (h1, b1, r1) = cpu_step(h, b);
            cpu_step(tuned(h, t), b) == (tuned(h1, t), b1, r1)
        }),
{
    reveal(HartModel::deadline);
    let g = HartModel { cycle: h.instret, ..h };
    law_a_step_ignores_the_tuning(g, t, b);
    let (h1, b1, r) = step(g, b);
    if let Ok(HartEffect::Sbi(req)) = r {
        lemma_serviced(seq![h1], t, 0, req);
        assert(all_tuned(seq![h1], t) =~= seq![tuned(h1, t)]);
        reveal(serviced);
    }
}

/// Two machines that differ in how a hart is tuned, as in the register cache, agree on
/// everything else after each step.
pub proof fn law_tuning_changes_only_speed(h: HartModel, t: Tuning, b: BusState, k: nat)
    ensures
        ({
            let (h1, b1, r1) = cpu_steps(h, b, k);
            cpu_steps(tuned(h, t), b, k) == (tuned(h1, t), b1, r1)
        }),
    decreases k,
{
    if k > 0 {
        law_tuning_changes_only_speed(h, t, b, (k - 1) as nat);
        let (h1, b1, _) = cpu_steps(h, b, (k - 1) as nat);
        lemma_cpu_step(h1, t, b1);
    }
}

} // verus!
