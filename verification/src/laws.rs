//! What holds of the hart as a whole: the fast paths change only speed, traps and returns
//! undo each other, and reservations are kept and broken as they should be.

use vstd::prelude::*;
use crate::alu::{to_signed, to_word, with_bit, word};
use crate::block::{imm_alu, imm_alu_32, lowered, Compiled, Op};
use crate::bus::{lemma_read_shows_what_a_peek_does, BusState};
use crate::cpu::{cause, HartEffect, HartState, Privilege, StepError};
use crate::csr::{addr, sstatus};
use crate::decode::{expansion, funct3, opcode, Instr};
use crate::decode_cache::Decoded;
use crate::machine::MachineState;
use crate::mmu::Access;
use crate::model::{
    block_at, execute, fetch_and_retire, fetched, interpret, load_value, remembering, retire,
    run_op, run_ops, sem_amo, sem_amo_rmw, sem_branch, sem_csr, sem_jal, sem_jalr, sem_load,
    sem_lr, sem_op, sem_op_32, sem_op_imm, sem_op_imm_32, sem_priv, sem_sc, sem_store, sem_system,
    step, store_value, CsrOp, Flow, HartModel, ILEN_COMPRESSED, ILEN_FULL,
};

verus! {

// A lowered op does what its instruction does.

/// Whether the op that `run_op` ran left what the instruction leaves: `o` is the op's
/// outcome, `e` the instruction's, and `next` the address of the instruction after it.
pub open spec fn agrees(
    o: (HartModel, BusState, Flow),
    e: (HartModel, BusState, Result<(), StepError>),
    next: u64,
) -> bool {
    &&& o.1 == e.1
    &&& match o.2 {
        Flow::Next => e.2 is Ok && e.0 == (HartModel { pc: next, ..o.0 }),
        Flow::Stop => e.2 is Ok && e.0 == o.0,
        Flow::Fail(err) => e.2 == Err::<(), StepError>(err) && e.0 == o.0,
    }
}

proof fn lemma_word_round_trip(v: u64)
    ensures
        to_word(to_signed(v)) == v,
{
    crate::alu::lemma_word_of_signed(v);
}

proof fn lemma_load_lowering(h: HartModel, b: BusState, raw: u32)
    requires
        Instr(raw).opcode() == opcode::LOAD,
        Instr(raw).funct3() != 7,
    ensures
        ({
            let i = Instr(raw);
            let op = Op::Load {
                funct3: i.funct3(),
                rd: i.rd() as u8,
                rs1: i.rs1() as u8,
                imm: to_signed(i.i_imm()),
                pc: h.pc,
            };
            agrees(run_op(h, b, op), sem_load(h, b, i), word(h.pc + h.ilen))
        }),
{
    reveal(run_op);
    reveal(sem_load);
    let i = Instr(raw);
    lemma_word_round_trip(i.i_imm());
    let base = h.x[i.rs1() as int];
    assert(h.with_pc(h.pc) == h);
    lemma_load_keeps(h, b, i.funct3(), base, i.i_imm());
}

proof fn lemma_load_keeps(h: HartModel, b: BusState, f3: u32, base: u64, imm: u64)
    ensures
        ({
            let (h1, b1, r) = load_value(h, b, f3, base, imm);
            &&& r is Err ==> h1 == h
            &&& r matches Ok(Some(_)) ==> h1 == h
        }),
{
    reveal(load_value);
}

proof fn lemma_store_keeps(h: HartModel, b: BusState, f3: u32, base: u64, imm: u64, value: u64)
    ensures
        ({
            let (h1, b1, r) = store_value(h, b, f3, base, imm, value);
            &&& r is Err ==> h1 == (HartModel { reservation: h1.reservation, ..h })
            &&& r matches Ok(false) ==> h1 == (HartModel { reservation: h1.reservation, ..h })
        }),
{
    reveal(store_value);
}

proof fn lemma_store_lowering(h: HartModel, b: BusState, raw: u32)
    requires
        Instr(raw).opcode() == opcode::STORE,
    ensures
        ({
            let i = Instr(raw);
            let op = Op::Store {
                funct3: i.funct3(),
                rs1: i.rs1() as u8,
                rs2: i.rs2() as u8,
                imm: to_signed(i.s_imm()),
                pc: h.pc,
            };
            agrees(run_op(h, b, op), sem_store(h, b, i), word(h.pc + h.ilen))
        }),
{
    reveal(run_op);
    reveal(sem_store);
    let i = Instr(raw);
    lemma_word_round_trip(i.s_imm());
    assert(h.with_pc(h.pc) == h);
    lemma_store_keeps(h, b, i.funct3(), h.x[i.rs1() as int], i.s_imm(), h.x[i.rs2() as int]);
}

proof fn lemma_alu_lowering(h: HartModel, b: BusState, raw: u32)
    requires
        ({
            let op = Instr(raw).opcode();
            op == opcode::OP_IMM || op == opcode::OP || op == opcode::OP_IMM_32 || op
                == opcode::OP_32
        }),
        !(lowered(raw, h.ilen, h.pc) is Unsupported),
    ensures
        match lowered(raw, h.ilen, h.pc) {
            Compiled::Continue(op) => agrees(
                run_op(h, b, op),
                execute(h, b, raw),
                word(h.pc + h.ilen),
            ),
            _ => false,
        },
{
    reveal(lowered);
    reveal(run_op);
    reveal(execute);
    reveal(sem_op);
    reveal(sem_op_imm);
    reveal(sem_op_32);
    reveal(sem_op_imm_32);
    let i = Instr(raw);
    lemma_word_round_trip(imm_alu(i).1);
    if imm_alu_32(i) is Some {
        lemma_word_round_trip((imm_alu_32(i)->0).1);
    }
}

proof fn lemma_jump_lowering(h: HartModel, b: BusState, raw: u32)
    requires
        ({
            let op = Instr(raw).opcode();
            op == opcode::LUI || op == opcode::AUIPC || op == opcode::JAL || op == opcode::JALR
                || op == opcode::BRANCH
        }),
    ensures
        match lowered(raw, h.ilen, h.pc) {
            Compiled::Continue(op) => agrees(
                run_op(h, b, op),
                execute(h, b, raw),
                word(h.pc + h.ilen),
            ),
            Compiled::Terminate(op) => {
                &&& agrees(run_op(h, b, op), execute(h, b, raw), word(h.pc + h.ilen))
                &&& run_op(h, b, op).2 == Flow::Stop
            },
            Compiled::Unsupported => true,
        },
{
    reveal(lowered);
    reveal(run_op);
    reveal(execute);
    reveal(sem_branch);
    reveal(sem_jal);
    reveal(sem_jalr);
    lemma_word_round_trip(Instr(raw).i_imm());
}

/// Every instruction that is lowered runs as an op exactly as it is interpreted: the same
/// registers, memory, traps and errors, the pc being set by the op where it ends the block
/// and advanced by the instruction otherwise. An op that ends a block stops it.
pub proof fn law_an_op_does_what_its_instruction_does(h: HartModel, b: BusState, raw: u32)
    ensures
        match lowered(raw, h.ilen, h.pc) {
            Compiled::Continue(op) => agrees(
                run_op(h, b, op),
                execute(h, b, raw),
                word(h.pc + h.ilen),
            ),
            Compiled::Terminate(op) => {
                &&& agrees(run_op(h, b, op), execute(h, b, raw), word(h.pc + h.ilen))
                &&& run_op(h, b, op).2 == Flow::Stop
            },
            Compiled::Unsupported => true,
        },
{
    let op = Instr(raw).opcode();
    if !(lowered(raw, h.ilen, h.pc) is Unsupported) {
        if op == opcode::OP_IMM || op == opcode::OP || op == opcode::OP_IMM_32 || op
            == opcode::OP_32 {
            lemma_alu_lowering(h, b, raw);
        } else if op == opcode::LOAD {
            reveal(lowered);
            reveal(execute);
            lemma_load_lowering(h, b, raw);
        } else if op == opcode::STORE {
            reveal(lowered);
            reveal(execute);
            lemma_store_lowering(h, b, raw);
        } else if op == opcode::LUI || op == opcode::AUIPC || op == opcode::JAL || op
            == opcode::JALR || op == opcode::BRANCH {
            lemma_jump_lowering(h, b, raw);
        } else {
            reveal(lowered);
        }
    }
}

// A block does what its instructions do.

/// The instructions of the block of at most `most` ops that starts at `pc`.
pub open spec fn instructions_at(h: HartModel, b: BusState, pc: u64, most: nat) -> Seq<Decoded>
    decreases most,
{
    if most == 0 {
        Seq::empty()
    } else {
        match fetched(h, b, pc) {
            None => Seq::empty(),
            Some(d) => match lowered(d.raw, d.ilen, pc) {
                Compiled::Continue(_) => seq![d] + instructions_at(
                    h,
                    b,
                    word(pc + d.ilen),
                    (most - 1) as nat,
                ),
                Compiled::Terminate(_) => seq![d],
                Compiled::Unsupported => Seq::empty(),
            },
        }
    }
}

/// The first `n` of the instructions, executed one after the other.
pub open spec fn executed_in_order(h: HartModel, b: BusState, code: Seq<Decoded>, n: nat) -> (
    HartModel,
    BusState,
    Result<(), StepError>,
)
    decreases n,
{
    if n == 0 || n > code.len() {
        (h, b, Ok(()))
    } else {
        match executed_in_order(h, b, code, (n - 1) as nat) {
            (h1, b1, Ok(())) => execute(
                HartModel { ilen: code[n - 1].ilen, ..h1 },
                b1,
                code[n - 1].raw,
            ),
            stopped => stopped,
        }
    }
}

/// Whether `ops` are the lowerings of `code`, the first of which is at `pc`, and control
/// falls out at `exit_pc`.
pub open spec fn lowers(ops: Seq<Op>, code: Seq<Decoded>, pc: u64, exit_pc: u64) -> bool
    decreases ops.len(),
{
    if ops.len() == 0 {
        code.len() == 0 && pc == exit_pc
    } else {
        code.len() == ops.len() && match lowered(code[0].raw, code[0].ilen, pc) {
            Compiled::Continue(op) => op == ops[0] && lowers(
                ops.drop_first(),
                code.drop_first(),
                word(pc + code[0].ilen),
                exit_pc,
            ),
            Compiled::Terminate(op) => op == ops[0] && ops.len() == 1,
            Compiled::Unsupported => false,
        }
    }
}

/// A discovered block is the lowering of its instructions.
pub proof fn lemma_block_lowers(h: HartModel, b: BusState, pc: u64, most: nat)
    ensures
        lowers(
            block_at(h, b, pc, most).ops,
            instructions_at(h, b, pc, most),
            pc,
            block_at(h, b, pc, most).exit_pc,
        ),
    decreases most,
{
    if most > 0 {
        match fetched(h, b, pc) {
            None => {},
            Some(d) => match lowered(d.raw, d.ilen, pc) {
                Compiled::Continue(op) => {
                    let next = word(pc + d.ilen);
                    lemma_block_lowers(h, b, next, (most - 1) as nat);
                    let rest = block_at(h, b, next, (most - 1) as nat);
                    let more = instructions_at(h, b, next, (most - 1) as nat);
                    let ops = block_at(h, b, pc, most).ops;
                    let code = instructions_at(h, b, pc, most);
                    assert(ops =~= seq![op] + rest.ops);
                    assert(ops.drop_first() =~= rest.ops);
                    assert(code.drop_first() =~= more);
                    lemma_lowers_len(rest.ops, more, next, rest.exit_pc);
                },
                _ => {},
            },
        }
    }
}

pub proof fn lemma_lowers_len(ops: Seq<Op>, code: Seq<Decoded>, pc: u64, exit_pc: u64)
    requires
        lowers(ops, code, pc, exit_pc),
    ensures
        ops.len() == code.len(),
{
}

/// The block from its `k`-th op on, where the ops before it have all gone on to the next.
#[verifier::spinoff_prover]
#[verifier::rlimit(60)]
proof fn lemma_block_from(
    h: HartModel,
    b: BusState,
    hk: HartModel,
    bk: BusState,
    ops: Seq<Op>,
    code: Seq<Decoded>,
    exit_pc: u64,
    k: nat,
    pc: u64,
)
    requires
        k <= ops.len() <= 0xffff,
        code.len() == ops.len(),
        lowers(ops.skip(k as int), code.skip(k as int), pc, exit_pc),
        executed_in_order(h, b, code, k).2 is Ok,
        executed_in_order(h, b, code, k).1 == bk,
        executed_in_order(h, b, code, k).0 == (HartModel {
            pc,
            ilen: executed_in_order(h, b, code, k).0.ilen,
            ..hk
        }),
    ensures
        ({
            let (h1, b1, r) = run_ops(hk, bk, ops, exit_pc, k as int);
            let (h2, b2, r2) = executed_in_order(h, b, code, retired_by(r, code.len()));
            &&& r is Ok ==> k <= (r->Ok_0) <= ops.len()
            &&& same_end(r, r2)
            &&& b2 == b1
            &&& h2 == (HartModel { ilen: h2.ilen, ..h1 })
        }),
    decreases ops.len() - k,
{
    let (e0, e1, e2) = executed_in_order(h, b, code, k);
    if k < ops.len() {
        let d = code[k as int];
        let op = ops[k as int];
        assert(ops.skip(k as int)[0] == op);
        assert(code.skip(k as int)[0] == d);
        let hi = HartModel { ilen: d.ilen, ..e0 };
        assert(hi.pc == pc);
        law_an_op_does_what_its_instruction_does(hi, bk, d.raw);
        lemma_op_ignores_pc(hk, bk, op, pc, d.ilen);
        assert(hi == (HartModel { pc, ilen: d.ilen, ..hk }));
        assert(executed_in_order(h, b, code, (k + 1) as nat) == execute(hi, bk, d.raw));
        let (o0, o1, o2) = run_op(hk, bk, op);
        match o2 {
            Flow::Next => {
                assert(ops.skip(k as int).drop_first() =~= ops.skip((k + 1) as int));
                assert(code.skip(k as int).drop_first() =~= code.skip((k + 1) as int));
                lemma_block_from(
                    h,
                    b,
                    o0,
                    o1,
                    ops,
                    code,
                    exit_pc,
                    (k + 1) as nat,
                    word(pc + d.ilen),
                );
            },
            Flow::Stop => {},
            Flow::Fail(e) => {
                lemma_an_error_ends_it(h, b, code, (k + 1) as nat, code.len());
            },
        }
    }
}

/// Nothing is executed after an error.
proof fn lemma_an_error_ends_it(h: HartModel, b: BusState, code: Seq<Decoded>, m: nat, n: nat)
    requires
        m <= n <= code.len(),
        executed_in_order(h, b, code, m).2 is Err,
    ensures
        executed_in_order(h, b, code, n) == executed_in_order(h, b, code, m),
    decreases n - m,
{
    if m < n {
        lemma_an_error_ends_it(h, b, code, m, (n - 1) as nat);
    }
}

/// An op reads neither the pc nor the instruction length, and carries the length through;
/// the pc it leaves is its own, where it leaves one.
proof fn lemma_op_ignores_pc(h: HartModel, b: BusState, op: Op, pc: u64, ilen: u64)
    ensures
        ({
            let g = HartModel { pc, ilen, ..h };
            let (h1, b1, f1) = run_op(h, b, op);
            let (h2, b2, f2) = run_op(g, b, op);
            &&& b1 == b2
            &&& f1 == f2
            &&& f1 is Next ==> h2 == (HartModel { pc: h2.pc, ilen, ..h1 })
            &&& !(f1 is Next) ==> h2 == (HartModel { ilen, ..h1 })
        }),
{
    match op {
        Op::Load { .. } => {
            lemma_load_op_ignores_pc(h, b, op, pc, ilen);
        },
        Op::Store { .. } => {
            lemma_store_op_ignores_pc(h, b, op, pc, ilen);
        },
        _ => {
            reveal(run_op);
        },
    }
}

proof fn lemma_load_op_ignores_pc(h: HartModel, b: BusState, op: Op, pc: u64, ilen: u64)
    requires
        op is Load,
    ensures
        ({
            let g = HartModel { pc, ilen, ..h };
            let (h1, b1, f1) = run_op(h, b, op);
            let (h2, b2, f2) = run_op(g, b, op);
            &&& b1 == b2
            &&& f1 == f2
            &&& f1 is Next ==> h2 == (HartModel { pc: h2.pc, ilen, ..h1 })
            &&& !(f1 is Next) ==> h2 == (HartModel { ilen, ..h1 })
        }),
{
    if let Op::Load { funct3, rd, rs1, imm, pc: at } = op {
        reveal(run_op);
        let g = HartModel { pc, ilen, ..h };
        let base = h.x[rs1 as int];
        lemma_load_ignores_length(h.with_pc(at), b, funct3, base, to_word(imm), ilen);
        assert(g.with_pc(at) == (HartModel { ilen, ..h.with_pc(at) }));
        assert(g.x[rs1 as int] == base);
    }
}

proof fn lemma_store_op_ignores_pc(h: HartModel, b: BusState, op: Op, pc: u64, ilen: u64)
    requires
        op is Store,
    ensures
        ({
            let g = HartModel { pc, ilen, ..h };
            let (h1, b1, f1) = run_op(h, b, op);
            let (h2, b2, f2) = run_op(g, b, op);
            &&& b1 == b2
            &&& f1 == f2
            &&& f1 is Next ==> h2 == (HartModel { pc: h2.pc, ilen, ..h1 })
            &&& !(f1 is Next) ==> h2 == (HartModel { ilen, ..h1 })
        }),
{
    if let Op::Store { funct3, rs1, rs2, imm, pc: at } = op {
        reveal(run_op);
        let g = HartModel { pc, ilen, ..h };
        let base = h.x[rs1 as int];
        let value = h.x[rs2 as int];
        lemma_store_ignores_length(h.with_pc(at), b, funct3, base, to_word(imm), value, ilen);
        assert(g.with_pc(at) == (HartModel { ilen, ..h.with_pc(at) }));
    }
}

proof fn lemma_load_ignores_length(
    h: HartModel,
    b: BusState,
    f3: u32,
    base: u64,
    imm: u64,
    ilen: u64,
)
    ensures
        load_value(HartModel { ilen, ..h }, b, f3, base, imm) == (
            HartModel { ilen, ..load_value(h, b, f3, base, imm).0 },
            load_value(h, b, f3, base, imm).1,
            load_value(h, b, f3, base, imm).2,
        ),
{
    reveal(load_value);
    reveal(HartModel::trapped);
}

proof fn lemma_store_ignores_length(
    h: HartModel,
    b: BusState,
    f3: u32,
    base: u64,
    imm: u64,
    value: u64,
    ilen: u64,
)
    ensures
        store_value(HartModel { ilen, ..h }, b, f3, base, imm, value) == (
            HartModel { ilen, ..store_value(h, b, f3, base, imm, value).0 },
            store_value(h, b, f3, base, imm, value).1,
            store_value(h, b, f3, base, imm, value).2,
        ),
{
    reveal(store_value);
    reveal(HartModel::trapped);
}

/// How many of its `len` instructions a block executed that ended so: those it retired, or
/// all up to the one that failed.
pub open spec fn retired_by(r: Result<u64, StepError>, len: nat) -> nat {
    match r {
        Ok(n) => n as nat,
        Err(_) => len,
    }
}

/// Whether a block and its instructions ended alike.
pub open spec fn same_end(r: Result<u64, StepError>, r2: Result<(), StepError>) -> bool {
    match r {
        Ok(_) => r2 is Ok,
        Err(e) => r2 == Err::<(), StepError>(e),
    }
}

/// The block JIT against the interpreter: a block discovered at the pc that retires `n`
/// instructions leaves exactly what executing the first `n` of the block's instructions
/// leaves: registers, pc, CSRs, privilege, reservation, memory and devices. One that fails
/// leaves what its instructions leave, and they fail with the same error. (The length of the
/// last instruction is bookkeeping of the interpreter.)
pub proof fn law_a_block_does_what_its_instructions_do(
    h: HartModel,
    b: BusState,
    found: HartModel,
    code_bus: BusState,
    most: nat,
)
    requires
        most <= 0xffff,
    ensures
        ({
            let block = block_at(found, code_bus, h.pc, most);
            let code = instructions_at(found, code_bus, h.pc, most);
            let (h1, b1, r) = run_ops(h, b, block.ops, block.exit_pc, 0);
            let (h2, b2, r2) = executed_in_order(h, b, code, retired_by(r, code.len()));
            &&& same_end(r, r2)
            &&& b2 == b1
            &&& h2 == (HartModel { ilen: h2.ilen, ..h1 })
        }),
{
    let block = block_at(found, code_bus, h.pc, most);
    let code = instructions_at(found, code_bus, h.pc, most);
    lemma_block_lowers(found, code_bus, h.pc, most);
    lemma_lowers_len(block.ops, code, h.pc, block.exit_pc);
    lemma_block_at_len(found, code_bus, h.pc, most);
    assert(block.ops.skip(0) =~= block.ops);
    assert(code.skip(0) =~= code);
    lemma_block_from(h, b, h, b, block.ops, code, block.exit_pc, 0, h.pc);
}

pub proof fn lemma_block_at_len(h: HartModel, b: BusState, pc: u64, most: nat)
    ensures
        block_at(h, b, pc, most).ops.len() <= most,
    decreases most,
{
    if most > 0 {
        match fetched(h, b, pc) {
            None => {},
            Some(d) => {
                lemma_block_at_len(h, b, word(pc + d.ilen), (most - 1) as nat);
            },
        }
    }
}

// Performance toggles.

/// A hart with every performance toggle at its default: what the guest can observe.
pub open spec fn plain(h: HartModel) -> HartModel {
    HartModel {
        decode: None,
        blocks: None,
        reg_cache: true,
        native_jit: false,
        tlb: false,
        ..h
    }
}

proof fn lemma_plain_translate(h: HartModel, b: BusState, va: u64, access: Access)
    ensures
        h.translate(b, va, access) == plain(h).translate(b, va, access),
{
}

proof fn lemma_plain_load(h: HartModel, b: BusState, f3: u32, base: u64, imm: u64)
    ensures
        ({
            let (h1, b1, r1) = load_value(h, b, f3, base, imm);
            load_value(plain(h), b, f3, base, imm) == (plain(h1), b1, r1)
        }),
{
    reveal(load_value);
    reveal(HartModel::trapped);
}

proof fn lemma_plain_store(h: HartModel, b: BusState, f3: u32, base: u64, imm: u64, value: u64)
    ensures
        ({
            let (h1, b1, r1) = store_value(h, b, f3, base, imm, value);
            store_value(plain(h), b, f3, base, imm, value) == (plain(h1), b1, r1)
        }),
{
    reveal(store_value);
    reveal(HartModel::trapped);
}

proof fn lemma_plain_amo(h: HartModel, b: BusState, i: Instr)
    ensures
        ({
            let (h1, b1, r1) = sem_amo(h, b, i);
            sem_amo(plain(h), b, i) == (plain(h1), b1, r1)
        }),
{
    reveal(sem_amo);
    reveal(sem_lr);
    reveal(sem_sc);
    reveal(sem_amo_rmw);
    reveal(HartModel::trapped);
    lemma_plain_translate(h, b, h.x[i.rs1() as int], Access::Store);
}

proof fn lemma_plain_csr(h: HartModel, i: Instr, source: u64, op: CsrOp)
    ensures
        sem_csr(plain(h), i, source, op) == (
            plain(sem_csr(h, i, source, op).0),
            sem_csr(h, i, source, op).1,
        ),
{
    reveal(sem_csr);
}

pub proof fn lemma_plain_trap(h: HartModel, cause: u64, tval: u64)
    ensures
        plain(h).trapped(cause, tval) == plain(h.trapped(cause, tval)),
{
    reveal(HartModel::trapped);
}

proof fn lemma_plain_return(h: HartModel)
    ensures
        plain(h).returned() == plain(h.returned()),
{
    reveal(HartModel::returned);
}

pub proof fn lemma_plain_pending(h: HartModel)
    ensures
        plain(h).pending() == h.pending(),
{
    reveal(HartModel::pending);
}

proof fn lemma_plain_priv(h: HartModel, i: Instr)
    ensures
        sem_priv(plain(h), i) == (plain(sem_priv(h, i).0), sem_priv(h, i).1),
{
    reveal(sem_priv);
    lemma_plain_trap(h, cause::ECALL_FROM_U, 0);
    lemma_plain_trap(h, cause::BREAKPOINT, h.pc);
    lemma_plain_return(h);
    lemma_plain_pending(h.advanced());
}

proof fn lemma_plain_system(h: HartModel, i: Instr)
    ensures
        sem_system(plain(h), i) == (plain(sem_system(h, i).0), sem_system(h, i).1),
{
    reveal(sem_system);
    lemma_plain_priv(h, i);
    let reg = h.x[i.rs1() as int];
    let imm = i.rs1() as u64;
    lemma_plain_csr(h, i, reg, CsrOp::Write);
    lemma_plain_csr(h, i, reg, CsrOp::SetBits);
    lemma_plain_csr(h, i, reg, CsrOp::ClearBits);
    lemma_plain_csr(h, i, imm, CsrOp::Write);
    lemma_plain_csr(h, i, imm, CsrOp::SetBits);
    lemma_plain_csr(h, i, imm, CsrOp::ClearBits);
}

proof fn lemma_plain_integer(h: HartModel, i: Instr)
    ensures
        sem_op(plain(h), i) == plain(sem_op(h, i)),
        sem_op_imm(plain(h), i) == plain(sem_op_imm(h, i)),
        sem_op_32(plain(h), i) == (plain(sem_op_32(h, i).0), sem_op_32(h, i).1),
        sem_op_imm_32(plain(h), i) == (plain(sem_op_imm_32(h, i).0), sem_op_imm_32(h, i).1),
        sem_branch(plain(h), i) == (plain(sem_branch(h, i).0), sem_branch(h, i).1),
        sem_jal(plain(h), i) == plain(sem_jal(h, i)),
        sem_jalr(plain(h), i) == plain(sem_jalr(h, i)),
{
    reveal(sem_op);
    reveal(sem_op_imm);
    reveal(sem_op_32);
    reveal(sem_op_imm_32);
    reveal(sem_branch);
    reveal(sem_jal);
    reveal(sem_jalr);
}

/// An instruction does the same under every setting of the performance toggles.
pub proof fn law_instructions_ignore_toggles(h: HartModel, b: BusState, raw: u32)
    ensures
        ({
            let (h1, b1, r1) = execute(h, b, raw);
            execute(plain(h), b, raw) == (plain(h1), b1, r1)
        }),
{
    reveal(execute);
    let i = Instr(raw);
    lemma_plain_integer(h, i);
    lemma_plain_system(h, i);
    lemma_plain_amo(h, b, i);
    reveal(sem_load);
    reveal(sem_store);
    lemma_plain_load(h, b, i.funct3(), h.x[i.rs1() as int], i.i_imm());
    lemma_plain_store(
        h,
        b,
        i.funct3(),
        h.x[i.rs1() as int],
        i.s_imm(),
        h.x[i.rs2() as int],
    );
}

proof fn lemma_plain_retire(h: HartModel, b: BusState, raw: u32)
    ensures
        ({
            let (h1, b1, r1) = retire(h, b, raw);
            retire(plain(h), b, raw) == (plain(h1), b1, r1)
        }),
{
    reveal(retire);
    law_instructions_ignore_toggles(h, b, raw);
}

proof fn lemma_plain_fetch(h: HartModel, b: BusState)
    ensures
        ({
            let (h1, b1, r1) = fetch_and_retire(h, b);
            fetch_and_retire(plain(h), b) == (plain(h1), b1, r1)
        }),
{
    reveal(fetch_and_retire);
    reveal(HartModel::trapped);
    lemma_plain_translate(h, b, h.pc, Access::Fetch);
    match h.translate(b, h.pc, Access::Fetch) {
        None => {},
        Some(pa) => {
            let (half, b1) = b.read(pa, 2);
            let (word, b2) = b1.read(pa, 4);
            if let Some(raw) = expansion(half->0 as u16) {
                let h1 = HartModel { ilen: ILEN_COMPRESSED, ..h };
                lemma_plain_retire(remembering(h1, raw), b1, raw);
                assert(plain(remembering(h1, raw)) == remembering(
                    HartModel { ilen: ILEN_COMPRESSED, ..plain(h) },
                    raw,
                ));
            }
            let raw = word->0 as u32;
            let h1 = HartModel { ilen: ILEN_FULL, ..h };
            lemma_plain_retire(remembering(h1, raw), b2, raw);
            assert(plain(remembering(h1, raw)) == remembering(
                HartModel { ilen: ILEN_FULL, ..plain(h) },
                raw,
            ));
        },
    }
}

/// Whether a fetch at the pc leaves the bus as it is: all do but one at the receive register
/// of a UART that has a byte waiting.
pub open spec fn fetch_is_quiet(h: HartModel, b: BusState) -> bool {
    match h.translate(b, h.pc, Access::Fetch) {
        None => true,
        Some(pa) => b.read(pa, 2).1 == b && b.read(pa, 4).1 == b,
    }
}

/// Whether the decode cache's entry for the pc, if it has one, is what a fetch would give, and
/// the fetch that it saves would have taken nothing.
pub open spec fn coherent_at_pc(h: HartModel, b: BusState) -> bool {
    match h.decode {
        None => true,
        Some(c) => match c.lookup(h.get(addr::SATP), h.pc) {
            None => true,
            Some(d) => fetched(h, b, h.pc) == Some(d) && fetch_is_quiet(h, b),
        },
    }
}

/// The decode cache changes only speed: with an entry for the pc that is what a fetch would
/// give, or none, interpreting an instruction leaves what it leaves without the cache.
pub proof fn law_the_decode_cache_changes_only_speed(h: HartModel, b: BusState)
    requires
        coherent_at_pc(h, b),
    ensures
        ({
            let (h1, b1, r1) = interpret(h, b);
            interpret(plain(h), b) == (plain(h1), b1, r1)
        }),
{
    reveal(interpret);
    match h.decode {
        None => {
            lemma_plain_fetch(h, b);
        },
        Some(c) => {
            let satp = h.get(addr::SATP);
            let h1 = HartModel { decode: Some(c.after_lookup(satp, h.pc)), ..h };
            match c.lookup(satp, h.pc) {
                None => {
                    lemma_plain_fetch(h1, b);
                    assert(plain(h1) == plain(h));
                },
                Some(d) => {
                    let hit = HartModel { ilen: d.ilen, ..h1 };
                    lemma_plain_retire(hit, b, d.raw);
                    reveal(fetched);
                    reveal(fetch_and_retire);
                    let pa = h.translate(b, h.pc, Access::Fetch)->0;
                    lemma_read_shows_what_a_peek_does(b, pa, 2);
                    lemma_read_shows_what_a_peek_does(b, pa, 4);
                    lemma_plain_translate(h, b, h.pc, Access::Fetch);
                    let p = plain(h);
                    assert(remembering(HartModel { ilen: d.ilen, ..p }, d.raw) == plain(hit));
                },
            }
        },
    }
}

// Traps.

/// `sret` right after a trap resumes where the trap came: the pc, the privilege and the
/// interrupt enable are as they were, and so are the registers.
pub proof fn law_sret_undoes_a_trap(h: HartModel, cause: u64, tval: u64)
    requires
        h.wf(),
    ensures
        ({
            let r = h.trapped(cause, tval).returned();
            &&& r.pc == h.pc
            &&& r.privilege == h.privilege
            &&& r.get(addr::SSTATUS) & sstatus::SIE == h.get(addr::SSTATUS) & sstatus::SIE
            &&& r.x == h.x
        }),
{
    reveal(HartModel::trapped);
    reveal(HartModel::returned);
    let s = h.get(addr::SSTATUS);
    let sup = h.privilege == Privilege::Supervisor;
    let on = s & 0x2 != 0;
    lemma_status_bits(s, on, sup);
}

proof fn lemma_status_bits(s: u64, on: bool, sup: bool)
    requires
        on == (s & 0x2 != 0),
    ensures
        ({
            let t = with_bit(with_bit(with_bit(s, 0x20, on), 0x2, false), 0x100, sup);
            let r = with_bit(with_bit(with_bit(t, 0x2, t & 0x20 != 0), 0x20, true), 0x100, false);
            &&& (t & 0x100 != 0) == sup
            &&& r & 0x2 == s & 0x2
            &&& t & 0x2 == 0
        }),
{
    assert(on == (s & 0x2 != 0) ==> ({
        let a = if on { s | 0x20 } else { s & !0x20 };
        let b = a & !0x2;
        let t = if sup { b | 0x100 } else { b & !0x100 };
        let c = if t & 0x20 != 0 { t | 0x2 } else { t & !0x2 };
        let d = c | 0x20;
        let r = d & !0x100;
        (t & 0x100 != 0) == sup && r & 0x2 == s & 0x2 && t & 0x2 == 0
    })) by (bit_vector);
}

/// In a trap handler no further interrupt is taken until the handler enables them.
pub proof fn law_a_trap_masks_interrupts(h: HartModel, cause: u64, tval: u64)
    requires
        h.wf(),
    ensures
        h.trapped(cause, tval).pending() is None,
        h.trapped(cause, tval).privilege == Privilege::Supervisor,
{
    reveal(HartModel::trapped);
    reveal(HartModel::pending);
    let s = h.get(addr::SSTATUS);
    lemma_status_bits(s, s & 0x2 != 0, h.privilege == Privilege::Supervisor);
}

// Reservations.

/// A store-conditional right after a load-reserved of the same address succeeds: it writes 0
/// to its destination, and the reservation is gone.
pub proof fn law_sc_after_lr_succeeds(h: HartModel, b: BusState, lr: Instr, sc: Instr, pa: u64)
    requires
        h.wf(),
        sem_lr(h, b, lr, pa).2 is Ok,
        sem_sc(sem_lr(h, b, lr, pa).0, b, sc, pa).2 is Ok,
        sc.rd() != 0,
    ensures
        sem_sc(sem_lr(h, b, lr, pa).0, b, sc, pa).0.x[sc.rd() as int] == 0,
        sem_sc(sem_lr(h, b, lr, pa).0, b, sc, pa).0.reservation is None,
{
    reveal(sem_lr);
    reveal(sem_sc);
}

/// A store to the reserved address breaks the reservation, so that a store-conditional
/// after it fails: it writes 1 to its destination and leaves memory alone.
pub proof fn law_a_store_breaks_the_reservation(
    h: HartModel,
    b: BusState,
    f3: u32,
    base: u64,
    imm: u64,
    value: u64,
    sc: Instr,
    pa: u64,
)
    requires
        h.wf(),
        h.translate(b, word(base + imm), Access::Store) == Some(pa),
        sc.rd() != 0,
    ensures
        ({
            let (h1, b1, _) = store_value(h, b, f3, base, imm, value);
            let (h2, b2, r) = sem_sc(h1, b1, sc, pa);
            &&& h1.reservation != Some(pa)
            &&& r is Ok
            &&& h2.x[sc.rd() as int] == 1
            &&& b2 == b1
        }),
{
    reveal(store_value);
    reveal(sem_sc);
}

// Interrupts.

/// A software interrupt comes before a timer interrupt that is also due.
pub proof fn law_software_interrupts_come_first(h: HartModel)
    requires
        h.software_pending(),
    ensures
        h.pending() == Some(crate::cpu::cause::SUPERVISOR_SOFTWARE),
{
    reveal(HartModel::pending);
}

/// A parked hart with nothing pending does nothing at all.
pub proof fn law_a_parked_hart_stays_parked(h: HartModel, b: BusState)
    requires
        h.run == HartState::Idle,
        h.pending() is None,
    ensures
        step(h, b) == (h, b, Ok::<HartEffect, StepError>(HartEffect::Idle)),
{
    reveal(step);
}

/// A parked hart's timer is due once the clock has reached its deadline.
pub proof fn law_the_deadline_wakes(h: HartModel, now: u64)
    requires
        h.deadline() is Some,
        now >= h.deadline()->0,
    ensures
        (HartModel { cycle: now, ..h }).pending() is Some,
{
    reveal(HartModel::deadline);
    reveal(HartModel::pending);
}

// Collapsed memory operations.

/// Whether a hart is as before but for the clock it last saw.
pub open spec fn unmoved(a: HartModel, b: HartModel) -> bool {
    a == (HartModel { cycle: a.cycle, ..b })
}

/// Whether every hart but `i` stays asleep until the clock has reached `end`.
pub open spec fn all_quiet(m: MachineState, i: int, end: u64) -> bool {
    forall|j: int|
        0 <= j < m.harts.len() && j != i ==> MachineState::quiet(#[trigger] m.harts[j], end)
            && !m.harts[j].software_pending()
}

/// Whether `n` is `m` at another time, its harts not having moved, and hart `i` untouched.
pub open spec fn at_rest(m: MachineState, n: MachineState, i: int) -> bool {
    &&& n == (MachineState { harts: n.harts, time: n.time, ..m })
    &&& n.harts.len() == m.harts.len()
    &&& n.harts[i] == m.harts[i]
    &&& forall|j: int| 0 <= j < m.harts.len() ==> unmoved(#[trigger] n.harts[j], m.harts[j])
}

proof fn lemma_unmoved_is_quiet(a: HartModel, b: HartModel, end: u64)
    requires
        unmoved(a, b),
        MachineState::quiet(b, end),
        !b.software_pending(),
    ensures
        MachineState::quiet(a, end),
        !a.software_pending(),
{
    reveal(HartModel::deadline);
}

proof fn lemma_quiet_turn(m: MachineState, j: int, end: u64)
    requires
        0 <= j < m.harts.len(),
        m.harts[j].run == HartState::Idle,
        MachineState::quiet(m.harts[j], end),
        !m.harts[j].software_pending(),
        m.time <= end < u64::MAX,
    ensures
        m.turn(j, false) == (
            MachineState {
                harts: m.harts.update(j, HartModel { cycle: m.time, ..m.harts[j] }),
                ..m
            },
            Ok::<bool, StepError>(false),
        ),
{
    reveal(MachineState::turn);
    reveal(HartModel::deadline);
    reveal(HartModel::pending);
    let h = HartModel { cycle: m.time, ..m.harts[j] };
    law_a_parked_hart_stays_parked(h, m.bus);
}

proof fn lemma_quiet_peers(m: MachineState, i: int, j: int, end: u64)
    requires
        0 <= i < m.harts.len(),
        0 <= j <= m.harts.len(),
        all_quiet(m, i, end),
        m.time <= end < u64::MAX,
    ensures
        m.peers(i, j).1 == Ok::<(), StepError>(()),
        at_rest(m, m.peers(i, j).0, i),
        m.peers(i, j).0.time == m.time,
    decreases m.harts.len() - j,
{
    if j < m.harts.len() {
        if j == i || m.harts[j].run == HartState::Stopped {
            lemma_quiet_peers(m, i, j + 1, end);
        } else {
            assert(MachineState::quiet(m.harts[j], end));
            lemma_quiet_turn(m, j, end);
            let n = m.turn(j, false).0;
            assert forall|k: int| 0 <= k < n.harts.len() && k != i implies MachineState::quiet(
                #[trigger] n.harts[k],
                end,
            ) && !n.harts[k].software_pending() by {
                assert(MachineState::quiet(m.harts[k], end));
                lemma_unmoved_is_quiet(n.harts[k], m.harts[k], end);
            }
            lemma_quiet_peers(n, i, j + 1, end);
        }
    }
}

/// Where no other hart would wake before a memory operation is over, going through it one
/// instruction at a time is the same as moving the clock to its end: every hart but the one
/// that runs it stays asleep, and nothing but the clock has changed.
pub proof fn law_a_quiet_span_is_a_jump(m: MachineState, i: int, n: u64)
    requires
        0 <= i < m.harts.len(),
        m.time + n < u64::MAX,
        all_quiet(m, i, (m.time + n) as u64),
    ensures
        m.peer_rounds(i, n).1 == Ok::<(), StepError>(()),
        at_rest(m, m.peer_rounds(i, n).0, i),
        m.peer_rounds(i, n).0.time == m.time + n,
        m.collapsed(i, n) == (
            MachineState { time: (m.time + n) as u64, ..m },
            Ok::<(), StepError>(()),
        ),
    decreases n,
{
    reveal(MachineState::collapsed);
    let end = (m.time + n) as u64;
    if n > 0 {
        let t = m.ticked(1);
        assert(all_quiet(t, i, end)) by {
            assert forall|k: int| 0 <= k < t.harts.len() && k != i implies MachineState::quiet(
                #[trigger] t.harts[k],
                end,
            ) && !t.harts[k].software_pending() by {
                assert(MachineState::quiet(m.harts[k], end));
            }
        }
        lemma_quiet_peers(t, i, 0, end);
        let p = t.peers(i, 0).0;
        assert forall|k: int| 0 <= k < p.harts.len() && k != i implies MachineState::quiet(
            #[trigger] p.harts[k],
            end,
        ) && !p.harts[k].software_pending() by {
            assert(unmoved(p.harts[k], t.harts[k]));
            assert(MachineState::quiet(m.harts[k], end));
            lemma_unmoved_is_quiet(p.harts[k], m.harts[k], end);
        }
        law_a_quiet_span_is_a_jump(p, i, (n - 1) as u64);
        let r = p.peer_rounds(i, (n - 1) as u64).0;
        assert forall|k: int| 0 <= k < m.harts.len() implies unmoved(
            #[trigger] r.harts[k],
            m.harts[k],
        ) by {
            assert(unmoved(p.harts[k], t.harts[k]));
        }
    }
}

} // verus!
