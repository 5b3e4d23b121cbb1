//! The block JIT's **reified IR**, its `pc -> block` cache, and the portable executor.
//!
//! A basic block (a straight run of instructions ending at a control-flow instruction or
//! at one that is not lowered) is compiled once into a sequence of plain [`Op`]s whose
//! operands are resolved: register indices, sign-extended immediates, absolute
//! addresses. Executing it walks the ops; a native backend lowers the same ops to
//! machine code. The IR is data, never closures.

use std::sync::Arc;
use vstd::prelude::*;
use crate::alu::{even, to_signed, to_word, word};
use crate::bus::Bus;
use crate::cpu::{Hart, StepError};
use crate::decode::{funct3, funct7, opcode, Instr};
use crate::model::{
    block_slot, lemma_load_ignores_registers, lemma_store_ignores_registers, resumed, run_op,
    run_ops,     BlockCacheState, BlockEntry, Flow, HartModel,
};

pub use crate::alu::{AluOp, Cond};

verus! {

/// How many times an entry pc is interpreted before it is compiled.
pub const HOT_THRESHOLD: u32 = 2;

/// Direct-mapped cache slots, indexed by `pc / 2`.
pub const SLOTS: usize = 16384;

/// One reified IR operation.
#[derive(Clone, Copy, Debug, PartialEq, Eq, Structural)]
pub enum Op {
    /// `x[rd] = alu(x[rs1], imm)`. `rd == 0` is a legal discarded write.
    AluImm { alu: AluOp, rd: u8, rs1: u8, imm: i64 },
    /// `x[rd] = alu(x[rs1], x[rs2])`.
    AluReg { alu: AluOp, rd: u8, rs1: u8, rs2: u8 },
    /// `x[rd] = value`: `LUI`, or `AUIPC` with its absolute value.
    SetImm { rd: u8, value: u64 },
    /// `x[rd] = mem[x[rs1] + imm]` at the width and signedness of `funct3`. Can page
    /// fault: the trap is taken with `sepc = pc` and the block ends.
    Load { funct3: u32, rd: u8, rs1: u8, imm: i64, pc: u64 },
    /// `mem[x[rs1] + imm] = x[rs2]`, truncated to the width of `funct3`. Can page fault
    /// like `Load`.
    Store { funct3: u32, rs1: u8, rs2: u8, imm: i64, pc: u64 },
    /// Block exit: `pc = cond(x[rs1], x[rs2]) ? taken : not_taken`.
    Branch { cond: Cond, rs1: u8, rs2: u8, taken: u64, not_taken: u64 },
    /// Block exit (`JAL`): `x[rd] = link; pc = target`.
    Jump { rd: u8, link: u64, target: u64 },
    /// Block exit (`JALR`): `x[rd] = link; pc = (x[rs1] + imm) & !1`.
    JumpReg { rd: u8, rs1: u8, imm: i64, link: u64 },
}

impl Op {
    /// Whether every register the op names is one of the 32.
    pub open spec fn wf(self) -> bool {
        match self {
            Op::AluImm { alu, rd, rs1, imm } => rd < 32 && rs1 < 32,
            Op::AluReg { alu, rd, rs1, rs2 } => rd < 32 && rs1 < 32 && rs2 < 32,
            Op::SetImm { rd, value } => rd < 32,
            Op::Load { funct3, rd, rs1, imm, pc } => rd < 32 && rs1 < 32,
            Op::Store { funct3, rs1, rs2, imm, pc } => rs1 < 32 && rs2 < 32,
            Op::Branch { cond, rs1, rs2, taken, not_taken } => rs1 < 32 && rs2 < 32,
            Op::Jump { rd, link, target } => rd < 32,
            Op::JumpReg { rd, rs1, imm, link } => rd < 32 && rs1 < 32,
        }
    }
}

/// The result of trying to lower one guest instruction to IR.
#[derive(Clone, Copy, Debug, PartialEq, Eq, Structural)]
pub enum Compiled {
    /// A mid-block op: keep walking to the next instruction.
    Continue(Op),
    /// A block-ending op: append it and stop.
    Terminate(Op),
    /// An instruction that is not lowered. End the block *before* it; the interpreter
    /// runs it.
    Unsupported,
}

// Which operation an arithmetic instruction names.

/// The operation and immediate of an `OP-IMM` instruction. Shifts carry their shift
/// amount, the rest the sign-extended immediate.
pub open spec fn imm_alu(i: Instr) -> (AluOp, u64) {
    let f3 = i.funct3();
    if f3 == funct3::ADD {
        (AluOp::Add, i.i_imm())
    } else if f3 == funct3::SLT {
        (AluOp::Slt, i.i_imm())
    } else if f3 == funct3::SLTU {
        (AluOp::Sltu, i.i_imm())
    } else if f3 == funct3::XOR {
        (AluOp::Xor, i.i_imm())
    } else if f3 == funct3::OR {
        (AluOp::Or, i.i_imm())
    } else if f3 == funct3::AND {
        (AluOp::And, i.i_imm())
    } else if f3 == funct3::SLL {
        (AluOp::Sll, i.shamt6() as u64)
    } else if i.is_alt_op() {
        (AluOp::Sra, i.shamt6() as u64)
    } else {
        (AluOp::Srl, i.shamt6() as u64)
    }
}

/// Decode an `OP-IMM` instruction.
pub fn decode_imm_alu(i: Instr) -> (r: (AluOp, u64))
    ensures
        r == imm_alu(i),
{
    let f3: u32 = i.funct3();
    if f3 == funct3::ADD {
        (AluOp::Add, i.i_imm())
    } else if f3 == funct3::SLT {
        (AluOp::Slt, i.i_imm())
    } else if f3 == funct3::SLTU {
        (AluOp::Sltu, i.i_imm())
    } else if f3 == funct3::XOR {
        (AluOp::Xor, i.i_imm())
    } else if f3 == funct3::OR {
        (AluOp::Or, i.i_imm())
    } else if f3 == funct3::AND {
        (AluOp::And, i.i_imm())
    } else if f3 == funct3::SLL {
        (AluOp::Sll, i.shamt6() as u64)
    } else if i.is_alt_op() {
        (AluOp::Sra, i.shamt6() as u64)
    } else {
        (AluOp::Srl, i.shamt6() as u64)
    }
}

/// The operation of an `OP` (register-register) instruction outside the M extension.
pub open spec fn reg_alu(i: Instr) -> AluOp {
    let f3 = i.funct3();
    if f3 == funct3::ADD {
        if i.is_alt_op() {
            AluOp::Sub
        } else {
            AluOp::Add
        }
    } else if f3 == funct3::SLL {
        AluOp::Sll
    } else if f3 == funct3::SLT {
        AluOp::Slt
    } else if f3 == funct3::SLTU {
        AluOp::Sltu
    } else if f3 == funct3::XOR {
        AluOp::Xor
    } else if f3 == funct3::OR {
        AluOp::Or
    } else if f3 == funct3::AND {
        AluOp::And
    } else if i.is_alt_op() {
        AluOp::Sra
    } else {
        AluOp::Srl
    }
}

/// Decode an `OP` instruction.
pub fn decode_reg_alu(i: Instr) -> (r: AluOp)
    ensures
        r == reg_alu(i),
{
    let f3: u32 = i.funct3();
    if f3 == funct3::ADD {
        if i.is_alt_op() {
            AluOp::Sub
        } else {
            AluOp::Add
        }
    } else if f3 == funct3::SLL {
        AluOp::Sll
    } else if f3 == funct3::SLT {
        AluOp::Slt
    } else if f3 == funct3::SLTU {
        AluOp::Sltu
    } else if f3 == funct3::XOR {
        AluOp::Xor
    } else if f3 == funct3::OR {
        AluOp::Or
    } else if f3 == funct3::AND {
        AluOp::And
    } else if i.is_alt_op() {
        AluOp::Sra
    } else {
        AluOp::Srl
    }
}

/// The operation and immediate of an `OP-IMM-32` (`.w`) instruction.
pub open spec fn imm_alu_32(i: Instr) -> Option<(AluOp, u64)> {
    let f3 = i.funct3();
    if f3 == funct3::ADD {
        Some((AluOp::AddW, i.i_imm()))
    } else if f3 == funct3::SLL {
        Some((AluOp::SllW, i.shamt5() as u64))
    } else if f3 == funct3::SR && i.is_alt_op() {
        Some((AluOp::SraW, i.shamt5() as u64))
    } else if f3 == funct3::SR {
        Some((AluOp::SrlW, i.shamt5() as u64))
    } else {
        None
    }
}

/// Decode an `OP-IMM-32` instruction.
pub fn decode_imm_alu_32(i: Instr) -> (r: Option<(AluOp, u64)>)
    ensures
        r == imm_alu_32(i),
{
    let f3: u32 = i.funct3();
    if f3 == funct3::ADD {
        Some((AluOp::AddW, i.i_imm()))
    } else if f3 == funct3::SLL {
        Some((AluOp::SllW, i.shamt5() as u64))
    } else if f3 == funct3::SR && i.is_alt_op() {
        Some((AluOp::SraW, i.shamt5() as u64))
    } else if f3 == funct3::SR {
        Some((AluOp::SrlW, i.shamt5() as u64))
    } else {
        None
    }
}

/// The operation of an `OP-32` (`.w` register-register) instruction outside the M
/// extension.
pub open spec fn reg_alu_32(i: Instr) -> Option<AluOp> {
    let f3 = i.funct3();
    if f3 == funct3::ADD && i.is_alt_op() {
        Some(AluOp::SubW)
    } else if f3 == funct3::ADD {
        Some(AluOp::AddW)
    } else if f3 == funct3::SLL {
        Some(AluOp::SllW)
    } else if f3 == funct3::SR && i.is_alt_op() {
        Some(AluOp::SraW)
    } else if f3 == funct3::SR {
        Some(AluOp::SrlW)
    } else {
        None
    }
}

/// Decode an `OP-32` instruction.
pub fn decode_reg_alu_32(i: Instr) -> (r: Option<AluOp>)
    ensures
        r == reg_alu_32(i),
{
    let f3: u32 = i.funct3();
    if f3 == funct3::ADD && i.is_alt_op() {
        Some(AluOp::SubW)
    } else if f3 == funct3::ADD {
        Some(AluOp::AddW)
    } else if f3 == funct3::SLL {
        Some(AluOp::SllW)
    } else if f3 == funct3::SR && i.is_alt_op() {
        Some(AluOp::SraW)
    } else if f3 == funct3::SR {
        Some(AluOp::SrlW)
    } else {
        None
    }
}

/// The condition a branch `funct3` names.
pub open spec fn condition(f3: u32) -> Option<Cond> {
    if f3 == funct3::branch::BEQ {
        Some(Cond::Eq)
    } else if f3 == funct3::branch::BNE {
        Some(Cond::Ne)
    } else if f3 == funct3::branch::BLT {
        Some(Cond::Lt)
    } else if f3 == funct3::branch::BGE {
        Some(Cond::Ge)
    } else if f3 == funct3::branch::BLTU {
        Some(Cond::Ltu)
    } else if f3 == funct3::branch::BGEU {
        Some(Cond::Geu)
    } else {
        None
    }
}

/// Map a branch `funct3` to its condition.
pub fn branch_cond(f3: u32) -> (r: Option<Cond>)
    ensures
        r == condition(f3),
{
    if f3 == funct3::branch::BEQ {
        Some(Cond::Eq)
    } else if f3 == funct3::branch::BNE {
        Some(Cond::Ne)
    } else if f3 == funct3::branch::BLT {
        Some(Cond::Lt)
    } else if f3 == funct3::branch::BGE {
        Some(Cond::Ge)
    } else if f3 == funct3::branch::BLTU {
        Some(Cond::Ltu)
    } else if f3 == funct3::branch::BGEU {
        Some(Cond::Geu)
    } else {
        None
    }
}

/// The IR of instruction `raw` of length `ilen` at `pc`.
#[verifier::opaque]
pub open spec fn lowered(raw: u32, ilen: u64, pc: u64) -> Compiled {
    let i = Instr(raw);
    let rd = i.rd() as u8;
    let rs1 = i.rs1() as u8;
    let rs2 = i.rs2() as u8;
    let op = i.opcode();
    if op == opcode::LUI {
        Compiled::Continue(Op::SetImm { rd, value: i.u_imm() })
    } else if op == opcode::AUIPC {
        Compiled::Continue(Op::SetImm { rd, value: word(pc + i.u_imm()) })
    } else if op == opcode::OP_IMM {
        Compiled::Continue(
            Op::AluImm { alu: imm_alu(i).0, rd, rs1, imm: to_signed(imm_alu(i).1) },
        )
    } else if op == opcode::OP && i.funct7() != funct7::MULDIV {
        Compiled::Continue(Op::AluReg { alu: reg_alu(i), rd, rs1, rs2 })
    } else if op == opcode::OP_IMM_32 {
        match imm_alu_32(i) {
            Some((alu, imm)) => Compiled::Continue(
                Op::AluImm { alu, rd, rs1, imm: to_signed(imm) },
            ),
            None => Compiled::Unsupported,
        }
    } else if op == opcode::OP_32 && i.funct7() != funct7::MULDIV {
        match reg_alu_32(i) {
            Some(alu) => Compiled::Continue(Op::AluReg { alu, rd, rs1, rs2 }),
            None => Compiled::Unsupported,
        }
    } else if op == opcode::LOAD && i.funct3() != 7 {
        Compiled::Continue(
            Op::Load { funct3: i.funct3(), rd, rs1, imm: to_signed(i.i_imm()), pc },
        )
    } else if op == opcode::STORE && i.funct3() <= funct3::store::SD {
        Compiled::Continue(
            Op::Store { funct3: i.funct3(), rs1, rs2, imm: to_signed(i.s_imm()), pc },
        )
    } else if op == opcode::JAL {
        Compiled::Terminate(
            Op::Jump { rd, link: word(pc + ilen), target: word(pc + i.j_imm()) },
        )
    } else if op == opcode::JALR && i.funct3() == 0 {
        Compiled::Terminate(
            Op::JumpReg { rd, rs1, imm: to_signed(i.i_imm()), link: word(pc + ilen) },
        )
    } else if op == opcode::BRANCH {
        match condition(i.funct3()) {
            Some(cond) => Compiled::Terminate(
                Op::Branch {
                    cond,
                    rs1,
                    rs2,
                    taken: word(pc + i.b_imm()),
                    not_taken: word(pc + ilen),
                },
            ),
            None => Compiled::Unsupported,
        }
    } else {
        Compiled::Unsupported
    }
}

impl Compiled {
    /// Whether the op, if there is one, names registers that exist.
    pub open spec fn wf(self) -> bool {
        match self {
            Compiled::Continue(op) => op.wf(),
            Compiled::Terminate(op) => op.wf(),
            Compiled::Unsupported => true,
        }
    }
}

/// Lower one already-decoded instruction (`raw`, `ilen`, at absolute `pc`) to IR. Pure:
/// the frontend that both backends share. Branch targets are resolved to absolute
/// addresses here.
pub fn compile_op(raw: u32, ilen: u64, pc: u64) -> (r: Compiled)
    ensures
        r == lowered(raw, ilen, pc),
        r.wf(),
{
    let op: u32 = Instr(raw).opcode();
    if op == opcode::LUI || op == opcode::AUIPC {
        upper_op(raw, ilen, pc)
    } else if op == opcode::OP_IMM {
        alu_imm(raw, ilen, pc)
    } else if op == opcode::OP {
        alu_reg(raw, ilen, pc)
    } else if op == opcode::OP_IMM_32 {
        alu_imm_32(raw, ilen, pc)
    } else if op == opcode::OP_32 {
        alu_reg_32(raw, ilen, pc)
    } else if op == opcode::LOAD {
        load_op(raw, ilen, pc)
    } else if op == opcode::STORE {
        store_op(raw, ilen, pc)
    } else if op == opcode::JAL {
        jump_op(raw, ilen, pc)
    } else if op == opcode::JALR {
        jump_reg_op(raw, ilen, pc)
    } else if op == opcode::BRANCH {
        branch_op(raw, ilen, pc)
    } else {
        proof {
            reveal(lowered);
        }
        Compiled::Unsupported
    }
}

/// Lower `LUI` and `AUIPC`.
#[verifier::spinoff_prover]
#[verifier::rlimit(60)]
fn upper_op(raw: u32, ilen: u64, pc: u64) -> (r: Compiled)
    requires
        Instr(raw).opcode() == opcode::LUI || Instr(raw).opcode() == opcode::AUIPC,
    ensures
        r == lowered(raw, ilen, pc),
        r.wf(),
{
    proof {
        reveal(lowered);
    }
    let i = Instr(raw);
    let rd: u8 = i.rd() as u8;
    if i.opcode() == opcode::LUI {
        Compiled::Continue(Op::SetImm { rd, value: i.u_imm() })
    } else {
        Compiled::Continue(Op::SetImm { rd, value: pc.wrapping_add(i.u_imm()) })
    }
}

/// Lower an `OP-IMM` instruction.
fn alu_imm(raw: u32, ilen: u64, pc: u64) -> (r: Compiled)
    requires
        Instr(raw).opcode() == opcode::OP_IMM,
    ensures
        r == lowered(raw, ilen, pc),
        r.wf(),
{
    proof {
        reveal(lowered);
    }
    let i = Instr(raw);
    let (alu, imm) = decode_imm_alu(i);
    Compiled::Continue(
        Op::AluImm { alu, rd: i.rd() as u8, rs1: i.rs1() as u8, imm: to_signed(imm) },
    )
}

/// Lower an `OP` (register-register) instruction.
fn alu_reg(raw: u32, ilen: u64, pc: u64) -> (r: Compiled)
    requires
        Instr(raw).opcode() == opcode::OP,
    ensures
        r == lowered(raw, ilen, pc),
        r.wf(),
{
    proof {
        reveal(lowered);
    }
    let i = Instr(raw);
    if i.funct7() == funct7::MULDIV {
        return Compiled::Unsupported;
    }
    let alu: AluOp = decode_reg_alu(i);
    Compiled::Continue(
        Op::AluReg { alu, rd: i.rd() as u8, rs1: i.rs1() as u8, rs2: i.rs2() as u8 },
    )
}

/// Lower an `OP-IMM-32` (`.w`) instruction.
fn alu_imm_32(raw: u32, ilen: u64, pc: u64) -> (r: Compiled)
    requires
        Instr(raw).opcode() == opcode::OP_IMM_32,
    ensures
        r == lowered(raw, ilen, pc),
        r.wf(),
{
    proof {
        reveal(lowered);
    }
    let i = Instr(raw);
    match decode_imm_alu_32(i) {
        Some((alu, imm)) => Compiled::Continue(
            Op::AluImm { alu, rd: i.rd() as u8, rs1: i.rs1() as u8, imm: to_signed(imm) },
        ),
        None => Compiled::Unsupported,
    }
}

/// Lower an `OP-32` (`.w` register-register) instruction.
fn alu_reg_32(raw: u32, ilen: u64, pc: u64) -> (r: Compiled)
    requires
        Instr(raw).opcode() == opcode::OP_32,
    ensures
        r == lowered(raw, ilen, pc),
        r.wf(),
{
    proof {
        reveal(lowered);
    }
    let i = Instr(raw);
    if i.funct7() == funct7::MULDIV {
        return Compiled::Unsupported;
    }
    match decode_reg_alu_32(i) {
        Some(alu) => Compiled::Continue(
            Op::AluReg { alu, rd: i.rd() as u8, rs1: i.rs1() as u8, rs2: i.rs2() as u8 },
        ),
        None => Compiled::Unsupported,
    }
}

/// Lower a `LOAD` instruction (a mid-block op that may fault). An unknown width ends the
/// block.
fn load_op(raw: u32, ilen: u64, pc: u64) -> (r: Compiled)
    requires
        Instr(raw).opcode() == opcode::LOAD,
    ensures
        r == lowered(raw, ilen, pc),
        r.wf(),
{
    proof {
        reveal(lowered);
    }
    let i = Instr(raw);
    if i.funct3() <= funct3::load::LWU {
        Compiled::Continue(
            Op::Load {
                funct3: i.funct3(),
                rd: i.rd() as u8,
                rs1: i.rs1() as u8,
                imm: to_signed(i.i_imm()),
                pc,
            },
        )
    } else {
        Compiled::Unsupported
    }
}

/// Lower a `STORE` instruction (a mid-block op that may fault).
fn store_op(raw: u32, ilen: u64, pc: u64) -> (r: Compiled)
    requires
        Instr(raw).opcode() == opcode::STORE,
    ensures
        r == lowered(raw, ilen, pc),
        r.wf(),
{
    proof {
        reveal(lowered);
    }
    let i = Instr(raw);
    if i.funct3() <= funct3::store::SD {
        Compiled::Continue(
            Op::Store {
                funct3: i.funct3(),
                rs1: i.rs1() as u8,
                rs2: i.rs2() as u8,
                imm: to_signed(i.s_imm()),
                pc,
            },
        )
    } else {
        Compiled::Unsupported
    }
}

/// Lower `JAL`.
fn jump_op(raw: u32, ilen: u64, pc: u64) -> (r: Compiled)
    requires
        Instr(raw).opcode() == opcode::JAL,
    ensures
        r == lowered(raw, ilen, pc),
        r.wf(),
{
    proof {
        reveal(lowered);
    }
    let i = Instr(raw);
    Compiled::Terminate(
        Op::Jump {
            rd: i.rd() as u8,
            link: pc.wrapping_add(ilen),
            target: pc.wrapping_add(i.j_imm()),
        },
    )
}

/// Lower `JALR`.
fn jump_reg_op(raw: u32, ilen: u64, pc: u64) -> (r: Compiled)
    requires
        Instr(raw).opcode() == opcode::JALR,
    ensures
        r == lowered(raw, ilen, pc),
        r.wf(),
{
    proof {
        reveal(lowered);
    }
    let i = Instr(raw);
    if i.funct3() != 0 {
        return Compiled::Unsupported;
    }
    Compiled::Terminate(
        Op::JumpReg {
            rd: i.rd() as u8,
            rs1: i.rs1() as u8,
            imm: to_signed(i.i_imm()),
            link: pc.wrapping_add(ilen),
        },
    )
}

/// Lower a `BRANCH` instruction.
fn branch_op(raw: u32, ilen: u64, pc: u64) -> (r: Compiled)
    requires
        Instr(raw).opcode() == opcode::BRANCH,
    ensures
        r == lowered(raw, ilen, pc),
        r.wf(),
{
    proof {
        reveal(lowered);
    }
    let i = Instr(raw);
    match branch_cond(i.funct3()) {
        Some(cond) => Compiled::Terminate(
            Op::Branch {
                cond,
                rs1: i.rs1() as u8,
                rs2: i.rs2() as u8,
                taken: pc.wrapping_add(i.b_imm()),
                not_taken: pc.wrapping_add(ilen),
            },
        ),
        None => Compiled::Unsupported,
    }
}

/// A compiled basic block: a straight sequence of ops. It ends either at an op that sets
/// `pc` itself or by falling through, in which case `pc` is set to `exit_pc`, the address
/// just past the last compiled instruction.
#[derive(Debug)]
pub struct Block {
    ops: Vec<Op>,
    exit_pc: u64,
}

/// What a [`Block`] holds.
pub struct BlockState {
    pub ops: Seq<Op>,
    pub exit_pc: u64,
}

impl View for Block {
    type V = BlockState;

    closed spec fn view(&self) -> BlockState {
        BlockState { ops: self.ops@, exit_pc: self.exit_pc }
    }
}

/// Whether every op names registers that exist.
pub open spec fn ops_wf(ops: Seq<Op>) -> bool {
    forall|i: int| 0 <= i < ops.len() ==> (#[trigger] ops[i]).wf()
}

impl Block {
    pub open spec fn wf(self) -> bool {
        ops_wf(self@.ops)
    }

    pub fn new(ops: Vec<Op>, exit_pc: u64) -> (r: Self)
        ensures
            r@ == (BlockState { ops: ops@, exit_pc }),
    {
        Self { ops, exit_pc }
    }

    pub fn is_empty(&self) -> (r: bool)
        ensures
            r == (self@.ops.len() == 0),
    {
        self.ops.len() == 0
    }

    /// The reified ops, for a native backend to lower.
    pub fn ops(&self) -> (r: &[Op])
        ensures
            r@ == self@.ops,
    {
        self.ops.as_slice()
    }

    /// The fall-through resume pc (used when the block has no terminating op).
    pub fn exit_pc(&self) -> (r: u64)
        ensures
            r == self@.exit_pc,
    {
        self.exit_pc
    }

    /// Execute the block against `hart`/`bus`, returning the number of instructions it
    /// retired. A branch or jump sets `pc` and ends the block; a load or store that page
    /// faults takes the trap and ends it too, so the count can be short of the block's
    /// length. A block without either falls through to `exit_pc`. The two paths are
    /// architecturally identical; register caching only changes speed.
    pub fn exec(&self, hart: &mut Hart, bus: &mut Bus) -> (r: Result<u64, StepError>)
        requires
            self.wf(),
            old(hart).wf(),
            old(bus).wf(),
        ensures
            final(hart).wf(),
            final(bus).wf(),
            (final(hart)@, final(bus)@, r) == run_ops(
                old(hart)@,
                old(bus)@,
                self@.ops,
                self@.exit_pc,
                0,
            ),
    {
        if hart.reg_cache_enabled() {
            self.exec_cached(hart, bus)
        } else {
            self.exec_uncached(hart, bus)
        }
    }

    /// Register-caching executor: copy the register file into a local, run the whole
    /// block against it, and write it back at every exit. Memory ops take and return
    /// values, so they do not need the register file.
    fn exec_cached(&self, hart: &mut Hart, bus: &mut Bus) -> (r: Result<u64, StepError>)
        requires
            self.wf(),
            old(hart).wf(),
            old(bus).wf(),
        ensures
            final(hart).wf(),
            final(bus).wf(),
            (final(hart)@, final(bus)@, r) == run_ops(
                old(hart)@,
                old(bus)@,
                self@.ops,
                self@.exit_pc,
                0,
            ),
    {
        let mut regs: [u64; 32] = hart.registers();
        let n: usize = self.ops.len();
        let ghost goal = run_ops(hart@, bus@, self@.ops, self@.exit_pc, 0);
        let mut i: usize = 0;
        proof {
            assert(regs@ == hart@.x);
        }
        while i < n
            invariant
                i <= n,
                n == self.ops@.len(),
                self.wf(),
                goal == run_ops(old(hart)@, old(bus)@, self@.ops, self@.exit_pc, 0),
                hart.wf(),
                bus.wf(),
                regs@[0] == 0,
                goal == run_ops(
                    (HartModel { x: regs@, ..hart@ }),
                    bus@,
                    self@.ops,
                    self@.exit_pc,
                    i as int,
                ),
            decreases n - i,
        {
            let op: Op = self.ops[i];
            let retired: u64 = i as u64 + 1;
            proof {
                assert(self@.ops[i as int].wf());
                assert(goal == resumed(
                    run_op((HartModel { x: regs@, ..hart@ }), bus@, op),
                    self@.ops,
                    self@.exit_pc,
                    i + 1,
                ));
            }
            match run_cached(op, &mut regs, hart, bus) {
                Flow::Next => {},
                Flow::Stop => {
                    hart.set_registers(regs);
                    return Ok(retired);
                },
                Flow::Fail(e) => {
                    hart.set_registers(regs);
                    return Err(e);
                },
            }
            i += 1;
        }
        hart.set_registers(regs);
        hart.set_pc(self.exit_pc);
        Ok(n as u64)
    }

    /// Through-hart executor: every op reads and writes the register file directly.
    fn exec_uncached(&self, hart: &mut Hart, bus: &mut Bus) -> (r: Result<u64, StepError>)
        requires
            self.wf(),
            old(hart).wf(),
            old(bus).wf(),
        ensures
            final(hart).wf(),
            final(bus).wf(),
            (final(hart)@, final(bus)@, r) == run_ops(
                old(hart)@,
                old(bus)@,
                self@.ops,
                self@.exit_pc,
                0,
            ),
    {
        let n: usize = self.ops.len();
        let ghost goal = run_ops(hart@, bus@, self@.ops, self@.exit_pc, 0);
        let mut i: usize = 0;
        while i < n
            invariant
                i <= n,
                n == self.ops@.len(),
                self.wf(),
                goal == run_ops(old(hart)@, old(bus)@, self@.ops, self@.exit_pc, 0),
                hart.wf(),
                bus.wf(),
                goal == run_ops(hart@, bus@, self@.ops, self@.exit_pc, i as int),
            decreases n - i,
        {
            let op: Op = self.ops[i];
            let retired: u64 = i as u64 + 1;
            proof {
                reveal(run_op);
                assert(self@.ops[i as int].wf());
                assert(goal == resumed(
                    run_op(hart@, bus@, op),
                    self@.ops,
                    self@.exit_pc,
                    i + 1,
                ));
            }
            match op {
                Op::AluImm { alu, rd, rs1, imm } => {
                    let v: u64 = alu.apply(hart.reg(rs1 as usize), to_word(imm));
                    hart.set_reg(rd as usize, v);
                },
                Op::AluReg { alu, rd, rs1, rs2 } => {
                    let v: u64 = alu.apply(hart.reg(rs1 as usize), hart.reg(rs2 as usize));
                    hart.set_reg(rd as usize, v);
                },
                Op::SetImm { rd, value } => {
                    hart.set_reg(rd as usize, value);
                },
                Op::Load { funct3, rd, rs1, imm, pc } => {
                    let base: u64 = hart.reg(rs1 as usize);
                    hart.set_pc(pc);
                    match hart.load_value(bus, funct3, base, to_word(imm)) {
                        Ok(Some(value)) => {
                            hart.set_reg(rd as usize, value);
                        },
                        Ok(None) => {
                            return Ok(retired);
                        },
                        Err(e) => {
                            return Err(e);
                        },
                    }
                },
                Op::Store { funct3, rs1, rs2, imm, pc } => {
                    let base: u64 = hart.reg(rs1 as usize);
                    let value: u64 = hart.reg(rs2 as usize);
                    hart.set_pc(pc);
                    match hart.store_value(bus, funct3, base, to_word(imm), value) {
                        Ok(false) => {},
                        Ok(true) => {
                            return Ok(retired);
                        },
                        Err(e) => {
                            return Err(e);
                        },
                    }
                },
                Op::Branch { cond, rs1, rs2, taken, not_taken } => {
                    let take: bool = cond.eval(hart.reg(rs1 as usize), hart.reg(rs2 as usize));
                    hart.set_pc(
                        if take {
                            taken
                        } else {
                            not_taken
                        },
                    );
                    return Ok(retired);
                },
                Op::Jump { rd, link, target } => {
                    hart.set_reg(rd as usize, link);
                    hart.set_pc(target);
                    return Ok(retired);
                },
                Op::JumpReg { rd, rs1, imm, link } => {
                    let target: u64 = even(hart.reg(rs1 as usize).wrapping_add(to_word(imm)));
                    hart.set_reg(rd as usize, link);
                    hart.set_pc(target);
                    return Ok(retired);
                },
            }
            i += 1;
        }
        hart.set_pc(self.exit_pc);
        Ok(n as u64)
    }
}

/// One op against a local copy of the register file.
fn run_cached(op: Op, regs: &mut [u64; 32], hart: &mut Hart, bus: &mut Bus) -> (r: Flow)
    requires
        op.wf(),
        old(hart).wf(),
        old(bus).wf(),
        old(regs)@[0] == 0,
    ensures
        final(hart).wf(),
        final(bus).wf(),
        final(regs)@[0] == 0,
        run_op((HartModel { x: old(regs)@, ..old(hart)@ }), old(bus)@, op) == (
            HartModel { x: final(regs)@, ..final(hart)@ },
            final(bus)@,
            r,
        ),
{
    proof {
        reveal(run_op);
    }
    match op {
        Op::AluImm { alu, rd, rs1, imm } => {
            let v: u64 = alu.apply(regs[rs1 as usize], to_word(imm));
            write_reg(regs, rd, v);
            Flow::Next
        },
        Op::AluReg { alu, rd, rs1, rs2 } => {
            let v: u64 = alu.apply(regs[rs1 as usize], regs[rs2 as usize]);
            write_reg(regs, rd, v);
            Flow::Next
        },
        Op::SetImm { rd, value } => {
            write_reg(regs, rd, value);
            Flow::Next
        },
        Op::Load { funct3, rd, rs1, imm, pc } => load_cached(op, regs, hart, bus),
        Op::Store { funct3, rs1, rs2, imm, pc } => store_cached(op, regs, hart, bus),
        Op::Branch { cond, rs1, rs2, taken, not_taken } => {
            if cond.eval(regs[rs1 as usize], regs[rs2 as usize]) {
                hart.set_pc(taken);
            } else {
                hart.set_pc(not_taken);
            }
            Flow::Stop
        },
        Op::Jump { rd, link, target } => {
            write_reg(regs, rd, link);
            hart.set_pc(target);
            Flow::Stop
        },
        Op::JumpReg { rd, rs1, imm, link } => {
            // The target is read before rd is written: they may be the same.
            let target: u64 = even(regs[rs1 as usize].wrapping_add(to_word(imm)));
            write_reg(regs, rd, link);
            hart.set_pc(target);
            Flow::Stop
        },
    }
}

/// A load against a local copy of the register file. The pc is set first, so that a page
/// fault's trap reports this instruction and not the block's entry.
fn load_cached(op: Op, regs: &mut [u64; 32], hart: &mut Hart, bus: &mut Bus) -> (r: Flow)
    requires
        op.wf(),
        op is Load,
        old(hart).wf(),
        old(bus).wf(),
        old(regs)@[0] == 0,
    ensures
        final(hart).wf(),
        final(bus).wf(),
        final(regs)@[0] == 0,
        run_op((HartModel { x: old(regs)@, ..old(hart)@ }), old(bus)@, op) == (
            HartModel { x: final(regs)@, ..final(hart)@ },
            final(bus)@,
            r,
        ),
{
    proof {
        reveal(run_op);
    }
    if let Op::Load { funct3, rd, rs1, imm, pc } = op {
        hart.set_pc(pc);
        let base: u64 = regs[rs1 as usize];
        let off: u64 = to_word(imm);
        proof {
            lemma_load_ignores_registers(hart@, bus@, funct3, base, off, regs@);
        }
        match hart.load_value(bus, funct3, base, off) {
            Ok(Some(value)) => {
                write_reg(regs, rd, value);
                Flow::Next
            },
            Ok(None) => Flow::Stop,
            Err(e) => Flow::Fail(e),
        }
    } else {
        Flow::Next
    }
}

/// A store against a local copy of the register file.
fn store_cached(op: Op, regs: &mut [u64; 32], hart: &mut Hart, bus: &mut Bus) -> (r: Flow)
    requires
        op.wf(),
        op is Store,
        old(hart).wf(),
        old(bus).wf(),
        old(regs)@[0] == 0,
    ensures
        final(hart).wf(),
        final(bus).wf(),
        final(regs)@[0] == 0,
        run_op((HartModel { x: old(regs)@, ..old(hart)@ }), old(bus)@, op) == (
            HartModel { x: final(regs)@, ..final(hart)@ },
            final(bus)@,
            r,
        ),
{
    proof {
        reveal(run_op);
    }
    if let Op::Store { funct3, rs1, rs2, imm, pc } = op {
        hart.set_pc(pc);
        let base: u64 = regs[rs1 as usize];
        let value: u64 = regs[rs2 as usize];
        let off: u64 = to_word(imm);
        proof {
            lemma_store_ignores_registers(hart@, bus@, funct3, base, off, value, regs@);
        }
        match hart.store_value(bus, funct3, base, off, value) {
            Ok(false) => Flow::Next,
            Ok(true) => Flow::Stop,
            Err(e) => Flow::Fail(e),
        }
    } else {
        Flow::Next
    }
}

/// Write a register of a local copy, keeping `x0` zero.
fn write_reg(regs: &mut [u64; 32], rd: u8, value: u64)
    requires
        rd < 32,
    ensures
        final(regs)@ == if rd == 0 {
            old(regs)@
        } else {
            old(regs)@.update(rd as int, value)
        },
{
    if rd != 0 {
        regs[rd as usize] = value;
    }
}

/// Another handle on a compiled block. Wraps `Arc::clone`, whose result points at the same
/// value as its argument.
#[verifier::external_body]
pub(crate) fn share(block: &Arc<Block>) -> (r: Arc<Block>)
    ensures
        r == block,
{
    Arc::clone(block)
}

/// What a cache slot holds for its pc: nothing, a visit count, or a compiled block (shared,
/// so that a lookup is cheap).
enum Entry {
    Empty,
    Hot(u32),
    Compiled(Arc<Block>),
}

/// One direct-mapped slot: the epoch it was written in (for flushing at once), the full pc
/// as a tag, and its entry.
struct Slot {
    epoch: u64,
    tag: u64,
    entry: Entry,
}

/// A per-hart `pc -> compiled block` cache with hotness tiering, direct-mapped. Emptied on
/// a `satp` write and on `sfence.vma`.
pub struct BlockCache {
    /// Slots of an earlier epoch are stale; the initial slots are of epoch 0.
    epoch: u64,
    slots: Vec<Slot>,
    hits: u64,
}

impl View for BlockCache {
    type V = BlockCacheState;

    closed spec fn view(&self) -> BlockCacheState {
        BlockCacheState {
            entries: Map::new(
                |pc: u64|
                    {
                        let slot = self.slots@[block_slot(pc)];
                        slot.epoch == self.epoch && slot.tag == pc && !(slot.entry is Empty)
                    },
                |pc: u64|
                    match self.slots@[block_slot(pc)].entry {
                        Entry::Hot(n) => BlockEntry::Hot(n),
                        Entry::Compiled(block) => BlockEntry::Compiled(block@),
                        Entry::Empty => arbitrary(),
                    },
            ),
            hits: self.hits,
        }
    }
}

impl Clone for BlockCache {
    fn clone(&self) -> (r: Self)
        ensures
            r@ == self@,
            self.wf() ==> r.wf(),
    {
        let mut slots: Vec<Slot> = Vec::new();
        let mut i: usize = 0;
        while i < self.slots.len()
            invariant
                i <= self.slots@.len(),
                slots@.len() == i,
                forall|j: int| 0 <= j < i ==> slots@[j] == self.slots@[j],
            decreases self.slots@.len() - i,
        {
            let s: &Slot = &self.slots[i];
            let entry: Entry = match &s.entry {
                Entry::Empty => Entry::Empty,
                Entry::Hot(n) => Entry::Hot(*n),
                Entry::Compiled(block) => Entry::Compiled(share(block)),
            };
            slots.push(Slot { epoch: s.epoch, tag: s.tag, entry });
            i += 1;
        }
        proof {
            assert(slots@ =~= self.slots@);
        }
        BlockCache { epoch: self.epoch, slots, hits: self.hits }
    }
}

impl Default for BlockCache {
    fn default() -> (r: Self)
        ensures
            r.wf(),
            r@ == BlockCacheState::cold(),
    {
        let slots: Vec<Slot> = empty_slots();
        let r = Self { epoch: 1, slots, hits: 0 };
        proof {
            assert(r@.entries =~= Map::<u64, BlockEntry>::empty());
        }
        r
    }
}

/// As many slots as the cache has, all empty.
fn empty_slots() -> (slots: Vec<Slot>)
    ensures
        slots@.len() == SLOTS,
        forall|j: int|
            0 <= j < SLOTS ==> (#[trigger] slots@[j]).epoch == 0 && slots@[j].entry is Empty,
{
    let mut slots: Vec<Slot> = Vec::with_capacity(SLOTS);
    while slots.len() < SLOTS
        invariant
            slots@.len() <= SLOTS,
            forall|j: int|
                0 <= j < slots@.len() ==> (#[trigger] slots@[j]).epoch == 0 && slots@[j].entry
                    is Empty,
        decreases SLOTS - slots.len(),
    {
        slots.push(Slot { epoch: 0, tag: 0, entry: Entry::Empty });
    }
    slots
}

impl BlockCache {
    /// Every slot is there, none is of an epoch to come, and every compiled block is
    /// well-formed.
    pub closed spec fn wf(self) -> bool {
        &&& self.slots@.len() == SLOTS
        &&& self.epoch >= 1
        &&& forall|i: int|
            0 <= i < SLOTS ==> (#[trigger] self.slots@[i]).epoch <= self.epoch && match self.slots@[i].entry {
                Entry::Compiled(block) => block.wf(),
                _ => true,
            }
    }

    fn index(pc: u64) -> (r: usize)
        ensures
            r == block_slot(pc),
            r < SLOTS,
    {
        (pc / 2 % SLOTS as u64) as usize
    }

    /// The compiled block at `pc`, or `None` if the slot holds no live compiled block for
    /// this exact pc. Counts a hit.
    pub fn get(&mut self, pc: u64) -> (r: Option<Arc<Block>>)
        requires
            old(self).wf(),
        ensures
            final(self).wf(),
            final(self)@ == old(self)@.after_lookup(pc),
            match old(self)@.compiled(pc) {
                Some(block) => r is Some && r->0@ == block && r->0.wf(),
                None => r is None,
            },
    {
        let slot: &Slot = &self.slots[Self::index(pc)];
        if slot.epoch == self.epoch && slot.tag == pc {
            match &slot.entry {
                Entry::Compiled(block) => {
                    let found: Arc<Block> = share(block);
                    self.hits = self.hits.wrapping_add(1);
                    proof {
                        assert(self@.entries =~= old(self)@.entries);
                    }
                    return Some(found);
                },
                _ => {},
            }
        }
        None
    }

    /// Count a cold interpretation of entry `pc` (called only after `get` missed); `true`
    /// on the visit that crosses the hotness threshold. A miss or an eviction restarts the
    /// count at 1.
    pub fn record_hot(&mut self, pc: u64) -> (r: bool)
        requires
            old(self).wf(),
        ensures
            final(self).wf(),
            final(self)@ == old(self)@.with(pc, BlockEntry::Hot(old(self)@.heat(pc))),
            r == (old(self)@.heat(pc) >= HOT_THRESHOLD),
    {
        let i: usize = Self::index(pc);
        let slot: &Slot = &self.slots[i];
        let count: u32 = match &slot.entry {
            Entry::Hot(n) => if slot.epoch == self.epoch && slot.tag == pc {
                n.saturating_add(1)
            } else {
                1
            },
            _ => 1,
        };
        self.slots[i] = Slot { epoch: self.epoch, tag: pc, entry: Entry::Hot(count) };
        proof {
            assert(self@.entries =~= old(self)@.with(pc, BlockEntry::Hot(count)).entries);
        }
        count >= HOT_THRESHOLD
    }

    pub fn insert(&mut self, pc: u64, block: Arc<Block>)
        requires
            old(self).wf(),
            block.wf(),
        ensures
            final(self).wf(),
            final(self)@ == old(self)@.with(pc, BlockEntry::Compiled(block@)),
    {
        let i: usize = Self::index(pc);
        self.slots[i] = Slot { epoch: self.epoch, tag: pc, entry: Entry::Compiled(block) };
        proof {
            assert(self@.entries =~= old(self)@.with(pc, BlockEntry::Compiled(block@)).entries);
        }
    }

    /// Invalidate every slot: the guest invalidated translations, so compiled code is
    /// stale.
    pub fn flush(&mut self)
        requires
            old(self).wf(),
        ensures
            final(self).wf(),
            final(self)@ == old(self)@.flushed(),
    {
        if self.epoch == u64::MAX {
            self.slots = empty_slots();
            self.epoch = 1;
        } else {
            self.epoch = self.epoch + 1;
        }
        proof {
            assert(self@.entries =~= Map::<u64, BlockEntry>::empty());
        }
    }

    /// Lookups that found a compiled block.
    pub fn hits(&self) -> (r: u64)
        ensures
            r == self@.hits,
    {
        self.hits
    }
}

} // verus!
