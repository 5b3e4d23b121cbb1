//! Why native code computes its block: the host registers follow the guest registers they
//! stand for, op by op.

use vstd::prelude::*;
use crate::alu::{even, signed, to_word, word, AluOp, Cond};
use crate::block::{ops_wf, Op};
use crate::bus::BusState;
use crate::cpu::StepError;
use crate::model::{run_op, run_ops, Flow, HartModel};
use super::host::{
    entry_state, hrun, hstep, host_result, lemma_hrun_concat, lemma_hrun_one, with_lane, HostOp,
    HostState, Insn, XZR,
};
use super::{
    alu_base, body_code, compilable, cond_code, dirty_set, emittable, ended, ends, epilogue_code,
    host_map, imm_code, lemma_host_map_bounds, lemma_host_map_injective, lemma_sets_grow, live,
    native_result, op_code, prologue_code, rank, read_set, reads, tail_code, used_set, writes, PC,
    POOL_SIZE, REGS, SA, SB,
};

verus! {

/// Guest register `rd` set to `v`; writes to `x0` are discarded.
pub open spec fn written(x: Seq<u64>, rd: u8, v: u64) -> Seq<u64> {
    if rd == 0 {
        x
    } else {
        x.update(rd as int, v)
    }
}

/// The guest registers after an op without memory access.
pub open spec fn effect(x: Seq<u64>, op: Op) -> Seq<u64> {
    match op {
        Op::AluImm { alu, rd, rs1, imm } => written(
            x,
            rd,
            alu.result(x[rs1 as int], to_word(imm)),
        ),
        Op::AluReg { alu, rd, rs1, rs2 } => written(
            x,
            rd,
            alu.result(x[rs1 as int], x[rs2 as int]),
        ),
        Op::SetImm { rd, value } => written(x, rd, value),
        Op::Jump { rd, link, target } => written(x, rd, link),
        Op::JumpReg { rd, rs1, imm, link } => written(x, rd, link),
        _ => x,
    }
}

/// Where a block-ending op goes.
pub open spec fn target(x: Seq<u64>, op: Op) -> u64 {
    match op {
        Op::Branch { cond, rs1, rs2, taken, not_taken } => if cond.holds(
            x[rs1 as int],
            x[rs2 as int],
        ) {
            taken
        } else {
            not_taken
        },
        Op::Jump { rd, link, target } => target,
        Op::JumpReg { rd, rs1, imm, link } => even(word(x[rs1 as int] + to_word(imm))),
        _ => 0,
    }
}

/// The guest registers after the first `n` ops.
pub open spec fn effects(x: Seq<u64>, ops: Seq<Op>, n: int) -> Seq<u64>
    decreases n,
{
    if n <= 0 {
        x
    } else {
        effect(effects(x, ops, n - 1), ops[n - 1])
    }
}

/// Whether only the last op may end the block, as in every block that was discovered from
/// guest code.
pub open spec fn block_shaped(ops: Seq<Op>) -> bool {
    forall|i: int| 0 <= i < ops.len() - 1 ==> !ends(#[trigger] ops[i])
}

/// Where a block goes.
pub open spec fn exit_of(x: Seq<u64>, ops: Seq<Op>, exit_pc: u64) -> u64 {
    if ops.len() > 0 && ends(ops.last()) {
        target(effects(x, ops, ops.len() - 1), ops.last())
    } else {
        exit_pc
    }
}

proof fn lemma_effects_shape(x: Seq<u64>, ops: Seq<Op>, n: int)
    requires
        x.len() == 32,
        x[0] == 0,
        ops_wf(ops),
        0 <= n <= ops.len(),
    ensures
        effects(x, ops, n).len() == 32,
        effects(x, ops, n)[0] == 0,
    decreases n,
{
    if n > 0 {
        lemma_effects_shape(x, ops, n - 1);
        assert(ops[n - 1].wf());
    }
}

/// An op without memory access changes registers, and pc where it ends the block.
proof fn lemma_run_op(h: HartModel, b: BusState, op: Op)
    requires
        emittable(op),
    ensures
        run_op(h, b, op) == (
            HartModel {
                x: effect(h.x, op),
                pc: if ends(op) {
                    target(h.x, op)
                } else {
                    h.pc
                },
                ..h
            },
            b,
            if ends(op) {
                Flow::Stop
            } else {
                Flow::Next
            },
        ),
{
    reveal(run_op);
}

/// The portable executor on a block without memory access.
proof fn lemma_run_ops(h: HartModel, b: BusState, x: Seq<u64>, ops: Seq<Op>, exit_pc: u64, k: int)
    requires
        0 <= k <= ops.len(),
        ops.len() <= 0xffff,
        forall|i: int| 0 <= i < ops.len() ==> emittable(#[trigger] ops[i]),
        block_shaped(ops),
        k > 0 ==> !ends(ops[k - 1]) || k < ops.len(),
    ensures
        run_ops(HartModel { x: effects(x, ops, k), ..h }, b, ops, exit_pc, k) == (
            HartModel {
                x: effects(x, ops, ops.len() as int),
                pc: exit_of(x, ops, exit_pc),
                ..h
            },
            b,
            Ok::<u64, StepError>(ops.len() as u64),
        ),
    decreases ops.len() - k,
{
    let here = HartModel { x: effects(x, ops, k), ..h };
    if k < ops.len() {
        assert(emittable(ops[k]));
        lemma_run_op(here, b, ops[k]);
        assert(effects(x, ops, k + 1) == effect(effects(x, ops, k), ops[k]));
        if ends(ops[k]) {
            assert(k == ops.len() - 1);
            assert(ops.last() == ops[k]);
        } else {
            lemma_run_ops(h, b, x, ops, exit_pc, k + 1);
        }
    } else {
        if ops.len() > 0 {
            assert(ops.last() == ops[k - 1]);
        }
    }
}

/// Four instructions, one after the other.
proof fn lemma_hrun_four(s: HostState, a: Insn, b: Insn, c: Insn, d: Insn)
    ensures
        hrun(s, seq![a, b, c, d]) == hstep(hstep(hstep(hstep(s, a), b), c), d),
{
    let abcd = seq![a, b, c, d];
    assert(abcd =~= seq![a] + seq![b] + seq![c] + seq![d]);
    lemma_hrun_one(s, a);
    lemma_hrun_concat(s, seq![a], seq![b]);
    lemma_hrun_one(hstep(s, a), b);
    lemma_hrun_concat(s, seq![a] + seq![b], seq![c]);
    lemma_hrun_one(hstep(hstep(s, a), b), c);
    lemma_hrun_concat(s, seq![a] + seq![b] + seq![c], seq![d]);
    lemma_hrun_one(hstep(hstep(hstep(s, a), b), c), d);
}

/// The four lanes put a constant together.
proof fn lemma_lanes(v: u64)
    ensures
        ({
            let a = ((v % 0x1_0000) as u16) as u64;
            let b = with_lane(a, (v / 0x1_0000 % 0x1_0000) as u16, 1);
            let c = with_lane(b, (v / 0x1_0000_0000 % 0x1_0000) as u16, 2);
            let d = with_lane(c, (v / 0x1_0000_0000_0000) as u16, 3);
            d == v
        }),
{
    let a = ((v % 0x1_0000) as u16) as u64;
    let b = with_lane(a, (v / 0x1_0000 % 0x1_0000) as u16, 1);
    assert(b == v % 0x1_0000_0000);
    let c = with_lane(b, (v / 0x1_0000_0000 % 0x1_0000) as u16, 2);
    assert(c == v % 0x1_0000_0000_0000);
}

/// A materialised constant.
proof fn lemma_imm(s: HostState, xd: u32, v: u64)
    requires
        s.wf(),
        xd < XZR,
    ensures
        hrun(s, imm_code(xd, v)) == s.set(xd, v),
{
    let i0 = Insn::Movz { xd, imm: (v % 0x1_0000) as u16 };
    let i1 = Insn::Movk { xd, imm: (v / 0x1_0000 % 0x1_0000) as u16, hw: 1 };
    let i2 = Insn::Movk { xd, imm: (v / 0x1_0000_0000 % 0x1_0000) as u16, hw: 2 };
    let i3 = Insn::Movk { xd, imm: (v / 0x1_0000_0000_0000) as u16, hw: 3 };
    lemma_hrun_four(s, i0, i1, i2, i3);
    lemma_lanes(v);
    let k = xd as int;
    let s0 = hstep(s, i0);
    let s1 = hstep(s0, i1);
    let s2 = hstep(s1, i2);
    let s3 = hstep(s2, i3);
    assert(s1.x[k] == with_lane(s0.x[k], (v / 0x1_0000 % 0x1_0000) as u16, 1));
    assert(s2.x[k] == with_lane(s1.x[k], (v / 0x1_0000_0000 % 0x1_0000) as u16, 2));
    assert(s3.x[k] == with_lane(s2.x[k], (v / 0x1_0000_0000_0000) as u16, 3));
    assert(s3.x =~= s.x.update(k, v));
}

/// The host operation computes what the guest operation does.
proof fn lemma_alu(alu: AluOp, a: u64, b: u64)
    requires
        alu_base(alu) is Some,
    ensures
        host_result(alu_base(alu)->0, a, b) == alu.result(a, b),
{
    reveal(AluOp::result);
}

/// After a comparison, the host condition holds exactly when the branch condition does.
proof fn lemma_condition(s: HostState, xn: u32, xm: u32, cond: Cond)
    ensures
        hstep(s, Insn::Cmp { xn, xm }).cond(cond_code(cond)) == cond.holds(s.get(xn), s.get(xm)),
{
    reveal(Cond::holds);
    let (a, b) = (s.get(xn), s.get(xm));
    let d = signed(a) - signed(b);
    assert(word(a - b) == word(d)) by {
        assert(d == a - b || d == a - b + 0x1_0000_0000_0000_0000 || d == a - b
            - 0x1_0000_0000_0000_0000);
    }
}

/// The state of the host in the middle of a block: the guest registers that were read or
/// written so far are in their host registers, and the register file is as it was.
pub open spec fn tracks(
    s: HostState,
    x0: Seq<u64>,
    x: Seq<u64>,
    used: Seq<bool>,
    known: Seq<bool>,
) -> bool {
    &&& s.wf()
    &&& s.mem == x0
    &&& s.x[REGS as int] == 0
    &&& forall|g: int|
        0 < g < 32 && #[trigger] known[g] ==> used[g] && s.x[host_map(used)[g] as int] == x[g]
}

/// Writing a used guest register.
proof fn lemma_tracks_write(
    s: HostState,
    x0: Seq<u64>,
    x: Seq<u64>,
    used: Seq<bool>,
    known: Seq<bool>,
    rd: int,
    v: u64,
)
    requires
        used.len() == 32,
        known.len() == 32,
        x.len() == 32,
        rank(used, 32) <= POOL_SIZE,
        tracks(s, x0, x, used, known),
        0 < rd < 32,
        used[rd],
    ensures
        tracks(s.set(host_map(used)[rd], v), x0, x.update(rd, v), used, known.update(rd, true)),
{
    lemma_host_map_bounds(used);
    let m = host_map(used);
    let t = s.set(m[rd], v);
    assert(m[rd] < 32);
    assert forall|g: int| 0 < g < 32 && #[trigger] known.update(rd, true)[g] implies used[g]
        && t.x[m[g] as int] == x.update(rd, v)[g] by {
        if g != rd {
            assert(known[g]);
            assert(m[g] < 32);
            if g < rd {
                lemma_host_map_injective(used, g, rd);
            } else {
                lemma_host_map_injective(used, rd, g);
            }
        }
    }
}

/// Writing a scratch register.
proof fn lemma_tracks_scratch(
    s: HostState,
    x0: Seq<u64>,
    x: Seq<u64>,
    used: Seq<bool>,
    known: Seq<bool>,
    r: u32,
    v: u64,
)
    requires
        used.len() == 32,
        rank(used, 32) <= POOL_SIZE,
        tracks(s, x0, x, used, known),
        r == SA || r == SB,
    ensures
        tracks(s.set(r, v), x0, x, used, known),
{
    lemma_host_map_bounds(used);
    let m = host_map(used);
    let t = s.set(r, v);
    assert forall|g: int| 0 < g < 32 && #[trigger] known[g] implies used[g] && t.x[m[g] as int]
        == x[g] by {
        assert(m[g] < 32);
    }
}

/// What a source register reads as.
proof fn lemma_source(
    s: HostState,
    x0: Seq<u64>,
    x: Seq<u64>,
    used: Seq<bool>,
    known: Seq<bool>,
    r: int,
)
    requires
        used.len() == 32,
        rank(used, 32) <= POOL_SIZE,
        !used[0],
        x[0] == 0,
        tracks(s, x0, x, used, known),
        0 <= r < 32,
        r == 0 || known[r],
    ensures
        s.get(host_map(used)[r]) == x[r],
{
    lemma_host_map_bounds(used);
    if r != 0 {
        assert(known[r]);
        assert(used[r]);
        assert(host_map(used)[r] <= 15);
    }
}

/// Clearing the lowest bit.
proof fn lemma_clear_low_bit(t: u64)
    ensures
        t & 0xffff_ffff_ffff_fffe == even(t),
{
    assert(t & 0xffff_ffff_ffff_fffe == t - t % 2) by (bit_vector);
}

/// One op: the host registers go on following the guest registers, and a block-ending op
/// leaves its target in the scratch register.
proof fn lemma_op(
    s: HostState,
    x0: Seq<u64>,
    x: Seq<u64>,
    used: Seq<bool>,
    known: Seq<bool>,
    op: Op,
)
    requires
        used.len() == 32,
        known.len() == 32,
        x.len() == 32,
        x[0] == 0,
        !used[0],
        rank(used, 32) <= POOL_SIZE,
        tracks(s, x0, x, used, known),
        op.wf(),
        emittable(op),
        forall|g: int| 0 < g < 32 && reads(op, g) ==> #[trigger] known[g],
        forall|g: int| 0 < g < 32 && writes(op, g) ==> #[trigger] used[g],
    ensures
        ({
            let t = hrun(s, op_code(host_map(used), op));
            &&& forall|k2: Seq<bool>|
                k2.len() == 32 && (forall|g: int|
                    0 < g < 32 && #[trigger] k2[g] ==> known[g] || writes(op, g))
                    ==> #[trigger] tracks(t, x0, effect(x, op), used, k2)
            &&& ends(op) ==> t.x[SA as int] == target(x, op)
        }),
{
    let m = host_map(used);
    lemma_host_map_bounds(used);
    let t = hrun(s, op_code(m, op));
    match op {
        Op::SetImm { rd, value } => {
            if rd != 0 {
                lemma_imm(s, m[rd as int], value);
                assert(used[rd as int]);
                lemma_tracks_write(s, x0, x, used, known, rd as int, value);
                lemma_weaken(t, x0, effect(x, op), used, known.update(rd as int, true), op, known);
            } else {
                lemma_weaken(t, x0, effect(x, op), used, known, op, known);
            }
        },
        Op::AluImm { alu, rd, rs1, imm } => {
            if rd != 0 {
                let i = Insn::Alu {
                    op: alu_base(alu)->0,
                    xd: m[rd as int],
                    xn: m[rs1 as int],
                    xm: SA,
                };
                lemma_hrun_concat(s, imm_code(SA, to_word(imm)), seq![i]);
                lemma_imm(s, SA, to_word(imm));
                let s1 = s.set(SA, to_word(imm));
                lemma_hrun_one(s1, i);
                lemma_tracks_scratch(s, x0, x, used, known, SA, to_word(imm));
                if rs1 != 0 {
                    assert(known[rs1 as int]);
                }
                lemma_source(s1, x0, x, used, known, rs1 as int);
                lemma_alu(alu, x[rs1 as int], to_word(imm));
                assert(s1.get(SA) == to_word(imm));
                assert(used[rd as int]);
                lemma_tracks_write(
                    s1,
                    x0,
                    x,
                    used,
                    known,
                    rd as int,
                    alu.result(x[rs1 as int], to_word(imm)),
                );
                lemma_weaken(t, x0, effect(x, op), used, known.update(rd as int, true), op, known);
            } else {
                lemma_weaken(t, x0, effect(x, op), used, known, op, known);
            }
        },
        Op::AluReg { alu, rd, rs1, rs2 } => {
            if rd != 0 {
                let i = Insn::Alu {
                    op: alu_base(alu)->0,
                    xd: m[rd as int],
                    xn: m[rs1 as int],
                    xm: m[rs2 as int],
                };
                lemma_hrun_one(s, i);
                if rs1 != 0 {
                    assert(known[rs1 as int]);
                }
                if rs2 != 0 {
                    assert(known[rs2 as int]);
                }
                lemma_source(s, x0, x, used, known, rs1 as int);
                lemma_source(s, x0, x, used, known, rs2 as int);
                lemma_alu(alu, x[rs1 as int], x[rs2 as int]);
                assert(used[rd as int]);
                lemma_tracks_write(
                    s,
                    x0,
                    x,
                    used,
                    known,
                    rd as int,
                    alu.result(x[rs1 as int], x[rs2 as int]),
                );
                lemma_weaken(t, x0, effect(x, op), used, known.update(rd as int, true), op, known);
            } else {
                lemma_weaken(t, x0, effect(x, op), used, known, op, known);
            }
        },
        Op::Branch { cond, rs1, rs2, taken, not_taken } => {
            let c = Insn::Cmp { xn: m[rs1 as int], xm: m[rs2 as int] };
            let d = Insn::Csel { xd: SA, xn: SA, xm: SB, cond: cond_code(cond) };
            let p1 = seq![c];
            let p2 = p1 + imm_code(SA, taken);
            let p3 = p2 + imm_code(SB, not_taken);
            if rs1 != 0 {
                assert(known[rs1 as int]);
            }
            if rs2 != 0 {
                assert(known[rs2 as int]);
            }
            lemma_source(s, x0, x, used, known, rs1 as int);
            lemma_source(s, x0, x, used, known, rs2 as int);
            lemma_hrun_one(s, c);
            lemma_condition(s, m[rs1 as int], m[rs2 as int], cond);
            let s1 = hstep(s, c);
            assert(tracks(s1, x0, x, used, known));
            lemma_hrun_concat(s, p1, imm_code(SA, taken));
            lemma_imm(s1, SA, taken);
            let s2 = s1.set(SA, taken);
            lemma_tracks_scratch(s1, x0, x, used, known, SA, taken);
            lemma_hrun_concat(s, p2, imm_code(SB, not_taken));
            lemma_imm(s2, SB, not_taken);
            let s3 = s2.set(SB, not_taken);
            lemma_tracks_scratch(s2, x0, x, used, known, SB, not_taken);
            lemma_hrun_concat(s, p3, seq![d]);
            lemma_hrun_one(s3, d);
            assert(s3.cond(cond_code(cond)) == s1.cond(cond_code(cond)));
            lemma_tracks_scratch(s3, x0, x, used, known, SA, target(x, op));
            assert(t == s3.set(SA, target(x, op)));
            lemma_weaken(t, x0, effect(x, op), used, known, op, known);
        },
        Op::Jump { rd, link, target } => {
            if rd == 0 {
                assert(op_code(m, op) =~= imm_code(SA, target));
                lemma_imm(s, SA, target);
                lemma_tracks_scratch(s, x0, x, used, known, SA, target);
                lemma_weaken(t, x0, effect(x, op), used, known, op, known);
            } else {
                lemma_hrun_concat(s, imm_code(m[rd as int], link), imm_code(SA, target));
                lemma_imm(s, m[rd as int], link);
                assert(used[rd as int]);
                lemma_tracks_write(s, x0, x, used, known, rd as int, link);
                let s1 = s.set(m[rd as int], link);
                lemma_imm(s1, SA, target);
                lemma_tracks_scratch(
                    s1,
                    x0,
                    x.update(rd as int, link),
                    used,
                    known.update(rd as int, true),
                    SA,
                    target,
                );
                lemma_weaken(t, x0, effect(x, op), used, known.update(rd as int, true), op, known);
            }
        },
        Op::JumpReg { rd, rs1, imm, link } => {
            lemma_jump_reg(s, x0, x, used, known, op);
        },
        _ => {},
    }
}

/// Knowing less of the registers.
proof fn lemma_weaken(
    t: HostState,
    x0: Seq<u64>,
    x: Seq<u64>,
    used: Seq<bool>,
    all: Seq<bool>,
    op: Op,
    known: Seq<bool>,
)
    requires
        tracks(t, x0, x, used, all),
        known.len() == 32,
        all.len() == 32,
        forall|g: int| 0 < g < 32 && (known[g] || writes(op, g)) ==> #[trigger] all[g],
    ensures
        forall|k2: Seq<bool>|
            k2.len() == 32 && (forall|g: int|
                0 < g < 32 && #[trigger] k2[g] ==> known[g] || writes(op, g)) ==> #[trigger] tracks(
                t,
                x0,
                x,
                used,
                k2,
            ),
{
    assert forall|k2: Seq<bool>|
        k2.len() == 32 && (forall|g: int|
            0 < g < 32 && #[trigger] k2[g] ==> known[g] || writes(op, g)) implies #[trigger] tracks(
        t,
        x0,
        x,
        used,
        k2,
    ) by {
        assert forall|g: int| 0 < g < 32 && #[trigger] k2[g] implies used[g] && t.x[host_map(used)[
        g] as int] == x[g] by {
            assert(all[g]);
        }
    }
}

proof fn lemma_jump_reg(
    s: HostState,
    x0: Seq<u64>,
    x: Seq<u64>,
    used: Seq<bool>,
    known: Seq<bool>,
    op: Op,
)
    requires
        used.len() == 32,
        known.len() == 32,
        x.len() == 32,
        x[0] == 0,
        !used[0],
        rank(used, 32) <= POOL_SIZE,
        tracks(s, x0, x, used, known),
        op.wf(),
        op is JumpReg,
        forall|g: int| 0 < g < 32 && reads(op, g) ==> #[trigger] known[g],
        forall|g: int| 0 < g < 32 && writes(op, g) ==> #[trigger] used[g],
    ensures
        ({
            let t = hrun(s, op_code(host_map(used), op));
            &&& forall|k2: Seq<bool>|
                k2.len() == 32 && (forall|g: int|
                    0 < g < 32 && #[trigger] k2[g] ==> known[g] || writes(op, g))
                    ==> #[trigger] tracks(t, x0, effect(x, op), used, k2)
            &&& t.x[SA as int] == target(x, op)
        }),
{
    if let Op::JumpReg { rd, rs1, imm, link } = op {
        let m = host_map(used);
        lemma_host_map_bounds(used);
        let t = hrun(s, op_code(m, op));
        let low: u64 = 0xffff_ffff_ffff_fffe;
        let a = imm_code(SB, to_word(imm));
        let b = Insn::Alu { op: HostOp::Add, xd: SA, xn: m[rs1 as int], xm: SB };
        let c = imm_code(SB, low);
        let d = Insn::Alu { op: HostOp::And, xd: SA, xn: SA, xm: SB };
        let e = if rd == 0 {
            Seq::<Insn>::empty()
        } else {
            imm_code(m[rd as int], link)
        };
        if rs1 != 0 {
            assert(known[rs1 as int]);
        }
        lemma_imm(s, SB, to_word(imm));
        let s1 = s.set(SB, to_word(imm));
        lemma_tracks_scratch(s, x0, x, used, known, SB, to_word(imm));
        lemma_source(s1, x0, x, used, known, rs1 as int);
        lemma_hrun_concat(s, a, seq![b]);
        lemma_hrun_one(s1, b);
        let sum = word(x[rs1 as int] + to_word(imm));
        assert(s1.get(SB) == to_word(imm));
        let s2 = s1.set(SA, sum);
        assert(hstep(s1, b) == s2);
        lemma_tracks_scratch(s1, x0, x, used, known, SA, sum);
        lemma_hrun_concat(s, a + seq![b], c);
        lemma_imm(s2, SB, low);
        let s3 = s2.set(SB, low);
        lemma_tracks_scratch(s2, x0, x, used, known, SB, low);
        lemma_hrun_concat(s, a + seq![b] + c, seq![d]);
        lemma_hrun_one(s3, d);
        lemma_clear_low_bit(sum);
        let s4 = s3.set(SA, even(sum));
        assert(s3.get(SA) == sum && s3.get(SB) == low);
        assert(hstep(s3, d) == s4);
        lemma_tracks_scratch(s3, x0, x, used, known, SA, even(sum));
        lemma_hrun_concat(s, a + seq![b] + c + seq![d], e);
        if rd == 0 {
            assert(hrun(s4, e) == s4);
            lemma_weaken(t, x0, effect(x, op), used, known, op, known);
        } else {
            lemma_imm(s4, m[rd as int], link);
            assert(used[rd as int]);
            lemma_tracks_write(s4, x0, x, used, known, rd as int, link);
            assert(m[rd as int] != SA);
            lemma_weaken(t, x0, effect(x, op), used, known.update(rd as int, true), op, known);
        }
    }
}

/// What is known of the host registers after `n` ops: the registers the block reads, and
/// those it has written.
pub open spec fn known_after(ops: Seq<Op>, n: int) -> Seq<bool> {
    Seq::new(32, |g: int| read_set(ops, ops.len() as int)[g] || dirty_set(ops, n)[g])
}

/// The body.
proof fn lemma_body(s: HostState, x0: Seq<u64>, ops: Seq<Op>, n: int)
    requires
        ops_wf(ops),
        compilable(ops),
        x0.len() == 32,
        x0[0] == 0,
        0 <= n <= ops.len(),
        tracks(s, x0, x0, used_set(ops), known_after(ops, 0)),
    ensures
        ({
            let t = hrun(s, body_code(host_map(used_set(ops)), ops, n));
            &&& tracks(t, x0, effects(x0, ops, n), used_set(ops), known_after(ops, n))
            &&& n > 0 && ends(ops[n - 1]) ==> t.x[SA as int] == target(
                effects(x0, ops, n - 1),
                ops[n - 1],
            )
        }),
    decreases n,
{
    let used = used_set(ops);
    let m = host_map(used);
    if n > 0 {
        let op = ops[n - 1];
        lemma_body(s, x0, ops, n - 1);
        lemma_effects_shape(x0, ops, n - 1);
        let before = hrun(s, body_code(m, ops, n - 1));
        lemma_hrun_concat(s, body_code(m, ops, n - 1), op_code(m, op));
        assert(op.wf() && emittable(op));
        lemma_touched(ops, n - 1);
        lemma_op(
            before,
            x0,
            effects(x0, ops, n - 1),
            used,
            known_after(ops, n - 1),
            op,
        );
        lemma_sets_grow(ops, n - 1);
        let k2 = known_after(ops, n);
        assert forall|g: int| 0 < g < 32 && #[trigger] k2[g] implies known_after(ops, n - 1)[g]
            || writes(op, g) by {
            assert(dirty_set(ops, n)[g] == (dirty_set(ops, n - 1)[g] || (g != 0 && writes(
                ops[n - 1],
                g,
            ))));
        }
        assert(tracks(
            hrun(before, op_code(m, op)),
            x0,
            effect(effects(x0, ops, n - 1), op),
            used,
            k2,
        ));
    }
}

/// The registers an op names are among the block's.
proof fn lemma_touched(ops: Seq<Op>, i: int)
    requires
        0 <= i < ops.len(),
    ensures
        !used_set(ops)[0],
        forall|g: int|
            0 < g < 32 && reads(ops[i], g) ==> #[trigger] known_after(ops, i)[g],
        forall|g: int| 0 < g < 32 && writes(ops[i], g) ==> #[trigger] used_set(ops)[g],
{
    assert forall|g: int| 0 < g < 32 && reads(ops[i], g) implies #[trigger] known_after(
        ops,
        i,
    )[g] by {
        assert(0 <= i < ops.len() && reads(ops[i], g));
        assert(read_set(ops, ops.len() as int)[g]);
    }
    assert forall|g: int| 0 < g < 32 && writes(ops[i], g) implies #[trigger] used_set(ops)[g] by {
        assert(0 <= i < ops.len() && writes(ops[i], g));
        assert(dirty_set(ops, ops.len() as int)[g]);
    }
}

/// The prologue loads what the block reads.
proof fn lemma_prologue(x0: Seq<u64>, used: Seq<bool>, read: Seq<bool>, n: int)
    requires
        x0.len() == 32,
        used.len() == 32,
        read.len() == 32,
        rank(used, 32) <= POOL_SIZE,
        !read[0],
        forall|g: int| 0 <= g < 32 && #[trigger] read[g] ==> used[g],
        0 <= n <= 32,
    ensures
        tracks(
            hrun(entry_state(x0), prologue_code(host_map(used), read, n)),
            x0,
            x0,
            used,
            Seq::new(32, |g: int| g < n && read[g]),
        ),
    decreases n,
{
    let m = host_map(used);
    let code = prologue_code(m, read, n);
    let s0 = entry_state(x0);
    let now = Seq::new(32, |g: int| g < n && read[g]);
    if n == 0 {
        assert(hrun(s0, code) == s0);
    } else {
        lemma_prologue(x0, used, read, n - 1);
        let before_code = prologue_code(m, read, n - 1);
        let before = hrun(s0, before_code);
        let was = Seq::new(32, |g: int| g < n - 1 && read[g]);
        if read[n - 1] {
            let i = Insn::Ldr { xt: m[n - 1], xn: REGS, slot: (n - 1) as u32 };
            assert(code.drop_last() =~= before_code);
            assert(code.last() == i);
            assert(before.get(REGS) == 0);
            assert(before.cell(REGS, (n - 1) as u32) == Some((n - 1) as int));
            assert(used[n - 1]);
            lemma_tracks_write(before, x0, x0, used, was, n - 1, x0[n - 1]);
            assert(x0.update(n - 1, x0[n - 1]) =~= x0);
            let t = hrun(s0, code);
            assert(t == before.set(m[n - 1], x0[n - 1]));
            assert forall|g: int| 0 < g < 32 && #[trigger] now[g] implies used[g] && t.x[m[g] as int]
                == x0[g] by {
                assert(was.update(n - 1, true)[g]);
            }
        } else {
            let t = hrun(s0, code);
            assert forall|g: int| 0 < g < 32 && #[trigger] now[g] implies used[g] && t.x[m[g] as int]
                == x0[g] by {
                assert(was[g]);
            }
        }
    }
}

/// The epilogue stores what the block wrote.
proof fn lemma_epilogue(
    s: HostState,
    x0: Seq<u64>,
    x: Seq<u64>,
    used: Seq<bool>,
    known: Seq<bool>,
    dirty: Seq<bool>,
    n: int,
)
    requires
        x0.len() == 32,
        x.len() == 32,
        used.len() == 32,
        dirty.len() == 32,
        known.len() == 32,
        rank(used, 32) <= POOL_SIZE,
        tracks(s, x0, x, used, known),
        !dirty[0],
        forall|g: int| 0 <= g < 32 && #[trigger] dirty[g] ==> known[g],
        0 <= n <= 32,
    ensures
        ({
            let t = hrun(s, epilogue_code(host_map(used), dirty, n));
            &&& t.x == s.x
            &&& t.mem == Seq::new(
                32,
                |g: int|
                    if g < n && dirty[g] {
                        x[g]
                    } else {
                        x0[g]
                    },
            )
        }),
    decreases n,
{
    let m = host_map(used);
    let code = epilogue_code(m, dirty, n);
    let want = Seq::new(
        32,
        |g: int|
            if g < n && dirty[g] {
                x[g]
            } else {
                x0[g]
            },
    );
    if n == 0 {
        assert(hrun(s, code) == s);
        assert(s.mem =~= want);
    } else {
        lemma_epilogue(s, x0, x, used, known, dirty, n - 1);
        let before_code = epilogue_code(m, dirty, n - 1);
        let before = hrun(s, before_code);
        if dirty[n - 1] {
            let i = Insn::Store { xt: m[n - 1], xn: REGS, slot: (n - 1) as u32 };
            assert(code.drop_last() =~= before_code);
            assert(code.last() == i);
            assert(before.cell(REGS, (n - 1) as u32) == Some((n - 1) as int));
            assert(known[n - 1]);
            lemma_host_map_bounds(used);
            assert(used[n - 1]);
            assert(m[n - 1] <= 15);
            assert(before.get(m[n - 1]) == x[n - 1]);
            assert(hrun(s, code).mem =~= want);
        } else {
            assert(hrun(s, code).mem =~= want);
        }
    }
}

/// A register that no op writes keeps its value.
proof fn lemma_unwritten(x: Seq<u64>, ops: Seq<Op>, n: int, g: int)
    requires
        x.len() == 32,
        x[0] == 0,
        ops_wf(ops),
        0 <= n <= ops.len(),
        0 <= g < 32,
        !dirty_set(ops, n)[g],
    ensures
        effects(x, ops, n)[g] == x[g],
    decreases n,
{
    if n > 0 {
        lemma_sets_grow(ops, n - 1);
        lemma_effects_shape(x, ops, n - 1);
        assert(dirty_set(ops, n)[g] == (dirty_set(ops, n - 1)[g] || (g != 0 && writes(
            ops[n - 1],
            g,
        ))));
        lemma_unwritten(x, ops, n - 1, g);
        assert(ops[n - 1].wf());
        assert(g == 0 || !writes(ops[n - 1], g));
    }
}

/// In a block where only the last op may end it, every op is live.
proof fn lemma_all_live(ops: Seq<Op>, from: int)
    requires
        block_shaped(ops),
        0 <= from <= ops.len(),
    ensures
        live(ops, from) == ops.len(),
        ended(ops) <==> ops.len() > 0 && ends(ops.last()),
    decreases ops.len() - from,
{
    if from < ops.len() && !ends(ops[from]) {
        lemma_all_live(ops, from + 1);
    }
    if ops.len() > 0 && ends(ops.last()) {
        assert(ends(ops[ops.len() - 1]));
    }
}

/// The tail returns the retired count and the exit pc.
proof fn lemma_tail(s: HostState, retired: u16, over: bool, exit_pc: u64)
    requires
        s.wf(),
    ensures
        ({
            let t = hrun(s, tail_code(retired, over, exit_pc));
            &&& t.mem == s.mem
            &&& t.x[REGS as int] == retired
            &&& t.x[PC as int] == if over {
                s.x[SA as int]
            } else {
                exit_pc
            }
        }),
{
    let i = Insn::Movz { xd: REGS, imm: retired };
    let j = Insn::Alu { op: HostOp::Orr, xd: PC, xn: XZR, xm: SA };
    let s1 = hstep(s, i);
    lemma_hrun_one(s, i);
    if over {
        lemma_hrun_concat(s, seq![i], seq![j]);
        lemma_hrun_one(s1, j);
        let s2 = hstep(s1, j);
        lemma_hrun_concat(s, seq![i] + seq![j], seq![Insn::Ret]);
        lemma_hrun_one(s2, Insn::Ret);
        let v = s.x[SA as int];
        assert(0u64 | v == v) by (bit_vector);
    } else {
        lemma_hrun_concat(s, seq![i], imm_code(PC, exit_pc));
        lemma_imm(s1, PC, exit_pc);
        let s2 = s1.set(PC, exit_pc);
        lemma_hrun_concat(s, seq![i] + imm_code(PC, exit_pc), seq![Insn::Ret]);
        lemma_hrun_one(s2, Insn::Ret);
    }
}

/// Native code computes its block: for every block the compiler takes, running its code on a
/// register file gives the registers, the resume pc and the retired count that the portable
/// executor gives, and memory and the rest of the hart are untouched.
pub proof fn law_native_code_computes_its_block(
    h: HartModel,
    b: BusState,
    ops: Seq<Op>,
    exit_pc: u64,
)
    requires
        h.wf(),
        ops_wf(ops),
        block_shaped(ops),
        compilable(ops),
    ensures
        native_result(ops, exit_pc, h.x) is Some,
        ({
            let (x, exit) = native_result(ops, exit_pc, h.x)->0;
            run_ops(h, b, ops, exit_pc, 0) == (
                HartModel { x, pc: exit.pc, ..h },
                b,
                Ok::<u64, StepError>(exit.retired),
            )
        }),
{
    let x0 = h.x;
    let n = ops.len() as int;
    let used = used_set(ops);
    let m = host_map(used);
    let read = read_set(ops, n);
    let dirty = dirty_set(ops, n);
    let p = prologue_code(m, read, 32);
    lemma_all_live(ops, 0);
    let body = body_code(m, ops, n);
    let e = epilogue_code(m, dirty, 32);
    let t = tail_code(ops.len() as u16, ended(ops), exit_pc);
    let s0 = entry_state(x0);
    assert(used.len() == 32);
    assert forall|g: int| 0 <= g < 32 && #[trigger] read[g] implies used[g] by {}
    lemma_prologue(x0, used, read, 32);
    let s1 = hrun(s0, p);
    lemma_known_at_start(s1, x0, ops);
    lemma_body(s1, x0, ops, n);
    lemma_effects_shape(x0, ops, n);
    let s2 = hrun(s1, body);
    let xn = effects(x0, ops, n);
    assert forall|g: int| 0 <= g < 32 && #[trigger] dirty[g] implies known_after(ops, n)[g] by {}
    lemma_epilogue(s2, x0, xn, used, known_after(ops, n), dirty, 32);
    let s3 = hrun(s2, e);
    assert forall|g: int| 0 <= g < 32 implies s3.mem[g] == xn[g] by {
        if !dirty[g] {
            lemma_unwritten(x0, ops, n, g);
        }
    }
    assert(s3.mem =~= xn);
    assert(s3.x == s2.x);
    lemma_tail(s3, ops.len() as u16, ended(ops), exit_pc);
    lemma_hrun_concat(s0, p, body);
    lemma_hrun_concat(s0, p + body, e);
    lemma_hrun_concat(s0, p + body + e, t);
    lemma_run_ops(h, b, x0, ops, exit_pc, 0);
    assert(HartModel { x: effects(x0, ops, 0), ..h } == h);
    if n > 0 {
        assert(ops.last() == ops[n - 1]);
    }
}

/// The prologue's loads are what is known when the body starts.
proof fn lemma_known_at_start(s: HostState, x0: Seq<u64>, ops: Seq<Op>)
    requires
        tracks(
            s,
            x0,
            x0,
            used_set(ops),
            Seq::new(32, |g: int| g < 32 && read_set(ops, ops.len() as int)[g]),
        ),
    ensures
        tracks(s, x0, x0, used_set(ops), known_after(ops, 0)),
{
    let was = Seq::new(32, |g: int| g < 32 && read_set(ops, ops.len() as int)[g]);
    let used = used_set(ops);
    assert forall|g: int| 0 < g < 32 && #[trigger] known_after(ops, 0)[g] implies used[g] && s.x[
        host_map(used)[g] as int] == x0[g] by {
        assert(!dirty_set(ops, 0)[g]);
        assert(was[g]);
    }
}

/// Native code is made of sums, differences and the bits of two words, of constants, and of what
/// ends a block; not of loads and stores, nor of shifts, comparisons and 32-bit arithmetic.
pub proof fn law_what_native_code_is_made_of(op: Op)
    ensures
        ({
            let plain = |alu: AluOp|
                alu == AluOp::Add || alu == AluOp::Sub || alu == AluOp::And || alu == AluOp::Or
                    || alu == AluOp::Xor;
            emittable(op) == match op {
                Op::AluImm { alu, .. } => plain(alu),
                Op::AluReg { alu, .. } => plain(alu),
                Op::SetImm { .. } => true,
                Op::Branch { .. } => true,
                Op::Jump { .. } => true,
                Op::JumpReg { .. } => true,
                Op::Load { .. } => false,
                Op::Store { .. } => false,
            }
        }),
{
}

proof fn lemma_rank_of_none(used: Seq<bool>, m: int, n: int)
    requires
        0 <= m <= n <= used.len(),
        forall|g: int| m <= g < n ==> !(#[trigger] used[g]),
    ensures
        rank(used, n) == rank(used, m),
    decreases n,
{
    if n > m {
        lemma_rank_of_none(used, m, n - 1);
    }
}

proof fn lemma_rank_bound(used: Seq<bool>, n: int)
    requires
        0 <= n <= used.len(),
        used.len() > 0,
        !used[0],
    ensures
        n > 0 ==> rank(used, n) <= n - 1,
        rank(used, n) >= 0,
    decreases n,
{
    if n > 0 {
        lemma_rank_bound(used, n - 1);
    }
}

/// Whether an operation names guest register `g`.
pub open spec fn touches(op: Op, g: int) -> bool {
    match op {
        Op::AluImm { rd, rs1, .. } => rd == g || rs1 == g,
        Op::AluReg { rd, rs1, rs2, .. } => rd == g || rs1 == g || rs2 == g,
        Op::SetImm { rd, .. } => rd == g,
        Op::Load { rd, rs1, .. } => rd == g || rs1 == g,
        Op::Store { rs1, rs2, .. } => rs1 == g || rs2 == g,
        Op::Branch { rs1, rs2, .. } => rs1 == g || rs2 == g,
        Op::Jump { rd, .. } => rd == g,
        Op::JumpReg { rd, rs1, .. } => rd == g || rs1 == g,
    }
}

/// A block of such operations is compiled where it names no register above 12, and one that holds
/// any other operation is not.
pub proof fn law_which_blocks_are_compiled(ops: Seq<Op>)
    requires
        ops.len() <= 0xffff,
    ensures
        (exists|i: int| 0 <= i < ops.len() && !emittable(#[trigger] ops[i])) ==> !compilable(ops),
        (forall|i: int| 0 <= i < ops.len() ==> emittable(#[trigger] ops[i])) && (forall|
            i: int,
            g: int,
        |
            0 <= i < ops.len() && g > 12 ==> !(#[trigger] touches(ops[i], g))) ==> compilable(ops),
{
    let used = used_set(ops);
    if forall|i: int, g: int| 0 <= i < ops.len() && g > 12 ==> !(#[trigger] touches(ops[i], g)) {
        let n = ops.len() as int;
        assert forall|g: int| 13 <= g < 32 implies !(#[trigger] used[g]) by {
            if read_set(ops, n)[g] {
                let i = choose|i: int| 0 <= i < n && reads(#[trigger] ops[i], g);
                assert(touches(ops[i], g));
            }
            if dirty_set(ops, n)[g] {
                let i = choose|i: int| 0 <= i < n && writes(#[trigger] ops[i], g);
                assert(touches(ops[i], g));
            }
        }
        lemma_rank_of_none(used, 13, 32);
        lemma_rank_bound(used, 13);
    }
}

} // verus!
