//! The host processor the native backend emits code for: the few AArch64 instructions it
//! uses, their encodings, and what they do. The guest register file is the host's memory:
//! 32 words at address 0.

use vstd::prelude::*;
use crate::alu::{signed, word};
use crate::bytes::{get_le, le, le_bytes};

verus! {

/// The zero register: reads 0, and writes to it are discarded.
pub const XZR: u32 = 31;

/// A three-register data-processing operation.
#[derive(Debug, Clone, Copy, PartialEq, Eq, Structural)]
pub enum HostOp {
    Add,
    Sub,
    And,
    Orr,
    Eor,
}

/// A condition over the flags.
#[derive(Debug, Clone, Copy, PartialEq, Eq, Structural)]
pub enum HostCond {
    Eq,
    Ne,
    Hs,
    Lo,
    Ge,
    Lt,
}

/// One host instruction.
#[derive(Debug, Clone, Copy, PartialEq, Eq, Structural)]
pub enum Insn {
    /// `movz Xd, #imm`.
    Movz { xd: u32, imm: u16 },
    /// `movk Xd, #imm, LSL #(16 * hw)`.
    Movk { xd: u32, imm: u16, hw: u32 },
    /// `op Xd, Xn, Xm`.
    Alu { op: HostOp, xd: u32, xn: u32, xm: u32 },
    /// `ldr Xt, [Xn, #(8 * slot)]`.
    Ldr { xt: u32, xn: u32, slot: u32 },
    /// `str Xt, [Xn, #(8 * slot)]`.
    Store { xt: u32, xn: u32, slot: u32 },
    /// `cmp Xn, Xm`.
    Cmp { xn: u32, xm: u32 },
    /// `csel Xd, Xn, Xm, cond`.
    Csel { xd: u32, xn: u32, xm: u32, cond: HostCond },
    /// `ret`.
    Ret,
}

impl Insn {
    /// Whether every field fits its place in the encoding.
    pub open spec fn wf(self) -> bool {
        match self {
            Insn::Movz { xd, imm } => xd < 32,
            Insn::Movk { xd, imm, hw } => xd < 32 && 1 <= hw < 4,
            Insn::Alu { op, xd, xn, xm } => xd < 32 && xn < 32 && xm < 32,
            Insn::Ldr { xt, xn, slot } => xt < 32 && xn < 32 && slot < 0x1000,
            Insn::Store { xt, xn, slot } => xt < 32 && xn < 32 && slot < 0x1000,
            Insn::Cmp { xn, xm } => xn < 32 && xm < 32,
            Insn::Csel { xd, xn, xm, cond } => xd < 32 && xn < 32 && xm < 32,
            Insn::Ret => true,
        }
    }
}

/// The opcode of a data-processing family.
#[verifier::allow_in_spec]
pub fn op_base(op: HostOp) -> u32
    returns
        (match op {
            HostOp::Add => 0x8B00_0000u32,
            HostOp::Sub => 0xCB00_0000u32,
            HostOp::And => 0x8A00_0000u32,
            HostOp::Orr => 0xAA00_0000u32,
            HostOp::Eor => 0xCA00_0000u32,
        }),
{
    match op {
        HostOp::Add => 0x8B00_0000,
        HostOp::Sub => 0xCB00_0000,
        HostOp::And => 0x8A00_0000,
        HostOp::Orr => 0xAA00_0000,
        HostOp::Eor => 0xCA00_0000,
    }
}

/// The 4-bit code of a condition.
#[verifier::allow_in_spec]
pub fn cond_bits(cond: HostCond) -> u32
    returns
        (match cond {
            HostCond::Eq => 0u32,
            HostCond::Ne => 1u32,
            HostCond::Hs => 2u32,
            HostCond::Lo => 3u32,
            HostCond::Ge => 10u32,
            HostCond::Lt => 11u32,
        }),
{
    match cond {
        HostCond::Eq => 0,
        HostCond::Ne => 1,
        HostCond::Hs => 2,
        HostCond::Lo => 3,
        HostCond::Ge => 10,
        HostCond::Lt => 11,
    }
}

/// The 32-bit word of an instruction.
pub open spec fn encoded(i: Insn) -> u32 {
    match i {
        Insn::Movz { xd, imm } => (0xD280_0000 + imm * 0x20 + xd) as u32,
        Insn::Movk { xd, imm, hw } => (0xF280_0000 + hw * 0x20_0000 + imm * 0x20 + xd) as u32,
        Insn::Alu { op, xd, xn, xm } => (op_base(op) + xm * 0x1_0000 + xn * 0x20 + xd) as u32,
        Insn::Ldr { xt, xn, slot } => (0xF940_0000 + slot * 0x400 + xn * 0x20 + xt) as u32,
        Insn::Store { xt, xn, slot } => (0xF900_0000 + slot * 0x400 + xn * 0x20 + xt) as u32,
        Insn::Cmp { xn, xm } => (0xEB00_0000 + xm * 0x1_0000 + xn * 0x20 + 31) as u32,
        Insn::Csel { xd, xn, xm, cond } => (0x9A80_0000 + xm * 0x1_0000 + cond_bits(cond) * 0x1000
            + xn * 0x20 + xd) as u32,
        Insn::Ret => 0xD65F_03C0,
    }
}

/// Encode an instruction.
pub fn encode(i: Insn) -> (r: u32)
    requires
        i.wf(),
    ensures
        r == encoded(i),
{
    match i {
        Insn::Movz { xd, imm } => 0xD280_0000 + imm as u32 * 0x20 + xd,
        Insn::Movk { xd, imm, hw } => 0xF280_0000 + hw * 0x20_0000 + imm as u32 * 0x20 + xd,
        Insn::Alu { op, xd, xn, xm } => op_base(op) + xm * 0x1_0000 + xn * 0x20 + xd,
        Insn::Ldr { xt, xn, slot } => 0xF940_0000 + slot * 0x400 + xn * 0x20 + xt,
        Insn::Store { xt, xn, slot } => 0xF900_0000 + slot * 0x400 + xn * 0x20 + xt,
        Insn::Cmp { xn, xm } => 0xEB00_0000 + xm * 0x1_0000 + xn * 0x20 + 31,
        Insn::Csel { xd, xn, xm, cond } => 0x9A80_0000 + xm * 0x1_0000 + cond_bits(cond) * 0x1000
            + xn * 0x20 + xd,
        Insn::Ret => 0xD65F_03C0,
    }
}

/// The instruction a word encodes, if it is one of these.
pub open spec fn decoded(w: u32) -> Option<Insn> {
    let xd = w % 0x20;
    let xn = w / 0x20 % 0x20;
    let xm = w / 0x1_0000 % 0x20;
    let imm = (w / 0x20 % 0x1_0000) as u16;
    let slot = w / 0x400 % 0x1000;
    let top = w / 0x20_0000;
    let plain = w / 0x400 % 0x40 == 0;
    if w == 0xD65F_03C0 {
        Some(Insn::Ret)
    } else if top == 0x694 {
        Some(Insn::Movz { xd, imm })
    } else if 0x795 <= top && top <= 0x797 {
        Some(Insn::Movk { xd, imm, hw: (top - 0x794) as u32 })
    } else if top == 0x458 && plain {
        Some(Insn::Alu { op: HostOp::Add, xd, xn, xm })
    } else if top == 0x658 && plain {
        Some(Insn::Alu { op: HostOp::Sub, xd, xn, xm })
    } else if top == 0x450 && plain {
        Some(Insn::Alu { op: HostOp::And, xd, xn, xm })
    } else if top == 0x550 && plain {
        Some(Insn::Alu { op: HostOp::Orr, xd, xn, xm })
    } else if top == 0x650 && plain {
        Some(Insn::Alu { op: HostOp::Eor, xd, xn, xm })
    } else if top == 0x758 && plain && xd == XZR {
        Some(Insn::Cmp { xn, xm })
    } else if top == 0x4D4 && w / 0x400 % 4 == 0 {
        let code = w / 0x1000 % 0x10;
        if code == 0 {
            Some(Insn::Csel { xd, xn, xm, cond: HostCond::Eq })
        } else if code == 1 {
            Some(Insn::Csel { xd, xn, xm, cond: HostCond::Ne })
        } else if code == 2 {
            Some(Insn::Csel { xd, xn, xm, cond: HostCond::Hs })
        } else if code == 3 {
            Some(Insn::Csel { xd, xn, xm, cond: HostCond::Lo })
        } else if code == 10 {
            Some(Insn::Csel { xd, xn, xm, cond: HostCond::Ge })
        } else if code == 11 {
            Some(Insn::Csel { xd, xn, xm, cond: HostCond::Lt })
        } else {
            None
        }
    } else if w / 0x40_0000 == 0x3E5 {
        Some(Insn::Ldr { xt: xd, xn, slot })
    } else if w / 0x40_0000 == 0x3E4 {
        Some(Insn::Store { xt: xd, xn, slot })
    } else {
        None
    }
}

/// Decode a word.
pub fn decode(w: u32) -> (r: Option<Insn>)
    ensures
        r == decoded(w),
        r is Some ==> (r->0).wf(),
{
    let xd: u32 = w % 0x20;
    let xn: u32 = w / 0x20 % 0x20;
    let xm: u32 = w / 0x1_0000 % 0x20;
    let imm: u16 = (w / 0x20 % 0x1_0000) as u16;
    let slot: u32 = w / 0x400 % 0x1000;
    let top: u32 = w / 0x20_0000;
    let plain: bool = w / 0x400 % 0x40 == 0;
    if w == 0xD65F_03C0 {
        Some(Insn::Ret)
    } else if top == 0x694 {
        Some(Insn::Movz { xd, imm })
    } else if 0x795 <= top && top <= 0x797 {
        Some(Insn::Movk { xd, imm, hw: top - 0x794 })
    } else if top == 0x458 && plain {
        Some(Insn::Alu { op: HostOp::Add, xd, xn, xm })
    } else if top == 0x658 && plain {
        Some(Insn::Alu { op: HostOp::Sub, xd, xn, xm })
    } else if top == 0x450 && plain {
        Some(Insn::Alu { op: HostOp::And, xd, xn, xm })
    } else if top == 0x550 && plain {
        Some(Insn::Alu { op: HostOp::Orr, xd, xn, xm })
    } else if top == 0x650 && plain {
        Some(Insn::Alu { op: HostOp::Eor, xd, xn, xm })
    } else if top == 0x758 && plain && xd == XZR {
        Some(Insn::Cmp { xn, xm })
    } else if top == 0x4D4 && w / 0x400 % 4 == 0 {
        let code: u32 = w / 0x1000 % 0x10;
        if code == 0 {
            Some(Insn::Csel { xd, xn, xm, cond: HostCond::Eq })
        } else if code == 1 {
            Some(Insn::Csel { xd, xn, xm, cond: HostCond::Ne })
        } else if code == 2 {
            Some(Insn::Csel { xd, xn, xm, cond: HostCond::Hs })
        } else if code == 3 {
            Some(Insn::Csel { xd, xn, xm, cond: HostCond::Lo })
        } else if code == 10 {
            Some(Insn::Csel { xd, xn, xm, cond: HostCond::Ge })
        } else if code == 11 {
            Some(Insn::Csel { xd, xn, xm, cond: HostCond::Lt })
        } else {
            None
        }
    } else if w / 0x40_0000 == 0x3E5 {
        Some(Insn::Ldr { xt: xd, xn, slot })
    } else if w / 0x40_0000 == 0x3E4 {
        Some(Insn::Store { xt: xd, xn, slot })
    } else {
        None
    }
}

/// Three 5-bit fields at bits 0, 5 and 16 and a 6-bit one at bit 10, under `top` at 21.
proof fn lemma_three_registers(top: int, xm: int, six: int, xn: int, xd: int)
    requires
        0 <= xm < 32,
        0 <= six < 64,
        0 <= xn < 32,
        0 <= xd < 32,
    ensures
        ({
            let w = top * 0x20_0000 + xm * 0x1_0000 + six * 0x400 + xn * 0x20 + xd;
            &&& w % 0x20 == xd
            &&& w / 0x20 % 0x20 == xn
            &&& w / 0x400 % 0x40 == six
            &&& w / 0x1_0000 % 0x20 == xm
            &&& w / 0x20_0000 == top
        }),
{
    let w = top * 0x20_0000 + xm * 0x1_0000 + six * 0x400 + xn * 0x20 + xd;
    let a = xn + 0x20 * (six + 0x40 * (xm + 0x20 * top));
    assert(w == xd + 0x20 * a);
    assert(w / 0x20 == a && w % 0x20 == xd);
    let b = six + 0x40 * (xm + 0x20 * top);
    assert(w == (xd + 0x20 * xn) + 0x400 * b);
    assert(w / 0x400 == b);
    let c = xm + 0x20 * top;
    assert(w == (xd + 0x20 * xn + 0x400 * six) + 0x1_0000 * c);
    assert(w / 0x1_0000 == c);
    assert(w == (xd + 0x20 * xn + 0x400 * six + 0x1_0000 * xm) + 0x20_0000 * top);
    assert(w / 0x20_0000 == top);
}

/// A 16-bit field at bit 5.
proof fn lemma_wide_immediate(top: int, imm: int, xd: int)
    requires
        0 <= imm < 0x1_0000,
        0 <= xd < 32,
    ensures
        ({
            let w = top * 0x20_0000 + imm * 0x20 + xd;
            &&& w % 0x20 == xd
            &&& w / 0x20 % 0x1_0000 == imm
            &&& w / 0x20_0000 == top
        }),
{
    let w = top * 0x20_0000 + imm * 0x20 + xd;
    assert(w == xd + 0x20 * (imm + 0x1_0000 * top));
    assert(w / 0x20 == imm + 0x1_0000 * top);
    assert(w == (xd + 0x20 * imm) + 0x20_0000 * top);
    assert(w / 0x20_0000 == top);
}

/// A 12-bit field at bit 10.
proof fn lemma_slot(top: int, slot: int, xn: int, xt: int)
    requires
        0 <= slot < 0x1000,
        0 <= xn < 32,
        0 <= xt < 32,
    ensures
        ({
            let w = top * 0x40_0000 + slot * 0x400 + xn * 0x20 + xt;
            &&& w % 0x20 == xt
            &&& w / 0x20 % 0x20 == xn
            &&& w / 0x400 % 0x1000 == slot
            &&& w / 0x40_0000 == top
            &&& 2 * top <= w / 0x20_0000 <= 2 * top + 1
        }),
{
    let w = top * 0x40_0000 + slot * 0x400 + xn * 0x20 + xt;
    assert(w == xt + 0x20 * (xn + 0x20 * (slot + 0x1000 * top)));
    assert(w / 0x20 == xn + 0x20 * (slot + 0x1000 * top));
    assert(w == (xt + 0x20 * xn) + 0x400 * (slot + 0x1000 * top));
    assert(w / 0x400 == slot + 0x1000 * top);
    assert(w == (xt + 0x20 * xn + 0x400 * slot) + 0x40_0000 * top);
    assert(w / 0x40_0000 == top);
}

proof fn lemma_decode_wide(i: Insn)
    requires
        i.wf(),
        i is Movz || i is Movk,
    ensures
        decoded(encoded(i)) == Some(i),
{
    match i {
        Insn::Movz { xd, imm } => {
            lemma_wide_immediate(0x694, imm as int, xd as int);
            let w = encoded(i);
            assert(w as int == 0x694 * 0x20_0000 + imm * 0x20 + xd);
            assert(w / 0x20_0000 == 0x694);
        },
        Insn::Movk { xd, imm, hw } => {
            lemma_wide_immediate(0x794 + hw, imm as int, xd as int);
            let w = encoded(i);
            assert(w as int == (0x794 + hw) * 0x20_0000 + imm * 0x20 + xd);
            assert(w / 0x20_0000 == 0x794 + hw);
        },
        _ => {},
    }
}

proof fn lemma_decode_alu(op: HostOp, xd: u32, xn: u32, xm: u32)
    requires
        xd < 32,
        xn < 32,
        xm < 32,
    ensures
        decoded(encoded(Insn::Alu { op, xd, xn, xm })) == Some(Insn::Alu { op, xd, xn, xm }),
{
    let top: int = match op {
        HostOp::Add => 0x458,
        HostOp::Sub => 0x658,
        HostOp::And => 0x450,
        HostOp::Orr => 0x550,
        HostOp::Eor => 0x650,
    };
    lemma_three_registers(top, xm as int, 0, xn as int, xd as int);
    let w = encoded(Insn::Alu { op, xd, xn, xm });
    assert(op_base(op) == top * 0x20_0000);
    assert(w as int == top * 0x20_0000 + xm * 0x1_0000 + 0 * 0x400 + xn * 0x20 + xd);
    assert(w / 0x20_0000 == top);
    assert(w / 0x400 % 0x40 == 0);
    assert(w / 0x1_0000 % 0x20 == xm);
    assert(w / 0x20 % 0x20 == xn);
    assert(w % 0x20 == xd);
}

proof fn lemma_decode_memory(i: Insn)
    requires
        i.wf(),
        i is Ldr || i is Store,
    ensures
        decoded(encoded(i)) == Some(i),
{
    match i {
        Insn::Ldr { xt, xn, slot } => {
            lemma_slot(0x3E5, slot as int, xn as int, xt as int);
            let w = encoded(i);
            assert(w as int == 0x3E5 * 0x40_0000 + slot * 0x400 + xn * 0x20 + xt);
            assert(w / 0x40_0000 == 0x3E5);
            assert(0x7CA <= w / 0x20_0000 <= 0x7CB);
        },
        Insn::Store { xt, xn, slot } => {
            lemma_slot(0x3E4, slot as int, xn as int, xt as int);
            let w = encoded(i);
            assert(w as int == 0x3E4 * 0x40_0000 + slot * 0x400 + xn * 0x20 + xt);
            assert(w / 0x40_0000 == 0x3E4);
            assert(0x7C8 <= w / 0x20_0000 <= 0x7C9);
        },
        _ => {},
    }
}

proof fn lemma_decode_compare(xn: u32, xm: u32)
    requires
        xn < 32,
        xm < 32,
    ensures
        decoded(encoded(Insn::Cmp { xn, xm })) == Some(Insn::Cmp { xn, xm }),
{
    lemma_three_registers(0x758, xm as int, 0, xn as int, 31);
    let w = encoded(Insn::Cmp { xn, xm });
    assert(w as int == 0x758 * 0x20_0000 + xm * 0x1_0000 + 0 * 0x400 + xn * 0x20 + 31);
    assert(w / 0x20_0000 == 0x758);
    assert(w / 0x400 % 0x40 == 0);
    assert(w / 0x1_0000 % 0x20 == xm);
    assert(w / 0x20 % 0x20 == xn);
    assert(w % 0x20 == 31);
}

/// A 4-bit field at bit 12 over two zero bits.
proof fn lemma_condition_field(w: int, code: int, hi: int, lo: int)
    requires
        w == hi * 0x1_0000 + code * 0x1000 + lo,
        0 <= code < 0x10,
        0 <= lo < 0x400,
    ensures
        w / 0x400 % 4 == 0,
        w / 0x1000 % 0x10 == code,
{
    let k = code + 0x10 * hi;
    assert(w == lo + 0x400 * (4 * k));
    assert(w / 0x400 == 4 * k);
    assert(w == lo + 0x1000 * k);
    assert(w / 0x1000 == k);
}

proof fn lemma_decode_csel(xd: u32, xn: u32, xm: u32, cond: HostCond)
    requires
        xd < 32,
        xn < 32,
        xm < 32,
    ensures
        decoded(encoded(Insn::Csel { xd, xn, xm, cond })) == Some(Insn::Csel { xd, xn, xm, cond }),
{
    let code = cond_bits(cond) as int;
    lemma_three_registers(0x4D4, xm as int, code * 4, xn as int, xd as int);
    let w = encoded(Insn::Csel { xd, xn, xm, cond });
    assert(w as int == 0x4D4 * 0x20_0000 + xm * 0x1_0000 + (code * 4) * 0x400 + xn * 0x20 + xd);
    assert(w / 0x20_0000 == 0x4D4);
    lemma_condition_field(w as int, code, xm + 0x20 * 0x4D4, xn * 0x20 + xd);
    assert(w / 0x1_0000 % 0x20 == xm);
    assert(w / 0x20 % 0x20 == xn);
    assert(w % 0x20 == xd);
}

/// Decoding undoes encoding.
pub proof fn law_decode_undoes_encode(i: Insn)
    requires
        i.wf(),
    ensures
        decoded(encoded(i)) == Some(i),
{
    match i {
        Insn::Movz { xd, imm } => {
            lemma_decode_wide(i);
        },
        Insn::Movk { xd, imm, hw } => {
            lemma_decode_wide(i);
        },
        Insn::Alu { op, xd, xn, xm } => {
            lemma_decode_alu(op, xd, xn, xm);
        },
        Insn::Ldr { xt, xn, slot } => {
            lemma_decode_memory(i);
        },
        Insn::Store { xt, xn, slot } => {
            lemma_decode_memory(i);
        },
        Insn::Cmp { xn, xm } => {
            lemma_decode_compare(xn, xm);
        },
        Insn::Csel { xd, xn, xm, cond } => {
            lemma_decode_csel(xd, xn, xm, cond);
        },
        Insn::Ret => {},
    }
}

/// The host's registers, memory (the guest register file) and condition flags.
pub struct HostState {
    pub x: Seq<u64>,
    pub mem: Seq<u64>,
    pub n: bool,
    pub z: bool,
    pub c: bool,
    pub v: bool,
}

impl HostState {
    pub open spec fn wf(self) -> bool {
        self.x.len() == 32 && self.mem.len() == 32
    }

    pub open spec fn get(self, r: u32) -> u64 {
        if r == XZR {
            0
        } else {
            self.x[r as int]
        }
    }

    pub open spec fn set(self, r: u32, value: u64) -> HostState {
        if r == XZR {
            self
        } else {
            HostState { x: self.x.update(r as int, value), ..self }
        }
    }

    /// Whether a condition holds of the flags.
    pub open spec fn cond(self, cond: HostCond) -> bool {
        match cond {
            HostCond::Eq => self.z,
            HostCond::Ne => !self.z,
            HostCond::Hs => self.c,
            HostCond::Lo => !self.c,
            HostCond::Ge => self.n == self.v,
            HostCond::Lt => self.n != self.v,
        }
    }

    /// The memory word that `[Xn, #(8 * slot)]` names, if it is one.
    pub open spec fn cell(self, xn: u32, slot: u32) -> Option<int> {
        let at = self.get(xn) + 8 * slot;
        if at % 8 == 0 && at / 8 < 32 {
            Some(at / 8)
        } else {
            None
        }
    }
}

/// What a data-processing operation computes.
pub open spec fn host_result(op: HostOp, a: u64, b: u64) -> u64 {
    match op {
        HostOp::Add => word(a + b),
        HostOp::Sub => word(a - b),
        HostOp::And => a & b,
        HostOp::Orr => a | b,
        HostOp::Eor => a ^ b,
    }
}

/// `v` with 16-bit lane `hw` replaced by `imm`.
pub open spec fn with_lane(v: u64, imm: u16, hw: u32) -> u64 {
    if hw == 1 {
        (v % 0x1_0000 + imm * 0x1_0000 + v / 0x1_0000_0000 * 0x1_0000_0000) as u64
    } else if hw == 2 {
        (v % 0x1_0000_0000 + imm * 0x1_0000_0000 + v / 0x1_0000_0000_0000 * 0x1_0000_0000_0000)
            as u64
    } else {
        (v % 0x1_0000_0000_0000 + imm * 0x1_0000_0000_0000) as u64
    }
}

/// One instruction.
pub open spec fn hstep(s: HostState, i: Insn) -> HostState {
    match i {
        Insn::Movz { xd, imm } => s.set(xd, imm as u64),
        Insn::Movk { xd, imm, hw } => s.set(xd, with_lane(s.get(xd), imm, hw)),
        Insn::Alu { op, xd, xn, xm } => s.set(xd, host_result(op, s.get(xn), s.get(xm))),
        Insn::Ldr { xt, xn, slot } => match s.cell(xn, slot) {
            Some(k) => s.set(xt, s.mem[k]),
            None => s.set(xt, 0),
        },
        Insn::Store { xt, xn, slot } => match s.cell(xn, slot) {
            Some(k) => HostState { mem: s.mem.update(k, s.get(xt)), ..s },
            None => s,
        },
        Insn::Cmp { xn, xm } => {
            let (a, b) = (s.get(xn), s.get(xm));
            let d = signed(a) - signed(b);
            HostState {
                n: word(a - b) >= 0x8000_0000_0000_0000,
                z: a == b,
                c: a >= b,
                v: d < -0x8000_0000_0000_0000 || d >= 0x8000_0000_0000_0000,
                ..s
            }
        },
        Insn::Csel { xd, xn, xm, cond } => s.set(
            xd,
            if s.cond(cond) {
                s.get(xn)
            } else {
                s.get(xm)
            },
        ),
        Insn::Ret => s,
    }
}

/// A straight run of instructions.
pub open spec fn hrun(s: HostState, code: Seq<Insn>) -> HostState
    decreases code.len(),
{
    if code.len() == 0 {
        s
    } else {
        hstep(hrun(s, code.drop_last()), code.last())
    }
}

/// The bytes of a run of instructions.
pub open spec fn code_bytes(code: Seq<Insn>) -> Seq<u8>
    decreases code.len(),
{
    if code.len() == 0 {
        Seq::empty()
    } else {
        code_bytes(code.drop_last()) + le_bytes(encoded(code.last()) as nat, 4)
    }
}

/// The host state when code from byte offset `at` on has returned, or `None` where it runs
/// into bytes that are not one of these instructions.
pub open spec fn executed(bytes: Seq<u8>, at: int, s: HostState) -> Option<HostState>
    decreases bytes.len() - at,
{
    if at < 0 || at + 4 > bytes.len() {
        None
    } else {
        match decoded(le(bytes.subrange(at, at + 4)) as u32) {
            None => None,
            Some(Insn::Ret) => Some(s),
            Some(i) => executed(bytes, at + 4, hstep(s, i)),
        }
    }
}

/// Running the two parts of a run one after the other.
pub proof fn lemma_hrun_concat(s: HostState, a: Seq<Insn>, b: Seq<Insn>)
    ensures
        hrun(s, a + b) == hrun(hrun(s, a), b),
    decreases b.len(),
{
    if b.len() == 0 {
        assert(a + b =~= a);
    } else {
        lemma_hrun_concat(s, a, b.drop_last());
        assert((a + b).drop_last() =~= a + b.drop_last());
        assert((a + b).last() == b.last());
    }
}

/// A run of one instruction.
pub proof fn lemma_hrun_one(s: HostState, i: Insn)
    ensures
        hrun(s, seq![i]) == hstep(s, i),
{
    assert(seq![i].drop_last() =~= Seq::<Insn>::empty());
    assert(hrun(s, Seq::<Insn>::empty()) == s);
    assert(seq![i].last() == i);
}

/// A run leaves a well-formed state.
pub proof fn lemma_hrun_wf(s: HostState, code: Seq<Insn>)
    requires
        s.wf(),
        forall|k: int| 0 <= k < code.len() ==> (#[trigger] code[k]).wf(),
    ensures
        hrun(s, code).wf(),
    decreases code.len(),
{
    if code.len() > 0 {
        assert forall|k: int| 0 <= k < code.drop_last().len() implies (
        #[trigger] code.drop_last()[k]).wf() by {
            assert(code.drop_last()[k] == code[k]);
        }
        lemma_hrun_wf(s, code.drop_last());
        assert(code[code.len() - 1].wf());
    }
}

/// An instruction occupies four bytes.
pub proof fn lemma_code_len(code: Seq<Insn>)
    ensures
        code_bytes(code).len() == 4 * code.len(),
    decreases code.len(),
{
    if code.len() > 0 {
        lemma_code_len(code.drop_last());
        crate::bytes::lemma_le_of_le_bytes(encoded(code.last()) as nat, 4);
    }
}

/// The bytes of a prefix come first.
proof fn lemma_code_prefix(code: Seq<Insn>, k: int)
    requires
        0 <= k <= code.len(),
    ensures
        code_bytes(code).len() == 4 * code.len(),
        code_bytes(code).take(4 * k) == code_bytes(code.take(k)),
    decreases code.len(),
{
    lemma_code_len(code);
    if k == code.len() {
        assert(code.take(k) =~= code);
        assert(code_bytes(code).take(4 * k) =~= code_bytes(code));
    } else {
        lemma_code_prefix(code.drop_last(), k);
        lemma_code_len(code.drop_last());
        assert(code.drop_last().take(k) =~= code.take(k));
        assert(code_bytes(code).take(4 * k) =~= code_bytes(code.drop_last()).take(4 * k));
    }
}

/// The word at instruction `k`.
proof fn lemma_code_word(code: Seq<Insn>, k: int)
    requires
        0 <= k < code.len(),
    ensures
        4 * k + 4 <= code_bytes(code).len(),
        le(code_bytes(code).subrange(4 * k, 4 * k + 4)) == encoded(code[k]),
{
    lemma_code_prefix(code, k + 1);
    lemma_code_prefix(code, k);
    let head = code.take(k + 1);
    assert(head.drop_last() =~= code.take(k));
    assert(head.last() == code[k]);
    crate::bytes::lemma_le_of_le_bytes(encoded(code[k]) as nat, 4);
    crate::bytes::lemma_span_of_widths();
    lemma_code_len(code.take(k));
    assert(code_bytes(code).subrange(4 * k, 4 * k + 4) =~= code_bytes(code).take(
        4 * k + 4,
    ).subrange(4 * k, 4 * k + 4));
    assert(code_bytes(head).subrange(4 * k, 4 * k + 4) =~= le_bytes(encoded(code[k]) as nat, 4));
}

/// Executing the bytes of a run that ends in `ret` runs the instructions.
pub proof fn law_executing_encoded_code_runs_it(code: Seq<Insn>, s: HostState)
    requires
        code.len() > 0,
        code.last() == Insn::Ret,
        forall|k: int| 0 <= k < code.len() ==> (#[trigger] code[k]).wf(),
        forall|k: int| 0 <= k < code.len() - 1 ==> #[trigger] code[k] != Insn::Ret,
    ensures
        executed(code_bytes(code), 0, s) == Some(hrun(s, code)),
{
    lemma_executed_from(code, 0, s);
    assert(code.take(0) =~= Seq::<Insn>::empty());
}

proof fn lemma_executed_from(code: Seq<Insn>, k: int, s: HostState)
    requires
        0 <= k < code.len(),
        code.last() == Insn::Ret,
        forall|j: int| 0 <= j < code.len() ==> (#[trigger] code[j]).wf(),
        forall|j: int| 0 <= j < code.len() - 1 ==> #[trigger] code[j] != Insn::Ret,
    ensures
        executed(code_bytes(code), 4 * k, hrun(s, code.take(k))) == Some(hrun(s, code)),
    decreases code.len() - k,
{
    lemma_code_word(code, k);
    law_decode_undoes_encode(code[k]);
    let here = hrun(s, code.take(k));
    assert(code.take(k + 1).drop_last() =~= code.take(k));
    assert(code.take(k + 1).last() == code[k]);
    assert(hrun(s, code.take(k + 1)) == hstep(here, code[k]));
    if k == code.len() - 1 {
        assert(code.take(k + 1) =~= code);
    } else {
        assert(code[k] != Insn::Ret);
        lemma_executed_from(code, k + 1, s);
    }
}

/// A host processor.
pub struct Host {
    x: [u64; 32],
    mem: [u64; 32],
    n: bool,
    z: bool,
    c: bool,
    v: bool,
}

impl View for Host {
    type V = HostState;

    closed spec fn view(&self) -> HostState {
        HostState {
            x: self.x@,
            mem: self.mem@,
            n: self.n,
            z: self.z,
            c: self.c,
            v: self.v,
        }
    }
}

/// A host about to call into code: registers and flags clear, so that the argument in `x0`
/// points at the guest register file.
pub open spec fn entry_state(mem: Seq<u64>) -> HostState {
    HostState {
        x: Seq::new(32, |i: int| 0u64),
        mem,
        n: false,
        z: false,
        c: false,
        v: false,
    }
}

impl Host {
    pub fn new(mem: [u64; 32]) -> (r: Self)
        ensures
            r@ == entry_state(mem@),
    {
        let x: [u64; 32] = [0;32];
        let r = Host { x, mem, n: false, z: false, c: false, v: false };
        proof {
            assert(r.x@ =~= Seq::new(32, |i: int| 0u64));
        }
        r
    }

    /// Register `r`.
    pub fn get(&self, r: u32) -> (v: u64)
        requires
            r < 32,
        ensures
            v == self@.get(r),
    {
        if r == XZR {
            0
        } else {
            self.x[r as usize]
        }
    }

    /// Set register `r`.
    pub fn set(&mut self, r: u32, value: u64)
        requires
            r < 32,
        ensures
            final(self)@ == old(self)@.set(r, value),
    {
        if r != XZR {
            self.x[r as usize] = value;
        }
    }

    /// The guest register file.
    pub fn memory(&self) -> (r: [u64; 32])
        ensures
            r@ == self@.mem,
    {
        self.mem
    }

    fn cell(&self, xn: u32, slot: u32) -> (r: Option<usize>)
        requires
            xn < 32,
            slot < 0x1000,
        ensures
            match self@.cell(xn, slot) {
                Some(k) => r == Some(k as usize) && 0 <= k < 32,
                None => r is None,
            },
    {
        let at: u128 = self.get(xn) as u128 + 8 * slot as u128;
        if at % 8 == 0 && at / 8 < 32 {
            Some((at / 8) as usize)
        } else {
            None
        }
    }

    /// Execute one instruction.
    pub fn step(&mut self, i: Insn)
        requires
            i.wf(),
        ensures
            final(self)@ == hstep(old(self)@, i),
    {
        match i {
            Insn::Movz { xd, imm } => {
                self.set(xd, imm as u64);
            },
            Insn::Movk { xd, imm, hw } => {
                let v: u64 = self.get(xd);
                let r: u64 = replace_lane(v, imm, hw);
                self.set(xd, r);
            },
            Insn::Alu { op, xd, xn, xm } => {
                let a: u64 = self.get(xn);
                let b: u64 = self.get(xm);
                let r: u64 = match op {
                    HostOp::Add => a.wrapping_add(b),
                    HostOp::Sub => a.wrapping_sub(b),
                    HostOp::And => a & b,
                    HostOp::Orr => a | b,
                    HostOp::Eor => a ^ b,
                };
                self.set(xd, r);
            },
            Insn::Ldr { xt, xn, slot } => {
                let v: u64 = match self.cell(xn, slot) {
                    Some(k) => self.mem[k],
                    None => 0,
                };
                self.set(xt, v);
            },
            Insn::Store { xt, xn, slot } => {
                match self.cell(xn, slot) {
                    Some(k) => {
                        let v: u64 = self.get(xt);
                        self.mem[k] = v;
                    },
                    None => {},
                }
            },
            Insn::Cmp { xn, xm } => {
                let a: u64 = self.get(xn);
                let b: u64 = self.get(xm);
                let d: i128 = crate::alu::to_signed(a) as i128 - crate::alu::to_signed(b) as i128;
                self.n = a.wrapping_sub(b) >= 0x8000_0000_0000_0000;
                self.z = a == b;
                self.c = a >= b;
                self.v = d < -0x8000_0000_0000_0000i128 || d >= 0x8000_0000_0000_0000i128;
            },
            Insn::Csel { xd, xn, xm, cond } => {
                let holds: bool = match cond {
                    HostCond::Eq => self.z,
                    HostCond::Ne => !self.z,
                    HostCond::Hs => self.c,
                    HostCond::Lo => !self.c,
                    HostCond::Ge => self.n == self.v,
                    HostCond::Lt => self.n != self.v,
                };
                let r: u64 = if holds {
                    self.get(xn)
                } else {
                    self.get(xm)
                };
                self.set(xd, r);
            },
            Insn::Ret => {},
        }
    }

    /// Execute code from byte offset `at` on until it returns: whether it did.
    pub fn call(&mut self, bytes: &[u8], at: usize) -> (r: bool)
        ensures
            match executed(bytes@, at as int, old(self)@) {
                Some(s) => r && final(self)@ == s,
                None => !r,
            },
    {
        let mut k: usize = at;
        let ghost goal = executed(bytes@, at as int, self@);
        while k <= bytes.len() && bytes.len() - k >= 4
            invariant
                goal == executed(bytes@, at as int, old(self)@),
                goal == executed(bytes@, k as int, self@),
            decreases bytes@.len() - k,
        {
            proof {
                crate::bytes::lemma_span_of_widths();
            }
            let w: u32 = get_le(bytes, k, 4) as u32;
            match decode(w) {
                None => {
                    return false;
                },
                Some(Insn::Ret) => {
                    return true;
                },
                Some(i) => {
                    self.step(i);
                },
            }
            k += 4;
        }
        false
    }
}

/// Replace one 16-bit lane.
fn replace_lane(v: u64, imm: u16, hw: u32) -> (r: u64)
    requires
        1 <= hw < 4,
    ensures
        r == with_lane(v, imm, hw),
{
    if hw == 1 {
        v % 0x1_0000 + imm as u64 * 0x1_0000 + v / 0x1_0000_0000 * 0x1_0000_0000
    } else if hw == 2 {
        v % 0x1_0000_0000 + imm as u64 * 0x1_0000_0000 + v / 0x1_0000_0000_0000
            * 0x1_0000_0000_0000
    } else {
        v % 0x1_0000_0000_0000 + imm as u64 * 0x1_0000_0000_0000
    }
}

/// The words of the instructions, as the host's architecture has them: `movz` and `movk` with a
/// lane and sixteen bits, `add`, `sub`, `and`, `orr` and `eor` of two registers, `ldr` and `str`
/// at a multiple of eight bytes, `cmp`, `csel` with a condition, and `ret` to the link register.
pub proof fn law_the_words_of_the_host(a: u32, b: u32, c: u32, imm: u16, hw: u32)
    requires
        a < 32,
        b < 32,
        c < 0x1000,
        1 <= hw < 4,
    ensures
        encoded(Insn::Movz { xd: a, imm }) as int == 0xd280_0000 + imm * 0x20 + a,
        encoded(Insn::Movk { xd: a, imm, hw }) as int == 0xf280_0000 + hw * 0x20_0000 + imm * 0x20
            + a,
        c < 32 ==> {
            &&& encoded(Insn::Alu { op: HostOp::Add, xd: a, xn: b, xm: c }) as int == 0x8b00_0000
                + c * 0x1_0000 + b * 0x20 + a
            &&& encoded(Insn::Alu { op: HostOp::Sub, xd: a, xn: b, xm: c }) as int == 0xcb00_0000
                + c * 0x1_0000 + b * 0x20 + a
            &&& encoded(Insn::Alu { op: HostOp::And, xd: a, xn: b, xm: c }) as int == 0x8a00_0000
                + c * 0x1_0000 + b * 0x20 + a
            &&& encoded(Insn::Alu { op: HostOp::Orr, xd: a, xn: b, xm: c }) as int == 0xaa00_0000
                + c * 0x1_0000 + b * 0x20 + a
            &&& encoded(Insn::Alu { op: HostOp::Eor, xd: a, xn: b, xm: c }) as int == 0xca00_0000
                + c * 0x1_0000 + b * 0x20 + a
        },
        encoded(Insn::Ldr { xt: a, xn: b, slot: c }) as int == 0xf940_0000 + c * 0x400 + b * 0x20
            + a,
        encoded(Insn::Store { xt: a, xn: b, slot: c }) as int == 0xf900_0000 + c * 0x400 + b * 0x20
            + a,
        encoded(Insn::Cmp { xn: a, xm: b }) as int == 0xeb00_001f + b * 0x1_0000 + a * 0x20,
        encoded(Insn::Ret) == 0xd65f_03c0,
{
}

/// The word of `csel`: its condition is one of six, equal, not equal, unsigned not below and
/// below, signed not below and below.
pub proof fn law_the_words_of_a_choice(a: u32, b: u32, c: u32)
    requires
        a < 32,
        b < 32,
        c < 32,
    ensures
        ({
            let base = 0x9a80_0000 + c * 0x1_0000 + b * 0x20 + a;
            let w = |cond: HostCond| encoded(Insn::Csel { xd: a, xn: b, xm: c, cond }) as int;
            &&& w(HostCond::Eq) == base
            &&& w(HostCond::Ne) == base + 0x1000
            &&& w(HostCond::Hs) == base + 0x2000
            &&& w(HostCond::Lo) == base + 0x3000
            &&& w(HostCond::Ge) == base + 0xa000
            &&& w(HostCond::Lt) == base + 0xb000
        }),
{
}

/// After two words were compared, each condition holds of the two as its name says.
pub proof fn law_conditions_tell_of_a_comparison(s: HostState, a: u32, b: u32)
    requires
        a < 31,
        b < 31,
    ensures
        ({
            let t = hstep(s, Insn::Cmp { xn: a, xm: b });
            let (x, y) = (s.x[a as int], s.x[b as int]);
            let sx = if x < 0x8000_0000_0000_0000 {
                x as int
            } else {
                x - 0x1_0000_0000_0000_0000
            };
            let sy = if y < 0x8000_0000_0000_0000 {
                y as int
            } else {
                y - 0x1_0000_0000_0000_0000
            };
            &&& t.x == s.x && t.mem == s.mem
            &&& t.cond(HostCond::Eq) == (x == y)
            &&& t.cond(HostCond::Ne) == (x != y)
            &&& t.cond(HostCond::Lo) == (x < y)
            &&& t.cond(HostCond::Hs) == (x >= y)
            &&& t.cond(HostCond::Lt) == (sx < sy)
            &&& t.cond(HostCond::Ge) == (sx >= sy)
        }),
{
}

/// What the other instructions do: a constant and a lane of one, sums and differences that wrap,
/// the bits of two words, a word of memory into a register and back, and one of two registers by
/// a condition. Register 31 is 0 and keeps it.
pub proof fn law_what_the_host_does(s: HostState, a: u32, b: u32, c: u32, imm: u16, cond: HostCond)
    requires
        a < 31,
        b < 31,
        c < 31,
        s.wf(),
    ensures
        ({
            let (x, y) = (s.x[b as int], s.x[c as int]);
            let put = |v: u64| HostState { x: s.x.update(a as int, v), ..s };
            let alu = |op: HostOp| hstep(s, Insn::Alu { op, xd: a, xn: b, xm: c });
            &&& hstep(s, Insn::Movz { xd: a, imm }) == put(imm as u64)
            &&& alu(HostOp::Add) == put(((x + y) % 0x1_0000_0000_0000_0000) as u64)
            &&& alu(HostOp::Sub) == put(((x - y) % 0x1_0000_0000_0000_0000) as u64)
            &&& alu(HostOp::And) == put(x & y)
            &&& alu(HostOp::Orr) == put(x | y)
            &&& alu(HostOp::Eor) == put(x ^ y)
            &&& hstep(s, Insn::Csel { xd: a, xn: b, xm: c, cond }) == put(
                if s.cond(cond) {
                    x
                } else {
                    y
                },
            )
            &&& x == 0 ==> hstep(s, Insn::Ldr { xt: a, xn: b, slot: c }) == put(s.mem[c as int])
            &&& x == 0 ==> hstep(s, Insn::Store { xt: a, xn: b, slot: c }) == (HostState {
                mem: s.mem.update(c as int, s.x[a as int]),
                ..s
            })
            &&& hstep(s, Insn::Movz { xd: 31, imm }) == s
            &&& x == 0 ==> hstep(s, Insn::Store { xt: 31, xn: b, slot: c }) == (HostState {
                mem: s.mem.update(c as int, 0),
                ..s
            })
        }),
{
}

/// `movk` replaces one lane of sixteen bits and keeps the other three.
pub proof fn law_a_lane_is_replaced(l0: u16, l1: u16, l2: u16, l3: u16, imm: u16)
    ensures
        ({
            let v = (l0 + l1 * 0x1_0000 + l2 * 0x1_0000_0000 + l3 * 0x1_0000_0000_0000) as u64;
            &&& with_lane(v, imm, 1) as int == l0 + imm * 0x1_0000 + l2 * 0x1_0000_0000 + l3
                * 0x1_0000_0000_0000
            &&& with_lane(v, imm, 2) as int == l0 + l1 * 0x1_0000 + imm * 0x1_0000_0000 + l3
                * 0x1_0000_0000_0000
            &&& with_lane(v, imm, 3) as int == l0 + l1 * 0x1_0000 + l2 * 0x1_0000_0000 + imm
                * 0x1_0000_0000_0000
        }),
{
    let v = (l0 + l1 * 0x1_0000 + l2 * 0x1_0000_0000 + l3 * 0x1_0000_0000_0000) as u64;
    assert(v % 0x1_0000 == l0);
    assert(v / 0x1_0000_0000 == l2 + l3 * 0x1_0000);
    assert(v % 0x1_0000_0000 == l0 + l1 * 0x1_0000);
    assert(v / 0x1_0000_0000_0000 == l3);
    assert(v % 0x1_0000_0000_0000 == l0 + l1 * 0x1_0000 + l2 * 0x1_0000_0000);
}

} // verus!
