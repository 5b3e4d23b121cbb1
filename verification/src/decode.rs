//! Instruction decoding: opcode / funct constants and field extraction over a raw
//! 32-bit instruction word, and the expansion of compressed instructions. Pure: no
//! reference to hart state. Fields are taken by division and remainder, so a field
//! of `w` bits at bit `l` is `raw / 2^l % 2^w`.

use vstd::prelude::*;

pub mod amo_op;
pub mod funct3;
pub mod funct7;
pub mod opcode;
pub mod priv12;
pub mod system;

verus! {

/// funct7 bit 5 (`instr[30]`): selects sub-vs-add and arithmetic-vs-logical shift.
pub const ALT_OP_BIT: u32 = 0x4000_0000;

/// Sign-extend `value`, whose sign bit has weight `sign`, to 64 bits.
#[verifier::allow_in_spec]
pub fn sign_extend(value: u32, sign: u64) -> u64
    requires
        value < 2 * sign,
        sign <= 0x8000_0000,
    returns
        (if value >= sign {
            (value - 2 * sign + 0x1_0000_0000_0000_0000) as u64
        } else {
            value as u64
        }),
{
    if value as u64 >= sign {
        (0xffff_ffff_ffff_ffff - (2 * sign - 1)) + value as u64
    } else {
        value as u64
    }
}

/// A decoded instruction word: thin field accessors over the raw bits.
#[derive(Clone, Copy, Debug, PartialEq, Eq, Structural)]
pub struct Instr(pub u32);

impl Instr {
    #[verifier::allow_in_spec]
    pub fn opcode(self) -> u32
        returns
            self.0 % 0x80,
    {
        self.0 % 0x80
    }

    #[verifier::allow_in_spec]
    pub fn rd(self) -> usize
        returns
            (self.0 / 0x80 % 0x20) as usize,
    {
        (self.0 / 0x80 % 0x20) as usize
    }

    #[verifier::allow_in_spec]
    pub fn rs1(self) -> usize
        returns
            (self.0 / 0x8000 % 0x20) as usize,
    {
        (self.0 / 0x8000 % 0x20) as usize
    }

    #[verifier::allow_in_spec]
    pub fn rs2(self) -> usize
        returns
            (self.0 / 0x10_0000 % 0x20) as usize,
    {
        (self.0 / 0x10_0000 % 0x20) as usize
    }

    #[verifier::allow_in_spec]
    pub fn funct3(self) -> u32
        returns
            self.0 / 0x1000 % 0x8,
    {
        self.0 / 0x1000 % 0x8
    }

    #[verifier::allow_in_spec]
    pub fn funct7(self) -> u32
        returns
            self.0 / 0x200_0000,
    {
        self.0 / 0x200_0000
    }

    /// The AMO operation selector (bits 31:27).
    #[verifier::allow_in_spec]
    pub fn funct5(self) -> u32
        returns
            self.0 / 0x800_0000,
    {
        self.0 / 0x800_0000
    }

    /// CSR address for `csr*` instructions (bits 31:20).
    #[verifier::allow_in_spec]
    pub fn csr(self) -> u16
        returns
            (self.0 / 0x10_0000) as u16,
    {
        (self.0 / 0x10_0000) as u16
    }

    /// funct12 field for SYSTEM privileged instructions (bits 31:20).
    #[verifier::allow_in_spec]
    pub fn funct12(self) -> u32
        returns
            self.0 / 0x10_0000,
    {
        self.0 / 0x10_0000
    }

    /// Sign-extended I-type immediate (bits 31:20).
    #[verifier::allow_in_spec]
    pub fn i_imm(self) -> u64
        returns
            sign_extend(self.0 / 0x10_0000, 0x800),
    {
        sign_extend(self.0 / 0x10_0000, 0x800)
    }

    /// Sign-extended U-type immediate (bits 31:12, low 12 zero).
    #[verifier::allow_in_spec]
    pub fn u_imm(self) -> u64
        returns
            sign_extend((self.0 / 0x1000 * 0x1000) as u32, 0x8000_0000),
    {
        sign_extend((self.0 / 0x1000 * 0x1000) as u32, 0x8000_0000)
    }

    /// 6-bit shift amount for RV64 immediate shifts (bits 25:20).
    #[verifier::allow_in_spec]
    pub fn shamt6(self) -> u32
        returns
            self.0 / 0x10_0000 % 0x40,
    {
        self.0 / 0x10_0000 % 0x40
    }

    /// 5-bit shift amount for RV64 `.w` immediate shifts (bits 24:20).
    #[verifier::allow_in_spec]
    pub fn shamt5(self) -> u32
        returns
            self.0 / 0x10_0000 % 0x20,
    {
        self.0 / 0x10_0000 % 0x20
    }

    /// The 13-bit B-type offset field: bit 12 from instr[31], bit 11 from instr[7],
    /// bits 10:5 from instr[30:25], bits 4:1 from instr[11:8].
    #[verifier::allow_in_spec]
    pub fn b_field(self) -> u32
        returns
            (self.0 / 0x8000_0000 * 0x1000 + self.0 / 0x80 % 2 * 0x800 + self.0 / 0x200_0000 % 0x40 * 0x20 + self.0 / 0x100 % 0x10 * 2) as u32,
    {
        (self.0 / 0x8000_0000 * 0x1000 + self.0 / 0x80 % 2 * 0x800 + self.0 / 0x200_0000 % 0x40 * 0x20 + self.0 / 0x100 % 0x10 * 2) as u32
    }

    /// Sign-extended B-type branch offset (bit 0 always 0).
    #[verifier::allow_in_spec]
    pub fn b_imm(self) -> u64
        returns
            sign_extend(self.b_field(), 0x1000),
    {
        sign_extend(self.b_field(), 0x1000)
    }

    /// The 21-bit J-type offset field: bit 20 from instr[31], bits 19:12 from
    /// instr[19:12], bit 11 from instr[20], bits 10:1 from instr[30:21].
    #[verifier::allow_in_spec]
    pub fn j_field(self) -> u32
        returns
            (self.0 / 0x8000_0000 * 0x10_0000 + self.0 / 0x1000 % 0x100 * 0x1000 + self.0 / 0x10_0000 % 2 * 0x800 + self.0 / 0x20_0000 % 0x400 * 2) as u32,
    {
        (self.0 / 0x8000_0000 * 0x10_0000 + self.0 / 0x1000 % 0x100 * 0x1000 + self.0 / 0x10_0000 % 2 * 0x800 + self.0 / 0x20_0000 % 0x400 * 2) as u32
    }

    /// Sign-extended J-type jump offset (bit 0 always 0).
    #[verifier::allow_in_spec]
    pub fn j_imm(self) -> u64
        returns
            sign_extend(self.j_field(), 0x10_0000),
    {
        sign_extend(self.j_field(), 0x10_0000)
    }

    /// Sign-extended S-type store offset.
    #[verifier::allow_in_spec]
    pub fn s_imm(self) -> u64
        returns
            sign_extend((self.0 / 0x200_0000 * 0x20 + self.0 / 0x80 % 0x20) as u32, 0x800),
    {
        sign_extend((self.0 / 0x200_0000 * 0x20 + self.0 / 0x80 % 0x20) as u32, 0x800)
    }

    /// Whether funct7 bit 5 is set.
    #[verifier::allow_in_spec]
    pub fn is_alt_op(self) -> bool
        returns
            self.0 / 0x4000_0000 % 2 == 1,
    {
        self.0 / 0x4000_0000 % 2 == 1
    }
}

/// A 16-bit half-word is a compressed instruction unless its low two bits are 11.
#[verifier::allow_in_spec]
pub fn is_compressed(half: u16) -> bool
    returns
        half % 4 != 3,
{
    half % 4 != 3
}

// The six instruction formats, as words built from their fields.

/// An R-type word.
#[verifier::allow_in_spec]
pub fn r_type(op: u32, f3: u32, alt: u32, rd: u32, rs1: u32, rs2: u32) -> u32
    requires
        op < 0x80,
        f3 < 8,
        alt < 2,
        rd < 0x20,
        rs1 < 0x20,
        rs2 < 0x20,
    returns
        (alt * 0x4000_0000 + rs2 * 0x10_0000 + rs1 * 0x8000 + f3 * 0x1000 + rd * 0x80 + op) as u32,
{
    (alt * 0x4000_0000 + rs2 * 0x10_0000 + rs1 * 0x8000 + f3 * 0x1000 + rd * 0x80 + op) as u32
}

/// An I-type word; `imm` is the 12-bit immediate field.
#[verifier::allow_in_spec]
pub fn i_type(op: u32, f3: u32, rd: u32, rs1: u32, imm: u32) -> u32
    requires
        op < 0x80,
        f3 < 8,
        rd < 0x20,
        rs1 < 0x20,
        imm < 0x1000,
    returns
        (imm * 0x10_0000 + rs1 * 0x8000 + f3 * 0x1000 + rd * 0x80 + op) as u32,
{
    (imm * 0x10_0000 + rs1 * 0x8000 + f3 * 0x1000 + rd * 0x80 + op) as u32
}

/// An S-type word; `imm` is the 12-bit offset field.
#[verifier::allow_in_spec]
pub fn s_type(f3: u32, rs1: u32, rs2: u32, imm: u32) -> u32
    requires
        f3 < 8,
        rs1 < 0x20,
        rs2 < 0x20,
        imm < 0x1000,
    returns
        (imm / 0x20 * 0x200_0000 + rs2 * 0x10_0000 + rs1 * 0x8000 + f3 * 0x1000 + imm % 0x20 * 0x80 + opcode::STORE) as u32,
{
    (imm / 0x20 * 0x200_0000 + rs2 * 0x10_0000 + rs1 * 0x8000 + f3 * 0x1000 + imm % 0x20 * 0x80 + opcode::STORE) as u32
}

/// A B-type word; `imm` is the 13-bit offset field.
#[verifier::allow_in_spec]
pub fn b_type(f3: u32, rs1: u32, rs2: u32, imm: u32) -> u32
    requires
        f3 < 8,
        rs1 < 0x20,
        rs2 < 0x20,
        imm < 0x2000,
    returns
        (imm / 0x1000 * 0x8000_0000 + imm / 0x20 % 0x40 * 0x200_0000 + rs2 * 0x10_0000 + rs1 * 0x8000 + f3 * 0x1000 + imm / 2 % 0x10 * 0x100 + imm / 0x800 % 2 * 0x80 + opcode::BRANCH) as u32,
{
    (imm / 0x1000 * 0x8000_0000 + imm / 0x20 % 0x40 * 0x200_0000 + rs2 * 0x10_0000 + rs1 * 0x8000 + f3 * 0x1000 + imm / 2 % 0x10 * 0x100 + imm / 0x800 % 2 * 0x80 + opcode::BRANCH) as u32
}

/// A U-type word; `imm` is the 20-bit immediate field.
#[verifier::allow_in_spec]
pub fn u_type(op: u32, rd: u32, imm: u32) -> u32
    requires
        op < 0x80,
        rd < 0x20,
        imm < 0x10_0000,
    returns
        (imm * 0x1000 + rd * 0x80 + op) as u32,
{
    (imm * 0x1000 + rd * 0x80 + op) as u32
}

/// A J-type word; `imm` is the 21-bit offset field.
#[verifier::allow_in_spec]
pub fn j_type(rd: u32, imm: u32) -> u32
    requires
        rd < 0x20,
        imm < 0x20_0000,
    returns
        (imm / 0x10_0000 * 0x8000_0000 + imm / 2 % 0x400 * 0x20_0000 + imm / 0x800 % 2 * 0x10_0000 + imm / 0x1000 % 0x100 * 0x1000 + rd * 0x80 + opcode::JAL) as u32,
{
    (imm / 0x10_0000 * 0x8000_0000 + imm / 2 % 0x400 * 0x20_0000 + imm / 0x800 % 2 * 0x10_0000 + imm / 0x1000 % 0x100 * 0x1000 + rd * 0x80 + opcode::JAL) as u32
}

// Fields of a compressed instruction.

/// The field of a half-word that starts at the bit of weight `lo` and holds `size` values.
#[verifier::allow_in_spec]
pub fn cfield(half: u16, lo: u32, size: u32) -> u32
    requires
        lo > 0,
        size > 0,
    returns
        ((half as u32) / lo % size) as u32,
{
    ((half as u32) / lo % size) as u32
}

/// `rd`/`rs1` (bits 11:7).
#[verifier::allow_in_spec]
pub fn c_rd(half: u16) -> u32
    returns
        cfield(half, 0x80, 0x20),
{
    cfield(half, 0x80, 0x20)
}

/// `rs2` (bits 6:2).
#[verifier::allow_in_spec]
pub fn c_rs2(half: u16) -> u32
    returns
        cfield(half, 0x4, 0x20),
{
    cfield(half, 0x4, 0x20)
}

/// The 3-bit register field at bits 9:7 (`rd'`/`rs1'`), which names `x8..x15`.
#[verifier::allow_in_spec]
pub fn c_reg7(half: u16) -> u32
    returns
        (8 + cfield(half, 0x80, 0x8)) as u32,
{
    (8 + cfield(half, 0x80, 0x8)) as u32
}

/// The 3-bit register field at bits 4:2 (`rd'`/`rs2'`), which names `x8..x15`.
#[verifier::allow_in_spec]
pub fn c_reg2(half: u16) -> u32
    returns
        (8 + cfield(half, 0x4, 0x8)) as u32,
{
    (8 + cfield(half, 0x4, 0x8)) as u32
}

/// The low `wide` values of a sign-extended `value` whose sign bit has weight `sign`.
#[verifier::allow_in_spec]
pub fn widen(value: u32, sign: u32, wide: u32) -> u32
    requires
        value < 2 * sign,
        2 * sign <= wide,
        wide <= 0x20_0000,
    returns
        (if value >= sign { value + (wide - 2 * sign) } else { value as int }) as u32,
{
    if value >= sign {
        value + (wide - 2 * sign)
    } else {
        value
    }
}

/// The 6-bit CI immediate: bit 5 from inst[12], bits 4:0 from inst[6:2].
#[verifier::allow_in_spec]
pub fn c_imm6(half: u16) -> u32
    returns
        (cfield(half, 0x1000, 0x2) * 0x20 + cfield(half, 0x4, 0x20)) as u32,
{
    (cfield(half, 0x1000, 0x2) * 0x20 + cfield(half, 0x4, 0x20)) as u32
}

/// The CI immediate, sign-extended to 12 bits.
#[verifier::allow_in_spec]
pub fn ci_imm(half: u16) -> u32
    returns
        widen(c_imm6(half), 0x20, 0x1000),
{
    widen(c_imm6(half), 0x20, 0x1000)
}

/// CJ offset, sign-extended to 21 bits: bit 11 from inst[12], 4 from [11], 9:8 from
/// [10:9], 10 from [8], 6 from [7], 7 from [6], 3:1 from [5:3], 5 from [2].
#[verifier::allow_in_spec]
pub fn cj_offset(half: u16) -> u32
    returns
        widen((cfield(half, 0x1000, 0x2) * 0x800 + cfield(half, 0x800, 0x2) * 0x10 + cfield(half, 0x200, 0x4) * 0x100 + cfield(half, 0x100, 0x2) * 0x400 + cfield(half, 0x80, 0x2) * 0x40 + cfield(half, 0x40, 0x2) * 0x80 + cfield(half, 0x8, 0x8) * 0x2 + cfield(half, 0x4, 0x2) * 0x20) as u32, 0x800, 0x20_0000),
{
    widen((cfield(half, 0x1000, 0x2) * 0x800 + cfield(half, 0x800, 0x2) * 0x10 + cfield(half, 0x200, 0x4) * 0x100 + cfield(half, 0x100, 0x2) * 0x400 + cfield(half, 0x80, 0x2) * 0x40 + cfield(half, 0x40, 0x2) * 0x80 + cfield(half, 0x8, 0x8) * 0x2 + cfield(half, 0x4, 0x2) * 0x20) as u32, 0x800, 0x20_0000)
}

/// CB offset, sign-extended to 13 bits: bit 8 from inst[12], 4:3 from [11:10], 7:6
/// from [6:5], 2:1 from [4:3], 5 from [2].
#[verifier::allow_in_spec]
pub fn cb_offset(half: u16) -> u32
    returns
        widen((cfield(half, 0x1000, 0x2) * 0x100 + cfield(half, 0x400, 0x4) * 0x8 + cfield(half, 0x20, 0x4) * 0x40 + cfield(half, 0x8, 0x4) * 0x2 + cfield(half, 0x4, 0x2) * 0x20) as u32, 0x100, 0x2000),
{
    widen((cfield(half, 0x1000, 0x2) * 0x100 + cfield(half, 0x400, 0x4) * 0x8 + cfield(half, 0x20, 0x4) * 0x40 + cfield(half, 0x8, 0x4) * 0x2 + cfield(half, 0x4, 0x2) * 0x20) as u32, 0x100, 0x2000)
}

// The compressed instructions, each as the full instruction it stands for.

/// `c.addi4spn rd', uimm` -> `addi rd', x2, uimm`: `uimm[5:4]`=inst[12:11],
/// `[9:6]`=inst[10:7], `[2]`=inst[6], `[3]`=inst[5].
#[verifier::allow_in_spec]
pub fn expand_c_addi4spn(half: u16) -> u32
    returns
        i_type(opcode::OP_IMM, funct3::ADD, c_reg2(half), 2, (cfield(half, 0x800, 0x4) * 0x10 + cfield(half, 0x80, 0x10) * 0x40 + cfield(half, 0x40, 0x2) * 0x4 + cfield(half, 0x20, 0x2) * 0x8) as u32),
{
    i_type(opcode::OP_IMM, funct3::ADD, c_reg2(half), 2, (cfield(half, 0x800, 0x4) * 0x10 + cfield(half, 0x80, 0x10) * 0x40 + cfield(half, 0x40, 0x2) * 0x4 + cfield(half, 0x20, 0x2) * 0x8) as u32)
}

/// `c.lw rd', uimm(rs1')` -> `lw rd', uimm(rs1')`: `uimm[5:3]`=inst[12:10],
/// `[2]`=inst[6], `[6]`=inst[5].
#[verifier::allow_in_spec]
pub fn expand_c_lw(half: u16) -> u32
    returns
        i_type(opcode::LOAD, funct3::load::LW, c_reg2(half), c_reg7(half), (cfield(half, 0x400, 0x8) * 0x8 + cfield(half, 0x40, 0x2) * 0x4 + cfield(half, 0x20, 0x2) * 0x40) as u32),
{
    i_type(opcode::LOAD, funct3::load::LW, c_reg2(half), c_reg7(half), (cfield(half, 0x400, 0x8) * 0x8 + cfield(half, 0x40, 0x2) * 0x4 + cfield(half, 0x20, 0x2) * 0x40) as u32)
}

/// `c.ld rd', uimm(rs1')` -> `ld rd', uimm(rs1')`: `uimm[5:3]`=inst[12:10],
/// `[7:6]`=inst[6:5].
#[verifier::allow_in_spec]
pub fn expand_c_ld(half: u16) -> u32
    returns
        i_type(opcode::LOAD, funct3::load::LD, c_reg2(half), c_reg7(half), (cfield(half, 0x400, 0x8) * 0x8 + cfield(half, 0x20, 0x4) * 0x40) as u32),
{
    i_type(opcode::LOAD, funct3::load::LD, c_reg2(half), c_reg7(half), (cfield(half, 0x400, 0x8) * 0x8 + cfield(half, 0x20, 0x4) * 0x40) as u32)
}

/// `c.sw rs2', uimm(rs1')` -> `sw rs2', uimm(rs1')`.
#[verifier::allow_in_spec]
pub fn expand_c_sw(half: u16) -> u32
    returns
        s_type(funct3::store::SW, c_reg7(half), c_reg2(half), (cfield(half, 0x400, 0x8) * 0x8 + cfield(half, 0x40, 0x2) * 0x4 + cfield(half, 0x20, 0x2) * 0x40) as u32),
{
    s_type(funct3::store::SW, c_reg7(half), c_reg2(half), (cfield(half, 0x400, 0x8) * 0x8 + cfield(half, 0x40, 0x2) * 0x4 + cfield(half, 0x20, 0x2) * 0x40) as u32)
}

/// `c.sd rs2', uimm(rs1')` -> `sd rs2', uimm(rs1')`.
#[verifier::allow_in_spec]
pub fn expand_c_sd(half: u16) -> u32
    returns
        s_type(funct3::store::SD, c_reg7(half), c_reg2(half), (cfield(half, 0x400, 0x8) * 0x8 + cfield(half, 0x20, 0x4) * 0x40) as u32),
{
    s_type(funct3::store::SD, c_reg7(half), c_reg2(half), (cfield(half, 0x400, 0x8) * 0x8 + cfield(half, 0x20, 0x4) * 0x40) as u32)
}

/// `c.addi rd, nzimm` -> `addi rd, rd, nzimm`.
#[verifier::allow_in_spec]
pub fn expand_c_addi(half: u16) -> u32
    returns
        i_type(opcode::OP_IMM, funct3::ADD, c_rd(half), c_rd(half), ci_imm(half)),
{
    i_type(opcode::OP_IMM, funct3::ADD, c_rd(half), c_rd(half), ci_imm(half))
}

/// `c.addiw rd, imm` -> `addiw rd, rd, imm`.
#[verifier::allow_in_spec]
pub fn expand_c_addiw(half: u16) -> u32
    returns
        i_type(opcode::OP_IMM_32, funct3::ADD, c_rd(half), c_rd(half), ci_imm(half)),
{
    i_type(opcode::OP_IMM_32, funct3::ADD, c_rd(half), c_rd(half), ci_imm(half))
}

/// `c.li rd, imm` -> `addi rd, x0, imm`.
#[verifier::allow_in_spec]
pub fn expand_c_li(half: u16) -> u32
    returns
        i_type(opcode::OP_IMM, funct3::ADD, c_rd(half), 0, ci_imm(half)),
{
    i_type(opcode::OP_IMM, funct3::ADD, c_rd(half), 0, ci_imm(half))
}

/// `c.addi16sp sp, nzimm` -> `addi x2, x2, nzimm`: `nzimm[9]`=inst[12], `[8:7]`=inst[4:3],
/// `[6]`=inst[5], `[5]`=inst[2], `[4]`=inst[6].
#[verifier::allow_in_spec]
pub fn expand_c_addi16sp(half: u16) -> u32
    returns
        i_type(opcode::OP_IMM, funct3::ADD, 2, 2, widen((cfield(half, 0x1000, 0x2) * 0x200 + cfield(half, 0x8, 0x4) * 0x80 + cfield(half, 0x20, 0x2) * 0x40 + cfield(half, 0x4, 0x2) * 0x20 + cfield(half, 0x40, 0x2) * 0x10) as u32, 0x200, 0x1000)),
{
    i_type(opcode::OP_IMM, funct3::ADD, 2, 2, widen((cfield(half, 0x1000, 0x2) * 0x200 + cfield(half, 0x8, 0x4) * 0x80 + cfield(half, 0x20, 0x2) * 0x40 + cfield(half, 0x4, 0x2) * 0x20 + cfield(half, 0x40, 0x2) * 0x10) as u32, 0x200, 0x1000))
}

/// `c.lui rd, nzimm` -> `lui rd, nzimm`: the CI immediate, sign-extended to 20 bits.
#[verifier::allow_in_spec]
pub fn expand_c_lui(half: u16) -> u32
    returns
        u_type(opcode::LUI, c_rd(half), widen(c_imm6(half), 0x20, 0x10_0000)),
{
    u_type(opcode::LUI, c_rd(half), widen(c_imm6(half), 0x20, 0x10_0000))
}

/// `c.srli rd', shamt` -> `srli rd', rd', shamt`.
#[verifier::allow_in_spec]
pub fn expand_c_srli(half: u16) -> u32
    returns
        i_type(opcode::OP_IMM, funct3::SR, c_reg7(half), c_reg7(half), c_imm6(half)),
{
    i_type(opcode::OP_IMM, funct3::SR, c_reg7(half), c_reg7(half), c_imm6(half))
}

/// `c.srai rd', shamt` -> `srai rd', rd', shamt`.
#[verifier::allow_in_spec]
pub fn expand_c_srai(half: u16) -> u32
    returns
        i_type(opcode::OP_IMM, funct3::SR, c_reg7(half), c_reg7(half), (0x400 + c_imm6(half)) as u32),
{
    i_type(opcode::OP_IMM, funct3::SR, c_reg7(half), c_reg7(half), (0x400 + c_imm6(half)) as u32)
}

/// `c.andi rd', imm` -> `andi rd', rd', imm`.
#[verifier::allow_in_spec]
pub fn expand_c_andi(half: u16) -> u32
    returns
        i_type(opcode::OP_IMM, funct3::AND, c_reg7(half), c_reg7(half), ci_imm(half)),
{
    i_type(opcode::OP_IMM, funct3::AND, c_reg7(half), c_reg7(half), ci_imm(half))
}

/// `c.slli rd, shamt` -> `slli rd, rd, shamt`.
#[verifier::allow_in_spec]
pub fn expand_c_slli(half: u16) -> u32
    returns
        i_type(opcode::OP_IMM, funct3::SLL, c_rd(half), c_rd(half), c_imm6(half)),
{
    i_type(opcode::OP_IMM, funct3::SLL, c_rd(half), c_rd(half), c_imm6(half))
}

/// `c.j offset` -> `jal x0, offset`.
#[verifier::allow_in_spec]
pub fn expand_c_j(half: u16) -> u32
    returns
        j_type(0, cj_offset(half)),
{
    j_type(0, cj_offset(half))
}

/// `c.beqz rs1', offset` -> `beq rs1', x0, offset`.
#[verifier::allow_in_spec]
pub fn expand_c_beqz(half: u16) -> u32
    returns
        b_type(funct3::branch::BEQ, c_reg7(half), 0, cb_offset(half)),
{
    b_type(funct3::branch::BEQ, c_reg7(half), 0, cb_offset(half))
}

/// `c.bnez rs1', offset` -> `bne rs1', x0, offset`.
#[verifier::allow_in_spec]
pub fn expand_c_bnez(half: u16) -> u32
    returns
        b_type(funct3::branch::BNE, c_reg7(half), 0, cb_offset(half)),
{
    b_type(funct3::branch::BNE, c_reg7(half), 0, cb_offset(half))
}

/// `c.lwsp rd, uimm(sp)` -> `lw rd, uimm(x2)`: `uimm[5]`=inst[12], `[4:2]`=inst[6:4],
/// `[7:6]`=inst[3:2].
#[verifier::allow_in_spec]
pub fn expand_c_lwsp(half: u16) -> u32
    returns
        i_type(opcode::LOAD, funct3::load::LW, c_rd(half), 2, (cfield(half, 0x1000, 0x2) * 0x20 + cfield(half, 0x10, 0x8) * 0x4 + cfield(half, 0x4, 0x4) * 0x40) as u32),
{
    i_type(opcode::LOAD, funct3::load::LW, c_rd(half), 2, (cfield(half, 0x1000, 0x2) * 0x20 + cfield(half, 0x10, 0x8) * 0x4 + cfield(half, 0x4, 0x4) * 0x40) as u32)
}

/// `c.ldsp rd, uimm(sp)` -> `ld rd, uimm(x2)`: `uimm[5]`=inst[12], `[4:3]`=inst[6:5],
/// `[8:6]`=inst[4:2].
#[verifier::allow_in_spec]
pub fn expand_c_ldsp(half: u16) -> u32
    returns
        i_type(opcode::LOAD, funct3::load::LD, c_rd(half), 2, (cfield(half, 0x1000, 0x2) * 0x20 + cfield(half, 0x20, 0x4) * 0x8 + cfield(half, 0x4, 0x8) * 0x40) as u32),
{
    i_type(opcode::LOAD, funct3::load::LD, c_rd(half), 2, (cfield(half, 0x1000, 0x2) * 0x20 + cfield(half, 0x20, 0x4) * 0x8 + cfield(half, 0x4, 0x8) * 0x40) as u32)
}

/// `c.swsp rs2, uimm(sp)` -> `sw rs2, uimm(x2)`: `uimm[5:2]`=inst[12:9], `[7:6]`=inst[8:7].
#[verifier::allow_in_spec]
pub fn expand_c_swsp(half: u16) -> u32
    returns
        s_type(funct3::store::SW, 2, c_rs2(half), (cfield(half, 0x200, 0x10) * 0x4 + cfield(half, 0x80, 0x4) * 0x40) as u32),
{
    s_type(funct3::store::SW, 2, c_rs2(half), (cfield(half, 0x200, 0x10) * 0x4 + cfield(half, 0x80, 0x4) * 0x40) as u32)
}

/// `c.sdsp rs2, uimm(sp)` -> `sd rs2, uimm(x2)`: `uimm[5:3]`=inst[12:10], `[8:6]`=inst[9:7].
#[verifier::allow_in_spec]
pub fn expand_c_sdsp(half: u16) -> u32
    returns
        s_type(funct3::store::SD, 2, c_rs2(half), (cfield(half, 0x400, 0x8) * 0x8 + cfield(half, 0x80, 0x8) * 0x40) as u32),
{
    s_type(funct3::store::SD, 2, c_rs2(half), (cfield(half, 0x400, 0x8) * 0x8 + cfield(half, 0x80, 0x8) * 0x40) as u32)
}

// The clusters that share a quadrant and funct3.

/// The CR cluster (quadrant 10, funct3 100): `c.mv` / `c.add` / `c.jr` / `c.jalr` /
/// `c.ebreak`, selected by bit 12 and whether the register fields are zero.
pub open spec fn cr_word(half: u16) -> u32 {
    if cfield(half, 0x1000, 0x2) == 0 && c_rs2(half) == 0 {
        i_type(opcode::JALR, 0, 0, c_rd(half), 0)
    } else if cfield(half, 0x1000, 0x2) == 0 {
        r_type(opcode::OP, funct3::ADD, 0, c_rd(half), 0, c_rs2(half))
    } else if c_rd(half) == 0 && c_rs2(half) == 0 {
        i_type(opcode::SYSTEM, system::PRIV, 0, 0, priv12::EBREAK)
    } else if c_rs2(half) == 0 {
        i_type(opcode::JALR, 0, 1, c_rd(half), 0)
    } else {
        r_type(opcode::OP, funct3::ADD, 0, c_rd(half), c_rd(half), c_rs2(half))
    }
}

/// The CR cluster (quadrant 10, funct3 100): `c.mv` / `c.add` / `c.jr` / `c.jalr` /
/// `c.ebreak`, selected by bit 12 and whether the register fields are zero.
pub fn expand_cr(half: u16) -> (r: u32)
    ensures
        r == cr_word(half),
{
    if cfield(half, 0x1000, 0x2) == 0 && c_rs2(half) == 0 {
        i_type(opcode::JALR, 0, 0, c_rd(half), 0)
    } else if cfield(half, 0x1000, 0x2) == 0 {
        r_type(opcode::OP, funct3::ADD, 0, c_rd(half), 0, c_rs2(half))
    } else if c_rd(half) == 0 && c_rs2(half) == 0 {
        i_type(opcode::SYSTEM, system::PRIV, 0, 0, priv12::EBREAK)
    } else if c_rs2(half) == 0 {
        i_type(opcode::JALR, 0, 1, c_rd(half), 0)
    } else {
        r_type(opcode::OP, funct3::ADD, 0, c_rd(half), c_rd(half), c_rs2(half))
    }
}

/// CA-format register-register ops (`c.sub`/`c.xor`/`c.or`/`c.and`/`c.subw`/`c.addw`),
/// by bit 12 and bits 6:5.
pub open spec fn ca_word(half: u16) -> Option<u32> {
    if cfield(half, 0x1000, 0x2) == 0 && cfield(half, 0x20, 0x4) == 0 {
        Some(r_type(opcode::OP, funct3::ADD, 1, c_reg7(half), c_reg7(half), c_reg2(half)))
    } else if cfield(half, 0x1000, 0x2) == 0 && cfield(half, 0x20, 0x4) == 1 {
        Some(r_type(opcode::OP, funct3::XOR, 0, c_reg7(half), c_reg7(half), c_reg2(half)))
    } else if cfield(half, 0x1000, 0x2) == 0 && cfield(half, 0x20, 0x4) == 2 {
        Some(r_type(opcode::OP, funct3::OR, 0, c_reg7(half), c_reg7(half), c_reg2(half)))
    } else if cfield(half, 0x1000, 0x2) == 0 {
        Some(r_type(opcode::OP, funct3::AND, 0, c_reg7(half), c_reg7(half), c_reg2(half)))
    } else if cfield(half, 0x20, 0x4) == 0 {
        Some(r_type(opcode::OP_32, funct3::ADD, 1, c_reg7(half), c_reg7(half), c_reg2(half)))
    } else if cfield(half, 0x20, 0x4) == 1 {
        Some(r_type(opcode::OP_32, funct3::ADD, 0, c_reg7(half), c_reg7(half), c_reg2(half)))
    } else {
        None
    }
}

/// CA-format register-register ops (`c.sub`/`c.xor`/`c.or`/`c.and`/`c.subw`/`c.addw`),
/// by bit 12 and bits 6:5.
pub fn expand_c_ca(half: u16) -> (r: Option<u32>)
    ensures
        r == ca_word(half),
{
    if cfield(half, 0x1000, 0x2) == 0 && cfield(half, 0x20, 0x4) == 0 {
        Some(r_type(opcode::OP, funct3::ADD, 1, c_reg7(half), c_reg7(half), c_reg2(half)))
    } else if cfield(half, 0x1000, 0x2) == 0 && cfield(half, 0x20, 0x4) == 1 {
        Some(r_type(opcode::OP, funct3::XOR, 0, c_reg7(half), c_reg7(half), c_reg2(half)))
    } else if cfield(half, 0x1000, 0x2) == 0 && cfield(half, 0x20, 0x4) == 2 {
        Some(r_type(opcode::OP, funct3::OR, 0, c_reg7(half), c_reg7(half), c_reg2(half)))
    } else if cfield(half, 0x1000, 0x2) == 0 {
        Some(r_type(opcode::OP, funct3::AND, 0, c_reg7(half), c_reg7(half), c_reg2(half)))
    } else if cfield(half, 0x20, 0x4) == 0 {
        Some(r_type(opcode::OP_32, funct3::ADD, 1, c_reg7(half), c_reg7(half), c_reg2(half)))
    } else if cfield(half, 0x20, 0x4) == 1 {
        Some(r_type(opcode::OP_32, funct3::ADD, 0, c_reg7(half), c_reg7(half), c_reg2(half)))
    } else {
        None
    }
}

/// Quadrant 01, funct3 100: the misc-ALU cluster, by bits 11:10.
pub open spec fn misc_alu_word(half: u16) -> Option<u32> {
    if cfield(half, 0x400, 0x4) == 0 {
        Some(expand_c_srli(half))
    } else if cfield(half, 0x400, 0x4) == 1 {
        Some(expand_c_srai(half))
    } else if cfield(half, 0x400, 0x4) == 2 {
        Some(expand_c_andi(half))
    } else {
        ca_word(half)
    }
}

/// Quadrant 01, funct3 100: the misc-ALU cluster, by bits 11:10.
pub fn expand_c_misc_alu(half: u16) -> (r: Option<u32>)
    ensures
        r == misc_alu_word(half),
{
    if cfield(half, 0x400, 0x4) == 0 {
        Some(expand_c_srli(half))
    } else if cfield(half, 0x400, 0x4) == 1 {
        Some(expand_c_srai(half))
    } else if cfield(half, 0x400, 0x4) == 2 {
        Some(expand_c_andi(half))
    } else {
        expand_c_ca(half)
    }
}

/// Quadrant 01, funct3 011: `c.addi16sp` when rd is `sp`, else `c.lui`.
pub open spec fn lui_addi16sp_word(half: u16) -> u32 {
    if c_rd(half) == 2 {
        expand_c_addi16sp(half)
    } else {
        expand_c_lui(half)
    }
}

/// Quadrant 01, funct3 011: `c.addi16sp` when rd is `sp`, else `c.lui`.
pub fn expand_c_lui_addi16sp(half: u16) -> (r: u32)
    ensures
        r == lui_addi16sp_word(half),
{
    if c_rd(half) == 2 {
        expand_c_addi16sp(half)
    } else {
        expand_c_lui(half)
    }
}

/// Expand a 16-bit compressed instruction to its canonical 32-bit form, or `None` if it
/// is not a compressed instruction the machine models, as the all-zero half-word is not.
/// Selected by quadrant (bits 1:0) and funct3 (bits 15:13).
pub open spec fn expansion(half: u16) -> Option<u32> {
    if half == 0 {
        None
    } else if half % 4 == 0 && half / 0x2000 == 0 {
        Some(expand_c_addi4spn(half))
    } else if half % 4 == 0 && half / 0x2000 == 2 {
        Some(expand_c_lw(half))
    } else if half % 4 == 0 && half / 0x2000 == 3 {
        Some(expand_c_ld(half))
    } else if half % 4 == 0 && half / 0x2000 == 6 {
        Some(expand_c_sw(half))
    } else if half % 4 == 0 && half / 0x2000 == 7 {
        Some(expand_c_sd(half))
    } else if half % 4 == 1 && half / 0x2000 == 0 {
        Some(expand_c_addi(half))
    } else if half % 4 == 1 && half / 0x2000 == 1 {
        Some(expand_c_addiw(half))
    } else if half % 4 == 1 && half / 0x2000 == 2 {
        Some(expand_c_li(half))
    } else if half % 4 == 1 && half / 0x2000 == 3 {
        Some(lui_addi16sp_word(half))
    } else if half % 4 == 1 && half / 0x2000 == 4 {
        misc_alu_word(half)
    } else if half % 4 == 1 && half / 0x2000 == 5 {
        Some(expand_c_j(half))
    } else if half % 4 == 1 && half / 0x2000 == 6 {
        Some(expand_c_beqz(half))
    } else if half % 4 == 1 && half / 0x2000 == 7 {
        Some(expand_c_bnez(half))
    } else if half % 4 == 2 && half / 0x2000 == 0 {
        Some(expand_c_slli(half))
    } else if half % 4 == 2 && half / 0x2000 == 2 {
        Some(expand_c_lwsp(half))
    } else if half % 4 == 2 && half / 0x2000 == 3 {
        Some(expand_c_ldsp(half))
    } else if half % 4 == 2 && half / 0x2000 == 4 {
        Some(cr_word(half))
    } else if half % 4 == 2 && half / 0x2000 == 6 {
        Some(expand_c_swsp(half))
    } else if half % 4 == 2 && half / 0x2000 == 7 {
        Some(expand_c_sdsp(half))
    } else {
        None
    }
}

/// Expand a 16-bit compressed instruction to its canonical 32-bit form, or `None` if it
/// is not a compressed instruction the machine models, as the all-zero half-word is not.
/// Selected by quadrant (bits 1:0) and funct3 (bits 15:13).
pub fn expand(half: u16) -> (r: Option<u32>)
    ensures
        r == expansion(half),
{
    if half == 0 {
        None
    } else if half % 4 == 0 && half / 0x2000 == 0 {
        Some(expand_c_addi4spn(half))
    } else if half % 4 == 0 && half / 0x2000 == 2 {
        Some(expand_c_lw(half))
    } else if half % 4 == 0 && half / 0x2000 == 3 {
        Some(expand_c_ld(half))
    } else if half % 4 == 0 && half / 0x2000 == 6 {
        Some(expand_c_sw(half))
    } else if half % 4 == 0 && half / 0x2000 == 7 {
        Some(expand_c_sd(half))
    } else if half % 4 == 1 && half / 0x2000 == 0 {
        Some(expand_c_addi(half))
    } else if half % 4 == 1 && half / 0x2000 == 1 {
        Some(expand_c_addiw(half))
    } else if half % 4 == 1 && half / 0x2000 == 2 {
        Some(expand_c_li(half))
    } else if half % 4 == 1 && half / 0x2000 == 3 {
        Some(expand_c_lui_addi16sp(half))
    } else if half % 4 == 1 && half / 0x2000 == 4 {
        expand_c_misc_alu(half)
    } else if half % 4 == 1 && half / 0x2000 == 5 {
        Some(expand_c_j(half))
    } else if half % 4 == 1 && half / 0x2000 == 6 {
        Some(expand_c_beqz(half))
    } else if half % 4 == 1 && half / 0x2000 == 7 {
        Some(expand_c_bnez(half))
    } else if half % 4 == 2 && half / 0x2000 == 0 {
        Some(expand_c_slli(half))
    } else if half % 4 == 2 && half / 0x2000 == 2 {
        Some(expand_c_lwsp(half))
    } else if half % 4 == 2 && half / 0x2000 == 3 {
        Some(expand_c_ldsp(half))
    } else if half % 4 == 2 && half / 0x2000 == 4 {
        Some(expand_cr(half))
    } else if half % 4 == 2 && half / 0x2000 == 6 {
        Some(expand_c_swsp(half))
    } else if half % 4 == 2 && half / 0x2000 == 7 {
        Some(expand_c_sdsp(half))
    } else {
        None
    }
}

// Decoding undoes encoding, format by format.

/// A word that is `lo` below weight `m`, then field `f` of `s` values, then `hi`.
proof fn lemma_field(w: int, lo: int, m: int, f: int, s: int, hi: int)
    requires
        w == lo + m * (f + s * hi),
        0 <= lo < m,
        0 <= f < s,
    ensures
        w / m == f + s * hi,
        w / m % s == f,
        w % m == lo,
{
    let q = f + s * hi;
    assert(m * q == q * m) by (nonlinear_arith);
    assert(s * hi == hi * s) by (nonlinear_arith);
    vstd::arithmetic::div_mod::lemma_fundamental_div_mod_converse(w, m, q, lo);
    vstd::arithmetic::div_mod::lemma_fundamental_div_mod_converse(f + s * hi, s, hi, f);
}

/// An R-type word decodes to the fields it was built from.
pub proof fn law_r_type_decodes(op: u32, f3: u32, alt: u32, rd: u32, rs1: u32, rs2: u32)
    requires
        op < 0x80,
        f3 < 8,
        alt < 2,
        rd < 0x20,
        rs1 < 0x20,
        rs2 < 0x20,
    ensures
        ({
            let w = Instr(r_type(op, f3, alt, rd, rs1, rs2));
            &&& w.opcode() == op
            &&& w.funct3() == f3
            &&& w.rd() == rd
            &&& w.rs1() == rs1
            &&& w.rs2() == rs2
            &&& w.is_alt_op() == (alt == 1)
            &&& w.funct7() == alt * 0x20
        }),
{
    let w = r_type(op, f3, alt, rd, rs1, rs2) as int;
    lemma_field(w, 0, 0x1, op as int, 0x80, 0x1 * (rd as int) + 0x20 * (f3 as int) + 0x100 * (rs1 as int) + 0x2000 * (rs2 as int) + 0x40000 * (0int) + 0x800000 * (alt as int) + 0x1000000 * (0int));
    lemma_field(w, 0x1 * (op as int), 0x80, rd as int, 0x20, 0x1 * (f3 as int) + 0x8 * (rs1 as int) + 0x100 * (rs2 as int) + 0x2000 * (0int) + 0x40000 * (alt as int) + 0x80000 * (0int));
    lemma_field(w, 0x1 * (op as int) + 0x80 * (rd as int), 0x1000, f3 as int, 0x8, 0x1 * (rs1 as int) + 0x20 * (rs2 as int) + 0x400 * (0int) + 0x8000 * (alt as int) + 0x10000 * (0int));
    lemma_field(w, 0x1 * (op as int) + 0x80 * (rd as int) + 0x1000 * (f3 as int), 0x8000, rs1 as int, 0x20, 0x1 * (rs2 as int) + 0x20 * (0int) + 0x400 * (alt as int) + 0x800 * (0int));
    lemma_field(w, 0x1 * (op as int) + 0x80 * (rd as int) + 0x1000 * (f3 as int) + 0x8000 * (rs1 as int), 0x100000, rs2 as int, 0x20, 0x1 * (0int) + 0x20 * (alt as int) + 0x40 * (0int));
    lemma_field(w, 0x1 * (op as int) + 0x80 * (rd as int) + 0x1000 * (f3 as int) + 0x8000 * (rs1 as int) + 0x100000 * (rs2 as int), 0x2000000, 0int, 0x20, 0x1 * (alt as int) + 0x2 * (0int));
    lemma_field(w, 0x1 * (op as int) + 0x80 * (rd as int) + 0x1000 * (f3 as int) + 0x8000 * (rs1 as int) + 0x100000 * (rs2 as int) + 0x2000000 * (0int), 0x40000000, alt as int, 0x2, 0x1 * (0int));
    lemma_field(w, 0x1 * (op as int) + 0x80 * (rd as int) + 0x1000 * (f3 as int) + 0x8000 * (rs1 as int) + 0x100000 * (rs2 as int) + 0x2000000 * (0int) + 0x40000000 * (alt as int), 0x80000000, 0int, 0x2, 0);
}

/// An I-type word decodes to the fields it was built from, the immediate sign-extended
/// from its 12 bits.
#[verifier::spinoff_prover]
#[verifier::rlimit(60)]
pub proof fn law_i_type_decodes(op: u32, f3: u32, rd: u32, rs1: u32, imm: u32)
    requires
        op < 0x80,
        f3 < 8,
        rd < 0x20,
        rs1 < 0x20,
        imm < 0x1000,
    ensures
        ({
            let w = Instr(i_type(op, f3, rd, rs1, imm));
            &&& w.opcode() == op
            &&& w.funct3() == f3
            &&& w.rd() == rd
            &&& w.rs1() == rs1
            &&& w.i_imm() == sign_extend(imm, 0x800)
            &&& w.shamt6() == imm % 0x40
            &&& w.is_alt_op() == (imm / 0x400 % 2 == 1)
        }),
{
    assert(imm as int == imm as int % 0x40 + 0x40 * (imm as int / 0x40 % 0x10) + 0x400 * (imm as int / 0x400 % 2) + 0x800 * (imm as int / 0x800));
    let w = i_type(op, f3, rd, rs1, imm) as int;
    lemma_field(w, 0, 0x1, op as int, 0x80, 0x1 * (rd as int) + 0x20 * (f3 as int) + 0x100 * (rs1 as int) + 0x2000 * (imm as int % 0x40) + 0x80000 * (imm as int / 0x40 % 0x10) + 0x800000 * (imm as int / 0x400 % 2) + 0x1000000 * (imm as int / 0x800));
    lemma_field(w, 0x1 * (op as int), 0x80, rd as int, 0x20, 0x1 * (f3 as int) + 0x8 * (rs1 as int) + 0x100 * (imm as int % 0x40) + 0x4000 * (imm as int / 0x40 % 0x10) + 0x40000 * (imm as int / 0x400 % 2) + 0x80000 * (imm as int / 0x800));
    lemma_field(w, 0x1 * (op as int) + 0x80 * (rd as int), 0x1000, f3 as int, 0x8, 0x1 * (rs1 as int) + 0x20 * (imm as int % 0x40) + 0x800 * (imm as int / 0x40 % 0x10) + 0x8000 * (imm as int / 0x400 % 2) + 0x10000 * (imm as int / 0x800));
    lemma_field(w, 0x1 * (op as int) + 0x80 * (rd as int) + 0x1000 * (f3 as int), 0x8000, rs1 as int, 0x20, 0x1 * (imm as int % 0x40) + 0x40 * (imm as int / 0x40 % 0x10) + 0x400 * (imm as int / 0x400 % 2) + 0x800 * (imm as int / 0x800));
    lemma_field(w, 0x1 * (op as int) + 0x80 * (rd as int) + 0x1000 * (f3 as int) + 0x8000 * (rs1 as int), 0x100000, imm as int % 0x40, 0x40, 0x1 * (imm as int / 0x40 % 0x10) + 0x10 * (imm as int / 0x400 % 2) + 0x20 * (imm as int / 0x800));
    lemma_field(w, 0x1 * (op as int) + 0x80 * (rd as int) + 0x1000 * (f3 as int) + 0x8000 * (rs1 as int) + 0x100000 * (imm as int % 0x40), 0x4000000, imm as int / 0x40 % 0x10, 0x10, 0x1 * (imm as int / 0x400 % 2) + 0x2 * (imm as int / 0x800));
    lemma_field(w, 0x1 * (op as int) + 0x80 * (rd as int) + 0x1000 * (f3 as int) + 0x8000 * (rs1 as int) + 0x100000 * (imm as int % 0x40) + 0x4000000 * (imm as int / 0x40 % 0x10), 0x40000000, imm as int / 0x400 % 2, 0x2, 0x1 * (imm as int / 0x800));
    lemma_field(w, 0x1 * (op as int) + 0x80 * (rd as int) + 0x1000 * (f3 as int) + 0x8000 * (rs1 as int) + 0x100000 * (imm as int % 0x40) + 0x4000000 * (imm as int / 0x40 % 0x10) + 0x40000000 * (imm as int / 0x400 % 2), 0x80000000, imm as int / 0x800, 0x2, 0);
    lemma_field(w, 0x1 * (op as int) + 0x80 * (rd as int) + 0x1000 * (f3 as int) + 0x8000 * (rs1 as int), 0x10_0000, imm as int, 0x1000, 0);
}

/// An S-type word decodes to the fields it was built from.
#[verifier::spinoff_prover]
#[verifier::rlimit(60)]
pub proof fn law_s_type_decodes(f3: u32, rs1: u32, rs2: u32, imm: u32)
    requires
        f3 < 8,
        rs1 < 0x20,
        rs2 < 0x20,
        imm < 0x1000,
    ensures
        ({
            let w = Instr(s_type(f3, rs1, rs2, imm));
            &&& w.opcode() == opcode::STORE
            &&& w.funct3() == f3
            &&& w.rs1() == rs1
            &&& w.rs2() == rs2
            &&& w.s_imm() == sign_extend(imm, 0x800)
        }),
{
    let w = s_type(f3, rs1, rs2, imm) as int;
    lemma_field(w, 0, 0x1, opcode::STORE as int, 0x80, 0x1 * (imm as int % 0x20) + 0x20 * (f3 as int) + 0x100 * (rs1 as int) + 0x2000 * (rs2 as int) + 0x40000 * (imm as int / 0x20));
    lemma_field(w, 0x1 * (opcode::STORE as int), 0x80, imm as int % 0x20, 0x20, 0x1 * (f3 as int) + 0x8 * (rs1 as int) + 0x100 * (rs2 as int) + 0x2000 * (imm as int / 0x20));
    lemma_field(w, 0x1 * (opcode::STORE as int) + 0x80 * (imm as int % 0x20), 0x1000, f3 as int, 0x8, 0x1 * (rs1 as int) + 0x20 * (rs2 as int) + 0x400 * (imm as int / 0x20));
    lemma_field(w, 0x1 * (opcode::STORE as int) + 0x80 * (imm as int % 0x20) + 0x1000 * (f3 as int), 0x8000, rs1 as int, 0x20, 0x1 * (rs2 as int) + 0x20 * (imm as int / 0x20));
    lemma_field(w, 0x1 * (opcode::STORE as int) + 0x80 * (imm as int % 0x20) + 0x1000 * (f3 as int) + 0x8000 * (rs1 as int), 0x100000, rs2 as int, 0x20, 0x1 * (imm as int / 0x20));
    lemma_field(w, 0x1 * (opcode::STORE as int) + 0x80 * (imm as int % 0x20) + 0x1000 * (f3 as int) + 0x8000 * (rs1 as int) + 0x100000 * (rs2 as int), 0x2000000, imm as int / 0x20, 0x80, 0);
}

/// A B-type word decodes to the fields it was built from; bit 0 of the offset is lost.
#[verifier::spinoff_prover]
#[verifier::rlimit(60)]
pub proof fn law_b_type_decodes(f3: u32, rs1: u32, rs2: u32, imm: u32)
    requires
        f3 < 8,
        rs1 < 0x20,
        rs2 < 0x20,
        imm < 0x2000,
    ensures
        ({
            let w = Instr(b_type(f3, rs1, rs2, imm));
            &&& w.opcode() == opcode::BRANCH
            &&& w.funct3() == f3
            &&& w.rs1() == rs1
            &&& w.rs2() == rs2
            &&& w.b_field() == imm / 2 * 2
        }),
{
    assert(imm as int / 2 * 2 == imm as int / 2 % 0x10 * 2 + imm as int / 0x20 % 0x40 * 0x20 + imm as int / 0x800 % 2 * 0x800 + imm as int / 0x1000 * 0x1000);
    let w = b_type(f3, rs1, rs2, imm) as int;
    lemma_field(w, 0, 0x1, opcode::BRANCH as int, 0x80, 0x1 * (imm as int / 0x800 % 2) + 0x2 * (imm as int / 2 % 0x10) + 0x20 * (f3 as int) + 0x100 * (rs1 as int) + 0x2000 * (rs2 as int) + 0x40000 * (imm as int / 0x20 % 0x40) + 0x1000000 * (imm as int / 0x1000));
    lemma_field(w, 0x1 * (opcode::BRANCH as int), 0x80, imm as int / 0x800 % 2, 0x2, 0x1 * (imm as int / 2 % 0x10) + 0x10 * (f3 as int) + 0x80 * (rs1 as int) + 0x1000 * (rs2 as int) + 0x20000 * (imm as int / 0x20 % 0x40) + 0x800000 * (imm as int / 0x1000));
    lemma_field(w, 0x1 * (opcode::BRANCH as int) + 0x80 * (imm as int / 0x800 % 2), 0x100, imm as int / 2 % 0x10, 0x10, 0x1 * (f3 as int) + 0x8 * (rs1 as int) + 0x100 * (rs2 as int) + 0x2000 * (imm as int / 0x20 % 0x40) + 0x80000 * (imm as int / 0x1000));
    lemma_field(w, 0x1 * (opcode::BRANCH as int) + 0x80 * (imm as int / 0x800 % 2) + 0x100 * (imm as int / 2 % 0x10), 0x1000, f3 as int, 0x8, 0x1 * (rs1 as int) + 0x20 * (rs2 as int) + 0x400 * (imm as int / 0x20 % 0x40) + 0x10000 * (imm as int / 0x1000));
    lemma_field(w, 0x1 * (opcode::BRANCH as int) + 0x80 * (imm as int / 0x800 % 2) + 0x100 * (imm as int / 2 % 0x10) + 0x1000 * (f3 as int), 0x8000, rs1 as int, 0x20, 0x1 * (rs2 as int) + 0x20 * (imm as int / 0x20 % 0x40) + 0x800 * (imm as int / 0x1000));
    lemma_field(w, 0x1 * (opcode::BRANCH as int) + 0x80 * (imm as int / 0x800 % 2) + 0x100 * (imm as int / 2 % 0x10) + 0x1000 * (f3 as int) + 0x8000 * (rs1 as int), 0x100000, rs2 as int, 0x20, 0x1 * (imm as int / 0x20 % 0x40) + 0x40 * (imm as int / 0x1000));
    lemma_field(w, 0x1 * (opcode::BRANCH as int) + 0x80 * (imm as int / 0x800 % 2) + 0x100 * (imm as int / 2 % 0x10) + 0x1000 * (f3 as int) + 0x8000 * (rs1 as int) + 0x100000 * (rs2 as int), 0x2000000, imm as int / 0x20 % 0x40, 0x40, 0x1 * (imm as int / 0x1000));
    lemma_field(w, 0x1 * (opcode::BRANCH as int) + 0x80 * (imm as int / 0x800 % 2) + 0x100 * (imm as int / 2 % 0x10) + 0x1000 * (f3 as int) + 0x8000 * (rs1 as int) + 0x100000 * (rs2 as int) + 0x2000000 * (imm as int / 0x20 % 0x40), 0x80000000, imm as int / 0x1000, 0x2, 0);
}

/// A J-type word decodes to the fields it was built from; bit 0 of the offset is lost.
#[verifier::spinoff_prover]
#[verifier::rlimit(60)]
pub proof fn law_j_type_decodes(rd: u32, imm: u32)
    requires
        rd < 0x20,
        imm < 0x20_0000,
    ensures
        ({
            let w = Instr(j_type(rd, imm));
            &&& w.opcode() == opcode::JAL
            &&& w.rd() == rd
            &&& w.j_field() == imm / 2 * 2
        }),
{
    assert(imm as int / 2 * 2 == imm as int / 2 % 0x400 * 2 + imm as int / 0x800 % 2 * 0x800 + imm as int / 0x1000 % 0x100 * 0x1000 + imm as int / 0x10_0000 * 0x10_0000);
    let w = j_type(rd, imm) as int;
    lemma_field(w, 0, 0x1, opcode::JAL as int, 0x80, 0x1 * (rd as int) + 0x20 * (imm as int / 0x1000 % 0x100) + 0x2000 * (imm as int / 0x800 % 2) + 0x4000 * (imm as int / 2 % 0x400) + 0x1000000 * (imm as int / 0x10_0000));
    lemma_field(w, 0x1 * (opcode::JAL as int), 0x80, rd as int, 0x20, 0x1 * (imm as int / 0x1000 % 0x100) + 0x100 * (imm as int / 0x800 % 2) + 0x200 * (imm as int / 2 % 0x400) + 0x80000 * (imm as int / 0x10_0000));
    lemma_field(w, 0x1 * (opcode::JAL as int) + 0x80 * (rd as int), 0x1000, imm as int / 0x1000 % 0x100, 0x100, 0x1 * (imm as int / 0x800 % 2) + 0x2 * (imm as int / 2 % 0x400) + 0x800 * (imm as int / 0x10_0000));
    lemma_field(w, 0x1 * (opcode::JAL as int) + 0x80 * (rd as int) + 0x1000 * (imm as int / 0x1000 % 0x100), 0x100000, imm as int / 0x800 % 2, 0x2, 0x1 * (imm as int / 2 % 0x400) + 0x400 * (imm as int / 0x10_0000));
    lemma_field(w, 0x1 * (opcode::JAL as int) + 0x80 * (rd as int) + 0x1000 * (imm as int / 0x1000 % 0x100) + 0x100000 * (imm as int / 0x800 % 2), 0x200000, imm as int / 2 % 0x400, 0x400, 0x1 * (imm as int / 0x10_0000));
    lemma_field(w, 0x1 * (opcode::JAL as int) + 0x80 * (rd as int) + 0x1000 * (imm as int / 0x1000 % 0x100) + 0x100000 * (imm as int / 0x800 % 2) + 0x200000 * (imm as int / 2 % 0x400), 0x80000000, imm as int / 0x10_0000, 0x2, 0);
}

/// A U-type word decodes to the fields it was built from.
pub proof fn law_u_type_decodes(op: u32, rd: u32, imm: u32)
    requires
        op < 0x80,
        rd < 0x20,
        imm < 0x10_0000,
    ensures
        ({
            let w = Instr(u_type(op, rd, imm));
            &&& w.opcode() == op
            &&& w.rd() == rd
            &&& w.u_imm() == sign_extend((imm * 0x1000) as u32, 0x8000_0000)
        }),
{
}

} // verus!
