//! What the short instructions stand for: each is a full instruction with the same registers
//! and number, of which the short form keeps fewer digits.

use vstd::prelude::*;
use crate::decode::{
    c_imm6, c_rd, c_reg2, c_reg7, c_rs2, cb_offset, ci_imm, cj_offset, expansion, i_type,
    j_type, law_b_type_decodes, law_i_type_decodes, law_j_type_decodes, law_r_type_decodes,
    law_s_type_decodes, law_u_type_decodes, widen, Instr,
};
use crate::isa::{register, twos};

verus! {

/// Digits of a half-word: the `size` values at weight `lo`.
pub open spec fn digits(half: u16, lo: int, size: int) -> int {
    half as int / lo % size
}

/// Whether `raw` is the instruction of opcode `op` and digit `f3` with a destination, a source
/// and an immediate.
pub open spec fn with_immediate(raw: u32, op: int, f3: int, rd: int, rs1: int, imm: int) -> bool {
    &&& raw % 0x80 == op
    &&& raw as int / 0x1000 % 8 == f3
    &&& register(raw, 0x80) == rd
    &&& register(raw, 0x8000) == rs1
    &&& twos(raw as int / 0x10_0000, 0x1000) == imm
}

/// Whether `raw` is the shift of digit `f3`, by `shamt`, arithmetic or not.
pub open spec fn shifts(raw: u32, f3: int, alt: bool, rd: int, shamt: int) -> bool {
    &&& raw % 0x80 == 0x13
    &&& raw as int / 0x1000 % 8 == f3
    &&& register(raw, 0x80) == rd
    &&& register(raw, 0x8000) == rd
    &&& raw as int / 0x10_0000 % 0x40 == shamt
    &&& (raw as int / 0x4000_0000 % 2 == 1) == alt
}

/// Whether `raw` is the instruction of opcode `op` and digit `f3` on two registers.
pub open spec fn on_registers(
    raw: u32,
    op: int,
    f3: int,
    alt: bool,
    rd: int,
    rs1: int,
    rs2: int,
) -> bool {
    &&& raw % 0x80 == op
    &&& raw as int / 0x1000 % 8 == f3
    &&& register(raw, 0x80) == rd
    &&& register(raw, 0x8000) == rs1
    &&& register(raw, 0x10_0000) == rs2
    &&& raw as int / 0x200_0000 == if alt {
        0x20int
    } else {
        0
    }
}

/// Whether `raw` is the store of digit `f3` of a register at an offset from another.
pub open spec fn store(raw: u32, f3: int, rs1: int, rs2: int, imm: int) -> bool {
    &&& raw % 0x80 == 0x23
    &&& raw as int / 0x1000 % 8 == f3
    &&& register(raw, 0x8000) == rs1
    &&& register(raw, 0x10_0000) == rs2
    &&& twos(raw as int / 0x200_0000 * 0x20 + raw as int / 0x80 % 0x20, 0x1000) == imm
}

/// Whether `raw` is the branch of digit `f3` that compares a register with 0.
pub open spec fn branch(raw: u32, f3: int, rs1: int, offset: int) -> bool {
    &&& raw % 0x80 == 0x63
    &&& raw as int / 0x1000 % 8 == f3
    &&& register(raw, 0x8000) == rs1
    &&& register(raw, 0x10_0000) == 0
    &&& twos(
        raw as int / 0x8000_0000 * 0x1000 + raw as int / 0x80 % 2 * 0x800 + raw as int
            / 0x200_0000 % 0x40 * 0x20 + raw as int / 0x100 % 0x10 * 2,
        0x2000,
    ) == offset
}

/// Whether `raw` is the jump by an offset that leaves nothing behind.
pub open spec fn jump(raw: u32, offset: int) -> bool {
    &&& raw % 0x80 == 0x6f
    &&& register(raw, 0x80) == 0
    &&& twos(
        raw as int / 0x8000_0000 * 0x10_0000 + raw as int / 0x1000 % 0x100 * 0x1000 + raw as int
            / 0x10_0000 % 2 * 0x800 + raw as int / 0x20_0000 % 0x400 * 2,
        0x20_0000,
    ) == offset
}

/// The number that digits of 6 bits hold, its sign with the digit of weight 0x1000.
pub open spec fn six(half: u16) -> int {
    digits(half, 0x1000, 2) * 0x20 + digits(half, 4, 0x20)
}

proof fn lemma_i(op: u32, f3: u32, rd: u32, rs1: u32, imm: u32)
    requires
        op < 0x80,
        f3 < 8,
        rd < 0x20,
        rs1 < 0x20,
        imm < 0x1000,
    ensures
        with_immediate(
            i_type(op, f3, rd, rs1, imm),
            op as int,
            f3 as int,
            rd as int,
            rs1 as int,
            twos(imm as int, 0x1000),
        ),
        i_type(op, f3, rd, rs1, imm) as int / 0x10_0000 == imm,
{
    law_i_type_decodes(op, f3, rd, rs1, imm);
    let w = i_type(op, f3, rd, rs1, imm) as int;
    let low = rs1 * 0x8000 + f3 * 0x1000 + rd * 0x80 + op;
    assert(0 <= low < 0x10_0000);
    assert(w == imm * 0x10_0000 + low);
    assert(w / 0x10_0000 == imm);
}

proof fn lemma_s(f3: u32, rs1: u32, rs2: u32, imm: u32)
    requires
        f3 < 8,
        rs1 < 0x20,
        rs2 < 0x20,
        imm < 0x800,
    ensures
        store(
            crate::decode::s_type(f3, rs1, rs2, imm),
            f3 as int,
            rs1 as int,
            rs2 as int,
            imm as int,
        ),
{
    law_s_type_decodes(f3, rs1, rs2, imm);
    let i = Instr(crate::decode::s_type(f3, rs1, rs2, imm));
    let field = i.0 as int / 0x200_0000 * 0x20 + i.0 as int / 0x80 % 0x20;
    assert(0 <= field < 0x1000);
}

/// A sign that is kept when a number gets more digits.
proof fn lemma_widened(value: u32, sign: u32, wide: u32)
    requires
        value < 2 * sign,
        2 * sign <= wide,
        wide <= 0x20_0000,
        wide % 2 == 0,
    ensures
        twos(widen(value, sign, wide) as int, wide as int) == twos(value as int, 2 * sign),
        widen(value, sign, wide) < wide,
{
    vstd::arithmetic::div_mod::lemma_small_mod(value as nat, (2 * sign) as nat);
    vstd::arithmetic::div_mod::lemma_small_mod(widen(value, sign, wide) as nat, wide as nat);
}

// Loads, stores and additions.

/// `c.addi4spn` adds a number to the stack pointer.
pub proof fn law_c_addi4spn(half: u16)
    requires
        half % 4 == 0,
        half / 0x2000 == 0,
        half != 0,
    ensures
        expansion(half) is Some,
        ({
            let raw = expansion(half)->0;
            let imm = digits(half, 0x800, 4) * 0x10 + digits(half, 0x80, 0x10) * 0x40 + digits(half, 0x40, 2)
                * 4 + digits(half, 0x20, 2) * 8;
            with_immediate(raw, 0x13, 0, 8 + digits(half, 4, 8), 2, imm)
        }),
{
    let imm = (digits(half, 0x800, 4) * 0x10 + digits(half, 0x80, 0x10) * 0x40 + digits(half, 0x40, 2)
                * 4 + digits(half, 0x20, 2) * 8) as u32;
    lemma_i(0x13, 0, c_reg2(half), 2, imm);
}

/// `c.lw` loads a word.
pub proof fn law_c_lw(half: u16)
    requires
        half % 4 == 0,
        half / 0x2000 == 2,
    ensures
        expansion(half) is Some,
        ({
            let raw = expansion(half)->0;
            let imm = digits(half, 0x400, 8) * 8 + digits(half, 0x40, 2) * 4 + digits(half, 0x20, 2) * 0x40;
            with_immediate(raw, 0x03, 2, 8 + digits(half, 4, 8), 8 + digits(half, 0x80, 8), imm)
        }),
{
    let imm = (digits(half, 0x400, 8) * 8 + digits(half, 0x40, 2) * 4 + digits(half, 0x20, 2) * 0x40) as u32;
    lemma_i(0x03, 2, c_reg2(half), c_reg7(half), imm);
}

/// `c.ld` loads a doubleword.
pub proof fn law_c_ld(half: u16)
    requires
        half % 4 == 0,
        half / 0x2000 == 3,
    ensures
        expansion(half) is Some,
        ({
            let raw = expansion(half)->0;
            let imm = digits(half, 0x400, 8) * 8 + digits(half, 0x20, 4) * 0x40;
            with_immediate(raw, 0x03, 3, 8 + digits(half, 4, 8), 8 + digits(half, 0x80, 8), imm)
        }),
{
    let imm = (digits(half, 0x400, 8) * 8 + digits(half, 0x20, 4) * 0x40) as u32;
    lemma_i(0x03, 3, c_reg2(half), c_reg7(half), imm);
}

/// `c.sw` stores a word.
pub proof fn law_c_sw(half: u16)
    requires
        half % 4 == 0,
        half / 0x2000 == 6,
    ensures
        expansion(half) is Some,
        ({
            let raw = expansion(half)->0;
            let imm = digits(half, 0x400, 8) * 8 + digits(half, 0x40, 2) * 4 + digits(half, 0x20, 2) * 0x40;
            store(raw, 2, 8 + digits(half, 0x80, 8), 8 + digits(half, 4, 8), imm)
        }),
{
    let imm = (digits(half, 0x400, 8) * 8 + digits(half, 0x40, 2) * 4 + digits(half, 0x20, 2) * 0x40) as u32;
    lemma_s(2, c_reg7(half), c_reg2(half), imm);
}

/// `c.sd` stores a doubleword.
pub proof fn law_c_sd(half: u16)
    requires
        half % 4 == 0,
        half / 0x2000 == 7,
    ensures
        expansion(half) is Some,
        ({
            let raw = expansion(half)->0;
            let imm = digits(half, 0x400, 8) * 8 + digits(half, 0x20, 4) * 0x40;
            store(raw, 3, 8 + digits(half, 0x80, 8), 8 + digits(half, 4, 8), imm)
        }),
{
    let imm = (digits(half, 0x400, 8) * 8 + digits(half, 0x20, 4) * 0x40) as u32;
    lemma_s(3, c_reg7(half), c_reg2(half), imm);
}

/// `c.lwsp` loads a word from the stack.
pub proof fn law_c_lwsp(half: u16)
    requires
        half % 4 == 2,
        half / 0x2000 == 2,
    ensures
        expansion(half) is Some,
        ({
            let raw = expansion(half)->0;
            let imm = digits(half, 0x1000, 2) * 0x20 + digits(half, 0x10, 8) * 4 + digits(half, 4, 4) * 0x40;
            with_immediate(raw, 0x03, 2, digits(half, 0x80, 0x20), 2, imm)
        }),
{
    let imm = (digits(half, 0x1000, 2) * 0x20 + digits(half, 0x10, 8) * 4 + digits(half, 4, 4) * 0x40) as u32;
    lemma_i(0x03, 2, c_rd(half), 2, imm);
}

/// `c.ldsp` loads a doubleword from the stack.
pub proof fn law_c_ldsp(half: u16)
    requires
        half % 4 == 2,
        half / 0x2000 == 3,
    ensures
        expansion(half) is Some,
        ({
            let raw = expansion(half)->0;
            let imm = digits(half, 0x1000, 2) * 0x20 + digits(half, 0x20, 4) * 8 + digits(half, 4, 8) * 0x40;
            with_immediate(raw, 0x03, 3, digits(half, 0x80, 0x20), 2, imm)
        }),
{
    let imm = (digits(half, 0x1000, 2) * 0x20 + digits(half, 0x20, 4) * 8 + digits(half, 4, 8) * 0x40) as u32;
    lemma_i(0x03, 3, c_rd(half), 2, imm);
}

/// `c.swsp` stores a word on the stack.
pub proof fn law_c_swsp(half: u16)
    requires
        half % 4 == 2,
        half / 0x2000 == 6,
    ensures
        expansion(half) is Some,
        ({
            let raw = expansion(half)->0;
            let imm = digits(half, 0x200, 0x10) * 4 + digits(half, 0x80, 4) * 0x40;
            store(raw, 2, 2, digits(half, 4, 0x20), imm)
        }),
{
    let imm = (digits(half, 0x200, 0x10) * 4 + digits(half, 0x80, 4) * 0x40) as u32;
    lemma_s(2, 2, c_rs2(half), imm);
}

/// `c.sdsp` stores a doubleword on the stack.
pub proof fn law_c_sdsp(half: u16)
    requires
        half % 4 == 2,
        half / 0x2000 == 7,
    ensures
        expansion(half) is Some,
        ({
            let raw = expansion(half)->0;
            let imm = digits(half, 0x400, 8) * 8 + digits(half, 0x80, 8) * 0x40;
            store(raw, 3, 2, digits(half, 4, 0x20), imm)
        }),
{
    let imm = (digits(half, 0x400, 8) * 8 + digits(half, 0x80, 8) * 0x40) as u32;
    lemma_s(3, 2, c_rs2(half), imm);
}

/// `c.addi` adds a number to a register.
pub proof fn law_c_addi(half: u16)
    requires
        half % 4 == 1,
        half / 0x2000 == 0,
    ensures
        expansion(half) is Some,
        ({
            let raw = expansion(half)->0;
            with_immediate(raw, 0x13, 0, digits(half, 0x80, 0x20), digits(half, 0x80, 0x20), twos(six(half), 0x40))
        }),
{
    lemma_widened(c_imm6(half), 0x20, 0x1000);
    lemma_i(0x13, 0, c_rd(half), c_rd(half), ci_imm(half));
}

/// `c.addiw` adds a number to a 32-bit register.
pub proof fn law_c_addiw(half: u16)
    requires
        half % 4 == 1,
        half / 0x2000 == 1,
    ensures
        expansion(half) is Some,
        ({
            let raw = expansion(half)->0;
            with_immediate(raw, 0x1b, 0, digits(half, 0x80, 0x20), digits(half, 0x80, 0x20), twos(six(half), 0x40))
        }),
{
    lemma_widened(c_imm6(half), 0x20, 0x1000);
    lemma_i(0x1b, 0, c_rd(half), c_rd(half), ci_imm(half));
}

/// `c.li` puts a number in a register.
pub proof fn law_c_li(half: u16)
    requires
        half % 4 == 1,
        half / 0x2000 == 2,
    ensures
        expansion(half) is Some,
        ({
            let raw = expansion(half)->0;
            with_immediate(raw, 0x13, 0, digits(half, 0x80, 0x20), 0, twos(six(half), 0x40))
        }),
{
    lemma_widened(c_imm6(half), 0x20, 0x1000);
    lemma_i(0x13, 0, c_rd(half), 0, ci_imm(half));
}

/// `c.addi16sp` moves the stack pointer.
pub proof fn law_c_addi16sp(half: u16)
    requires
        half % 4 == 1,
        half / 0x2000 == 3,
        digits(half, 0x80, 0x20) == 2,
    ensures
        expansion(half) is Some,
        ({
            let raw = expansion(half)->0;
            let imm = digits(half, 0x1000, 2) * 0x200 + digits(half, 8, 4) * 0x80 + digits(half, 0x20, 2) * 0x40
                + digits(half, 4, 2) * 0x20 + digits(half, 0x40, 2) * 0x10;
            with_immediate(raw, 0x13, 0, 2, 2, twos(imm, 0x400))
        }),
{
    let imm = (digits(half, 0x1000, 2) * 0x200 + digits(half, 8, 4) * 0x80 + digits(half, 0x20, 2) * 0x40
                + digits(half, 4, 2) * 0x20 + digits(half, 0x40, 2) * 0x10) as u32;
    lemma_widened(imm, 0x200, 0x1000);
    lemma_i(0x13, 0, 2, 2, widen(imm, 0x200, 0x1000));
}

/// `c.lui` puts an upper number in a register.
pub proof fn law_c_lui(half: u16)
    requires
        half % 4 == 1,
        half / 0x2000 == 3,
        digits(half, 0x80, 0x20) != 2,
    ensures
        expansion(half) is Some,
        ({
            let raw = expansion(half)->0;
            &&& raw % 0x80 == 0x37
            &&& register(raw, 0x80) == digits(half, 0x80, 0x20)
            &&& twos(raw as int / 0x1000, 0x10_0000) == twos(six(half), 0x40)
        }),
{
    let imm = widen(c_imm6(half), 0x20, 0x10_0000);
    lemma_widened(c_imm6(half), 0x20, 0x10_0000);
    law_u_type_decodes(0x37, c_rd(half), imm);
}

// Shifts and logic.

/// `c.srli` shifts right.
pub proof fn law_c_srli(half: u16)
    requires
        half % 4 == 1,
        half / 0x2000 == 4,
        digits(half, 0x400, 4) == 0,
    ensures
        expansion(half) is Some,
        ({
            let raw = expansion(half)->0;
            shifts(raw, 5, false, 8 + digits(half, 0x80, 8), six(half))
        }),
{
    law_i_type_decodes(0x13, 5, c_reg7(half), c_reg7(half), c_imm6(half));
}

/// `c.srai` shifts right, keeping the sign.
pub proof fn law_c_srai(half: u16)
    requires
        half % 4 == 1,
        half / 0x2000 == 4,
        digits(half, 0x400, 4) == 1,
    ensures
        expansion(half) is Some,
        ({
            let raw = expansion(half)->0;
            shifts(raw, 5, true, 8 + digits(half, 0x80, 8), six(half))
        }),
{
    law_i_type_decodes(0x13, 5, c_reg7(half), c_reg7(half), (0x400 + c_imm6(half)) as u32);
}

/// `c.slli` shifts left.
pub proof fn law_c_slli(half: u16)
    requires
        half % 4 == 2,
        half / 0x2000 == 0,
    ensures
        expansion(half) is Some,
        ({
            let raw = expansion(half)->0;
            shifts(raw, 1, false, digits(half, 0x80, 0x20), six(half))
        }),
{
    law_i_type_decodes(0x13, 1, c_rd(half), c_rd(half), c_imm6(half));
}

/// `c.andi` masks with a number.
pub proof fn law_c_andi(half: u16)
    requires
        half % 4 == 1,
        half / 0x2000 == 4,
        digits(half, 0x400, 4) == 2,
    ensures
        expansion(half) is Some,
        ({
            let raw = expansion(half)->0;
            with_immediate(raw, 0x13, 7, 8 + digits(half, 0x80, 8), 8 + digits(half, 0x80, 8), twos(six(half), 0x40))
        }),
{
    lemma_widened(c_imm6(half), 0x20, 0x1000);
    lemma_i(0x13, 7, c_reg7(half), c_reg7(half), ci_imm(half));
}

/// `c.sub`, `c.xor`, `c.or`, `c.and`, `c.subw` and `c.addw` combine two of the registers 8 to 15.
pub proof fn law_c_register_pairs(half: u16)
    requires
        half % 4 == 1,
        half / 0x2000 == 4,
        digits(half, 0x400, 4) == 3,
    ensures
        ({
            let raw = expansion(half)->0;
            let rd = 8 + digits(half, 0x80, 8);
            let rs2 = 8 + digits(half, 4, 8);
            let wide = digits(half, 0x1000, 2) == 0;
            let kind = digits(half, 0x20, 4);
            &&& expansion(half) is Some <==> wide || kind < 2
            &&& wide && kind == 0 ==> on_registers(raw, 0x33, 0, true, rd, rd, rs2)
            &&& wide && kind == 1 ==> on_registers(raw, 0x33, 4, false, rd, rd, rs2)
            &&& wide && kind == 2 ==> on_registers(raw, 0x33, 6, false, rd, rd, rs2)
            &&& wide && kind == 3 ==> on_registers(raw, 0x33, 7, false, rd, rd, rs2)
            &&& !wide && kind == 0 ==> on_registers(raw, 0x3b, 0, true, rd, rd, rs2)
            &&& !wide && kind == 1 ==> on_registers(raw, 0x3b, 0, false, rd, rd, rs2)
        }),
{
    let (rd, rs2) = (c_reg7(half), c_reg2(half));
    law_r_type_decodes(0x33, 0, 1, rd, rd, rs2);
    law_r_type_decodes(0x33, 4, 0, rd, rd, rs2);
    law_r_type_decodes(0x33, 6, 0, rd, rd, rs2);
    law_r_type_decodes(0x33, 7, 0, rd, rd, rs2);
    law_r_type_decodes(0x3b, 0, 1, rd, rd, rs2);
    law_r_type_decodes(0x3b, 0, 0, rd, rd, rs2);
}

/// `c.jr` jumps to a register, `c.jalr` calls it, `c.mv` copies a register, `c.add` adds one to
/// another, and `c.ebreak` is the breakpoint.
pub proof fn law_c_registers(half: u16)
    requires
        half % 4 == 2,
        half / 0x2000 == 4,
    ensures
        expansion(half) is Some,
        ({
            let raw = expansion(half)->0;
            let rd = digits(half, 0x80, 0x20);
            let rs2 = digits(half, 4, 0x20);
            let high = digits(half, 0x1000, 2) == 1;
            &&& !high && rs2 == 0 ==> with_immediate(raw, 0x67, 0, 0, rd, 0)
            &&& !high && rs2 != 0 ==> on_registers(raw, 0x33, 0, false, rd, 0, rs2)
            &&& high && rs2 == 0 && rd == 0 ==> raw == 0x0010_0073
            &&& high && rs2 == 0 && rd != 0 ==> with_immediate(raw, 0x67, 0, 1, rd, 0)
            &&& high && rs2 != 0 ==> on_registers(raw, 0x33, 0, false, rd, rd, rs2)
        }),
{
    let (rd, rs2) = (c_rd(half), c_rs2(half));
    lemma_i(0x67, 0, 0, rd, 0);
    lemma_i(0x67, 0, 1, rd, 0);
    law_r_type_decodes(0x33, 0, 0, rd, 0, rs2);
    law_r_type_decodes(0x33, 0, 0, rd, rd, rs2);
}

// Jumps and branches.

/// `c.j` jumps.
pub proof fn law_c_j(half: u16)
    requires
        half % 4 == 1,
        half / 0x2000 == 5,
    ensures
        expansion(half) is Some,
        ({
            let raw = expansion(half)->0;
            let offset = digits(half, 0x1000, 2) * 0x800 + digits(half, 0x800, 2) * 0x10 + digits(half, 0x200, 4)
                * 0x100 + digits(half, 0x100, 2) * 0x400 + digits(half, 0x80, 2) * 0x40 + digits(
                half,
                0x40,
                2,
            ) * 0x80 + digits(half, 8, 8) * 2 + digits(half, 4, 2) * 0x20;
            jump(raw, twos(offset, 0x1000))
        }),
{
    let offset = (digits(half, 0x1000, 2) * 0x800 + digits(half, 0x800, 2) * 0x10 + digits(half, 0x200, 4)
                * 0x100 + digits(half, 0x100, 2) * 0x400 + digits(half, 0x80, 2) * 0x40 + digits(
                half,
                0x40,
                2,
            ) * 0x80 + digits(half, 8, 8) * 2 + digits(half, 4, 2) * 0x20) as u32;
    lemma_widened(offset, 0x800, 0x20_0000);
    assert(cj_offset(half) == widen(offset, 0x800, 0x20_0000));
    assert(offset % 2 == 0);
    assert(cj_offset(half) / 2 * 2 == cj_offset(half));
    law_j_type_decodes(0, cj_offset(half));
    crate::isa::lemma_jump_offset(j_type(0, cj_offset(half)));
}

/// `c.beqz` branches if a register is 0.
pub proof fn law_c_beqz(half: u16)
    requires
        half % 4 == 1,
        half / 0x2000 == 6,
    ensures
        expansion(half) is Some,
        ({
            let raw = expansion(half)->0;
            let offset = digits(half, 0x1000, 2) * 0x100 + digits(half, 0x400, 4) * 8 + digits(half, 0x20, 4) * 0x40
                + digits(half, 8, 4) * 2 + digits(half, 4, 2) * 0x20;
            branch(raw, 0, 8 + digits(half, 0x80, 8), twos(offset, 0x200))
        }),
{
    let offset = (digits(half, 0x1000, 2) * 0x100 + digits(half, 0x400, 4) * 8 + digits(half, 0x20, 4) * 0x40
                + digits(half, 8, 4) * 2 + digits(half, 4, 2) * 0x20) as u32;
    lemma_widened(offset, 0x100, 0x2000);
    assert(cb_offset(half) == widen(offset, 0x100, 0x2000));
    assert(offset % 2 == 0);
    assert(cb_offset(half) / 2 * 2 == cb_offset(half));
    law_b_type_decodes(0, c_reg7(half), 0, cb_offset(half));
    crate::isa::lemma_branch_offset(crate::decode::b_type(0, c_reg7(half), 0, cb_offset(half)));
}

/// `c.bnez` branches if a register is not 0.
pub proof fn law_c_bnez(half: u16)
    requires
        half % 4 == 1,
        half / 0x2000 == 7,
    ensures
        expansion(half) is Some,
        ({
            let raw = expansion(half)->0;
            let offset = digits(half, 0x1000, 2) * 0x100 + digits(half, 0x400, 4) * 8 + digits(half, 0x20, 4) * 0x40
                + digits(half, 8, 4) * 2 + digits(half, 4, 2) * 0x20;
            branch(raw, 1, 8 + digits(half, 0x80, 8), twos(offset, 0x200))
        }),
{
    let offset = (digits(half, 0x1000, 2) * 0x100 + digits(half, 0x400, 4) * 8 + digits(half, 0x20, 4) * 0x40
                + digits(half, 8, 4) * 2 + digits(half, 4, 2) * 0x20) as u32;
    lemma_widened(offset, 0x100, 0x2000);
    assert(cb_offset(half) == widen(offset, 0x100, 0x2000));
    assert(offset % 2 == 0);
    assert(cb_offset(half) / 2 * 2 == cb_offset(half));
    law_b_type_decodes(1, c_reg7(half), 0, cb_offset(half));
    crate::isa::lemma_branch_offset(crate::decode::b_type(1, c_reg7(half), 0, cb_offset(half)));
}

/// What no short instruction is named by stands for nothing: the half-word 0, the short
/// floating-point instructions, and what ends in the digits 11.
pub proof fn law_the_rest_stands_for_nothing(half: u16)
    requires
        ({
            let q = half % 4;
            let k = half / 0x2000;
            half == 0 || q == 3 || (q == 0 && (k == 1 || k == 4 || k == 5)) || (q == 2 && (k == 1
                || k == 5))
        }),
    ensures
        expansion(half) is None,
{
}

} // verus!
