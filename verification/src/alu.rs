//! The integer unit: what each RV64IMA arithmetic operation computes, as functions from
//! operand values to result values. Registers hold 64-bit words; [`signed`] reads a word
//! as the two's-complement integer it stands for and [`word`] writes one back.

use vstd::prelude::*;
use crate::decode::{amo_op, funct3, sign_extend};

verus! {

/// The two's-complement integer a 64-bit word stands for.
pub open spec fn signed(v: u64) -> int {
    if v < 0x8000_0000_0000_0000 {
        v as int
    } else {
        v - 0x1_0000_0000_0000_0000
    }
}

/// The 64-bit word of an integer, wrapping.
pub open spec fn word(i: int) -> u64 {
    (i % 0x1_0000_0000_0000_0000) as u64
}

/// Writing an integer as a word and reading it back gives it again, where it fits.
pub proof fn lemma_word_of_signed(v: u64)
    ensures
        word(signed(v)) == v,
        -0x8000_0000_0000_0000 <= signed(v) < 0x8000_0000_0000_0000,
{
}

/// The word an `i64` is stored in.
#[verifier::allow_in_spec]
pub fn to_word(i: i64) -> u64
    returns
        word(i as int),
{
    if i >= 0 {
        i as u64
    } else {
        (i - i64::MIN) as u64 + 0x8000_0000_0000_0000
    }
}

/// The `i64` a word stands for.
#[verifier::allow_in_spec]
pub fn to_signed(v: u64) -> i64
    returns
        signed(v) as i64,
{
    if v < 0x8000_0000_0000_0000 {
        v as i64
    } else {
        (v - 0x8000_0000_0000_0000) as i64 + i64::MIN
    }
}

/// Whether `a` is below `b` as signed words.
#[verifier::allow_in_spec]
pub fn less_signed(a: u64, b: u64) -> bool
    returns
        signed(a) < signed(b),
{
    let na: bool = a >= 0x8000_0000_0000_0000;
    let nb: bool = b >= 0x8000_0000_0000_0000;
    if na == nb {
        a < b
    } else {
        na
    }
}

/// The low 32 bits of a word.
#[verifier::allow_in_spec]
pub fn low32(v: u64) -> u32
    returns
        (v % 0x1_0000_0000) as u32,
{
    (v % 0x1_0000_0000) as u32
}

/// Sign-extend a 32-bit result to 64 bits (the `.w` instruction convention).
#[verifier::allow_in_spec]
pub fn sext32(v: u32) -> u64
    returns
        sign_extend(v, 0x8000_0000),
{
    sign_extend(v, 0x8000_0000)
}

/// `v` rounded down to an even number: a jump target.
#[verifier::allow_in_spec]
pub fn even(v: u64) -> u64
    returns
        (v - v % 2) as u64,
{
    v - v % 2
}

/// Set (`on`) or clear (`!on`) the bits of `mask` in `value`.
#[verifier::allow_in_spec]
pub fn with_bit(value: u64, mask: u64, on: bool) -> u64
    returns
        (if on {
            value | mask
        } else {
            value & !mask
        }),
{
    if on {
        value | mask
    } else {
        value & !mask
    }
}

/// Shift `a` right by `sh`, copies of the sign bit coming in.
#[verifier::allow_in_spec]
pub fn shift_right_signed(a: u64, sh: u64) -> u64
    requires
        sh < 64,
    returns
        (if a < 0x8000_0000_0000_0000 {
            a >> sh
        } else {
            !((!a) >> sh)
        }),
{
    if a < 0x8000_0000_0000_0000 {
        a >> sh
    } else {
        !((!a) >> sh)
    }
}

/// A register-immediate / register-register integer op (`OP-IMM` / `OP` and their 32-bit
/// `.w` forms): `apply(a, b)` treats `b` as the immediate or as `x[rs2]`; shifts mask it.
#[derive(Clone, Copy, Debug, PartialEq, Eq, Structural)]
pub enum AluOp {
    Add,
    Sub,
    Sll,
    Slt,
    Sltu,
    Xor,
    Srl,
    Sra,
    Or,
    And,
    AddW,
    SubW,
    SllW,
    SrlW,
    SraW,
}

impl AluOp {
    /// What the op computes. The `.w` forms work on the low 32 bits and sign-extend
    /// their result.
    #[verifier::opaque]
    pub open spec fn result(self, a: u64, b: u64) -> u64 {
        let sh = b % 64;
        let shw = b % 32;
        match self {
            AluOp::Add => word(a + b),
            AluOp::Sub => word(a - b),
            AluOp::Sll => a << sh,
            AluOp::Slt => if signed(a) < signed(b) {
                1
            } else {
                0
            },
            AluOp::Sltu => if a < b {
                1
            } else {
                0
            },
            AluOp::Xor => a ^ b,
            AluOp::Srl => a >> sh,
            AluOp::Sra => shift_right_signed(a, sh),
            AluOp::Or => a | b,
            AluOp::And => a & b,
            AluOp::AddW => sext32(low32(word(a + b))),
            AluOp::SubW => sext32(low32(word(a - b))),
            AluOp::SllW => sext32(low32(a << shw)),
            AluOp::SrlW => sext32(low32(low32(a) as u64 >> shw)),
            AluOp::SraW => sext32(low32(shift_right_signed(sext32(low32(a)), shw))),
        }
    }

    /// Apply the op to two 64-bit operands (`b` is the immediate or `x[rs2]`).
    pub fn apply(self, a: u64, b: u64) -> (r: u64)
        ensures
            r == self.result(a, b),
    {
        proof {
            reveal(AluOp::result);
        }
        let sh: u64 = b % 64;
        let shw: u64 = b % 32;
        match self {
            AluOp::Add => a.wrapping_add(b),
            AluOp::Sub => a.wrapping_sub(b),
            AluOp::Sll => a << sh,
            AluOp::Slt => if less_signed(a, b) {
                1
            } else {
                0
            },
            AluOp::Sltu => if a < b {
                1
            } else {
                0
            },
            AluOp::Xor => a ^ b,
            AluOp::Srl => a >> sh,
            AluOp::Sra => shift_right_signed(a, sh),
            AluOp::Or => a | b,
            AluOp::And => a & b,
            AluOp::AddW => sext32(low32(a.wrapping_add(b))),
            AluOp::SubW => sext32(low32(a.wrapping_sub(b))),
            AluOp::SllW => sext32(low32(a << shw)),
            AluOp::SrlW => sext32(low32(low32(a) as u64 >> shw)),
            AluOp::SraW => sext32(low32(shift_right_signed(sext32(low32(a)), shw))),
        }
    }
}

/// A branch condition (`funct3` of a `BRANCH`), pre-decoded.
#[derive(Clone, Copy, Debug, PartialEq, Eq, Structural)]
pub enum Cond {
    Eq,
    Ne,
    Lt,
    Ge,
    Ltu,
    Geu,
}

impl Cond {
    /// Whether the condition holds of `a = x[rs1]` and `b = x[rs2]`.
    #[verifier::opaque]
    pub open spec fn holds(self, a: u64, b: u64) -> bool {
        match self {
            Cond::Eq => a == b,
            Cond::Ne => a != b,
            Cond::Lt => signed(a) < signed(b),
            Cond::Ge => signed(a) >= signed(b),
            Cond::Ltu => a < b,
            Cond::Geu => a >= b,
        }
    }

    /// Whether the branch is taken for operands `a = x[rs1]`, `b = x[rs2]`.
    pub fn eval(self, a: u64, b: u64) -> (r: bool)
        ensures
            r == self.holds(a, b),
    {
        proof {
            reveal(Cond::holds);
        }
        match self {
            Cond::Eq => a == b,
            Cond::Ne => a != b,
            Cond::Lt => less_signed(a, b),
            Cond::Ge => !less_signed(a, b),
            Cond::Ltu => a < b,
            Cond::Geu => a >= b,
        }
    }
}

/// The size of an integer.
pub open spec fn magnitude_of(i: int) -> int {
    if i < 0 {
        -i
    } else {
        i
    }
}

/// Division rounding toward zero.
pub open spec fn truncated_quotient(a: int, b: int) -> int {
    if (a < 0) == (b < 0) {
        magnitude_of(a) / magnitude_of(b)
    } else {
        -(magnitude_of(a) / magnitude_of(b))
    }
}

/// The remainder of that division, which takes the dividend's sign.
pub open spec fn truncated_remainder(a: int, b: int) -> int {
    if a < 0 {
        -(magnitude_of(a) % magnitude_of(b))
    } else {
        magnitude_of(a) % magnitude_of(b)
    }
}

fn magnitude(v: u64) -> (r: u64)
    ensures
        r == magnitude_of(signed(v)),
        r <= 0x8000_0000_0000_0000,
        r == 0 <==> v == 0,
{
    if v < 0x8000_0000_0000_0000 {
        v
    } else {
        (0xffff_ffff_ffff_ffff - v) + 1
    }
}

/// What signed `div` computes: -1 where the divisor is 0; the one overflow (`MIN / -1`)
/// wraps back to the dividend.
pub open spec fn signed_quotient(a: u64, b: u64) -> u64 {
    if b == 0 {
        0xffff_ffff_ffff_ffff
    } else {
        word(truncated_quotient(signed(a), signed(b)))
    }
}

/// What signed `rem` computes: the dividend where the divisor is 0.
pub open spec fn signed_remainder(a: u64, b: u64) -> u64 {
    if b == 0 {
        a
    } else {
        word(truncated_remainder(signed(a), signed(b)))
    }
}

/// Signed division.
pub fn div_s(a: u64, b: u64) -> (r: u64)
    ensures
        r == signed_quotient(a, b),
{
    if b == 0 {
        return 0xffff_ffff_ffff_ffff;
    }
    let q: u64 = magnitude(a) / magnitude(b);
    proof {
        let ma = magnitude_of(signed(a));
        let mb = magnitude_of(signed(b));
        vstd::arithmetic::div_mod::lemma_div_pos_is_pos(ma, mb);
        vstd::arithmetic::div_mod::lemma_div_is_ordered_by_denominator(ma, 1, mb);
        assert(ma / 1 == ma);
    }
    if (a >= 0x8000_0000_0000_0000) == (b >= 0x8000_0000_0000_0000) {
        q
    } else {
        0u64.wrapping_sub(q)
    }
}

/// Signed remainder.
pub fn rem_s(a: u64, b: u64) -> (r: u64)
    ensures
        r == signed_remainder(a, b),
{
    if b == 0 {
        return a;
    }
    let m: u64 = magnitude(a) % magnitude(b);
    if a >= 0x8000_0000_0000_0000 {
        0u64.wrapping_sub(m)
    } else {
        m
    }
}

/// Unsigned division: all ones where the divisor is 0.
#[verifier::allow_in_spec]
pub fn div_u(a: u64, b: u64) -> u64
    returns
        (if b == 0 {
            0xffff_ffff_ffff_ffff
        } else {
            a / b
        }),
{
    if b == 0 {
        0xffff_ffff_ffff_ffff
    } else {
        a / b
    }
}

/// Unsigned remainder: the dividend where the divisor is 0.
#[verifier::allow_in_spec]
pub fn rem_u(a: u64, b: u64) -> u64
    returns
        (if b == 0 {
            a
        } else {
            a % b
        }),
{
    if b == 0 {
        a
    } else {
        a % b
    }
}

/// Unsigned 32-bit division: all ones where the divisor is 0.
#[verifier::allow_in_spec]
pub fn div_u32(a: u32, b: u32) -> u32
    returns
        (if b == 0 {
            0xffff_ffff
        } else {
            a / b
        }),
{
    if b == 0 {
        0xffff_ffff
    } else {
        a / b
    }
}

/// Unsigned 32-bit remainder: the dividend where the divisor is 0.
#[verifier::allow_in_spec]
pub fn rem_u32(a: u32, b: u32) -> u32
    returns
        (if b == 0 {
            a
        } else {
            a % b
        }),
{
    if b == 0 {
        a
    } else {
        a % b
    }
}

/// The high word of a product of two integers.
pub open spec fn high_word(a: int, b: int) -> u64 {
    word((a * b) / 0x1_0000_0000_0000_0000)
}

/// The high word of an unsigned product.
pub fn mul_high_unsigned(a: u64, b: u64) -> (r: u64)
    ensures
        r == high_word(a as int, b as int),
        r == (a * b) / 0x1_0000_0000_0000_0000,
{
    proof {
        assert(0 <= a * b <= 0xffff_ffff_ffff_ffff * 0xffff_ffff_ffff_ffff) by (nonlinear_arith)
            requires
                0 <= a <= 0xffff_ffff_ffff_ffff,
                0 <= b <= 0xffff_ffff_ffff_ffff,
        ;
    }
    ((a as u128 * b as u128) / 0x1_0000_0000_0000_0000u128) as u64
}

/// Taking whole words off one factor takes as many of the other off the high word.
proof fn lemma_high_word_shift(p: int, k: int)
    ensures
        (p - k * 0x1_0000_0000_0000_0000) / 0x1_0000_0000_0000_0000 == p / 0x1_0000_0000_0000_0000
            - k,
{
    let m: int = 0x1_0000_0000_0000_0000;
    vstd::arithmetic::div_mod::lemma_fundamental_div_mod(p, m);
    assert((p / m - k) * m == (p / m) * m - k * m) by (nonlinear_arith);
    assert(m * (p / m) == (p / m) * m) by (nonlinear_arith);
    vstd::arithmetic::div_mod::lemma_fundamental_div_mod_converse(
        p - k * m,
        m,
        p / m - k,
        p % m,
    );
}

/// The high word of the product of a signed and an unsigned word.
pub fn mul_high_mixed(a: u64, b: u64) -> (r: u64)
    ensures
        r == high_word(signed(a), b as int),
{
    let high: u64 = mul_high_unsigned(a, b);
    if a < 0x8000_0000_0000_0000 {
        high
    } else {
        proof {
            assert(signed(a) * b == a * b - b * 0x1_0000_0000_0000_0000) by (nonlinear_arith)
                requires
                    signed(a) == a - 0x1_0000_0000_0000_0000,
            ;
            lemma_high_word_shift(a * b, b as int);
        }
        high.wrapping_sub(b)
    }
}

/// The high word of the product of two signed words.
pub fn mul_high_signed(a: u64, b: u64) -> (r: u64)
    ensures
        r == high_word(signed(a), signed(b)),
{
    let high: u64 = mul_high_mixed(a, b);
    if b < 0x8000_0000_0000_0000 {
        high
    } else {
        proof {
            assert(signed(a) * signed(b) == signed(a) * b - signed(a) * 0x1_0000_0000_0000_0000)
                by (nonlinear_arith)
                requires
                    signed(b) == b - 0x1_0000_0000_0000_0000,
            ;
            lemma_high_word_shift(signed(a) * b, signed(a));
        }
        high.wrapping_sub(a)
    }
}

/// What an M-extension instruction on `OP` computes.
pub open spec fn muldiv(f3: u32, a: u64, b: u64) -> u64 {
    if f3 == funct3::m::MUL {
        word(a * b)
    } else if f3 == funct3::m::MULH {
        high_word(signed(a), signed(b))
    } else if f3 == funct3::m::MULHSU {
        high_word(signed(a), b as int)
    } else if f3 == funct3::m::MULHU {
        high_word(a as int, b as int)
    } else if f3 == funct3::m::DIV {
        signed_quotient(a, b)
    } else if f3 == funct3::m::DIVU {
        div_u(a, b)
    } else if f3 == funct3::m::REM {
        signed_remainder(a, b)
    } else {
        rem_u(a, b)
    }
}

/// M extension on `OP`: 64-bit multiply (low / high) and divide / remainder.
pub fn muldiv_value(f3: u32, a: u64, b: u64) -> (r: u64)
    ensures
        r == muldiv(f3, a, b),
{
    if f3 == funct3::m::MUL {
        a.wrapping_mul(b)
    } else if f3 == funct3::m::MULH {
        mul_high_signed(a, b)
    } else if f3 == funct3::m::MULHSU {
        mul_high_mixed(a, b)
    } else if f3 == funct3::m::MULHU {
        mul_high_unsigned(a, b)
    } else if f3 == funct3::m::DIV {
        div_s(a, b)
    } else if f3 == funct3::m::DIVU {
        div_u(a, b)
    } else if f3 == funct3::m::REM {
        rem_s(a, b)
    } else {
        rem_u(a, b)
    }
}

/// What an M-extension instruction on `OP-32` computes, or `None` where `f3` names none:
/// the low 32 bits of the operands, the result sign-extended.
pub open spec fn muldiv_w(f3: u32, a: u64, b: u64) -> Option<u64> {
    let (wa, wb) = (low32(a), low32(b));
    if f3 == funct3::m::MUL {
        Some(sext32(low32(word(wa * wb))))
    } else if f3 == funct3::m::DIV {
        Some(sext32(low32(signed_quotient(sext32(wa), sext32(wb)))))
    } else if f3 == funct3::m::DIVU {
        Some(sext32(div_u32(wa, wb)))
    } else if f3 == funct3::m::REM {
        Some(sext32(low32(signed_remainder(sext32(wa), sext32(wb)))))
    } else if f3 == funct3::m::REMU {
        Some(sext32(rem_u32(wa, wb)))
    } else {
        None
    }
}

/// M extension on `OP-32`: 32-bit multiply low and divide / remainder, sign-extended.
pub fn muldiv_w_value(f3: u32, a: u64, b: u64) -> (r: Option<u64>)
    ensures
        r == muldiv_w(f3, a, b),
{
    let wa: u32 = low32(a);
    let wb: u32 = low32(b);
    if f3 == funct3::m::MUL {
        Some(sext32(low32((wa as u64).wrapping_mul(wb as u64))))
    } else if f3 == funct3::m::DIV {
        Some(sext32(low32(div_s(sext32(wa), sext32(wb)))))
    } else if f3 == funct3::m::DIVU {
        Some(sext32(div_u32(wa, wb)))
    } else if f3 == funct3::m::REM {
        Some(sext32(low32(rem_s(sext32(wa), sext32(wb)))))
    } else if f3 == funct3::m::REMU {
        Some(sext32(rem_u32(wa, wb)))
    } else {
        None
    }
}

/// What an atomic memory op leaves in memory: the old value combined with the operand.
/// `None` where `f5` is not arithmetic (LR/SC, or unknown).
pub open spec fn amo_combined(f5: u32, before: u64, rhs: u64) -> Option<u64> {
    if f5 == amo_op::SWAP {
        Some(rhs)
    } else if f5 == amo_op::ADD {
        Some(word(before + rhs))
    } else if f5 == amo_op::XOR {
        Some(before ^ rhs)
    } else if f5 == amo_op::OR {
        Some(before | rhs)
    } else if f5 == amo_op::AND {
        Some(before & rhs)
    } else if f5 == amo_op::MIN {
        Some(if signed(rhs) < signed(before) {
            rhs
        } else {
            before
        })
    } else if f5 == amo_op::MAX {
        Some(if signed(before) < signed(rhs) {
            rhs
        } else {
            before
        })
    } else if f5 == amo_op::MINU {
        Some(if rhs < before {
            rhs
        } else {
            before
        })
    } else if f5 == amo_op::MAXU {
        Some(if before < rhs {
            rhs
        } else {
            before
        })
    } else {
        None
    }
}

/// Combine the old memory value with `rhs` per an AMO `funct5`. `None` for LR/SC (not
/// arithmetic).
pub fn amo_combine_u64(f5: u32, before: u64, rhs: u64) -> (r: Option<u64>)
    ensures
        r == amo_combined(f5, before, rhs),
{
    if f5 == amo_op::SWAP {
        Some(rhs)
    } else if f5 == amo_op::ADD {
        Some(before.wrapping_add(rhs))
    } else if f5 == amo_op::XOR {
        Some(before ^ rhs)
    } else if f5 == amo_op::OR {
        Some(before | rhs)
    } else if f5 == amo_op::AND {
        Some(before & rhs)
    } else if f5 == amo_op::MIN {
        Some(
            if less_signed(rhs, before) {
                rhs
            } else {
                before
            },
        )
    } else if f5 == amo_op::MAX {
        Some(
            if less_signed(before, rhs) {
                rhs
            } else {
                before
            },
        )
    } else if f5 == amo_op::MINU {
        Some(
            if rhs < before {
                rhs
            } else {
                before
            },
        )
    } else if f5 == amo_op::MAXU {
        Some(
            if before < rhs {
                rhs
            } else {
                before
            },
        )
    } else {
        None
    }
}

/// The 32-bit `.w` form: signed compares see the sign-extended words, unsigned ones the
/// words themselves, and the low 32 bits of the result are kept.
pub open spec fn amo_combined_w(f5: u32, before: u32, rhs: u32) -> Option<u32> {
    let combined = if f5 == amo_op::MINU || f5 == amo_op::MAXU {
        amo_combined(f5, before as u64, rhs as u64)
    } else {
        amo_combined(f5, sext32(before), sext32(rhs))
    };
    match combined {
        Some(v) => Some(low32(v)),
        None => None,
    }
}

/// The 32-bit `.w` form of [`amo_combine_u64`].
pub fn amo_combine_u32(f5: u32, before: u32, rhs: u32) -> (r: Option<u32>)
    ensures
        r == amo_combined_w(f5, before, rhs),
{
    let combined: Option<u64> = if f5 == amo_op::MINU || f5 == amo_op::MAXU {
        amo_combine_u64(f5, before as u64, rhs as u64)
    } else {
        amo_combine_u64(f5, sext32(before), sext32(rhs))
    };
    match combined {
        Some(v) => Some(low32(v)),
        None => None,
    }
}

/// An arithmetic right shift is division by a power of two, rounding down.
pub proof fn law_arithmetic_shift_is_floor_division(a: u64, sh: u64)
    requires
        sh < 64,
    ensures
        signed(shift_right_signed(a, sh)) == signed(a) / (vstd::arithmetic::power2::pow2(sh as nat)
            as int),
{
    let p = vstd::arithmetic::power2::pow2(sh as nat) as int;
    vstd::arithmetic::power2::lemma_pow2_pos(sh as nat);
    if a < 0x8000_0000_0000_0000 {
        vstd::bits::lemma_u64_shr_is_div(a, sh);
        vstd::arithmetic::div_mod::lemma_div_is_ordered_by_denominator(a as int, 1, p);
        assert(a as int / 1 == a as int);
    } else {
        let n = !a;
        assert(n == 0xffff_ffff_ffff_ffff - a) by (bit_vector)
            requires
                n == !a,
        ;
        vstd::bits::lemma_u64_shr_is_div(n, sh);
        let t = n >> sh;
        vstd::arithmetic::div_mod::lemma_div_is_ordered_by_denominator(n as int, 1, p);
        assert(n as int / 1 == n as int);
        assert(t <= n);
        let r = !t;
        assert(r == 0xffff_ffff_ffff_ffff - t) by (bit_vector)
            requires
                r == !t,
        ;
        // signed(a) == -(n + 1) and signed(r) == -(t + 1).
        vstd::arithmetic::div_mod::lemma_fundamental_div_mod(n as int, p);
        let m = n as int % p;
        vstd::arithmetic::div_mod::lemma_mod_bound(n as int, p);
        assert(p * (n as int / p) == t * p) by (nonlinear_arith)
            requires
                t == n as int / p,
        ;
        assert((-t - 1) * p == -(t * p) - p) by (nonlinear_arith);
        assert(-(n as int) - 1 == (-t - 1) * p + (p - 1 - m));
        vstd::arithmetic::div_mod::lemma_fundamental_div_mod_converse(
            -(n as int) - 1,
            p,
            -t - 1,
            p - 1 - m,
        );
    }
}

/// Quotient and remainder fit together: `a = b * (a / b) + a % b`, wrapping.
pub proof fn law_quotient_and_remainder_recombine(a: u64, b: u64)
    ensures
        b != 0 ==> word(
            signed(b) * truncated_quotient(signed(a), signed(b)) + truncated_remainder(
                signed(a),
                signed(b),
            ),
        ) == a,
{
    if b != 0 {
        let (sa, sb) = (signed(a), signed(b));
        let (ma, mb) = (magnitude_of(sa), magnitude_of(sb));
        let q = ma / mb;
        let m = ma % mb;
        vstd::arithmetic::div_mod::lemma_fundamental_div_mod(ma, mb);
        assert(sb * truncated_quotient(sa, sb) + truncated_remainder(sa, sb) == sa)
            by (nonlinear_arith)
            requires
                ma == mb * q + m,
                sa < 0 ==> ma == -sa,
                sa >= 0 ==> ma == sa,
                sb < 0 ==> mb == -sb,
                sb >= 0 ==> mb == sb,
                truncated_quotient(sa, sb) == (if (sa < 0) == (sb < 0) {
                    q
                } else {
                    -q
                }),
                truncated_remainder(sa, sb) == (if sa < 0 {
                    -m
                } else {
                    m
                }),
        ;
        lemma_word_of_signed(a);
    }
}

} // verus!
