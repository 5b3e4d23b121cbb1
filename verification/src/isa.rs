//! What the instructions do, told from their encoding: an instruction word is a number, its
//! fields are digits of it, and a register holds a number that wraps at 2^64.

use vstd::prelude::*;
use vstd::arithmetic::power2::pow2;
use crate::alu::{
    amo_combined, amo_combined_w, law_arithmetic_shift_is_floor_division, low32, magnitude_of,
    muldiv, muldiv_w, sext32, shift_right_signed, signed, truncated_quotient, truncated_remainder,
    word, AluOp, Cond,
};
use crate::block::{imm_alu, imm_alu_32, reg_alu, reg_alu_32};
use crate::bus::BusState;
use crate::cpu::StepError;
use crate::decode::Instr;
use crate::model::{
    execute, sem_branch, sem_jal, sem_jalr, sem_op, sem_op_32, sem_op_imm, sem_op_imm_32,
    HartModel,
};

pub mod compressed;
pub mod memory;
pub mod system;

verus! {

/// The integer that the last digits of `v`, base `size`, stand for in two's complement.
pub open spec fn twos(v: int, size: int) -> int {
    if v % size < size / 2 {
        v % size
    } else {
        v % size - size
    }
}

/// The register that the five bits at weight `at` of `raw` name.
pub open spec fn register(raw: u32, at: int) -> int {
    raw as int / at % 0x20
}

/// `h` with `v` in register `rd`, wrapping; register 0 keeps its 0.
pub open spec fn put(h: HartModel, rd: int, v: int) -> HartModel {
    HartModel {
        x: if rd == 0 {
            h.x
        } else {
            h.x.update(rd, (v % 0x1_0000_0000_0000_0000) as u64)
        },
        ..h
    }
}

/// `h` at address `pc`, wrapping.
pub open spec fn at(h: HartModel, pc: int) -> HartModel {
    HartModel { pc: (pc % 0x1_0000_0000_0000_0000) as u64, ..h }
}

/// `h` with `v` in register `rd`, at the next instruction.
pub open spec fn wrote(h: HartModel, rd: int, v: int) -> HartModel {
    at(put(h, rd, v), h.pc + h.ilen)
}

/// An instruction that was carried out.
pub open spec fn done(h: HartModel, b: BusState) -> (HartModel, BusState, Result<(), StepError>) {
    (h, b, Ok(()))
}

// Numbers.

proof fn lemma_mod_twice(v: int)
    ensures
        v % 0x1_0000_0000_0000_0000 % 0x1_0000_0000 == v % 0x1_0000_0000,
{
}

/// A 32-bit result, sign-extended.
proof fn lemma_sext32(v: u64)
    ensures
        sext32(low32(v)) as int == twos(v as int, 0x1_0000_0000) % 0x1_0000_0000_0000_0000,
        signed(sext32(low32(v))) == twos(v as int, 0x1_0000_0000),
{
}

proof fn lemma_doubled(x: u64)
    ensures
        (x << 1) as int == (2 * x) % 0x1_0000_0000_0000_0000,
{
    if x < 0x8000_0000_0000_0000 {
        assert((x << 1) == 2 * x) by (bit_vector)
            requires
                x < 0x8000_0000_0000_0000,
        ;
    } else {
        assert((x << 1) == 2 * (x - 0x8000_0000_0000_0000)) by (bit_vector)
            requires
                x >= 0x8000_0000_0000_0000,
        ;
    }
}

/// A left shift multiplies by a power of two, wrapping.
proof fn lemma_shifted_left(a: u64, s: nat)
    requires
        s < 64,
    ensures
        (a << (s as u64)) as int == (a * pow2(s)) % 0x1_0000_0000_0000_0000,
    decreases s,
{
    if s == 0 {
        vstd::arithmetic::power2::lemma2_to64();
        assert(a << 0u64 == a) by (bit_vector);
        assert(a * pow2(0) == a) by (nonlinear_arith)
            requires
                pow2(0) == 1,
        ;
    } else {
        let t = (s - 1) as u64;
        lemma_shifted_left(a, (s - 1) as nat);
        vstd::arithmetic::power2::lemma_pow2_unfold(s);
        let x = a << t;
        let u = s as u64;
        assert(a << u == x << 1) by (bit_vector)
            requires
                u == t + 1,
                u < 64,
                x == a << t,
        ;
        lemma_doubled(x);
        let p = a * pow2((s - 1) as nat);
        assert(a * pow2(s) == 2 * p) by (nonlinear_arith)
            requires
                pow2(s) == 2 * pow2((s - 1) as nat),
                p == a * pow2((s - 1) as nat),
        ;
        assert((2 * (p % 0x1_0000_0000_0000_0000)) % 0x1_0000_0000_0000_0000 == (2 * p)
            % 0x1_0000_0000_0000_0000);
    }
}

proof fn lemma_shifted_right(a: u64, s: u64)
    requires
        s < 64,
    ensures
        (a >> s) as int == a as int / pow2(s as nat) as int,
{
    vstd::bits::lemma_u64_shr_is_div(a, s);
}

proof fn lemma_shifted_right_signed(a: u64, s: u64)
    requires
        s < 64,
    ensures
        shift_right_signed(a, s) as int == (twos(a as int, 0x1_0000_0000_0000_0000) / pow2(
            s as nat,
        ) as int) % 0x1_0000_0000_0000_0000,
        signed(shift_right_signed(a, s)) == signed(a) / pow2(s as nat) as int,
{
    law_arithmetic_shift_is_floor_division(a, s);
}

/// A signed 32-bit number divided by a power of two is one.
proof fn lemma_small_quotient(v: int, s: nat)
    requires
        -0x8000_0000 <= v < 0x8000_0000,
    ensures
        -0x8000_0000 <= v / pow2(s) as int,
        v / (pow2(s) as int) < 0x8000_0000,
{
    vstd::arithmetic::power2::lemma_pow2_pos(s);
    let p = pow2(s) as int;
    let q = v / p;
    vstd::arithmetic::div_mod::lemma_fundamental_div_mod(v, p);
    vstd::arithmetic::div_mod::lemma_mod_bound(v, p);
    assert(-0x8000_0000 <= q < 0x8000_0000) by (nonlinear_arith)
        requires
            v == p * q + v % p,
            0 <= v % p < p,
            p >= 1,
            -0x8000_0000 <= v < 0x8000_0000,
    ;
}

// Arithmetic.

/// What the operations on two registers compute: sums and differences that wrap, shifts as
/// products and quotients by a power of two, comparisons as 0 or 1. The `.w` operations work on
/// 32 bits and extend the sign of what they get.
pub proof fn law_arithmetic(a: u64, b: u64)
    ensures
        AluOp::Add.result(a, b) as int == (a + b) % 0x1_0000_0000_0000_0000,
        AluOp::Sub.result(a, b) as int == (a - b) % 0x1_0000_0000_0000_0000,
        AluOp::Sll.result(a, b) as int == (a * pow2((b % 64) as nat)) % 0x1_0000_0000_0000_0000,
        AluOp::Srl.result(a, b) as int == a as int / pow2((b % 64) as nat) as int,
        AluOp::Sra.result(a, b) as int == (twos(a as int, 0x1_0000_0000_0000_0000) / pow2(
            (b % 64) as nat,
        ) as int) % 0x1_0000_0000_0000_0000,
        AluOp::Slt.result(a, b) as int == if twos(a as int, 0x1_0000_0000_0000_0000) < twos(
            b as int,
            0x1_0000_0000_0000_0000,
        ) {
            1int
        } else {
            0
        },
        AluOp::Sltu.result(a, b) as int == if a < b {
            1int
        } else {
            0
        },
        AluOp::Xor.result(a, b) == a ^ b,
        AluOp::Or.result(a, b) == a | b,
        AluOp::And.result(a, b) == a & b,
        AluOp::AddW.result(a, b) as int == twos(a + b, 0x1_0000_0000) % 0x1_0000_0000_0000_0000,
        AluOp::SubW.result(a, b) as int == twos(a - b, 0x1_0000_0000) % 0x1_0000_0000_0000_0000,
        AluOp::SllW.result(a, b) as int == twos(a * pow2((b % 32) as nat), 0x1_0000_0000)
            % 0x1_0000_0000_0000_0000,
        AluOp::SrlW.result(a, b) as int == twos(
            a as int % 0x1_0000_0000 / pow2((b % 32) as nat) as int,
            0x1_0000_0000,
        ) % 0x1_0000_0000_0000_0000,
        AluOp::SraW.result(a, b) as int == (twos(a as int, 0x1_0000_0000) / pow2(
            (b % 32) as nat,
        ) as int) % 0x1_0000_0000_0000_0000,
{
    reveal(AluOp::result);
    let s = b % 64;
    lemma_shifted_left(a, s as nat);
    lemma_shifted_right(a, s);
    lemma_shifted_right_signed(a, s);
    lemma_word_sums(a, b);
    lemma_word_shift_left(a, b);
    lemma_word_shift_right(a, b);
    lemma_word_shift_right_signed(a, b);
}

proof fn lemma_word_sums(a: u64, b: u64)
    ensures
        sext32(low32(word(a + b))) as int == twos(a + b, 0x1_0000_0000)
            % 0x1_0000_0000_0000_0000,
        sext32(low32(word(a - b))) as int == twos(a - b, 0x1_0000_0000)
            % 0x1_0000_0000_0000_0000,
{
    lemma_sext32(word(a + b));
    lemma_sext32(word(a - b));
    lemma_mod_twice(a + b);
    lemma_mod_twice(a - b);
}

proof fn lemma_word_shift_left(a: u64, b: u64)
    ensures
        sext32(low32(a << (b % 32))) as int == twos(a * pow2((b % 32) as nat), 0x1_0000_0000)
            % 0x1_0000_0000_0000_0000,
{
    let w = b % 32;
    lemma_shifted_left(a, w as nat);
    lemma_sext32(a << w);
    lemma_mod_twice(a * pow2(w as nat));
}

proof fn lemma_word_shift_right(a: u64, b: u64)
    ensures
        sext32(low32(low32(a) as u64 >> (b % 32))) as int == twos(
            a as int % 0x1_0000_0000 / pow2((b % 32) as nat) as int,
            0x1_0000_0000,
        ) % 0x1_0000_0000_0000_0000,
{
    let w = b % 32;
    let la = low32(a) as u64;
    lemma_shifted_right(la, w);
    lemma_sext32(la >> w);
}

proof fn lemma_word_shift_right_signed(a: u64, b: u64)
    ensures
        sext32(low32(shift_right_signed(sext32(low32(a)), b % 32))) as int == (twos(
            a as int,
            0x1_0000_0000,
        ) / pow2((b % 32) as nat) as int) % 0x1_0000_0000_0000_0000,
{
    let w = b % 32;
    let sa = sext32(low32(a));
    lemma_sext32(a);
    lemma_shifted_right_signed(sa, w);
    lemma_small_quotient(signed(sa), w as nat);
    lemma_sext32(shift_right_signed(sa, w));
    let q = signed(sa) / pow2(w as nat) as int;
    assert(shift_right_signed(sa, w) as int % 0x1_0000_0000 == q % 0x1_0000_0000);
    assert(twos(q, 0x1_0000_0000) == q);
}

/// A truncating division: the quotient and the remainder recombine to the dividend, the
/// remainder is smaller than the divisor, and it is 0 or has the dividend's sign.
pub open spec fn divides(a: int, b: int, q: int, r: int) -> bool {
    &&& a == b * q + r
    &&& -(if b < 0 {
        -b
    } else {
        b
    }) < r
    &&& r < (if b < 0 {
        -b
    } else {
        b
    })
    &&& r == 0 || (r < 0) == (a < 0)
}

proof fn lemma_truncated(a: int, b: int)
    requires
        b != 0,
    ensures
        divides(a, b, truncated_quotient(a, b), truncated_remainder(a, b)),
{
    let (ma, mb) = (magnitude_of(a), magnitude_of(b));
    let q = ma / mb;
    let m = ma % mb;
    vstd::arithmetic::div_mod::lemma_fundamental_div_mod(ma, mb);
    vstd::arithmetic::div_mod::lemma_mod_bound(ma, mb);
    assert(b * truncated_quotient(a, b) + truncated_remainder(a, b) == a) by (nonlinear_arith)
        requires
            ma == mb * q + m,
            a < 0 ==> ma == -a,
            a >= 0 ==> ma == a,
            b < 0 ==> mb == -b,
            b >= 0 ==> mb == b,
            truncated_quotient(a, b) == (if (a < 0) == (b < 0) {
                q
            } else {
                -q
            }),
            truncated_remainder(a, b) == (if a < 0 {
                -m
            } else {
                m
            }),
    ;
}

proof fn lemma_quotient_size(a: int, b: int, n: int)
    requires
        b != 0,
        0 < n,
        -n <= a < n,
    ensures
        -n <= truncated_quotient(a, b) <= n,
        truncated_quotient(a, b) == n ==> a == -n && b == -1,
        -n <= truncated_remainder(a, b) <= n,
{
    let (ma, mb) = (magnitude_of(a), magnitude_of(b));
    let q = ma / mb;
    vstd::arithmetic::div_mod::lemma_fundamental_div_mod(ma, mb);
    vstd::arithmetic::div_mod::lemma_mod_bound(ma, mb);
    assert(0 <= q <= ma && (q == ma && ma > 0 ==> mb == 1)) by (nonlinear_arith)
        requires
            ma == mb * q + ma % mb,
            0 <= ma % mb < mb,
            mb >= 1,
            ma >= 0,
    ;
    assert(0 <= ma % mb <= ma) by (nonlinear_arith)
        requires
            ma == mb * q + ma % mb,
            0 <= ma % mb < mb,
            mb >= 1,
            0 <= q,
    ;
}

/// What `mul`, `mulh`, `mulhsu` and `mulhu` compute: the low word of the product, and the high
/// word of it, both factors signed, the first alone, or neither.
pub proof fn law_products(a: u64, b: u64)
    ensures
        muldiv(0, a, b) as int == (a * b) % 0x1_0000_0000_0000_0000,
        muldiv(1, a, b) as int == (twos(a as int, 0x1_0000_0000_0000_0000) * twos(
            b as int,
            0x1_0000_0000_0000_0000,
        ) / 0x1_0000_0000_0000_0000) % 0x1_0000_0000_0000_0000,
        muldiv(2, a, b) as int == (twos(a as int, 0x1_0000_0000_0000_0000) * b
            / 0x1_0000_0000_0000_0000) % 0x1_0000_0000_0000_0000,
        muldiv(3, a, b) as int == (a * b / 0x1_0000_0000_0000_0000) % 0x1_0000_0000_0000_0000,
        muldiv_w(0, a, b) == Some(
            (twos(a * b, 0x1_0000_0000) % 0x1_0000_0000_0000_0000) as u64,
        ),
        muldiv_w(1, a, b) is None && muldiv_w(2, a, b) is None && muldiv_w(3, a, b) is None,
{
    let p = low32(a) * low32(b);
    lemma_sext32(word(p));
    lemma_mod_twice(p);
    vstd::arithmetic::div_mod::lemma_mul_mod_noop(a as int, b as int, 0x1_0000_0000);
}

/// What `div`, `divu`, `rem` and `remu` compute. Dividing by 0 gives all ones and leaves the
/// dividend; the one overflow, of the lowest number by -1, gives the dividend and leaves 0.
pub proof fn law_quotients(a: u64, b: u64)
    ensures
        b == 0 ==> muldiv(4, a, b) == u64::MAX && muldiv(5, a, b) == u64::MAX && muldiv(6, a, b)
            == a && muldiv(7, a, b) == a,
        b != 0 ==> divides(a as int, b as int, muldiv(5, a, b) as int, muldiv(7, a, b) as int),
        b != 0 && !(a == 0x8000_0000_0000_0000 && b == u64::MAX) ==> divides(
            twos(a as int, 0x1_0000_0000_0000_0000),
            twos(b as int, 0x1_0000_0000_0000_0000),
            twos(muldiv(4, a, b) as int, 0x1_0000_0000_0000_0000),
            twos(muldiv(6, a, b) as int, 0x1_0000_0000_0000_0000),
        ),
        a == 0x8000_0000_0000_0000 && b == u64::MAX ==> muldiv(4, a, b) == a && muldiv(6, a, b)
            == 0,
{
    if b != 0 {
        vstd::arithmetic::div_mod::lemma_fundamental_div_mod(a as int, b as int);
        vstd::arithmetic::div_mod::lemma_mod_bound(a as int, b as int);
        let (sa, sb) = (signed(a), signed(b));
        lemma_truncated(sa, sb);
        lemma_quotient_size(sa, sb, 0x8000_0000_0000_0000);
        if sb == -1 {
            let ma = magnitude_of(sa);
            assert(ma / 1 == ma && ma % 1 == 0);
        }
    }
}

/// What `divw`, `divuw`, `remw` and `remuw` compute, on 32 bits and with the sign extended.
pub proof fn law_word_quotients(a: u64, b: u64)
    ensures
        forall|f3: u32| 4 <= f3 < 8 ==> (#[trigger] muldiv_w(f3, a, b)) is Some,
        b as int % 0x1_0000_0000 == 0 ==> muldiv_w(4, a, b) == Some(u64::MAX) && muldiv_w(5, a, b)
            == Some(u64::MAX) && muldiv_w(6, a, b)->0 as int == twos(a as int, 0x1_0000_0000)
            % 0x1_0000_0000_0000_0000 && muldiv_w(7, a, b)->0 as int == twos(
            a as int,
            0x1_0000_0000,
        ) % 0x1_0000_0000_0000_0000,
        b as int % 0x1_0000_0000 != 0 ==> divides(
            a as int % 0x1_0000_0000,
            b as int % 0x1_0000_0000,
            muldiv_w(5, a, b)->0 as int % 0x1_0000_0000,
            muldiv_w(7, a, b)->0 as int % 0x1_0000_0000,
        ),
        ({
            let (sa, sb) = (twos(a as int, 0x1_0000_0000), twos(b as int, 0x1_0000_0000));
            let q = twos(muldiv_w(4, a, b)->0 as int, 0x1_0000_0000_0000_0000);
            let r = twos(muldiv_w(6, a, b)->0 as int, 0x1_0000_0000_0000_0000);
            &&& sb != 0 && !(sa == -0x8000_0000 && sb == -1) ==> divides(sa, sb, q, r)
            &&& sa == -0x8000_0000 && sb == -1 ==> q == -0x8000_0000 && r == 0
        }),
        forall|f3: u32|
            4 <= f3 < 8 ==> -0x8000_0000 <= twos(
                (#[trigger] muldiv_w(f3, a, b))->0 as int,
                0x1_0000_0000_0000_0000,
            ) < 0x8000_0000,
{
    if b as int % 0x1_0000_0000 == 0 {
        lemma_word_division_by_zero(a, b);
        lemma_extended(low32(a));
        assert(twos(low32(a) as int, 0x1_0000_0000) == twos(a as int, 0x1_0000_0000));
    } else {
        lemma_unsigned_word_division(a, b);
        lemma_signed_word_division(a, b);
    }
}

/// A sign-extended word is small, and its low half is the word.
pub proof fn lemma_extended(w: u32)
    ensures
        sext32(w) as int % 0x1_0000_0000 == w,
        twos(sext32(w) as int, 0x1_0000_0000_0000_0000) == twos(w as int, 0x1_0000_0000),
        signed(sext32(w)) == twos(w as int, 0x1_0000_0000),
        -0x8000_0000 <= twos(w as int, 0x1_0000_0000) < 0x8000_0000,
        twos(w as int, 0x1_0000_0000) % 0x1_0000_0000_0000_0000 == sext32(w),
{
}

proof fn lemma_word_division_by_zero(a: u64, b: u64)
    requires
        b as int % 0x1_0000_0000 == 0,
    ensures
        muldiv_w(4, a, b) == Some(u64::MAX),
        muldiv_w(5, a, b) == Some(u64::MAX),
        muldiv_w(6, a, b) == Some(sext32(low32(a))),
        muldiv_w(7, a, b) == Some(sext32(low32(a))),
{
    let xa = sext32(low32(a));
    lemma_extended(low32(a));
    assert(low32(xa) == low32(a));
}

proof fn lemma_unsigned_word_division(a: u64, b: u64)
    requires
        b as int % 0x1_0000_0000 != 0,
    ensures
        divides(
            a as int % 0x1_0000_0000,
            b as int % 0x1_0000_0000,
            muldiv_w(5, a, b)->0 as int % 0x1_0000_0000,
            muldiv_w(7, a, b)->0 as int % 0x1_0000_0000,
        ),
        -0x8000_0000 <= twos(muldiv_w(5, a, b)->0 as int, 0x1_0000_0000_0000_0000) < 0x8000_0000,
        -0x8000_0000 <= twos(muldiv_w(7, a, b)->0 as int, 0x1_0000_0000_0000_0000) < 0x8000_0000,
{
    let (wa, wb) = (low32(a), low32(b));
    lemma_extended(wa / wb);
    lemma_extended(wa % wb);
    vstd::arithmetic::div_mod::lemma_fundamental_div_mod(wa as int, wb as int);
    vstd::arithmetic::div_mod::lemma_mod_bound(wa as int, wb as int);
}

/// A number of 32 bits that was widened to 64 is itself again in the low 32.
proof fn lemma_narrowed(v: int)
    requires
        -0x8000_0000 <= v <= 0x8000_0000,
    ensures
        twos(low32(word(v)) as int, 0x1_0000_0000) == if v == 0x8000_0000 {
            -0x8000_0000
        } else {
            v
        },
{
}

proof fn lemma_signed_word_division(a: u64, b: u64)
    requires
        b as int % 0x1_0000_0000 != 0,
    ensures
        ({
            let (sa, sb) = (twos(a as int, 0x1_0000_0000), twos(b as int, 0x1_0000_0000));
            let q = twos(muldiv_w(4, a, b)->0 as int, 0x1_0000_0000_0000_0000);
            let r = twos(muldiv_w(6, a, b)->0 as int, 0x1_0000_0000_0000_0000);
            &&& sb != 0
            &&& !(sa == -0x8000_0000 && sb == -1) ==> divides(sa, sb, q, r)
            &&& sa == -0x8000_0000 && sb == -1 ==> q == -0x8000_0000 && r == 0
            &&& -0x8000_0000 <= q < 0x8000_0000
            &&& -0x8000_0000 <= r < 0x8000_0000
        }),
{
    let (wa, wb) = (low32(a), low32(b));
    lemma_extended(wa);
    lemma_extended(wb);
    let (sa, sb) = (twos(a as int, 0x1_0000_0000), twos(b as int, 0x1_0000_0000));
    assert(sa == twos(wa as int, 0x1_0000_0000) && sb == twos(wb as int, 0x1_0000_0000));
    lemma_truncated(sa, sb);
    lemma_quotient_size(sa, sb, 0x8000_0000);
    let q = truncated_quotient(sa, sb);
    let r = truncated_remainder(sa, sb);
    lemma_extended(low32(word(q)));
    lemma_extended(low32(word(r)));
    lemma_narrowed(q);
    lemma_narrowed(r);
    assert(sext32(wb) != 0);
    assert(muldiv_w(4, a, b)->0 == sext32(low32(word(q))));
    assert(muldiv_w(6, a, b)->0 == sext32(low32(word(r))));
    if sb == -1 {
        let ma = magnitude_of(sa);
        assert(ma / 1 == ma && ma % 1 == 0);
    }
}

// Atomic combinations.

/// What an atomic operation leaves of the old value and the operand, on 64 bits.
pub proof fn law_atomic_doublewords(old_value: u64, operand: u64)
    ensures
        amo_combined(0x01, old_value, operand) == Some(operand),
        amo_combined(0x00, old_value, operand) == Some(
            ((old_value + operand) % 0x1_0000_0000_0000_0000) as u64,
        ),
        amo_combined(0x04, old_value, operand) == Some(old_value ^ operand),
        amo_combined(0x08, old_value, operand) == Some(old_value | operand),
        amo_combined(0x0c, old_value, operand) == Some(old_value & operand),
        ({
            let (a, b) = (
                twos(old_value as int, 0x1_0000_0000_0000_0000),
                twos(operand as int, 0x1_0000_0000_0000_0000),
            );
            &&& amo_combined(0x10, old_value, operand) == Some(
                if a <= b {
                    old_value
                } else {
                    operand
                },
            )
            &&& amo_combined(0x14, old_value, operand) == Some(
                if a >= b {
                    old_value
                } else {
                    operand
                },
            )
        }),
        amo_combined(0x18, old_value, operand) == Some(
            if old_value <= operand {
                old_value
            } else {
                operand
            },
        ),
        amo_combined(0x1c, old_value, operand) == Some(
            if old_value >= operand {
                old_value
            } else {
                operand
            },
        ),
{
}

proof fn lemma_bitwise_words(a: u32, b: u32)
    ensures
        low32(sext32(a) ^ sext32(b)) == a ^ b,
        low32(sext32(a) | sext32(b)) == a | b,
        low32(sext32(a) & sext32(b)) == a & b,
{
    let x = sext32(a);
    let y = sext32(b);
    assert(x as u32 == a && y as u32 == b) by {
        assert(x % 0x1_0000_0000 == a as u64);
        assert(y % 0x1_0000_0000 == b as u64);
        assert(x % 0x1_0000_0000 == a as u64 && y % 0x1_0000_0000 == b as u64 ==> x as u32 == a
            && y as u32 == b) by (bit_vector);
    }
    assert(x as u32 == a && y as u32 == b ==> ((x ^ y) % 0x1_0000_0000 == (a ^ b) as u64 && (x | y)
        % 0x1_0000_0000 == (a | b) as u64 && (x & y) % 0x1_0000_0000 == (a & b) as u64))
        by (bit_vector);
}

proof fn lemma_word_sum(a: u32, b: u32)
    ensures
        low32(word(sext32(a) + sext32(b))) as int == (a + b) % 0x1_0000_0000,
        low32(sext32(a)) == a,
        low32(sext32(b)) == b,
{
    let (x, y) = (sext32(a), sext32(b));
    lemma_mod_twice(x + y);
    assert((x + y) % 0x1_0000_0000 == (a + b) % 0x1_0000_0000);
}

proof fn lemma_word_order(a: u32)
    ensures
        signed(sext32(a)) == twos(a as int, 0x1_0000_0000),
        low32(a as u64) == a,
{
}

/// What an atomic operation leaves of the old value and the operand, on 32 bits.
pub proof fn law_atomic_words(old_value: u32, operand: u32)
    ensures
        amo_combined_w(0x01, old_value, operand) == Some(operand),
        amo_combined_w(0x00, old_value, operand) == Some(
            ((old_value + operand) % 0x1_0000_0000) as u32,
        ),
        amo_combined_w(0x04, old_value, operand) == Some(old_value ^ operand),
        amo_combined_w(0x08, old_value, operand) == Some(old_value | operand),
        amo_combined_w(0x0c, old_value, operand) == Some(old_value & operand),
        ({
            let (a, b) = (
                twos(old_value as int, 0x1_0000_0000),
                twos(operand as int, 0x1_0000_0000),
            );
            &&& amo_combined_w(0x10, old_value, operand) == Some(
                if a <= b {
                    old_value
                } else {
                    operand
                },
            )
            &&& amo_combined_w(0x14, old_value, operand) == Some(
                if a >= b {
                    old_value
                } else {
                    operand
                },
            )
        }),
        amo_combined_w(0x18, old_value, operand) == Some(
            if old_value <= operand {
                old_value
            } else {
                operand
            },
        ),
        amo_combined_w(0x1c, old_value, operand) == Some(
            if old_value >= operand {
                old_value
            } else {
                operand
            },
        ),
{
    lemma_bitwise_words(old_value, operand);
    lemma_word_sum(old_value, operand);
    lemma_word_order(old_value);
    lemma_word_order(operand);
}

// Instructions between registers.

/// `lui` puts its upper immediate in rd; `auipc` adds it to the pc.
pub proof fn law_upper_immediates(h: HartModel, b: BusState, raw: u32)
    ensures
        ({
            let rd = register(raw, 0x80);
            let imm = twos(raw as int / 0x1000 * 0x1000, 0x1_0000_0000);
            &&& raw % 0x80 == 0x37 ==> execute(h, b, raw) == done(wrote(h, rd, imm), b)
            &&& raw % 0x80 == 0x17 ==> execute(h, b, raw) == done(wrote(h, rd, h.pc + imm), b)
        }),
{
    reveal(execute);
}

/// The instructions with an immediate: `addi`, `slti`, `sltiu`, `xori`, `ori`, `andi`, and the
/// shifts `slli`, `srli` and `srai`.
pub proof fn law_immediate_instructions(h: HartModel, b: BusState, raw: u32)
    requires
        raw % 0x80 == 0x13,
    ensures
        ({
            let rd = register(raw, 0x80);
            let a = h.x[register(raw, 0x8000)];
            let imm = twos(raw as int / 0x10_0000, 0x1000);
            let shift = pow2((raw as int / 0x10_0000 % 0x40) as nat) as int;
            let f3 = raw as int / 0x1000 % 8;
            let unsigned = (imm % 0x1_0000_0000_0000_0000) as u64;
            let v = if f3 == 0 {
                a + imm
            } else if f3 == 1 {
                a * shift
            } else if f3 == 2 {
                if twos(a as int, 0x1_0000_0000_0000_0000) < imm {
                    1
                } else {
                    0
                }
            } else if f3 == 3 {
                if a < unsigned {
                    1
                } else {
                    0
                }
            } else if f3 == 4 {
                (a ^ unsigned) as int
            } else if f3 == 6 {
                (a | unsigned) as int
            } else if f3 == 7 {
                (a & unsigned) as int
            } else if raw as int / 0x4000_0000 % 2 == 1 {
                twos(a as int, 0x1_0000_0000_0000_0000) / shift
            } else {
                a as int / shift
            };
            execute(h, b, raw) == done(wrote(h, rd, v), b)
        }),
{
    reveal(execute);
    reveal(sem_op_imm);
    let a = h.x[register(raw, 0x8000)];
    lemma_immediate(a, raw);
}

/// The immediate of an instruction, as a word.
pub proof fn lemma_immediate_word(raw: u32)
    ensures
        ({
            let imm = twos(raw as int / 0x10_0000, 0x1000);
            let w = Instr(raw).i_imm();
            &&& w as int == imm % 0x1_0000_0000_0000_0000
            &&& twos(w as int, 0x1_0000_0000_0000_0000) == imm
            &&& signed(w) == imm
        }),
{
}

pub proof fn lemma_sum_wraps(a: int, b: int, c: int)
    requires
        b == c % 0x1_0000_0000_0000_0000,
    ensures
        (a + b) % 0x1_0000_0000_0000_0000 == (a + c) % 0x1_0000_0000_0000_0000,
        (a + b) % 0x1_0000_0000 == (a + c) % 0x1_0000_0000,
{
    vstd::arithmetic::div_mod::lemma_add_mod_noop_right(a, c, 0x1_0000_0000_0000_0000);
    lemma_mod_twice(c);
    vstd::arithmetic::div_mod::lemma_add_mod_noop_right(a, b, 0x1_0000_0000);
    vstd::arithmetic::div_mod::lemma_add_mod_noop_right(a, c, 0x1_0000_0000);
}

/// A word is below 2^64 as it is.
proof fn lemma_fits(v: u64)
    ensures
        v as int % 0x1_0000_0000_0000_0000 == v,
{
}

proof fn lemma_immediate(a: u64, raw: u32)
    ensures
        ({
            let imm = twos(raw as int / 0x10_0000, 0x1000);
            let shift = pow2((raw as int / 0x10_0000 % 0x40) as nat) as int;
            let f3 = raw as int / 0x1000 % 8;
            let unsigned = (imm % 0x1_0000_0000_0000_0000) as u64;
            let (op, operand) = imm_alu(Instr(raw));
            op.result(a, operand) as int == (if f3 == 0 {
                a + imm
            } else if f3 == 1 {
                a * shift
            } else if f3 == 2 {
                if twos(a as int, 0x1_0000_0000_0000_0000) < imm {
                    1
                } else {
                    0
                }
            } else if f3 == 3 {
                if a < unsigned {
                    1
                } else {
                    0
                }
            } else if f3 == 4 {
                (a ^ unsigned) as int
            } else if f3 == 6 {
                (a | unsigned) as int
            } else if f3 == 7 {
                (a & unsigned) as int
            } else if raw as int / 0x4000_0000 % 2 == 1 {
                twos(a as int, 0x1_0000_0000_0000_0000) / shift
            } else {
                a as int / shift
            }) % 0x1_0000_0000_0000_0000
        }),
{
    let i = Instr(raw);
    let imm = twos(raw as int / 0x10_0000, 0x1000);
    lemma_immediate_word(raw);
    let f3 = raw as int / 0x1000 % 8;
    let (op, operand) = imm_alu(i);
    lemma_fits(op.result(a, operand));
    if f3 == 1 || f3 == 5 {
        law_arithmetic(a, i.shamt6() as u64);
    } else {
        law_arithmetic(a, i.i_imm());
        lemma_sum_wraps(a as int, i.i_imm() as int, imm);
    }
}

/// The instructions on two registers: `add`, `sub`, `sll`, `slt`, `sltu`, `xor`, `srl`, `sra`,
/// `or` and `and`; with 1 in the top seven bits, those of [`law_products`] and
/// [`law_quotients`].
pub proof fn law_register_instructions(h: HartModel, b: BusState, raw: u32)
    requires
        raw % 0x80 == 0x33,
    ensures
        ({
            let rd = register(raw, 0x80);
            let a = h.x[register(raw, 0x8000)];
            let c = h.x[register(raw, 0x10_0000)];
            let shift = pow2((c as int % 64) as nat) as int;
            let f3 = raw as int / 0x1000 % 8;
            let alt = raw as int / 0x4000_0000 % 2 == 1;
            let v = if raw / 0x200_0000 == 1 {
                muldiv(f3 as u32, a, c) as int
            } else if f3 == 0 {
                if alt {
                    a - c
                } else {
                    a + c
                }
            } else if f3 == 1 {
                a * shift
            } else if f3 == 2 {
                if twos(a as int, 0x1_0000_0000_0000_0000) < twos(
                    c as int,
                    0x1_0000_0000_0000_0000,
                ) {
                    1
                } else {
                    0
                }
            } else if f3 == 3 {
                if a < c {
                    1
                } else {
                    0
                }
            } else if f3 == 4 {
                (a ^ c) as int
            } else if f3 == 6 {
                (a | c) as int
            } else if f3 == 7 {
                (a & c) as int
            } else if alt {
                twos(a as int, 0x1_0000_0000_0000_0000) / shift
            } else {
                a as int / shift
            };
            execute(h, b, raw) == done(wrote(h, rd, v), b)
        }),
{
    reveal(execute);
    reveal(sem_op);
    let a = h.x[register(raw, 0x8000)];
    let c = h.x[register(raw, 0x10_0000)];
    law_arithmetic(a, c);
    lemma_fits(reg_alu(Instr(raw)).result(a, c));
    lemma_fits(muldiv(Instr(raw).funct3(), a, c));
}

/// The `.w` instructions with an immediate: `addiw`, `slliw`, `srliw` and `sraiw`. There are no
/// others.
pub proof fn law_immediate_word_instructions(h: HartModel, b: BusState, raw: u32)
    requires
        raw % 0x80 == 0x1b,
    ensures
        ({
            let rd = register(raw, 0x80);
            let a = h.x[register(raw, 0x8000)] as int;
            let imm = twos(raw as int / 0x10_0000, 0x1000);
            let shift = pow2((raw as int / 0x10_0000 % 0x20) as nat) as int;
            let f3 = raw as int / 0x1000 % 8;
            let v = if f3 == 0 {
                twos(a + imm, 0x1_0000_0000)
            } else if f3 == 1 {
                twos(a * shift, 0x1_0000_0000)
            } else if raw as int / 0x4000_0000 % 2 == 1 {
                twos(a, 0x1_0000_0000) / shift
            } else {
                twos(a % 0x1_0000_0000 / shift, 0x1_0000_0000)
            };
            execute(h, b, raw) == if f3 == 0 || f3 == 1 || f3 == 5 {
                done(wrote(h, rd, v), b)
            } else {
                (h, b, Err(StepError::Unimplemented { pc: h.pc, instr: raw }))
            }
        }),
{
    reveal(execute);
    reveal(sem_op_imm_32);
    lemma_immediate_words(h.x[register(raw, 0x8000)], raw);
}

proof fn lemma_immediate_words(a: u64, raw: u32)
    ensures
        ({
            let imm = twos(raw as int / 0x10_0000, 0x1000);
            let shift = pow2((raw as int / 0x10_0000 % 0x20) as nat) as int;
            let f3 = raw as int / 0x1000 % 8;
            let alu = imm_alu_32(Instr(raw));
            &&& alu is Some <==> f3 == 0 || f3 == 1 || f3 == 5
            &&& alu is Some ==> (alu->0).0.result(a, (alu->0).1) as int == (if f3 == 0 {
                twos(a + imm, 0x1_0000_0000)
            } else if f3 == 1 {
                twos(a * shift, 0x1_0000_0000)
            } else if raw as int / 0x4000_0000 % 2 == 1 {
                twos(a as int, 0x1_0000_0000) / shift
            } else {
                twos(a as int % 0x1_0000_0000 / shift, 0x1_0000_0000)
            }) % 0x1_0000_0000_0000_0000
        }),
{
    let i = Instr(raw);
    let imm = twos(raw as int / 0x10_0000, 0x1000);
    lemma_immediate_word(raw);
    let f3 = raw as int / 0x1000 % 8;
    if f3 == 0 {
        law_arithmetic(a, i.i_imm());
        lemma_sum_wraps(a as int, i.i_imm() as int, imm);
    } else {
        law_arithmetic(a, i.shamt5() as u64);
    }
}

/// The `.w` instructions on two registers: `addw`, `subw`, `sllw`, `srlw` and `sraw`, and with 1
/// in the top seven bits those of [`law_products`] and [`law_word_quotients`].
pub proof fn law_register_word_instructions(h: HartModel, b: BusState, raw: u32)
    requires
        raw % 0x80 == 0x3b,
    ensures
        ({
            let rd = register(raw, 0x80);
            let a = h.x[register(raw, 0x8000)];
            let c = h.x[register(raw, 0x10_0000)];
            let shift = pow2((c as int % 32) as nat) as int;
            let f3 = raw as int / 0x1000 % 8;
            let alt = raw as int / 0x4000_0000 % 2 == 1;
            let v = if raw / 0x200_0000 == 1 {
                muldiv_w(f3 as u32, a, c)->0 as int
            } else if f3 == 0 {
                if alt {
                    twos(a - c, 0x1_0000_0000)
                } else {
                    twos(a + c, 0x1_0000_0000)
                }
            } else if f3 == 1 {
                twos(a * shift, 0x1_0000_0000)
            } else if alt {
                twos(a as int, 0x1_0000_0000) / shift
            } else {
                twos(a as int % 0x1_0000_0000 / shift, 0x1_0000_0000)
            };
            let known = if raw / 0x200_0000 == 1 {
                f3 == 0 || f3 >= 4
            } else {
                f3 == 0 || f3 == 1 || f3 == 5
            };
            execute(h, b, raw) == if known {
                done(wrote(h, rd, v), b)
            } else {
                (h, b, Err(StepError::Unimplemented { pc: h.pc, instr: raw }))
            }
        }),
{
    reveal(execute);
    reveal(sem_op_32);
    let a = h.x[register(raw, 0x8000)];
    let c = h.x[register(raw, 0x10_0000)];
    let f3 = Instr(raw).funct3();
    law_arithmetic(a, c);
    lemma_known_products(f3, a, c);
    if let Some(alu) = reg_alu_32(Instr(raw)) {
        lemma_fits(alu.result(a, c));
    }
}

proof fn lemma_known_products(f3: u32, a: u64, c: u64)
    requires
        f3 < 8,
    ensures
        muldiv_w(f3, a, c) is Some <==> f3 == 0 || f3 >= 4,
        muldiv_w(f3, a, c)->0 as int % 0x1_0000_0000_0000_0000 == muldiv_w(f3, a, c)->0,
{
}

// Control flow.

/// The branches: `beq`, `bne`, `blt`, `bge`, `bltu` and `bgeu`. One that is taken adds its
/// offset to the pc; one that is not goes on to the next instruction.
pub proof fn law_branches(h: HartModel, b: BusState, raw: u32)
    requires
        raw % 0x80 == 0x63,
    ensures
        ({
            let a = h.x[register(raw, 0x8000)];
            let c = h.x[register(raw, 0x10_0000)];
            let f3 = raw as int / 0x1000 % 8;
            let offset = twos(
                raw as int / 0x8000_0000 * 0x1000 + raw as int / 0x80 % 2 * 0x800 + raw as int
                    / 0x200_0000 % 0x40 * 0x20 + raw as int / 0x100 % 0x10 * 2,
                0x2000,
            );
            let sa = twos(a as int, 0x1_0000_0000_0000_0000);
            let sc = twos(c as int, 0x1_0000_0000_0000_0000);
            let taken = if f3 == 0 {
                a == c
            } else if f3 == 1 {
                a != c
            } else if f3 == 4 {
                sa < sc
            } else if f3 == 5 {
                sa >= sc
            } else if f3 == 6 {
                a < c
            } else {
                a >= c
            };
            execute(h, b, raw) == if f3 == 2 || f3 == 3 {
                (h, b, Err(StepError::Unimplemented { pc: h.pc, instr: raw }))
            } else {
                done(
                    at(
                        h,
                        h.pc + if taken {
                            offset
                        } else {
                            h.ilen as int
                        },
                    ),
                    b,
                )
            }
        }),
{
    reveal(execute);
    reveal(sem_branch);
    reveal(Cond::holds);
    let i = Instr(raw);
    lemma_branch_offset(raw);
    lemma_sum_wraps(h.pc as int, i.b_imm() as int, twos(i.b_field() as int, 0x2000));
}

pub proof fn lemma_jump_offset(raw: u32)
    ensures
        Instr(raw).j_field() as int == raw as int / 0x8000_0000 * 0x10_0000 + raw as int / 0x1000
            % 0x100 * 0x1000 + raw as int / 0x10_0000 % 2 * 0x800 + raw as int / 0x20_0000 % 0x400
            * 2,
        Instr(raw).j_imm() as int == twos(Instr(raw).j_field() as int, 0x20_0000)
            % 0x1_0000_0000_0000_0000,
{
}

pub proof fn lemma_branch_offset(raw: u32)
    ensures
        Instr(raw).b_field() as int == raw as int / 0x8000_0000 * 0x1000 + raw as int / 0x80 % 2
            * 0x800 + raw as int / 0x200_0000 % 0x40 * 0x20 + raw as int / 0x100 % 0x10 * 2,
        Instr(raw).b_imm() as int == twos(Instr(raw).b_field() as int, 0x2000)
            % 0x1_0000_0000_0000_0000,
{
}

/// The jumps: `jal` adds its offset to the pc, `jalr` goes to an even address that a register
/// and its offset give, and both leave the address of the next instruction in rd.
pub proof fn law_jumps(h: HartModel, b: BusState, raw: u32)
    ensures
        ({
            let rd = register(raw, 0x80);
            let offset = twos(
                raw as int / 0x8000_0000 * 0x10_0000 + raw as int / 0x1000 % 0x100 * 0x1000 + raw
                    as int / 0x10_0000 % 2 * 0x800 + raw as int / 0x20_0000 % 0x400 * 2,
                0x20_0000,
            );
            let target = (h.x[register(raw, 0x8000)] + twos(raw as int / 0x10_0000, 0x1000))
                % 0x1_0000_0000_0000_0000;
            &&& raw % 0x80 == 0x6f ==> execute(h, b, raw) == done(
                at(put(h, rd, h.pc + h.ilen), h.pc + offset),
                b,
            )
            &&& raw % 0x80 == 0x67 ==> execute(h, b, raw) == done(
                at(put(h, rd, h.pc + h.ilen), target / 2 * 2),
                b,
            )
        }),
{
    reveal(execute);
    reveal(sem_jal);
    reveal(sem_jalr);
    let i = Instr(raw);
    lemma_immediate_word(raw);
    lemma_sum_wraps(
        h.x[register(raw, 0x8000)] as int,
        i.i_imm() as int,
        twos(raw as int / 0x10_0000, 0x1000),
    );
    lemma_jump_offset(raw);
    lemma_sum_wraps(h.pc as int, i.j_imm() as int, twos(i.j_field() as int, 0x20_0000));
}

/// A fence does nothing but go on, and what no instruction is named by is an error that names
/// it, with the hart and the bus as they were.
pub proof fn law_fences_and_unknown_instructions(h: HartModel, b: BusState, raw: u32)
    ensures
        raw % 0x80 == 0x0f ==> execute(h, b, raw) == done(at(h, h.pc + h.ilen), b),
        ({
            let op = raw % 0x80;
            op != 0x03 && op != 0x0f && op != 0x13 && op != 0x17 && op != 0x1b && op != 0x23 && op
                != 0x2f && op != 0x33 && op != 0x37 && op != 0x3b && op != 0x63 && op != 0x67 && op
                != 0x6f && op != 0x73 ==> execute(h, b, raw) == (
                h,
                b,
                Err::<(), StepError>(StepError::Unimplemented { pc: h.pc, instr: raw }),
            )
        }),
{
    reveal(execute);
}

} // verus!
