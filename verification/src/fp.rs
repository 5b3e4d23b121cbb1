//! Floating-point semantics where the architecture does not simply agree with a host's: one
//! canonical NaN, singles boxed in 64-bit registers, the rounding modes, the order of the
//! zeros, and conversion to integers. Values are given by their IEEE 754 bits.

use vstd::prelude::*;
use vstd::arithmetic::power2::{lemma2_to64, lemma2_to64_rest, lemma_pow2_adds, lemma_pow2_pos, lemma_pow2_strictly_increases, pow2};

pub mod rm;

verus! {

/// The canonical double-precision NaN: quiet, positive, zero payload.
pub const CANONICAL_NAN_D: u64 = 0x7ff8_0000_0000_0000;

/// The canonical single-precision NaN.
pub const CANONICAL_NAN_S: u32 = 0x7fc0_0000;

/// A rounding mode that a conversion can apply.
#[derive(Debug, Clone, Copy, PartialEq, Eq, Structural)]
pub enum Rounding {
    /// Round to nearest, ties to even: the IEEE default.
    NearestEven,
    /// Round toward zero.
    TowardZero,
}

/// The effective rounding mode: `frm` in place of `DYN`.
#[verifier::allow_in_spec]
pub fn effective_mode(mode: u32, frm: u64) -> (r: u32)
    returns
        (if mode == rm::DYN {
            (frm % 8) as u32
        } else {
            mode
        }),
{
    if mode == rm::DYN {
        (frm % 8) as u32
    } else {
        mode
    }
}

/// The rounding gate for arithmetic, which is evaluated in round-to-nearest-even only. Any
/// other effective mode is refused, and named.
pub fn arithmetic_rounding(mode: u32, frm: u64) -> (r: Result<(), u32>)
    ensures
        r == if effective_mode(mode, frm) == rm::RNE {
            Ok::<(), u32>(())
        } else {
            Err::<(), u32>(effective_mode(mode, frm))
        },
{
    let effective: u32 = effective_mode(mode, frm);
    if effective == rm::RNE {
        Ok(())
    } else {
        Err(effective)
    }
}

/// The rounding gate for conversion to an integer, where two modes can be honoured. The rest
/// is refused as in [`arithmetic_rounding`].
pub fn conversion_rounding(mode: u32, frm: u64) -> (r: Result<Rounding, u32>)
    ensures
        r == if effective_mode(mode, frm) == rm::RNE {
            Ok::<Rounding, u32>(Rounding::NearestEven)
        } else if effective_mode(mode, frm) == rm::RTZ {
            Ok::<Rounding, u32>(Rounding::TowardZero)
        } else {
            Err::<Rounding, u32>(effective_mode(mode, frm))
        },
{
    let effective: u32 = effective_mode(mode, frm);
    if effective == rm::RNE {
        Ok(Rounding::NearestEven)
    } else if effective == rm::RTZ {
        Ok(Rounding::TowardZero)
    } else {
        Err(effective)
    }
}

/// The sign bit of a double.
#[verifier::allow_in_spec]
pub fn negative_d(bits: u64) -> (r: bool)
    returns
        bits >= 0x8000_0000_0000_0000,
{
    bits >= 0x8000_0000_0000_0000
}

/// The exponent field of a double.
#[verifier::allow_in_spec]
pub fn exponent_d(bits: u64) -> (r: u64)
    returns
        (bits / 0x0010_0000_0000_0000 % 2048) as u64,
{
    bits / 0x0010_0000_0000_0000 % 2048
}

/// The fraction field of a double.
#[verifier::allow_in_spec]
pub fn fraction_d(bits: u64) -> (r: u64)
    returns
        (bits % 0x0010_0000_0000_0000) as u64,
{
    bits % 0x0010_0000_0000_0000
}

/// Whether a double is a NaN.
#[verifier::allow_in_spec]
pub fn is_nan_d(bits: u64) -> (r: bool)
    returns
        exponent_d(bits) == 2047 && fraction_d(bits) != 0,
{
    exponent_d(bits) == 2047 && fraction_d(bits) != 0
}

/// Where a double that is a number stands among all: larger is larger, and both zeros
/// stand at 0.
pub open spec fn order_d(bits: u64) -> int {
    if negative_d(bits) {
        -(bits as int - 0x8000_0000_0000_0000)
    } else {
        bits as int
    }
}

/// Where a double that is a number stands among all.
fn place_d(bits: u64) -> (r: i128)
    ensures
        r == order_d(bits),
{
    if negative_d(bits) {
        -(bits as i128 - 0x8000_0000_0000_0000)
    } else {
        bits as i128
    }
}

/// A double-precision result, with a NaN replaced by the canonical one. Other values pass
/// through bit for bit, the sign of zero included.
#[verifier::allow_in_spec]
pub fn canonicalise_d(bits: u64) -> (r: u64)
    returns
        (if is_nan_d(bits) {
            CANONICAL_NAN_D
        } else {
            bits
        }),
{
    if is_nan_d(bits) {
        CANONICAL_NAN_D
    } else {
        bits
    }
}

/// The smaller or the larger of two doubles: of a NaN and a number the number, of two
/// NaNs the canonical one, and of two zeros the negative one is the smaller.
pub open spec fn chosen_d(a: u64, b: u64, is_max: bool) -> u64 {
    if is_nan_d(a) && is_nan_d(b) {
        CANONICAL_NAN_D
    } else if is_nan_d(a) {
        b
    } else if is_nan_d(b) {
        a
    } else if order_d(a) == order_d(b) {
        if negative_d(a) != is_max {
            a
        } else {
            b
        }
    } else if (order_d(a) < order_d(b)) != is_max {
        a
    } else {
        b
    }
}

fn choose_d(a: u64, b: u64, is_max: bool) -> (r: u64)
    ensures
        r == chosen_d(a, b, is_max),
{
    if is_nan_d(a) {
        if is_nan_d(b) {
            return CANONICAL_NAN_D;
        }
        return b;
    }
    if is_nan_d(b) {
        return a;
    }
    let x: i128 = place_d(a);
    let y: i128 = place_d(b);
    let pick_a: bool = if x == y {
        // The two zeros: the sign decides.
        negative_d(a) != is_max
    } else {
        (x < y) != is_max
    };
    if pick_a {
        a
    } else {
        b
    }
}

/// The class of a double, as `fclass` numbers them.
pub open spec fn class_d(bits: u64) -> nat {
    if is_nan_d(bits) {
        if fraction_d(bits) >= 0x0008_0000_0000_0000 {
            9
        } else {
            8
        }
    } else if exponent_d(bits) == 2047 {
        if negative_d(bits) {
            0
        } else {
            7
        }
    } else if exponent_d(bits) == 0 && fraction_d(bits) == 0 {
        if negative_d(bits) {
            3
        } else {
            4
        }
    } else if exponent_d(bits) == 0 {
        if negative_d(bits) {
            2
        } else {
            5
        }
    } else if negative_d(bits) {
        1
    } else {
        6
    }
}

fn classified_d(bits: u64) -> (r: u64)
    ensures
        r == pow2(class_d(bits)),
{
    proof {
        lemma2_to64();
    }
    let negative: bool = negative_d(bits);
    if is_nan_d(bits) {
        // The top bit of the fraction is the quiet bit.
        return if fraction_d(bits) >= 0x0008_0000_0000_0000 {
            512
        } else {
            256
        };
    }
    if exponent_d(bits) == 2047 {
        return if negative {
            1
        } else {
            128
        };
    }
    if exponent_d(bits) == 0 {
        if fraction_d(bits) == 0 {
            return if negative {
                8
            } else {
                16
            };
        }
        return if negative {
            4
        } else {
            32
        };
    }
    if negative {
        2
    } else {
        64
    }
}

/// The sign bit of a single.
#[verifier::allow_in_spec]
pub fn negative_s(bits: u32) -> (r: bool)
    returns
        bits >= 0x8000_0000,
{
    bits >= 0x8000_0000
}

/// The exponent field of a single.
#[verifier::allow_in_spec]
pub fn exponent_s(bits: u32) -> (r: u32)
    returns
        (bits / 0x0080_0000 % 256) as u32,
{
    bits / 0x0080_0000 % 256
}

/// The fraction field of a single.
#[verifier::allow_in_spec]
pub fn fraction_s(bits: u32) -> (r: u32)
    returns
        (bits % 0x0080_0000) as u32,
{
    bits % 0x0080_0000
}

/// Whether a single is a NaN.
#[verifier::allow_in_spec]
pub fn is_nan_s(bits: u32) -> (r: bool)
    returns
        exponent_s(bits) == 255 && fraction_s(bits) != 0,
{
    exponent_s(bits) == 255 && fraction_s(bits) != 0
}

/// Where a single that is a number stands among all: larger is larger, and both zeros
/// stand at 0.
pub open spec fn order_s(bits: u32) -> int {
    if negative_s(bits) {
        -(bits as int - 0x8000_0000)
    } else {
        bits as int
    }
}

/// Where a single that is a number stands among all.
fn place_s(bits: u32) -> (r: i128)
    ensures
        r == order_s(bits),
{
    if negative_s(bits) {
        -(bits as i128 - 0x8000_0000)
    } else {
        bits as i128
    }
}

/// A single-precision result, with a NaN replaced by the canonical one. Other values pass
/// through bit for bit, the sign of zero included.
#[verifier::allow_in_spec]
pub fn canonicalise_s(bits: u32) -> (r: u32)
    returns
        (if is_nan_s(bits) {
            CANONICAL_NAN_S
        } else {
            bits
        }),
{
    if is_nan_s(bits) {
        CANONICAL_NAN_S
    } else {
        bits
    }
}

/// The smaller or the larger of two singles: of a NaN and a number the number, of two
/// NaNs the canonical one, and of two zeros the negative one is the smaller.
pub open spec fn chosen_s(a: u32, b: u32, is_max: bool) -> u32 {
    if is_nan_s(a) && is_nan_s(b) {
        CANONICAL_NAN_S
    } else if is_nan_s(a) {
        b
    } else if is_nan_s(b) {
        a
    } else if order_s(a) == order_s(b) {
        if negative_s(a) != is_max {
            a
        } else {
            b
        }
    } else if (order_s(a) < order_s(b)) != is_max {
        a
    } else {
        b
    }
}

fn choose_s(a: u32, b: u32, is_max: bool) -> (r: u32)
    ensures
        r == chosen_s(a, b, is_max),
{
    if is_nan_s(a) {
        if is_nan_s(b) {
            return CANONICAL_NAN_S;
        }
        return b;
    }
    if is_nan_s(b) {
        return a;
    }
    let x: i128 = place_s(a);
    let y: i128 = place_s(b);
    let pick_a: bool = if x == y {
        // The two zeros: the sign decides.
        negative_s(a) != is_max
    } else {
        (x < y) != is_max
    };
    if pick_a {
        a
    } else {
        b
    }
}

/// The class of a single, as `fclass` numbers them.
pub open spec fn class_s(bits: u32) -> nat {
    if is_nan_s(bits) {
        if fraction_s(bits) >= 0x0040_0000 {
            9
        } else {
            8
        }
    } else if exponent_s(bits) == 255 {
        if negative_s(bits) {
            0
        } else {
            7
        }
    } else if exponent_s(bits) == 0 && fraction_s(bits) == 0 {
        if negative_s(bits) {
            3
        } else {
            4
        }
    } else if exponent_s(bits) == 0 {
        if negative_s(bits) {
            2
        } else {
            5
        }
    } else if negative_s(bits) {
        1
    } else {
        6
    }
}

fn classified_s(bits: u32) -> (r: u64)
    ensures
        r == pow2(class_s(bits)),
{
    proof {
        lemma2_to64();
    }
    let negative: bool = negative_s(bits);
    if is_nan_s(bits) {
        // The top bit of the fraction is the quiet bit.
        return if fraction_s(bits) >= 0x0040_0000 {
            512
        } else {
            256
        };
    }
    if exponent_s(bits) == 255 {
        return if negative {
            1
        } else {
            128
        };
    }
    if exponent_s(bits) == 0 {
        if fraction_s(bits) == 0 {
            return if negative {
                8
            } else {
                16
            };
        }
        return if negative {
            4
        } else {
            32
        };
    }
    if negative {
        2
    } else {
        64
    }
}

// Conversion to integers.

/// The significand of a double, as an integer.
pub open spec fn significand(bits: u64) -> nat {
    if exponent_d(bits) == 0 {
        fraction_d(bits) as nat
    } else {
        (fraction_d(bits) + 0x0010_0000_0000_0000) as nat
    }
}

/// The power of two that the significand of a double is multiplied by.
pub open spec fn scale(bits: u64) -> int {
    if exponent_d(bits) == 0 {
        -1074
    } else {
        exponent_d(bits) - 1075
    }
}

/// The integer that `n / d` is rounded to.
pub open spec fn quotient(n: nat, d: nat, mode: Rounding) -> nat {
    let q = n / d;
    let left = n % d;
    match mode {
        Rounding::TowardZero => q,
        Rounding::NearestEven => if 2 * left > d || (2 * left == d && q % 2 == 1) {
            q + 1
        } else {
            q
        },
    }
}

/// The magnitude of a double, rounded to an integer. An infinity counts as the power of two
/// that comes after the largest double.
pub open spec fn whole(bits: u64, mode: Rounding) -> nat {
    if scale(bits) >= 0 {
        significand(bits) * pow2(scale(bits) as nat)
    } else {
        quotient(significand(bits), pow2((-scale(bits)) as nat), mode)
    }
}

/// A double rounded to an integer.
pub open spec fn rounded(bits: u64, mode: Rounding) -> int {
    if negative_d(bits) {
        -(whole(bits, mode) as int)
    } else {
        whole(bits, mode) as int
    }
}

/// `v`, but no less than `low` and no more than `high`.
pub open spec fn clamped(v: int, low: int, high: int) -> int {
    if v < low {
        low
    } else if v > high {
        high
    } else {
        v
    }
}

/// A power of two.
fn two_to(n: u32) -> (r: u128)
    requires
        n <= 64,
    ensures
        r == pow2(n as nat),
{
    proof {
        lemma2_to64();
    }
    let mut p: u128 = 1;
    let mut i: u32 = 0;
    while i < n
        invariant
            i <= n <= 64,
            p == pow2(i as nat),
            p <= 0x1_0000_0000_0000_0000,
        decreases n - i,
    {
        proof {
            lemma_pow2_adds(i as nat, 1);
            lemma2_to64();
            lemma2_to64_rest();
            if i + 1 < 64 {
                lemma_pow2_strictly_increases((i + 1) as nat, 64);
            }
        }
        p = p * 2;
        i += 1;
    }
    p
}

/// The magnitude of a double, rounded to an integer, but 2^64 at most.
fn whole_of(bits: u64, mode: Rounding) -> (r: u128)
    ensures
        r == clamped(whole(bits, mode) as int, 0, 0x1_0000_0000_0000_0000),
{
    let exponent: u64 = exponent_d(bits);
    let n: u64 = if exponent == 0 {
        fraction_d(bits)
    } else {
        fraction_d(bits) + 0x0010_0000_0000_0000
    };
    proof {
        lemma2_to64();
        lemma2_to64_rest();
    }
    if exponent >= 1075 {
        let up: u64 = exponent - 1075;
        if up > 11 {
            proof {
                let p = pow2(up as nat);
                if up > 12 {
                    lemma_pow2_strictly_increases(12, up as nat);
                }
                assert(n * p >= 0x0010_0000_0000_0000 * 4096) by (nonlinear_arith)
                    requires
                        n >= 0x0010_0000_0000_0000,
                        p >= 4096,
                ;
            }
            return 0x1_0000_0000_0000_0000;
        }
        let p: u128 = two_to(up as u32);
        proof {
            if up < 11 {
                lemma_pow2_strictly_increases(up as nat, 11);
            }
            assert(0 <= n * p <= 0x0020_0000_0000_0000 * 2048) by (nonlinear_arith)
                requires
                    0 <= n <= 0x0020_0000_0000_0000,
                    0 <= p <= 2048,
            ;
        }
        return n as u128 * p;
    }
    let down: u64 = if exponent == 0 {
        1074
    } else {
        1075 - exponent
    };
    if down >= 54 {
        proof {
            if down > 54 {
                lemma_pow2_strictly_increases(54, down as nat);
            }
            let d = pow2(down as nat) as int;
            assert(n as int / d == 0 && n as int % d == n) by (nonlinear_arith)
                requires
                    0 <= n < d,
            ;
        }
        return 0;
    }
    let d: u128 = two_to(down as u32);
    proof {
        lemma_pow2_pos(down as nat);
        lemma_pow2_strictly_increases(down as nat, 54);
        assert(0 <= n as int / d as int <= n) by (nonlinear_arith)
            requires
                d >= 1,
                n >= 0,
        ;
        assert(0 <= (n as int % d as int) && (n as int % d as int) < d) by (nonlinear_arith)
            requires
                d >= 1,
                n >= 0,
        ;
    }
    let q: u128 = n as u128 / d;
    let left: u128 = n as u128 % d;
    match mode {
        Rounding::TowardZero => q,
        Rounding::NearestEven => if 2 * left > d || (2 * left == d && q % 2 == 1) {
            q + 1
        } else {
            q
        },
    }
}

/// Round a double to an integer: the first half of every conversion, before the clamp to the
/// destination. What comes back is clamped to 2^64 either way, and a NaN has no integer.
pub fn round_for_conversion(bits: u64, mode: Rounding) -> (r: Option<i128>)
    ensures
        match r {
            Some(v) => !is_nan_d(bits) && v == clamped(
                rounded(bits, mode),
                -0x1_0000_0000_0000_0000,
                0x1_0000_0000_0000_0000,
            ),
            None => is_nan_d(bits),
        },
{
    if is_nan_d(bits) {
        return None;
    }
    let n: u128 = whole_of(bits, mode);
    if negative_d(bits) {
        Some(-(n as i128))
    } else {
        Some(n as i128)
    }
}

/// Convert a double to a signed integer of `width` bits: rounded, then clamped to the
/// destination's range. A NaN becomes the maximum.
pub fn to_signed(bits: u64, mode: Rounding, width: u32) -> (r: i64)
    requires
        1 <= width <= 64,
    ensures
        is_nan_d(bits) ==> r == pow2((width - 1) as nat) - 1,
        !is_nan_d(bits) ==> r == clamped(
            rounded(bits, mode),
            -(pow2((width - 1) as nat) as int),
            pow2((width - 1) as nat) - 1,
        ),
{
    proof {
        lemma2_to64();
        lemma2_to64_rest();
        if width < 64 {
            lemma_pow2_strictly_increases((width - 1) as nat, 63);
        }
        lemma_pow2_pos((width - 1) as nat);
    }
    let limit: i128 = two_to(width - 1) as i128;
    match round_for_conversion(bits, mode) {
        None => (limit - 1) as i64,
        Some(v) => if v >= limit {
            (limit - 1) as i64
        } else if v < -limit {
            (-limit) as i64
        } else {
            v as i64
        },
    }
}

/// Convert a double to an unsigned integer of `width` bits: rounded, then clamped to the
/// destination's range. A NaN becomes the maximum.
pub fn to_unsigned(bits: u64, mode: Rounding, width: u32) -> (r: u64)
    requires
        width <= 64,
    ensures
        is_nan_d(bits) ==> r == pow2(width as nat) - 1,
        !is_nan_d(bits) ==> r == clamped(rounded(bits, mode), 0, pow2(width as nat) - 1),
{
    proof {
        lemma2_to64();
        lemma2_to64_rest();
        if width < 64 {
            lemma_pow2_strictly_increases(width as nat, 64);
        }
        lemma_pow2_pos(width as nat);
    }
    let limit: i128 = two_to(width) as i128;
    match round_for_conversion(bits, mode) {
        None => (limit - 1) as u64,
        Some(v) => if v >= limit {
            (limit - 1) as u64
        } else if v < 0 {
            0
        } else {
            v as u64
        },
    }
}

// Registers.

/// A single as a 64-bit register holds it: all ones above it.
#[verifier::allow_in_spec]
pub fn nan_box(single: u32) -> (r: u64)
    returns
        (0xffff_ffff_0000_0000 + single) as u64,
{
    0xffff_ffff_0000_0000 + single as u64
}

/// Read a register as a single. One that is not properly boxed does not hold a single, so it
/// reads as the canonical NaN.
#[verifier::allow_in_spec]
pub fn unbox_single(bits: u64) -> (r: u32)
    returns
        (if bits / 0x1_0000_0000 == 0xffff_ffff {
            (bits % 0x1_0000_0000) as u32
        } else {
            CANONICAL_NAN_S
        }),
{
    if bits / 0x1_0000_0000 == 0xffff_ffff {
        (bits % 0x1_0000_0000) as u32
    } else {
        CANONICAL_NAN_S
    }
}

/// Write a single result into a register: canonicalise a NaN, then box.
pub fn box_single(single: u32) -> (r: u64)
    ensures
        r == nan_box(canonicalise_s(single)),
{
    nan_box(canonicalise_s(single))
}

/// `fmin` and `fmax` for doubles.
pub fn min_max_d(a: u64, b: u64, is_max: bool) -> (r: u64)
    ensures
        r == chosen_d(a, b, is_max),
{
    choose_d(a, b, is_max)
}

/// `fmin` and `fmax` for singles, boxed.
pub fn min_max_s(a: u32, b: u32, is_max: bool) -> (r: u64)
    ensures
        r == nan_box(chosen_s(a, b, is_max)),
{
    nan_box(choose_s(a, b, is_max))
}

/// Sign injection: the magnitude of `a` with a sign derived from `b`. `mode` is the
/// instruction's funct3: 0 takes the sign of `b`, 1 its inverse, 2 both signs' exclusive or.
/// A bit operation: the magnitude passes through untouched. `sign_bit` serves both widths.
pub fn sign_inject(a: u64, b: u64, mode: u32, sign_bit: u64) -> (r: Option<u64>)
    ensures
        r == if mode == 0 {
            Some((a & !sign_bit) | (b & sign_bit))
        } else if mode == 1 {
            Some((a & !sign_bit) | (!b & sign_bit))
        } else if mode == 2 {
            Some((a & !sign_bit) | ((a ^ b) & sign_bit))
        } else {
            None
        },
        r == injected(a, b, mode, sign_bit),
{
    let sign: u64 = if mode == 0 {
        b & sign_bit
    } else if mode == 1 {
        !b & sign_bit
    } else if mode == 2 {
        (a ^ b) & sign_bit
    } else {
        return None;
    };
    Some((a & !sign_bit) | sign)
}

/// A double-precision comparison by funct3: 0 is `fle`, 1 is `flt`, 2 is `feq`. A NaN is
/// unordered, so that every comparison with one is false.
pub fn compare(a: u64, b: u64, selector: u32) -> (r: Option<bool>)
    ensures
        r == if selector > 2 {
            None
        } else if is_nan_d(a) || is_nan_d(b) {
            Some(false)
        } else if selector == 0 {
            Some(order_d(a) <= order_d(b))
        } else if selector == 1 {
            Some(order_d(a) < order_d(b))
        } else {
            Some(order_d(a) == order_d(b))
        },
        r == compared(a, b, selector),
{
    if selector > 2 {
        return None;
    }
    if is_nan_d(a) || is_nan_d(b) {
        return Some(false);
    }
    let x: i128 = place_d(a);
    let y: i128 = place_d(b);
    if selector == 0 {
        Some(x <= y)
    } else if selector == 1 {
        Some(x < y)
    } else {
        Some(x == y)
    }
}

/// `fclass`'s one-hot classification of a double.
pub fn classify_d(bits: u64) -> (r: u64)
    ensures
        r == pow2(class_d(bits)),
{
    classified_d(bits)
}

/// `fclass`'s one-hot classification of a single, decided at single precision. A register
/// that is not boxed reads as the canonical NaN.
pub fn classify_s(bits: u64) -> (r: u64)
    ensures
        r == pow2(class_s(unbox_single(bits))),
{
    classified_s(unbox_single(bits))
}

/// A single that is written to a register is read back from it, a NaN as the canonical one.
pub proof fn law_a_boxed_single_is_read_back(single: u32)
    ensures
        unbox_single(nan_box(canonicalise_s(single))) == canonicalise_s(single),
{
}

/// A register that is not boxed holds no single.
pub proof fn law_an_unboxed_register_is_a_nan(bits: u64)
    ensures
        bits / 0x1_0000_0000 != 0xffff_ffff ==> is_nan_s(unbox_single(bits)),
{
}

/// The smaller and the larger of two doubles do not depend on which comes first.
pub proof fn law_min_max_is_symmetric(a: u64, b: u64, is_max: bool)
    ensures
        chosen_d(a, b, is_max) == chosen_d(b, a, is_max),
{
}

/// The smaller and the larger of two singles do not depend on which comes first.
pub proof fn law_min_max_of_singles_is_symmetric(a: u32, b: u32, is_max: bool)
    ensures
        chosen_s(a, b, is_max) == chosen_s(b, a, is_max),
{
}

// What the values are.

/// `a` with the sign that `mode` makes of both.
pub open spec fn injected(a: u64, b: u64, mode: u32, sign_bit: u64) -> Option<u64> {
    if mode == 0 {
        Some((a & !sign_bit) | (b & sign_bit))
    } else if mode == 1 {
        Some((a & !sign_bit) | (!b & sign_bit))
    } else if mode == 2 {
        Some((a & !sign_bit) | ((a ^ b) & sign_bit))
    } else {
        None
    }
}

/// Sign injection keeps the magnitude. The sign is that of the second operand, its opposite, or
/// negative where the two differ. There is nothing else to inject.
pub proof fn law_signs_are_injected(a: u64, b: u64, mode: u32)
    ensures
        injected(a, b, mode, 0x8000_0000_0000_0000) is Some <==> mode < 3,
        match injected(a, b, mode, 0x8000_0000_0000_0000) {
            Some(r) => {
                let (na, nb) = (a >= 0x8000_0000_0000_0000, b >= 0x8000_0000_0000_0000);
                &&& r % 0x8000_0000_0000_0000 == a % 0x8000_0000_0000_0000
                &&& (r >= 0x8000_0000_0000_0000) == if mode == 0 {
                    nb
                } else if mode == 1 {
                    !nb
                } else {
                    na != nb
                }
            },
            None => true,
        },
{
    assert(({
        let s = 0x8000_0000_0000_0000u64;
        let r0 = (a & !s) | (b & s);
        let r1 = (a & !s) | (!b & s);
        let r2 = (a & !s) | ((a ^ b) & s);
        &&& r0 % s == a % s && r1 % s == a % s && r2 % s == a % s
        &&& (r0 >= s) == (b >= s)
        &&& (r1 >= s) == !(b >= s)
        &&& (r2 >= s) == ((a >= s) != (b >= s))
    })) by (bit_vector);
}

/// What a comparison of two doubles gives.
pub open spec fn compared(a: u64, b: u64, selector: u32) -> Option<bool> {
    if selector > 2 {
        None
    } else if is_nan_d(a) || is_nan_d(b) {
        Some(false)
    } else if selector == 0 {
        Some(order_d(a) <= order_d(b))
    } else if selector == 1 {
        Some(order_d(a) < order_d(b))
    } else {
        Some(order_d(a) == order_d(b))
    }
}

/// The selectors 0, 1 and 2 ask whether the first is at most, below or equal to the second, and
/// exactly one of below, equal and above holds of two numbers. A NaN is none of them.
pub proof fn law_comparisons_agree(a: u64, b: u64)
    ensures
        ({
            let nan = is_nan_d(a) || is_nan_d(b);
            let (below, equal, above) = (
                compared(a, b, 1) == Some(true),
                compared(a, b, 2) == Some(true),
                compared(b, a, 1) == Some(true),
            );
            &&& nan ==> !below && !equal && !above && compared(a, b, 0) == Some(false)
            &&& !nan ==> (below || equal || above) && !(below && equal) && !(below && above)
                && !(equal && above)
            &&& !nan ==> compared(a, b, 0) == Some(below || equal)
            &&& forall|s: u32| s > 2 ==> (#[trigger] compared(a, b, s)) is None
        }),
{
}

/// Numbers are ordered by sign first: any negative one but zero is below any that is not. Of two
/// that are not negative the larger bits are the larger number, of two negative ones the smaller.
/// The two zeros are equal.
pub proof fn law_doubles_are_ordered(a: u64, b: u64)
    ensures
        ({
            let s: u64 = 0x8000_0000_0000_0000;
            &&& a < s && b < s ==> (order_d(a) < order_d(b) <==> a < b)
            &&& a >= s && b >= s ==> (order_d(a) < order_d(b) <==> a > b)
            &&& a >= s && b < s ==> (order_d(a) < order_d(b) <==> !(a == s && b == 0))
            &&& order_d(0) == order_d(0x8000_0000_0000_0000)
            &&& order_d(a) == order_d(b) ==> a == b || (a % 0x8000_0000_0000_0000 == 0 && b
                % 0x8000_0000_0000_0000 == 0)
        }),
{
}

/// The smaller of two numbers is one of them, and neither is below it; likewise the larger. Of a
/// NaN and a number it is the number, and of two NaNs the canonical one. Of two zeros the
/// negative one is the smaller.
pub proof fn law_the_smaller_and_the_larger(a: u64, b: u64)
    ensures
        ({
            let (low, high) = (chosen_d(a, b, false), chosen_d(a, b, true));
            let (x, y) = (is_nan_d(a), is_nan_d(b));
            &&& x && y ==> low == 0x7ff8_0000_0000_0000 && high == 0x7ff8_0000_0000_0000
            &&& x && !y ==> low == b && high == b
            &&& !x && y ==> low == a && high == a
            &&& !x && !y ==> (low == a && high == b) || (low == b && high == a)
            &&& !x && !y ==> order_d(low) <= order_d(high)
            &&& !x && !y && order_d(low) == order_d(high) && low != high ==> low
                == 0x8000_0000_0000_0000 && high == 0
        }),
{
}

/// The same of singles.
pub proof fn law_the_smaller_and_the_larger_single(a: u32, b: u32)
    ensures
        ({
            let (low, high) = (chosen_s(a, b, false), chosen_s(a, b, true));
            let (x, y) = (is_nan_s(a), is_nan_s(b));
            &&& x && y ==> low == 0x7fc0_0000 && high == 0x7fc0_0000
            &&& x && !y ==> low == b && high == b
            &&& !x && y ==> low == a && high == a
            &&& !x && !y ==> (low == a && high == b) || (low == b && high == a)
            &&& !x && !y ==> order_s(low) <= order_s(high)
            &&& !x && !y && order_s(low) == order_s(high) && low != high ==> low == 0x8000_0000
                && high == 0
        }),
{
}

/// A NaN has all exponent bits set and some of the fraction's; a result that is one is the
/// canonical NaN, and any other is as it is.
pub proof fn law_one_nan_is_canonical(d: u64, s: u32)
    ensures
        is_nan_d(d) == (d % 0x8000_0000_0000_0000 > 0x7ff0_0000_0000_0000),
        is_nan_s(s) == (s % 0x8000_0000 > 0x7f80_0000),
        canonicalise_d(d) == if d % 0x8000_0000_0000_0000 > 0x7ff0_0000_0000_0000 {
            0x7ff8_0000_0000_0000
        } else {
            d
        },
        canonicalise_s(s) == if s % 0x8000_0000 > 0x7f80_0000 {
            0x7fc0_0000
        } else {
            s
        },
{
}

/// A single is boxed with all ones above it, and what is not boxed is the canonical NaN.
pub proof fn law_singles_are_boxed(s: u32, bits: u64)
    ensures
        nan_box(s) as int == 0xffff_ffff_0000_0000 + s,
        unbox_single(bits) as int == if bits >= 0xffff_ffff_0000_0000 {
            bits - 0xffff_ffff_0000_0000
        } else {
            0x7fc0_0000
        },
{
}

/// The classes of doubles, from negative infinity up to positive infinity and then the NaNs, told
/// from the bits without the sign.
pub proof fn law_the_classes_of_doubles(bits: u64)
    ensures
        ({
            let m = bits % 0x8000_0000_0000_0000;
            let neg = bits >= 0x8000_0000_0000_0000;
            let c = class_d(bits);
            &&& m == 0x7ff0_0000_0000_0000 ==> c == if neg { 0nat } else { 7 }
            &&& 0x0010_0000_0000_0000 <= m < 0x7ff0_0000_0000_0000 ==> c == if neg { 1nat } else { 6 }
            &&& 0 < m < 0x0010_0000_0000_0000 ==> c == if neg { 2nat } else { 5 }
            &&& m == 0 ==> c == if neg { 3nat } else { 4 }
            &&& 0x7ff0_0000_0000_0000 < m < 0x7ff8_0000_0000_0000 ==> c == 8
            &&& m >= 0x7ff8_0000_0000_0000 ==> c == 9
        }),
{
}

/// The classes of singles likewise.
pub proof fn law_the_classes_of_singles(bits: u32)
    ensures
        ({
            let m = bits % 0x8000_0000;
            let neg = bits >= 0x8000_0000;
            let c = class_s(bits);
            &&& m == 0x7f80_0000 ==> c == if neg { 0nat } else { 7 }
            &&& 0x0080_0000 <= m < 0x7f80_0000 ==> c == if neg { 1nat } else { 6 }
            &&& 0 < m < 0x0080_0000 ==> c == if neg { 2nat } else { 5 }
            &&& m == 0 ==> c == if neg { 3nat } else { 4 }
            &&& 0x7f80_0000 < m < 0x7fc0_0000 ==> c == 8
            &&& m >= 0x7fc0_0000 ==> c == 9
        }),
{
}

/// A double is its fraction, with a bit before it unless the exponent is 0, times a power of two.
pub proof fn law_the_value_of_a_double(bits: u64)
    ensures
        ({
            let e = bits as int / 0x0010_0000_0000_0000 % 2048;
            let f = bits as int % 0x0010_0000_0000_0000;
            &&& e == 0 ==> significand(bits) == f && scale(bits) == -1074
            &&& e != 0 ==> significand(bits) == 0x0010_0000_0000_0000 + f && scale(bits) == e
                - 1075
        }),
{
}

/// Rounding to nearest differs from the true quotient by half at most, and where two integers are
/// as near takes the even one; rounding toward zero takes the integer part.
pub proof fn law_quotients_are_rounded(n: nat, d: nat)
    requires
        d > 0,
    ensures
        ({
            let q = quotient(n, d, Rounding::NearestEven);
            let z = quotient(n, d, Rounding::TowardZero);
            &&& -(d as int) <= 2 * (q * d - n) <= d
            &&& 2 * (q * d - n) == d || 2 * (q * d - n) == -(d as int) ==> q % 2 == 0
            &&& z * d <= n < z * d + d
        }),
{
    vstd::arithmetic::div_mod::lemma_fundamental_div_mod(n as int, d as int);
    vstd::arithmetic::div_mod::lemma_mod_bound(n as int, d as int);
    let z = n / d;
    assert(d * z == z * d) by (nonlinear_arith);
    assert((z + 1) * d == z * d + d) by (nonlinear_arith);
}

/// A double rounds to the integer nearest its value: the value itself where it is whole, of the
/// same sign.
pub proof fn law_a_double_is_rounded(bits: u64, mode: Rounding)
    ensures
        ({
            let k = scale(bits);
            let w = rounded(bits, mode);
            let size = if w < 0 {
                -w
            } else {
                w
            };
            &&& k >= 0 ==> size == significand(bits) * pow2(k as nat)
            &&& k < 0 ==> size == quotient(significand(bits), pow2((-k) as nat), mode)
            &&& bits >= 0x8000_0000_0000_0000 ==> w <= 0
            &&& bits < 0x8000_0000_0000_0000 ==> w >= 0
        }),
{
}

/// The mode 7 stands for the one that the low three bits of the status name; every other stands
/// for itself.
pub proof fn law_the_mode_in_force(mode: u32, frm: u64)
    ensures
        effective_mode(7, frm) as int == frm as int % 8,
        mode != 7 ==> effective_mode(mode, frm) == mode,
        rm::RNE == 0 && rm::RTZ == 1,
{
}

} // verus!
