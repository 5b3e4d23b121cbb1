//! Floating point by its bits.

use snemu::fp::{
    self, arithmetic_rounding, classify_d, classify_s, conversion_rounding, nan_box, rm, Rounding,
    CANONICAL_NAN_D, CANONICAL_NAN_S,
};

fn canonicalise_d(value: f64) -> u64 {
    fp::canonicalise_d(value.to_bits())
}

fn canonicalise_s(value: f32) -> u32 {
    fp::canonicalise_s(value.to_bits())
}

fn box_single(value: f32) -> u64 {
    fp::box_single(value.to_bits())
}

fn unbox_single(bits: u64) -> f32 {
    f32::from_bits(fp::unbox_single(bits))
}

fn round_for_conversion(value: f64, mode: Rounding) -> f64 {
    fp::round_for_conversion(value.to_bits(), mode).expect("a number") as f64
}

fn to_signed(value: f64, mode: Rounding, width: u32) -> i64 {
    fp::to_signed(value.to_bits(), mode, width)
}

fn to_unsigned(value: f64, mode: Rounding, width: u32) -> u64 {
    fp::to_unsigned(value.to_bits(), mode, width)
}

#[test]
fn classify_s_decides_at_single_precision_not_by_widening() {
    let boxed = |bits: u32| 0xffff_ffff_0000_0000 | u64::from(bits);

    let subnormal = boxed(0x0000_0001);
    assert_eq!(classify_s(subnormal), 1 << 5, "a subnormal single is class 5");
    assert_ne!(
        classify_s(subnormal),
        classify_d(f64::from(f32::from_bits(0x0000_0001)).to_bits()),
        "widening would call this normal",
    );

    let signalling = boxed(0x7f80_0001);
    assert_eq!(classify_s(signalling), 1 << 8, "signalling NaN is class 8");
    let quiet = boxed(0x7fc0_0000);
    assert_eq!(classify_s(quiet), 1 << 9, "quiet NaN is class 9");
}

#[test]
fn classify_s_covers_the_ordinary_classes() {
    let boxed = |value: f32| 0xffff_ffff_0000_0000 | u64::from(value.to_bits());

    assert_eq!(classify_s(boxed(f32::NEG_INFINITY)), 1 << 0);
    assert_eq!(classify_s(boxed(-1.5)), 1 << 1);
    assert_eq!(classify_s(boxed(-0.0)), 1 << 3);
    assert_eq!(classify_s(boxed(0.0)), 1 << 4);
    assert_eq!(classify_s(boxed(1.5)), 1 << 6);
    assert_eq!(classify_s(boxed(f32::INFINITY)), 1 << 7);
}

#[test]
fn classify_s_of_an_unboxed_register_is_a_quiet_nan() {
    assert_eq!(classify_s(1.5f64.to_bits()), 1 << 9);
}

#[test]
fn arithmetic_producing_nan_yields_canonical_nan_not_a_propagated_payload() {
    let payload_nan = f64::from_bits(0x7ff0_0000_dead_beef);
    assert_eq!(
        canonicalise_d(payload_nan + 1.0),
        CANONICAL_NAN_D,
        "the operand's payload must not survive into the result",
    );
    assert_eq!(canonicalise_d(0.0 * f64::INFINITY), CANONICAL_NAN_D);
    assert_eq!(canonicalise_d(f64::INFINITY - f64::INFINITY), CANONICAL_NAN_D);
}

#[test]
fn single_precision_canonical_nan_is_distinct_from_the_double_one() {
    let payload_nan = f32::from_bits(0x7f80_dead);
    assert_eq!(canonicalise_s(payload_nan + 1.0), CANONICAL_NAN_S);
    assert_eq!(CANONICAL_NAN_S, 0x7fc0_0000);
    assert_eq!(CANONICAL_NAN_D, 0x7ff8_0000_0000_0000);
}

#[test]
fn canonicalising_leaves_ordinary_values_untouched_including_negative_zero() {
    assert_eq!(canonicalise_d(1.5), 1.5f64.to_bits());
    assert_eq!(canonicalise_d(-0.0), (-0.0f64).to_bits());
    assert_ne!(canonicalise_d(-0.0), canonicalise_d(0.0), "sign of zero survives");
    assert_eq!(canonicalise_d(f64::INFINITY), f64::INFINITY.to_bits());
}

#[test]
fn a_boxed_single_unboxes_to_its_value() {
    let bits = box_single(3.5);
    assert_eq!(bits >> 32, 0xffff_ffff, "boxed");
    assert_eq!(unbox_single(bits), 3.5);
}

#[test]
fn an_unboxed_register_reads_as_canonical_nan_when_used_as_a_single() {
    let double_bits = 1.0f64.to_bits();
    assert_ne!(double_bits >> 32, 0xffff_ffff, "precondition: not boxed");
    assert_eq!(
        unbox_single(double_bits).to_bits(),
        CANONICAL_NAN_S,
        "an unboxed register is not a single — it reads as canonical NaN",
    );
}

#[test]
fn a_nan_single_result_is_both_canonicalised_and_boxed() {
    let bits = box_single(f32::from_bits(0x7f80_dead) + 1.0);
    assert_eq!(bits, nan_box(CANONICAL_NAN_S));
}

#[test]
fn nearest_even_is_accepted_both_explicitly_and_dynamically() {
    assert_eq!(arithmetic_rounding(rm::RNE, 0), Ok(()));
    assert_eq!(arithmetic_rounding(rm::DYN, 0), Ok(()));
}

#[test]
fn any_other_arithmetic_rounding_mode_is_reported_by_its_effective_value() {
    for mode in [rm::RTZ, rm::RDN, rm::RUP, rm::RMM] {
        assert_eq!(arithmetic_rounding(mode, 0), Err(mode), "explicit mode {mode} must be refused");
        assert_eq!(
            arithmetic_rounding(rm::DYN, u64::from(mode)),
            Err(mode),
            "DYN with frm={mode} is the same unsupported mode",
        );
    }
}

#[test]
fn conversion_rounding_accepts_the_two_modes_real_code_emits() {
    assert_eq!(conversion_rounding(rm::RNE, 0), Ok(Rounding::NearestEven));
    assert_eq!(conversion_rounding(rm::RTZ, 0), Ok(Rounding::TowardZero));
    assert_eq!(conversion_rounding(rm::DYN, 0), Ok(Rounding::NearestEven));
    assert_eq!(conversion_rounding(rm::DYN, u64::from(rm::RTZ)), Ok(Rounding::TowardZero));
    for mode in [rm::RDN, rm::RUP, rm::RMM, 0b101, 0b110] {
        assert_eq!(conversion_rounding(mode, 0), Err(mode));
    }
}

#[test]
fn the_two_conversion_modes_give_different_answers() {
    assert_eq!(round_for_conversion(1.5, Rounding::TowardZero), 1.0);
    assert_eq!(round_for_conversion(1.5, Rounding::NearestEven), 2.0);
    assert_eq!(round_for_conversion(2.5, Rounding::NearestEven), 2.0);
    assert_eq!(round_for_conversion(-1.9, Rounding::TowardZero), -1.0);
}

#[test]
fn nan_converts_to_the_maximum_positive_integer() {
    assert_eq!(to_signed(f64::NAN, Rounding::TowardZero, 64), i64::MAX);
    assert_eq!(to_signed(f64::NAN, Rounding::TowardZero, 32), i64::from(i32::MAX));
    assert_eq!(to_unsigned(f64::NAN, Rounding::TowardZero, 64), u64::MAX);
    assert_eq!(to_unsigned(f64::NAN, Rounding::TowardZero, 32), u64::from(u32::MAX));
}

#[test]
fn out_of_range_conversions_saturate_at_the_destination_width() {
    assert_eq!(to_signed(1e300, Rounding::TowardZero, 32), i64::from(i32::MAX));
    assert_eq!(to_signed(-1e300, Rounding::TowardZero, 32), i64::from(i32::MIN));
    assert_eq!(to_unsigned(-1.0, Rounding::TowardZero, 64), 0, "negative floors at zero");
    assert_eq!(to_unsigned(1e300, Rounding::TowardZero, 32), u64::from(u32::MAX));
    assert_eq!(to_signed(f64::INFINITY, Rounding::TowardZero, 64), i64::MAX);
    assert_eq!(to_signed(f64::NEG_INFINITY, Rounding::TowardZero, 64), i64::MIN);
}

#[test]
fn reserved_rounding_encodings_are_refused() {
    assert_eq!(arithmetic_rounding(0b101, 0), Err(0b101));
    assert_eq!(arithmetic_rounding(0b110, 0), Err(0b110));
}
