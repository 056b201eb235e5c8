use hydra_math::decimal::{Decimal, DecimalError, AMOUNT_SCALE};

fn amount(value: u128) -> Decimal {
    Decimal::new(value, AMOUNT_SCALE, false)
}

fn negative_amount(value: u128) -> Decimal {
    Decimal::new(value, AMOUNT_SCALE, true)
}

#[test]
fn constructors_set_value_and_scale() {
    let a = Decimal::from_u64(7);
    assert_eq!((a.value, a.scale, a.negative), (7, 0, false));
    let b = Decimal::from_u128(9);
    assert_eq!((b.value, b.scale, b.negative), (9, 0, false));
    let c = Decimal::from_amount(1_500_000);
    assert_eq!((c.value, c.scale, c.negative), (1_500_000, AMOUNT_SCALE, false));
    let d = Decimal::from_u64(3).to_amount();
    assert_eq!((d.value, d.scale), (3_000_000, AMOUNT_SCALE));
}

#[test]
fn to_scale_scales_up_exactly_and_down_by_truncation() {
    let a = amount(1_234_567);
    let up = a.to_scale(8);
    assert_eq!((up.value, up.scale), (123_456_700, 8));
    let down = a.to_scale(4);
    assert_eq!((down.value, down.scale), (12_345, 4));
    let n = negative_amount(1_234_567).to_scale(2);
    assert_eq!((n.value, n.negative), (123, true));
}

#[test]
fn rescale_round_trip_gives_back_the_decimal() {
    let a = negative_amount(987_654_321);
    let back = a.to_scale(15).to_scale(AMOUNT_SCALE);
    assert_eq!((back.value, back.scale, back.negative), (a.value, a.scale, a.negative));
}

#[test]
fn mul_keeps_left_scale_and_truncates() {
    let p = amount(2_500_000).mul(amount(1_333_333));
    assert_eq!((p.value, p.scale, p.negative), (3_333_332, AMOUNT_SCALE, false));
    let n = negative_amount(2_500_000).mul(amount(1_333_333));
    assert_eq!((n.value, n.negative), (3_333_332, true));
    let z = negative_amount(1).mul(amount(1));
    assert_eq!((z.value, z.negative), (0, false));
    let mixed = amount(2_000_000).mul(Decimal::new(15, 1, false));
    assert_eq!((mixed.value, mixed.scale), (3_000_000, AMOUNT_SCALE));
}

#[test]
fn div_keeps_left_scale_and_truncates() {
    let q = amount(1_000_000).div(amount(3_000_000));
    assert_eq!((q.value, q.scale, q.negative), (333_333, AMOUNT_SCALE, false));
    let n = amount(1_000_000).div(negative_amount(4_000_000));
    assert_eq!((n.value, n.negative), (250_000, true));
}

#[test]
fn quotient_is_truncated_towards_zero() {
    let a = amount(10_000_000);
    let b = amount(7_000_000);
    let q = a.div(b);
    // q * b <= a * 10^6 < (q + 1) * b
    assert!(q.value * b.value <= a.value * 1_000_000);
    assert!(a.value * 1_000_000 < (q.value + 1) * b.value);
}

#[test]
fn add_and_sub_are_signed_and_exact() {
    let s = amount(1_500_000).add(negative_amount(2_000_000)).unwrap();
    assert_eq!((s.value, s.negative), (500_000, true));
    let d = amount(1_500_000).sub(amount(2_000_000)).unwrap();
    assert_eq!((d.value, d.negative), (500_000, true));
    let z = amount(1_000_000).sub(amount(1_000_000)).unwrap();
    assert_eq!((z.value, z.negative), (0, false));
    let n = negative_amount(1_000_000).sub(amount(2_000_000)).unwrap();
    assert_eq!((n.value, n.negative), (3_000_000, true));
}

#[test]
fn sum_then_difference_gives_back_the_first_operand() {
    let a = negative_amount(123_456);
    let b = amount(7_000_000);
    let back = a.add(b).unwrap().sub(b).unwrap();
    assert_eq!((back.value, back.negative), (123_456, true));
}

#[test]
fn add_and_sub_refuse_different_scales_and_overflow() {
    assert_eq!(amount(1).add(Decimal::new(1, 2, false)).unwrap_err(), DecimalError::DifferentScale);
    assert_eq!(amount(1).sub(Decimal::new(1, 2, false)).unwrap_err(), DecimalError::DifferentScale);
    assert_eq!(amount(u128::MAX).add(amount(1)).unwrap_err(), DecimalError::Overflow);
    assert_eq!(negative_amount(u128::MAX).sub(amount(1)).unwrap_err(), DecimalError::Overflow);
}

#[test]
fn comparisons_compare_magnitudes_at_equal_scales() {
    assert!(amount(5).eq(negative_amount(5)).unwrap());
    assert!(amount(6).gt(amount(5)).unwrap());
    assert!(!amount(5).gt(amount(5)).unwrap());
    assert!(amount(5).gte(amount(5)).unwrap());
    assert!(amount(4).lt(amount(5)).unwrap());
    assert!(amount(5).lte(amount(5)).unwrap());
    assert_eq!(amount(5).eq(Decimal::new(5, 2, false)).unwrap_err(), DecimalError::DifferentScale);
    assert_eq!(amount(5).lt(Decimal::new(5, 2, false)).unwrap_err(), DecimalError::DifferentScale);
}

#[test]
fn same_as_compares_every_field() {
    assert!(amount(5).same_as(&amount(5)));
    assert!(!amount(5).same_as(&negative_amount(5)));
    assert!(!amount(5).same_as(&Decimal::new(5, 2, false)));
}

#[test]
fn sqrt_is_the_truncated_root() {
    let r = amount(2_000_000).sqrt().unwrap();
    assert_eq!((r.value, r.scale, r.negative), (1_414_213, AMOUNT_SCALE, false));
    // r * r <= value * 10^6 < (r + 1) * (r + 1)
    assert!(r.value * r.value <= 2_000_000 * 1_000_000);
    assert!(2_000_000 * 1_000_000 < (r.value + 1) * (r.value + 1));
    let exact = amount(9_000_000).sqrt().unwrap();
    assert_eq!(exact.value, 3_000_000);
}

#[test]
fn sqrt_refuses_negative_numbers_and_overflow() {
    assert_eq!(negative_amount(4_000_000).sqrt().unwrap_err(), DecimalError::NegativeRoot);
    assert_eq!(amount(u128::MAX).sqrt().unwrap_err(), DecimalError::Overflow);
}

#[test]
fn ln_of_known_values() {
    let two = Decimal::new(200_000_000, 8, false).ln().unwrap();
    assert_eq!((two.value, two.scale, two.negative), (69_314_718, 8, false));
    let half = Decimal::new(50_000_000, 8, false).ln().unwrap();
    assert_eq!((half.value, half.negative), (69_314_718, true));
    let one = Decimal::new(100_000_000, 8, false).ln().unwrap();
    assert_eq!((one.value, one.negative), (0, false));
    let ten = Decimal::from_u64(10).to_amount().ln().unwrap();
    assert_eq!(ten.value, 2_302_585);
    let five = Decimal::from_u64(5).ln().unwrap();
    assert_eq!((five.value, five.scale), (1, 0));
}

#[test]
fn ln_refuses_non_positive_numbers_and_large_scales() {
    assert_eq!(amount(0).ln().unwrap_err(), DecimalError::NonPositiveLog);
    assert_eq!(negative_amount(1).ln().unwrap_err(), DecimalError::NonPositiveLog);
    assert_eq!(Decimal::new(1, 19, false).ln().unwrap_err(), DecimalError::ScaleTooLarge);
}

#[test]
fn pow_integer_and_fractional_exponents() {
    let cube = amount(2_000_000).pow(amount(3_000_000));
    assert_eq!((cube.value, cube.scale), (8_000_000, AMOUNT_SCALE));
    let half = amount(4_000_000).pow(amount(500_000));
    assert_eq!(half.value, 2_000_000);
    let quarter = amount(16_000_000).pow(amount(250_000));
    assert_eq!(quarter.value, 2_000_000);
    let three_halves = amount(2_000_000).pow(amount(1_500_000));
    assert_eq!(three_halves.value, 2_828_426);
    let zero = amount(7_000_000).pow(amount(0));
    assert_eq!(zero.value, 1_000_000);
}

#[test]
fn pow_ignores_the_sign_of_the_exponent() {
    let p = amount(2_000_000).pow(negative_amount(1_000_000));
    assert_eq!((p.value, p.negative), (2_000_000, false));
}

#[test]
fn ln_below_one_is_not_positive_at_eight_places() {
    for v in [1u128, 12_345, 50_000_000, 99_999_999, 100_000_000] {
        let l = Decimal::new(v, 8, false).ln().unwrap();
        assert!(l.negative || l.value == 0);
    }
}

#[test]
fn ln_of_one_at_eighteen_places_is_slightly_negative() {
    let l = Decimal::new(1_000_000_000_000_000_000, 18, false).ln().unwrap();
    assert_eq!((l.value, l.negative), (39, true));
}

#[test]
fn pow_grows_with_the_base() {
    let e = amount(1_500_000);
    let a = amount(2_000_000).pow(e);
    let b = amount(3_000_000).pow(e);
    assert!(a.value <= b.value);
}
