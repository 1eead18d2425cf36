use raytracer::fixed::{isqrt, Fixed};

const ONE: i32 = 65536;

#[test]
fn from_int_scales_by_one() {
    assert_eq!(Fixed::from_int(3).raw, 3 * ONE);
    assert_eq!(Fixed::from_int(-2).raw, -2 * ONE);
    assert_eq!(Fixed::from_int(0).raw, 0);
}

#[test]
fn from_int_saturates() {
    assert_eq!(Fixed::from_int(40000).raw, i32::MAX);
    assert_eq!(Fixed::from_int(-40000).raw, i32::MIN);
}

#[test]
fn from_ratio_rounds_toward_zero() {
    assert_eq!(Fixed::from_ratio(1, 2).raw, ONE / 2);
    assert_eq!(Fixed::from_ratio(1, 100).raw, 655);
    assert_eq!(Fixed::from_ratio(-1, 100).raw, -655);
    assert_eq!(Fixed::from_ratio(1, -100).raw, -655);
    assert_eq!(Fixed::from_ratio(-1, -100).raw, 655);
    assert_eq!(Fixed::from_ratio(1, 3).raw, 21845);
}

#[test]
fn from_ratio_of_zero_divisor_is_zero() {
    assert_eq!(Fixed::from_ratio(7, 0).raw, 0);
}

#[test]
fn from_ratio_saturates() {
    assert_eq!(Fixed::from_ratio(i32::MAX, 1).raw, i32::MAX);
    assert_eq!(Fixed::from_ratio(i32::MIN, 1).raw, i32::MIN);
}

#[test]
fn narrow_pins_to_the_range() {
    assert_eq!(Fixed::narrow(5).raw, 5);
    assert_eq!(Fixed::narrow(1 << 40).raw, i32::MAX);
    assert_eq!(Fixed::narrow(-(1 << 40)).raw, i32::MIN);
    assert_eq!(Fixed::narrow(i32::MAX as i128).raw, i32::MAX);
    assert_eq!(Fixed::narrow(i32::MIN as i128).raw, i32::MIN);
}

#[test]
fn addition_and_subtraction() {
    let a = Fixed::from_ratio(3, 2);
    let b = Fixed::from_ratio(1, 4);
    assert_eq!(a.saturating_add(b).raw, ONE + ONE / 2 + ONE / 4);
    assert_eq!(a.saturating_sub(b).raw, ONE + ONE / 4);
    assert_eq!(b.saturating_sub(a).raw, -(ONE + ONE / 4));
}

#[test]
fn addition_and_subtraction_saturate() {
    let big = Fixed { raw: i32::MAX };
    let small = Fixed { raw: i32::MIN };
    assert_eq!(big.saturating_add(Fixed::from_int(1)).raw, i32::MAX);
    assert_eq!(small.saturating_sub(Fixed::from_int(1)).raw, i32::MIN);
    assert_eq!(small.saturating_sub(big).raw, i32::MIN);
}

#[test]
fn multiplication_rounds_toward_zero() {
    let half = Fixed::from_ratio(1, 2);
    assert_eq!(Fixed::from_int(3).saturating_mul(half).raw, ONE + ONE / 2);
    assert_eq!(Fixed::from_int(-3).saturating_mul(half).raw, -(ONE + ONE / 2));
    assert_eq!(Fixed { raw: 1 }.saturating_mul(half).raw, 0);
    assert_eq!(Fixed { raw: -1 }.saturating_mul(half).raw, 0);
    assert_eq!(Fixed { raw: 3 }.saturating_mul(half).raw, 1);
    assert_eq!(Fixed { raw: -3 }.saturating_mul(half).raw, -1);
}

#[test]
fn multiplication_saturates() {
    let big = Fixed::from_int(30000);
    assert_eq!(big.saturating_mul(big).raw, i32::MAX);
    assert_eq!(big.saturating_mul(Fixed::from_int(-30000)).raw, i32::MIN);
}

#[test]
fn powers() {
    let half = Fixed::from_ratio(1, 2);
    assert_eq!(half.powi(0).raw, ONE);
    assert_eq!(half.powi(1).raw, ONE / 2);
    assert_eq!(half.powi(2).raw, ONE / 4);
    assert_eq!(half.powi(3).raw, ONE / 8);
    assert_eq!(half.powi(16).raw, 1);
    assert_eq!(half.powi(17).raw, 0);
    assert_eq!(Fixed::from_int(1).powi(1000).raw, ONE);
    assert_eq!(Fixed::from_int(0).powi(0).raw, ONE);
    assert_eq!(Fixed::from_int(0).powi(5).raw, 0);
    assert_eq!(Fixed::from_int(2).powi(10).raw, 1024 * ONE);
}

#[test]
fn clamp_unit_pins_between_zero_and_one() {
    assert_eq!(Fixed::from_int(-3).clamp_unit().raw, 0);
    assert_eq!(Fixed::from_int(3).clamp_unit().raw, ONE);
    assert_eq!(Fixed::from_ratio(1, 4).clamp_unit().raw, ONE / 4);
    assert_eq!(Fixed::from_int(0).clamp_unit().raw, 0);
    assert_eq!(Fixed::from_int(1).clamp_unit().raw, ONE);
}

#[test]
fn isqrt_rounds_down() {
    assert_eq!(isqrt(0), 0);
    assert_eq!(isqrt(1), 1);
    assert_eq!(isqrt(2), 1);
    assert_eq!(isqrt(3), 1);
    assert_eq!(isqrt(4), 2);
    assert_eq!(isqrt(15), 3);
    assert_eq!(isqrt(16), 4);
    assert_eq!(isqrt(17), 4);
    assert_eq!(isqrt(1 << 64), 1 << 32);
    assert_eq!(isqrt((1 << 64) - 1), (1 << 32) - 1);
    assert_eq!(isqrt(u128::MAX), u64::MAX);
}

#[test]
fn isqrt_brackets_every_small_number() {
    for x in 0u128..5000 {
        let r = isqrt(x) as u128;
        assert!(r * r <= x && x < (r + 1) * (r + 1));
    }
}
