use sde_paths::fixed::{Fixed, SCALE};

#[test]
fn scale_is_one_billion() {
    assert_eq!(SCALE, 1_000_000_000);
}

#[test]
fn add_exact() {
    let a = Fixed::new(2_500_000_000); // 2.5
    let b = Fixed::new(-1_000_000_000); // -1.0
    assert_eq!(a.add(b).m, 1_500_000_000);
}

#[test]
fn add_saturates_high() {
    let a = Fixed::new(i64::MAX);
    let b = Fixed::new(1);
    assert_eq!(a.add(b).m, i64::MAX);
}

#[test]
fn add_saturates_low() {
    let a = Fixed::new(i64::MIN);
    let b = Fixed::new(-1);
    assert_eq!(a.add(b).m, i64::MIN);
}

#[test]
fn sub_exact() {
    let a = Fixed::new(1_000_000_000);
    let b = Fixed::new(250_000_000);
    assert_eq!(a.sub(b).m, 750_000_000);
}

#[test]
fn sub_saturates_low() {
    let a = Fixed::new(i64::MIN);
    let b = Fixed::new(1);
    assert_eq!(a.sub(b).m, i64::MIN);
}

#[test]
fn mul_exact() {
    let a = Fixed::new(2_500_000_000); // 2.5
    let b = Fixed::new(4_000_000_000); // 4.0
    assert_eq!(a.mul(b).m, 10_000_000_000); // 10.0
}

#[test]
fn mul_truncates_toward_zero() {
    // 3e-9 * 0.5 = 1.5e-9, which truncates to 1 mantissa unit.
    let a = Fixed::new(3);
    let b = Fixed::new(500_000_000);
    assert_eq!(a.mul(b).m, 1);
    // The negative product truncates toward zero, not downward.
    let c = Fixed::new(-3);
    assert_eq!(c.mul(b).m, -1);
}

#[test]
fn mul_saturates() {
    let two = Fixed::new(2_000_000_000);
    assert_eq!(Fixed::new(i64::MAX).mul(two).m, i64::MAX);
    assert_eq!(Fixed::new(i64::MIN).mul(two).m, i64::MIN);
}

#[test]
fn div_whole_exact() {
    let ten = Fixed::new(10_000_000_000);
    assert_eq!(ten.div_whole(4).m, 2_500_000_000); // 2.5
}

#[test]
fn div_whole_truncates_toward_zero() {
    assert_eq!(Fixed::new(-1).div_whole(2).m, 0);
    assert_eq!(Fixed::new(-2_500_000_000).div_whole(2).m, -1_250_000_000);
    assert_eq!(Fixed::new(2_000_000_000).div_whole(3).m, 666_666_666);
}

#[test]
fn sqrt_exact_squares() {
    assert_eq!(Fixed::new(4_000_000_000).sqrt().m, 2_000_000_000); // sqrt(4) = 2
    assert_eq!(Fixed::new(250_000_000).sqrt().m, 500_000_000); // sqrt(0.25) = 0.5
    assert_eq!(Fixed::new(0).sqrt().m, 0);
}

#[test]
fn sqrt_rounds_down() {
    // sqrt(2) = 1.41421356237..., so the mantissa floors to 1414213562.
    assert_eq!(Fixed::new(2_000_000_000).sqrt().m, 1_414_213_562);
}
