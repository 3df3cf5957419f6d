use pi_digits::BigInt;

fn big(v: u64) -> BigInt {
    BigInt::from_u64(v)
}

#[test]
fn from_and_to_decimal() {
    assert_eq!(big(0).to_decimal(), "0");
    assert_eq!(big(1234567890123).to_decimal(), "1234567890123");
    assert_eq!(BigInt::from_u128(u128::MAX).to_decimal(), u128::MAX.to_string());
    assert_eq!(big(42).neg().to_decimal(), "-42");
    assert_eq!(big(0).neg().to_decimal(), "0");
}

#[test]
fn products_and_sums() {
    assert_eq!(big(123456789).mul(&big(987654321)).to_decimal(), "121932631112635269");
    assert_eq!(big(7).neg().mul(&big(6)).to_decimal(), "-42");
    assert_eq!(big(7).neg().mul(&big(6).neg()).to_decimal(), "42");
    assert_eq!(big(250).add(&big(9)).to_decimal(), "259");
    assert_eq!(big(250).add(&big(300).neg()).to_decimal(), "-50");
    assert_eq!(big(300).add(&big(250).neg()).to_decimal(), "50");
    assert_eq!(big(300).neg().add(&big(250).neg()).to_decimal(), "-550");
}

#[test]
fn quotients_round_toward_zero() {
    assert_eq!(big(100).div(&big(7)).to_decimal(), "14");
    assert_eq!(big(100).neg().div(&big(7)).to_decimal(), "-14");
    assert_eq!(big(100).div(&big(7).neg()).to_decimal(), "-14");
    assert_eq!(big(3).div(&big(7)).to_decimal(), "0");
}

#[test]
fn powers() {
    assert_eq!(big(10).pow(20).to_decimal(), "100000000000000000000");
    assert_eq!(big(2).neg().pow(3).to_decimal(), "-8");
    assert_eq!(big(2).neg().pow(4).to_decimal(), "16");
    assert_eq!(big(5).pow(0).to_decimal(), "1");
}

#[test]
fn square_roots_round_down() {
    assert_eq!(big(144).isqrt().to_decimal(), "12");
    assert_eq!(big(145).isqrt().to_decimal(), "12");
    assert_eq!(big(168).isqrt().to_decimal(), "12");
    assert_eq!(big(0).isqrt().to_decimal(), "0");
    assert_eq!(big(10005).mul(&big(10).pow(20)).isqrt().to_decimal(), "1000249968757");
}

#[test]
fn sign_test() {
    assert!(big(3).neg().is_negative());
    assert!(!big(0).neg().is_negative());
    assert!(!big(3).is_negative());
    assert_eq!(big(3).copy().to_decimal(), "3");
}
