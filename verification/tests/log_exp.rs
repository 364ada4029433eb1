use neptune_lbp::bignum::Bignum;
use neptune_lbp::decimal::Decimal;
use neptune_lbp::decimal::MathError;
use neptune_lbp::decimal::WAD;

fn big(v: u128) -> Bignum {
    Bignum::from_u128(v)
}

#[test]
fn test_exp_small_value() {
    // e^1 at fixed point
    let result = Decimal::exp(big(WAD as u128)).unwrap();
    let expected = big(2718281828459045235);
    assert!(result.eq_val(&expected));
}

#[test]
fn test_exp_zero() {
    // e^0 = 1 at fixed point
    let result = Decimal::exp(big(0)).unwrap();
    let expected = big(10u128.pow(18));
    assert!(result.eq_val(&expected));
}

#[test]
fn test_exp_large_value() {
    // e^20 is large but within bounds, and definitely above one
    let result = Decimal::exp(big(20 * WAD as u128)).unwrap();
    assert!(result.gt(&big(10u128.pow(18))));
    assert!(result.eq_val(&big(485165195409790277968850557)));
}

#[test]
fn test_exp_above_max_errors() {
    let above = big(130_000_000_000_000_000_001);
    assert!(matches!(Decimal::exp(above), Err(MathError::Overflow)));
}

#[test]
fn test_exp_below_min_errors() {
    let below = big(41_000_000_000_000_000_001).neg();
    assert!(matches!(Decimal::exp(below), Err(MathError::Overflow)));
}

#[test]
fn test_exp_negative_reciprocal() {
    // e^-1 = WAD^2 / e^1 at fixed point
    let result = Decimal::exp(big(WAD as u128).neg()).unwrap();
    assert!(result.eq_val(&big(367879441171442321)));
}

#[test]
fn test_ln_one() {
    let result = Decimal::ln(big(WAD as u128)).unwrap();
    assert!(result.is_zero());
}

#[test]
fn test_ln_of_e() {
    let result = Decimal::ln(big(2718281828459045235)).unwrap();
    assert!(result.eq_val(&big(999999999999999999)));
}

#[test]
fn test_ln_two() {
    let result = Decimal::ln(big(2 * WAD as u128)).unwrap();
    assert!(result.eq_val(&big(693147180559945309)));
}

#[test]
fn test_ln_below_one_is_negative() {
    // a value of 10^-15 has a negative logarithm via the reciprocal path
    let result = Decimal::ln(big(1000)).unwrap();
    assert!(result.eq_val(&big(34538776394910685260).neg()));
}

#[test]
fn test_exp_ln_roundtrip_close() {
    // exp(ln(x)) agrees with x within a small relative tolerance
    for v in [2u128, 5, 1000, 123456] {
        let x = big(v * WAD as u128);
        let back = Decimal::exp(Decimal::ln(x).unwrap()).unwrap();
        // |back - x| * 10^9 <= x
        let x2 = big(v * WAD as u128);
        let diff = if back.ge(&x2) {
            back.minus(&x2)
        } else {
            x2.minus(&back)
        };
        let billion = big(1_000_000_000);
        assert!(diff.times(&billion).le(&big(v * WAD as u128)));
    }
}

#[test]
fn test_pow_at_unity() {
    // x^1 is exact for any x
    let x = big(7000000000000000003);
    let r = Decimal::pow_up(&x, &big(WAD as u128)).unwrap();
    assert!(r.eq_val(&x));
    let y = big(123).neg();
    let r2 = Decimal::pow_up(&y, &big(WAD as u128)).unwrap();
    assert!(r2.eq_val(&y));
}

#[test]
fn test_pow_up_square_and_fourth() {
    let three = big(3 * WAD as u128);
    let squared = Decimal::pow_up(&three, &big(2 * WAD as u128)).unwrap();
    assert!(squared.eq_val(&big(9 * WAD as u128)));
    let fourth = Decimal::pow_up(&three, &big(4 * WAD as u128)).unwrap();
    assert!(fourth.eq_val(&big(81 * WAD as u128)));
}

#[test]
fn test_pow_up_generic_margin() {
    // the generic path adds the rounded-up relative error plus one
    let four = big(4 * WAD as u128);
    let half = big(WAD as u128 / 2);
    let r = Decimal::pow_up(&four, &half).unwrap();
    assert!(r.eq_val(&big(2_000_000_000_000_000_001)));
}

#[test]
fn test_pow_values() {
    // 2^3 through the log-exp path is approximate by design; 2^1 takes
    // the exact unity path
    let two = Decimal(big(2 * WAD as u128));
    let cube = two.pow(big(3 * WAD as u128)).unwrap();
    assert!(cube.0.eq_val(&big(7999999999999999989)));
    let identity = two.pow(big(WAD as u128)).unwrap();
    assert!(identity.0.eq_val(&big(2 * WAD as u128)));
}

#[test]
fn test_pow_overflow() {
    // ln(1000) * 20 exceeds the admissible exponent range
    let base = Decimal(big(1000 * WAD as u128));
    let r = base.pow(big(20 * WAD as u128));
    assert!(matches!(r, Err(MathError::Overflow)));
}

#[test]
fn test_pow_of_zero_base() {
    let zero = Decimal::zero();
    let r = zero.pow(big(5 * WAD as u128)).unwrap();
    assert!(r.0.eq_val(&big(WAD as u128)));
}

#[test]
fn test_decimal_rounding_directions() {
    // mul_down(1,1) = 0 but mul_up(1,1) = 1: a remainder separates them
    let d = Decimal::mul_down(Decimal(big(1)), Decimal(big(1))).unwrap();
    let u = Decimal::mul_up(Decimal(big(1)), Decimal(big(1))).unwrap();
    assert!(d.0.is_zero());
    assert!(u.0.eq_val(&big(1)));
    // an exact product rounds the same both ways
    let a = Decimal(big(3 * WAD as u128));
    let b = Decimal(big(2 * WAD as u128));
    let d2 = Decimal::mul_down(a.dup(), b.dup()).unwrap();
    let u2 = Decimal::mul_up(a, b).unwrap();
    assert!(d2.0.eq_val(&big(6 * WAD as u128)));
    assert!(u2.0.eq_val(&big(6 * WAD as u128)));
    // division: 1/3 rounds apart by exactly one unit
    let dd = Decimal::div_down(Decimal(big(WAD as u128)), Decimal(big(3 * WAD as u128))).unwrap();
    let du = Decimal::div_up(Decimal(big(WAD as u128)), Decimal(big(3 * WAD as u128))).unwrap();
    assert!(dd.0.eq_val(&big(333333333333333333)));
    assert!(du.0.eq_val(&big(333333333333333334)));
}

#[test]
fn test_decimal_add_sub() {
    let a = Decimal(big(5 * WAD as u128));
    let b = Decimal(big(2 * WAD as u128));
    let sum = Decimal::add(a.dup(), b.dup()).unwrap();
    assert!(sum.0.eq_val(&big(7 * WAD as u128)));
    let diff = Decimal::sub(a, b).unwrap();
    assert!(diff.0.eq_val(&big(3 * WAD as u128)));
    let small = Decimal(big(1));
    let large = Decimal(big(2));
    assert_eq!(
        Decimal::sub(small, large).map(|d| d.0.to_u64_checked()),
        Err(MathError::Underflow)
    );
}

#[test]
fn test_decimal_divide_by_zero() {
    let a = Decimal(big(WAD as u128));
    assert_eq!(
        Decimal::div_down(a.dup(), Decimal::zero()).map(|d| d.0.to_u64_checked()),
        Err(MathError::DivideByZero)
    );
    assert_eq!(
        Decimal::div_up(a, Decimal::zero()).map(|d| d.0.to_u64_checked()),
        Err(MathError::DivideByZero)
    );
}

#[test]
fn test_decimal_constructors() {
    assert!(Decimal::one().0.eq_val(&big(WAD as u128)));
    assert!(Decimal::zero().0.is_zero());
    assert!(Decimal::wad().eq_val(&big(WAD as u128)));
    let v = big(42);
    assert!(Decimal::new(v).0.eq_val(&big(42)));
}

#[test]
fn test_bignum_comparisons_and_conversion() {
    let a = big(10);
    let b = big(11);
    assert!(a.lt(&b));
    assert!(b.gt(&a));
    assert!(a.le(&a));
    assert!(a.ge(&a));
    assert!(!a.eq_val(&b));
    assert!(a.neg().is_negative());
    assert_eq!(a.to_u64_checked(), Some(10));
    assert_eq!(a.neg().to_u64_checked(), None);
    let huge = big(u64::MAX as u128 + 1);
    assert_eq!(huge.to_u64_checked(), None);
}
