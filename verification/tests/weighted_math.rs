use neptune_lbp::bignum::Bignum;
use neptune_lbp::decimal::MathError;
use neptune_lbp::decimal::WAD;
use neptune_lbp::weighted_math::WeightedMath;

fn big(v: u128) -> Bignum {
    Bignum::from_u128(v)
}

fn bigs(vs: &[u128]) -> Vec<Bignum> {
    let mut out = Vec::new();
    for v in vs {
        out.push(big(*v));
    }
    out
}

#[test]
fn test_calculate_invariant_basic() {
    let normalized_weights = bigs(&[500_000_000, 500_000_000]);
    let balances = bigs(&[1000, 1000]);
    let result = WeightedMath::calculate_invariant(&normalized_weights, &balances)
        .expect("Invariant calculation failed");
    assert!(result.gt(&big(0)), "Invariant should be greater than 0");
}

#[test]
fn test_calculate_invariant_with_precision() {
    let normalized_weights = bigs(&[700_000_000, 300_000_000]);
    let balances = bigs(&[700, 300]);
    let result = WeightedMath::calculate_invariant(&normalized_weights, &balances)
        .expect("Invariant calculation failed");
    assert!(result.gt(&big(0)), "Invariant should be greater than 0");
}

#[test]
fn test_calculate_invariant_error_handling() {
    // a zero weight is admissible: the factor degenerates to one whole
    // unit, and the reduced product comes out as exactly one
    let normalized_weights = bigs(&[0]);
    let balances = bigs(&[1000]);
    let result = WeightedMath::calculate_invariant(&normalized_weights, &balances)
        .expect("Invariant calculation failed");
    assert!(result.eq_val(&big(1)));
}

#[test]
fn test_invariant_even_pool_scenario() {
    // weights 50%/50%, balances 1000 at WAD scale: the invariant is
    // 1000 * 10^18 up to the approximation's tolerance
    let normalized_weights = bigs(&[500_000_000_000_000_000, 500_000_000_000_000_000]);
    let balances = bigs(&[1000 * WAD as u128, 1000 * WAD as u128]);
    let result = WeightedMath::calculate_invariant(&normalized_weights, &balances).unwrap();
    assert!(result.eq_val(&big(999_999_999_999_999_999_557)));
    // within one billionth of 1000 WAD
    let target = big(1000 * WAD as u128);
    let diff = target.minus(&result);
    assert!(diff.times(&big(1_000_000_000)).le(&target));
}

#[test]
fn test_invariant_grows_with_balance() {
    // raising one balance strictly raises the invariant
    let weights = bigs(&[500_000_000_000_000_000, 500_000_000_000_000_000]);
    let lower = WeightedMath::calculate_invariant(
        &weights,
        &bigs(&[1000 * WAD as u128, 1000 * WAD as u128]),
    )
    .unwrap();
    let higher = WeightedMath::calculate_invariant(
        &weights,
        &bigs(&[1001 * WAD as u128, 1000 * WAD as u128]),
    )
    .unwrap();
    assert!(higher.gt(&lower));
    assert!(higher.eq_val(&big(1_000_499_875_062_460_963_776)));
}

#[test]
fn test_invariant_length_mismatch() {
    let empty: Vec<Bignum> = Vec::new();
    let one_weight = bigs(&[500_000_000_000_000_000]);
    let r = WeightedMath::calculate_invariant(&empty, &one_weight);
    assert!(matches!(r, Err(MathError::LengthMismatch)));
    let r2 = WeightedMath::calculate_invariant(&one_weight, &empty);
    assert!(matches!(r2, Err(MathError::LengthMismatch)));
}

#[test]
fn test_invariant_empty_pool() {
    // equal (empty) arrays are no mismatch: the unit product reduces to zero
    let empty: Vec<Bignum> = Vec::new();
    let empty2: Vec<Bignum> = Vec::new();
    let r = WeightedMath::calculate_invariant(&empty, &empty2).unwrap();
    assert!(r.is_zero());
}

#[test]
fn test_progress_boundaries() {
    assert_eq!(
        WeightedMath::calculate_weight_change_progress(100, 100, 200),
        Ok(0)
    );
    assert_eq!(
        WeightedMath::calculate_weight_change_progress(200, 100, 200),
        Ok(100)
    );
    assert_eq!(
        WeightedMath::calculate_weight_change_progress(50, 100, 200),
        Ok(0)
    );
    assert_eq!(
        WeightedMath::calculate_weight_change_progress(300, 100, 200),
        Ok(100)
    );
    assert_eq!(
        WeightedMath::calculate_weight_change_progress(150, 100, 200),
        Ok(50)
    );
    assert_eq!(
        WeightedMath::calculate_weight_change_progress(125, 100, 200),
        Ok(25)
    );
}

#[test]
fn test_interpolate_boundaries() {
    assert_eq!(WeightedMath::interpolate_weight(30, 70, 0), Ok(30));
    assert_eq!(WeightedMath::interpolate_weight(30, 70, 100), Ok(70));
    assert_eq!(WeightedMath::interpolate_weight(30, 70, 50), Ok(50));
    assert_eq!(WeightedMath::interpolate_weight(70, 30, 0), Ok(70));
    assert_eq!(WeightedMath::interpolate_weight(70, 30, 100), Ok(30));
    assert_eq!(WeightedMath::interpolate_weight(70, 30, 25), Ok(60));
    assert_eq!(WeightedMath::interpolate_weight(40, 40, 60), Ok(40));
}

#[test]
fn test_interpolate_monotonic_samples() {
    let mut last = 0u8;
    for p in 0..=100u64 {
        let w = WeightedMath::interpolate_weight(20, 80, p).unwrap();
        assert!(w >= last);
        last = w;
    }
    let mut last_down = 255u8;
    for p in 0..=100u64 {
        let w = WeightedMath::interpolate_weight(80, 20, p).unwrap();
        assert!(w <= last_down);
        last_down = w;
    }
}

#[test]
fn test_normalize_weight() {
    let w = WeightedMath::normalize_weight(50);
    assert!(w.eq_val(&big(500_000_000_000_000_000)));
    let z = WeightedMath::normalize_weight(0);
    assert!(z.is_zero());
    let full = WeightedMath::normalize_weight(100);
    assert!(full.eq_val(&big(WAD as u128)));
}

#[test]
fn test_get_scaling_factor() {
    assert_eq!(WeightedMath::get_scaling_factor(18), 1);
    assert_eq!(WeightedMath::get_scaling_factor(6), 1_000_000_000_000);
    assert_eq!(WeightedMath::get_scaling_factor(0), WAD as u128);
}

#[test]
fn test_scale_and_downscale_roundtrip() {
    let scaled = WeightedMath::scale_value(123, 1_000_000_000_000);
    assert!(scaled.eq_val(&big(123_000_000_000_000)));
    assert_eq!(
        WeightedMath::downscale_value(&scaled, 1_000_000_000_000),
        Ok(123)
    );
    // downscaling truncates toward zero
    let nearly = big(123_999_999_999_999);
    assert_eq!(
        WeightedMath::downscale_value(&nearly, 1_000_000_000_000),
        Ok(123)
    );
}

#[test]
fn test_downscale_errors() {
    let v = big(5);
    assert_eq!(
        WeightedMath::downscale_value(&v, 0),
        Err(MathError::DivideByZero)
    );
    let negative = big(5 * WAD as u128).neg();
    assert_eq!(
        WeightedMath::downscale_value(&negative, 1),
        Err(MathError::Overflow)
    );
    let huge = big(u64::MAX as u128 + 1);
    assert_eq!(WeightedMath::downscale_value(&huge, 1), Err(MathError::Overflow));
}

#[test]
fn test_calc_due_fee_amount() {
    assert_eq!(WeightedMath::calc_due_fee_amount(1000, 5), 50);
    assert_eq!(WeightedMath::calc_due_fee_amount(999, 5), 49);
    assert_eq!(WeightedMath::calc_due_fee_amount(0, 50), 0);
    assert_eq!(WeightedMath::calc_due_fee_amount(12345, 0), 0);
}

#[test]
fn test_calc_out_given_in_even_pool() {
    let out = WeightedMath::calc_out_given_in(
        &big(1000 * WAD as u128),
        &big(500_000_000_000_000_000),
        &big(1000 * WAD as u128),
        &big(500_000_000_000_000_000),
        &big(10 * WAD as u128),
    )
    .unwrap();
    assert!(out.eq_val(&big(9_900_990_099_009_900_000)));
}

#[test]
fn test_calc_in_given_out_even_pool() {
    let amount_in = WeightedMath::calc_in_given_out(
        &big(1000 * WAD as u128),
        &big(500_000_000_000_000_000),
        &big(1000 * WAD as u128),
        &big(500_000_000_000_000_000),
        &big(10 * WAD as u128),
    )
    .unwrap();
    assert!(amount_in.eq_val(&big(10_101_010_101_010_102_000)));
}

#[test]
fn test_calc_in_given_out_underflow() {
    let r = WeightedMath::calc_in_given_out(
        &big(1000 * WAD as u128),
        &big(500_000_000_000_000_000),
        &big(1000 * WAD as u128),
        &big(500_000_000_000_000_000),
        &big(1000 * WAD as u128),
    );
    assert!(matches!(r, Err(MathError::Underflow)));
}

#[test]
fn test_swap_round_trip_bound() {
    // buying back the quoted amount costs at least the amount put in
    let bi = big(1000 * WAD as u128);
    let bo = big(1000 * WAD as u128);
    let wi = big(200_000_000_000_000_000);
    let wo = big(800_000_000_000_000_000);
    let amount_in = big(10 * WAD as u128);
    let out = WeightedMath::calc_out_given_in(&bi, &wi, &bo, &wo, &amount_in).unwrap();
    assert!(out.eq_val(&big(2_484_491_243_374_634_000)));
    let back = WeightedMath::calc_in_given_out(&bi, &wi, &bo, &wo, &out).unwrap();
    assert!(back.ge(&amount_in));
}

#[test]
fn test_compute_proportional_amounts_out() {
    let balances = bigs(&[1000 * WAD as u128, 400 * WAD as u128]);
    let amounts =
        WeightedMath::compute_proportional_amounts_out(&balances, &big(400 * WAD as u128), &big(100 * WAD as u128))
            .unwrap();
    assert_eq!(amounts.len(), 2);
    assert!(amounts[0].eq_val(&big(250 * WAD as u128)));
    assert!(amounts[1].eq_val(&big(100 * WAD as u128)));
}

#[test]
fn test_compute_proportional_zero_supply() {
    let balances = bigs(&[1000 * WAD as u128]);
    let r = WeightedMath::compute_proportional_amounts_out(&balances, &big(0), &big(10));
    assert!(matches!(r, Err(MathError::DivideByZero)));
}

#[test]
fn test_calc_bpt_out_even_join() {
    // a proportional ten-percent join of a 50/50 pool mints close to ten
    // percent of the supply, slightly less through the rounding and the
    // power approximation
    let balances = bigs(&[1000 * WAD as u128, 1000 * WAD as u128]);
    let weights = bigs(&[500_000_000_000_000_000, 500_000_000_000_000_000]);
    let amounts = bigs(&[100 * WAD as u128, 100 * WAD as u128]);
    let r = WeightedMath::calc_bpt_out_given_exact_tokens_in(
        &balances,
        &weights,
        &amounts,
        &big(500 * WAD as u128),
        &big(10_000_000_000_000_000),
    );
    assert_eq!(r, Ok(49));
}

#[test]
fn test_calc_bpt_out_taxed_branch() {
    // a one-sided deposit doubles the first balance: its growth ratio of
    // two exceeds the weighted aggregate of one and a half, so the excess
    // part of the deposit is charged the swap fee
    let balances = bigs(&[100 * WAD as u128, 100 * WAD as u128]);
    let weights = bigs(&[500_000_000_000_000_000, 500_000_000_000_000_000]);
    let amounts = bigs(&[100 * WAD as u128, 0]);
    let r = WeightedMath::calc_bpt_out_given_exact_tokens_in(
        &balances,
        &weights,
        &amounts,
        &big(1000 * WAD as u128),
        &big(10_000_000_000_000_000),
    );
    assert_eq!(r, Ok(412));
}

#[test]
fn test_calc_bpt_out_no_growth() {
    // zero deposits leave the invariant ratio at exactly one: no shares
    let balances = bigs(&[1000 * WAD as u128, 1000 * WAD as u128]);
    let weights = bigs(&[500_000_000_000_000_000, 500_000_000_000_000_000]);
    let amounts = bigs(&[0, 0]);
    let r = WeightedMath::calc_bpt_out_given_exact_tokens_in(
        &balances,
        &weights,
        &amounts,
        &big(500 * WAD as u128),
        &big(10_000_000_000_000_000),
    );
    assert_eq!(r, Ok(0));
}

#[test]
fn test_calc_bpt_out_length_mismatch() {
    let balances = bigs(&[1000 * WAD as u128]);
    let weights = bigs(&[500_000_000_000_000_000]);
    let amounts = bigs(&[100 * WAD as u128, 100 * WAD as u128]);
    let r = WeightedMath::calc_bpt_out_given_exact_tokens_in(
        &balances,
        &weights,
        &amounts,
        &big(500),
        &big(0),
    );
    assert_eq!(r, Err(MathError::LengthMismatch));
}

#[test]
fn test_calc_bpt_out_unrepresentable_share() {
    // a negative supply drives the computed share below zero, which has
    // no native representation
    let balances = bigs(&[1000 * WAD as u128, 1000 * WAD as u128]);
    let weights = bigs(&[500_000_000_000_000_000, 500_000_000_000_000_000]);
    let amounts = bigs(&[100 * WAD as u128, 100 * WAD as u128]);
    let r = WeightedMath::calc_bpt_out_given_exact_tokens_in(
        &balances,
        &weights,
        &amounts,
        &big(500 * WAD as u128).neg(),
        &big(10_000_000_000_000_000),
    );
    assert_eq!(r, Err(MathError::Overflow));
}
