//! The weighted-pool formulas: scaling, invariant, weight interpolation,
//! swap quotes, join and exit quotes, and the flat protocol fee.
//!
//! Every function is a pure function over WAD-scaled big integers or
//! native integers; the caller owns all pool state.

use crate::bignum::Bignum;
use crate::bignum::lemma_tdiv_mono;
use crate::bignum::lemma_tdiv_multiple;
use crate::bignum::tdiv;
use crate::decimal::Decimal;
use crate::decimal::MathError;
use crate::decimal::WAD;
use crate::decimal::div_down_val;
use crate::decimal::div_up_val;
use crate::decimal::mul_down_val;
use crate::log_exp::pow_ok;
use crate::log_exp::pow_val;
use crate::log_exp::pow_up_ok;
use crate::log_exp::pow_up_val;
use vstd::arithmetic::div_mod::lemma_div_is_ordered;
use vstd::arithmetic::div_mod::lemma_div_multiples_vanish;
use vstd::arithmetic::div_mod::lemma_div_pos_is_pos;
use vstd::prelude::*;

verus! {

/// The views of a sequence of big integers.
pub open spec fn values_of(s: Seq<Bignum>) -> Seq<int> {
    s.map_values(|b: Bignum| b@)
}

/// The power of ten with the given exponent.
pub open spec fn pow10(n: nat) -> int
    decreases n,
{
    if n == 0 {
        1
    } else {
        10 * pow10((n - 1) as nat)
    }
}

proof fn lemma_pow10_pos(n: nat)
    ensures
        pow10(n) >= 1,
    decreases n,
{
    if n > 0 {
        lemma_pow10_pos((n - 1) as nat);
    }
}

proof fn lemma_pow10_mono(a: nat, b: nat)
    requires
        a <= b,
    ensures
        pow10(a) <= pow10(b),
    decreases b,
{
    if a < b {
        lemma_pow10_mono(a, (b - 1) as nat);
        lemma_pow10_pos((b - 1) as nat);
    }
}

/// The fraction of the weight-change window that has elapsed, as an
/// integer percentage: zero before the start, one hundred at or after the
/// end, and the floored proportion in between.
pub open spec fn progress_val(now: int, start: int, end: int) -> int {
    if now >= end {
        100
    } else if now < start {
        0
    } else {
        (now - start) * 100 / (end - start)
    }
}

/// The linearly interpolated weight at an integer percentage of progress.
pub open spec fn interpolate_val(s: int, e: int, p: int) -> int {
    if s > e {
        (s * 100 - p * (s - e)) / 100
    } else {
        (s * 100 + p * (e - s)) / 100
    }
}

// Stateless implementation
pub struct WeightedMath;

impl WeightedMath {
    // Return range between [0-1] scaled version of percentage
    pub fn normalize_weight(percentage: u8) -> (r: Bignum)
        ensures
            r@ == percentage as int * 10_000_000_000_000_000,
    {
        Bignum::from_u128(percentage as u128 * 10_000_000_000_000_000)
    }

    // Function to calculate the scaling factor based on the token's decimals.
    pub fn get_scaling_factor(decimals: u8) -> (r: u128)
        requires
            decimals <= 18,
        ensures
            r as int == pow10((18 - decimals) as nat),
    {
        let e: u8 = 18 - decimals;
        let mut result: u128 = 1;
        let mut i: u8 = 0;
        while i < e
            invariant
                i <= e <= 18,
                result as int == pow10(i as nat),
            decreases e - i,
        {
            proof {
                lemma_pow10_mono((i + 1) as nat, 18nat);
                reveal_with_fuel(pow10, 19);
            }
            result = result * 10;
            i = i + 1;
        }
        result
    }

    // Return (10^18) scaled version of the value
    pub fn scale_value(value: u64, scaling_factor: u128) -> (r: Bignum)
        requires
            value as int * scaling_factor as int <= u128::MAX as int,
        ensures
            r@ == value as int * scaling_factor as int,
    {
        let value_as_u128 = value as u128;
        let scaled_value = value_as_u128 * scaling_factor;
        Bignum::from_u128(scaled_value)
    }

    // Lower a scaled value back to the token's native magnitude.
    pub fn downscale_value(scaled_value: &Bignum, scaling_factor: u128) -> (r: Result<
        u64,
        MathError,
    >)
        ensures
            match r {
                Ok(v) => scaling_factor != 0 && 0 <= tdiv(scaled_value@, scaling_factor as int)
                    <= u64::MAX && v as int == tdiv(scaled_value@, scaling_factor as int),
                Err(e) => (scaling_factor == 0 && e == MathError::DivideByZero) || (scaling_factor
                    != 0 && !(0 <= tdiv(scaled_value@, scaling_factor as int) <= u64::MAX) && e
                    == MathError::Overflow),
            },
    {
        if scaling_factor == 0 {
            return Err(MathError::DivideByZero);
        }
        let divisor = Bignum::from_u128(scaling_factor);
        let native_value = scaled_value.div_trunc(&divisor);
        match native_value.to_u64_checked() {
            Some(v) => Ok(v),
            None => Err(MathError::Overflow),
        }
    }

    pub fn calculate_weight_change_progress(
        current_time: i64,
        start_time: i64,
        end_time: i64,
    ) -> (r: Result<u64, MathError>)
        ensures
            r matches Ok(p) && p as int == progress_val(
                current_time as int,
                start_time as int,
                end_time as int,
            ),
    {
        if current_time >= end_time {
            return Ok(100u64);
        } else if current_time < start_time {
            return Ok(0u64);
        }
        // the window can span the whole i64 range, so widen before scaling
        let total_seconds: i128 = end_time as i128 - start_time as i128;
        let second_elapsed: i128 = current_time as i128 - start_time as i128;
        proof {
            assert(second_elapsed * 100 <= total_seconds * 100) by (nonlinear_arith)
                requires
                    second_elapsed <= total_seconds,
            ;
            assert(second_elapsed * 100 >= 0) by (nonlinear_arith)
                requires
                    second_elapsed >= 0,
            ;
            lemma_div_pos_is_pos(second_elapsed * 100, total_seconds as int);
            vstd::arithmetic::div_mod::lemma_multiply_divide_lt(
                second_elapsed * 100,
                total_seconds as int,
                100,
            );
        }
        let delta = second_elapsed * 100 / total_seconds;
        Ok(delta as u64)
    }

    // returns the current applicable weight
    pub fn interpolate_weight(start_weight: u8, end_weight: u8, percent_progress: u64) -> (r:
        Result<u8, MathError>)
        requires
            percent_progress <= 100,
        ensures
            r matches Ok(w) && w as int == interpolate_val(
                start_weight as int,
                end_weight as int,
                percent_progress as int,
            ),
            r matches Ok(w) && (percent_progress == 0 ==> w == start_weight),
            r matches Ok(w) && (percent_progress == 100 ==> w == end_weight),
    {
        let s: u64 = start_weight as u64;
        let e: u64 = end_weight as u64;
        let p: u64 = percent_progress;
        let interpolation: u64 = if s > e {
            proof {
                assert(p * (s - e) <= 100 * (s - e)) by (nonlinear_arith)
                    requires
                        p <= 100,
                        s - e >= 0,
                ;
            }
            let weight_delta = p * (s - e);
            (s * 100 - weight_delta) / 100
        } else {
            proof {
                assert(p * (e - s) <= 100 * (e - s)) by (nonlinear_arith)
                    requires
                        p <= 100,
                        e - s >= 0,
                ;
            }
            let weight_delta = p * (e - s);
            (s * 100 + weight_delta) / 100
        };
        proof {
            let si = start_weight as int;
            let ei = end_weight as int;
            let pi = percent_progress as int;
            if si > ei {
                lemma_div_is_ordered(si * 100 - pi * (si - ei), si * 100, 100);
                lemma_div_multiples_vanish(si, 100);
                if pi == 0 {
                    assert(interpolate_val(si, ei, 0) == si);
                }
                if pi == 100 {
                    lemma_div_multiples_vanish(ei, 100);
                    assert(si * 100 - 100 * (si - ei) == 100 * ei);
                }
            } else {
                lemma_div_is_ordered(si * 100 + pi * (ei - si), si * 100 + 100 * (ei - si), 100);
                lemma_div_multiples_vanish(ei, 100);
                lemma_div_multiples_vanish(si, 100);
                assert(si * 100 + 100 * (ei - si) == 100 * ei);
                lemma_div_pos_is_pos(si * 100 + pi * (ei - si), 100);
            }
        }
        Ok(interpolation as u8)
    }

    // Calculates a flat protocol fee on a native amount, truncated.
    pub fn calc_due_fee_amount(amount: u64, fee_percentage: u8) -> (r: u64)
        requires
            amount as int * fee_percentage as int <= u64::MAX as int,
        ensures
            r as int == amount as int * fee_percentage as int / 100,
    {
        amount * fee_percentage as u64 / 100u64
    }

    // used to exit the pool inputing the right amount of BP tokens
    pub fn compute_proportional_amounts_out(
        balances: &Vec<Bignum>,
        bpt_total_supply: &Bignum,
        bpt_amount_in: &Bignum,
    ) -> (r: Result<Vec<Bignum>, MathError>)
        ensures
            match r {
                Ok(v) => bpt_total_supply@ != 0 && v@.len() == balances@.len() && forall|i: int|
                    0 <= i < balances@.len() ==> #[trigger] v@[i]@ == mul_down_val(
                        balances@[i]@,
                        div_down_val(bpt_amount_in@, bpt_total_supply@),
                    ),
                Err(e) => bpt_total_supply@ == 0 && e == MathError::DivideByZero,
            },
    {
        // Calculate the ratio of BPT amount in to the total supply, rounding down
        let bpt_ratio = match Decimal::div_down(
            Decimal(bpt_amount_in.dup()),
            Decimal(bpt_total_supply.dup()),
        ) {
            Ok(v) => v,
            Err(e) => {
                return Err(e);
            },
        };
        let mut amounts_out: Vec<Bignum> = Vec::new();
        let mut idx: usize = 0;
        while idx < balances.len()
            invariant
                idx <= balances@.len(),
                amounts_out@.len() == idx,
                bpt_ratio@ == div_down_val(bpt_amount_in@, bpt_total_supply@),
                forall|i: int|
                    0 <= i < idx ==> #[trigger] amounts_out@[i]@ == mul_down_val(
                        balances@[i]@,
                        div_down_val(bpt_amount_in@, bpt_total_supply@),
                    ),
            decreases balances@.len() - idx,
        {
            let amount_out = match Decimal::mul_down(
                Decimal(balances[idx].dup()),
                bpt_ratio.dup(),
            ) {
                Ok(v) => v,
                Err(e) => {
                    return Err(e);
                },
            };
            amounts_out.push(amount_out.0);
            idx = idx + 1;
        }
        Ok(amounts_out)
    }
}

/// Whether every factor of the invariant product is admissible up to the
/// `k`-th asset.
pub open spec fn invariant_prefix_ok(ws: Seq<int>, bs: Seq<int>, k: int) -> bool
    decreases k,
{
    if k <= 0 {
        true
    } else {
        invariant_prefix_ok(ws, bs, k - 1) && pow_ok(bs[k - 1], ws[k - 1])
    }
}

/// The running product `prod balance_i ^ weight_i` over the first `k`
/// assets, before the final WAD reduction.
pub open spec fn invariant_prefix_val(ws: Seq<int>, bs: Seq<int>, k: int) -> int
    decreases k,
{
    if k <= 0 {
        1
    } else {
        invariant_prefix_val(ws, bs, k - 1) * pow_val(bs[k - 1], ws[k - 1])
    }
}

/// The WAD-scaled invariant of the pool.
pub open spec fn invariant_val(ws: Seq<int>, bs: Seq<int>) -> int {
    tdiv(invariant_prefix_val(ws, bs, ws.len() as int), WAD as int)
}

proof fn lemma_invariant_prefix_fails(ws: Seq<int>, bs: Seq<int>, i: int, n: int)
    requires
        0 <= i < n,
        !pow_ok(bs[i], ws[i]),
    ensures
        !invariant_prefix_ok(ws, bs, n),
    decreases n,
{
    if i < n - 1 {
        lemma_invariant_prefix_fails(ws, bs, i, n - 1);
    }
}

impl WeightedMath {
    pub fn calculate_invariant(normalized_weights: &Vec<Bignum>, balances: &Vec<Bignum>) -> (r:
        Result<Bignum, MathError>)
        requires
            forall|i: int| 0 <= i < balances@.len() ==> #[trigger] balances@[i]@ >= 0,
        ensures
            match r {
                Ok(v) => normalized_weights@.len() == balances@.len() && invariant_prefix_ok(
                    values_of(normalized_weights@),
                    values_of(balances@),
                    balances@.len() as int,
                ) && v@ == invariant_val(values_of(normalized_weights@), values_of(balances@))
                    && v@ >= 0,
                Err(e) => (normalized_weights@.len() != balances@.len() && e
                    == MathError::LengthMismatch) || (normalized_weights@.len() == balances@.len()
                    && !invariant_prefix_ok(
                    values_of(normalized_weights@),
                    values_of(balances@),
                    balances@.len() as int,
                ) && e == MathError::Overflow),
            },
    {
        if normalized_weights.len() != balances.len() {
            return Err(MathError::LengthMismatch);
        }
        let ghost ws = values_of(normalized_weights@);
        let ghost bs = values_of(balances@);
        let mut invariant_acc = Bignum::from_u64(1);
        let mut i: usize = 0;
        while i < normalized_weights.len()
            invariant
                i <= balances@.len(),
                normalized_weights@.len() == balances@.len(),
                ws == values_of(normalized_weights@),
                bs == values_of(balances@),
                forall|j: int| 0 <= j < balances@.len() ==> #[trigger] balances@[j]@ >= 0,
                invariant_prefix_ok(ws, bs, i as int),
                invariant_acc@ == invariant_prefix_val(ws, bs, i as int),
                invariant_acc@ >= 0,
            decreases balances@.len() - i,
        {
            let power_balance = match Decimal::new(balances[i].dup()).pow(
                normalized_weights[i].dup(),
            ) {
                Ok(v) => v,
                Err(e) => {
                    proof {
                        lemma_invariant_prefix_fails(ws, bs, i as int, bs.len() as int);
                    }
                    return Err(e);
                },
            };
            proof {
                assert(invariant_acc@ * power_balance@ >= 0) by (nonlinear_arith)
                    requires
                        invariant_acc@ >= 0,
                        power_balance@ >= 0,
                ;
            }
            invariant_acc = invariant_acc.times(&power_balance.0);
            i = i + 1;
        }
        // now the calculation is over we reduce by the one extra WAD factor
        let one = Bignum::from_u64(WAD);
        Ok(invariant_acc.div_trunc(&one))
    }
}

/// The base ratio of `calc_out_given_in`, rounded in the pool's favor.
pub open spec fn out_given_in_base(bi: int, ai: int) -> int {
    div_up_val(bi, bi + ai)
}

/// The exponent ratio of `calc_out_given_in`, rounded down.
pub open spec fn out_given_in_exponent(wi: int, wo: int) -> int {
    div_down_val(wi, wo)
}

/// The WAD-scaled amount out of `calc_out_given_in`:
/// `balanceOut (1 - (balanceIn/(balanceIn+amountIn))^(weightIn/weightOut))`.
pub open spec fn out_given_in_val(bi: int, wi: int, bo: int, wo: int, ai: int) -> int {
    tdiv(bo * (WAD - pow_val(out_given_in_base(bi, ai), out_given_in_exponent(wi, wo))), WAD as int)
}

/// The base ratio of `calc_in_given_out`, rounded in the pool's favor.
pub open spec fn in_given_out_base(bo: int, ao: int) -> int {
    div_up_val(bo, bo - ao)
}

/// The exponent ratio of `calc_in_given_out`, rounded up.
pub open spec fn in_given_out_exponent(wo: int, wi: int) -> int {
    div_up_val(wo, wi)
}

/// The WAD-scaled amount in of `calc_in_given_out`:
/// `balanceIn ((balanceOut/(balanceOut-amountOut))^(weightOut/weightIn) - 1)`.
pub open spec fn in_given_out_val(bi: int, wi: int, bo: int, wo: int, ao: int) -> int {
    tdiv(bi * (pow_up_val(in_given_out_base(bo, ao), in_given_out_exponent(wo, wi)) - WAD),
        WAD as int)
}

/// A rounded-up quotient of non-negative numerator and positive
/// denominator is non-negative.
proof fn lemma_div_up_nonneg(a: int, b: int)
    requires
        a >= 0,
        b > 0,
    ensures
        div_up_val(a, b) >= 0,
{
    assert(a * WAD >= 0) by (nonlinear_arith)
        requires
            a >= 0,
    ;
    if a * WAD != 0 {
        lemma_div_pos_is_pos(a * WAD + b - 1, b);
    }
}

impl WeightedMath {
    pub fn calc_out_given_in(
        balance_in: &Bignum,
        weight_in: &Bignum,
        balance_out: &Bignum,
        weight_out: &Bignum,
        amount_in: &Bignum,
    ) -> (r: Result<Bignum, MathError>)
        requires
            balance_in@ >= 0,
            amount_in@ >= 0,
        ensures
            match r {
                Ok(v) => balance_in@ + amount_in@ != 0 && weight_out@ != 0 && pow_ok(
                    out_given_in_base(balance_in@, amount_in@),
                    out_given_in_exponent(weight_in@, weight_out@),
                ) && v@ == out_given_in_val(
                    balance_in@,
                    weight_in@,
                    balance_out@,
                    weight_out@,
                    amount_in@,
                ),
                Err(e) => (balance_in@ + amount_in@ == 0 && e == MathError::DivideByZero) || (
                balance_in@ + amount_in@ != 0 && weight_out@ == 0 && e == MathError::DivideByZero)
                    || (balance_in@ + amount_in@ != 0 && weight_out@ != 0 && !pow_ok(
                    out_given_in_base(balance_in@, amount_in@),
                    out_given_in_exponent(weight_in@, weight_out@),
                ) && e == MathError::Overflow),
            },
    {
        let denominator = Decimal(balance_in.plus(amount_in));
        let base = match Decimal::div_up(Decimal(balance_in.dup()), denominator) {
            Ok(v) => v,
            Err(e) => {
                return Err(e);
            },
        };
        let exponent = match Decimal::div_down(
            Decimal(weight_in.dup()),
            Decimal(weight_out.dup()),
        ) {
            Ok(v) => v,
            Err(e) => {
                return Err(e);
            },
        };
        proof {
            lemma_div_up_nonneg(balance_in@, balance_in@ + amount_in@);
        }
        let power = match base.pow(exponent.0) {
            Ok(v) => v,
            Err(e) => {
                return Err(e);
            },
        };
        let one = Bignum::from_u64(WAD);
        let complement = one.minus(&power.0);
        let amount_out = balance_out.times(&complement).div_trunc(&one);
        Ok(amount_out)
    }

    pub fn calc_in_given_out(
        balance_in: &Bignum,
        weight_in: &Bignum,
        balance_out: &Bignum,
        weight_out: &Bignum,
        amount_out: &Bignum,
    ) -> (r: Result<Bignum, MathError>)
        requires
            balance_out@ >= 0,
        ensures
            match r {
                Ok(v) => amount_out@ < balance_out@ && weight_in@ != 0 && pow_up_ok(
                    in_given_out_base(balance_out@, amount_out@),
                    in_given_out_exponent(weight_out@, weight_in@),
                ) && v@ == in_given_out_val(
                    balance_in@,
                    weight_in@,
                    balance_out@,
                    weight_out@,
                    amount_out@,
                ),
                Err(e) => (amount_out@ >= balance_out@ && e == MathError::Underflow) || (amount_out@
                    < balance_out@ && weight_in@ == 0 && e == MathError::DivideByZero) || (
                amount_out@ < balance_out@ && weight_in@ != 0 && !pow_up_ok(
                    in_given_out_base(balance_out@, amount_out@),
                    in_given_out_exponent(weight_out@, weight_in@),
                ) && e == MathError::Overflow),
            },
    {
        if amount_out.ge(balance_out) {
            return Err(MathError::Underflow);
        }
        let reduced = Decimal::new(balance_out.minus(amount_out));
        let base = match Decimal::div_up(Decimal::new(balance_out.dup()), reduced) {
            Ok(v) => v,
            Err(e) => {
                return Err(e);
            },
        };
        let exponent = match Decimal::div_up(
            Decimal::new(weight_out.dup()),
            Decimal::new(weight_in.dup()),
        ) {
            Ok(v) => v,
            Err(e) => {
                return Err(e);
            },
        };
        proof {
            lemma_div_up_nonneg(balance_out@, balance_out@ - amount_out@);
        }
        let power = match Decimal::pow_up(&base.0, &exponent.0) {
            Ok(v) => v,
            Err(e) => {
                return Err(e);
            },
        };
        let one = Bignum::from_u64(WAD);
        let ratio = power.minus(&one);
        let amount_in = balance_in.times(&ratio).div_trunc(&one);
        Ok(amount_in)
    }
}

/// The WAD-scaled growth ratio `(balance + amountIn) / balance` of one
/// asset, rounded down.
pub open spec fn bpt_ratio_val(b: int, a: int) -> int {
    div_down_val(b + a, b)
}

/// The weighted sum of the growth ratios over the first `k` assets,
/// WAD-scaled.
pub open spec fn bpt_irwf(bs: Seq<int>, ws: Seq<int>, amts: Seq<int>, k: int) -> int
    decreases k,
{
    if k <= 0 {
        0
    } else {
        bpt_irwf(bs, ws, amts, k - 1) + mul_down_val(
            bpt_ratio_val(bs[k - 1], amts[k - 1]),
            ws[k - 1],
        )
    }
}

/// The deposit of one asset after the swap fee: a deposit whose growth
/// ratio exceeds the weighted aggregate is split into a non-taxable
/// portion and a taxable remainder charged the fee.
pub open spec fn bpt_amount_in_wf(b: int, a: int, irwf: int, fee: int) -> int {
    if bpt_ratio_val(b, a) > irwf {
        let non_taxable = mul_down_val(b, irwf - WAD);
        non_taxable + mul_down_val(a - non_taxable, WAD - fee)
    } else {
        a
    }
}

/// The WAD-scaled growth ratio of one asset after the fee, the base
/// handed to `pow`.
pub open spec fn bpt_base_val(b: int, a: int, irwf: int, fee: int) -> int {
    div_down_val(b + bpt_amount_in_wf(b, a, irwf, fee), b)
}

/// Whether every power of the joined invariant ratio is admissible up to
/// the `k`-th asset.
pub open spec fn bpt_prefix_ok(
    bs: Seq<int>,
    ws: Seq<int>,
    amts: Seq<int>,
    irwf: int,
    fee: int,
    k: int,
) -> bool
    decreases k,
{
    if k <= 0 {
        true
    } else {
        bpt_prefix_ok(bs, ws, amts, irwf, fee, k - 1) && pow_ok(
            bpt_base_val(bs[k - 1], amts[k - 1], irwf, fee),
            ws[k - 1],
        )
    }
}

/// The WAD-scaled product of the powered growth ratios over the first
/// `k` assets, seeded with one WAD and reduced at every step.
pub open spec fn bpt_invariant_ratio(
    bs: Seq<int>,
    ws: Seq<int>,
    amts: Seq<int>,
    irwf: int,
    fee: int,
    k: int,
) -> int
    decreases k,
{
    if k <= 0 {
        WAD as int
    } else {
        mul_down_val(
            bpt_invariant_ratio(bs, ws, amts, irwf, fee, k - 1),
            pow_val(bpt_base_val(bs[k - 1], amts[k - 1], irwf, fee), ws[k - 1]),
        )
    }
}

/// Whether the whole join computation is admissible.
pub open spec fn bpt_out_ok(bs: Seq<int>, ws: Seq<int>, amts: Seq<int>, fee: int) -> bool {
    bpt_prefix_ok(bs, ws, amts, bpt_irwf(bs, ws, amts, bs.len() as int), fee, bs.len() as int)
}

/// The pool shares owed for the exact deposits: the WAD-scaled supply
/// times the invariant-ratio excess over one, reduced twice by the WAD
/// factor down to a native amount; zero when the ratio did not grow.
pub open spec fn bpt_out_val(
    bs: Seq<int>,
    ws: Seq<int>,
    amts: Seq<int>,
    total: int,
    fee: int,
) -> int {
    let irwf = bpt_irwf(bs, ws, amts, bs.len() as int);
    let ir = bpt_invariant_ratio(bs, ws, amts, irwf, fee, bs.len() as int);
    if ir > WAD as int {
        tdiv(tdiv(total * (ir - WAD), WAD as int), WAD as int)
    } else {
        0
    }
}

/// On a positive balance, a non-negative deposit, a non-negative
/// aggregate ratio and a fee of at most one, the base handed to `pow` is
/// non-negative: even a fully taxed split never drains more than the
/// balance itself.
proof fn lemma_bpt_base_nonneg(b: int, a: int, irwf: int, fee: int)
    requires
        b >= 1,
        a >= 0,
        irwf >= 0,
        0 <= fee <= WAD as int,
    ensures
        bpt_base_val(b, a, irwf, fee) >= 0,
{
    let w = WAD as int;
    let awf = bpt_amount_in_wf(b, a, irwf, fee);
    if bpt_ratio_val(b, a) > irwf {
        let nt = mul_down_val(b, irwf - w);
        let taxable = a - nt;
        // the non-taxable portion cannot fall below the negated balance
        assert(b * (irwf - w) >= (-b) * w) by (nonlinear_arith)
            requires
                b >= 1,
                irwf >= 0,
                w > 0,
        ;
        lemma_tdiv_mono((-b) * w, b * (irwf - w), w);
        lemma_tdiv_multiple(-b, w);
        if taxable >= 0 {
            assert(taxable * (w - fee) >= 0) by (nonlinear_arith)
                requires
                    taxable >= 0,
                    fee <= w,
            ;
            lemma_tdiv_mono(0, taxable * (w - fee), w);
            lemma_tdiv_multiple(0, w);
        } else {
            // scaling a negative remainder by a factor of at most one
            // can only bring it closer to zero
            assert(taxable * (w - fee) >= taxable * w) by (nonlinear_arith)
                requires
                    taxable < 0,
                    0 <= fee <= w,
            ;
            lemma_tdiv_mono(taxable * w, taxable * (w - fee), w);
            lemma_tdiv_multiple(taxable, w);
        }
    }
    assert(b + awf >= 0);
    assert((b + awf) * w >= 0) by (nonlinear_arith)
        requires
            b + awf >= 0,
            w > 0,
    ;
    lemma_tdiv_mono(0, (b + awf) * w, b);
    lemma_tdiv_multiple(0, b);
}

proof fn lemma_bpt_prefix_fails(
    bs: Seq<int>,
    ws: Seq<int>,
    amts: Seq<int>,
    irwf: int,
    fee: int,
    i: int,
    n: int,
)
    requires
        0 <= i < n,
        !pow_ok(bpt_base_val(bs[i], amts[i], irwf, fee), ws[i]),
    ensures
        !bpt_prefix_ok(bs, ws, amts, irwf, fee, n),
    decreases n,
{
    if i < n - 1 {
        lemma_bpt_prefix_fails(bs, ws, amts, irwf, fee, i, n - 1);
    }
}

impl WeightedMath {
    pub fn calc_bpt_out_given_exact_tokens_in(
        balances: &Vec<Bignum>,
        normalized_weights: &Vec<Bignum>,
        amounts_in: &Vec<Bignum>,
        bpt_total_supply: &Bignum,
        swap_fee_percentage: &Bignum,
    ) -> (r: Result<u64, MathError>)
        requires
            forall|i: int| 0 <= i < balances@.len() ==> #[trigger] balances@[i]@ >= 1,
            forall|i: int| 0 <= i < amounts_in@.len() ==> #[trigger] amounts_in@[i]@ >= 0,
            forall|i: int|
                0 <= i < normalized_weights@.len() ==> #[trigger] normalized_weights@[i]@ >= 0,
            0 <= swap_fee_percentage@ <= WAD as int,
        ensures
            match r {
                Ok(v) => balances@.len() == normalized_weights@.len() && balances@.len()
                    == amounts_in@.len() && bpt_out_ok(
                    values_of(balances@),
                    values_of(normalized_weights@),
                    values_of(amounts_in@),
                    swap_fee_percentage@,
                ) && 0 <= bpt_out_val(
                    values_of(balances@),
                    values_of(normalized_weights@),
                    values_of(amounts_in@),
                    bpt_total_supply@,
                    swap_fee_percentage@,
                ) <= u64::MAX && v as int == bpt_out_val(
                    values_of(balances@),
                    values_of(normalized_weights@),
                    values_of(amounts_in@),
                    bpt_total_supply@,
                    swap_fee_percentage@,
                ),
                Err(e) => ((balances@.len() != normalized_weights@.len() || balances@.len()
                    != amounts_in@.len()) && e == MathError::LengthMismatch) || (balances@.len()
                    == normalized_weights@.len() && balances@.len() == amounts_in@.len() && (
                (!bpt_out_ok(
                    values_of(balances@),
                    values_of(normalized_weights@),
                    values_of(amounts_in@),
                    swap_fee_percentage@,
                ) || !(0 <= bpt_out_val(
                    values_of(balances@),
                    values_of(normalized_weights@),
                    values_of(amounts_in@),
                    bpt_total_supply@,
                    swap_fee_percentage@,
                ) <= u64::MAX)) && e == MathError::Overflow)),
            },
    {
        if balances.len() != normalized_weights.len() || balances.len() != amounts_in.len() {
            return Err(MathError::LengthMismatch);
        }
        let ghost bs = values_of(balances@);
        let ghost ws = values_of(normalized_weights@);
        let ghost amts = values_of(amounts_in@);
        let ghost fee = swap_fee_percentage@;
        let fixed_point_one = Bignum::from_u64(WAD);
        let mut invariant_ratio_with_fees = Bignum::from_u64(0);
        let mut i: usize = 0;
        while i < balances.len()
            invariant
                i <= balances@.len(),
                balances@.len() == normalized_weights@.len(),
                balances@.len() == amounts_in@.len(),
                bs == values_of(balances@),
                ws == values_of(normalized_weights@),
                amts == values_of(amounts_in@),
                forall|j: int| 0 <= j < balances@.len() ==> #[trigger] balances@[j]@ >= 1,
                forall|j: int| 0 <= j < amounts_in@.len() ==> #[trigger] amounts_in@[j]@ >= 0,
                forall|j: int|
                    0 <= j < normalized_weights@.len() ==> #[trigger] normalized_weights@[j]@
                        >= 0,
                invariant_ratio_with_fees@ == bpt_irwf(bs, ws, amts, i as int),
                invariant_ratio_with_fees@ >= 0,
            decreases balances@.len() - i,
        {
            let balance_ratio_with_fee = match Decimal::div_down(
                Decimal(balances[i].plus(&amounts_in[i])),
                Decimal(balances[i].dup()),
            ) {
                Ok(v) => v,
                Err(e) => {
                    return Err(e);
                },
            };
            let contribution = match Decimal::mul_down(
                balance_ratio_with_fee,
                Decimal(normalized_weights[i].dup()),
            ) {
                Ok(v) => v,
                Err(e) => {
                    return Err(e);
                },
            };
            proof {
                let b = bs[i as int];
                let a = amts[i as int];
                let wt = ws[i as int];
                assert((b + a) * (WAD as int) >= 0) by (nonlinear_arith)
                    requires
                        b >= 1,
                        a >= 0,
                ;
                lemma_tdiv_mono(0, (b + a) * (WAD as int), b);
                lemma_tdiv_multiple(0, b);
                assert(bpt_ratio_val(b, a) * wt >= 0) by (nonlinear_arith)
                    requires
                        bpt_ratio_val(b, a) >= 0,
                        wt >= 0,
                ;
                lemma_tdiv_mono(0, bpt_ratio_val(b, a) * wt, WAD as int);
                lemma_tdiv_multiple(0, WAD as int);
            }
            invariant_ratio_with_fees = invariant_ratio_with_fees.plus(&contribution.0);
            i = i + 1;
        }
        let ghost irwf_full = bpt_irwf(bs, ws, amts, bs.len() as int);
        let mut invariant_ratio = Bignum::from_u64(WAD);
        let mut i: usize = 0;
        while i < balances.len()
            invariant
                i <= balances@.len(),
                balances@.len() == normalized_weights@.len(),
                balances@.len() == amounts_in@.len(),
                bs == values_of(balances@),
                ws == values_of(normalized_weights@),
                amts == values_of(amounts_in@),
                forall|j: int| 0 <= j < balances@.len() ==> #[trigger] balances@[j]@ >= 1,
                forall|j: int| 0 <= j < amounts_in@.len() ==> #[trigger] amounts_in@[j]@ >= 0,
                forall|j: int|
                    0 <= j < normalized_weights@.len() ==> #[trigger] normalized_weights@[j]@
                        >= 0,
                fee == swap_fee_percentage@,
                0 <= fee <= WAD as int,
                irwf_full == bpt_irwf(bs, ws, amts, bs.len() as int),
                invariant_ratio_with_fees@ == irwf_full,
                irwf_full >= 0,
                fixed_point_one@ == WAD as int,
                bpt_prefix_ok(bs, ws, amts, irwf_full, fee, i as int),
                invariant_ratio@ == bpt_invariant_ratio(bs, ws, amts, irwf_full, fee, i as int),
            decreases balances@.len() - i,
        {
            let balance_ratio_with_fee = match Decimal::div_down(
                Decimal(balances[i].plus(&amounts_in[i])),
                Decimal(balances[i].dup()),
            ) {
                Ok(v) => v,
                Err(e) => {
                    return Err(e);
                },
            };
            let amount_in_without_fee = if balance_ratio_with_fee.0.gt(&invariant_ratio_with_fees) {
                let non_taxable = match Decimal::mul_down(
                    Decimal(balances[i].dup()),
                    Decimal(invariant_ratio_with_fees.minus(&fixed_point_one)),
                ) {
                    Ok(v) => v,
                    Err(e) => {
                        return Err(e);
                    },
                };
                let taxable = amounts_in[i].minus(&non_taxable.0);
                let taxed = match Decimal::mul_down(
                    Decimal(taxable),
                    Decimal(fixed_point_one.minus(swap_fee_percentage)),
                ) {
                    Ok(v) => v,
                    Err(e) => {
                        return Err(e);
                    },
                };
                non_taxable.0.plus(&taxed.0)
            } else {
                amounts_in[i].dup()
            };
            proof {
                assert(amount_in_without_fee@ == bpt_amount_in_wf(
                    bs[i as int],
                    amts[i as int],
                    irwf_full,
                    fee,
                ));
                lemma_bpt_base_nonneg(bs[i as int], amts[i as int], irwf_full, fee);
            }
            let base = match Decimal::div_down(
                Decimal(balances[i].plus(&amount_in_without_fee)),
                Decimal(balances[i].dup()),
            ) {
                Ok(v) => v,
                Err(e) => {
                    return Err(e);
                },
            };
            proof {
                assert(base@ == bpt_base_val(bs[i as int], amts[i as int], irwf_full, fee));
            }
            let power = match base.pow(normalized_weights[i].dup()) {
                Ok(v) => v,
                Err(e) => {
                    proof {
                        lemma_bpt_prefix_fails(bs, ws, amts, irwf_full, fee, i as int,
                            bs.len() as int);
                    }
                    return Err(e);
                },
            };
            let next_ratio = match Decimal::mul_down(Decimal(invariant_ratio), power) {
                Ok(v) => v,
                Err(e) => {
                    return Err(e);
                },
            };
            invariant_ratio = next_ratio.0;
            i = i + 1;
        }
        if invariant_ratio.gt(&fixed_point_one) {
            let excess = invariant_ratio.minus(&fixed_point_one);
            let result = bpt_total_supply.times(&excess).div_trunc(&fixed_point_one).div_trunc(
                &fixed_point_one,
            );
            match result.to_u64_checked() {
                Some(v) => Ok(v),
                None => Err(MathError::Overflow),
            }
        } else {
            Ok(0u64)
        }
    }
}

/// Boundary exactness and monotonicity of the weight interpolation: for a
/// rising pair the interpolated weight never falls as progress advances,
/// and for a falling pair it never rises.
pub proof fn lemma_interpolate_monotone(s: int, e: int, p1: int, p2: int)
    requires
        0 <= s,
        0 <= e,
        0 <= p1 <= p2 <= 100,
    ensures
        s <= e ==> interpolate_val(s, e, p1) <= interpolate_val(s, e, p2),
        s > e ==> interpolate_val(s, e, p1) >= interpolate_val(s, e, p2),
{
    if s <= e {
        assert(p1 * (e - s) <= p2 * (e - s)) by (nonlinear_arith)
            requires
                p1 <= p2,
                e - s >= 0,
        ;
        lemma_div_is_ordered(s * 100 + p1 * (e - s), s * 100 + p2 * (e - s), 100);
    } else {
        assert(p1 * (s - e) <= p2 * (s - e)) by (nonlinear_arith)
            requires
                p1 <= p2,
                s - e >= 0,
        ;
        lemma_div_is_ordered(s * 100 - p2 * (s - e), s * 100 - p1 * (s - e), 100);
    }
}

} // verus!
