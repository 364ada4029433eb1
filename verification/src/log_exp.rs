//! Fixed-point natural exponential and logarithm, and the powers built on
//! them.
//!
//! Both directions use range reduction against one ladder of precomputed
//! anchor points `(X_k, A_k)` with `A_k = e^{X_k}`: the two coarse anchors
//! are taken at the WAD scale and the finer ones at a 10^20 scratch scale,
//! and a truncated series evaluates the residual. The spec functions below
//! state the computed value exactly, step for step, so every caller knows
//! the precise integer that comes back.

use crate::bignum::Bignum;
use crate::bignum::tdiv;
use crate::decimal::Decimal;
use crate::decimal::MathError;
use crate::decimal::WAD;
use crate::decimal::mul_up_val;
use vstd::arithmetic::div_mod::lemma_div_is_ordered;
use vstd::prelude::*;

verus! {

/// The elevated scratch scale used inside `exp` and `ln`.
pub const ONE_20: u128 = 100_000_000_000_000_000_000;

/// Largest admissible natural-exponent argument, WAD-scaled.
pub const MAX_NATURAL_EXPONENT: i128 = 130_000_000_000_000_000_000;

/// Smallest admissible natural-exponent argument, WAD-scaled.
pub const MIN_NATURAL_EXPONENT: i128 = -41_000_000_000_000_000_000;

pub open spec fn exp_in_range(a: int) -> bool {
    MIN_NATURAL_EXPONENT as int <= a <= MAX_NATURAL_EXPONENT as int
}

/// One fine step of `exp`'s range reduction: when the remaining argument
/// covers the anchor `xk`, subtract it and fold `ak` into the product.
pub open spec fn exp_ladder_step(x: int, p: int, xk: int, ak: int) -> (int, int) {
    if x >= xk {
        (x - xk, tdiv(p * ak, 100_000_000_000_000_000_000int))
    } else {
        (x, p)
    }
}

/// The `n`-th term of the truncated Taylor series of `e^x` at the 10^20
/// scale, starting from the linear term.
pub open spec fn exp_taylor_term(x: int, n: nat) -> int
    decreases n,
{
    if n <= 1 {
        x
    } else {
        tdiv(tdiv(exp_taylor_term(x, (n - 1) as nat) * x, 100_000_000_000_000_000_000int), n as int)
    }
}

/// The truncated Taylor series of `e^x` up to the `n`-th term, at the
/// 10^20 scale.
pub open spec fn exp_taylor_sum(x: int, n: nat) -> int
    decreases n,
{
    if n <= 1 {
        100_000_000_000_000_000_000int + x
    } else {
        exp_taylor_sum(x, (n - 1) as nat) + exp_taylor_term(x, n)
    }
}

/// The value of the exponential core on a non-negative WAD-scaled argument:
/// the coarse anchors at 128 and 64 are factored out at full precision,
/// the argument moves to the 10^20 scale, the fine ladder runs from 32
/// down to 0.25, and the Taylor series evaluates the residual.
pub open spec fn exp_pos_val(x: int) -> int {
    let c: (int, int) = if x >= 128_000_000_000_000_000_000 {
        (x - 128_000_000_000_000_000_000, 38877084059945950922200000000000000000000000000000000000int)
    } else if x >= 64_000_000_000_000_000_000 {
        (x - 64_000_000_000_000_000_000, 6235149080811616882910000000int)
    } else {
        (x, 1int)
    };
    let s2 = exp_ladder_step(c.0 * 100, 100_000_000_000_000_000_000int, 3_200_000_000_000_000_000_000int,
        7896296018268069516100000000000000int);
    let s3 = exp_ladder_step(s2.0, s2.1, 1_600_000_000_000_000_000_000int,
        888611052050787263676000000int);
    let s4 = exp_ladder_step(s3.0, s3.1, 800_000_000_000_000_000_000int,
        298095798704172827474000int);
    let s5 = exp_ladder_step(s4.0, s4.1, 400_000_000_000_000_000_000int,
        5459815003314423907810int);
    let s6 = exp_ladder_step(s5.0, s5.1, 200_000_000_000_000_000_000int,
        738905609893065022723int);
    let s7 = exp_ladder_step(s6.0, s6.1, 100_000_000_000_000_000_000int,
        271828182845904523536int);
    let s8 = exp_ladder_step(s7.0, s7.1, 50_000_000_000_000_000_000int,
        164872127070012814685int);
    let s9 = exp_ladder_step(s8.0, s8.1, 25_000_000_000_000_000_000int,
        128402541668774148407int);
    let series = exp_taylor_sum(s9.0, 12);
    tdiv(tdiv(s9.1 * series, 100_000_000_000_000_000_000int) * c.1, 100)
}

/// The value of `exp` on any in-range argument: a negative argument goes
/// through the reciprocal identity `e^a = WAD^2 / e^(-a)`.
pub open spec fn exp_val(a: int) -> int {
    if a < 0 {
        tdiv((WAD as int) * (WAD as int), exp_pos_val(-a))
    } else {
        exp_pos_val(a)
    }
}

/// One fine step of `ln`'s range reduction: when the remaining argument
/// covers the anchor value `ak`, divide it out and add `xk` to the sum.
pub open spec fn ln_ladder_step(a: int, s: int, xk: int, ak: int) -> (int, int) {
    if a >= ak {
        (tdiv(a * 100_000_000_000_000_000_000int, ak), s + xk)
    } else {
        (a, s)
    }
}

/// The truncated series `2 (z + z^3/3 + z^5/5 + z^7/7 + z^9/9 + z^11/11)`
/// at the 10^20 scale.
pub open spec fn ln_series_val(z: int) -> int {
    let z_sq = tdiv(z * z, 100_000_000_000_000_000_000int);
    let n3 = tdiv(z * z_sq, 100_000_000_000_000_000_000int);
    let n5 = tdiv(n3 * z_sq, 100_000_000_000_000_000_000int);
    let n7 = tdiv(n5 * z_sq, 100_000_000_000_000_000_000int);
    let n9 = tdiv(n7 * z_sq, 100_000_000_000_000_000_000int);
    let n11 = tdiv(n9 * z_sq, 100_000_000_000_000_000_000int);
    2 * (z + tdiv(n3, 3) + tdiv(n5, 5) + tdiv(n7, 7) + tdiv(n9, 9) + tdiv(n11, 11))
}

/// The value of the logarithm core: the coarse anchors divide the argument
/// at the WAD scale, the argument moves to the 10^20 scale, the fine
/// ladder runs from 32 down to 0.0625, and the series evaluates
/// `ln(1+z)` on `z = (a-1)/(a+1)`.
pub open spec fn ln_core_val(a: int) -> int {
    let c1: (int, int) = if a >= 38877084059945950922200000000000000000000000000000000000
        * 1_000_000_000_000_000_000 {
        (tdiv(a, 38877084059945950922200000000000000000000000000000000000int),
        128_000_000_000_000_000_000int)
    } else {
        (a, 0int)
    };
    let c2: (int, int) = if c1.0 >= 6235149080811616882910000000 * 1_000_000_000_000_000_000 {
        (tdiv(c1.0, 6235149080811616882910000000int), c1.1 + 64_000_000_000_000_000_000)
    } else {
        c1
    };
    let t2 = ln_ladder_step(c2.0 * 100, c2.1 * 100, 3_200_000_000_000_000_000_000int,
        7896296018268069516100000000000000int);
    let t3 = ln_ladder_step(t2.0, t2.1, 1_600_000_000_000_000_000_000int,
        888611052050787263676000000int);
    let t4 = ln_ladder_step(t3.0, t3.1, 800_000_000_000_000_000_000int,
        298095798704172827474000int);
    let t5 = ln_ladder_step(t4.0, t4.1, 400_000_000_000_000_000_000int,
        5459815003314423907810int);
    let t6 = ln_ladder_step(t5.0, t5.1, 200_000_000_000_000_000_000int,
        738905609893065022723int);
    let t7 = ln_ladder_step(t6.0, t6.1, 100_000_000_000_000_000_000int,
        271828182845904523536int);
    let t8 = ln_ladder_step(t7.0, t7.1, 50_000_000_000_000_000_000int,
        164872127070012814685int);
    let t9 = ln_ladder_step(t8.0, t8.1, 25_000_000_000_000_000_000int,
        128402541668774148407int);
    let t10 = ln_ladder_step(t9.0, t9.1, 12_500_000_000_000_000_000int,
        113314845306682631683int);
    let t11 = ln_ladder_step(t10.0, t10.1, 6_250_000_000_000_000_000int,
        106449445891785942956int);
    let z = tdiv((t11.0 - 100_000_000_000_000_000_000int) * 100_000_000_000_000_000_000int, t11.0 + 100_000_000_000_000_000_000int);
    tdiv(t11.1 + ln_series_val(z), 100)
}

/// The value of `ln` on a positive argument: an argument below one WAD
/// goes through the reciprocal identity `ln(a) = -ln(WAD^2 / a)`.
pub open spec fn ln_val(a: int) -> int {
    if a < WAD as int {
        -ln_core_val(tdiv((WAD as int) * (WAD as int), a))
    } else {
        ln_core_val(a)
    }
}

/// The WAD-scaled exponent `y ln(x) / WAD` that `pow` feeds to `exp`.
pub open spec fn pow_exponent(base: int, y: int) -> int {
    tdiv(ln_val(base) * y, WAD as int)
}

/// Whether `pow` succeeds: a zero base or a unit exponent always does,
/// any other pair exactly when the combined exponent is admissible.
pub open spec fn pow_ok(base: int, y: int) -> bool {
    base == 0 || y == WAD as int || exp_in_range(pow_exponent(base, y))
}

/// The value `pow` returns when it succeeds: one WAD on a zero base, the
/// base itself at the exponent of exactly one, and the exponential of
/// `y ln(x) / WAD` otherwise.
pub open spec fn pow_val(base: int, y: int) -> int {
    if base == 0 {
        WAD as int
    } else if y == WAD as int {
        base
    } else {
        exp_val(pow_exponent(base, y))
    }
}

/// The precomputed anchor `e^128`, which exceeds the range of every
/// primitive integer and is assembled from two factors.
fn a0_const() -> (r: Bignum)
    ensures
        r@ == 38877084059945950922200000000000000000000000000000000000int,
{
    let hi = Bignum::from_u128(388_770_840_599_459_509_222);
    let shift = Bignum::from_u128(100_000_000_000_000_000_000_000_000_000_000_000);
    hi.times(&shift)
}

/// One fine step of `exp`'s range reduction over big integers.
fn exp_step(x: Bignum, p: Bignum, xk: &Bignum, ak: &Bignum) -> (r: (Bignum, Bignum))
    requires
        ak@ >= ONE_20 as int,
    ensures
        r.0@ == exp_ladder_step(x@, p@, xk@, ak@).0,
        r.1@ == exp_ladder_step(x@, p@, xk@, ak@).1,
        x@ >= 0 && xk@ >= 0 ==> r.0@ >= 0,
        p@ >= ONE_20 as int ==> r.1@ >= ONE_20 as int,
{
    if x.ge(xk) {
        let one20 = Bignum::from_u128(ONE_20);
        let scaled = p.times(ak);
        let p2 = scaled.div_trunc(&one20);
        proof {
            if p@ >= ONE_20 as int {
                assert(p@ * ak@ >= (ONE_20 as int) * (ONE_20 as int)) by (nonlinear_arith)
                    requires
                        p@ >= ONE_20 as int,
                        ak@ >= ONE_20 as int,
                ;
                lemma_div_is_ordered((ONE_20 as int) * (ONE_20 as int), p@ * ak@, ONE_20 as int);
            }
        }
        (x.minus(xk), p2)
    } else {
        (x, p)
    }
}

/// One fine step of `ln`'s range reduction over big integers.
fn ln_step(a: Bignum, s: Bignum, xk: &Bignum, ak: &Bignum) -> (r: (Bignum, Bignum))
    requires
        ak@ >= 1,
    ensures
        r.0@ == ln_ladder_step(a@, s@, xk@, ak@).0,
        r.1@ == ln_ladder_step(a@, s@, xk@, ak@).1,
        a@ >= 1 ==> r.0@ >= 1,
{
    if a.ge(ak) {
        let one20 = Bignum::from_u128(ONE_20);
        let scaled = a.times(&one20);
        let a2 = scaled.div_trunc(ak);
        proof {
            if a@ >= 1 {
                assert(a@ * (ONE_20 as int) >= ak@ * 1) by (nonlinear_arith)
                    requires
                        a@ >= ak@ >= 1,
                ;
                lemma_div_is_ordered(ak@, a@ * (ONE_20 as int), ak@);
                vstd::arithmetic::div_mod::lemma_div_by_self(ak@);
            }
        }
        (a2, s.plus(xk))
    } else {
        (a, s)
    }
}

/// The series shared tail of `ln`.
fn ln_series(z: Bignum) -> (r: Bignum)
    ensures
        r@ == ln_series_val(z@),
{
    let one20 = Bignum::from_u128(ONE_20);
    let z_sq = z.times(&z).div_trunc(&one20);
    let n3 = z.times(&z_sq).div_trunc(&one20);
    let n5 = n3.times(&z_sq).div_trunc(&one20);
    let n7 = n5.times(&z_sq).div_trunc(&one20);
    let n9 = n7.times(&z_sq).div_trunc(&one20);
    let n11 = n9.times(&z_sq).div_trunc(&one20);
    let sum = z.plus(&n3.div_trunc(&Bignum::from_u64(3))).plus(
        &n5.div_trunc(&Bignum::from_u64(5)),
    ).plus(&n7.div_trunc(&Bignum::from_u64(7))).plus(&n9.div_trunc(&Bignum::from_u64(9))).plus(
        &n11.div_trunc(&Bignum::from_u64(11)),
    );
    sum.times(&Bignum::from_u64(2))
}

impl Decimal {
    /// The exponential core on a non-negative argument; on such an
    /// argument the result is at least one WAD, as `e^x >= 1` demands.
    fn exp_pos(x: Bignum) -> (r: Bignum)
        ensures
            r@ == exp_pos_val(x@),
            x@ >= 0 ==> r@ >= WAD as int,
    {
        let ghost gx = x@;
        let x0 = Bignum::from_u128(128_000_000_000_000_000_000);
        let x1 = Bignum::from_u128(64_000_000_000_000_000_000);
        let (x, fan) = if x.ge(&x0) {
            (x.minus(&x0), a0_const())
        } else if x.ge(&x1) {
            (x.minus(&x1), Bignum::from_u128(6_235_149_080_811_616_882_910_000_000))
        } else {
            (x, Bignum::from_u64(1))
        };
        let hundred = Bignum::from_u64(100);
        let x = x.times(&hundred);
        let one20 = Bignum::from_u128(ONE_20);
        let s = exp_step(
            x,
            Bignum::from_u128(ONE_20),
            &Bignum::from_u128(3_200_000_000_000_000_000_000),
            &Bignum::from_u128(7_896_296_018_268_069_516_100_000_000_000_000),
        );
        let s = exp_step(
            s.0,
            s.1,
            &Bignum::from_u128(1_600_000_000_000_000_000_000),
            &Bignum::from_u128(888_611_052_050_787_263_676_000_000),
        );
        let s = exp_step(
            s.0,
            s.1,
            &Bignum::from_u128(800_000_000_000_000_000_000),
            &Bignum::from_u128(298_095_798_704_172_827_474_000),
        );
        let s = exp_step(
            s.0,
            s.1,
            &Bignum::from_u128(400_000_000_000_000_000_000),
            &Bignum::from_u128(5_459_815_003_314_423_907_810),
        );
        let s = exp_step(
            s.0,
            s.1,
            &Bignum::from_u128(200_000_000_000_000_000_000),
            &Bignum::from_u128(738_905_609_893_065_022_723),
        );
        let s = exp_step(
            s.0,
            s.1,
            &Bignum::from_u128(100_000_000_000_000_000_000),
            &Bignum::from_u128(271_828_182_845_904_523_536),
        );
        let s = exp_step(
            s.0,
            s.1,
            &Bignum::from_u128(50_000_000_000_000_000_000),
            &Bignum::from_u128(164_872_127_070_012_814_685),
        );
        let s = exp_step(
            s.0,
            s.1,
            &Bignum::from_u128(25_000_000_000_000_000_000),
            &Bignum::from_u128(128_402_541_668_774_148_407),
        );
        let (xr, product) = s;
        let mut term = xr.dup();
        let mut series = one20.plus(&xr);
        let mut n: u64 = 2;
        while n <= 12
            invariant
                2 <= n <= 13,
                one20@ == ONE_20 as int,
                term@ == exp_taylor_term(xr@, (n - 1) as nat),
                series@ == exp_taylor_sum(xr@, (n - 1) as nat),
                xr@ >= 0 ==> term@ >= 0 && series@ >= ONE_20 as int,
            decreases 13 - n,
        {
            let nb = Bignum::from_u64(n);
            let raised = term.times(&xr);
            let scaled = raised.div_trunc(&one20);
            proof {
                if xr@ >= 0 {
                    assert(term@ * xr@ >= 0) by (nonlinear_arith)
                        requires
                            term@ >= 0,
                            xr@ >= 0,
                    ;
                    lemma_div_is_ordered(0, term@ * xr@, ONE_20 as int);
                    lemma_div_is_ordered(0, scaled@, n as int);
                }
            }
            term = scaled.div_trunc(&nb);
            series = series.plus(&term);
            n = n + 1;
        }
        let t = product.times(&series).div_trunc(&one20);
        let u = t.times(&fan);
        let r = u.div_trunc(&hundred);
        proof {
            if gx >= 0 {
                assert(product@ * series@ >= (ONE_20 as int) * (ONE_20 as int))
                    by (nonlinear_arith)
                    requires
                        product@ >= ONE_20 as int,
                        series@ >= ONE_20 as int,
                ;
                lemma_div_is_ordered(
                    (ONE_20 as int) * (ONE_20 as int),
                    product@ * series@,
                    ONE_20 as int,
                );
                assert(t@ * fan@ >= t@ * 1) by (nonlinear_arith)
                    requires
                        t@ >= 0,
                        fan@ >= 1,
                ;
                lemma_div_is_ordered(ONE_20 as int, u@, 100);
            }
        }
        r
    }

    pub fn exp(exponent: Bignum) -> (r: Result<Bignum, MathError>)
        ensures
            match r {
                Ok(v) => exp_in_range(exponent@) && v@ == exp_val(exponent@) && v@ >= 0 && (
                exponent@ >= 0 ==> v@ >= WAD as int),
                Err(e) => !exp_in_range(exponent@) && e == MathError::Overflow,
            },
    {
        let min_exp = Bignum::from_u128(41_000_000_000_000_000_000).neg();
        let max_exp = Bignum::from_u128(130_000_000_000_000_000_000);
        if exponent.lt(&min_exp) || exponent.gt(&max_exp) {
            return Err(MathError::Overflow);
        }
        if exponent.is_negative() {
            // e^(-x) computed as WAD^2 / e^x at fixed point
            let pos = Self::exp_pos(exponent.neg());
            let w = Bignum::from_u64(WAD);
            let num = w.times(&w);
            Ok(num.div_trunc(&pos))
        } else {
            Ok(Self::exp_pos(exponent))
        }
    }

    /// The logarithm core, on an argument of at least one unit.
    fn ln_core(a: Bignum) -> (r: Bignum)
        requires
            a@ >= 1,
        ensures
            r@ == ln_core_val(a@),
    {
        let w = Bignum::from_u64(WAD);
        let a0c = a0_const();
        let a1c = Bignum::from_u128(6_235_149_080_811_616_882_910_000_000);
        let thr0 = a0c.times(&w);
        let (a, s) = if a.ge(&thr0) {
            let reduced = a.div_trunc(&a0c);
            proof {
                lemma_div_is_ordered(a0c@, a@, a0c@);
                vstd::arithmetic::div_mod::lemma_div_by_self(a0c@);
            }
            (reduced, Bignum::from_u128(128_000_000_000_000_000_000))
        } else {
            (a, Bignum::from_u64(0))
        };
        let thr1 = a1c.times(&w);
        let (a, s) = if a.ge(&thr1) {
            let reduced = a.div_trunc(&a1c);
            proof {
                lemma_div_is_ordered(a1c@, a@, a1c@);
                vstd::arithmetic::div_mod::lemma_div_by_self(a1c@);
            }
            (reduced, s.plus(&Bignum::from_u128(64_000_000_000_000_000_000)))
        } else {
            (a, s)
        };
        let hundred = Bignum::from_u64(100);
        let a = a.times(&hundred);
        let s = s.times(&hundred);
        let t = ln_step(
            a,
            s,
            &Bignum::from_u128(3_200_000_000_000_000_000_000),
            &Bignum::from_u128(7_896_296_018_268_069_516_100_000_000_000_000),
        );
        let t = ln_step(
            t.0,
            t.1,
            &Bignum::from_u128(1_600_000_000_000_000_000_000),
            &Bignum::from_u128(888_611_052_050_787_263_676_000_000),
        );
        let t = ln_step(
            t.0,
            t.1,
            &Bignum::from_u128(800_000_000_000_000_000_000),
            &Bignum::from_u128(298_095_798_704_172_827_474_000),
        );
        let t = ln_step(
            t.0,
            t.1,
            &Bignum::from_u128(400_000_000_000_000_000_000),
            &Bignum::from_u128(5_459_815_003_314_423_907_810),
        );
        let t = ln_step(
            t.0,
            t.1,
            &Bignum::from_u128(200_000_000_000_000_000_000),
            &Bignum::from_u128(738_905_609_893_065_022_723),
        );
        let t = ln_step(
            t.0,
            t.1,
            &Bignum::from_u128(100_000_000_000_000_000_000),
            &Bignum::from_u128(271_828_182_845_904_523_536),
        );
        let t = ln_step(
            t.0,
            t.1,
            &Bignum::from_u128(50_000_000_000_000_000_000),
            &Bignum::from_u128(164_872_127_070_012_814_685),
        );
        let t = ln_step(
            t.0,
            t.1,
            &Bignum::from_u128(25_000_000_000_000_000_000),
            &Bignum::from_u128(128_402_541_668_774_148_407),
        );
        let t = ln_step(
            t.0,
            t.1,
            &Bignum::from_u128(12_500_000_000_000_000_000),
            &Bignum::from_u128(113_314_845_306_682_631_683),
        );
        let t = ln_step(
            t.0,
            t.1,
            &Bignum::from_u128(6_250_000_000_000_000_000),
            &Bignum::from_u128(106_449_445_891_785_942_956),
        );
        let one20 = Bignum::from_u128(ONE_20);
        let diff = t.0.minus(&one20);
        let denominator = t.0.plus(&one20);
        let z = diff.times(&one20).div_trunc(&denominator);
        let series = ln_series(z);
        t.1.plus(&series).div_trunc(&hundred)
    }

    pub fn ln(exponent: Bignum) -> (r: Result<Bignum, MathError>)
        requires
            exponent@ >= 1,
        ensures
            r matches Ok(v) && v@ == ln_val(exponent@),
    {
        let w = Bignum::from_u64(WAD);
        if exponent.lt(&w) {
            // ln(a) for a below one unit via the identity ln(a) = -ln(WAD^2/a)
            let num = w.times(&w);
            let recip = num.div_trunc(&exponent);
            proof {
                lemma_div_is_ordered(exponent@, (WAD as int) * (WAD as int), exponent@);
                vstd::arithmetic::div_mod::lemma_div_by_self(exponent@);
            }
            Ok(Self::ln_core(recip).neg())
        } else {
            Ok(Self::ln_core(exponent))
        }
    }

    pub fn pow(&self, exponent: Bignum) -> (r: Result<Self, MathError>)
        requires
            self@ >= 0,
        ensures
            match r {
                Ok(v) => pow_ok(self@, exponent@) && v@ == pow_val(self@, exponent@) && v@ >= 0,
                Err(e) => !pow_ok(self@, exponent@) && e == MathError::Overflow,
            },
    {
        if self.0.is_zero() {
            // Solving 0^0 indetermination by making it equal one.
            return Ok(Self::one());
        }
        let one18 = Bignum::from_u64(WAD);
        if exponent.eq_val(&one18) {
            // An exponent of exactly one returns the base unchanged.
            return Ok(Decimal(self.0.dup()));
        }
        // Compute y * ln(x) in a single step.
        let logx = match Self::ln(self.0.dup()) {
            Ok(v) => v,
            Err(e) => {
                return Err(e);
            },
        };
        let logx_times_y = logx.times(&exponent).div_trunc(&one18);
        // Ensure the result is within the allowed exponent range.
        let min_exp = Bignum::from_u128(41_000_000_000_000_000_000).neg();
        let max_exp = Bignum::from_u128(130_000_000_000_000_000_000);
        if logx_times_y.lt(&min_exp) || logx_times_y.gt(&max_exp) {
            return Err(MathError::Overflow);
        }
        // Compute and return exp(y * ln(x)) to arrive at x^y
        match Self::exp(logx_times_y) {
            Ok(v) => Ok(Self(v)),
            Err(e) => Err(e),
        }
    }
}

/// Whether `pow_up` succeeds: the closed-form exponents always do, the
/// generic path exactly when `pow` does.
pub open spec fn pow_up_ok(x: int, y: int) -> bool {
    y == WAD as int || y == 2 * WAD || y == 4 * WAD || pow_ok(x, y)
}

/// The value `pow_up` returns when it succeeds: exact at the exponents
/// one, two and four, and the raw power plus a conservative error margin
/// (the rounded-up relative error plus one) otherwise, so the result
/// never under-states the power.
pub open spec fn pow_up_val(x: int, y: int) -> int {
    if y == WAD as int {
        x
    } else if y == 2 * WAD {
        mul_up_val(x, x)
    } else if y == 4 * WAD {
        mul_up_val(mul_up_val(x, x), mul_up_val(x, x))
    } else {
        pow_val(x, y) + mul_up_val(pow_val(x, y), 1) + 1
    }
}

impl Decimal {
    pub fn pow_up(x: &Bignum, y: &Bignum) -> (r: Result<Bignum, MathError>)
        requires
            x@ >= 0 || y@ == WAD as int || y@ == 2 * WAD || y@ == 4 * WAD,
        ensures
            match r {
                Ok(v) => pow_up_ok(x@, y@) && v@ == pow_up_val(x@, y@),
                Err(e) => !pow_up_ok(x@, y@) && e == MathError::Overflow,
            },
    {
        let one = Bignum::from_u64(WAD);
        let two = Bignum::from_u64(2 * WAD);
        let four = Bignum::from_u64(4 * WAD);
        if y.eq_val(&one) {
            Ok(x.dup())
        } else if y.eq_val(&two) {
            let squared = match Self::mul_up(Decimal(x.dup()), Decimal(x.dup())) {
                Ok(v) => v,
                Err(e) => {
                    return Err(e);
                },
            };
            Ok(squared.0)
        } else if y.eq_val(&four) {
            let squared = match Self::mul_up(Decimal(x.dup()), Decimal(x.dup())) {
                Ok(v) => v,
                Err(e) => {
                    return Err(e);
                },
            };
            let fourth = match Self::mul_up(squared.dup(), squared) {
                Ok(v) => v,
                Err(e) => {
                    return Err(e);
                },
            };
            Ok(fourth.0)
        } else {
            let raw = match Decimal(x.dup()).pow(y.dup()) {
                Ok(v) => v,
                Err(e) => {
                    return Err(e);
                },
            };
            let margin = match Self::mul_up(raw.dup(), Decimal(Bignum::from_u64(1))) {
                Ok(v) => v,
                Err(e) => {
                    return Err(e);
                },
            };
            let unit = Bignum::from_u64(1);
            Ok(raw.0.plus(&margin.0).plus(&unit))
        }
    }
}

/// A power at unity is exact: raising any nonzero value to the exponent
/// of exactly one WAD returns the value unchanged. A zero base stays the
/// documented exception, where the power is one WAD.
pub proof fn lemma_pow_at_unity(x: int)
    requires
        x != 0,
    ensures
        pow_ok(x, WAD as int),
        pow_val(x, WAD as int) == x,
{
}

/// The rounded-up power at unity is exact for every value.
pub proof fn lemma_pow_up_at_unity(x: int)
    ensures
        pow_up_ok(x, WAD as int),
        pow_up_val(x, WAD as int) == x,
{
}

/// At the fixed point of the inverse pair: the exponential of zero is
/// exactly one WAD.
pub proof fn lemma_exp_at_zero()
    ensures
        exp_val(0) == WAD as int,
{
    reveal_with_fuel(exp_taylor_term, 13);
    reveal_with_fuel(exp_taylor_sum, 13);
    assert(exp_taylor_sum(0, 12) == 100_000_000_000_000_000_000int);
    assert(exp_pos_val(0) == 1_000_000_000_000_000_000int) by (nonlinear_arith)
        requires
            exp_taylor_sum(0, 12) == 100_000_000_000_000_000_000int,
    ;
}

/// At the fixed point of the inverse pair: the logarithm of one WAD is
/// exactly zero.
pub proof fn lemma_ln_at_one()
    ensures
        ln_val(WAD as int) == 0,
{
}

} // verus!
