//! A WAD-scaled decimal with directional-rounding arithmetic.
//!
//! A [`Decimal`] is a signed arbitrary-precision integer interpreted as
//! `value / 10^18`. Every operation returns a fresh value; the "down"
//! variants round toward zero and the "up" variants round away from it,
//! so that a caller can choose who absorbs the rounding error.

use crate::bignum::Bignum;
use crate::bignum::tdiv;
use vstd::arithmetic::div_mod::lemma_fundamental_div_mod;
use vstd::arithmetic::div_mod::lemma_fundamental_div_mod_converse_div;
use vstd::prelude::*;

verus! {

/// The fixed-point scale: a stored integer `n` represents `n / WAD`.
pub const WAD: u64 = 1_000_000_000_000_000_000;

/// The error kinds of the engine. Every error is terminal for the call:
/// no operation substitutes a clamped or wrapped value.
#[derive(Clone, Copy, Debug, PartialEq, Eq, Structural)]
pub enum MathError {
    /// A division whose divisor is the zero value.
    DivideByZero,
    /// A subtraction whose right operand exceeds the left, or an amount
    /// out at least as large as the available balance.
    Underflow,
    /// An exponential argument outside its admissible domain, or a result
    /// too large for the requested native width.
    Overflow,
    /// Parallel arrays of differing lengths.
    LengthMismatch,
}

/// Large decimal values, precise to 18 digits.
pub struct Decimal(pub Bignum);

impl View for Decimal {
    type V = int;

    open spec fn view(&self) -> int {
        self.0@
    }
}

pub open spec fn mul_down_val(a: int, b: int) -> int {
    tdiv(a * b, WAD as int)
}

pub open spec fn mul_up_val(a: int, b: int) -> int {
    if a * b == 0 {
        0
    } else {
        tdiv(a * b + WAD - 1, WAD as int)
    }
}

pub open spec fn div_down_val(a: int, b: int) -> int {
    tdiv(a * WAD, b)
}

pub open spec fn div_up_val(a: int, b: int) -> int {
    if a * WAD == 0 {
        0
    } else {
        tdiv(a * WAD + b - 1, b)
    }
}

impl Decimal {
    pub fn one() -> (r: Self)
        ensures
            r@ == WAD as int,
    {
        Decimal(Bignum::from_u64(WAD))
    }

    /// Zero
    pub fn zero() -> (r: Self)
        ensures
            r@ == 0,
    {
        Decimal(Bignum::from_u64(0))
    }

    pub fn wad() -> (r: Bignum)
        ensures
            r@ == WAD as int,
    {
        Bignum::from_u64(WAD)
    }

    pub fn new(value: Bignum) -> (r: Self)
        ensures
            r@ == value@,
    {
        Decimal(value)
    }

    pub fn dup(&self) -> (r: Self)
        ensures
            r@ == self@,
    {
        Decimal(self.0.dup())
    }

    // Add
    pub fn add(a: Self, b: Self) -> (r: Result<Self, MathError>)
        ensures
            r matches Ok(v) && v@ == a@ + b@,
    {
        Ok(Decimal(a.0.plus(&b.0)))
    }

    // Subtract
    pub fn sub(a: Self, b: Self) -> (r: Result<Self, MathError>)
        ensures
            match r {
                Ok(v) => b@ <= a@ && v@ == a@ - b@,
                Err(e) => b@ > a@ && e == MathError::Underflow,
            },
    {
        if a.0.lt(&b.0) {
            return Err(MathError::Underflow);
        }
        Ok(Decimal(a.0.minus(&b.0)))
    }

    // Multiply Down
    pub fn mul_down(a: Self, b: Self) -> (r: Result<Self, MathError>)
        ensures
            r matches Ok(v) && v@ == mul_down_val(a@, b@),
    {
        let one = Bignum::from_u64(WAD);
        let product = a.0.times(&b.0);
        Ok(Decimal(product.div_trunc(&one)))
    }

    // Multiply Up
    pub fn mul_up(a: Self, b: Self) -> (r: Result<Self, MathError>)
        ensures
            r matches Ok(v) && v@ == mul_up_val(a@, b@),
    {
        let product = a.0.times(&b.0);
        if product.is_zero() {
            return Ok(Decimal(product));
        }
        let one = Bignum::from_u64(WAD);
        let bump = Bignum::from_u64(WAD - 1);
        Ok(Decimal(product.plus(&bump).div_trunc(&one)))
    }

    // Divide Down
    pub fn div_down(a: Self, b: Self) -> (r: Result<Self, MathError>)
        ensures
            match r {
                Ok(v) => b@ != 0 && v@ == div_down_val(a@, b@),
                Err(e) => b@ == 0 && e == MathError::DivideByZero,
            },
    {
        if b.0.is_zero() {
            return Err(MathError::DivideByZero);
        }
        let one = Bignum::from_u64(WAD);
        let a_inflated = a.0.times(&one);
        Ok(Decimal(a_inflated.div_trunc(&b.0)))
    }

    // Divide Up
    pub fn div_up(a: Self, b: Self) -> (r: Result<Self, MathError>)
        ensures
            match r {
                Ok(v) => b@ != 0 && v@ == div_up_val(a@, b@),
                Err(e) => b@ == 0 && e == MathError::DivideByZero,
            },
    {
        if b.0.is_zero() {
            return Err(MathError::DivideByZero);
        }
        let one = Bignum::from_u64(WAD);
        let a_inflated = a.0.times(&one);
        if a_inflated.is_zero() {
            return Ok(Decimal(a_inflated));
        }
        let unit = Bignum::from_u64(1);
        let numerator = a_inflated.plus(&b.0.minus(&unit));
        Ok(Decimal(numerator.div_trunc(&b.0)))
    }
}

/// A bumped truncating division computes the ceiling: adding `d - 1` to a
/// non-negative dividend raises the quotient by one exactly when the plain
/// division leaves a remainder.
pub proof fn lemma_ceil_div(n: int, d: int)
    requires
        n >= 0,
        d > 0,
    ensures
        tdiv(n, d) == n / d,
        tdiv(n + d - 1, d) == n / d + (if n % d == 0 {
            0int
        } else {
            1int
        }),
{
    lemma_fundamental_div_mod(n, d);
    let q = n / d;
    let rem = n % d;
    assert(d * q == q * d) by (nonlinear_arith);
    if rem == 0 {
        assert(n + d - 1 == q * d + (d - 1));
        lemma_fundamental_div_mod_converse_div(n + d - 1, d, q, d - 1);
    } else {
        assert((q + 1) * d == q * d + d) by (nonlinear_arith);
        assert(n + d - 1 == (q + 1) * d + (rem - 1));
        lemma_fundamental_div_mod_converse_div(n + d - 1, d, q + 1, rem - 1);
    }
}

/// Rounding direction of multiplication: on non-negative operands the
/// rounded-down product never exceeds the rounded-up one, and the two agree
/// exactly when the scaled product leaves no remainder.
pub proof fn lemma_mul_rounding_order(a: int, b: int)
    requires
        a >= 0,
        b >= 0,
    ensures
        mul_down_val(a, b) <= mul_up_val(a, b),
        (mul_down_val(a, b) == mul_up_val(a, b)) <==> (a * b) % (WAD as int) == 0,
{
    let w = WAD as int;
    assert(a * b >= 0) by (nonlinear_arith)
        requires
            a >= 0,
            b >= 0,
    ;
    let p = a * b;
    if p == 0 {
        assert(p % w == 0);
    } else {
        lemma_ceil_div(p, w);
        lemma_fundamental_div_mod(p, w);
    }
}

/// Rounding direction of division: on a non-negative dividend and positive
/// divisor the rounded-down quotient never exceeds the rounded-up one, and
/// the two agree exactly when the scaled division leaves no remainder.
pub proof fn lemma_div_rounding_order(a: int, b: int)
    requires
        a >= 0,
        b > 0,
    ensures
        div_down_val(a, b) <= div_up_val(a, b),
        (div_down_val(a, b) == div_up_val(a, b)) <==> (a * WAD) % b == 0,
{
    let w = WAD as int;
    assert(a * w >= 0) by (nonlinear_arith)
        requires
            a >= 0,
            w > 0,
    ;
    let n = a * w;
    if n == 0 {
        vstd::arithmetic::div_mod::lemma_small_mod(0nat, b as nat);
    } else {
        lemma_ceil_div(n, b);
        lemma_fundamental_div_mod(n, b);
    }
}

} // verus!
