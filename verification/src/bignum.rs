//! A signed arbitrary-precision integer.
//!
//! The magnitude is held in `num`'s unsigned big integer, whose primitive
//! operations are trusted with exact contracts over the uninterpreted
//! value function [`big_val`]; every piece of sign logic is verified here.

use vstd::prelude::*;

verus! {

#[verifier::external_type_specification]
#[verifier::external_body]
pub struct ExBigUint(num::bigint::BigUint);

/// The natural number that a `num::bigint::BigUint` holds.
pub uninterp spec fn big_val(v: num::bigint::BigUint) -> nat;

/// Relies on `<BigUint as From<u64>>::from`: the result holds the given value.
#[verifier::external_body]
pub(crate) fn bu_from_u64(v: u64) -> (r: num::bigint::BigUint)
    ensures
        big_val(r) == v as nat,
{
    num::bigint::BigUint::from(v)
}

/// Relies on `<BigUint as From<u128>>::from`: the result holds the given value.
#[verifier::external_body]
pub(crate) fn bu_from_u128(v: u128) -> (r: num::bigint::BigUint)
    ensures
        big_val(r) == v as nat,
{
    num::bigint::BigUint::from(v)
}

/// Relies on `<&BigUint as Add>::add`: exact addition.
#[verifier::external_body]
pub(crate) fn bu_add(a: &num::bigint::BigUint, b: &num::bigint::BigUint) -> (r:
    num::bigint::BigUint)
    ensures
        big_val(r) == big_val(*a) + big_val(*b),
{
    a + b
}

/// Relies on `<&BigUint as Sub>::sub`: exact subtraction; it panics when the
/// subtrahend exceeds the minuend, so that case is excluded.
#[verifier::external_body]
pub(crate) fn bu_sub(a: &num::bigint::BigUint, b: &num::bigint::BigUint) -> (r:
    num::bigint::BigUint)
    requires
        big_val(*b) <= big_val(*a),
    ensures
        big_val(r) == big_val(*a) - big_val(*b),
{
    a - b
}

/// Relies on `<&BigUint as Mul>::mul`: exact multiplication.
#[verifier::external_body]
pub(crate) fn bu_mul(a: &num::bigint::BigUint, b: &num::bigint::BigUint) -> (r:
    num::bigint::BigUint)
    ensures
        big_val(r) == big_val(*a) * big_val(*b),
{
    a * b
}

/// Relies on `<&BigUint as Div>::div`: quotient rounded toward zero; it
/// panics on a zero divisor, so that case is excluded.
#[verifier::external_body]
pub(crate) fn bu_div(a: &num::bigint::BigUint, b: &num::bigint::BigUint) -> (r:
    num::bigint::BigUint)
    requires
        big_val(*b) > 0,
    ensures
        big_val(r) == big_val(*a) / big_val(*b),
{
    a / b
}

/// Relies on `<BigUint as Ord>::le`: the order of the held values.
#[verifier::external_body]
pub(crate) fn bu_le(a: &num::bigint::BigUint, b: &num::bigint::BigUint) -> (r: bool)
    ensures
        r == (big_val(*a) <= big_val(*b)),
{
    a <= b
}

/// Relies on `<BigUint as Clone>::clone`: the copy holds the same value.
#[verifier::external_body]
pub(crate) fn bu_clone(a: &num::bigint::BigUint) -> (r: num::bigint::BigUint)
    ensures
        big_val(r) == big_val(*a),
{
    a.clone()
}

/// Relies on `<BigUint as ToPrimitive>::to_u64`: the value when it fits in a
/// `u64`, and `None` exactly when it does not.
#[verifier::external_body]
pub(crate) fn bu_to_u64(a: &num::bigint::BigUint) -> (r: Option<u64>)
    ensures
        match r {
            Some(v) => v as nat == big_val(*a),
            None => big_val(*a) > u64::MAX as nat,
        },
{
    num::ToPrimitive::to_u64(a)
}

/// The absolute value.
pub open spec fn iabs(a: int) -> int {
    if a < 0 {
        -a
    } else {
        a
    }
}

/// Division rounded toward zero, as the underlying big integer performs it.
/// Unlike the Euclidean `/` of specifications, a negative exact quotient is
/// rounded up.
pub open spec fn tdiv(a: int, b: int) -> int {
    if (a < 0) == (b < 0) {
        iabs(a) / iabs(b)
    } else {
        -(iabs(a) / iabs(b))
    }
}

/// Division toward zero by a positive divisor never decreases when the
/// dividend grows.
pub proof fn lemma_tdiv_mono(a: int, b: int, d: int)
    requires
        a <= b,
        d > 0,
    ensures
        tdiv(a, d) <= tdiv(b, d),
{
    if 0 <= a {
        vstd::arithmetic::div_mod::lemma_div_is_ordered(a, b, d);
    } else if b <= 0 {
        vstd::arithmetic::div_mod::lemma_div_is_ordered(-b, -a, d);
    } else {
        vstd::arithmetic::div_mod::lemma_div_pos_is_pos(-a, d);
        vstd::arithmetic::div_mod::lemma_div_pos_is_pos(b, d);
    }
}

/// Division toward zero is exact on a multiple of the divisor.
pub proof fn lemma_tdiv_multiple(t: int, d: int)
    requires
        d > 0,
    ensures
        tdiv(t * d, d) == t,
{
    if t >= 0 {
        assert(t * d >= 0 && t * d == d * t) by (nonlinear_arith)
            requires
                t >= 0,
                d > 0,
        ;
        vstd::arithmetic::div_mod::lemma_div_multiples_vanish(t, d);
    } else {
        assert(t * d < 0 && -(t * d) == d * (-t)) by (nonlinear_arith)
            requires
                t < 0,
                d > 0,
        ;
        vstd::arithmetic::div_mod::lemma_div_multiples_vanish(-t, d);
    }
}

/// A signed arbitrary-precision integer: a sign flag and a magnitude.
/// A zero magnitude denotes zero under either flag.
pub struct Bignum {
    pub negative: bool,
    pub magnitude: num::bigint::BigUint,
}

impl View for Bignum {
    type V = int;

    open spec fn view(&self) -> int {
        if self.negative {
            -(big_val(self.magnitude) as int)
        } else {
            big_val(self.magnitude) as int
        }
    }
}

impl Bignum {
    pub fn from_u64(v: u64) -> (r: Bignum)
        ensures
            r@ == v as int,
    {
        Bignum { negative: false, magnitude: bu_from_u64(v) }
    }

    pub fn from_u128(v: u128) -> (r: Bignum)
        ensures
            r@ == v as int,
    {
        Bignum { negative: false, magnitude: bu_from_u128(v) }
    }

    pub fn dup(&self) -> (r: Bignum)
        ensures
            r@ == self@,
    {
        Bignum { negative: self.negative, magnitude: bu_clone(&self.magnitude) }
    }

    pub fn neg(&self) -> (r: Bignum)
        ensures
            r@ == -self@,
    {
        Bignum { negative: !self.negative, magnitude: bu_clone(&self.magnitude) }
    }

    pub fn le(&self, other: &Bignum) -> (r: bool)
        ensures
            r == (self@ <= other@),
    {
        if self.negative == other.negative {
            if self.negative {
                bu_le(&other.magnitude, &self.magnitude)
            } else {
                bu_le(&self.magnitude, &other.magnitude)
            }
        } else if self.negative {
            // -m1 <= m2 always
            true
        } else {
            // m1 <= -m2 only when both are zero
            let zero = bu_from_u64(0);
            bu_le(&self.magnitude, &zero) && bu_le(&other.magnitude, &zero)
        }
    }

    pub fn ge(&self, other: &Bignum) -> (r: bool)
        ensures
            r == (self@ >= other@),
    {
        other.le(self)
    }

    pub fn lt(&self, other: &Bignum) -> (r: bool)
        ensures
            r == (self@ < other@),
    {
        !other.le(self)
    }

    pub fn gt(&self, other: &Bignum) -> (r: bool)
        ensures
            r == (self@ > other@),
    {
        !self.le(other)
    }

    pub fn eq_val(&self, other: &Bignum) -> (r: bool)
        ensures
            r == (self@ == other@),
    {
        self.le(other) && other.le(self)
    }

    pub fn is_zero(&self) -> (r: bool)
        ensures
            r == (self@ == 0),
    {
        let zero = bu_from_u64(0);
        bu_le(&self.magnitude, &zero)
    }

    pub fn is_negative(&self) -> (r: bool)
        ensures
            r == (self@ < 0),
    {
        if self.negative {
            let zero = bu_from_u64(0);
            !bu_le(&self.magnitude, &zero)
        } else {
            false
        }
    }

    pub fn plus(&self, other: &Bignum) -> (r: Bignum)
        ensures
            r@ == self@ + other@,
    {
        if self.negative == other.negative {
            Bignum { negative: self.negative, magnitude: bu_add(&self.magnitude, &other.magnitude) }
        } else if bu_le(&self.magnitude, &other.magnitude) {
            Bignum {
                negative: other.negative,
                magnitude: bu_sub(&other.magnitude, &self.magnitude),
            }
        } else {
            Bignum {
                negative: self.negative,
                magnitude: bu_sub(&self.magnitude, &other.magnitude),
            }
        }
    }

    pub fn minus(&self, other: &Bignum) -> (r: Bignum)
        ensures
            r@ == self@ - other@,
    {
        let flipped = other.neg();
        self.plus(&flipped)
    }

    pub fn times(&self, other: &Bignum) -> (r: Bignum)
        ensures
            r@ == self@ * other@,
    {
        let r = Bignum {
            negative: self.negative != other.negative,
            magnitude: bu_mul(&self.magnitude, &other.magnitude),
        };
        proof {
            let m1 = big_val(self.magnitude) as int;
            let m2 = big_val(other.magnitude) as int;
            assert((-m1) * m2 == -(m1 * m2) && m1 * (-m2) == -(m1 * m2) && (-m1) * (-m2) == m1
                * m2) by (nonlinear_arith);
        }
        r
    }

    pub fn div_trunc(&self, other: &Bignum) -> (r: Bignum)
        requires
            other@ != 0,
        ensures
            r@ == tdiv(self@, other@),
    {
        Bignum {
            negative: self.negative != other.negative,
            magnitude: bu_div(&self.magnitude, &other.magnitude),
        }
    }

    pub fn to_u64_checked(&self) -> (r: Option<u64>)
        ensures
            match r {
                Some(v) => self@ == v as int,
                None => self@ < 0 || self@ > u64::MAX as int,
            },
    {
        if self.is_negative() {
            None
        } else {
            bu_to_u64(&self.magnitude)
        }
    }
}

} // verus!
