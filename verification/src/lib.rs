//! Fixed-point mathematics for a weighted two-asset liquidity pool whose
//! weights move linearly over time.
//!
//! The crate has three layers, leaves first:
//! - [`bignum`]: a signed arbitrary-precision integer built on `num`'s
//!   unsigned big integer, with verified sign handling;
//! - [`decimal`] and [`log_exp`]: a WAD-scaled (10^18) decimal with
//!   directional-rounding arithmetic and a fixed-point natural
//!   exponential / logarithm approximation;
//! - [`weighted_math`]: the weighted-pool formulas (invariant, swap
//!   quotes, join and exit quotes, weight interpolation) built on top.

pub mod bignum;
pub mod decimal;
pub mod log_exp;
pub mod weighted_math;
