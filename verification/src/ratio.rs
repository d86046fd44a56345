//! Exact rational values.
//!
//! Ratio-valued similarity measures in this crate are returned as exact
//! fractions rather than floating-point approximations. A `Ratio` is not
//! reduced to lowest terms; callers compare by cross-multiplication or
//! convert to floating point themselves.

use vstd::prelude::*;

verus! {

/// An exact non-negative fraction `num / den`.
///
/// Every function of this crate that returns a `Ratio` guarantees `den > 0`
/// in its postcondition; the fraction is not necessarily in lowest terms.
#[derive(Clone, Copy, Debug, PartialEq, Eq, Structural)]
pub struct Ratio {
    pub num: u128,
    pub den: u128,
}

/// The fraction `r` has the exact value `num / den`.
pub open spec fn ratio_is(r: Ratio, num: int, den: int) -> bool {
    r.num == num && r.den == den
}

/// The optional fraction `r` carries exactly the optional value `v`,
/// `None` standing for an undefined (zero-denominator) result.
pub open spec fn ratio_opt_is(r: Option<Ratio>, v: Option<(int, int)>) -> bool {
    match (r, v) {
        (Option::Some(q), Option::Some(p)) => ratio_is(q, p.0, p.1),
        (Option::None, Option::None) => true,
        _ => false,
    }
}

} // verus!
