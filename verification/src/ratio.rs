//! Exact rational values in the unit interval, and their conversion to
//! fixed-point scores in units of `SIM_SCALE`.

use vstd::prelude::*;

verus! {

use vstd::arithmetic::div_mod::{lemma_div_is_ordered, lemma_div_multiples_vanish};
use vstd::arithmetic::mul::lemma_mul_inequality;

/// Number of fixed-point units that stand for the real value `1.0`.
pub const SIM_SCALE: u64 = 1_000_000;

/// An exact rational in `[0, 1]`: `num / den` with `num <= den` and `den >= 1`.
///
/// Pairwise similarities and p-values are carried in this form so that no
/// rounding happens before a caller asks for a fixed-point score.
#[derive(Clone, Copy, Debug, PartialEq, Eq, Structural)]
pub struct Ratio {
    pub num: u64,
    pub den: u64,
}

impl Ratio {
    /// The value is well formed: a rational in the unit interval.
    pub open spec fn wf(self) -> bool {
        1 <= self.den && self.num <= self.den
    }

    /// The rational `1/1`.
    pub fn one() -> (r: Ratio)
        ensures
            r.num == 1,
            r.den == 1,
            r.wf(),
    {
        Ratio { num: 1, den: 1 }
    }

    /// The rational `0/1`.
    pub fn zero() -> (r: Ratio)
        ensures
            r.num == 0,
            r.den == 1,
            r.wf(),
    {
        Ratio { num: 0, den: 1 }
    }

    /// The fixed-point value of `num / den`, rounded down: `num * SIM_SCALE / den`.
    pub open spec fn scaled_spec(self) -> int {
        (self.num * SIM_SCALE) / (self.den as int)
    }

    /// Converts the rational to fixed-point units of `SIM_SCALE`, rounding down.
    pub fn to_scaled(&self) -> (s: u64)
        requires
            self.wf(),
        ensures
            s == self.scaled_spec(),
            s <= SIM_SCALE,
    {
        let wide: u128 = (self.num as u128) * (SIM_SCALE as u128) / (self.den as u128);
        proof {
            let n = self.num as int;
            let d = self.den as int;
            let sc = SIM_SCALE as int;
            lemma_mul_inequality(n, d, sc);
            lemma_div_is_ordered(n * sc, d * sc, d);
            lemma_div_multiples_vanish(sc, d);
            assert(d * sc == sc * d) by (nonlinear_arith);
            assert(n * sc / d <= sc);
        }
        wide as u64
    }
}

} // verus!
