//! Fixed-point decimals with eighteen fractional digits, truncating on every
//! multiplication and division.
use vstd::arithmetic::div_mod::{lemma_fundamental_div_mod, lemma_hoist_over_denominator, lemma_div_is_ordered};
use vstd::prelude::*;

verus! {

/// Number of atoms in one whole unit.
pub const DECIMAL_FRACTIONAL: u128 = 1_000_000_000_000_000_000;

/// A non-negative decimal held as a count of 10^-18 atoms.
#[derive(Clone, Copy, Debug, PartialEq, Eq, Structural)]
pub struct Decimal {
    pub atoms: u128,
}

/// `a * b / c`, rounded towards zero.
pub open spec fn mul_div(a: int, b: int, c: int) -> int {
    a * b / c
}

/// `a * b / c` where the product fits in 128 bits; `None` where it does not.
pub fn checked_mul_div(a: u128, b: u128, c: u128) -> (r: Option<u128>)
    requires
        c > 0,
    ensures
        a * b <= u128::MAX ==> r == Some(mul_div(a as int, b as int, c as int) as u128),
        a * b > u128::MAX ==> r is None,
{
    match a.checked_mul(b) {
        Some(p) => {
            proof {
                assert(p / c <= p) by (nonlinear_arith)
                    requires c > 0, p >= 0;
            }
            Some(p / c)
        },
        None => None,
    }
}

/// `x * keep / 10^18`, rounded towards zero, for a fraction `keep <= 1`: the
/// value is taken apart into whole units and atoms first, so no intermediate
/// product leaves 128 bits.
pub fn mul_fraction(x: u128, keep: u128) -> (r: u128)
    requires
        keep <= DECIMAL_FRACTIONAL,
    ensures
        r == mul_div(x as int, keep as int, DECIMAL_FRACTIONAL as int),
        r <= x,
{
    let q = x / DECIMAL_FRACTIONAL;
    let rem = x % DECIMAL_FRACTIONAL;
    proof {
        let f = DECIMAL_FRACTIONAL as int;
        lemma_fundamental_div_mod(x as int, f);
        assert(q * keep <= q * f) by (nonlinear_arith)
            requires keep <= f, q >= 0;
        assert(q * f <= x) by (nonlinear_arith)
            requires x == f * q + rem, rem >= 0;
        assert(rem * keep <= rem * f) by (nonlinear_arith)
            requires keep <= f, rem >= 0;
        assert(rem * f < f * f) by (nonlinear_arith)
            requires rem < f, f > 0;
        assert(x * keep == rem * keep + (q * keep) * f) by (nonlinear_arith)
            requires x == f * q + rem;
        lemma_hoist_over_denominator(rem * keep, q * keep, f as nat);
        assert((rem * keep) / f <= rem) by (nonlinear_arith)
            requires rem * keep <= rem * f, f > 0, rem >= 0;
        lemma_div_is_ordered(x * keep, x * f, f);
        assert(x * keep <= x * f) by (nonlinear_arith)
            requires keep <= f, x >= 0;
        assert((x * f) / f == x) by (nonlinear_arith)
            requires f > 0;
    }
    q * keep + rem * keep / DECIMAL_FRACTIONAL
}

impl Decimal {
    pub fn zero() -> (r: Decimal)
        ensures
            r.atoms == 0,
    {
        Decimal { atoms: 0 }
    }

    pub fn one() -> (r: Decimal)
        ensures
            r.atoms == DECIMAL_FRACTIONAL,
    {
        Decimal { atoms: DECIMAL_FRACTIONAL }
    }

    /// `x` percent, that is `x / 100`.
    pub fn percent(x: u64) -> (r: Decimal)
        ensures
            r.atoms == x * (DECIMAL_FRACTIONAL / 100),
    {
        assert(x * 10_000_000_000_000_000u128 <= u128::MAX) by (nonlinear_arith)
            requires x <= u64::MAX;
        Decimal { atoms: x as u128 * 10_000_000_000_000_000u128 }
    }

    /// `numerator / denominator`, truncated to eighteen digits; `None` where
    /// the scaled numerator does not fit in 128 bits.
    pub fn from_ratio(numerator: u128, denominator: u128) -> (r: Option<Decimal>)
        requires
            denominator > 0,
        ensures
            numerator * DECIMAL_FRACTIONAL <= u128::MAX ==> r == Some(
                Decimal {
                    atoms: mul_div(numerator as int, DECIMAL_FRACTIONAL as int, denominator as int) as u128,
                },
            ),
            numerator * DECIMAL_FRACTIONAL > u128::MAX ==> r is None,
    {
        match checked_mul_div(numerator, DECIMAL_FRACTIONAL, denominator) {
            Some(a) => Some(Decimal { atoms: a }),
            None => None,
        }
    }

    /// `self * other`, truncated; `None` where the product of the atoms does
    /// not fit in 128 bits.
    pub fn checked_mul(self, other: Decimal) -> (r: Option<Decimal>)
        ensures
            self.atoms * other.atoms <= u128::MAX ==> r == Some(
                Decimal {
                    atoms: mul_div(self.atoms as int, other.atoms as int, DECIMAL_FRACTIONAL as int) as u128,
                },
            ),
            self.atoms * other.atoms > u128::MAX ==> r is None,
    {
        match checked_mul_div(self.atoms, other.atoms, DECIMAL_FRACTIONAL) {
            Some(a) => Some(Decimal { atoms: a }),
            None => None,
        }
    }
}

} // verus!
