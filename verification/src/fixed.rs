//! Checked fixed-point arithmetic for accumulators, rates and thresholds.

use vstd::prelude::*;

verus! {

/// Number of fractional units in one whole token: nine decimal places.
pub const SCALE: u128 = 1_000_000_000;

/// Unsigned fixed-point number; `units` counts multiples of `1 / SCALE`.
///
/// Reward-per-token accumulators, reward tallies, exchange rates and
/// collateral thresholds are all carried in this representation.
#[derive(Clone, Copy, PartialEq, Eq, Structural, Debug)]
pub struct FixedPoint {
    pub units: u128,
}

impl FixedPoint {
    /// The zero value.
    pub fn zero() -> (r: FixedPoint)
        ensures
            r.units == 0,
    {
        FixedPoint { units: 0 }
    }

    /// The fixed-point image of a whole number.
    pub fn from_int(n: u64) -> (r: FixedPoint)
        ensures
            r.units == n * SCALE,
    {
        proof {
            assert((n as u128) * SCALE <= u128::MAX) by (nonlinear_arith)
                requires
                    n <= u64::MAX,
            ;
        }
        FixedPoint { units: (n as u128) * SCALE }
    }

    /// True exactly when the value is zero.
    pub fn is_zero(self) -> (r: bool)
        ensures
            r <==> self.units == 0,
    {
        self.units == 0
    }

    /// Checked addition: `None` when the sum would overflow.
    pub fn checked_add(self, other: FixedPoint) -> (r: Option<FixedPoint>)
        ensures
            match r {
                Some(s) => self.units + other.units <= u128::MAX
                    && s.units == self.units + other.units,
                None => self.units + other.units > u128::MAX,
            },
    {
        match self.units.checked_add(other.units) {
            Some(u) => Some(FixedPoint { units: u }),
            None => None,
        }
    }

    /// Checked subtraction: `None` when `other` exceeds `self`.
    pub fn checked_sub(self, other: FixedPoint) -> (r: Option<FixedPoint>)
        ensures
            match r {
                Some(d) => other.units <= self.units
                    && d.units == self.units - other.units,
                None => other.units > self.units,
            },
    {
        match self.units.checked_sub(other.units) {
            Some(u) => Some(FixedPoint { units: u }),
            None => None,
        }
    }

    /// The exact quotient `amount / total`, rounded down to the scale:
    /// the per-unit share of a distribution. `None` when `total` is zero or
    /// the scaled numerator overflows.
    pub fn ratio(amount: u128, total: u128) -> (r: Option<FixedPoint>)
        ensures
            match r {
                Some(f) => total != 0 && amount * SCALE <= u128::MAX
                    && f.units == amount * SCALE / (total as int),
                None => total == 0 || amount * SCALE > u128::MAX,
            },
    {
        if total == 0 {
            return None;
        }
        match amount.checked_mul(SCALE) {
            Some(scaled) => Some(FixedPoint { units: scaled / total }),
            None => None,
        }
    }

    /// `amount * self`, rounded down to a whole balance. `None` when the
    /// intermediate product overflows.
    pub fn mul_floor(self, amount: u128) -> (r: Option<u128>)
        ensures
            match r {
                Some(v) => amount * self.units <= u128::MAX
                    && v == amount * self.units / (SCALE as int),
                None => amount * self.units > u128::MAX,
            },
    {
        match amount.checked_mul(self.units) {
            Some(p) => Some(p / SCALE),
            None => None,
        }
    }

    /// `amount / self`, rounded down to a whole balance. `None` when `self`
    /// is zero or the scaled numerator overflows.
    pub fn div_floor(self, amount: u128) -> (r: Option<u128>)
        ensures
            match r {
                Some(v) => self.units != 0 && amount * SCALE <= u128::MAX
                    && v == amount * SCALE / (self.units as int),
                None => self.units == 0 || amount * SCALE > u128::MAX,
            },
    {
        if self.units == 0 {
            return None;
        }
        match amount.checked_mul(SCALE) {
            Some(scaled) => Some(scaled / self.units),
            None => None,
        }
    }
}

} // verus!
