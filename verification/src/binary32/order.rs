//! Comparison: the order of the numbers, in which both zeros are equal and a
//! NaN is unordered.

use vstd::prelude::*;

use crate::binary32::arith;
use crate::binary32::pattern;
use crate::binary32::pattern::{Binary32, INFINITE};

verus! {

impl Binary32 {
    /// The number with the given bit pattern.
    pub open spec fn of_bits_spec(bits: u32) -> Binary32 {
        Binary32 { bits }
    }

    #[verifier::when_used_as_spec(of_bits_spec)]
    pub fn of_bits(bits: u32) -> (r: Binary32)
        ensures
            r == Binary32::of_bits_spec(bits),
    {
        Binary32 { bits }
    }

    pub open spec fn zero_spec() -> Binary32 {
        Binary32 { bits: 0 }
    }

    /// 0.
    #[verifier::when_used_as_spec(zero_spec)]
    pub fn zero() -> (r: Binary32)
        ensures
            r == Binary32::zero_spec(),
    {
        Binary32 { bits: 0 }
    }

    pub open spec fn one_spec() -> Binary32 {
        Binary32 { bits: 0x3f80_0000 }
    }

    /// 1.
    #[verifier::when_used_as_spec(one_spec)]
    pub fn one() -> (r: Binary32)
        ensures
            r == Binary32::one_spec(),
    {
        Binary32 { bits: 0x3f80_0000 }
    }

    pub open spec fn half_spec() -> Binary32 {
        Binary32 { bits: 0x3f00_0000 }
    }

    /// One half.
    #[verifier::when_used_as_spec(half_spec)]
    pub fn half() -> (r: Binary32)
        ensures
            r == Binary32::half_spec(),
    {
        Binary32 { bits: 0x3f00_0000 }
    }

    pub open spec fn two_spec() -> Binary32 {
        Binary32 { bits: 0x4000_0000 }
    }

    /// 2.
    #[verifier::when_used_as_spec(two_spec)]
    pub fn two() -> (r: Binary32)
        ensures
            r == Binary32::two_spec(),
    {
        Binary32 { bits: 0x4000_0000 }
    }

    pub fn is_nan(self) -> (r: bool)
        ensures
            r == self.is_nan_spec(),
    {
        self.unsigned() > INFINITE
    }

    pub open spec fn lt_spec(self, other: Binary32) -> bool {
        !self.is_nan_spec() && !other.is_nan_spec() && self.rank() < other.rank()
    }

    #[verifier::when_used_as_spec(lt_spec)]
    pub fn lt(self, other: Binary32) -> (r: bool)
        ensures
            r == self.lt_spec(other),
    {
        let a: u32 = self.unsigned();
        let b: u32 = other.unsigned();
        if a > INFINITE || b > INFINITE {
            false
        } else if self.signum() {
            if other.signum() {
                a > b
            } else {
                a > 0 || b > 0
            }
        } else {
            !other.signum() && a < b
        }
    }

    pub open spec fn le_spec(self, other: Binary32) -> bool {
        !self.is_nan_spec() && !other.is_nan_spec() && self.rank() <= other.rank()
    }

    #[verifier::when_used_as_spec(le_spec)]
    pub fn le(self, other: Binary32) -> (r: bool)
        ensures
            r == self.le_spec(other),
    {
        !self.is_nan() && !other.is_nan() && !other.lt(self)
    }

    pub open spec fn gt_spec(self, other: Binary32) -> bool {
        other.lt_spec(self)
    }

    #[verifier::when_used_as_spec(gt_spec)]
    pub fn gt(self, other: Binary32) -> (r: bool)
        ensures
            r == self.gt_spec(other),
    {
        other.lt(self)
    }

    pub open spec fn ge_spec(self, other: Binary32) -> bool {
        other.le_spec(self)
    }

    #[verifier::when_used_as_spec(ge_spec)]
    pub fn ge(self, other: Binary32) -> (r: bool)
        ensures
            r == self.ge_spec(other),
    {
        other.le(self)
    }

    /// Numeric equality: the zeros are equal, a NaN equals nothing.
    pub open spec fn same_spec(self, other: Binary32) -> bool {
        self.le_spec(other) && other.le_spec(self)
    }

    #[verifier::when_used_as_spec(same_spec)]
    pub fn same(self, other: Binary32) -> (r: bool)
        ensures
            r == self.same_spec(other),
    {
        self.le(other) && other.le(self)
    }

    /// The smaller number; a NaN gives way to the other one.
    pub open spec fn min_spec(self, other: Binary32) -> Binary32 {
        if self.is_nan_spec() || other.lt_spec(self) {
            other
        } else {
            self
        }
    }

    #[verifier::when_used_as_spec(min_spec)]
    pub fn min(self, other: Binary32) -> (r: Binary32)
        ensures
            r == self.min_spec(other),
    {
        if self.is_nan() || other.lt(self) {
            other
        } else {
            self
        }
    }

    /// The larger number; a NaN gives way to the other one.
    pub open spec fn max_spec(self, other: Binary32) -> Binary32 {
        if self.is_nan_spec() || self.lt_spec(other) {
            other
        } else {
            self
        }
    }

    #[verifier::when_used_as_spec(max_spec)]
    pub fn max(self, other: Binary32) -> (r: Binary32)
        ensures
            r == self.max_spec(other),
    {
        if self.is_nan() || self.lt(other) {
            other
        } else {
            self
        }
    }

    /// The number held between two bounds; a NaN stays.
    pub open spec fn clamp_spec(self, low: Binary32, high: Binary32) -> Binary32 {
        if self.lt_spec(low) {
            low
        } else if high.lt_spec(self) {
            high
        } else {
            self
        }
    }

    #[verifier::when_used_as_spec(clamp_spec)]
    pub fn clamp(self, low: Binary32, high: Binary32) -> (r: Binary32)
        requires
            low.le_spec(high),
        ensures
            r == self.clamp_spec(low, high),
    {
        if self.lt(low) {
            low
        } else if high.lt(self) {
            high
        } else {
            self
        }
    }

    /// The number without its sign.
    pub open spec fn abs_spec(self) -> Binary32 {
        pattern::signed(false, self.magnitude())
    }

    #[verifier::when_used_as_spec(abs_spec)]
    pub fn abs(self) -> (r: Binary32)
        ensures
            r == self.abs_spec(),
    {
        arith::with_sign(false, self.unsigned())
    }
}

/// On finite numbers the order is that of the values.
pub proof fn lemma_order_of_values(a: Binary32, b: Binary32)
    requires
        a.is_finite_spec(),
        b.is_finite_spec(),
    ensures
        a.lt_spec(b) <==> a.value() < b.value(),
        a.le_spec(b) <==> a.value() <= b.value(),
{
    let x = a.magnitude();
    let y = b.magnitude();
    arith::lemma_zero_magnitude(x);
    arith::lemma_zero_magnitude(y);
    if x < y {
        pattern::lemma_units_increase(x, y);
    } else if y < x {
        pattern::lemma_units_increase(y, x);
    }
}

} // verus!
