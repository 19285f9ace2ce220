//! Holding a place within reach of another.

use vstd::prelude::*;

use crate::binary32::arith;
use crate::binary32::exact;
use crate::binary32::order;
use crate::binary32::pattern;
use crate::binary32::pattern::INFINITE;
use crate::binary32::Binary32;

verus! {

/// The next number below.
pub open spec fn below(x: Binary32) -> Binary32 {
    if x.magnitude() == 0 {
        Binary32::of_bits(0x8000_0001)
    } else if x.is_negative() {
        Binary32::of_bits((x.bits + 1) as u32)
    } else {
        Binary32::of_bits((x.bits - 1) as u32)
    }
}

/// How far up from `c` the reach `r` goes: their sum, or the next number below
/// where rounding has carried the sum too far.
pub open spec fn farthest(c: Binary32, r: Binary32) -> Binary32 {
    let end = c.plus(r);
    if end.minus(c).le(r) {
        end
    } else {
        below(end)
    }
}

/// How far up from `c` the reach `r` goes.
fn end_of_reach(c: Binary32, r: Binary32) -> (e: Binary32)
    requires
        c.is_finite_spec(),
        r.is_finite_spec(),
        r.ge(Binary32::zero()),
    ensures
        e == farthest(c, r),
{
    let end: Binary32 = c.plus(r);
    if end.minus(c).le(r) {
        return end;
    }
    proof {
        exact::lemma_plus_keeps_order(c, r, c);
    }
    if end.bits == 0 || end.bits == 0x8000_0000 {
        Binary32::of_bits(0x8000_0001)
    } else if end.bits > 0x8000_0000 {
        Binary32::of_bits(end.bits + 1)
    } else {
        Binary32::of_bits(end.bits - 1)
    }
}

/// The place `x`, or the end of the reach `r` around `c` where `x` is farther;
/// what is no number stays at `c`. A reach below zero, or around no finite
/// place, holds nothing.
pub open spec fn held(x: Binary32, c: Binary32, r: Binary32) -> Binary32 {
    if !r.ge(Binary32::zero()) || !c.is_finite_spec() || x.minus(c).abs().le(r) {
        x
    } else if x.gt(c) {
        farthest(c, r)
    } else if x.lt(c) {
        farthest(c.negated(), r).negated()
    } else {
        c
    }
}

/// The place `x`, held within the reach `r` of `c`.
pub fn hold(x: Binary32, c: Binary32, r: Binary32) -> (h: Binary32)
    ensures
        h == held(x, c, r),
{
    if !r.ge(Binary32::zero()) || !c.abs().lt(Binary32::of_bits(INFINITE)) || x.minus(
        c,
    ).abs().le(r) {
        return x;
    }
    proof {
        reveal(Binary32::plus_spec);
        exact::lemma_negated(c);
        if r.is_infinite_spec() && !x.is_nan_spec() && x.is_finite_spec() {
            exact::lemma_plus_keeps_order(x, c.negated(), x);
        }
    }
    if x.gt(c) {
        end_of_reach(c, r)
    } else if x.lt(c) {
        end_of_reach(c.negated(), r).negated()
    } else {
        c
    }
}

/// The end of a reach is within reach.
proof fn lemma_farthest(c: Binary32, r: Binary32)
    requires
        c.is_finite_spec(),
        r.is_finite_spec(),
        r.ge(Binary32::zero()),
    ensures
        farthest(c, r).is_finite_spec(),
        farthest(c, r).minus(c).abs().le(r),
{
    let zero = Binary32::zero();
    let s = c.plus(r);
    let sum = c.value() + r.value();
    assert(zero.value() == 0);
    order::lemma_order_of_values(zero, r);
    exact::lemma_negated(c);
    exact::lemma_plus_keeps_order(c, r, c);
    let y = farthest(c, r);
    if s.minus(c).le(r) {
        if s.is_infinite_spec() {
            reveal(Binary32::plus_spec);
        }
        order::lemma_order_of_values(c, s);
        exact::lemma_plus_keeps_order(s, c.negated(), zero);
    } else {
        if s.is_finite_spec() {
            exact::lemma_plus_keeps_order(s, c.negated(), r);
            assert(s.value() > sum);
            order::lemma_order_of_values(c, s);
        }
        assert(s.rank() > c.rank());
        lemma_below_sum(c, r);
        assert(y.rank() == s.rank() - 1);
        order::lemma_order_of_values(c, y);
        exact::lemma_plus_keeps_order(y, c.negated(), r);
        exact::lemma_plus_keeps_order(y, c.negated(), zero);
    }
}

/// Where rounding has carried a sum too far, the next number below is not past
/// it.
proof fn lemma_below_sum(c: Binary32, r: Binary32)
    requires
        c.is_finite_spec(),
        r.is_finite_spec(),
        c.plus(r).is_infinite_spec() || c.plus(r).value() > c.value() + r.value(),
        c.plus(r).rank() > c.rank(),
    ensures
        below(c.plus(r)).is_finite_spec(),
        below(c.plus(r)).rank() == c.plus(r).rank() - 1,
        below(c.plus(r)).value() <= c.value() + r.value(),
{
    reveal(Binary32::plus_spec);
    let s = c.plus(r);
    let sum = c.value() + r.value();
    let y = below(s);
    assert(pattern::units(0) == 0);
    if sum > 0 {
        let q = pattern::nearest(sum, 1);
        exact::lemma_nearest_total(sum, 1);
        arith::lemma_zero_magnitude(q);
        assert(s.magnitude() == q);
        pattern::lemma_units_step(q - 1);
        assert(pattern::units(q - 1) <= sum);
    } else if sum < 0 {
        let q = pattern::nearest(-sum, 1);
        exact::lemma_nearest_total(-sum, 1);
        assert(s.magnitude() == q);
        if q == 0 {
            pattern::lemma_units_step(0);
            assert(pattern::units(1) == 1);
        }
        pattern::lemma_units_step(q);
    }
}

/// Two numbers are as far apart as their negatives.
proof fn lemma_mirrored(y: Binary32, c: Binary32)
    requires
        y.is_finite_spec(),
        c.is_finite_spec(),
    ensures
        y.negated().minus(c).abs() == y.plus(c).abs(),
{
    reveal(Binary32::plus_spec);
    exact::lemma_negated(y);
    exact::lemma_negated(c);
    let sum = y.value() + c.value();
    if sum > 0 {
        exact::lemma_nearest_total(sum, 1);
    } else if sum < 0 {
        exact::lemma_nearest_total(-sum, 1);
    }
}

/// A place that is held is within reach.
pub proof fn lemma_held(x: Binary32, c: Binary32, r: Binary32)
    requires
        c.is_finite_spec(),
        r.ge(Binary32::zero()),
    ensures
        held(x, c, r).minus(c).abs().le(r),
{
    reveal(Binary32::plus_spec);
    exact::lemma_negated(c);
    exact::lemma_difference_of_equals(c);
    if !x.minus(c).abs().le(r) {
        if x.is_finite_spec() {
            exact::lemma_plus_keeps_order(x, c.negated(), x);
        }
        if x.gt(c) {
            assert(r.is_finite_spec());
            lemma_farthest(c, r);
        } else if x.lt(c) {
            assert(r.is_finite_spec());
            lemma_farthest(c.negated(), r);
            let y = farthest(c.negated(), r);
            assert(c.negated().negated() == c);
            lemma_mirrored(y, c);
        }
    }
}

/// A place no farther from `c` than the reach stays where it is.
pub proof fn a_place_within_reach_stays(x: Binary32, c: Binary32, r: Binary32)
    requires
        x.is_finite_spec(),
        c.is_finite_spec(),
        r.is_finite_spec(),
        -r.value() <= x.value() - c.value() <= r.value(),
    ensures
        held(x, c, r) == x,
{
    let d = x.minus(c);
    exact::lemma_negated(c);
    exact::lemma_negated(r);
    exact::lemma_plus_keeps_order(x, c.negated(), r);
    exact::lemma_plus_keeps_order(x, c.negated(), r.negated());
    assert(Binary32::zero().value() == 0);
    order::lemma_order_of_values(Binary32::zero(), r);
}

/// A place farther from `c` than the reach is moved towards `c`, to the last
/// number that is not past the end of the reach on the side on which it lies.
pub proof fn a_place_beyond_is_moved_to_the_end_of_the_reach(
    x: Binary32,
    c: Binary32,
    r: Binary32,
    y: Binary32,
)
    requires
        c.is_finite_spec(),
        r.is_finite_spec(),
        r.ge(Binary32::zero()),
        !x.is_nan_spec(),
        held(x, c, r) != x,
        y.is_finite_spec(),
    ensures
        held(x, c, r).is_finite_spec(),
        x.gt(c) ==> c.le(held(x, c, r)) && held(x, c, r).le(x) && (y.gt(held(x, c, r))
            ==> y.value() >= c.value() + r.value()),
        !x.gt(c) ==> x.lt(c) && c.ge(held(x, c, r)) && held(x, c, r).ge(x) && (y.lt(held(x, c, r))
            ==> y.value() <= c.value() - r.value()),
{
    let zero = Binary32::zero();
    assert(zero.value() == 0);
    order::lemma_order_of_values(zero, r);
    exact::lemma_negated(c);
    exact::lemma_negated(x);
    exact::lemma_negated(y);
    exact::lemma_difference_of_equals(c);
    if x.gt(c) {
        lemma_farthest(c, r);
        if y.gt(farthest(c, r)) {
            lemma_end_is_last(c, r, y);
        }
        lemma_end_is_not_past(x, c, r);
    } else if x.lt(c) {
        lemma_farthest(c.negated(), r);
        if y.negated().gt(farthest(c.negated(), r)) {
            lemma_end_is_last(c.negated(), r, y.negated());
        }
        assert(x.minus(c).abs() == x.negated().plus(c).abs()) by {
            lemma_mirrored_difference(x, c);
        }
        lemma_end_is_not_past(x.negated(), c.negated(), r);
        exact::lemma_negated(farthest(c.negated(), r));
    } else {
        assert(x.rank() == c.rank());
        assert(x.is_finite_spec());
        order::lemma_order_of_values(x, c);
        order::lemma_order_of_values(c, x);
        reveal(Binary32::plus_spec);
        assert(x.minus(c).abs().magnitude() == 0);
        assert(false);
    }
}

/// A difference and that of the negatives are of the same size.
pub proof fn lemma_mirrored_difference(x: Binary32, c: Binary32)
    requires
        !x.is_nan_spec(),
        c.is_finite_spec(),
    ensures
        x.minus(c).abs() == x.negated().minus(c.negated()).abs(),
        c.negated().negated() == c,
{
    reveal(Binary32::plus_spec);
    exact::lemma_negated(x);
    exact::lemma_negated(c);
    assert(c.negated().negated() == c);
    if x.is_finite_spec() {
        let sum = x.value() - c.value();
        if sum > 0 {
            exact::lemma_nearest_total(sum, 1);
        } else if sum < 0 {
            exact::lemma_nearest_total(-sum, 1);
        }
    }
}

/// What lies past the end of a reach is not within reach.
proof fn lemma_end_is_last(c: Binary32, r: Binary32, y: Binary32)
    requires
        c.is_finite_spec(),
        r.is_finite_spec(),
        r.ge(Binary32::zero()),
        y.is_finite_spec(),
        y.gt(farthest(c, r)),
    ensures
        y.value() >= c.value() + r.value(),
{
    let s = c.plus(r);
    let sum = c.value() + r.value();
    if sum > y.value() {
        // Then the sum rounds to no less than `y`.
        exact::lemma_plus_keeps_order(c, r, y);
        assert(s.ge(y));
        if s.minus(c).le(r) {
            assert(false);
        } else {
            assert(Binary32::zero().value() == 0);
            order::lemma_order_of_values(Binary32::zero(), r);
            exact::lemma_negated(c);
            exact::lemma_plus_keeps_order(c, r, c);
            if s.is_finite_spec() {
                exact::lemma_plus_keeps_order(s, c.negated(), r);
                order::lemma_order_of_values(y, s);
                order::lemma_order_of_values(c, s);
                assert(s.value() > sum);
            }
            lemma_below_sum(c, r);
            assert(below(s).rank() == s.rank() - 1);
            assert(y.rank() == s.rank());
            if s.is_finite_spec() {
                order::lemma_order_of_values(s, y);
            }
            assert(false);
        }
    }
}

/// A place beyond reach is not short of the end of the reach.
proof fn lemma_end_is_not_past(x: Binary32, c: Binary32, r: Binary32)
    requires
        !x.is_nan_spec(),
        c.is_finite_spec(),
        r.is_finite_spec(),
        r.ge(Binary32::zero()),
        x.gt(c),
        !x.minus(c).abs().le(r),
    ensures
        farthest(c, r).le(x),
        c.le(farthest(c, r)),
{
    let zero = Binary32::zero();
    assert(zero.value() == 0);
    order::lemma_order_of_values(zero, r);
    lemma_farthest(c, r);
    let y = farthest(c, r);
    let s = c.plus(r);
    exact::lemma_plus_keeps_order(c, r, c);
    exact::lemma_negated(c);
    if s.minus(c).le(r) {
        if s.is_finite_spec() {
            order::lemma_order_of_values(c, s);
        }
    } else {
        if s.is_finite_spec() {
            exact::lemma_plus_keeps_order(s, c.negated(), r);
            order::lemma_order_of_values(c, s);
        }
        assert(s.rank() > c.rank());
        lemma_below_sum(c, r);
    }
    assert(c.le(y));
    if x.is_finite_spec() && x.lt(y) {
        order::lemma_order_of_values(x, y);
        order::lemma_order_of_values(c, x);
        // Then `x` is within reach too.
        exact::lemma_negated(c);
        let dx = x.minus(c);
        let dy = y.minus(c);
        exact::lemma_plus_keeps_order(x, c.negated(), zero);
        exact::lemma_plus_keeps_order(y, c.negated(), zero);
        reveal(Binary32::plus_spec);
        let a = x.value() - c.value();
        let b = y.value() - c.value();
        exact::lemma_nearest_total(a, 1);
        exact::lemma_nearest_total(b, 1);
        exact::lemma_nearest_monotone(a, b, 1);
        assert(dx.abs().le(dy.abs()));
        assert(false);
    }
}

} // verus!
