//! Which scale locating finds, and which one is in use.

use vstd::arithmetic::power2::*;
use vstd::prelude::*;

use crate::binary32::arith;
use crate::binary32::convert;
use crate::binary32::exact;
use crate::binary32::order;
use crate::binary32::pattern;
use crate::binary32::Binary32;
use crate::locator::{
    Found, MapLocator, WorldPos, NUDGE_DOWN, NUDGE_UP, SCALE_MIN, SPREAD_MAX,
};
use crate::pixels::Shades;

verus! {

/// Without a spread of scales, locating tries the one scale at every step.
pub proof fn without_a_spread_there_is_one_scale(l: &MapLocator, i: int)
    requires
        l.matching.scale_search.le(Binary32::zero()),
        l.matching.scale.is_finite_spec(),
        0 <= i < l.steps(),
    ensures
        l.has_one_scale(),
        l.scales().0 == l.scales().1,
        l.steps() == 1 ==> l.scale_at(i) == l.matching.scale,
        l.steps() > 1 ==> l.scale_at(i) == l.matching.scale.max(Binary32::of_bits(SCALE_MIN)),
{
    let s = l.matching.scale.max(Binary32::of_bits(SCALE_MIN));
    let t = l.matching.scale_search.clamp(Binary32::zero(), Binary32::of_bits(SPREAD_MAX));
    assert(t.le(Binary32::zero()));
    if l.steps() > 1 {
        let n = l.steps() - 1;
        let none = s.minus(s);
        exact::lemma_difference_of_equals(s);
        exact::lemma_of_u32(i);
        exact::lemma_of_u32(n);
        exact::lemma_zero_times(none, convert::of_int(i));
        let still = none.times(convert::of_int(i));
        exact::lemma_zero_over(still, convert::of_int(n));
        exact::lemma_plus_zero(s, still.over(convert::of_int(n)));
    }
}

/// What is found on the reduced map is found at a scale of one of the steps.
proof fn lemma_found_at_a_step(l: &MapLocator, mm: Shades, n: int) -> (i: int)
    requires
        0 <= n <= l.steps(),
        l.coarse_best(mm, n) is Some,
    ensures
        0 <= i < n,
        l.coarse_best(mm, n)->Some_0.1 == l.scale_at(i),
    decreases n,
{
    if l.coarse_best(mm, n) == l.coarse_hit(mm, n - 1) {
        n - 1
    } else {
        lemma_found_at_a_step(l, mm, n - 1)
    }
}

/// With no spread of scales, the scale that locating finds is the guess.
pub proof fn without_a_spread_the_guess_is_found(
    before: &MapLocator,
    after: &MapLocator,
    mm: Shades,
    r: Option<WorldPos>,
)
    requires
        before.located_as(after, mm, r),
        before.matching.scale_search.le(Binary32::zero()),
        before.matching.scale.is_finite_spec(),
        before.matching.scale.ge(Binary32::of_bits(SCALE_MIN)),
        r is Some,
    ensures
        r->0.scale == before.matching.scale,
        after.locked_scale == before.matching.scale,
        after.hint() == before.matching.scale,
{
    let scale = before.matching.scale;
    let i = lemma_found_at_a_step(before, mm, before.steps());
    without_a_spread_there_is_one_scale(before, i);
    let near = before.coarse_best(mm, before.steps())->0;
    assert(near.1 == scale);
    exact::lemma_plus_zero(Binary32::one(), Binary32::zero());
    exact::lemma_one_times(scale);
}

/// The guess is positive and, where several scales are tried, it and the spread
/// span finite numbers.
pub open spec fn spans_numbers(l: &MapLocator) -> bool {
    &&& l.matching.scale.gt(Binary32::zero())
    &&& l.steps() > 1 ==> {
        &&& l.matching.scale.is_finite_spec()
        &&& !l.matching.scale_search.is_nan_spec()
        &&& l.scales().1.is_finite_spec()
    }
}

/// The product of two numbers that are not below zero is not below zero.
proof fn lemma_product_not_below_zero(a: Binary32, b: Binary32)
    requires
        a.is_finite_spec(),
        b.is_finite_spec(),
        a.ge(Binary32::zero()),
        b.ge(Binary32::zero()),
    ensures
        a.times(b).ge(Binary32::zero()),
{
    reveal(Binary32::times_spec);
    lemma_pow2_pos(149);
    let ua = pattern::units(a.magnitude());
    let ub = pattern::units(b.magnitude());
    arith::lemma_zero_magnitude(a.magnitude());
    arith::lemma_zero_magnitude(b.magnitude());
    assert(0 <= ua * ub && (ua == 0 || ub == 0 ==> ua * ub == 0)) by (nonlinear_arith)
        requires
            ua >= 0,
            ub >= 0,
    ;
    exact::lemma_nearest_total(ua * ub, pow2(149) as int);
    if ua * ub == 0 {
        assert(pattern::units(0) == 0);
        assert(0 * pow2(149) == 0) by (nonlinear_arith);
        pattern::lemma_nearest_exact(0, pow2(149) as int);
    }
}

/// The quotient of a number that is not below zero by a positive one is not
/// below zero.
proof fn lemma_quotient_not_below_zero(a: Binary32, b: Binary32)
    requires
        a.ge(Binary32::zero()),
        b.is_finite_spec(),
        b.gt(Binary32::zero()),
    ensures
        a.over(b).ge(Binary32::zero()),
{
    if a.is_infinite_spec() {
        reveal(Binary32::over_spec);
    } else if a.magnitude() == 0 {
        exact::lemma_zero_over(a, b);
    } else {
        exact::lemma_quotient_not_negative(a, b);
    }
}

/// Less than nine tenths off leaves at least a sixteenth.
proof fn lemma_rest(t: Binary32)
    requires
        t.gt(Binary32::zero()),
        t.le(Binary32::of_bits(SPREAD_MAX)),
    ensures
        Binary32::one().minus(t).is_finite_spec(),
        Binary32::one().minus(t).ge(Binary32::of_bits(0x3d80_0000)),
        Binary32::one().minus(t).le(Binary32::one()),
        Binary32::one().plus(t).is_finite_spec(),
        Binary32::one().plus(t).ge(Binary32::one()),
{
    let one = Binary32::one();
    let least = Binary32::of_bits(0x3d80_0000);
    let most = Binary32::of_bits(SPREAD_MAX);
    exact::lemma_one_and_half();
    exact::lemma_negated(t);
    lemma2_to64();
    lemma_pow2_adds(24, 125);
    lemma_pow2_adds(20, 125);
    lemma_pow2_adds(23, 122);
    lemma_pow2_pos(125);
    assert(pattern::units(SPREAD_MAX as int) == 0xe6_6666 * pow2(125));
    assert(least.value() == pow2(145));
    order::lemma_order_of_values(t, most);
    order::lemma_order_of_values(Binary32::zero(), t);
    assert(Binary32::zero().value() == 0);
    exact::lemma_plus_keeps_order(one, t.negated(), least);
    exact::lemma_plus_keeps_order(one, t.negated(), one);
    exact::lemma_plus_keeps_order(one, t, one);
    lemma_pow2_unfold(150);
    lemma_pow2_adds(23, 127);
    exact::lemma_plus_keeps_order(one, t, Binary32::two());
}

/// A positive guess makes every step's scale positive.
proof fn lemma_steps_are_positive(l: &MapLocator, i: int)
    requires
        spans_numbers(l),
        0 <= i < l.steps(),
    ensures
        l.scale_at(i).gt(Binary32::zero()),
{
    let zero = Binary32::zero();
    let s = l.matching.scale.max(Binary32::of_bits(SCALE_MIN));
    let t = l.matching.scale_search.clamp(zero, Binary32::of_bits(SPREAD_MAX));
    let range = l.scales();
    let lo = range.0;
    let hi = range.1;
    if l.steps() > 1 {
        let n = l.steps() - 1;
        exact::lemma_of_u32(i);
        exact::lemma_of_u32(n);
        assert(zero.value() == 0);
        if t.gt(zero) {
            let a = Binary32::one().minus(t);
            let b = Binary32::one().plus(t);
            lemma_rest(t);
            lemma_product_is_positive(s, a);
            if a.magnitude() < b.magnitude() {
                exact::lemma_times_keeps_order(s, a, b);
            }
        }
        assert(lo.gt(zero) && lo.le(hi) && hi.is_finite_spec());
        exact::lemma_negated(lo);
        order::lemma_order_of_values(lo, hi);
        order::lemma_order_of_values(zero, lo);
        exact::lemma_plus_keeps_order(hi, lo.negated(), zero);
        exact::lemma_plus_keeps_order(hi, lo.negated(), hi);
        let d = hi.minus(lo);
        lemma_product_not_below_zero(d, convert::of_int(i));
        let p = d.times(convert::of_int(i));
        lemma_quotient_not_below_zero(p, convert::of_int(n));
        let q = p.over(convert::of_int(n));
        if q.is_finite_spec() {
            order::lemma_order_of_values(zero, q);
            exact::lemma_plus_keeps_order(lo, q, lo);
        } else {
            reveal(Binary32::plus_spec);
        }
    }
}

/// A number from a tenth up, less at most fifteen sixteenths, stays positive.
proof fn lemma_product_is_positive(s: Binary32, a: Binary32)
    requires
        s.is_finite_spec(),
        a.is_finite_spec(),
        s.ge(Binary32::of_bits(SCALE_MIN)),
        a.ge(Binary32::of_bits(0x3d80_0000)),
    ensures
        s.times(a).gt(Binary32::zero()),
{
    reveal(Binary32::times_spec);
    let one = pow2(149) as int;
    let us = pattern::units(s.magnitude());
    let ua = pattern::units(a.magnitude());
    lemma2_to64();
    lemma_pow2_adds(23, 122);
    lemma_pow2_pos(149);
    lemma_pow2_adds(145, 4);
    let least = 0x3d80_0000int;
    assert(pattern::units(least) == pow2(145));
    pattern::lemma_units_increase(least, s.magnitude());
    if least < a.magnitude() {
        pattern::lemma_units_increase(least, a.magnitude());
    }
    lemma_pow2_pos(145);
    lemma_pow2_unfold(145);
    assert(us * ua >= one) by (nonlinear_arith)
        requires
            us >= pow2(145),
            ua >= pow2(145),
            pow2(145) >= 16,
            one == pow2(145) * 16,
    ;
    assert(pattern::units(1) == 1);
    exact::lemma_nearest_keeps_order(us * ua, one, 1);
    exact::lemma_nearest_total(us * ua, one);
}

/// A change of three hundredths leaves a positive scale positive.
proof fn lemma_nudged_is_positive(s: Binary32, nudge: Binary32)
    requires
        s.gt(Binary32::zero()),
        nudge == Binary32::of_bits(NUDGE_DOWN) || nudge == Binary32::zero()
            || nudge == Binary32::of_bits(NUDGE_UP),
    ensures
        s.times(Binary32::one().plus(nudge)).gt(Binary32::zero()),
{
    let one = Binary32::one();
    let f = one.plus(nudge);
    let least = Binary32::of_bits(0x3f40_0000);
    let quarter = 0x3e80_0000int;
    exact::lemma_one_and_half();
    lemma2_to64();
    lemma_pow2_adds(23, 124);
    lemma_pow2_adds(22, 125);
    lemma_pow2_unfold(149);
    lemma_pow2_unfold(148);
    lemma_pow2_unfold(126);
    lemma_pow2_pos(147);
    assert(pattern::units(quarter) == pow2(147));
    assert(pow2(22) == 0x40_0000);
    assert(0x3f40_0000int / 0x80_0000 == 126 && 0x3f40_0000int % 0x80_0000 == 0x40_0000);
    assert(pattern::units(0x3f40_0000) == 0xc0_0000 * pow2(125));
    assert(least.value() == 3 * pow2(147));
    pattern::lemma_units_increase(NUDGE_UP as int, quarter);
    assert(pattern::units(0) == 0);
    exact::lemma_plus_keeps_order(one, nudge, least);
    lemma_pow2_unfold(150);
    lemma_pow2_adds(23, 127);
    exact::lemma_plus_keeps_order(one, nudge, Binary32::two());
    reveal(Binary32::times_spec);
    if s.is_finite_spec() {
        let unit = pow2(149) as int;
        let us = pattern::units(s.magnitude());
        let uf = pattern::units(f.magnitude());
        if least.magnitude() < f.magnitude() {
            pattern::lemma_units_increase(least.magnitude(), f.magnitude());
        }
        arith::lemma_zero_magnitude(s.magnitude());
        assert(us * uf >= 3 * pow2(147)) by (nonlinear_arith)
            requires
                us >= 1,
                uf >= 3 * pow2(147),
        ;
        exact::lemma_nearest_total(us * uf, unit);
        let q = pattern::nearest(us * uf, unit);
        assert(pattern::units(1) == 1);
        if q == 0 {
            assert(2 * (us * uf) <= (pattern::units(0) + pattern::units(1)) * unit);
        }
    }
}

/// A positive guess gives a positive scale, so that the scale found is the one
/// in use.
pub proof fn a_positive_guess_gives_a_positive_scale(
    before: &MapLocator,
    after: &MapLocator,
    mm: Shades,
    r: Option<WorldPos>,
)
    requires
        before.located_as(after, mm, r),
        spans_numbers(before),
        r is Some,
    ensures
        r->0.scale.gt(Binary32::zero()),
        after.hint() == r->0.scale,
{
    let i = lemma_found_at_a_step(before, mm, before.steps());
    lemma_steps_are_positive(before, i);
    let near: Found = before.coarse_best(mm, before.steps())->0;
    lemma_nudged_is_positive(near.1, Binary32::of_bits(NUDGE_DOWN));
    lemma_nudged_is_positive(near.1, Binary32::zero());
    lemma_nudged_is_positive(near.1, Binary32::of_bits(NUDGE_UP));
}

/// A scale that locating found is the one that tracking then uses, and tracking
/// keeps it.
pub proof fn tracking_keeps_the_scale_that_locating_found(
    before: &MapLocator,
    located: &MapLocator,
    later: &MapLocator,
    mm: Shades,
    found: Option<WorldPos>,
    next: Shades,
    last: (Binary32, Binary32),
    r: Option<WorldPos>,
)
    requires
        before.located_as(located, mm, found),
        located.tracked_as(later, next, last, r),
        spans_numbers(before),
        found is Some,
    ensures
        located.hint() == found->0.scale,
        later.locked_scale == found->0.scale,
        r matches Some(p) ==> p.scale == found->0.scale,
{
    a_positive_guess_gives_a_positive_scale(before, located, mm, found);
}

/// What is done with a locator that may bear on the scale in use.
pub enum Use {
    /// The scale found is given up.
    Cleared,
    /// The user has set the position.
    SetByHand,
    /// Locating has given a place, or none.
    Located(Option<WorldPos>),
    /// Tracking has given a place, or none.
    Followed(Option<WorldPos>),
}

/// `after` is what a use of `before` leaves.
pub open spec fn leaves(before: MapLocator, after: MapLocator, use_: Use) -> bool {
    &&& after.same_map(&before)
    &&& match use_ {
        Use::Cleared => after.locked_scale == Binary32::zero(),
        Use::SetByHand => after.locked_scale == before.matching.scale,
        Use::Located(r) => exists|mm: Shades| #[trigger] before.located_as(&after, mm, r),
        Use::Followed(r) => exists|mm: Shades, last: (Binary32, Binary32)| #[trigger]
            before.tracked_as(&after, mm, last, r),
    }
}

/// The scale that the last of the uses to settle one has settled; the guess
/// while none has.
pub open spec fn settled(uses: Seq<Use>, guess: Binary32) -> Binary32
    decreases uses.len(),
{
    if uses.len() == 0 {
        guess
    } else {
        match uses.last() {
            Use::Cleared => guess,
            Use::SetByHand => guess,
            Use::Located(Some(p)) => p.scale,
            _ => settled(uses.drop_last(), guess),
        }
    }
}

/// However a locator is used, the scale in use is the one last found, and the
/// guess before any is found, after it is given up, and after the user has set
/// the position. An attempt that gives no place, and tracking, change nothing.
pub proof fn the_scale_in_use_is_the_last_one_settled(ls: Seq<MapLocator>, uses: Seq<Use>)
    requires
        ls.len() == uses.len() + 1,
        ls[0].locked_scale == Binary32::zero(),
        spans_numbers(&ls[0]),
        forall|i: int| 0 <= i < uses.len() ==> leaves(ls[i], ls[i + 1], #[trigger] uses[i]),
    ensures
        ls.last().hint() == settled(uses, ls[0].matching.scale),
        ls.last().same_map(&ls[0]),
    decreases uses.len(),
{
    if uses.len() > 0 {
        let before = ls[ls.len() - 2];
        let after = ls.last();
        let fewer = uses.drop_last();
        assert forall|i: int| 0 <= i < fewer.len() implies leaves(
            ls.drop_last()[i],
            ls.drop_last()[i + 1],
            #[trigger] fewer[i],
        ) by {
            assert(uses[i] == fewer[i]);
        }
        the_scale_in_use_is_the_last_one_settled(ls.drop_last(), fewer);
        let last = uses[uses.len() - 1];
        assert(leaves(before, after, last));
        assert(before.scales() == ls[0].scales());
        if let Use::Located(Some(p)) = last {
            let mm = choose|mm: Shades| #[trigger] before.located_as(&after, mm, Some(p));
            a_positive_guess_gives_a_positive_scale(&before, &after, mm, Some(p));
        }
    }
}

} // verus!
