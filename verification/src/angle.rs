//! Angles in radians, held within half a turn of zero.

use vstd::arithmetic::power2::*;
use vstd::prelude::*;

use crate::binary32::arith;
use crate::binary32::close;
use crate::binary32::close::{off, size, FINE};
use crate::binary32::exact;
use crate::binary32::order;
use crate::binary32::pattern;
use crate::binary32::pattern::INFINITE;
use crate::binary32::round;
use crate::binary32::Binary32;

verus! {

/// Half a turn.
pub const PI: u32 = 0x4049_0fdb;

/// Half a turn the other way.
pub const MINUS_PI: u32 = 0xc049_0fdb;

/// A full turn.
pub const TAU: u32 = 0x40c9_0fdb;

/// A quarter turn the other way: straight up on the map.
pub const MINUS_HALF_PI: u32 = 0xbfc9_0fdb;

/// The angle lies above minus half a turn and not above half a turn.
pub open spec fn is_wrapped(a: Binary32) -> bool {
    a.gt(Binary32::of_bits(MINUS_PI)) && a.le(Binary32::of_bits(PI))
}

/// The values of half a turn and of a full turn.
pub proof fn lemma_turns()
    ensures
        pattern::units(PI as int) == 0xc9_0fdb * pow2(127),
        pattern::units(TAU as int) == 2 * pattern::units(PI as int),
        pattern::units(PI as int) == pattern::units(PI - 1) + pow2(127),
        pattern::units(PI + 1) == pattern::units(PI as int) + pow2(127),
        Binary32::of_bits(PI).value() == pattern::units(PI as int),
        Binary32::of_bits(MINUS_PI).value() == -pattern::units(PI as int),
        Binary32::of_bits(TAU).value() == pattern::units(TAU as int),
        Binary32::of_bits(TAU).negated().value() == -pattern::units(TAU as int),
        pattern::units(TAU as int) >= pow2(149),
{
    lemma_pow2_unfold(128);
    assert(PI as int / 0x80_0000 == 128 && PI as int % 0x80_0000 == 0x49_0fdb);
    assert(TAU as int / 0x80_0000 == 129 && TAU as int % 0x80_0000 == 0x49_0fdb);
    assert(0xc9_0fdb * (2 * pow2(127)) == 2 * (0xc9_0fdb * pow2(127))) by (nonlinear_arith);
    pattern::lemma_units_step(PI - 1);
    pattern::lemma_units_step(PI as int);
    assert((PI - 1) / 0x80_0000 == 128);
    exact::lemma_negated(Binary32::of_bits(TAU));
    exact::lemma_one_and_half();
    pattern::lemma_units_increase(0x3f80_0000, TAU as int);
}

/// A full turn on from at most minus half a turn.
pub proof fn lemma_turn_up(x: Binary32)
    requires
        x.is_finite_spec(),
        x.le(Binary32::of_bits(MINUS_PI)),
    ensures
        ({
            let y = x.plus(Binary32::of_bits(TAU));
            &&& y.is_finite_spec()
            &&& y.le(Binary32::of_bits(PI))
            &&& y.rank() >= x.rank()
            &&& y != x ==> y.rank() > x.rank()
        }),
{
    let pi = Binary32::of_bits(PI);
    lemma_turns();
    order::lemma_order_of_values(x, Binary32::of_bits(MINUS_PI));
    exact::lemma_plus_keeps_order(x, Binary32::of_bits(TAU), pi);
    exact::lemma_plus_keeps_order(x, Binary32::of_bits(TAU), x);
}

/// A full turn back from more than half a turn.
pub proof fn lemma_turn_down(x: Binary32)
    requires
        x.is_finite_spec(),
        x.gt(Binary32::of_bits(PI)),
    ensures
        ({
            let y = x.minus(Binary32::of_bits(TAU));
            &&& y.is_finite_spec()
            &&& y.gt(Binary32::of_bits(MINUS_PI))
            &&& y.rank() <= x.rank()
            &&& y != x ==> y.rank() < x.rank()
        }),
{
    let back = Binary32::of_bits(TAU).negated();
    let least = Binary32::of_bits((MINUS_PI - 1) as u32);
    lemma_turns();
    assert(x.magnitude() >= PI + 1);
    if x.magnitude() > PI + 1 {
        pattern::lemma_units_increase(PI + 1, x.magnitude());
    }
    assert(least.value() == -pattern::units(PI - 1));
    exact::lemma_plus_keeps_order(x, back, least);
    exact::lemma_plus_keeps_order(x, back, x);
}

/// The angle turned on, full turns at a time, until it is above minus half a
/// turn. One so far off that a turn does not change it stays.
pub open spec fn raised(x: Binary32) -> Binary32
    decreases INFINITE - x.rank(),
{
    let next = x.plus(Binary32::of_bits(TAU));
    if x.is_finite_spec() && x.le(Binary32::of_bits(MINUS_PI)) && next != x {
        proof {
            lemma_turn_up(x);
        }
        raised(next)
    } else {
        x
    }
}

/// The angle turned back, full turns at a time, until it is at most half a
/// turn. One so far off that a turn does not change it stays.
pub open spec fn lowered(x: Binary32) -> Binary32
    decreases INFINITE + x.rank(),
{
    let next = x.minus(Binary32::of_bits(TAU));
    if x.is_finite_spec() && x.gt(Binary32::of_bits(PI)) && next != x {
        proof {
            lemma_turn_down(x);
        }
        lowered(next)
    } else {
        x
    }
}

/// The same direction within half a turn, by full turns.
pub fn wrap_by_turns(angle: Binary32) -> (r: Binary32)
    ensures
        r == lowered(raised(angle)),
{
    let tau: Binary32 = Binary32::of_bits(TAU);
    let mut x: Binary32 = angle;
    let mut moving: bool = true;
    while moving
        invariant
            tau == Binary32::of_bits(TAU),
            raised(x) == raised(angle),
            !moving ==> raised(x) == x,
        decreases
                INFINITE - x.rank(),
                (if moving {
                    1int
                } else {
                    0int
                }),
    {
        let next: Binary32 = x.plus(tau);
        if x.le(Binary32::of_bits(MINUS_PI)) && next != x {
            proof {
                if x.is_infinite_spec() {
                    lemma_infinite_stays(x);
                }
                lemma_turn_up(x);
            }
            x = next;
        } else {
            moving = false;
        }
    }
    let ghost low = x;
    moving = true;
    while moving
        invariant
            tau == Binary32::of_bits(TAU),
            lowered(x) == lowered(low),
            !moving ==> lowered(x) == x,
        decreases
                INFINITE + x.rank(),
                (if moving {
                    1int
                } else {
                    0int
                }),
    {
        let next: Binary32 = x.minus(tau);
        if x.gt(Binary32::of_bits(PI)) && next != x {
            proof {
                if x.is_infinite_spec() {
                    lemma_infinite_stays(x);
                }
                lemma_turn_down(x);
            }
            x = next;
        } else {
            moving = false;
        }
    }
    x
}

/// Infinity stays when a turn is added or taken.
proof fn lemma_infinite_stays(x: Binary32)
    requires
        x.is_infinite_spec(),
    ensures
        x.plus(Binary32::of_bits(TAU)) == x,
        x.minus(Binary32::of_bits(TAU)) == x,
{
    reveal(Binary32::plus_spec);
}

/// A turn changes an angle of up to 2^24 radians.
proof fn lemma_turn_moves(x: Binary32)
    requires
        x.magnitude() <= 0x4b80_0000,
    ensures
        x.le(Binary32::of_bits(MINUS_PI)) ==> x.plus(Binary32::of_bits(TAU)) != x,
        x.gt(Binary32::of_bits(PI)) ==> x.minus(Binary32::of_bits(TAU)) != x,
{
    let m = x.magnitude();
    lemma_turns();
    if m >= PI {
        let near = Binary32::of_bits((x.bits - 1) as u32);
        pattern::lemma_units_step(m - 1);
        assert((m - 1) / 0x80_0000 <= 150);
        round::lemma_pow2_increases(((m - 1) / 0x80_0000 - 1) as nat, 149);
        if x.is_negative() {
            assert(near.value() == -pattern::units(m - 1));
            exact::lemma_plus_keeps_order(x, Binary32::of_bits(TAU), near);
        } else {
            exact::lemma_plus_keeps_order(x, Binary32::of_bits(TAU).negated(), near);
        }
    }
}

proof fn lemma_raised(x: Binary32)
    requires
        x.magnitude() <= 0x4b80_0000,
    ensures
        raised(x).magnitude() <= 0x4b80_0000,
        raised(x).gt(Binary32::of_bits(MINUS_PI)),
    decreases INFINITE - x.rank(),
{
    if x.le(Binary32::of_bits(MINUS_PI)) {
        lemma_turn_moves(x);
        lemma_turn_up(x);
        lemma_raised(x.plus(Binary32::of_bits(TAU)));
    }
}

proof fn lemma_lowered(x: Binary32)
    requires
        x.magnitude() <= 0x4b80_0000,
        x.gt(Binary32::of_bits(MINUS_PI)),
    ensures
        is_wrapped(lowered(x)),
    decreases INFINITE + x.rank(),
{
    if x.gt(Binary32::of_bits(PI)) {
        lemma_turn_moves(x);
        lemma_turn_down(x);
        lemma_lowered(x.minus(Binary32::of_bits(TAU)));
    }
}

/// An angle of up to 2^24 radians is brought within half a turn of zero.
pub proof fn turns_bring_an_angle_within_half_a_turn(a: Binary32)
    requires
        a.magnitude() <= 0x4b80_0000,
    ensures
        is_wrapped(lowered(raised(a))),
{
    lemma_raised(a);
    lemma_lowered(raised(a));
}

/// An angle within half a turn of zero stays.
pub proof fn turns_leave_a_wrapped_angle(a: Binary32)
    requires
        is_wrapped(a),
    ensures
        lowered(raised(a)) == a,
{
}

/// The remainder by a full turn, turned once more where it is not within half
/// a turn.
pub open spec fn turned(a: Binary32) -> Binary32 {
    let x = a.rem(Binary32::of_bits(TAU));
    if x.le(Binary32::of_bits(MINUS_PI)) {
        x.plus(Binary32::of_bits(TAU))
    } else if x.gt(Binary32::of_bits(PI)) {
        x.minus(Binary32::of_bits(TAU))
    } else {
        x
    }
}

/// The same direction within half a turn, by the remainder.
pub fn wrap_angle(a: Binary32) -> (r: Binary32)
    ensures
        r == turned(a),
{
    let tau: Binary32 = Binary32::of_bits(TAU);
    let x: Binary32 = a.rem(tau);
    if x.le(Binary32::of_bits(MINUS_PI)) {
        x.plus(tau)
    } else if x.gt(Binary32::of_bits(PI)) {
        x.minus(tau)
    } else {
        x
    }
}

/// The remainder brings every finite angle within half a turn of zero.
pub proof fn the_remainder_brings_an_angle_within_half_a_turn(a: Binary32)
    requires
        a.is_finite_spec(),
    ensures
        is_wrapped(turned(a)),
{
    let tau = Binary32::of_bits(TAU);
    let x = a.rem(tau);
    let zero = Binary32::zero();
    reveal(Binary32::rem_spec);
    lemma_turns();
    lemma_pow2_pos(149);
    arith::lemma_zero_magnitude(a.magnitude());
    let u = pattern::units(a.magnitude());
    let t = pattern::units(TAU as int);
    vstd::arithmetic::div_mod::lemma_mod_bound(u, t);
    exact::lemma_nearest_keeps_order(u % t, 1, TAU as int);
    exact::lemma_nearest_total(u % t, 1);
    assert(x.magnitude() <= TAU);
    if x.magnitude() < TAU {
        pattern::lemma_units_increase(x.magnitude(), TAU as int);
    }
    arith::lemma_zero_magnitude(x.magnitude());
    assert(zero.value() == 0);
    exact::lemma_plus_keeps_order(x, tau, zero);
    exact::lemma_plus_keeps_order(x, tau.negated(), zero);
    if x.le(Binary32::of_bits(MINUS_PI)) {
        lemma_turn_up(x);
    } else if x.gt(Binary32::of_bits(PI)) {
        lemma_turn_down(x);
    }
}

/// The remainder leaves an angle within half a turn of zero.
pub proof fn the_remainder_leaves_a_wrapped_angle(a: Binary32)
    requires
        is_wrapped(a),
    ensures
        turned(a) == a,
{
    reveal(Binary32::rem_spec);
    lemma_turns();
    arith::lemma_zero_magnitude(a.magnitude());
    let u = pattern::units(a.magnitude());
    let t = pattern::units(TAU as int);
    pattern::lemma_units_increase(a.magnitude(), TAU as int);
    vstd::arithmetic::div_mod::lemma_small_mod(u as nat, t as nat);
    pattern::lemma_nearest_exact(a.magnitude(), 1);
}

/// Wrapping a finite angle twice is wrapping it once.
pub proof fn wrapping_twice_is_wrapping_once(a: Binary32)
    requires
        a.is_finite_spec(),
    ensures
        turned(turned(a)) == turned(a),
{
    the_remainder_brings_an_angle_within_half_a_turn(a);
    the_remainder_leaves_a_wrapped_angle(turned(a));
}

/// Wrapping an angle of up to 2^24 radians twice by full turns is wrapping it
/// once.
pub proof fn turning_twice_is_turning_once(a: Binary32)
    requires
        a.magnitude() <= 0x4b80_0000,
    ensures
        lowered(raised(lowered(raised(a)))) == lowered(raised(a)),
{
    turns_bring_an_angle_within_half_a_turn(a);
    turns_leave_a_wrapped_angle(lowered(raised(a)));
}

/// The value of a full turn.
pub open spec fn full_turn() -> int {
    Binary32::of_bits(TAU).value()
}

/// `w` is `a` less `k` full turns, with a slack of so many parts in `2^24`.
pub open spec fn is_less_turns(w: int, a: int, k: int, slack: int) -> bool {
    off(w, a - k * full_turn(), slack)
}

pub proof fn lemma_full_turn()
    ensures
        close::one() <= full_turn() <= 8 * close::one(),
        full_turn() == 2 * Binary32::of_bits(PI).value(),
        Binary32::of_bits(MINUS_PI).value() == -Binary32::of_bits(PI).value(),
        FINE <= full_turn(),
        0x1000_0000_0000 * full_turn() <= close::ample(),
{
    lemma_turns();
    close::lemma_one();
    lemma2_to64();
    lemma_pow2_adds(22, 127);
}

/// How many turns an angle is turned back.
proof fn lemma_lowered_by(x: Binary32) -> (k: int)
    requires
        x.magnitude() <= 0x4b80_0000,
    ensures
        k >= 0,
        lowered(x).is_finite_spec(),
        k > 0 ==> x.value() > 0,
        is_less_turns(lowered(x).value(), x.value(), k, k * (size(x.value()) + FINE)),
    decreases INFINITE + x.rank(),
{
    let tau = Binary32::of_bits(TAU);
    let next = x.minus(tau);
    let t = full_turn();
    lemma_full_turn();
    lemma_within(x);
    if x.gt(Binary32::of_bits(PI)) && next != x {
        lemma_turn_down(x);
        lemma_turns();
        order::lemma_order_of_values(Binary32::of_bits(PI), x);
        order::lemma_order_of_values(Binary32::of_bits(MINUS_PI), next);
        order::lemma_order_of_values(next, x);
        close::lemma_difference(x, tau);
        let v = x.value();
        let n = next.value();
        assert(FINE * size(n - (v - t)) <= v + FINE);
        assert(size(n) <= v);
        lemma_no_farther(next, x);
        let j = lemma_lowered_by(next);
        let k = j + 1;
        let w = lowered(x).value();
        assert(w == lowered(next).value());
        assert(j * (size(n) + FINE) <= j * (v + FINE)) by (nonlinear_arith)
            requires
                0 <= j,
                size(n) <= v,
        ;
        assert(j * (v + FINE) + (v + FINE) == k * (v + FINE) && k * t == j * t + t)
            by (nonlinear_arith)
            requires
                k == j + 1,
        ;
        k
    } else {
        assert(0 * t == 0 && 0 * (size(x.value()) + FINE) == 0) by (nonlinear_arith);
        0
    }
}

/// How many turns an angle is turned on.
proof fn lemma_raised_by(x: Binary32) -> (k: int)
    requires
        x.magnitude() <= 0x4b80_0000,
    ensures
        k >= 0,
        raised(x).is_finite_spec(),
        k > 0 ==> x.value() < 0,
        is_less_turns(raised(x).value(), x.value(), -k, k * (size(x.value()) + FINE)),
        k > 0 ==> raised(x).le(Binary32::of_bits(PI)),
        k == 0 ==> raised(x) == x,
    decreases INFINITE - x.rank(),
{
    let tau = Binary32::of_bits(TAU);
    let next = x.plus(tau);
    let t = full_turn();
    lemma_full_turn();
    lemma_within(x);
    if x.le(Binary32::of_bits(MINUS_PI)) && next != x {
        lemma_turn_up(x);
        lemma_turns();
        order::lemma_order_of_values(x, Binary32::of_bits(MINUS_PI));
        order::lemma_order_of_values(next, Binary32::of_bits(PI));
        order::lemma_order_of_values(x, next);
        close::lemma_sum(x, tau);
        let v = x.value();
        let n = next.value();
        assert(FINE * size(n - (v + t)) <= -v + FINE);
        assert(size(n) <= -v);
        lemma_no_farther(next, x);
        let j = lemma_raised_by(next);
        let k = j + 1;
        let w = raised(x).value();
        assert(w == raised(next).value());
        assert(j * (size(n) + FINE) <= j * (-v + FINE)) by (nonlinear_arith)
            requires
                0 <= j,
                size(n) <= -v,
        ;
        assert(j * (-v + FINE) + (-v + FINE) == k * (-v + FINE) && -k * t == -j * t - t)
            by (nonlinear_arith)
            requires
                k == j + 1,
        ;
        k
    } else {
        assert(-0 * t == 0 && 0 * (size(x.value()) + FINE) == 0) by (nonlinear_arith);
        0
    }
}

/// A number no farther from zero has no larger magnitude.
proof fn lemma_no_farther(a: Binary32, b: Binary32)
    requires
        a.is_finite_spec(),
        b.is_finite_spec(),
        size(a.value()) <= size(b.value()),
    ensures
        a.magnitude() <= b.magnitude(),
{
    arith::lemma_zero_magnitude(a.magnitude());
    arith::lemma_zero_magnitude(b.magnitude());
    if b.magnitude() < a.magnitude() {
        pattern::lemma_units_increase(b.magnitude(), a.magnitude());
    }
}

/// An angle of up to 2^24 radians.
proof fn lemma_within(x: Binary32)
    requires
        x.magnitude() <= 0x4b80_0000,
    ensures
        x.is_finite_spec(),
        size(x.value()) <= 0x100_0000 * close::one(),
        2 * size(x.value()) <= close::ample(),
{
    arith::lemma_zero_magnitude(x.magnitude());
    close::lemma_one();
    lemma2_to64();
    lemma_pow2_unfold(150);
    assert(pattern::units(0x4b80_0000) == 0x80_0000 * pow2(150));
    if x.magnitude() < 0x4b80_0000 {
        pattern::lemma_units_increase(x.magnitude(), 0x4b80_0000);
    }
}

/// Wrapping by turns changes an angle of up to 2^24 radians by whole turns only,
/// but for the rounding of each turn.
pub proof fn wrapping_changes_an_angle_by_whole_turns(a: Binary32)
    requires
        a.magnitude() <= 0x4b80_0000,
    ensures
        lowered(raised(a)).is_finite_spec(),
        exists|k: int| #[trigger]
            is_less_turns(
                lowered(raised(a)).value(),
                a.value(),
                k,
                size(k) * (size(a.value()) + FINE),
            ),
{
    let up = lemma_raised_by(a);
    lemma_raised(a);
    if up == 0 {
        let k = lemma_lowered_by(a);
        assert(is_less_turns(
            lowered(raised(a)).value(),
            a.value(),
            k,
            size(k) * (size(a.value()) + FINE),
        ));
    } else {
        assert(lowered(raised(a)) == raised(a));
        assert(is_less_turns(
            lowered(raised(a)).value(),
            a.value(),
            -up,
            size(-up) * (size(a.value()) + FINE),
        ));
    }
}

/// The remainder changes a finite angle by whole turns only, but for a slack that
/// does not grow with the angle.
pub proof fn the_remainder_changes_an_angle_by_whole_turns(a: Binary32)
    requires
        a.is_finite_spec(),
    ensures
        turned(a).is_finite_spec(),
        exists|k: int| #[trigger]
            is_less_turns(turned(a).value(), a.value(), k, 8 * full_turn()),
{
    let tau = Binary32::of_bits(TAU);
    let x = a.rem(tau);
    let t = full_turn();
    reveal(Binary32::rem_spec);
    lemma_turns();
    lemma_full_turn();
    arith::lemma_zero_magnitude(a.magnitude());
    let u = pattern::units(a.magnitude());
    vstd::arithmetic::div_mod::lemma_mod_bound(u, t);
    vstd::arithmetic::div_mod::lemma_fundamental_div_mod(u, t);
    exact::lemma_nearest_keeps_order(u % t, 1, TAU as int);
    exact::lemma_nearest_total(u % t, 1);
    exact::lemma_nearest_close(u % t, 1);
    arith::lemma_zero_magnitude(x.magnitude());
    let q = u / t;
    let v = x.value();
    let j = if a.is_negative() {
        -q
    } else {
        q
    };
    assert(t * q == q * t && -q * t == -(q * t)) by (nonlinear_arith);
    assert(FINE * size(v - (a.value() - j * t)) <= 2 * t);
    assert(size(v) <= 3 * t);
    close::lemma_sum(x, tau);
    close::lemma_difference(x, tau);
    assert((j - 1) * t == j * t - t && (j + 1) * t == j * t + t) by (nonlinear_arith);
    if x.le(Binary32::of_bits(MINUS_PI)) {
        assert(is_less_turns(turned(a).value(), a.value(), j - 1, 8 * t));
    } else if x.gt(Binary32::of_bits(PI)) {
        assert(is_less_turns(turned(a).value(), a.value(), j + 1, 8 * t));
    } else {
        assert(is_less_turns(turned(a).value(), a.value(), j, 8 * t));
    }
}

} // verus!
