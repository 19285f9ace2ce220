//! Division, remainder and square root.

use vstd::arithmetic::power2::*;
use vstd::prelude::*;

use crate::binary32::arith;
use crate::binary32::pattern;
use crate::binary32::pattern::{Binary32, INFINITE, NOT_A_NUMBER};
use crate::binary32::round;

verus! {

impl Binary32 {
    /// The quotient, rounded to nearest.
    #[verifier::opaque]
    pub open spec fn over_spec(self, other: Binary32) -> Binary32 {
        let negative = self.is_negative() != other.is_negative();
        if self.is_nan_spec() || other.is_nan_spec() {
            arith::nan()
        } else if self.is_infinite_spec() {
            if other.is_infinite_spec() {
                arith::nan()
            } else {
                pattern::signed(negative, INFINITE as int)
            }
        } else if other.is_infinite_spec() {
            pattern::signed(negative, 0)
        } else if other.magnitude() == 0 {
            if self.magnitude() == 0 {
                arith::nan()
            } else {
                pattern::signed(negative, INFINITE as int)
            }
        } else {
            pattern::signed(
                negative,
                pattern::nearest(
                    pattern::units(self.magnitude()) * pow2(149),
                    pattern::units(other.magnitude()),
                ),
            )
        }
    }

    #[verifier::when_used_as_spec(over_spec)]
    pub fn over(self, other: Binary32) -> (r: Binary32)
        ensures
            r == self.over_spec(other),
    {
        let a: u32 = self.unsigned();
        let b: u32 = other.unsigned();
        let negative: bool = self.signum() != other.signum();
        proof {
            reveal(Binary32::over_spec);
        }
        if a > INFINITE || b > INFINITE {
            return Binary32 { bits: NOT_A_NUMBER };
        }
        if a == INFINITE {
            if b == INFINITE {
                return Binary32 { bits: NOT_A_NUMBER };
            }
            return arith::with_sign(negative, INFINITE);
        }
        if b == INFINITE {
            return arith::with_sign(negative, 0);
        }
        if b == 0 {
            if a == 0 {
                return Binary32 { bits: NOT_A_NUMBER };
            }
            return arith::with_sign(negative, INFINITE);
        }
        arith::with_sign(negative, quotient(a, b))
    }

    /// The remainder of division towards zero, exact, with the sign of `self`.
    #[verifier::opaque]
    pub open spec fn rem_spec(self, other: Binary32) -> Binary32 {
        if self.is_nan_spec() || other.is_nan_spec() || self.is_infinite_spec()
            || other.magnitude() == 0 {
            arith::nan()
        } else if other.is_infinite_spec() {
            self
        } else {
            pattern::signed(
                self.is_negative(),
                pattern::nearest(
                    pattern::units(self.magnitude()) % pattern::units(other.magnitude()),
                    1,
                ),
            )
        }
    }

    #[verifier::when_used_as_spec(rem_spec)]
    pub fn rem(self, other: Binary32) -> (r: Binary32)
        ensures
            r == self.rem_spec(other),
    {
        let a: u32 = self.unsigned();
        let b: u32 = other.unsigned();
        proof {
            reveal(Binary32::rem_spec);
        }
        if a > INFINITE || b > INFINITE || a == INFINITE || b == 0 {
            return Binary32 { bits: NOT_A_NUMBER };
        }
        if b == INFINITE {
            return self;
        }
        arith::with_sign(self.signum(), remainder(a, b))
    }

    /// The square root, rounded to nearest.
    #[verifier::opaque]
    pub open spec fn sqrt_spec(self) -> Binary32 {
        if self.magnitude() == 0 {
            self
        } else if self.is_nan_spec() || self.is_negative() {
            arith::nan()
        } else if self.is_infinite_spec() {
            self
        } else {
            pattern::signed(
                false,
                pattern::nearest_root(pattern::units(self.magnitude()) * pow2(149)),
            )
        }
    }

    #[verifier::when_used_as_spec(sqrt_spec)]
    pub fn sqrt(self) -> (r: Binary32)
        ensures
            r == self.sqrt_spec(),
    {
        let a: u32 = self.unsigned();
        proof {
            reveal(Binary32::sqrt_spec);
        }
        if a == 0 {
            return self;
        }
        if a > INFINITE || self.signum() {
            return Binary32 { bits: NOT_A_NUMBER };
        }
        if a == INFINITE {
            return self;
        }
        arith::with_sign(false, root(a))
    }
}

/// The rounded quotient of two finite magnitudes.
fn quotient(a: u32, b: u32) -> (r: u32)
    requires
        a < INFINITE,
        0 < b < INFINITE,
    ensures
        r <= INFINITE,
        r == pattern::nearest(
            pattern::units(a as int) * pow2(149),
            pattern::units(b as int),
        ),
{
    let (ma, sa) = arith::parts(a);
    let (mb, sb) = arith::parts(b);
    proof {
        arith::lemma_zero_magnitude(a as int);
        arith::lemma_zero_magnitude(b as int);
        lemma2_to64();
        lemma2_to64_rest();
    }
    if ma == 0 {
        proof {
            pattern::lemma_nearest_exact(0, pattern::units(b as int));
            assert(0 * pow2(149) == 0);
        }
        return 0;
    }
    proof {
        round::lemma_bit_length(ma);
        let z = vstd::std_specs::bits::u64_leading_zeros(ma);
        if z < 40 {
            round::lemma_pow2_increases(24, (63 - z) as nat);
        }
    }
    let zeros: i32 = ma.leading_zeros() as i32;
    let up: u64 = (zeros - 1) as u64;
    proof {
        round::lemma_small_product(ma as int, 64 - zeros, up as int);
        vstd::bits::lemma_u64_shl_is_mul(ma, up);
    }
    let top: u64 = ma << up;
    let q: u64 = top / mb;
    let rest: u64 = top % mb;
    let t: i32 = sa - (zeros - 1) - sb + 149;
    proof {
        vstd::arithmetic::div_mod::lemma_fundamental_div_mod(top as int, mb as int);
        assert(q >= 0x100_0000) by (nonlinear_arith)
            requires
                top == mb * q + rest,
                rest < mb,
                mb < 0x100_0000,
                top >= 0x4000_0000_0000_0000,
        ;
        assert(q <= top) by (nonlinear_arith)
            requires
                top == mb * q + rest,
                mb >= 1,
                rest >= 0,
                q >= 0,
        ;
    }
    let r: u32 = round::round_scaled(q, rest != 0, t);
    proof {
        let n = pattern::units(a as int) * pow2(149);
        let d = pattern::units(b as int);
        let one = pow2(400) as int;
        let step = pow2((t + 400) as nat) as int;
        let pa = pow2(sa as nat) as int;
        let pb = pow2(sb as nat) as int;
        let g = pow2(up as nat) as int;
        let whole = pow2((t + 400 + sb) as nat) as int;
        lemma_pow2_pos((t + 400 + sb) as nat);
        lemma_pow2_adds((t + 400) as nat, sb as nat);
        lemma_pow2_adds(sa as nat, 149);
        lemma_pow2_adds((sa + 149) as nat, 400);
        lemma_pow2_adds((t + 400 + sb) as nat, up as nat);
        assert(n * one == top * whole) by (nonlinear_arith)
            requires
                n == (ma * pa) * pow2(149),
                (pa * pow2(149)) * one == whole * g,
                top == ma * g,
        ;
        assert((q * step) * d == (mb * q) * whole) by (nonlinear_arith)
            requires
                d == mb * pb,
                whole == step * pb,
        ;
        assert(((q + 1) * step) * d == (mb * q + mb) * whole) by (nonlinear_arith)
            requires
                d == mb * pb,
                whole == step * pb,
        ;
        assert((mb * q) * whole <= top * whole < (mb * q + mb) * whole) by (nonlinear_arith)
            requires
                top == mb * q + rest,
                0 <= rest < mb,
                whole > 0,
        ;
        if rest != 0 {
            assert((mb * q) * whole < top * whole) by (nonlinear_arith)
                requires
                    top > mb * q,
                    whole > 0,
            ;
        }
        arith::lemma_rounds_near(q as int, rest != 0, t as int, r as int, n, d);
    }
    r
}

/// The exact remainder of two finite magnitudes.
fn remainder(a: u32, b: u32) -> (r: u32)
    requires
        a < INFINITE,
        0 < b < INFINITE,
    ensures
        r <= INFINITE,
        r == pattern::nearest(pattern::units(a as int) % pattern::units(b as int), 1),
{
    proof {
        arith::lemma_zero_magnitude(a as int);
        arith::lemma_zero_magnitude(b as int);
    }
    if a < b {
        proof {
            pattern::lemma_units_increase(a as int, b as int);
            vstd::arithmetic::div_mod::lemma_small_mod(
                pattern::units(a as int) as nat,
                pattern::units(b as int) as nat,
            );
            pattern::lemma_nearest_exact(a as int, 1);
        }
        return a;
    }
    let (ma, sa) = arith::parts(a);
    let (mb, sb) = arith::parts(b);
    let mut rest: u64 = ma % mb;
    let mut i: i32 = 0;
    proof {
        lemma2_to64();
        assert(ma * pow2(0) == ma) by (nonlinear_arith)
            requires
                pow2(0) == 1,
        ;
        assert(sb <= sa);
    }
    while i < sa - sb
        invariant
            0 <= i <= sa - sb,
            0 <= sb <= sa <= 253,
            0 < mb < 0x100_0000,
            rest < mb,
            rest == (ma * pow2(i as nat)) % (mb as int),
        decreases sa - sb - i,
    {
        proof {
            let x = ma * pow2(i as nat);
            lemma_pow2_unfold((i + 1) as nat);
            assert(ma * pow2((i + 1) as nat) == 2 * x) by (nonlinear_arith)
                requires
                    x == ma * pow2(i as nat),
                    pow2((i + 1) as nat) == 2 * pow2(i as nat),
            ;
            vstd::arithmetic::div_mod::lemma_mul_mod_noop_right(2, x, mb as int);
        }
        rest = (rest * 2) % mb;
        i = i + 1;
    }
    let r: u32 = round::round_scaled(rest, false, sb);
    proof {
        let k = pow2((sa - sb) as nat) as int;
        let pb = pow2(sb as nat) as int;
        let one = pow2(400) as int;
        lemma_pow2_pos(sb as nat);
        lemma_pow2_adds(sb as nat, (sa - sb) as nat);
        lemma_pow2_adds(sb as nat, 400);
        let x = ma * k;
        assert(ma * pow2(sa as nat) == x * pb) by (nonlinear_arith)
            requires
                x == ma * k,
                pow2(sa as nat) == pb * k,
        ;
        lemma_mod_scaled(x, mb as int, pb);
        let n = pattern::units(a as int) % pattern::units(b as int);
        assert(n == rest * pb);
        assert((rest * pow2((sb + 400) as nat)) * 1 == n * one) by (nonlinear_arith)
            requires
                n == rest * pb,
                pow2((sb + 400) as nat) == pb * one,
        ;
        arith::lemma_rounds_near(rest as int, false, sb as int, r as int, n, 1);
    }
    r
}

proof fn lemma_mod_scaled(x: int, y: int, c: int)
    requires
        x >= 0,
        y > 0,
        c > 0,
    ensures
        (x * c) % (y * c) == (x % y) * c,
{
    let quo = x / y;
    let rest = x % y;
    vstd::arithmetic::div_mod::lemma_fundamental_div_mod(x, y);
    assert(x * c == quo * (y * c) + rest * c && 0 <= rest * c < y * c && y * c > 0)
        by (nonlinear_arith)
        requires
            x == y * quo + rest,
            0 <= rest < y,
            c > 0,
    ;
    vstd::arithmetic::div_mod::lemma_fundamental_div_mod_converse(x * c, y * c, quo, rest * c);
}

/// The whole part of the square root.
fn whole_root(x: u64) -> (r: u64)
    requires
        x < 0x8000_0000_0000_0000,
    ensures
        r * r <= x < (r + 1) * (r + 1),
        r < 0x1_0000_0000,
{
    let mut r: u64 = 0;
    let mut bit: u64 = 0x8000_0000;
    assert((0 + 2 * 0x8000_0000) * (0 + 2 * 0x8000_0000) == 0x1_0000_0000_0000_0000int);
    let ghost mut k: nat = 31;
    proof {
        lemma2_to64();
    }
    while bit > 0
        invariant
            bit == 0 || bit == pow2(k),
            bit == 0 ==> x < (r + 1) * (r + 1),
            bit > 0 ==> x < (r + 2 * bit) * (r + 2 * bit),
            k <= 31,
            bit <= 0x8000_0000,
            r * r <= x,
            r + 2 * bit <= 0x1_0000_0000,
            x < 0x8000_0000_0000_0000,
        decreases bit,
    {
        let next: u64 = r + bit;
        proof {
            assert(next * next <= 0xffff_ffff_ffff_ffff) by (nonlinear_arith)
                requires
                    next <= 0xffff_ffff,
                    next >= 0,
            ;
        }
        if next * next <= x {
            assert(r + 2 * bit == next + bit);
            r = next;
        }
        proof {
            if k > 0 {
                lemma_pow2_unfold(k);
                k = (k - 1) as nat;
            } else {
                lemma2_to64();
                assert(bit == 1);
            }
        }
        bit = bit / 2;
    }
    r
}

/// The rounded square root of a positive finite magnitude.
fn root(a: u32) -> (r: u32)
    requires
        0 < a < INFINITE,
    ensures
        r <= INFINITE,
        r == pattern::nearest_root(pattern::units(a as int) * pow2(149)),
{
    let (m, s) = arith::parts(a);
    proof {
        lemma2_to64();
        lemma2_to64_rest();
        round::lemma_bit_length(m);
        let z = vstd::std_specs::bits::u64_leading_zeros(m);
        if z < 40 {
            round::lemma_pow2_increases(24, (63 - z) as nat);
        }
    }
    let zeros: i32 = m.leading_zeros() as i32;
    let k: i32 = if (s + 149 - (zeros - 2)) % 2 == 0 {
        zeros - 2
    } else {
        zeros - 1
    };
    let up: u64 = k as u64;
    proof {
        round::lemma_small_product(m as int, 64 - zeros, up as int);
        round::lemma_pow2_increases((64 - zeros + k) as nat, 63);
        round::lemma_pow2_increases(61, (64 - zeros + k - 1) as nat);
        vstd::bits::lemma_u64_shl_is_mul(m, up);
    }
    let x: u64 = m << up;
    let q: u64 = whole_root(x);
    let t: i32 = (s + 149 - k) / 2;
    proof {
        assert(q >= 0x100_0000) by (nonlinear_arith)
            requires
                x < (q + 1) * (q + 1),
                x >= 0x2000_0000_0000_0000,
                q >= 0,
        ;
        assert(q * q <= 0xffff_ffff_ffff_ffff) by (nonlinear_arith)
            requires
                q <= 0xffff_ffff,
                q >= 0,
        ;
    }
    let sticky: bool = q * q != x;
    let r: u32 = round::round_scaled(q, sticky, t);
    proof {
        let n = pattern::units(a as int) * pow2(149);
        let ps = pow2(s as nat) as int;
        let pk = pow2(k as nat) as int;
        let p = pow2(t as nat) as int;
        lemma_pow2_adds(s as nat, 149);
        lemma_pow2_adds(t as nat, t as nat);
        lemma_pow2_adds((2 * t) as nat, k as nat);
        assert(2 * t + k == s + 149);
        assert(n == x * (p * p)) by (nonlinear_arith)
            requires
                n == (m * ps) * pow2(149),
                x == m * pk,
                ps * pow2(149) == (p * p) * pk,
        ;
        lemma_rounds_near_root(q as int, sticky, t as int, r as int, x as int, n);
    }
    r
}

proof fn lemma_rounds_near_root(q: int, sticky: bool, t: int, r: int, x: int, n: int)
    requires
        0 <= t <= 400,
        r <= INFINITE,
        round::rounds(q, sticky, t, r),
        q >= 0,
        q * q <= x < (q + 1) * (q + 1),
        sticky <==> q * q != x,
        n == x * (pow2(t as nat) * pow2(t as nat)),
    ensures
        pattern::near_root(n, r),
        pattern::nearest_root(n) == r,
{
    let one = pow2(400) as int;
    let p = pow2(t as nat) as int;
    let step = pow2((t + 400) as nat) as int;
    lemma_pow2_pos(400);
    lemma_pow2_pos(t as nat);
    lemma_pow2_adds(t as nat, 400);
    let low = pattern::units(r - 1) + pattern::units(r);
    let high = pattern::units(r) + pattern::units(r + 1);
    pattern::lemma_units_step(r);
    assert((q * p) * (q * p) == (q * q) * (p * p)) by (nonlinear_arith);
    assert(((q + 1) * p) * ((q + 1) * p) == ((q + 1) * (q + 1)) * (p * p)) by (nonlinear_arith);
    assert(p * p > 0) by (nonlinear_arith)
        requires
            p > 0,
    ;
    let pp = p * p;
    assert((q * q) * pp <= x * pp && x * pp < ((q + 1) * (q + 1)) * pp && (q * q < x ==> (q * q)
        * pp < x * pp)) by (nonlinear_arith)
        requires
            q * q <= x < (q + 1) * (q + 1),
            pp > 0,
    ;
    assert(0 <= q * p) by (nonlinear_arith)
        requires
            q >= 0,
            p > 0,
    ;
    if r > 0 {
        pattern::lemma_units_step(r - 1);
        assert(low <= 2 * (q * p) && (low == 2 * (q * p) ==> low * one == 2 * (q * step)))
            by (nonlinear_arith)
            requires
                low * one <= 2 * (q * step),
                step == p * one,
                one > 0,
        ;
        let y = q * p;
        assert(low * low <= 4 * (y * y) && (low * low == 4 * (y * y) ==> low == 2 * y))
            by (nonlinear_arith)
            requires
                0 <= low <= 2 * y,
        ;
    }
    if r < INFINITE {
        let top = if sticky {
            q + 1
        } else {
            q
        };
        assert(2 * (top * p) <= high && (high == 2 * (top * p) ==> high * one == 2 * (top * step)))
            by (nonlinear_arith)
            requires
                2 * (top * step) <= high * one,
                step == p * one,
                one > 0,
        ;
        let y = top * p;
        assert(0 <= y) by (nonlinear_arith)
            requires
                top >= 0,
                p > 0,
                y == top * p,
        ;
        assert(4 * (y * y) <= high * high && (high * high == 4 * (y * y) ==> high == 2 * y))
            by (nonlinear_arith)
            requires
                0 <= 2 * y <= high,
        ;
    }
    assert(pattern::near_root(n, r));
    pattern::lemma_near_root_unique(n, r, pattern::nearest_root(n));
}

} // verus!
