//! Comparison of a quotient of two counts with a threshold, in single precision.
//!
//! A threshold is held as the bit pattern of an IEEE 754 single precision number. Both counts are
//! first rounded to single precision, their quotient is rounded to the nearest single precision
//! number (to the even one of two that are equally near), and that number is compared with the
//! threshold. Everything is computed on integers.

use vstd::arithmetic::div_mod::{lemma_div_by_self, lemma_div_is_ordered, lemma_fundamental_div_mod};
use vstd::arithmetic::mul::lemma_mul_is_associative;
use vstd::arithmetic::power2::{
    lemma2_to64, lemma_pow2_adds, lemma_pow2_pos, lemma_pow2_strictly_increases, lemma_pow2_unfold, pow2,
};
use vstd::prelude::*;

verus! {

/// Number of values that share one exponent.
pub const FRACTIONS: u32 = 0x80_0000;

/// Magnitude of infinity. Larger magnitudes are no numbers.
pub const INFINITE: u32 = 0x7f80_0000;

/// The bit pattern of 1.
pub const ONE_BITS: u32 = 0x3f80_0000;

/// An IEEE 754 single precision number, given by its bit pattern.
#[derive(Clone, Copy, Debug, PartialEq, Eq, Structural)]
pub struct Single {
    pub bits: u32,
}

impl Single {
    pub fn from_bits(bits: u32) -> (single: Single)
        ensures
            single == (Single { bits }),
    {
        Single { bits }
    }

    /// The number without its sign. Magnitudes are ordered as the numbers that they stand for.
    pub open spec fn magnitude(self) -> nat {
        (self.bits % 0x8000_0000) as nat
    }

    pub open spec fn is_negative(self) -> bool {
        self.bits >= 0x8000_0000 && self.magnitude() != 0
    }

    pub open spec fn is_nan(self) -> bool {
        self.magnitude() > INFINITE
    }
}

/// The value of the number of magnitude `m`, in units of the least positive number, 2^-149.
pub open spec fn scaled(m: nat) -> nat {
    let exponent = m / FRACTIONS as nat;
    let fraction = m % FRACTIONS as nat;
    if exponent == 0 {
        fraction
    } else {
        (FRACTIONS + fraction) as nat * pow2((exponent - 1) as nat)
    }
}

/// Whether `a / b`, rounded to single precision, is at least the number of magnitude `m`: it lies
/// above the middle between that number and the one below, or in the middle, where the rounding
/// goes to the even one of the two.
pub open spec fn rounds_up_to(a: nat, b: nat, m: nat) -> bool {
    let left = a * pow2(150);
    let right = b * (scaled(m) + scaled((m - 1) as nat));
    left > right || (left == right && m % 2 == 0)
}

/// Distance between the single precision numbers next to the integer `n`.
pub open spec fn spacing(n: nat) -> nat
    decreases n,
{
    if n < 0x100_0000 {
        1
    } else {
        2 * spacing(n / 2)
    }
}

/// The single precision number nearest to `n`, the even one of two that are equally near.
pub open spec fn nearest(n: nat) -> nat {
    let unit = spacing(n);
    let below = n / unit;
    let rest = n % unit;
    if 2 * rest < unit || (2 * rest == unit && below % 2 == 0) {
        below * unit
    } else {
        (below + 1) * unit
    }
}

/// Whether the single precision quotient of `a` and `b` is at least `t`.
pub open spec fn at_least(a: nat, b: nat, t: Single) -> bool {
    if t.is_nan() {
        false
    } else if b == 0 {
        a > 0
    } else if t.is_negative() || t.magnitude() == 0 {
        true
    } else {
        rounds_up_to(nearest(a), nearest(b), t.magnitude())
    }
}

/// Whether the single precision quotient of `a` and `b` is greater than `t`.
pub open spec fn above(a: nat, b: nat, t: Single) -> bool {
    if t.is_nan() {
        false
    } else if b == 0 {
        a > 0 && (t.is_negative() || t.magnitude() < INFINITE)
    } else if t.is_negative() {
        true
    } else {
        rounds_up_to(nearest(a), nearest(b), t.magnitude() + 1)
    }
}

/// Computes [`nearest`].
fn nearest_single(n: u64) -> (single: u64)
    requires
        n <= 0x1_ffff_ffff,
    ensures
        single == nearest(n as nat),
        n > 0 ==> single > 0,
        single <= 0x3_ffff_ffff,
{
    let mut unit: u64 = 1;
    let mut rest: u64 = n;
    while rest >= 0x100_0000
        invariant
            n <= 0x1_ffff_ffff,
            1 <= unit <= 0x400,
            rest * unit <= n,
            n > 0 ==> rest > 0,
            unit * spacing(rest as nat) == spacing(n as nat),
        decreases rest,
    {
        assert(unit <= 0x200) by (nonlinear_arith)
            requires
                rest * unit <= n,
                rest >= 0x100_0000,
                n <= 0x1_ffff_ffff,
        ;
        proof {
            let half = (rest / 2) as nat;
            assert(unit * (2 * spacing(half)) == (2 * unit) * spacing(half)) by (nonlinear_arith);
            assert((rest / 2) * (2 * unit) <= rest * unit) by (nonlinear_arith)
                requires
                    2 * (rest / 2) <= rest,
                    unit >= 1,
            ;
        }
        rest = rest / 2;
        unit = unit * 2;
    }
    assert(unit == spacing(n as nat)) by {
        assert(spacing(rest as nat) == 1);
        assert(unit * 1 == unit);
    }
    let below: u64 = n / unit;
    let left: u64 = n % unit;
    proof {
        lemma_fundamental_div_mod(n as int, unit as int);
        assert(below * unit == unit * below) by (nonlinear_arith);
        assert((below + 1) * unit == below * unit + unit) by (nonlinear_arith);
        if n > 0 {
            assert(below >= 1) by {
                assert(unit <= n) by (nonlinear_arith)
                    requires
                        rest * unit <= n,
                        rest > 0,
                        unit >= 1,
                ;
                lemma_div_is_ordered(unit as int, n as int, unit as int);
                lemma_div_by_self(unit as int);
            }
            assert(below * unit > 0) by (nonlinear_arith)
                requires
                    below >= 1,
                    unit >= 1,
            ;
        }
    }
    if 2 * left < unit || (2 * left == unit && below % 2 == 0) {
        below * unit
    } else {
        (below + 1) * unit
    }
}

/// The middle between the number of magnitude `m` and the one below is half of `r.0 * 2^r.1` units
/// of the least positive number.
fn double_middle(m: u32) -> (r: (u64, u32))
    requires
        0 < m < 0x8000_0000,
    ensures
        scaled(m as nat) + scaled((m - 1) as nat) == r.0 * pow2(r.1 as nat),
        0 < r.0 < 0x200_0000,
        r.1 < 255,
        r.1 > 0 ==> r.0 >= 0x100_0000,
{
    let exponent: u32 = m / FRACTIONS;
    let fraction: u32 = m % FRACTIONS;
    proof {
        lemma2_to64();
        assert(pow2(0) == 1);
    }
    if exponent == 0 {
        assert((2 * m - 1) * pow2(0) == 2 * m - 1);
        (2 * (m as u64) - 1, 0)
    } else if fraction > 0 {
        assert((m - 1) as nat / FRACTIONS as nat == exponent);
        assert((m - 1) as nat % FRACTIONS as nat == fraction - 1);
        proof {
            let p = pow2((exponent - 1) as nat);
            let s = (FRACTIONS + fraction) as nat;
            assert(s * p + (s - 1) * p == (2 * s - 1) * p) by (nonlinear_arith);
        }
        (2 * (FRACTIONS as u64 + fraction as u64) - 1, exponent - 1)
    } else {
        assert((m - 1) as nat / FRACTIONS as nat == exponent - 1);
        assert((m - 1) as nat % FRACTIONS as nat == FRACTIONS - 1);
        if exponent == 1 {
            assert(FRACTIONS * pow2(0) == FRACTIONS);
            assert((2 * FRACTIONS - 1) * pow2(0) == 2 * FRACTIONS - 1);
            (2 * FRACTIONS as u64 - 1, 0)
        } else {
            proof {
                let p = pow2((exponent - 2) as nat);
                lemma_pow2_unfold((exponent - 1) as nat);
                assert(FRACTIONS * (2 * p) + (2 * FRACTIONS - 1) * p == (4 * FRACTIONS - 1) * p)
                    by (nonlinear_arith);
            }
            (4 * FRACTIONS as u64 - 1, exponent - 2)
        }
    }
}

/// Multiplying both sides by a power of two keeps their order.
proof fn lemma_scale(x: int, y: int, e: nat)
    ensures
        x * pow2(e) > y * pow2(e) <==> x > y,
        x * pow2(e) == y * pow2(e) <==> x == y,
{
    lemma_pow2_pos(e);
    let p = pow2(e) as int;
    if x > y {
        assert(x * p > y * p) by (nonlinear_arith)
            requires
                x > y,
                p > 0,
        ;
    } else if x < y {
        assert(x * p < y * p) by (nonlinear_arith)
            requires
                x < y,
                p > 0,
        ;
    }
}

/// A power of two, computed by shifting.
fn power_of_two(e: u32) -> (p: u128)
    requires
        e <= 64,
    ensures
        p == pow2(e as nat),
        1 <= p <= 0x1_0000_0000_0000_0000,
{
    let mut p: u128 = 1;
    let mut i: u32 = 0;
    proof {
        lemma2_to64();
    }
    while i < e
        invariant
            i <= e <= 64,
            p == pow2(i as nat),
            1 <= p,
        decreases e - i,
    {
        proof {
            lemma_pow2_unfold((i + 1) as nat);
            lemma2_to64();
            if i + 1 < 64 {
                lemma_pow2_strictly_increases((i + 1) as nat, 64);
            }
        }
        p = p * 2;
        i = i + 1;
    }
    proof {
        lemma2_to64();
        if e < 64 {
            lemma_pow2_strictly_increases(e as nat, 64);
        }
    }
    p
}

/// Computes [`rounds_up_to`].
fn rounds_to_at_least(a: u64, b: u64, m: u32) -> (yes: bool)
    requires
        a <= 0x3_ffff_ffff,
        0 < b <= 0x3_ffff_ffff,
        0 < m < 0x8000_0000,
    ensures
        yes == rounds_up_to(a as nat, b as nat, m as nat),
{
    let (middle, power): (u64, u32) = double_middle(m);
    let ghost right = b * (middle * pow2(power as nat));
    assert(0 < b * middle < 0x1000_0000_0000_0000) by (nonlinear_arith)
        requires
            0 < b <= 0x3_ffff_ffff,
            0 < middle < 0x200_0000,
    ;
    let product: u128 = b as u128 * middle as u128;
    proof {
        lemma_mul_is_associative(b as int, middle as int, pow2(power as nat) as int);
        lemma2_to64();
    }
    if power <= 150 {
        let shift: u32 = 150 - power;
        proof {
            lemma_pow2_adds(shift as nat, power as nat);
            lemma_mul_is_associative(a as int, pow2(shift as nat) as int, pow2(power as nat) as int);
            lemma_scale(a * pow2(shift as nat), product as int, power as nat);
        }
        if shift >= 64 {
            proof {
                if shift > 64 {
                    lemma_pow2_strictly_increases(64, shift as nat);
                }
                let p = pow2(shift as nat);
                if a > 0 {
                    assert(a * p >= p) by (nonlinear_arith)
                        requires
                            a >= 1,
                            p >= 0,
                    ;
                } else {
                    assert(a * p == 0) by (nonlinear_arith)
                        requires
                            a == 0,
                    ;
                }
            }
            a > 0
        } else {
            let factor: u128 = power_of_two(shift);
            assert(a * factor <= 0x3_ffff_ffff * 0x1_0000_0000_0000_0000) by (nonlinear_arith)
                requires
                    a <= 0x3_ffff_ffff,
                    factor <= 0x1_0000_0000_0000_0000,
            ;
            let left: u128 = a as u128 * factor;
            left > product || (left == product && m % 2 == 0)
        }
    } else {
        let shift: u32 = power - 150;
        proof {
            lemma_pow2_adds(shift as nat, 150);
            lemma_mul_is_associative(product as int, pow2(shift as nat) as int, pow2(150) as int);
            lemma_scale(a as int, product * pow2(shift as nat), 150);
        }
        if shift >= 64 {
            proof {
                if shift > 64 {
                    lemma_pow2_strictly_increases(64, shift as nat);
                }
                let p = pow2(shift as nat);
                assert(product * p >= p) by (nonlinear_arith)
                    requires
                        product >= 1,
                        p >= 0,
                ;
            }
            false
        } else {
            let factor: u128 = power_of_two(shift);
            assert(product * factor <= 0x1000_0000_0000_0000 * 0x1_0000_0000_0000_0000) by (nonlinear_arith)
                requires
                    product <= 0x1000_0000_0000_0000,
                    factor <= 0x1_0000_0000_0000_0000,
            ;
            let bound: u128 = product * factor;
            a as u128 > bound || (a as u128 == bound && m % 2 == 0)
        }
    }
}

/// Whether the single precision quotient of `a` and `b` is at least `t`.
pub fn quotient_at_least(a: u64, b: u64, t: Single) -> (yes: bool)
    requires
        a <= 0x1_ffff_ffff,
        b <= 0x1_ffff_ffff,
    ensures
        yes == at_least(a as nat, b as nat, t),
{
    let magnitude: u32 = t.bits % 0x8000_0000;
    if magnitude > INFINITE {
        false
    } else if b == 0 {
        a > 0
    } else if t.bits >= 0x8000_0000 || magnitude == 0 {
        true
    } else {
        rounds_to_at_least(nearest_single(a), nearest_single(b), magnitude)
    }
}

/// Whether the single precision quotient of `a` and `b` is greater than `t`.
pub fn quotient_above(a: u64, b: u64, t: Single) -> (yes: bool)
    requires
        a <= 0x1_ffff_ffff,
        b <= 0x1_ffff_ffff,
    ensures
        yes == above(a as nat, b as nat, t),
{
    let magnitude: u32 = t.bits % 0x8000_0000;
    let negative: bool = t.bits >= 0x8000_0000 && magnitude != 0;
    if magnitude > INFINITE {
        false
    } else if b == 0 {
        a > 0 && (negative || magnitude < INFINITE)
    } else if negative {
        true
    } else {
        rounds_to_at_least(nearest_single(a), nearest_single(b), magnitude + 1)
    }
}

/// Whether `s` is at most `t`, for two numbers.
pub open spec fn not_above(s: Single, t: Single) -> bool {
    &&& !s.is_nan() && !t.is_nan()
    &&& if s.is_negative() {
        !t.is_negative() || s.magnitude() >= t.magnitude()
    } else {
        !t.is_negative() && s.magnitude() <= t.magnitude()
    }
}

/// Larger magnitudes have larger values.
pub proof fn lemma_scaled_increases(m: nat, n: nat)
    requires
        m < n < 0x8000_0000,
    ensures
        scaled(m) < scaled(n),
    decreases n - m,
{
    if m + 1 < n {
        lemma_scaled_increases(m, (n - 1) as nat);
    }
    let l = (n - 1) as nat;
    let exponent = n / FRACTIONS as nat;
    let fraction = n % FRACTIONS as nat;
    lemma2_to64();
    assert(scaled(l) < scaled(n)) by {
        if fraction > 0 {
            assert(l / FRACTIONS as nat == exponent);
            assert(l % FRACTIONS as nat == fraction - 1);
            if exponent > 0 {
                let p = pow2((exponent - 1) as nat);
                lemma_pow2_pos((exponent - 1) as nat);
                assert((FRACTIONS + fraction - 1) * p < (FRACTIONS + fraction) * p) by (nonlinear_arith)
                    requires
                        p > 0,
                ;
            }
        } else {
            assert(exponent > 0);
            assert(l / FRACTIONS as nat == exponent - 1);
            assert(l % FRACTIONS as nat == FRACTIONS - 1);
            if exponent == 1 {
                assert(FRACTIONS * pow2(0) == FRACTIONS);
            } else {
                let p = pow2((exponent - 2) as nat);
                lemma_pow2_pos((exponent - 2) as nat);
                lemma_pow2_unfold((exponent - 1) as nat);
                assert((2 * FRACTIONS - 1) * p < FRACTIONS * (2 * p)) by (nonlinear_arith)
                    requires
                        p > 0,
                ;
            }
        }
    }
}

/// What rounds to a number or above rounds to every lower one or above.
pub proof fn lemma_rounds_up_to_lower(a: nat, b: nat, m: nat, n: nat)
    requires
        0 < m <= n < 0x8000_0000,
        b > 0,
        rounds_up_to(a, b, n),
    ensures
        rounds_up_to(a, b, m),
{
    if m < n {
        lemma_scaled_increases(m, n);
        lemma_scaled_increases((m - 1) as nat, (n - 1) as nat);
        let x = scaled(m) + scaled((m - 1) as nat);
        let y = scaled(n) + scaled((n - 1) as nat);
        assert(b * x < b * y) by (nonlinear_arith)
            requires
                x < y,
                b > 0,
        ;
    }
}

/// What reaches a threshold reaches every lower one.
pub proof fn law_lower_threshold_is_reached(a: nat, b: nat, s: Single, t: Single)
    requires
        not_above(s, t),
        at_least(a, b, t),
    ensures
        at_least(a, b, s),
{
    if b > 0 && !s.is_negative() && s.magnitude() != 0 {
        lemma_nearest_positive(b);
        lemma_rounds_up_to_lower(nearest(a), nearest(b), s.magnitude(), t.magnitude());
    }
}

/// What exceeds a threshold exceeds every lower one.
pub proof fn law_lower_threshold_is_exceeded(a: nat, b: nat, s: Single, t: Single)
    requires
        not_above(s, t),
        above(a, b, t),
    ensures
        above(a, b, s),
{
    if b > 0 && !s.is_negative() {
        lemma_nearest_positive(b);
        lemma_rounds_up_to_lower(nearest(a), nearest(b), s.magnitude() + 1, t.magnitude() + 1);
    }
}

pub proof fn lemma_spacing_positive(n: nat)
    ensures
        0 < spacing(n),
        0 < n ==> spacing(n) <= n,
    decreases n,
{
    if n >= 0x100_0000 {
        lemma_spacing_positive(n / 2);
    }
}

pub proof fn lemma_nearest_positive(n: nat)
    ensures
        n > 0 ==> nearest(n) > 0,
{
    lemma_spacing_positive(n);
    if n > 0 {
        let unit = spacing(n);
        lemma_div_is_ordered(unit as int, n as int, unit as int);
        lemma_div_by_self(unit as int);
        let below = n / unit;
        assert(below * unit > 0) by (nonlinear_arith)
            requires
                below >= 1,
                unit > 0,
        ;
        assert((below + 1) * unit > 0) by (nonlinear_arith)
            requires
                below >= 1,
                unit > 0,
        ;
    }
}

/// All of a positive number of things reach every threshold up to 1.
pub proof fn law_everything_reaches_one(n: nat, t: Single)
    requires
        n > 0,
        not_above(t, (Single { bits: ONE_BITS })),
    ensures
        at_least(n, n, t),
{
    let one = Single { bits: ONE_BITS };
    let m = ONE_BITS as nat;
    assert(at_least(n, n, one)) by {
        lemma_scaled_increases((m - 1) as nat, m);
        lemma_pow2_adds(23, 126);
        lemma_pow2_unfold(150);
        lemma2_to64();
        assert(scaled(m) == pow2(149));
        let c = nearest(n);
        lemma_nearest_positive(n);
        let x = scaled(m) + scaled((m - 1) as nat);
        let y = pow2(150);
        assert(c * y > c * x) by (nonlinear_arith)
            requires
                y > x,
                c > 0,
        ;
    }
    law_lower_threshold_is_reached(n, n, t, one);
}

} // verus!
