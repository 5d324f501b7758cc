//! What it means that a quotient of two counts reaches or exceeds a threshold.

use crate::single::{
    above, at_least, lemma_nearest_positive, lemma_rounds_up_to_lower, lemma_scaled_increases,
    lemma_spacing_positive, nearest, rounds_up_to, scaled, spacing, Single,
};
use crate::utils::passes;
use vstd::arithmetic::div_mod::{lemma_fundamental_div_mod, lemma_mod_multiples_basic};
use vstd::arithmetic::mul::lemma_mul_is_associative;
use vstd::arithmetic::power2::{
    lemma2_to64, lemma_pow2_adds, lemma_pow2_pos, lemma_pow2_strictly_increases, lemma_pow2_unfold, pow2,
};
use vstd::math::abs;
use vstd::prelude::*;

verus! {

/// The numbers of single precision in units of the least positive one, 2^-149. Up to 2^24 units every
/// multiple of the unit is such a number, in the order of the bit patterns, and 2^23 patterns further the
/// number is twice as large. The pattern of 1 stands for 2^149 units.
pub proof fn law_singles(m: nat)
    ensures
        m <= 0x100_0000 ==> scaled(m) == m,
        m >= 0x80_0000 ==> scaled(m + 0x80_0000) == 2 * scaled(m),
        scaled(0x3f80_0000) == pow2(149),
{
    lemma2_to64();
    lemma_pow2_unfold(1);
    lemma_pow2_adds(23, 126);
    assert(pow2(0) == 1 && pow2(1) == 2);
    if m >= 0x80_0000 {
        let exponent = m / 0x80_0000;
        let fraction = m % 0x80_0000;
        assert((m + 0x80_0000) / 0x80_0000 == exponent + 1);
        assert((m + 0x80_0000) % 0x80_0000 == fraction);
        lemma_pow2_unfold(exponent);
        let s = (0x80_0000 + fraction) as nat;
        let p = pow2((exponent - 1) as nat);
        assert(s * (2 * p) == 2 * (s * p)) by (nonlinear_arith);
        if m <= 0x100_0000 {
            if m < 0x100_0000 {
                assert(exponent == 1);
                assert(p == 1);
                assert(s * p == s) by (nonlinear_arith)
                    requires
                        p == 1,
                ;
                assert(scaled(m) == s * p);
            } else {
                assert(exponent == 2 && fraction == 0);
                assert(p == 2);
                assert(scaled(m) == s * p);
                assert(s * p == 0x100_0000) by (nonlinear_arith)
                    requires
                        p == 2,
                        s == 0x80_0000,
                ;
            }
        }
    }
}

/// The greatest magnitude up to `most` that a quotient rounds to or above, or none.
proof fn lemma_greatest(a: nat, b: nat, most: nat) -> (r: nat)
    ensures
        r <= most,
        r > 0 ==> rounds_up_to(a, b, r),
        forall|m: nat| r < m <= most ==> !#[trigger] rounds_up_to(a, b, m),
    decreases most,
{
    if most == 0 || rounds_up_to(a, b, most) {
        most
    } else {
        lemma_greatest(a, b, (most - 1) as nat)
    }
}

/// No number of single precision is nearer to a quotient than the greatest that it rounds to or above.
proof fn lemma_greatest_is_nearest(a: nat, b: nat, r: nat, m: nat)
    requires
        b > 0,
        r < 0x7fff_ffff,
        m < 0x7fff_ffff,
        r > 0 ==> rounds_up_to(a, b, r),
        !rounds_up_to(a, b, r + 1),
    ensures
        ({
            let own = abs(a * pow2(149) - b * scaled(r));
            let other = abs(a * pow2(149) - b * scaled(m));
            &&& own <= other
            &&& own == other && m != r ==> r % 2 == 0
        }),
{
    let x = a * pow2(149);
    lemma_pow2_unfold(150);
    assert(a * pow2(150) == 2 * x) by (nonlinear_arith)
        requires
            pow2(150) == 2 * pow2(149),
            x == a * pow2(149),
    ;
    let s = b * scaled(r);
    let o = b * scaled(m);
    if m < r {
        let l = (r - 1) as nat;
        lemma_scaled_increases(l, r);
        if m < l {
            lemma_scaled_increases(m, l);
        }
        let p = b * scaled(l);
        assert(b * (scaled(r) + scaled(l)) == s + p) by (nonlinear_arith)
            requires
                s == b * scaled(r),
                p == b * scaled(l),
        ;
        assert(o <= p && p < s && (m < l ==> o < p)) by (nonlinear_arith)
            requires
                o == b * scaled(m),
                p == b * scaled(l),
                s == b * scaled(r),
                scaled(m) <= scaled(l) < scaled(r),
                m < l ==> scaled(m) < scaled(l),
                b > 0,
        ;
        assert(2 * x >= s + p);
    } else if m > r {
        let u = r + 1;
        lemma_scaled_increases(r, u);
        if m > u {
            lemma_scaled_increases(u, m);
        }
        let p = b * scaled(u);
        assert(b * (scaled(u) + scaled(r)) == s + p) by (nonlinear_arith)
            requires
                s == b * scaled(r),
                p == b * scaled(u),
        ;
        assert(p <= o && s < p && (u < m ==> p < o)) by (nonlinear_arith)
            requires
                o == b * scaled(m),
                p == b * scaled(u),
                s == b * scaled(r),
                scaled(r) < scaled(u) <= scaled(m),
                u < m ==> scaled(u) < scaled(m),
                b > 0,
        ;
        assert(2 * x <= s + p);
    }
}

/// Counts are rounded to at most twice their size.
proof fn lemma_nearest_at_most(n: nat)
    ensures
        nearest(n) <= 2 * n,
{
    let unit = spacing(n);
    lemma_spacing_positive(n);
    lemma_fundamental_div_mod(n as int, unit as int);
    let below = n / unit;
    assert(unit * below == below * unit && (below + 1) * unit == below * unit + unit) by (nonlinear_arith);
    if n == 0 {
        assert(unit == 1);
    }
}

/// The quotient of two counts is rounded to single precision before it is compared: there is a number of
/// which no other lies nearer to the quotient of the two rounded counts, the even one of two that are equally
/// near, and the quotient reaches the thresholds up to that number and exceeds those below it. It reaches and
/// exceeds every negative threshold, and compares with nothing that is no number.
pub proof fn law_quotient_is_rounded(a: nat, b: nat) -> (r: nat)
    requires
        a <= 0x1_ffff_ffff,
        0 < b <= 0x1_ffff_ffff,
    ensures
        r < 0x7f80_0000,
        forall|m: nat|
            m < 0x7f80_0000 ==> {
                let own = abs(nearest(a) * pow2(149) - nearest(b) * scaled(r));
                let other = abs(nearest(a) * pow2(149) - nearest(b) * #[trigger] scaled(m));
                &&& own <= other
                &&& own == other && m != r ==> r % 2 == 0
            },
        forall|t: Single| #[trigger]
            at_least(a, b, t) <==> if t.bits < 0x8000_0000 {
                t.bits <= 0x7f80_0000 && t.bits <= r
            } else {
                t.bits <= 0xff80_0000
            },
        forall|t: Single| #[trigger]
            above(a, b, t) <==> if t.bits <= 0x8000_0000 {
                t.bits <= 0x7f80_0000 && t.bits < r || t.bits == 0x8000_0000 && 0 < r
            } else {
                t.bits <= 0xff80_0000
            },
{
    let x = nearest(a);
    let y = nearest(b);
    lemma_nearest_positive(b);
    lemma_nearest_at_most(a);
    let r = lemma_greatest(x, y, 0x7f80_0001);
    assert(!rounds_up_to(x, y, 0x7f80_0000)) by {
        let inf: nat = 0x7f80_0000;
        assert(inf / 0x80_0000 == 255 && inf % 0x80_0000 == 0);
        let p = pow2(150);
        lemma_pow2_adds(150, 104);
        lemma_pow2_strictly_increases(64, 104);
        lemma2_to64();
        let q = pow2(104);
        assert(q >= 0x100_0000_0000);
        lemma_pow2_pos(150);
        let s = scaled(inf);
        let l = scaled((inf - 1) as nat);
        assert(s == 0x80_0000 * pow2(254));
        assert(y * (s + l) > x * p) by (nonlinear_arith)
            requires
                s == 0x80_0000 * (p * q),
                y >= 1,
                l >= 0,
                q >= 0x100_0000_0000,
                p > 0,
                x <= 0x3_ffff_fffe,
        {
            assert(p * q >= p * 0x100_0000_0000);
            assert(s >= p * 0x100_0000_0000);
            assert(x * p <= 0x3_ffff_fffe * p);
            assert(y * (s + l) >= s + l);
        }
    }
    assert(!rounds_up_to(x, y, 0x7f80_0001)) by {
        if rounds_up_to(x, y, 0x7f80_0001) {
            lemma_rounds_up_to_lower(x, y, 0x7f80_0000, 0x7f80_0001);
        }
    }
    assert(r < 0x7f80_0000);
    assert(!rounds_up_to(x, y, r + 1));
    assert forall|m: nat| m < 0x7f80_0000 implies {
        let own = abs(x * pow2(149) - y * scaled(r));
        let other = abs(x * pow2(149) - y * #[trigger] scaled(m));
        &&& own <= other
        &&& own == other && m != r ==> r % 2 == 0
    } by {
        lemma_greatest_is_nearest(x, y, r, m);
    }
    assert forall|m: nat| 0 < m <= 0x7f80_0001 implies (#[trigger] rounds_up_to(x, y, m) <==> m <= r) by {
        if m <= r {
            lemma_rounds_up_to_lower(x, y, m, r);
        }
    }
    assert forall|t: Single| #[trigger] at_least(a, b, t) <==> if t.bits < 0x8000_0000 {
        t.bits <= 0x7f80_0000 && t.bits <= r
    } else {
        t.bits <= 0xff80_0000
    } by {
        let m = t.magnitude();
        if 0 < m <= 0x7f80_0000 {
            assert(rounds_up_to(x, y, m) <==> m <= r);
        }
    }
    assert forall|t: Single| #[trigger] above(a, b, t) <==> if t.bits <= 0x8000_0000 {
        t.bits <= 0x7f80_0000 && t.bits < r || t.bits == 0x8000_0000 && 0 < r
    } else {
        t.bits <= 0xff80_0000
    } by {
        let m = t.magnitude();
        if m <= 0x7f80_0000 {
            assert(rounds_up_to(x, y, m + 1) <==> m + 1 <= r);
        }
    }
    r
}

/// What is divided by nothing reaches every threshold and exceeds every finite one, unless it is nothing
/// itself.
pub proof fn law_nothing_divides(a: nat, t: Single)
    ensures
        at_least(a, 0, t) <==> a > 0 && t.bits % 0x8000_0000 <= 0x7f80_0000,
        above(a, 0, t) <==> a > 0 && t.bits % 0x8000_0000 <= 0x7f80_0000 && t.bits != 0x7f80_0000,
{
}

/// `k` tokens out of `k + s` are compared with a threshold by the quotient of `k` and `k + s`, rounded to
/// single precision: no number of single precision lies nearer to it than the greatest threshold that is
/// reached.
pub proof fn law_share_of_tokens_decides(k: nat, s: nat) -> (r: nat)
    requires
        k + s <= 0x1_ffff_ffff,
        0 < k + s,
    ensures
        r < 0x7f80_0000,
        forall|m: nat|
            m < 0x7f80_0000 ==> {
                let own = abs(nearest(k) * pow2(149) - nearest(k + s) * scaled(r));
                let other = abs(nearest(k) * pow2(149) - nearest(k + s) * #[trigger] scaled(m));
                &&& own <= other
                &&& own == other && m != r ==> r % 2 == 0
            },
        forall|t: Single| #[trigger]
            passes(k, s, t) <==> if t.bits < 0x8000_0000 {
                t.bits <= 0x7f80_0000 && t.bits <= r
            } else {
                t.bits <= 0xff80_0000
            },
{
    let r = law_quotient_is_rounded(k, k + s);
    assert forall|t: Single| #[trigger] passes(k, s, t) <==> if t.bits < 0x8000_0000 {
        t.bits <= 0x7f80_0000 && t.bits <= r
    } else {
        t.bits <= 0xff80_0000
    } by {
        assert(at_least(k, k + s, t) == passes(k, s, t));
    }
    r
}

/// A value of up to 2^24 tokens, `k` of which are matched and `s` are not, reaches a positive threshold if
/// the threshold times the number of its tokens is at most `k`. It does not if even the number of single
/// precision below the threshold, times the number of its tokens, is more than `k`.
pub proof fn law_too_few_tokens_do_not_pass(k: nat, s: nat, t: Single)
    requires
        0 < k + s <= 0x100_0000,
        0 < t.bits <= 0x7f80_0000,
    ensures
        (k + s) * scaled(t.bits as nat) <= k * pow2(149) ==> passes(k, s, t),
        (k + s) * scaled((t.bits - 1) as nat) > k * pow2(149) ==> !passes(k, s, t),
{
    law_counts_up_to_2_24_are_exact(k);
    law_counts_up_to_2_24_are_exact(k + s);
    let n = k + s;
    let m = t.bits as nat;
    let l = (m - 1) as nat;
    lemma_scaled_increases(l, m);
    lemma_pow2_unfold(150);
    let x = k * pow2(149);
    assert(k * pow2(150) == 2 * x) by (nonlinear_arith)
        requires
            pow2(150) == 2 * pow2(149),
            x == k * pow2(149),
    ;
    assert(n * (scaled(m) + scaled(l)) == n * scaled(m) + n * scaled(l)) by (nonlinear_arith);
    assert(n * scaled(l) < n * scaled(m)) by (nonlinear_arith)
        requires
            scaled(l) < scaled(m),
            n > 0,
    ;
    assert(passes(k, s, t) == rounds_up_to(k, n, m));
}

/// Counts up to 2^24 are numbers of single precision.
pub proof fn law_counts_up_to_2_24_are_exact(n: nat)
    requires
        n <= 0x100_0000,
    ensures
        nearest(n) == n,
{
    if n == 0x100_0000 {
        assert(spacing(0x80_0000) == 1);
        assert(spacing(0x100_0000) == 2 * spacing(0x80_0000));
        assert(n / 2 == 0x80_0000 && n % 2 == 0);
    } else {
        assert(spacing(n) == 1);
        assert(n / 1 == n && n % 1 == 0);
        assert(n * 1 == n);
    }
}

/// The spacing is a power of two of which a count from 2^24 on is between 2^23 and 2^24 times as large.
proof fn lemma_spacing(n: nat) -> (p: nat)
    requires
        n >= 0x80_0000,
    ensures
        spacing(n) == pow2(p),
        0x80_0000 * pow2(p) <= n < 0x100_0000 * pow2(p) || n < 0x100_0000 && p == 0,
    decreases n,
{
    lemma2_to64();
    if n < 0x100_0000 {
        0
    } else {
        let q = lemma_spacing(n / 2);
        lemma_pow2_unfold(q + 1);
        if n / 2 < 0x100_0000 && q == 0 {
            assert(pow2(1) == 2);
        }
        q + 1
    }
}

/// A number of the form `s * 2^e` with `s` up to 2^24 does not lie between two multiples of `2^p` that follow
/// each other, the lower one being at least 2^23 times `2^p`.
proof fn lemma_none_between(s: nat, e: nat, p: nat, below: nat)
    requires
        s <= 0x100_0000,
        below >= 0x80_0000,
    ensures
        s * pow2(e) <= below * pow2(p) || s * pow2(e) >= (below + 1) * pow2(p),
{
    let u = pow2(p);
    lemma_pow2_pos(p);
    if e >= p {
        let d = (e - p) as nat;
        lemma_pow2_adds(d, p);
        let c = s * pow2(d);
        lemma_mul_is_associative(s as int, pow2(d) as int, u as int);
        if c <= below {
            assert(c * u <= below * u) by (nonlinear_arith)
                requires
                    c <= below,
            ;
        } else {
            assert(c * u >= (below + 1) * u) by (nonlinear_arith)
                requires
                    c >= below + 1,
            ;
        }
    } else {
        let q = (p - 1) as nat;
        lemma_pow2_unfold(p);
        if e < q {
            lemma_pow2_strictly_increases(e, q);
        }
        let v = pow2(q);
        let w = pow2(e);
        assert(s * w <= below * u) by (nonlinear_arith)
            requires
                s <= 0x100_0000,
                w <= v,
                u == 2 * v,
                below >= 0x80_0000,
        {
            assert(s * w <= 0x100_0000 * w);
            assert(0x100_0000 * w <= 0x100_0000 * v);
            assert(below * u >= 0x80_0000 * u);
        }
    }
}

/// A count is rounded to the nearest number of single precision, that is, of the form `s * 2^e` with `s` up
/// to 2^24. Of two that are equally near it is the even one: a multiple of twice their distance.
pub proof fn law_counts_are_rounded(n: nat, s: nat, e: nat) -> (form: (nat, nat))
    requires
        s <= 0x100_0000,
    ensures
        form.0 <= 0x100_0000,
        nearest(n) == form.0 * pow2(form.1),
        ({
            let x = s * pow2(e);
            &&& abs(nearest(n) - n) <= abs(x - n)
            &&& abs(nearest(n) - n) == abs(x - n) && x != nearest(n) ==> nearest(n) % (2 * abs(
                nearest(n) - x,
            )) == 0
        }),
{
    lemma2_to64();
    if n < 0x100_0000 {
        law_counts_up_to_2_24_are_exact(n);
        assert(n * pow2(0) == n);
        (n, 0)
    } else {
        let p = lemma_spacing(n);
        let u = pow2(p);
        let x = s * pow2(e);
        lemma_pow2_pos(p);
        let below = n / u;
        let rest = n % u;
        lemma_fundamental_div_mod(n as int, u as int);
        assert(u * below == below * u && (below + 1) * u == below * u + u) by (nonlinear_arith);
        assert(0x80_0000 <= below < 0x100_0000) by (nonlinear_arith)
            requires
                n == u * below + rest,
                0 <= rest < u,
                0x80_0000 * u <= n < 0x100_0000 * u,
        ;
        lemma_none_between(s, e, p, below);
        let low = below * u;
        assert(low + rest == n);
        if nearest(n) == low && (2 * rest < u || (2 * rest == u && below % 2 == 0)) {
            if abs(low - n) == abs(x - n) && x != low {
                assert(x == low + u);
                lemma_even_multiple(below, u);
            }
            (below, p)
        } else {
            assert(nearest(n) == (below + 1) * u);
            if abs(low + u - n) == abs(x - n) && x != low + u {
                assert(x == low);
                lemma_even_multiple(below + 1, u);
            }
            (below + 1, p)
        }
    }
}

/// An even multiple is a multiple of the double.
proof fn lemma_even_multiple(k: nat, u: nat)
    requires
        k % 2 == 0,
        u > 0,
    ensures
        (k * u) % (2 * u) == 0,
{
    let h = k / 2;
    assert(k * u == h * (2 * u)) by (nonlinear_arith)
        requires
            k == 2 * h,
    ;
    lemma_mod_multiples_basic(h as int, (2 * u) as int);
}

} // verus!
