//! Laws of quotients and square roots: they are rounded once, from the exact
//! value, and a hypotenuse is not shorter than its sides.
use vstd::arithmetic::div_mod::*;
use vstd::arithmetic::power2::*;
use vstd::prelude::*;

use crate::geometry::{plain_hypot, HUGE, SCALE_DOWN, SCALE_UP, TINY};
use crate::number::{
    floor_root, full_exponent, full_significand, is_root, nearest_double, with_sticky, Real, INF,
    UNIT,
};
use crate::ordering::{
    lemma_add_not_smaller, lemma_mul_monotone, lemma_nan_spreads, lemma_size_code,
    lemma_size_of_code, lemma_value_order,
};
use crate::rounding::{
    bit_len, in_units, lemma_bit_len_bounds, lemma_bit_len_monotone, lemma_bit_len_unique,
    lemma_in_units_bounds, lemma_nearest_exact, lemma_nearest_monotone, lemma_nearest_scaled,
    lemma_nearest_sticky, round_half_even, unit_exponent,
};

verus! {

/// Every number has a root.
pub proof fn lemma_root_exists(n: nat)
    ensures
        is_root(floor_root(n), n),
    decreases n,
{
    if n == 0 {
        assert(is_root(0, 0)) by {
            assert(0nat * 0nat == 0 && (0nat + 1) * (0nat + 1) == 1) by (nonlinear_arith);
        }
    } else {
        lemma_root_exists((n - 1) as nat);
        let r: nat = floor_root((n - 1) as nat);
        assert((r + 1) * (r + 1) < (r + 2) * (r + 2)) by (nonlinear_arith);
        if (r + 1) * (r + 1) == n {
            assert(is_root(r + 1, n));
        } else {
            assert(is_root(r, n));
        }
    }
}

/// The rounded square of a full significand does not fall short by as much as
/// the significand.
proof fn lemma_square_code(m: nat, e: int) -> (r: (int, nat))
    requires
        pow2(52) <= m < pow2(53),
        -552 <= e,
    ensures
        ({
            let (q, s): (int, nat) = r;
            &&& q >= -1074
            &&& q >= 2 * e
            &&& pow2(52) <= s <= pow2(53)
            &&& s * pow2((q - 2 * e) as nat) >= m * m - m + 1
            &&& m == pow2(52) ==> s * pow2((q - 2 * e) as nat) == m * m
            &&& nearest_double(m * m, 2 * e) == (if (q + 1074) * pow2(52) + s >= INF {
                INF as int
            } else {
                (q + 1074) * pow2(52) + s
            })
        }),
{
    lemma2_to64_rest();
    lemma2_to64();
    lemma_pow2_adds(52, 52);
    lemma_pow2_adds(52, 53);
    lemma_pow2_adds(53, 53);
    let n: nat = m * m;
    let low: nat = pow2(52);
    let high: nat = pow2(53);
    assert(low * low <= n < high * high) by (nonlinear_arith)
        requires
            n == m * m,
            low <= m < high,
    ;
    lemma_pow2_unfold(105);
    lemma_pow2_unfold(106);
    let k: nat = if n < pow2(105) {
        52
    } else {
        53
    };
    lemma_bit_len_unique(n, k + 53);
    let q: int = 2 * e + k;
    assert(unit_exponent(n, 2 * e, 53, -1074) == q);
    let d: nat = pow2(k);
    let s: nat = in_units(n, 2 * e, q);
    assert(s == round_half_even(n, d));
    lemma_in_units_bounds(n, 2 * e, 53, -1074);
    lemma_fundamental_div_mod(n as int, d as int);
    let whole: int = n as int / d as int;
    let rest: int = n as int % d as int;
    lemma_mod_bound(n as int, d as int);
    assert(s == whole || s == whole + 1);
    assert(2 * (s * d) >= 2 * n - d) by (nonlinear_arith)
        requires
            n == d * whole + rest,
            0 <= rest < d,
            (s == whole && 2 * rest <= d) || s == whole + 1,
    ;
    if k == 53 {
        assert(m > low) by (nonlinear_arith)
            requires
                m * m >= pow2(105),
                pow2(105) == 2 * (low * low),
                m >= low,
                low > 0,
        ;
    }
    assert(s * d >= n - m + 1);
    if m == low {
        assert(n == low * d);
        lemma_fundamental_div_mod_converse(n as int, d as int, low as int, 0);
    }
    if q == -1074 {
        lemma_pow2_pos(k);
        assert(s >= low) by {
            lemma_fundamental_div_mod(n as int, d as int);
            assert(whole >= low) by (nonlinear_arith)
                requires
                    n == d * whole + rest,
                    0 <= rest < d,
                    n >= low * d,
                    d > 0,
            ;
        }
    }
    (q, s)
}

/// A root that is taken of no less than the square of a full significand, less
/// that significand, rounds to no less than the significand.
proof fn lemma_root_code(n: nat, h: int, m: nat, e: int)
    requires
        pow2(52) <= m < pow2(53),
        e >= -1074,
        n >= pow2(114),
        e >= h ==> n >= (m * m - m + 1) * pow2((2 * (e - h)) as nat),
        e >= h && m == pow2(52) ==> n >= m * m * pow2((2 * (e - h)) as nat),
        is_root(floor_root(n), n),
    ensures
        ({
            let r: nat = floor_root(n);
            nearest_double(with_sticky(r, r * r != n), h - 1) >= nearest_double(m, e)
        }),
{
    lemma2_to64_rest();
    lemma2_to64();
    let r: nat = floor_root(n);
    let a: nat = with_sticky(r, r * r != n);
    lemma_pow2_adds(57, 57);
    let base: nat = pow2(57);
    assert(r >= base) by (nonlinear_arith)
        requires
            n < (r + 1) * (r + 1),
            n >= base * base,
    ;
    let d: int = e - h;
    if d < 4 {
        // The root is greater by far.
        let g: nat = if d >= 0 {
            0
        } else {
            (-d) as nat
        };
        let k: nat = (h + g - e) as nat;
        if d >= 0 {
            let c: nat = pow2(d as nat);
            lemma_nearest_scaled(m, (d + 1) as nat, e, 53, -1074, INF as nat);
            if d < 3 {
                lemma_pow2_strictly_increases(d as nat, 3);
            }
            lemma_pow2_unfold((d + 1) as nat);
            assert(m * (2 * c) <= a) by (nonlinear_arith)
                requires
                    m < pow2(53),
                    c <= 8,
                    pow2(53) == 0x20_0000_0000_0000,
                    a >= 2 * base,
                    base == 0x200_0000_0000_0000,
            ;
            lemma_nearest_monotone(m * (2 * c), a, h - 1, 53, -1074, INF as nat);
        } else {
            lemma_nearest_scaled(a, (-d) as nat, h - 1, 53, -1074, INF as nat);
            lemma_nearest_scaled(m, 1, e, 53, -1074, INF as nat);
            let c: nat = pow2((-d) as nat);
            lemma_pow2_pos((-d) as nat);
            assert(h - 1 + d == e - 1);
            assert(2 * m <= a * c) by (nonlinear_arith)
                requires
                    2 * m <= a,
                    c >= 1,
            ;
            assert(m * pow2(1) == 2 * m);
            lemma_nearest_monotone(2 * m, a * c, e - 1, 53, -1074, INF as nat);
        }
    } else {
        let c: nat = pow2(d as nat);
        let half: nat = pow2((d - 1) as nat);
        lemma_pow2_unfold(d as nat);
        lemma_pow2_adds(d as nat, d as nat);
        lemma_pow2_pos((d - 1) as nat);
        let square: nat = c * c;
        assert(pow2((2 * d) as nat) == square);
        lemma_nearest_scaled(m, (d + 1) as nat, e, 53, -1074, INF as nat);
        lemma_pow2_unfold((d + 1) as nat);
        assert(e - (d + 1) == h - 1);
        if m == pow2(52) {
            let w: nat = m * c;
            assert(w * w <= n) by (nonlinear_arith)
                requires
                    w == m * c,
                    n >= m * m * square,
                    square == c * c,
            ;
            assert(r >= w) by (nonlinear_arith)
                requires
                    n < (r + 1) * (r + 1),
                    w * w <= n,
            ;
            assert(m * (2 * c) == 2 * w) by (nonlinear_arith)
                requires
                    w == m * c,
            ;
            lemma_nearest_monotone(2 * w, a, h - 1, 53, -1074, INF as nat);
        } else {
            let w: nat = (m * c - half) as nat;
            assert(m * c >= half) by (nonlinear_arith)
                requires
                    c == 2 * half,
                    m >= 1,
            ;
            assert(w * w < n) by (nonlinear_arith)
                requires
                    w == m * c - half,
                    c == 2 * half,
                    half >= 1,
                    n >= (m * m - m + 1) * square,
                    square == c * c,
            ;
            assert(r >= w) by (nonlinear_arith)
                requires
                    n < (r + 1) * (r + 1),
                    w * w < n,
            ;
            let least: nat = (2 * w + 1) as nat;
            assert(a >= least) by {
                if r == w {
                    assert(r * r != n);
                }
            }
            lemma_nearest_monotone(least, a, h - 1, 53, -1074, INF as nat);
            lemma_just_above_half(m, d as nat, h, e);
        }
    }
}

/// What is more than halfway to a full significand rounds to it.
proof fn lemma_just_above_half(m: nat, d: nat, h: int, e: int)
    requires
        pow2(52) < m < pow2(53),
        d >= 1,
        e == h + d,
        e >= -1074,
    ensures
        2 * (m * pow2(d) - pow2((d - 1) as nat)) + 1 >= 0,
        nearest_double((2 * (m * pow2(d) - pow2((d - 1) as nat)) + 1) as nat, h - 1)
            == nearest_double(m, e),
{
    lemma2_to64_rest();
    lemma2_to64();
    let c: nat = pow2(d);
    let half: nat = pow2((d - 1) as nat);
    lemma_pow2_unfold(d);
    lemma_pow2_pos((d - 1) as nat);
    lemma_pow2_unfold((d + 1) as nat);
    lemma_pow2_adds(53, d);
    lemma_pow2_adds(54, d);
    let low: nat = pow2(52);
    assert(m * c >= c + low * c) by (nonlinear_arith)
        requires
            m >= low + 1,
    ;
    assert(m * c <= 2 * low * c - c) by (nonlinear_arith)
        requires
            m <= 2 * low - 1,
    ;
    let x: nat = (2 * (m * c - half) + 1) as nat;
    lemma_pow2_unfold(54);
    assert(pow2(53 + d) == 2 * low * c) by (nonlinear_arith)
        requires
            pow2(53 + d) == pow2(53) * c,
            pow2(53) == 2 * low,
    ;
    assert(pow2(54 + d) == 4 * low * c) by (nonlinear_arith)
        requires
            pow2(54 + d) == pow2(54) * c,
            pow2(54) == 2 * pow2(53),
            pow2(53) == 2 * low,
    ;
    assert(2 * low * c == 2 * (low * c)) by (nonlinear_arith);
    assert(4 * low * c == 4 * (low * c)) by (nonlinear_arith);
    lemma_bit_len_unique(x, 54 + d);
    assert(unit_exponent(x, h - 1, 53, -1074) == e);
    let unit: nat = pow2((d + 1) as nat);
    assert(unit == 2 * c);
    assert(x == (m - 1) * unit + (c + 1)) by (nonlinear_arith)
        requires
            x == 2 * (m * c - half) + 1,
            c == 2 * half,
            unit == 2 * c,
    ;
    lemma_fundamental_div_mod_converse(x as int, unit as int, m - 1, (c + 1) as int);
    assert(in_units(x, h - 1, e) == m);
    lemma_bit_len_unique(m, 53);
    assert(unit_exponent(m, e, 53, -1074) == e);
    lemma2_to64();
    assert(in_units(m, e, e) == m) by (nonlinear_arith)
        requires
            in_units(m, e, e) == m * pow2(0),
            pow2(0) == 1,
    ;
}

/// Brings the significands of a square and of a number that is no less to one
/// scale.
proof fn lemma_radicand(f: nat, g: int, t: nat, q: int, m: nat, e: int, h: int)
    requires
        g >= -1074,
        q >= -1074,
        q >= 2 * e,
        e >= h,
        2 * h == g - g % 2 - 62,
        f * pow2((g + 1074) as nat) >= t * pow2((q + 1074) as nat),
        t * pow2((q - 2 * e) as nat) >= m * m - m + 1,
    ensures
        ({
            let n: nat = f * pow2((62 + g % 2) as nat);
            &&& n >= (m * m - m + 1) * pow2((2 * (e - h)) as nat)
            &&& t * pow2((q - 2 * e) as nat) == m * m ==> n >= m * m * pow2((2 * (e - h)) as nat)
        }),
{
    let odd: int = g % 2;
    let step: nat = pow2((62 + odd) as nat);
    let n: nat = f * step;
    let d2: nat = (2 * (e - h)) as nat;
    let i: nat = (g + 1074) as nat;
    let j: nat = (q + 1074) as nat;
    let k: nat = (q - 2 * e) as nat;
    assert(j + (62 + odd) == k + d2 + i);
    lemma_pow2_adds(j, (62 + odd) as nat);
    lemma_pow2_adds(k, d2);
    lemma_pow2_adds((k + d2) as nat, i);
    lemma_pow2_pos(i);
    let pi: nat = pow2(i);
    let pj: nat = pow2(j);
    let pk: nat = pow2(k);
    let pd: nat = pow2(d2);
    assert(pj * step == pk * pd * pi);
    assert((f * pi) * step >= (t * pj) * step) by (nonlinear_arith)
        requires
            f * pi >= t * pj,
            step >= 0,
    ;
    assert((f * pi) * step == n * pi) by (nonlinear_arith)
        requires
            n == f * step,
    ;
    assert((t * pj) * step == t * (pj * step)) by (nonlinear_arith);
    assert(t * (pk * pd * pi) == (t * pk * pd) * pi) by (nonlinear_arith);
    assert(n >= t * pk * pd) by (nonlinear_arith)
        requires
            n * pi >= (t * pk * pd) * pi,
            pi > 0,
    ;
    let least: int = m * m - m + 1;
    assert(t * pk * pd >= least * pd) by (nonlinear_arith)
        requires
            t * pk >= least,
            pd >= 0,
    ;
}

/// The root of no less than the rounded square of a number is no less than the
/// number.
#[verifier::rlimit(40)]
proof fn lemma_root_of_square(x: Real, s: Real)
    requires
        x.finite(),
        !x.negative(),
        x.magnitude() >= 0x20b0_0000_0000_0000,
        !s.nan(),
        x.spec_mul(x).rank() <= s.rank(),
    ensures
        !s.spec_sqrt().nan(),
        x.rank() <= s.spec_sqrt().rank(),
{
    reveal(Real::spec_mul);
    reveal(Real::spec_sqrt);
    lemma2_to64_rest();
    lemma2_to64();
    let m: nat = x.significand();
    let e: int = x.exponent();
    assert(pow2(52) <= m < pow2(53));
    assert(e >= -552);
    let (q, t): (int, nat) = lemma_square_code(m, e);
    let product: Real = x.spec_mul(x);
    lemma_size_code(x);
    assert((q + 1074) * pow2(52) >= 0) by (nonlinear_arith)
        requires
            q >= -1074,
    ;
    assert(product.magnitude() == nearest_double(m * m, 2 * e));
    assert(!product.negative());
    assert(product.magnitude() > 0);
    assert(!s.negative() && s.magnitude() >= product.magnitude());
    if s.finite() {
        lemma_size_of_code(product, q, t);
        lemma_value_order(product, s);
        let f: nat = s.significand();
        let g: int = s.exponent();
        assert(s.magnitude() >= UNIT) by (nonlinear_arith)
            requires
                s.magnitude() >= (q + 1074) * pow2(52) + t,
                q >= -1074,
                t >= pow2(52),
                pow2(52) == UNIT,
        ;
        lemma_bit_len_unique(f, 53);
        assert(full_significand(f) == f) by (nonlinear_arith)
            requires
                full_significand(f) == f * pow2(0),
                pow2(0) == 1,
        ;
        assert(full_exponent(f, g) == g);
        let odd: int = g % 2;
        let n: nat = f * pow2((62 + odd) as nat);
        let h: int = (g - odd - 62) / 2;
        assert(2 * h == g - odd - 62);
        let step: nat = pow2((62 + odd) as nat);
        lemma_pow2_adds(52, 62);
        if odd == 1 {
            lemma_pow2_strictly_increases(62, 63);
        }
        assert(n >= pow2(114)) by (nonlinear_arith)
            requires
                n == f * step,
                f >= pow2(52),
                step >= pow2(62),
                pow2(114) == pow2(52) * pow2(62),
        ;
        lemma_root_exists(n);
        if e >= h {
            lemma_radicand(f, g, t, q, m, e, h);
        }
        lemma_root_code(n, h, m, e);
        assert(nearest_double(m, e) == x.magnitude());
    }
}

proof fn lemma_add_commutes(a: Real, b: Real)
    ensures
        a.spec_add(b) == b.spec_add(a),
{
    reveal(Real::spec_add);
}

/// The root of the sum of two rounded squares is no less than either number.
proof fn lemma_plain_hypot(a: Real, b: Real, x: Real)
    requires
        a.finite(),
        b.finite(),
        a.rank() >= 0,
        b.rank() >= 0,
        x == a || x == b,
        !x.negative(),
        x.magnitude() >= 0x20b0_0000_0000_0000,
    ensures
        !plain_hypot(a, b).nan(),
        x.rank() <= plain_hypot(a, b).rank(),
{
    lemma_mul_monotone(a, a, a, a);
    lemma_mul_monotone(b, b, b, b);
    lemma_add_commutes(a.spec_mul(a), b.spec_mul(b));
    if x == a {
        lemma_add_not_smaller(a.spec_mul(a), b.spec_mul(b));
    } else {
        lemma_add_not_smaller(b.spec_mul(b), a.spec_mul(a));
    }
    lemma_root_of_square(x, a.spec_mul(a).spec_add(b.spec_mul(b)));
}

/// Scaling by a power of two is exact, and can be undone, where the result is
/// of ordinary size.
proof fn lemma_scaling_exact(x: Real, up: Real, down: Real, k: int)
    requires
        x.finite(),
        !x.negative(),
        x.magnitude() > 0,
        -1000 <= k <= 1000,
        up.bits == (k + 1023) * 0x10_0000_0000_0000,
        down.bits == (1023 - k) * 0x10_0000_0000_0000,
        x.exponent() + bit_len(x.significand()) + k >= -900,
        x.exponent() + bit_len(x.significand()) + k <= 900,
    ensures
        x.spec_mul(up).finite(),
        !x.spec_mul(up).negative(),
        x.spec_mul(up).magnitude() >= (x.exponent() + bit_len(x.significand()) + k + 1022)
            * 0x10_0000_0000_0000,
        x.spec_mul(up).spec_mul(down) == x,
{
    reveal(Real::spec_mul);
    lemma2_to64_rest();
    lemma2_to64();
    let m: nat = x.significand();
    let e: int = x.exponent();
    let b: nat = bit_len(m);
    assert(up.significand() == UNIT as nat && up.exponent() == k - 52);
    assert(down.significand() == UNIT as nat && down.exponent() == -k - 52);
    lemma_bit_len_bounds(m);
    if b > 53 {
        if 53 < b - 1 {
            lemma_pow2_strictly_increases(53, (b - 1) as nat);
        }
    }
    let j: nat = (53 - b) as nat;
    let c: nat = pow2(j);
    let full: nat = m * c;
    lemma_pow2_pos(j);
    lemma_pow2_adds((b - 1) as nat, j);
    lemma_pow2_adds(b, j);
    let lo: nat = pow2((b - 1) as nat);
    let hi: nat = pow2(b);
    assert(lo * c <= full < hi * c) by (nonlinear_arith)
        requires
            full == m * c,
            lo <= m < hi,
            c > 0,
    ;
    assert((b - 1) as nat + j == 52);
    assert(b + j == 53);
    lemma_nearest_scaled(m, 52, e + k, 53, -1074, INF as nat);
    lemma_nearest_scaled(m, j, e + k, 53, -1074, INF as nat);
    let high: int = e + k - j + 1074;
    assert(high * pow2(52) == high * UNIT) by (nonlinear_arith)
        requires
            pow2(52) == UNIT,
    ;
    assert((e + k - j) - (-1074) == high);
    lemma_nearest_exact(full, e + k - j, 53, -1074, INF as nat);
    let u: Real = x.spec_mul(up);
    assert(u.magnitude() == (e + k - j + 1074) * UNIT + full);
    assert(u.significand() == full);
    assert(u.exponent() == e + k - j);
    lemma_nearest_scaled(full, 52, e - j, 53, -1074, INF as nat);
    lemma_nearest_scaled(m, j, e, 53, -1074, INF as nat);
    lemma_size_code(x);
}

/// A hypotenuse is not shorter than a side.
pub proof fn lemma_hypot_not_shorter(a: Real, b: Real)
    requires
        a.finite(),
        b.finite(),
        a.rank() > 0,
        b.rank() >= 0,
    ensures
        !a.spec_hypot(b).nan(),
        a.rank() <= a.spec_hypot(b).rank(),
{
    lemma2_to64_rest();
    lemma2_to64();
    let u: Real = a.spec_abs();
    let v: Real = b.spec_abs();
    assert(u.magnitude() == a.magnitude() && !u.negative());
    assert(v.magnitude() == b.magnitude() && !v.negative());
    let x: Real = if u.rank() >= v.rank() {
        u
    } else {
        v
    };
    let up: Real = Real::of(SCALE_UP);
    let down: Real = Real::of(SCALE_DOWN);
    lemma_bit_len_bounds(x.significand());
    let bits: nat = bit_len(x.significand());
    if x.magnitude() >= UNIT {
        lemma_bit_len_unique(x.significand(), 53);
    } else if bits > 52 {
        if 52 < bits - 1 {
            lemma_pow2_strictly_increases(52, (bits - 1) as nat);
        }
    }
    if Real::of(HUGE).le(u) || Real::of(HUGE).le(v) {
        lemma_scaling_exact(x, down, up, -600);
        lemma_mul_monotone(u, u, down, down);
        lemma_mul_monotone(v, v, down, down);
        lemma_mul_monotone(u, x, down, down);
        lemma_mul_monotone(v, x, down, down);
        let scaled: Real = x.spec_mul(down);
        let r: Real = plain_hypot(u.spec_mul(down), v.spec_mul(down));
        lemma_plain_hypot(u.spec_mul(down), v.spec_mul(down), scaled);
        lemma_unscaled(scaled, r, up);
    } else if u.lt(Real::of(TINY)) && v.lt(Real::of(TINY)) {
        lemma_scaling_exact(x, up, down, 600);
        lemma_mul_monotone(u, x, up, up);
        lemma_mul_monotone(v, x, up, up);
        let scaled: Real = x.spec_mul(up);
        let r: Real = plain_hypot(u.spec_mul(up), v.spec_mul(up));
        lemma_plain_hypot(u.spec_mul(up), v.spec_mul(up), scaled);
        lemma_unscaled(scaled, r, down);
    } else {
        lemma_plain_hypot(u, v, x);
    }
}

/// A greater number is no smaller after scaling.
proof fn lemma_unscaled(a: Real, r: Real, scale: Real)
    requires
        a.finite(),
        a.rank() >= 0,
        !r.nan(),
        a.rank() <= r.rank(),
        scale.finite(),
        scale.rank() > 0,
        a.spec_mul(scale).finite(),
    ensures
        !r.spec_mul(scale).nan(),
        a.spec_mul(scale).rank() <= r.spec_mul(scale).rank(),
{
    if r.finite() {
        lemma_mul_monotone(a, r, scale, scale);
    } else {
        reveal(Real::spec_mul);
    }
}

/// The sides of a hypotenuse can be swapped.
pub proof fn lemma_hypot_commutes(a: Real, b: Real)
    ensures
        a.spec_hypot(b) == b.spec_hypot(a),
{
    let u: Real = a.spec_abs();
    let v: Real = b.spec_abs();
    let up: Real = Real::of(SCALE_UP);
    let down: Real = Real::of(SCALE_DOWN);
    lemma_add_commutes(u.spec_mul(u), v.spec_mul(v));
    lemma_add_commutes(
        u.spec_mul(up).spec_mul(u.spec_mul(up)),
        v.spec_mul(up).spec_mul(v.spec_mul(up)),
    );
    lemma_add_commutes(
        u.spec_mul(down).spec_mul(u.spec_mul(down)),
        v.spec_mul(down).spec_mul(v.spec_mul(down)),
    );
}

/// The full significand of a positive number has 53 binary digits.
pub proof fn lemma_full_significand(a: Real)
    requires
        a.finite(),
        a.magnitude() > 0,
    ensures
        0 < bit_len(a.significand()) <= 53,
        pow2(52) <= full_significand(a.significand()) < pow2(53),
{
    lemma2_to64_rest();
    let m: nat = a.significand();
    let b: nat = bit_len(m);
    lemma_bit_len_bounds(m);
    if b > 53 {
        if 53 < b - 1 {
            lemma_pow2_strictly_increases(53, (b - 1) as nat);
        }
    }
    let j: nat = (53 - b) as nat;
    let c: nat = pow2(j);
    let full: nat = m * c;
    lemma_pow2_pos(j);
    lemma_pow2_adds((b - 1) as nat, j);
    lemma_pow2_adds(b, j);
    let lo: nat = pow2((b - 1) as nat);
    let hi: nat = pow2(b);
    assert(lo * c <= full < hi * c) by (nonlinear_arith)
        requires
            full == m * c,
            lo <= m < hi,
            c > 0,
    ;
    assert((b - 1) as nat + j == 52);
    assert(b + j == 53);
}

/// A quotient rounds the exact value: carrying the division `j` binary digits
/// further does not change what it rounds to.
pub proof fn lemma_quotient_rounds_once(a: Real, b: Real, j: nat)
    requires
        a.finite(),
        b.finite(),
        a.magnitude() > 0,
        b.magnitude() > 0,
    ensures
        ({
            let n: nat = full_significand(a.significand()) * pow2(57 + j);
            let d: nat = full_significand(b.significand());
            let e: int = full_exponent(a.significand(), a.exponent()) - full_exponent(
                b.significand(),
                b.exponent(),
            );
            a.spec_div(b).magnitude() == nearest_double(
                with_sticky(n / d, n % d != 0),
                e - 58 - j,
            )
        }),
{
    reveal(Real::spec_div);
    lemma2_to64_rest();
    lemma2_to64();
    lemma_full_significand(a);
    lemma_full_significand(b);
    let f: nat = full_significand(a.significand());
    let d: nat = full_significand(b.significand());
    let e: int = full_exponent(a.significand(), a.exponent()) - full_exponent(
        b.significand(),
        b.exponent(),
    );
    let n: nat = f * pow2(57);
    let w: nat = n / d;
    let rest: nat = n % d;
    lemma_fundamental_div_mod(n as int, d as int);
    lemma_mod_bound(n as int, d as int);
    assert(w >= 0x100_0000_0000_0000) by (nonlinear_arith)
        requires
            n == d * w + rest,
            rest < d,
            n == f * pow2(57),
            pow2(57) == 0x200_0000_0000_0000,
            f >= 0x10_0000_0000_0000,
            d < 0x20_0000_0000_0000,
    ;
    lemma_long(w, 57);
    let c: nat = pow2(j);
    lemma_pow2_adds(57, j);
    lemma_pow2_pos(j);
    let longer: nat = f * pow2(57 + j);
    assert(longer == n * c) by (nonlinear_arith)
        requires
            longer == f * (pow2(57) * c),
            n == f * pow2(57),
    ;
    // longer == (w * c + t) * d + last
    let carried: nat = rest * c;
    let t: nat = carried / d;
    let last: nat = carried % d;
    lemma_fundamental_div_mod(carried as int, d as int);
    lemma_mod_bound(carried as int, d as int);
    assert(t < c) by (nonlinear_arith)
        requires
            carried == d * t + last,
            carried == rest * c,
            rest < d,
            last >= 0,
            c > 0,
    ;
    assert(longer == d * (w * c + t) + last) by (nonlinear_arith)
        requires
            longer == n * c,
            n == d * w + rest,
            carried == rest * c,
            carried == d * t + last,
    ;
    assert((w * c + t) * d == d * (w * c + t)) by (nonlinear_arith);
    lemma_fundamental_div_mod_converse(
        longer as int,
        d as int,
        (w * c + t) as int,
        last as int,
    );
    let odd: nat = if last != 0 {
        1
    } else {
        0
    };
    let tail: nat = 2 * t + odd;
    lemma_pow2_unfold(j + 1);
    assert((rest != 0) == (tail != 0)) by {
        if rest == 0 {
            assert(carried == 0) by (nonlinear_arith)
                requires
                    carried == rest * c,
                    rest == 0,
            ;
        } else if t == 0 {
            assert(carried > 0) by (nonlinear_arith)
                requires
                    carried == rest * c,
                    rest > 0,
                    c > 0,
            ;
            assert(d * t == 0) by (nonlinear_arith)
                requires
                    t == 0,
            ;
        }
    }
    assert(with_sticky((w * c + t) as nat, last != 0) == w * pow2(j + 1) + tail)
        by (nonlinear_arith)
        requires
            with_sticky((w * c + t) as nat, last != 0) == 2 * (w * c + t) + odd,
            tail == 2 * t + odd,
            pow2(j + 1) == 2 * c,
    ;
    lemma_nearest_sticky(w, tail, j + 1, e - 58 - j, 53, -1074, INF as nat);
    lemma_sticky_below_inf(with_sticky(w, rest != 0), e - 58);
}

proof fn lemma_sticky_below_inf(m: nat, e: int)
    ensures
        nearest_double(m, e) <= INF,
{
}

/// A number from a power of two on has as many binary digits.
proof fn lemma_long(w: nat, digits: nat)
    requires
        digits > 0,
        w >= pow2((digits - 1) as nat),
    ensures
        bit_len(w) >= digits,
{
    lemma_pow2_unfold(digits);
    lemma_pow2_pos((digits - 1) as nat);
    lemma_bit_len_unique(pow2((digits - 1) as nat), digits);
    lemma_bit_len_monotone(pow2((digits - 1) as nat), w);
}

/// A square root rounds the exact value: carrying the root `j` binary digits
/// further does not change what it rounds to.
pub proof fn lemma_root_rounds_once(a: Real, j: nat)
    requires
        a.finite(),
        !a.negative(),
        a.magnitude() > 0,
    ensures
        ({
            let m: nat = full_significand(a.significand());
            let e: int = full_exponent(a.significand(), a.exponent());
            let n: nat = m * pow2((62 + e % 2 + 2 * j) as nat);
            let r: nat = floor_root(n);
            a.spec_sqrt().magnitude() == nearest_double(
                with_sticky(r, r * r != n),
                (e - e % 2 - 62) / 2 - 1 - j,
            )
        }),
{
    reveal(Real::spec_sqrt);
    lemma2_to64_rest();
    lemma2_to64();
    lemma_full_significand(a);
    let m: nat = full_significand(a.significand());
    let e: int = full_exponent(a.significand(), a.exponent());
    let k: nat = (62 + e % 2) as nat;
    let n: nat = m * pow2(k);
    let r: nat = floor_root(n);
    lemma_root_exists(n);
    let c: nat = pow2(j);
    lemma_pow2_adds(j, j);
    lemma_pow2_adds(k, 2 * j);
    lemma_pow2_pos(j);
    let longer: nat = m * pow2(k + 2 * j);
    assert(longer == n * (c * c)) by (nonlinear_arith)
        requires
            longer == m * (pow2(k) * (c * c)),
            n == m * pow2(k),
    ;
    lemma_root_exists(longer);
    let root: nat = floor_root(longer);
    let low: nat = r * c;
    assert(low * low <= longer) by (nonlinear_arith)
        requires
            low == r * c,
            longer == n * (c * c),
            r * r <= n,
    ;
    assert(longer < (low + c) * (low + c)) by (nonlinear_arith)
        requires
            low == r * c,
            longer == n * (c * c),
            n < (r + 1) * (r + 1),
            c > 0,
    ;
    assert(root >= low) by (nonlinear_arith)
        requires
            low * low <= longer,
            longer < (root + 1) * (root + 1),
    ;
    assert(root < low + c) by (nonlinear_arith)
        requires
            root * root <= longer,
            longer < (low + c) * (low + c),
    ;
    let t: nat = (root - low) as nat;
    let odd: nat = if root * root != longer {
        1
    } else {
        0
    };
    let tail: nat = 2 * t + odd;
    lemma_pow2_unfold(j + 1);
    assert((r * r != n) == (tail != 0)) by {
        if r * r == n {
            assert(low * low == longer) by (nonlinear_arith)
                requires
                    low == r * c,
                    longer == n * (c * c),
                    r * r == n,
            ;
            assert(root == low) by (nonlinear_arith)
                requires
                    root >= low,
                    root * root <= longer,
                    low * low == longer,
            ;
        } else if t == 0 {
            assert(low * low != longer) by (nonlinear_arith)
                requires
                    low == r * c,
                    longer == n * (c * c),
                    r * r < n,
                    c > 0,
            ;
        }
    }
    if e % 2 == 1 {
        lemma_pow2_strictly_increases(62, 63);
    }
    lemma_pow2_adds(52, 62);
    lemma_pow2_adds(57, 57);
    let base: nat = pow2(57);
    assert(n >= base * base) by (nonlinear_arith)
        requires
            n == m * pow2(k),
            m >= pow2(52),
            pow2(k) >= pow2(62),
            base * base == pow2(52) * pow2(62),
    ;
    assert(r >= base) by (nonlinear_arith)
        requires
            n < (r + 1) * (r + 1),
            n >= base * base,
    ;
    lemma_long(r, 58);
    assert(with_sticky(root, root * root != longer) == r * pow2(j + 1) + tail)
        by (nonlinear_arith)
        requires
            with_sticky(root, root * root != longer) == 2 * root + odd,
            root == r * c + t,
            tail == 2 * t + odd,
            pow2(j + 1) == 2 * c,
    ;
    lemma_nearest_sticky(
        r,
        tail,
        j + 1,
        (e - e % 2 - 62) / 2 - 1 - j,
        53,
        -1074,
        INF as nat,
    );
    lemma_sticky_below_inf(with_sticky(r, r * r != n), (e - e % 2 - 62) / 2 - 1);
}

/// Of two positive numbers the smaller one has the smaller full exponent or,
/// with the same one, the smaller full significand.
proof fn lemma_full_order(a: Real, b: Real)
    requires
        b.finite(),
        0 < a.magnitude() <= b.magnitude(),
    ensures
        full_exponent(a.significand(), a.exponent()) <= full_exponent(
            b.significand(),
            b.exponent(),
        ),
        full_exponent(a.significand(), a.exponent()) == full_exponent(
            b.significand(),
            b.exponent(),
        ) ==> full_significand(a.significand()) <= full_significand(b.significand()),
{
    lemma2_to64_rest();
    lemma2_to64();
    lemma_full_significand(a);
    lemma_full_significand(b);
    let x: nat = a.significand();
    let y: nat = b.significand();
    if a.magnitude() >= UNIT {
        lemma_bit_len_unique(x, 53);
    }
    if b.magnitude() >= UNIT {
        lemma_bit_len_unique(y, 53);
    } else {
        lemma_bit_len_monotone(x, y);
        let c: nat = pow2((53 - bit_len(x)) as nat);
        assert(x * c <= y * c) by (nonlinear_arith)
            requires
                x <= y,
        ;
    }
    if a.magnitude() < UNIT && b.magnitude() >= UNIT {
        lemma_bit_len_bounds(x);
        if bit_len(x) == 53 {
            assert(false);
        }
    }
    if a.magnitude() >= UNIT {
        assert(x * pow2(0) == x);
        assert(y * pow2(0) == y);
    }
}

/// A number divided by one that is not smaller is at most one.
pub proof fn lemma_quotient_at_most_one(a: Real, b: Real)
    requires
        a.finite(),
        b.finite(),
        a.magnitude() <= b.magnitude(),
        b.magnitude() > 0,
    ensures
        a.spec_div(b).magnitude() <= 0x3ff0_0000_0000_0000,
{
    reveal(Real::spec_div);
    if a.magnitude() > 0 {
        lemma2_to64_rest();
        lemma2_to64();
        lemma_full_significand(a);
        lemma_full_significand(b);
        lemma_full_order(a, b);
        let f: nat = full_significand(a.significand());
        let d: nat = full_significand(b.significand());
        let e: int = full_exponent(a.significand(), a.exponent()) - full_exponent(
            b.significand(),
            b.exponent(),
        );
        let n: nat = f * pow2(57);
        let w: nat = n / d;
        let rest: nat = n % d;
        lemma_fundamental_div_mod(n as int, d as int);
        lemma_mod_bound(n as int, d as int);
        let m: nat = with_sticky(w, rest != 0);
        let k: nat = (-e) as nat;
        let c: nat = pow2(k);
        lemma_pow2_pos(k);
        if e == 0 {
            assert(2 * w + 1 <= 0x400_0000_0000_0000 || (w == 0x200_0000_0000_0000 && rest == 0))
                by (nonlinear_arith)
                requires
                    n == d * w + rest,
                    0 <= rest < d,
                    n == f * 0x200_0000_0000_0000,
                    f <= d,
            ;
        } else {
            assert(w < 0x400_0000_0000_0000) by (nonlinear_arith)
                requires
                    n == d * w + rest,
                    0 <= rest < d,
                    n == f * 0x200_0000_0000_0000,
                    f < 0x20_0000_0000_0000,
                    d >= 0x10_0000_0000_0000,
            ;
            lemma_pow2_unfold(k);
            lemma_pow2_pos((k - 1) as nat);
            assert(c >= 2);
        }
        let one: nat = pow2(58);
        assert(m <= one * c) by (nonlinear_arith)
            requires
                one == 0x400_0000_0000_0000,
                m <= one || (m < 2 * one && c >= 2),
                c >= 1,
        ;
        lemma_nearest_scaled(one, k, -58, 53, -1074, INF as nat);
        lemma_nearest_monotone(m, one * c, e - 58, 53, -1074, INF as nat);
        let unit: Real = Real { bits: 0x3ff0_0000_0000_0000 };
        assert(unit.significand() == UNIT as nat);
        assert(unit.exponent() == -52);
        lemma_size_code(unit);
        lemma_nearest_scaled(UNIT as nat, 6, -52, 53, -1074, INF as nat);
        assert(nearest_double(m, e - 58) <= 0x3ff0_0000_0000_0000);
    }
}

proof fn lemma_plain_hypot_of_nan(a: Real, b: Real)
    requires
        b.nan(),
    ensures
        plain_hypot(a, b).nan(),
{
    lemma_nan_spreads(b, b);
    lemma_nan_spreads(a.spec_mul(a), b.spec_mul(b));
    reveal(Real::spec_sqrt);
}

proof fn lemma_hypot_of_nan(a: Real, b: Real)
    requires
        a.finite(),
        b.nan(),
    ensures
        a.spec_hypot(b).nan(),
{
    let u: Real = a.spec_abs();
    let v: Real = b.spec_abs();
    let up: Real = Real::of(SCALE_UP);
    let down: Real = Real::of(SCALE_DOWN);
    assert(v.magnitude() == b.magnitude());
    assert(u.magnitude() == a.magnitude());
    lemma_nan_spreads(v, down);
    lemma_plain_hypot_of_nan(u, v);
    lemma_plain_hypot_of_nan(u.spec_mul(down), v.spec_mul(down));
    lemma_nan_spreads(plain_hypot(u.spec_mul(down), v.spec_mul(down)), up);
}

/// The coordinate of a direction is at most one, where it is a number.
pub proof fn lemma_share_of_hypot(a: Real, b: Real)
    requires
        !a.spec_div(a.spec_hypot(b)).nan(),
        a.spec_hypot(b).rank() > 0,
    ensures
        a.spec_div(a.spec_hypot(b)).magnitude() <= 0x3ff0_0000_0000_0000,
{
    let length: Real = a.spec_hypot(b);
    let u: Real = a.spec_abs();
    let v: Real = b.spec_abs();
    assert(u.magnitude() == a.magnitude() && !u.negative());
    assert(v.magnitude() == b.magnitude() && !v.negative());
    assert(u.spec_abs() == u && v.spec_abs() == v);
    assert(length == u.spec_hypot(v));
    assert(!a.nan() && !(a.infinite() && length.infinite())) by {
        reveal(Real::spec_div);
    }
    assert(!length.finite() || a.magnitude() == 0 ==> a.spec_div(length).magnitude() == 0) by {
        reveal(Real::spec_div);
    }
    if a.finite() && length.finite() && a.magnitude() > 0 {
        if b.nan() {
            lemma_hypot_of_nan(a, b);
        }
        lemma_hypot_not_shorter(u, v);
        lemma_quotient_at_most_one(a, length);
    }
}

} // verus!
