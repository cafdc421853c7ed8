//! Rounding of exact dyadic numbers to a binary floating-point format.
//!
//! A format is given by its precision `p` (significant bits), the exponent
//! `emin` of its smallest positive number and the magnitude code `inf` of its
//! infinity. Magnitude codes are the usual interchange encodings without the
//! sign bit: consecutive representable magnitudes have consecutive codes.
use vstd::arithmetic::div_mod::*;
use vstd::arithmetic::mul::*;
use vstd::arithmetic::power2::*;
use vstd::prelude::*;

verus! {

/// Number of binary digits of `m`; zero has none.
pub open spec fn bit_len(m: nat) -> nat
    decreases m,
{
    if m == 0 {
        0
    } else {
        1 + bit_len(m / 2)
    }
}

/// The integer nearest to `n / d`, the even one of two that are equally near.
pub open spec fn round_half_even(n: nat, d: nat) -> nat {
    let whole: nat = n / d;
    let rest: nat = n % d;
    if 2 * rest > d || (2 * rest == d && whole % 2 == 1) {
        whole + 1
    } else {
        whole
    }
}

/// Exponent of the last significant bit when `m * 2^e` is rounded.
pub open spec fn unit_exponent(m: nat, e: int, p: nat, emin: int) -> int {
    let full: int = e + bit_len(m) - p;
    if full < emin {
        emin
    } else {
        full
    }
}

/// `m * 2^e` counted in units of `2^q`, rounded to a whole number of them.
pub open spec fn in_units(m: nat, e: int, q: int) -> nat {
    if q <= e {
        m * pow2((e - q) as nat)
    } else {
        round_half_even(m, pow2((q - e) as nat))
    }
}

/// Magnitude code of the representable number nearest to `m * 2^e`, ties to even.
pub open spec fn nearest(m: nat, e: int, p: nat, emin: int, inf: nat) -> nat {
    if m == 0 {
        0
    } else {
        let q: int = unit_exponent(m, e, p, emin);
        let code: nat = ((q - emin) * pow2((p - 1) as nat) + in_units(m, e, q)) as nat;
        if code >= inf {
            inf
        } else {
            code
        }
    }
}

/// A number of `k` binary digits lies between two powers of two.
pub proof fn lemma_bit_len_bounds(m: nat)
    requires
        m > 0,
    ensures
        bit_len(m) > 0,
        pow2((bit_len(m) - 1) as nat) <= m < pow2(bit_len(m)),
    decreases m,
{
    lemma_pow2_unfold(bit_len(m));
    if m / 2 == 0 {
        assert(m == 1);
        assert(bit_len(0) == 0);
        assert(bit_len(1) == 1 + bit_len(0));
        lemma2_to64();
    } else {
        lemma_bit_len_bounds(m / 2);
        lemma_pow2_unfold(bit_len(m / 2));
    }
}

/// Only numbers of `k` binary digits lie between those powers of two.
pub proof fn lemma_bit_len_unique(m: nat, k: nat)
    requires
        k > 0,
        pow2((k - 1) as nat) <= m < pow2(k),
    ensures
        bit_len(m) == k,
{
    lemma_pow2_pos((k - 1) as nat);
    lemma_bit_len_bounds(m);
    let b: nat = bit_len(m);
    if b < k {
        if b < k - 1 {
            lemma_pow2_strictly_increases(b, (k - 1) as nat);
        }
    } else if b > k {
        if k < b - 1 {
            lemma_pow2_strictly_increases(k, (b - 1) as nat);
        }
    }
}

/// Appending `j` binary digits adds `j` to the length.
pub proof fn lemma_bit_len_append(a: nat, r: nat, j: nat)
    requires
        a > 0,
        r < pow2(j),
    ensures
        bit_len(a * pow2(j) + r) == bit_len(a) + j,
{
    let b: nat = bit_len(a);
    lemma_bit_len_bounds(a);
    lemma_pow2_pos(j);
    lemma_pow2_adds((b - 1) as nat, j);
    lemma_pow2_adds(b, j);
    let d: nat = pow2(j);
    let lo: nat = pow2((b - 1) as nat);
    let hi: nat = pow2(b);
    assert(lo * d <= a * d + r < hi * d) by (nonlinear_arith)
        requires
            lo <= a,
            a + 1 <= hi,
            r < d,
    ;
    assert(((b - 1) as nat + j) as nat == (b + j - 1) as nat);
    lemma_bit_len_unique(a * d + r, b + j);
}

/// Length is monotone.
pub proof fn lemma_bit_len_monotone(a: nat, b: nat)
    requires
        a <= b,
    ensures
        bit_len(a) <= bit_len(b),
    decreases b,
{
    if a > 0 {
        lemma_bit_len_monotone(a / 2, b / 2);
    }
}

proof fn lemma_round_half_even_scaled(n: nat, d: nat, c: nat)
    requires
        d > 0,
        c > 0,
    ensures
        d * c > 0,
        round_half_even(n * c, d * c) == round_half_even(n, d),
{
    let whole: int = n as int / d as int;
    let rest: int = n as int % d as int;
    lemma_fundamental_div_mod(n as int, d as int);
    assert(d * c > 0) by (nonlinear_arith)
        requires
            d > 0,
            c > 0,
    ;
    assert(n * c == (d * c) * whole + rest * c) by (nonlinear_arith)
        requires
            n == d * whole + rest,
    ;
    assert(0 <= rest * c < d * c) by (nonlinear_arith)
        requires
            0 <= rest < d,
            c > 0,
    ;
    assert((d * c) * whole == whole * (d * c)) by (nonlinear_arith);
    lemma_fundamental_div_mod_converse(n as int * c as int, d as int * c as int, whole, rest * c);
    assert((2 * (rest * c) > d * c) == (2 * rest > d)) by (nonlinear_arith)
        requires
            c > 0,
    ;
    assert((2 * (rest * c) == d * c) == (2 * rest == d)) by (nonlinear_arith)
        requires
            c > 0,
    ;
}

proof fn lemma_round_half_even_exact(k: nat, d: nat)
    requires
        d > 0,
    ensures
        round_half_even(k * d, d) == k,
{
    lemma_fundamental_div_mod_converse(k as int * d as int, d as int, k as int, 0);
}

proof fn lemma_round_half_even_monotone(a: nat, b: nat, d: nat)
    requires
        a <= b,
        d > 0,
    ensures
        round_half_even(a, d) <= round_half_even(b, d),
{
    lemma_div_is_ordered(a as int, b as int, d as int);
    lemma_fundamental_div_mod(a as int, d as int);
    lemma_fundamental_div_mod(b as int, d as int);
    if a / d == b / d {
        assert(d * (a / d) == d * (b / d));
        assert(a % d <= b % d);
    }
}

/// Trailing zero bits can be moved into the exponent.
pub proof fn lemma_nearest_scaled(m: nat, k: nat, e: int, p: nat, emin: int, inf: nat)
    ensures
        nearest(m * pow2(k), e - k, p, emin, inf) == nearest(m, e, p, emin, inf),
{
    lemma_pow2_pos(k);
    let c: nat = pow2(k);
    if m == 0 {
        assert(m * c == 0) by (nonlinear_arith)
            requires
                m == 0,
        ;
    } else {
        assert(m * c > 0) by (nonlinear_arith)
            requires
                m > 0,
                c > 0,
        ;
        lemma_bit_len_append(m, 0, k);
        let q: int = unit_exponent(m, e, p, emin);
        assert(unit_exponent(m * c, e - k, p, emin) == q);
        if q <= e - k {
            let t: nat = (e - k - q) as nat;
            lemma_pow2_adds(k, t);
            assert(k + t == (e - q) as nat);
            assert(m * c * pow2(t) == m * (c * pow2(t))) by (nonlinear_arith);
        } else if q <= e {
            let t: nat = (q - (e - k)) as nat;
            let s: nat = (e - q) as nat;
            lemma_pow2_adds(s, t);
            assert(s + t == k);
            lemma_pow2_pos(t);
            assert(m * (pow2(s) * pow2(t)) == m * pow2(s) * pow2(t)) by (nonlinear_arith);
            lemma_round_half_even_exact(m * pow2(s), pow2(t));
        } else {
            let t: nat = (q - e) as nat;
            lemma_pow2_adds(t, k);
            assert(t + k == (q - (e - k)) as nat);
            lemma_pow2_pos(t);
            lemma_round_half_even_scaled(m, pow2(t), c);
        }
    }
}

/// Low bits beyond enough significant ones matter only by whether any is set.
pub proof fn lemma_nearest_sticky(a: nat, r: nat, j: nat, e: int, p: nat, emin: int, inf: nat)
    requires
        j > 0,
        p > 0,
        bit_len(a) >= p + 2,
        r < pow2(j),
    ensures
        nearest(a * pow2(j) + r, e, p, emin, inf) == nearest(
            2 * a + (if r != 0 {
                1nat
            } else {
                0nat
            }),
            e + j - 1,
            p,
            emin,
            inf,
        ),
{
    let s: nat = if r != 0 {
        1
    } else {
        0
    };
    let m: nat = a * pow2(j) + r;
    let m1: nat = 2 * a + s;
    let e1: int = e + j - 1;
    lemma_pow2_pos(j);
    if a == 0 {
        assert(bit_len(0) == 0);
    }
    assert(a > 0);
    assert(m > 0) by (nonlinear_arith)
        requires
            a > 0,
            pow2(j) > 0,
            m == a * pow2(j) + r,
    ;
    lemma_bit_len_append(a, r, j);
    lemma2_to64();
    lemma_bit_len_append(a, s, 1);
    assert(a * pow2(1) + s == m1);
    let q: int = unit_exponent(m, e, p, emin);
    assert(q == unit_exponent(m1, e1, p, emin));
    assert(q >= e + j + 2);
    let t: nat = (q - e - j) as nat;
    // m is cut at j + t bits and m1 at t + 1 bits.
    let dt: nat = pow2(t);
    let dj: nat = pow2(j);
    lemma_pow2_pos(t);
    lemma_pow2_adds(t, j);
    assert((q - e) as nat == t + j);
    lemma_pow2_unfold(t + 1);
    assert((q - e1) as nat == t + 1);
    let whole: int = a as int / dt as int;
    let rest: int = a as int % dt as int;
    lemma_fundamental_div_mod(a as int, dt as int);
    // quotient and remainder of m
    assert(m == whole * (dt * dj) + (rest * dj + r)) by (nonlinear_arith)
        requires
            m == a * dj + r,
            a == dt * whole + rest,
    ;
    assert(0 <= rest * dj + r < dt * dj) by (nonlinear_arith)
        requires
            0 <= rest,
            rest + 1 <= dt,
            0 <= r < dj,
    ;
    lemma_fundamental_div_mod_converse(m as int, dt as int * dj as int, whole, rest * dj + r);
    // quotient and remainder of m1
    assert(m1 == whole * (2 * dt) + (2 * rest + s)) by (nonlinear_arith)
        requires
            m1 == 2 * a + s,
            a == dt * whole + rest,
    ;
    lemma_fundamental_div_mod_converse(m1 as int, 2 * dt as int, whole, 2 * rest + s);
    // t >= 2, so half of the cut is a whole number of units
    lemma_pow2_unfold(t);
    let half: nat = pow2((t - 1) as nat);
    assert(dt == 2 * half);
    if rest >= half {
        assert(2 * (rest * dj + r) >= dt * dj) by (nonlinear_arith)
            requires
                rest >= half,
                dt == 2 * half,
                r >= 0,
                dj > 0,
        ;
        if rest > half {
            assert(2 * (rest * dj + r) > dt * dj) by (nonlinear_arith)
                requires
                    rest > half,
                    dt == 2 * half,
                    r >= 0,
                    dj > 0,
            ;
        } else {
            assert(2 * (rest * dj + r) == dt * dj + 2 * r) by (nonlinear_arith)
                requires
                    rest == half,
                    dt == 2 * half,
            ;
        }
    } else {
        assert(2 * (rest * dj + r) < dt * dj) by (nonlinear_arith)
            requires
                rest + 1 <= half,
                dt == 2 * half,
                r < dj,
                dj > 0,
        ;
    }
    assert(round_half_even(m, dt * dj) == round_half_even(m1, 2 * dt));
}

/// Bounds of the significand that rounding leaves.
pub proof fn lemma_in_units_bounds(m: nat, e: int, p: nat, emin: int)
    requires
        m > 0,
        p > 0,
    ensures
        ({
            let q: int = unit_exponent(m, e, p, emin);
            &&& in_units(m, e, q) <= pow2(p)
            &&& q > emin ==> in_units(m, e, q) >= pow2((p - 1) as nat)
        }),
{
    let q: int = unit_exponent(m, e, p, emin);
    let b: nat = bit_len(m);
    lemma_bit_len_bounds(m);
    if q <= e {
        let t: nat = (e - q) as nat;
        lemma_pow2_pos(t);
        lemma_pow2_adds(b, t);
        if b + t < p {
            lemma_pow2_strictly_increases(b + t, p);
        }
        assert(m * pow2(t) <= pow2(b) * pow2(t)) by (nonlinear_arith)
            requires
                m <= pow2(b),
        ;
        if q > emin {
            lemma_pow2_adds((b - 1) as nat, t);
            assert(((b - 1) as nat + t) == (p - 1) as nat);
            assert(m * pow2(t) >= pow2((b - 1) as nat) * pow2(t)) by (nonlinear_arith)
                requires
                    m >= pow2((b - 1) as nat),
            ;
        }
    } else {
        let t: nat = (q - e) as nat;
        let d: nat = pow2(t);
        lemma_pow2_pos(t);
        lemma_pow2_adds(p, t);
        if b < p + t {
            lemma_pow2_strictly_increases(b, p + t);
        }
        lemma_fundamental_div_mod(m as int, d as int);
        let w: int = m as int / d as int;
        assert(w < pow2(p)) by (nonlinear_arith)
            requires
                m < pow2(p) * d,
                m == d * w + m as int % d as int,
                m as int % d as int >= 0,
                d > 0,
        ;
        if q > emin {
            lemma_pow2_adds((p - 1) as nat, t);
            assert((p - 1) as nat + t == (b - 1) as nat);
            assert(w >= pow2((p - 1) as nat)) by (nonlinear_arith)
                requires
                    m >= pow2((p - 1) as nat) * d,
                    m == d * w + m as int % d as int,
                    (m as int % d as int) < d,
                    d > 0,
            ;
        }
    }
}

/// Rounding keeps the order of magnitudes.
pub proof fn lemma_nearest_monotone(a: nat, b: nat, e: int, p: nat, emin: int, inf: nat)
    requires
        a <= b,
        p > 0,
    ensures
        nearest(a, e, p, emin, inf) <= nearest(b, e, p, emin, inf),
{
    if a > 0 {
        let qa: int = unit_exponent(a, e, p, emin);
        let qb: int = unit_exponent(b, e, p, emin);
        lemma_bit_len_monotone(a, b);
        lemma_in_units_bounds(a, e, p, emin);
        lemma_in_units_bounds(b, e, p, emin);
        let h: nat = pow2((p - 1) as nat);
        lemma_pow2_unfold(p);
        lemma_pow2_pos((p - 1) as nat);
        assert((qa - emin) * h >= 0) by (nonlinear_arith)
            requires
                qa >= emin,
                h > 0,
        ;
        if qa == qb {
            if qa <= e {
                let c: nat = pow2((e - qa) as nat);
                assert(a * c <= b * c) by (nonlinear_arith)
                    requires
                        a <= b,
                ;
            } else {
                lemma_pow2_pos((qa - e) as nat);
                lemma_round_half_even_monotone(a, b, pow2((qa - e) as nat));
            }
        } else {
            assert((qa - emin) * h + 2 * h <= (qb - emin) * h + h) by (nonlinear_arith)
                requires
                    qa + 1 <= qb,
                    h > 0,
            ;
        }
    }
}

/// A number that the format holds is its own nearest number.
pub proof fn lemma_nearest_exact(m: nat, e: int, p: nat, emin: int, inf: nat)
    requires
        p > 0,
        e >= emin,
        m < pow2(p),
        e > emin ==> m >= pow2((p - 1) as nat),
        (e - emin) * pow2((p - 1) as nat) + m < inf,
    ensures
        nearest(m, e, p, emin, inf) == (e - emin) * pow2((p - 1) as nat) + m,
{
    lemma_pow2_pos((p - 1) as nat);
    assert((e - emin) * pow2((p - 1) as nat) >= 0) by (nonlinear_arith)
        requires
            e >= emin,
    ;
    lemma2_to64();
    if m == 0 {
        assert(e == emin);
        assert((e - emin) * pow2((p - 1) as nat) == 0) by (nonlinear_arith)
            requires
                e == emin,
        ;
    } else {
        lemma_bit_len_bounds(m);
        let b: nat = bit_len(m);
        if b > p {
            if p < b - 1 {
                lemma_pow2_strictly_increases(p, (b - 1) as nat);
            }
            assert(false);
        }
        if e > emin && b < p {
            if b < p - 1 {
                lemma_pow2_strictly_increases(b, (p - 1) as nat);
            }
            assert(false);
        }
        assert(unit_exponent(m, e, p, emin) == e);
        assert(m * pow2(0) == m);
    }
}

} // verus!
