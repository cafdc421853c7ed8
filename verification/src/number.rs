//! Binary64 arithmetic on integer words.
//!
//! A [`Real`] is an IEEE 754 binary64 number, held by its interchange
//! encoding. Every finite number is a whole multiple of `2^-1074`, so the exact
//! value of a number is an integer count of those units, and the result of an
//! operation is the representable number nearest to the exact result.
use vstd::arithmetic::div_mod::*;
use vstd::arithmetic::mul::*;
use vstd::arithmetic::power2::*;
use vstd::bits::*;
use vstd::prelude::*;

use crate::rounding::{
    bit_len, lemma_bit_len_bounds, lemma_in_units_bounds, lemma_nearest_scaled,
    lemma_nearest_sticky, nearest, round_half_even,
};

verus! {

/// Weight of the sign bit.
pub const SIGN: u64 = 0x8000_0000_0000_0000;

/// Weight of the implicit leading bit of a significand.
pub const UNIT: u64 = 0x10_0000_0000_0000;

/// Magnitude code of infinity.
pub const INF: u64 = 0x7ff0_0000_0000_0000;

/// Encoding of the quiet not-a-number that operations return.
pub const QUIET_NAN: u64 = 0x7ff8_0000_0000_0000;

/// Leading bit of a single-precision significand.
pub const SINGLE_UNIT: u64 = 0x80_0000;

/// Magnitude code of the single-precision infinity.
pub const SINGLE_INF: u64 = 0x7f80_0000;

/// An IEEE 754 binary64 number, held by its encoding.
///
/// `==` compares encodings; [`Real::num_eq`] compares numbers.
#[derive(Clone, Copy, PartialEq, Eq, Structural, Debug, Hash)]
pub struct Real {
    pub bits: u64,
}

/// Magnitude code of the binary64 number nearest to `m * 2^e`.
pub open spec fn nearest_double(m: nat, e: int) -> nat {
    nearest(m, e, 53, -1074, INF as nat)
}

/// Magnitude code of the binary32 number nearest to `m * 2^e`.
pub open spec fn nearest_single(m: nat, e: int) -> nat {
    nearest(m, e, 24, -149, SINGLE_INF as nat)
}

/// The number with the given sign and magnitude code.
pub open spec fn signed(negative: bool, magnitude: nat) -> Real {
    Real {
        bits: (magnitude + (if negative {
            SIGN as int
        } else {
            0
        })) as u64,
    }
}

/// The two storage formats: precision, smallest exponent, leading bit
/// and exponent field of infinity.
spec fn is_format(p: u64, emin: i64, unit: u64, limit: u64) -> bool {
    ||| p == 53 && emin == -1074 && unit == UNIT && limit == 2047
    ||| p == 24 && emin == -149 && unit == SINGLE_UNIT && limit == 255
}

proof fn lemma_format(p: u64, emin: i64, unit: u64, limit: u64)
    requires
        is_format(p, emin, unit, limit),
    ensures
        limit * unit <= INF,
        limit * unit + 2 * unit <= u64::MAX,
        unit == pow2((p - 1) as nat),
        pow2(p as nat) == 2 * unit,
{
    lemma2_to64_rest();
    lemma2_to64();
    lemma_pow2_unfold(p as nat);
}

proof fn lemma_leading_zeros(m: u64)
    ensures
        vstd::std_specs::bits::u64_leading_zeros(m) == 64 - bit_len(m as nat),
    decreases m,
{
    reveal(vstd::std_specs::bits::u64_leading_zeros);
    if m != 0 {
        lemma_leading_zeros(m / 2);
    }
}

/// Number of binary digits of a word.
fn length_of(m: u64) -> (len: u64)
    ensures
        len == bit_len(m as nat),
        len <= 64,
{
    proof {
        lemma_leading_zeros(m);
        vstd::std_specs::bits::axiom_u64_leading_zeros(m);
    }
    64 - m.leading_zeros() as u64
}

/// `m * 2^k`, which must fit a word.
pub(crate) fn shift_up(m: u64, k: u64) -> (r: u64)
    requires
        k < 64,
        m * pow2(k as nat) <= u64::MAX,
    ensures
        r == m * pow2(k as nat),
{
    proof {
        lemma_u64_shl_is_mul(m, k);
    }
    m << k
}

/// The whole part of `m / 2^k` and whether anything was cut off.
pub(crate) fn shift_down(m: u64, k: u64) -> (r: (u64, bool))
    ensures
        r.0 == m as nat / pow2(k as nat),
        r.1 == (m as nat % pow2(k as nat) != 0),
        r.0 <= m,
{
    proof {
        lemma_pow2_pos(k as nat);
        lemma_fundamental_div_mod(m as int, pow2(k as nat) as int);
        lemma_div_nonincreasing(m as int, pow2(k as nat) as int);
    }
    if k >= 64 {
        proof {
            lemma2_to64();
            if k > 64 {
                lemma_pow2_strictly_increases(64, k as nat);
            }
            lemma_small_mod(m as nat, pow2(k as nat));
            lemma_basic_div(m as int, pow2(k as nat) as int);
        }
        (0, m != 0)
    } else {
        proof {
            lemma_u64_shr_is_div(m, k);
        }
        let whole: u64 = m >> k;
        proof {
            let d: int = pow2(k as nat) as int;
            assert(whole * d <= m) by (nonlinear_arith)
                requires
                    m == d * whole + m as int % d,
                    m as int % d >= 0,
            ;
            assert(d * whole == whole * d) by (nonlinear_arith);
        }
        (whole, shift_up(whole, k) != m)
    }
}

/// Rounds `m / 2^d` to a whole number, ties to even.
fn round_shift(m: u64, d: u64) -> (r: u64)
    requires
        0 < d,
    ensures
        r == round_half_even(m as nat, pow2(d as nat)),
{
    proof {
        lemma_pow2_pos(d as nat);
        lemma2_to64();
        lemma_pow2_unfold(d as nat);
        lemma_pow2_pos((d - 1) as nat);
        lemma_fundamental_div_mod(m as int, pow2(d as nat) as int);
    }
    if d > 64 {
        proof {
            lemma_pow2_strictly_increases(64, d as nat);
            lemma_small_mod(m as nat, pow2(d as nat));
            lemma_basic_div(m as int, pow2(d as nat) as int);
            if d > 65 {
                lemma_pow2_strictly_increases(64, (d - 1) as nat);
            }
        }
        0
    } else if d == 64 {
        proof {
            lemma_small_mod(m as nat, pow2(64));
            lemma_basic_div(m as int, pow2(64) as int);
        }
        if m > SIGN {
            1
        } else {
            0
        }
    } else {
        proof {
            lemma_u64_shr_is_div(m, d);
            let c: int = pow2(d as nat) as int;
            let w: int = m as int / c;
            assert(w * c <= m) by (nonlinear_arith)
                requires
                    m == c * w + m as int % c,
                    m as int % c >= 0,
            ;
            assert(c * w == w * c) by (nonlinear_arith);
            if d - 1 < 63 {
                lemma_pow2_strictly_increases((d - 1) as nat, 63);
            }
            lemma2_to64_rest();
            assert(2 * w <= m) by (nonlinear_arith)
                requires
                    w * c <= m,
                    c >= 2,
                    w >= 0,
            ;
        }
        let whole: u64 = m >> d;
        let rest: u64 = m - shift_up(whole, d);
        let half: u64 = shift_up(1, d - 1);
        if rest > half || (rest == half && whole % 2 == 1) {
            whole + 1
        } else {
            whole
        }
    }
}

/// Magnitude code of the number of a format nearest to `m * 2^e`.
fn round_to(m: u64, e: i64, p: u64, emin: i64, unit: u64, limit: u64) -> (code: u64)
    requires
        is_format(p, emin, unit, limit),
        -4000 <= e <= 4000,
    ensures
        code == nearest(m as nat, e as int, p as nat, emin as int, (limit * unit) as nat),
        code <= limit * unit,
{
    if m == 0 {
        return 0;
    }
    let len: u64 = length_of(m);
    let full: i64 = e + len as i64 - p as i64;
    let q: i64 = if full < emin {
        emin
    } else {
        full
    };
    proof {
        lemma_format(p, emin, unit, limit);
        lemma_bit_len_bounds(m as nat);
        lemma_in_units_bounds(m as nat, e as int, p as nat, emin as int);
    }
    let inf: u64 = limit * unit;
    let step: u64 = (q - emin) as u64;
    if step >= limit {
        proof {
            assert(step * unit >= limit * unit) by (nonlinear_arith)
                requires
                    step >= limit,
            ;
        }
        return inf;
    }
    let units: u64 = if q <= e {
        let k: u64 = (e - q) as u64;
        proof {
            lemma_pow2_pos(k as nat);
            if k >= 64 {
                lemma2_to64();
                if k > 64 {
                    lemma_pow2_strictly_increases(64, k as nat);
                }
                assert(m * pow2(k as nat) >= pow2(k as nat)) by (nonlinear_arith)
                    requires
                        m >= 1,
                ;
                assert(false);
            }
        }
        shift_up(m, k)
    } else {
        round_shift(m, (q - e) as u64)
    };
    proof {
        assert(step * unit <= limit * unit) by (nonlinear_arith)
            requires
                step <= limit,
        ;
    }
    let code: u64 = step * unit + units;
    if code >= inf {
        inf
    } else {
        code
    }
}

pub(crate) fn round_double(m: u64, e: i64) -> (code: u64)
    requires
        -4000 <= e <= 4000,
    ensures
        code == nearest_double(m as nat, e as int),
        code <= INF,
{
    round_to(m, e, 53, -1074, UNIT, 2047)
}

pub(crate) fn round_single_code(m: u64, e: i64) -> (code: u64)
    requires
        -4000 <= e <= 4000,
    ensures
        code == nearest_single(m as nat, e as int),
        code <= SINGLE_INF,
{
    round_to(m, e, 24, -149, SINGLE_UNIT, 255)
}

impl Real {
    pub open spec fn spec_of(bits: u64) -> Real {
        Real { bits }
    }

    /// The number with the given encoding.
    #[verifier::when_used_as_spec(spec_of)]
    pub fn of(bits: u64) -> (r: Real)
        ensures
            r == Real::spec_of(bits),
    {
        Real { bits }
    }

    /// Whether the sign bit is set.
    pub open spec fn negative(self) -> bool {
        self.bits >= SIGN
    }

    /// The encoding without its sign bit.
    pub open spec fn magnitude(self) -> nat {
        self.bits as nat % SIGN as nat
    }

    pub open spec fn nan(self) -> bool {
        self.magnitude() > INF
    }

    pub open spec fn infinite(self) -> bool {
        self.magnitude() == INF
    }

    pub open spec fn finite(self) -> bool {
        self.magnitude() < INF
    }

    /// The significand of a finite number, as an integer.
    pub open spec fn significand(self) -> nat {
        if self.magnitude() < UNIT {
            self.magnitude()
        } else {
            self.magnitude() % UNIT as nat + UNIT as nat
        }
    }

    /// The exponent that goes with [`Real::significand`].
    pub open spec fn exponent(self) -> int {
        if self.magnitude() < UNIT {
            -1074
        } else {
            self.magnitude() as int / UNIT as int - 1075
        }
    }

    /// Size of a finite number in units of `2^-1074`.
    pub open spec fn size(self) -> nat {
        self.significand() * pow2((self.exponent() + 1074) as nat)
    }

    /// Exact value of a finite number in units of `2^-1074`.
    pub open spec fn value(self) -> int {
        if self.negative() {
            -(self.size() as int)
        } else {
            self.size() as int
        }
    }

    /// Position in the numeric order of everything but not-a-number.
    pub open spec fn rank(self) -> int {
        if self.negative() {
            -(self.magnitude() as int)
        } else {
            self.magnitude() as int
        }
    }

    /// Position in the total order of all encodings, `-0` before `+0`.
    pub open spec fn spec_total_key(self) -> i64 {
        if self.negative() {
            (-(self.magnitude() as int) - 1) as i64
        } else {
            self.magnitude() as i64
        }
    }

    pub open spec fn spec_is_nan(self) -> bool {
        self.nan()
    }

    #[verifier::when_used_as_spec(spec_is_nan)]
    pub fn is_nan(self) -> (r: bool)
        ensures
            r == self.nan(),
    {
        self.bits % SIGN > INF
    }

    pub open spec fn spec_is_finite(self) -> bool {
        self.finite()
    }

    #[verifier::when_used_as_spec(spec_is_finite)]
    pub fn is_finite(self) -> (r: bool)
        ensures
            r == self.finite(),
    {
        self.bits % SIGN < INF
    }

    pub open spec fn spec_lt(self, other: Real) -> bool {
        !self.nan() && !other.nan() && self.rank() < other.rank()
    }

    /// Numeric `<`: false when either side is not a number.
    #[verifier::when_used_as_spec(spec_lt)]
    pub fn lt(self, other: Real) -> (r: bool)
        ensures
            r == self.spec_lt(other),
    {
        !self.is_nan() && !other.is_nan() && self.rank_word() < other.rank_word()
    }

    pub open spec fn spec_le(self, other: Real) -> bool {
        !self.nan() && !other.nan() && self.rank() <= other.rank()
    }

    /// Numeric `<=`: false when either side is not a number.
    #[verifier::when_used_as_spec(spec_le)]
    pub fn le(self, other: Real) -> (r: bool)
        ensures
            r == self.spec_le(other),
    {
        !self.is_nan() && !other.is_nan() && self.rank_word() <= other.rank_word()
    }

    pub open spec fn spec_num_eq(self, other: Real) -> bool {
        !self.nan() && !other.nan() && self.rank() == other.rank()
    }

    /// Numeric equality: the two zeros are equal, not-a-number equals nothing.
    #[verifier::when_used_as_spec(spec_num_eq)]
    pub fn num_eq(self, other: Real) -> (r: bool)
        ensures
            r == self.spec_num_eq(other),
    {
        !self.is_nan() && !other.is_nan() && self.rank_word() == other.rank_word()
    }

    fn rank_word(self) -> (r: i64)
        ensures
            r == self.rank(),
    {
        let magnitude: i64 = (self.bits % SIGN) as i64;
        if self.bits >= SIGN {
            -magnitude
        } else {
            magnitude
        }
    }

    /// Key of the total order of all encodings.
    #[verifier::when_used_as_spec(spec_total_key)]
    pub fn total_key(self) -> (r: i64)
        ensures
            r == self.spec_total_key(),
    {
        let magnitude: i64 = (self.bits % SIGN) as i64;
        if self.bits >= SIGN {
            -magnitude - 1
        } else {
            magnitude
        }
    }

    pub(crate) fn significand_word(self) -> (m: u64)
        ensures
            m == self.significand(),
            m < 2 * UNIT,
    {
        let magnitude: u64 = self.bits % SIGN;
        if magnitude < UNIT {
            magnitude
        } else {
            magnitude % UNIT + UNIT
        }
    }

    pub(crate) fn exponent_word(self) -> (e: i64)
        ensures
            e == self.exponent(),
            -1074 <= e <= 972,
            self.finite() ==> e <= 971,
            e > -1074 ==> self.significand() >= UNIT,
    {
        let magnitude: u64 = self.bits % SIGN;
        if magnitude < UNIT {
            -1074
        } else {
            (magnitude / UNIT) as i64 - 1075
        }
    }

    pub open spec fn spec_neg(self) -> Real {
        signed(!self.negative(), self.magnitude())
    }

    /// Changes the sign.
    #[verifier::when_used_as_spec(spec_neg)]
    pub fn neg(self) -> (r: Real)
        ensures
            r == self.spec_neg(),
    {
        if self.bits >= SIGN {
            Real { bits: self.bits - SIGN }
        } else {
            Real { bits: self.bits + SIGN }
        }
    }

    pub open spec fn spec_abs(self) -> Real {
        signed(false, self.magnitude())
    }

    /// Clears the sign.
    #[verifier::when_used_as_spec(spec_abs)]
    pub fn abs(self) -> (r: Real)
        ensures
            r == self.spec_abs(),
    {
        Real { bits: self.bits % SIGN }
    }
}

/// The number nearest to `total` units of `2^-1074`; an exact zero is negative
/// only when both terms were.
pub open spec fn from_sum(total: int, both_negative: bool) -> Real {
    if total == 0 {
        signed(both_negative, 0)
    } else {
        signed(
            total < 0,
            nearest_double(
                (if total < 0 {
                    -total
                } else {
                    total
                }) as nat,
                -1074,
            ),
        )
    }
}

/// A positive significand shifted until it has 53 binary digits.
pub open spec fn full_significand(m: nat) -> nat {
    m * pow2((53 - bit_len(m)) as nat)
}

/// The exponent that goes with [`full_significand`].
pub open spec fn full_exponent(m: nat, e: int) -> int {
    e - (53 - bit_len(m))
}

/// `2 * whole`, plus one when a division left a remainder.
pub open spec fn with_sticky(whole: nat, inexact: bool) -> nat {
    2 * whole + (if inexact {
        1nat
    } else {
        0nat
    })
}

/// Whether `r` is the whole part of the square root of `n`.
pub open spec fn is_root(r: nat, n: nat) -> bool {
    r * r <= n < (r + 1) * (r + 1)
}

/// Whole part of the square root of `n`.
pub open spec fn floor_root(n: nat) -> nat {
    choose|r: nat| is_root(r, n)
}

proof fn lemma_root_unique(r: nat, n: nat)
    requires
        is_root(r, n),
    ensures
        floor_root(n) == r,
{
    let s: nat = floor_root(n);
    assert(is_root(s, n));
    assert(!(s < r)) by (nonlinear_arith)
        requires
            r * r <= n,
            n < (s + 1) * (s + 1),
            r >= 0,
            s >= 0,
    ;
    assert(!(r < s)) by (nonlinear_arith)
        requires
            s * s <= n,
            n < (r + 1) * (r + 1),
            r >= 0,
            s >= 0,
    ;
}

/// `v` limited to a closed interval.
pub open spec fn limited(v: int, lo: int, hi: int) -> int {
    if v < lo {
        lo
    } else if v > hi {
        hi
    } else {
        v
    }
}

/// A word with the given sign and magnitude code.
pub(crate) fn pack(negative: bool, code: u64) -> (r: Real)
    requires
        code < SIGN,
    ensures
        r == signed(negative, code as nat),
{
    if negative {
        Real { bits: code + SIGN }
    } else {
        Real { bits: code }
    }
}

/// Shifts a positive significand to 53 binary digits.
fn fill(m: u64, e: i64) -> (r: (u64, i64))
    requires
        0 < m < 2 * UNIT,
        -1100 <= e <= 1000,
    ensures
        r.0 == full_significand(m as nat),
        r.1 == full_exponent(m as nat, e as int),
        UNIT <= r.0 < 2 * UNIT,
        e - 52 <= r.1 <= e,
        bit_len(m as nat) <= 53,
{
    let len: u64 = length_of(m);
    proof {
        lemma2_to64_rest();
        lemma2_to64();
        lemma_bit_len_bounds(m as nat);
        if len > 53 {
            if 53 < len - 1 {
                lemma_pow2_strictly_increases(53, (len - 1) as nat);
            }
            assert(false);
        }
        let k: nat = (53 - len) as nat;
        lemma_pow2_pos(k);
        lemma_pow2_adds((len - 1) as nat, k);
        lemma_pow2_adds(len as nat, k);
        let c: nat = pow2(k);
        let lo: nat = pow2((len - 1) as nat);
        let hi: nat = pow2(len as nat);
        assert(lo * c <= m * c < hi * c) by (nonlinear_arith)
            requires
                lo <= m < hi,
                c > 0,
        ;
    }
    (shift_up(m, 53 - len), e - (53 - len as i64))
}

proof fn lemma_long(a: nat)
    requires
        a >= 0x40_0000_0000_0000,
    ensures
        bit_len(a) >= 55,
{
    lemma_bit_len_bounds(a);
    lemma2_to64_rest();
    let b: nat = bit_len(a);
    if b < 55 {
        if b < 54 {
            lemma_pow2_strictly_increases(b, 54);
        }
        assert(false);
    }
}

/// Sum of two finite numbers, given by sign, significand and exponent.
fn add_aligned(na: bool, ma: u64, ea: i64, nb: bool, mb: u64, eb: i64) -> (r: Real)
    requires
        -1074 <= eb <= ea <= 971,
        ma < 2 * UNIT,
        mb < 2 * UNIT,
        ea > -1074 ==> ma >= UNIT,
    ensures
        ({
            let va: int = ma * pow2((ea + 1074) as nat);
            let vb: int = mb * pow2((eb + 1074) as nat);
            r == from_sum(
                (if na {
                    -va
                } else {
                    va
                }) + (if nb {
                    -vb
                } else {
                    vb
                }),
                na && nb,
            )
        }),
{
    let gap: u64 = (ea - eb) as u64;
    let ghost k: nat = (eb + 1074) as nat;
    let ghost va: int = ma * pow2((ea + 1074) as nat);
    let ghost vb: int = mb * pow2(k);
    let ghost total: int = (if na {
        -va
    } else {
        va
    }) + (if nb {
        -vb
    } else {
        vb
    });
    let ghost u: int = pow2(k) as int;
    let ghost g0: int = pow2(gap as nat) as int;
    proof {
        lemma_pow2_pos(k);
        lemma_pow2_pos(gap as nat);
        lemma_pow2_adds(gap as nat, k);
        assert((ea + 1074) as nat == gap as nat + k);
        assert(va == (ma * g0) * u) by (nonlinear_arith)
            requires
                va == ma * (g0 * u),
        ;
    }
    if gap <= 9 {
        proof {
            lemma2_to64();
            if gap < 9 {
                lemma_pow2_strictly_increases(gap as nat, 9);
            }
            assert(ma * g0 <= 2 * UNIT * 512) by (nonlinear_arith)
                requires
                    0 <= ma < 2 * UNIT,
                    0 <= g0 <= 512,
            ;
        }
        let big: u64 = shift_up(ma, gap);
        let (negative, sum): (bool, u64) = if na == nb {
            (na, big + mb)
        } else if big >= mb {
            (na, big - mb)
        } else {
            (nb, mb - big)
        };
        proof {
            let s: int = if negative {
                -(sum as int)
            } else {
                sum as int
            };
            let sa: int = if na {
                -(big as int)
            } else {
                big as int
            };
            let sb: int = if nb {
                -(mb as int)
            } else {
                mb as int
            };
            assert(s == sa + sb);
            assert(total == s * u) by (nonlinear_arith)
                requires
                    s == sa + sb,
                    va == big * u,
                    vb == mb * u,
                    total == (if na {
                        -va
                    } else {
                        va
                    }) + (if nb {
                        -vb
                    } else {
                        vb
                    }),
                    sa == (if na {
                        -(big as int)
                    } else {
                        big as int
                    }),
                    sb == (if nb {
                        -(mb as int)
                    } else {
                        mb as int
                    }),
            ;
            assert((total == 0) == (sum == 0)) by (nonlinear_arith)
                requires
                    total == s * u,
                    u > 0,
                    s == sum || s == -sum,
            ;
            if sum != 0 {
                assert((total < 0) == negative) by (nonlinear_arith)
                    requires
                        total == s * u,
                        u > 0,
                        sum > 0,
                        s == (if negative {
                            -(sum as int)
                        } else {
                            sum as int
                        }),
                ;
                let t: int = if total < 0 {
                    -total
                } else {
                    total
                };
                assert(t == sum * u) by (nonlinear_arith)
                    requires
                        total == s * u,
                        t == (if total < 0 {
                            -total
                        } else {
                            total
                        }),
                        (total < 0) == negative,
                        s == (if negative {
                            -(sum as int)
                        } else {
                            sum as int
                        }),
                ;
                lemma_nearest_scaled(sum as nat, k, eb as int, 53, -1074, INF as nat);
            }
        }
        if sum == 0 {
            pack(na && nb, 0)
        } else {
            pack(negative, round_double(sum, eb))
        }
    } else {
        let g: u64 = gap - 9;
        let ghost c: int = pow2(g as nat) as int;
        proof {
            lemma2_to64();
            lemma_pow2_adds(9, g as nat);
            lemma_pow2_pos(g as nat);
            lemma_fundamental_div_mod(mb as int, c);
            assert(ma * 512 < 0x8000_0000_0000_0000);
        }
        let big: u64 = ma * 512;
        let (low, cut): (u64, bool) = shift_down(mb, g);
        let ghost rest: int = mb as int % c;
        let whole: u64 = if na == nb {
            big + low
        } else if cut {
            big - low - 1
        } else {
            big - low
        };
        let odd: u64 = if cut {
            1
        } else {
            0
        };
        proof {
            let r: int = if na == nb || !cut {
                rest
            } else {
                c - rest
            };
            let s: int = if na == nb {
                ma * g0 + mb
            } else {
                ma * g0 - mb
            };
            assert(ma * g0 == big * c) by (nonlinear_arith)
                requires
                    g0 == 512 * c,
                    big == ma * 512,
            ;
            assert(s == whole * c + r) by (nonlinear_arith)
                requires
                    mb == c * low + rest,
                    s == (if na == nb {
                        big * c + mb
                    } else {
                        big * c - mb
                    }),
                    whole == (if na == nb {
                        big + low
                    } else if cut {
                        big - low - 1
                    } else {
                        big - low
                    }),
                    r == (if na == nb || !cut {
                        rest
                    } else {
                        c - rest
                    }),
                    !cut ==> rest == 0,
            ;
            lemma_long(whole as nat);
            lemma_nearest_sticky(whole as nat, r as nat, g as nat, eb as int, 53, -1074, INF as nat);
            assert(s > 0) by (nonlinear_arith)
                requires
                    s == whole * c + r,
                    whole > 0,
                    c > 0,
                    r >= 0,
            ;
            lemma_nearest_scaled(s as nat, k, eb as int, 53, -1074, INF as nat);
            assert(s * u > 0) by (nonlinear_arith)
                requires
                    s > 0,
                    u > 0,
            ;
            assert(total == (if na {
                -(s * u)
            } else {
                s * u
            })) by (nonlinear_arith)
                requires
                    va == (ma * g0) * u,
                    vb == mb * u,
                    total == (if na {
                        -va
                    } else {
                        va
                    }) + (if nb {
                        -vb
                    } else {
                        vb
                    }),
                    s == (if na == nb {
                        ma * g0 + mb
                    } else {
                        ma * g0 - mb
                    }),
            ;
        }
        pack(na, round_double(2 * whole + odd, eb + g as i64 - 1))
    }
}

/// Product of two significands of 53 binary digits, cut to a word.
fn mul_full(ma: u64, mb: u64) -> (r: u64)
    requires
        UNIT <= ma < 2 * UNIT,
        UNIT <= mb < 2 * UNIT,
    ensures
        forall|e: int|
            #![trigger nearest_double((ma * mb) as nat, e)]
            nearest_double((ma * mb) as nat, e) == nearest_double(r as nat, e + 43),
{
    proof {
        assert(UNIT * UNIT <= ma * mb < 4 * UNIT * UNIT) by (nonlinear_arith)
            requires
                UNIT <= ma < 2 * UNIT,
                UNIT <= mb < 2 * UNIT,
        ;
    }
    let product: u128 = ma as u128 * mb as u128;
    let whole: u64 = (product / 0x1000_0000_0000u128) as u64;
    let odd: u64 = if product % 0x1000_0000_0000u128 != 0 {
        1
    } else {
        0
    };
    proof {
        lemma2_to64_rest();
        let rest: nat = (product % 0x1000_0000_0000u128) as nat;
        lemma_long(whole as nat);
        assert(product == whole * pow2(44) + rest);
        assert forall|e: int|
            #![trigger nearest_double((ma * mb) as nat, e)]
            nearest_double((ma * mb) as nat, e) == nearest_double(
            (2 * whole + odd) as nat,
            e + 43,
        ) by {
            lemma_nearest_sticky(whole as nat, rest, 44, e, 53, -1074, INF as nat);
        }
    }
    2 * whole + odd
}

/// Whole part of the square root of a word below `2^116`.
fn root_of(n: u128) -> (r: u64)
    requires
        n < 0x10_0000_0000_0000_0000_0000_0000_0000u128,
    ensures
        r == floor_root(n as nat),
        is_root(r as nat, n as nat),
        r < 0x400_0000_0000_0000,
{
    let mut r: u64 = 0;
    let mut span: u64 = 0x400_0000_0000_0000;
    let mut k: u64 = 58;
    proof {
        lemma2_to64_rest();
    }
    while k > 0
        invariant
            k <= 58,
            span == pow2(k as nat),
            span <= 0x400_0000_0000_0000,
            r + span <= 0x400_0000_0000_0000,
            r * r <= n,
            n < (r + span) * (r + span),
        decreases k,
    {
        proof {
            lemma_pow2_unfold(k as nat);
        }
        k = k - 1;
        span = span / 2;
        let t: u64 = r + span;
        proof {
            assert(t * t <= 0x10_0000_0000_0000_0000_0000_0000_0000) by (nonlinear_arith)
                requires
                    0 <= t <= 0x400_0000_0000_0000,
            ;
        }
        if t as u128 * t as u128 <= n {
            r = t;
        }
    }
    proof {
        lemma2_to64();
        lemma_root_unique(r as nat, n as nat);
    }
    r
}

impl Real {
    #[verifier::opaque]
    pub open spec fn spec_add(self, other: Real) -> Real {
        if self.nan() || other.nan() {
            Real { bits: QUIET_NAN }
        } else if self.infinite() {
            if other.infinite() && self.negative() != other.negative() {
                Real { bits: QUIET_NAN }
            } else {
                self
            }
        } else if other.infinite() {
            other
        } else {
            from_sum(self.value() + other.value(), self.negative() && other.negative())
        }
    }

    /// Sum, correctly rounded.
    #[verifier::when_used_as_spec(spec_add)]
    pub fn add(self, other: Real) -> (r: Real)
        ensures
            r == self.spec_add(other),
    {
        reveal(Real::spec_add);
        let na: bool = self.bits >= SIGN;
        let nb: bool = other.bits >= SIGN;
        if self.is_nan() || other.is_nan() {
            Real { bits: QUIET_NAN }
        } else if self.bits % SIGN == INF {
            if other.bits % SIGN == INF && na != nb {
                Real { bits: QUIET_NAN }
            } else {
                self
            }
        } else if other.bits % SIGN == INF {
            other
        } else {
            let ma: u64 = self.significand_word();
            let ea: i64 = self.exponent_word();
            let mb: u64 = other.significand_word();
            let eb: i64 = other.exponent_word();
            if ea >= eb {
                add_aligned(na, ma, ea, nb, mb, eb)
            } else {
                add_aligned(nb, mb, eb, na, ma, ea)
            }
        }
    }

    pub open spec fn spec_sub(self, other: Real) -> Real {
        self.spec_add(other.spec_neg())
    }

    /// Difference, correctly rounded.
    #[verifier::when_used_as_spec(spec_sub)]
    pub fn sub(self, other: Real) -> (r: Real)
        ensures
            r == self.spec_sub(other),
    {
        self.add(other.neg())
    }

    #[verifier::opaque]
    pub open spec fn spec_mul(self, other: Real) -> Real {
        let negative: bool = self.negative() != other.negative();
        if self.nan() || other.nan() {
            Real { bits: QUIET_NAN }
        } else if self.infinite() || other.infinite() {
            if self.magnitude() == 0 || other.magnitude() == 0 {
                Real { bits: QUIET_NAN }
            } else {
                signed(negative, INF as nat)
            }
        } else {
            signed(
                negative,
                nearest_double(
                    self.significand() * other.significand(),
                    self.exponent() + other.exponent(),
                ),
            )
        }
    }

    /// Product, correctly rounded.
    #[verifier::when_used_as_spec(spec_mul)]
    pub fn mul(self, other: Real) -> (r: Real)
        ensures
            r == self.spec_mul(other),
    {
        reveal(Real::spec_mul);
        let negative: bool = (self.bits >= SIGN) != (other.bits >= SIGN);
        let ca: u64 = self.bits % SIGN;
        let cb: u64 = other.bits % SIGN;
        if ca > INF || cb > INF {
            return Real { bits: QUIET_NAN };
        }
        if ca == INF || cb == INF {
            if ca == 0 || cb == 0 {
                return Real { bits: QUIET_NAN };
            }
            return pack(negative, INF);
        }
        let ma: u64 = self.significand_word();
        let mb: u64 = other.significand_word();
        if ma == 0 || mb == 0 {
            proof {
                assert(ma * mb == 0) by (nonlinear_arith)
                    requires
                        ma == 0 || mb == 0,
                ;
            }
            return pack(negative, 0);
        }
        let ea: i64 = self.exponent_word();
        let eb: i64 = other.exponent_word();
        let (fa, xa): (u64, i64) = fill(ma, ea);
        let (fb, xb): (u64, i64) = fill(mb, eb);
        let cut: u64 = mul_full(fa, fb);
        proof {
            let ka: nat = (53 - bit_len(ma as nat)) as nat;
            let kb: nat = (53 - bit_len(mb as nat)) as nat;
            lemma_pow2_adds(ka, kb);
            let pa: int = pow2(ka) as int;
            let pb: int = pow2(kb) as int;
            assert(fa * fb == (ma * mb) * (pa * pb)) by (nonlinear_arith)
                requires
                    fa == ma * pa,
                    fb == mb * pb,
            ;
            lemma_nearest_scaled((ma * mb) as nat, ka + kb, ea + eb, 53, -1074, INF as nat);
            assert(nearest_double((fa * fb) as nat, xa + xb) == nearest_double(
                cut as nat,
                xa + xb + 43,
            ));
        }
        pack(negative, round_double(cut, xa + xb + 43))
    }

    #[verifier::opaque]
    pub open spec fn spec_div(self, other: Real) -> Real {
        let negative: bool = self.negative() != other.negative();
        if self.nan() || other.nan() || (self.infinite() && other.infinite()) || (self.magnitude()
            == 0 && other.magnitude() == 0) {
            Real { bits: QUIET_NAN }
        } else if self.infinite() || other.magnitude() == 0 {
            signed(negative, INF as nat)
        } else if other.infinite() || self.magnitude() == 0 {
            signed(negative, 0)
        } else {
            // The quotient to at least 57 binary digits; what is cut off shows
            // in the last one, which rounds like the exact quotient.
            let n: nat = full_significand(self.significand()) * pow2(57);
            let d: nat = full_significand(other.significand());
            let e: int = full_exponent(self.significand(), self.exponent()) - full_exponent(
                other.significand(),
                other.exponent(),
            );
            signed(negative, nearest_double(with_sticky(n / d, n % d != 0), e - 58))
        }
    }

    /// Quotient, correctly rounded.
    #[verifier::when_used_as_spec(spec_div)]
    pub fn div(self, other: Real) -> (r: Real)
        ensures
            r == self.spec_div(other),
    {
        reveal(Real::spec_div);
        let negative: bool = (self.bits >= SIGN) != (other.bits >= SIGN);
        let ca: u64 = self.bits % SIGN;
        let cb: u64 = other.bits % SIGN;
        if ca > INF || cb > INF || (ca == INF && cb == INF) || (ca == 0 && cb == 0) {
            Real { bits: QUIET_NAN }
        } else if ca == INF || cb == 0 {
            pack(negative, INF)
        } else if cb == INF || ca == 0 {
            pack(negative, 0)
        } else {
            let (fa, xa): (u64, i64) = fill(self.significand_word(), self.exponent_word());
            let (fb, xb): (u64, i64) = fill(other.significand_word(), other.exponent_word());
            let n: u128 = fa as u128 * 0x200_0000_0000_0000u128;
            let whole: u128 = n / fb as u128;
            let odd: u64 = if n % fb as u128 != 0 {
                1
            } else {
                0
            };
            proof {
                lemma2_to64_rest();
                lemma_fundamental_div_mod(n as int, fb as int);
                assert(whole <= 0x400_0000_0000_0000) by (nonlinear_arith)
                    requires
                        n == fb * whole + n as int % fb as int,
                        n as int % fb as int >= 0,
                        fb >= UNIT,
                        n < 2 * UNIT * 0x200_0000_0000_0000,
                ;
            }
            pack(negative, round_double(2 * (whole as u64) + odd, xa - xb - 58))
        }
    }

    #[verifier::opaque]
    pub open spec fn spec_sqrt(self) -> Real {
        if self.nan() || self.magnitude() == 0 {
            self
        } else if self.negative() {
            Real { bits: QUIET_NAN }
        } else if self.infinite() {
            self
        } else {
            // An even exponent halves exactly; the root is taken to 58 binary
            // digits, and what is cut off shows in one more.
            let m: nat = full_significand(self.significand());
            let e: int = full_exponent(self.significand(), self.exponent());
            let n: nat = m * pow2((62 + e % 2) as nat);
            let r: nat = floor_root(n);
            signed(false, nearest_double(with_sticky(r, r * r != n), (e - e % 2 - 62) / 2 - 1))
        }
    }

    /// Square root, correctly rounded.
    #[verifier::when_used_as_spec(spec_sqrt)]
    pub fn sqrt(self) -> (r: Real)
        ensures
            r == self.spec_sqrt(),
    {
        reveal(Real::spec_sqrt);
        let code: u64 = self.bits % SIGN;
        if code > INF || code == 0 {
            self
        } else if self.bits >= SIGN {
            Real { bits: QUIET_NAN }
        } else if code == INF {
            self
        } else {
            let (m, e): (u64, i64) = fill(self.significand_word(), self.exponent_word());
            let odd: i64 = if (e + 2000) % 2 == 1 {
                1
            } else {
                0
            };
            let n: u128 = if odd == 1 {
                m as u128 * 0x8000_0000_0000_0000u128
            } else {
                m as u128 * 0x4000_0000_0000_0000u128
            };
            proof {
                lemma2_to64_rest();
                lemma2_to64();
                assert(odd == e as int % 2);
            }
            let r: u64 = root_of(n);
            proof {
                assert(r * r <= n);
            }
            let last: u64 = if r as u128 * r as u128 != n {
                1
            } else {
                0
            };
            let half: i64 = (e - odd + 2000) / 2 - 1031;
            pack(false, round_double(2 * r + last, half - 1))
        }
    }

    pub open spec fn spec_max(self, other: Real) -> Real {
        if self.nan() {
            other
        } else if other.nan() || other.spec_le(self) {
            self
        } else {
            other
        }
    }

    /// The greater number; not-a-number counts as missing.
    #[verifier::when_used_as_spec(spec_max)]
    pub fn max(self, other: Real) -> (r: Real)
        ensures
            r == self.spec_max(other),
    {
        if self.is_nan() {
            other
        } else if other.is_nan() || other.le(self) {
            self
        } else {
            other
        }
    }

    pub open spec fn spec_min(self, other: Real) -> Real {
        if self.nan() {
            other
        } else if other.nan() || self.spec_le(other) {
            self
        } else {
            other
        }
    }

    /// The smaller number; not-a-number counts as missing.
    #[verifier::when_used_as_spec(spec_min)]
    pub fn min(self, other: Real) -> (r: Real)
        ensures
            r == self.spec_min(other),
    {
        if self.is_nan() {
            other
        } else if other.is_nan() || self.le(other) {
            self
        } else {
            other
        }
    }

    pub open spec fn spec_clamp(self, lo: Real, hi: Real) -> Real {
        if self.spec_lt(lo) {
            lo
        } else if hi.spec_lt(self) {
            hi
        } else {
            self
        }
    }

    /// The number limited to an interval.
    #[verifier::when_used_as_spec(spec_clamp)]
    pub fn clamp(self, lo: Real, hi: Real) -> (r: Real)
        ensures
            r == self.spec_clamp(lo, hi),
    {
        if self.lt(lo) {
            lo
        } else if hi.lt(self) {
            hi
        } else {
            self
        }
    }
}

} // verus!
