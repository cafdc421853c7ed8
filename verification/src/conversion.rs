//! Conversions between numbers, integers and single precision.
use vstd::arithmetic::div_mod::*;
use vstd::arithmetic::power2::*;
use vstd::prelude::*;

use crate::number::{
    limited, nearest_double, nearest_single, pack, round_double, round_single_code, shift_down,
    shift_up, signed, Real, INF, QUIET_NAN, SIGN, SINGLE_INF, SINGLE_UNIT, UNIT,
};

verus! {

/// Significand of the single-precision number with the given magnitude code.
pub open spec fn single_significand(code: nat) -> nat {
    if code < SINGLE_UNIT {
        code
    } else {
        code % SINGLE_UNIT as nat + SINGLE_UNIT as nat
    }
}

/// The exponent that goes with [`single_significand`].
pub open spec fn single_exponent(code: nat) -> int {
    if code < SINGLE_UNIT {
        -149
    } else {
        code as int / SINGLE_UNIT as int - 150
    }
}

impl Real {
    /// The largest integer not above a finite number.
    pub open spec fn floor(self) -> int {
        self.value() / pow2(1074) as int
    }

    /// The smallest integer not below a finite number.
    pub open spec fn ceiling(self) -> int {
        -((-self.value()) / pow2(1074) as int)
    }

    /// The integer nearest to a finite number, halves away from zero.
    pub open spec fn nearest_integer(self) -> int {
        let doubled: int = 2 * self.size() as int + pow2(1074) as int;
        let away: int = doubled / (2 * pow2(1074) as int);
        if self.negative() {
            -away
        } else {
            away
        }
    }

    pub open spec fn spec_floor_int(self) -> isize {
        if self.nan() {
            0
        } else if self.infinite() {
            if self.negative() {
                isize::MIN
            } else {
                isize::MAX
            }
        } else {
            limited(self.floor(), isize::MIN as int, isize::MAX as int) as isize
        }
    }

    /// The number rounded down to an integer; saturates, and not-a-number
    /// gives zero.
    #[verifier::when_used_as_spec(spec_floor_int)]
    pub fn floor_int(self) -> (r: isize)
        ensures
            r == self.spec_floor_int(),
    {
        if self.is_nan() {
            return 0;
        }
        if !self.is_finite() {
            if self.bits >= SIGN {
                return isize::MIN;
            }
            return isize::MAX;
        }
        let whole: i128 = self.whole_below();
        if whole < isize::MIN as i128 {
            isize::MIN
        } else if whole > isize::MAX as i128 {
            isize::MAX
        } else {
            whole as isize
        }
    }

    pub open spec fn spec_ceil_int(self) -> isize {
        if self.nan() {
            0
        } else if self.infinite() {
            if self.negative() {
                isize::MIN
            } else {
                isize::MAX
            }
        } else {
            limited(self.ceiling(), isize::MIN as int, isize::MAX as int) as isize
        }
    }

    /// The number rounded up to an integer; saturates, and not-a-number gives
    /// zero.
    #[verifier::when_used_as_spec(spec_ceil_int)]
    pub fn ceil_int(self) -> (r: isize)
        ensures
            r == self.spec_ceil_int(),
    {
        if self.is_nan() {
            return 0;
        }
        if !self.is_finite() {
            if self.bits >= SIGN {
                return isize::MIN;
            }
            return isize::MAX;
        }
        let opposite: Real = self.neg();
        proof {
            lemma_neg_value(self);
        }
        let whole: i128 = -opposite.whole_below();
        if whole < isize::MIN as i128 {
            isize::MIN
        } else if whole > isize::MAX as i128 {
            isize::MAX
        } else {
            whole as isize
        }
    }

    /// The whole part below, limited to what a wide word holds comfortably.
    fn whole_below(self) -> (r: i128)
        requires
            self.finite(),
        ensures
            r == limited(self.floor(), -0x1_0000_0000_0000_0000, 0x1_0000_0000_0000_0000),
    {
        let m: u64 = self.significand_word();
        let e: i64 = self.exponent_word();
        let negative: bool = self.bits >= SIGN;
        let ghost unit: int = pow2(1074) as int;
        let ghost size: int = self.size() as int;
        proof {
            lemma_pow2_pos(1074);
        }
        if e >= 0 {
            proof {
                lemma_pow2_adds(e as nat, 1074);
                lemma_pow2_pos(e as nat);
                let c: int = pow2(e as nat) as int;
                assert(size == (m * c) * unit) by (nonlinear_arith)
                    requires
                        size == m * (c * unit),
                ;
                lemma_div_by_multiple(m * c, unit);
                assert(-size == (-(m * c)) * unit) by (nonlinear_arith)
                    requires
                        size == (m * c) * unit,
                ;
                lemma_fundamental_div_mod_converse(-size, unit, -(m * c), 0);
            }
            if e > 11 {
                proof {
                    lemma2_to64();
                    if e > 12 {
                        lemma_pow2_strictly_increases(12, e as nat);
                    }
                    assert(m * pow2(e as nat) >= 0x1_0000_0000_0000_0000) by (nonlinear_arith)
                        requires
                            m >= UNIT,
                            pow2(e as nat) >= 4096,
                    ;
                }
                if negative {
                    -0x1_0000_0000_0000_0000i128
                } else {
                    0x1_0000_0000_0000_0000i128
                }
            } else {
                proof {
                    lemma2_to64();
                    if e < 11 {
                        lemma_pow2_strictly_increases(e as nat, 11);
                    }
                    assert(m * pow2(e as nat) <= (2 * UNIT - 1) * 2048) by (nonlinear_arith)
                        requires
                            0 <= m < 2 * UNIT,
                            pow2(e as nat) <= 2048,
                    ;
                }
                let wide: i128 = shift_up(m, e as u64) as i128;
                if negative {
                    -wide
                } else {
                    wide
                }
            }
        } else {
            let d: u64 = (-e) as u64;
            let (whole, cut): (u64, bool) = shift_down(m, d);
            proof {
                let c: int = pow2(d as nat) as int;
                let u: int = pow2((e + 1074) as nat) as int;
                lemma_pow2_pos(d as nat);
                lemma_pow2_pos((e + 1074) as nat);
                lemma_pow2_adds(d as nat, (e + 1074) as nat);
                assert(d as nat + (e + 1074) as nat == 1074);
                lemma_fundamental_div_mod(m as int, c);
                let rest: int = m as int % c;
                // size == m * u and unit == c * u
                assert(size == whole * unit + rest * u) by (nonlinear_arith)
                    requires
                        size == m * u,
                        m == c * whole + rest,
                        unit == c * u,
                ;
                assert(0 <= rest * u < unit) by (nonlinear_arith)
                    requires
                        0 <= rest < c,
                        unit == c * u,
                        u > 0,
                ;
                lemma_fundamental_div_mod_converse(size, unit, whole as int, rest * u);
                if rest == 0 {
                    assert(-size == (-(whole as int)) * unit) by (nonlinear_arith)
                        requires
                            size == whole * unit + rest * u,
                            rest == 0,
                    ;
                    lemma_fundamental_div_mod_converse(-size, unit, -(whole as int), 0);
                } else {
                    assert(rest * u > 0) by (nonlinear_arith)
                        requires
                            rest > 0,
                            u > 0,
                    ;
                    assert(-size == (-(whole as int) - 1) * unit + (unit - rest * u))
                        by (nonlinear_arith)
                        requires
                            size == whole * unit + rest * u,
                    ;
                    lemma_fundamental_div_mod_converse(
                        -size,
                        unit,
                        -(whole as int) - 1,
                        unit - rest * u,
                    );
                }
            }
            if !negative {
                whole as i128
            } else if cut {
                -(whole as i128) - 1
            } else {
                -(whole as i128)
            }
        }
    }

    pub open spec fn spec_round_usize(self) -> usize {
        if self.nan() || self.negative() {
            0
        } else if self.infinite() {
            usize::MAX
        } else {
            limited(self.nearest_integer(), 0, usize::MAX as int) as usize
        }
    }

    /// The nearest count, halves away from zero; saturates, and neither a
    /// negative number nor not-a-number counts anything.
    #[verifier::when_used_as_spec(spec_round_usize)]
    pub fn round_usize(self) -> (r: usize)
        ensures
            r == self.spec_round_usize(),
    {
        if self.is_nan() || self.bits >= SIGN {
            return 0;
        }
        if !self.is_finite() {
            return usize::MAX;
        }
        let m: u64 = self.significand_word();
        let e: i64 = self.exponent_word();
        let ghost unit: int = pow2(1074) as int;
        let ghost size: int = self.size() as int;
        proof {
            lemma_pow2_pos(1074);
        }
        if e >= 0 {
            let whole: i128 = self.whole_below();
            proof {
                lemma_pow2_adds(e as nat, 1074);
                let c: int = pow2(e as nat) as int;
                lemma_pow2_pos(e as nat);
                assert(size == (m * c) * unit) by (nonlinear_arith)
                    requires
                        size == m * (c * unit),
                ;
                lemma_div_by_multiple(m * c, unit);
                assert(2 * size + unit == (m * c) * (2 * unit) + unit) by (nonlinear_arith)
                    requires
                        size == (m * c) * unit,
                ;
                lemma_fundamental_div_mod_converse(2 * size + unit, 2 * unit, m * c, unit);
                assert(m * c >= 0) by (nonlinear_arith)
                    requires
                        m >= 0,
                        c > 0,
                ;
            }
            if whole > usize::MAX as i128 {
                usize::MAX
            } else {
                whole as usize
            }
        } else {
            let d: u64 = (-e) as u64;
            // m < 2^53, so doubling it keeps a word; the half becomes one unit.
            let (whole, _cut): (u64, bool) = shift_down(2 * m, d);
            let result: u64 = (whole + 1) / 2;
            proof {
                let c: int = pow2(d as nat) as int;
                let u: int = pow2((e + 1074) as nat) as int;
                lemma_pow2_pos(d as nat);
                lemma_pow2_pos((e + 1074) as nat);
                lemma_pow2_adds(d as nat, (e + 1074) as nat);
                assert(d as nat + (e + 1074) as nat == 1074);
                lemma_fundamental_div_mod(2 * m as int, c);
                let rest: int = (2 * m as int) % c;
                let low: int = if (whole + 1) % 2 == 1 {
                    1
                } else {
                    0
                };
                // 2 * size + unit == (whole + 1) * unit + rest * u
                assert(2 * size + unit == result * (2 * unit) + (low * unit + rest * u))
                    by (nonlinear_arith)
                    requires
                        size == m * u,
                        2 * m == c * whole + rest,
                        unit == c * u,
                        whole + 1 == 2 * result + low,
                ;
                assert(0 <= rest * u < unit) by (nonlinear_arith)
                    requires
                        0 <= rest < c,
                        unit == c * u,
                        u > 0,
                ;
                assert(0 <= low * unit <= unit) by (nonlinear_arith)
                    requires
                        0 <= low <= 1,
                        unit > 0,
                ;
                lemma_fundamental_div_mod_converse(
                    2 * size + unit,
                    2 * unit,
                    result as int,
                    low * unit + rest * u,
                );
            }
            if result > usize::MAX as u64 {
                usize::MAX
            } else {
                result as usize
            }
        }
    }

    pub open spec fn spec_from_count(n: u64) -> Real {
        signed(false, nearest_double(n as nat, 0))
    }

    /// The number nearest to a count.
    #[verifier::when_used_as_spec(spec_from_count)]
    pub fn from_count(n: u64) -> (r: Real)
        ensures
            r == Real::spec_from_count(n),
    {
        pack(false, round_double(n, 0))
    }

    pub open spec fn spec_from_int(n: isize) -> Real {
        signed(
            n < 0,
            nearest_double(
                (if n < 0 {
                    -n
                } else {
                    n as int
                }) as nat,
                0,
            ),
        )
    }

    /// The number nearest to an integer.
    #[verifier::when_used_as_spec(spec_from_int)]
    pub fn from_int(n: isize) -> (r: Real)
        ensures
            r == Real::spec_from_int(n),
    {
        if n < 0 {
            let size: u64 = (-(n as i128)) as u64;
            pack(true, round_double(size, 0))
        } else {
            pack(false, round_double(n as u64, 0))
        }
    }

    #[verifier::opaque]
    pub open spec fn spec_to_single(self) -> Real {
        if self.nan() {
            Real { bits: QUIET_NAN }
        } else if self.infinite() {
            self
        } else {
            let code: nat = nearest_single(self.significand(), self.exponent());
            signed(
                self.negative(),
                if code == SINGLE_INF {
                    INF as nat
                } else {
                    nearest_double(single_significand(code), single_exponent(code))
                },
            )
        }
    }

    /// The single-precision number nearest to this one.
    #[verifier::when_used_as_spec(spec_to_single)]
    pub fn to_single(self) -> (r: Real)
        ensures
            r == self.spec_to_single(),
    {
        reveal(Real::spec_to_single);
        if self.is_nan() {
            return Real { bits: QUIET_NAN };
        }
        if !self.is_finite() {
            return self;
        }
        let code: u64 = round_single_code(self.significand_word(), self.exponent_word());
        let negative: bool = self.bits >= SIGN;
        if code == SINGLE_INF {
            return pack(negative, INF);
        }
        if code < SINGLE_UNIT {
            pack(negative, round_double(code, -149))
        } else {
            pack(
                negative,
                round_double(code % SINGLE_UNIT + SINGLE_UNIT, (code / SINGLE_UNIT) as i64 - 150),
            )
        }
    }
}

impl Real {
    pub open spec fn spec_single_sum(self, other: Real) -> Real {
        self.add(other).to_single()
    }

    /// Sum in single precision.
    #[verifier::when_used_as_spec(spec_single_sum)]
    pub fn single_sum(self, other: Real) -> (r: Real)
        ensures
            r == self.spec_single_sum(other),
    {
        self.add(other).to_single()
    }

    pub open spec fn spec_single_product(self, other: Real) -> Real {
        self.mul(other).to_single()
    }

    /// Product in single precision.
    #[verifier::when_used_as_spec(spec_single_product)]
    pub fn single_product(self, other: Real) -> (r: Real)
        ensures
            r == self.spec_single_product(other),
    {
        self.mul(other).to_single()
    }

    pub open spec fn spec_single_difference(self, other: Real) -> Real {
        self.sub(other).to_single()
    }

    /// Difference in single precision.
    #[verifier::when_used_as_spec(spec_single_difference)]
    pub fn single_difference(self, other: Real) -> (r: Real)
        ensures
            r == self.spec_single_difference(other),
    {
        self.sub(other).to_single()
    }

    pub open spec fn spec_single_quotient(self, other: Real) -> Real {
        self.div(other).to_single()
    }

    /// Quotient in single precision.
    #[verifier::when_used_as_spec(spec_single_quotient)]
    pub fn single_quotient(self, other: Real) -> (r: Real)
        ensures
            r == self.spec_single_quotient(other),
    {
        self.div(other).to_single()
    }
}

/// Changing the sign changes the sign of the value.
pub proof fn lemma_neg_value(a: Real)
    ensures
        a.spec_neg().magnitude() == a.magnitude(),
        a.spec_neg().negative() == !a.negative(),
        a.spec_neg().value() == -a.value(),
        a.spec_neg().rank() == -a.rank(),
{
}

} // verus!
