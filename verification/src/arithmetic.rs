//! Correctly rounded arithmetic on doubles, as IEEE 754 defines it with ties
//! to even.
use vstd::arithmetic::div_mod::{
    lemma_div_by_multiple, lemma_div_is_ordered, lemma_div_multiples_vanish_quotient,
    lemma_div_pos_is_pos,
};
use vstd::arithmetic::power2::{
    lemma2_to64, lemma_pow2_adds, lemma_pow2_pos, lemma_pow2_strictly_increases, lemma_pow2_unfold,
    pow2,
};
use vstd::prelude::*;

use crate::binary64::{
    lemma_magnitude_monotone, lemma_magnitude_step, magnitude, Binary64, BINADE, INFINITE,
    SIGN_BIT,
};
use crate::rounding::{
    bit_length, lemma_magnitude_at, lemma_nearest, lemma_nearest_exact,
    lemma_nearest_monotone, lemma_pow2_bound, nearest,
    power_of_two, round, EXTRA_PLACES,
};

verus! {

/// 1 in units of 2^-1074.
pub open spec fn one_in_units() -> int {
    pow2(1074) as int
}

/// The absolute value of `x`.
pub open spec fn abs(x: int) -> int {
    if x < 0 {
        -x
    } else {
        x
    }
}

/// Significand and exponent of a finite double: its absolute value is
/// `m * 2^e` units.
fn parts(a: Binary64) -> (r: (u64, u32))
    requires
        a.is_finite(),
    ensures
        abs(a.value()) == r.0 * pow2(r.1 as nat),
        abs(a.value()) == magnitude(a.pattern() as int),
        r.0 < 2 * BINADE,
        r.1 > 0 ==> r.0 >= BINADE,
        r.1 == if a.pattern() < BINADE {
            0
        } else {
            a.pattern() as int / BINADE as int - 1
        },
        r.1 <= 2045,
        r.0 == 0 <==> a.pattern() == 0,
        abs(a.value()) == 0 <==> a.pattern() == 0,
{
    let p: u64 = a.pattern();
    proof {
        lemma2_to64();
        lemma_magnitude_step(p as int);
        assert(magnitude(0) == 0);
        if p > 0 {
            lemma_magnitude_monotone(0, p as int);
        }
        assert(p * pow2(0) == p);
    }
    if p < BINADE {
        (p, 0)
    } else {
        (BINADE + p % BINADE, (p / BINADE - 1) as u32)
    }
}

/// Builds a number from its sign and pattern.
fn with_sign(negative: bool, n: u64) -> (r: Binary64)
    requires
        n <= INFINITE,
    ensures
        r == Binary64::signed(negative, n as int),
{
    if negative {
        Binary64 { bits: n + SIGN_BIT }
    } else {
        Binary64 { bits: n }
    }
}

/// The pattern nearest to `ma * 2^ea + mb * 2^eb`, or to the difference.
fn combine(ma: u64, ea: u32, mb: u64, eb: u32, subtract: bool) -> (n: u64)
    requires
        ma < 2 * BINADE,
        mb < 2 * BINADE,
        eb <= ea <= 2045,
        ea > 0 ==> ma >= BINADE,
        subtract ==> ma * pow2(ea as nat) > mb * pow2(eb as nat),
        !subtract ==> ma * pow2(ea as nat) + mb * pow2(eb as nat) > 0,
    ensures
        n <= INFINITE,
        n == nearest(
            if subtract {
                ma * pow2(ea as nat) - mb * pow2(eb as nat)
            } else {
                ma * pow2(ea as nat) + mb * pow2(eb as nat)
            },
            1,
        ),
{
    let ghost x: int = if subtract {
        ma * pow2(ea as nat) - mb * pow2(eb as nat)
    } else {
        ma * pow2(ea as nat) + mb * pow2(eb as nat)
    };
    let ghost t = pow2(EXTRA_PLACES as nat);
    let d: u32 = ea - eb;
    proof {
        lemma2_to64();
        lemma_pow2_adds(21, 32);
        lemma_pow2_adds(53, 64);
        lemma_pow2_adds(53, 1);
        lemma_pow2_strictly_increases(118, 120);
        lemma_pow2_unfold(118);
        lemma_pow2_pos(eb as nat);
        lemma_pow2_pos(d as nat);
        lemma_pow2_adds(d as nat, eb as nat);
    }
    if d <= 64 {
        let power: u128 = power_of_two(d);
        proof {
            if d < 64 {
                lemma_pow2_strictly_increases(d as nat, 64);
            }
            assert(ma * power <= pow2(53) * pow2(64)) by (nonlinear_arith)
                requires
                    ma < pow2(53),
                    power <= pow2(64),
                    power >= 0,
                    ma >= 0,
            ;
            assert(ma * pow2(ea as nat) == (ma * power) * pow2(eb as nat)) by (nonlinear_arith)
                requires
                    pow2(ea as nat) == power * pow2(eb as nat),
            ;
            lemma_pow2_bound(117);
            lemma_pow2_bound(118);
        }
        let shifted: u128 = ma as u128 * power;
        proof {
            let w = pow2(eb as nat) as int;
            if subtract {
                assert(shifted > mb) by (nonlinear_arith)
                    requires
                        shifted * w > mb * w,
                        w > 0,
                ;
            } else {
                assert(shifted + mb > 0) by (nonlinear_arith)
                    requires
                        shifted * w + mb * w > 0,
                        w > 0,
                ;
            }
        }
        let sig: u128 = if subtract {
            shifted - mb as u128
        } else {
            shifted + mb as u128
        };
        proof {
            let w = pow2(eb as nat) as int;
            lemma_pow2_adds(eb as nat, EXTRA_PLACES as nat);
            assert(x == sig * w) by (nonlinear_arith)
                requires
                    x == if subtract {
                        shifted * w - mb * w
                    } else {
                        shifted * w + mb * w
                    },
                    sig == if subtract {
                        shifted - mb
                    } else {
                        shifted + mb
                    },
            ;
            assert(x * t == sig * (w * t) * 1) by (nonlinear_arith)
                requires
                    x == sig * w,
            ;
        }
        round(sig, eb + EXTRA_PLACES, false, Ghost(x), Ghost(1int))
    } else if mb == 0 {
        proof {
            lemma_pow2_adds(ea as nat, EXTRA_PLACES as nat);
            lemma_pow2_strictly_increases(53, 120);
            assert(x * t == ma * (pow2(ea as nat) * t) * 1) by (nonlinear_arith)
                requires
                    x == ma * pow2(ea as nat),
            ;
        }
        round(ma as u128, ea + EXTRA_PLACES, false, Ghost(x), Ghost(1int))
    } else {
        let whole: u128 = ma as u128 * 2048;
        let sig: u128 = if subtract {
            whole - 1
        } else {
            whole
        };
        proof {
            let u: nat = (ea - 11) as nat;
            let w = pow2(u) as int;
            let low = mb * pow2(eb as nat);
            lemma_pow2_adds(11, u);
            lemma_pow2_adds(u, EXTRA_PLACES as nat);
            lemma_pow2_pos(u);
            lemma_pow2_pos(EXTRA_PLACES as nat);
            lemma_pow2_strictly_increases(64, 120);
            lemma_pow2_adds(53, eb as nat);
            if 53 + eb < u {
                lemma_pow2_strictly_increases((53 + eb) as nat, u);
            }
            assert(0 < low < w) by (nonlinear_arith)
                requires
                    low == mb * pow2(eb as nat),
                    0 < mb < pow2(53),
                    pow2(53) * pow2(eb as nat) <= w,
                    pow2(eb as nat) > 0,
            ;
            assert(ma * pow2(ea as nat) == whole * w) by (nonlinear_arith)
                requires
                    pow2(ea as nat) == 2048 * w,
                    whole == ma * 2048,
            ;
            assert(sig * w < x < (sig + 1) * w) by (nonlinear_arith)
                requires
                    x == if subtract {
                        whole * w - low
                    } else {
                        whole * w + low
                    },
                    sig == if subtract {
                        whole - 1
                    } else {
                        whole as int
                    },
                    0 < low < w,
            ;
            assert(sig * (w * t) * 1 < x * t < (sig + 1) * (w * t) * 1) by (nonlinear_arith)
                requires
                    sig * w < x < (sig + 1) * w,
                    t > 0,
            ;
        }
        round(sig, ea - 11 + EXTRA_PLACES, true, Ghost(x), Ghost(1int))
    }
}

impl Binary64 {
    /// The sum: the double nearest to the exact sum. An exact zero is positive
    /// unless both sides are negative.
    pub open spec fn spec_plus(self, other: Self) -> Self {
        let sum = self.value() + other.value();
        if self.is_nan() || other.is_nan() {
            Self::nan()
        } else if self.is_infinite() && other.is_infinite() && self.is_negative()
            != other.is_negative() {
            Self::nan()
        } else if self.is_infinite() {
            self
        } else if other.is_infinite() {
            other
        } else if sum == 0 {
            Self::signed(self.is_negative() && other.is_negative(), 0)
        } else {
            Self::signed(sum < 0, nearest(abs(sum), 1))
        }
    }

    /// The difference, which is the sum with the negated subtrahend.
    pub open spec fn spec_minus(self, other: Self) -> Self {
        self.spec_plus(other.neg())
    }

    /// The product: the double nearest to the exact product.
    pub open spec fn spec_times(self, other: Self) -> Self {
        let negative = self.is_negative() != other.is_negative();
        if self.is_nan() || other.is_nan() {
            Self::nan()
        } else if self.is_infinite() || other.is_infinite() {
            if self.pattern() == 0 || other.pattern() == 0 {
                Self::nan()
            } else {
                Self::signed(negative, INFINITE as int)
            }
        } else {
            Self::signed(negative, nearest(abs(self.value()) * abs(other.value()), one_in_units()))
        }
    }

    /// The quotient: the double nearest to the exact quotient.
    pub open spec fn spec_over(self, other: Self) -> Self {
        let negative = self.is_negative() != other.is_negative();
        if self.is_nan() || other.is_nan() {
            Self::nan()
        } else if self.is_infinite() {
            if other.is_infinite() {
                Self::nan()
            } else {
                Self::signed(negative, INFINITE as int)
            }
        } else if other.is_infinite() {
            Self::signed(negative, 0)
        } else if other.pattern() == 0 {
            if self.pattern() == 0 {
                Self::nan()
            } else {
                Self::signed(negative, INFINITE as int)
            }
        } else {
            Self::signed(negative, nearest(abs(self.value()) * one_in_units(), abs(other.value())))
        }
    }

    /// The double nearest to `k`.
    pub open spec fn spec_from_integer(k: u64) -> Self {
        Self::signed(false, nearest(k * one_in_units(), 1))
    }

    /// The whole part, brought into the range of `usize`; 0 for a NaN.
    pub open spec fn spec_to_index(self) -> usize {
        let whole = self.value() / one_in_units();
        if self.is_nan() || self.is_negative() {
            0
        } else if whole > usize::MAX {
            usize::MAX
        } else {
            whole as usize
        }
    }

    /// The sum, see [`Binary64::spec_plus`].
    #[verifier::when_used_as_spec(spec_plus)]
    pub fn plus(self, other: Self) -> (r: Self)
        ensures
            r == self.spec_plus(other),
    {
        if self.is_nan() || other.is_nan() {
            return Self::nan();
        }
        let opposed: bool = self.is_negative() != other.is_negative();
        if self.is_infinite() {
            return if other.is_infinite() && opposed {
                Self::nan()
            } else {
                self
            };
        }
        if other.is_infinite() {
            return other;
        }
        let (big, small) = if self.pattern() >= other.pattern() {
            (self, other)
        } else {
            (other, self)
        };
        let (ma, ea) = parts(big);
        let (mb, eb) = parts(small);
        proof {
            if small.pattern() < big.pattern() {
                lemma_magnitude_monotone(small.pattern() as int, big.pattern() as int);
            }
        }
        if big.pattern() == 0 || (opposed && big.pattern() == small.pattern()) {
            return with_sign(self.is_negative() && other.is_negative(), 0);
        }
        proof {
            let p: int = big.pattern() as int;
            let q: int = small.pattern() as int;
            assert(eb <= ea) by {
                lemma_exponents_ordered(q, p);
            }
        }
        let n: u64 = combine(ma, ea, mb, eb, opposed);
        with_sign(big.is_negative(), n)
    }

    /// The difference, see [`Binary64::spec_minus`].
    #[verifier::when_used_as_spec(spec_minus)]
    pub fn minus(self, other: Self) -> (r: Self)
        ensures
            r == self.spec_minus(other),
    {
        self.plus(other.neg())
    }

    /// The product, see [`Binary64::spec_times`].
    #[verifier::when_used_as_spec(spec_times)]
    pub fn times(self, other: Self) -> (r: Self)
        ensures
            r == self.spec_times(other),
    {
        if self.is_nan() || other.is_nan() {
            return Self::nan();
        }
        let negative: bool = self.is_negative() != other.is_negative();
        if self.is_infinite() || other.is_infinite() {
            return if self.pattern() == 0 || other.pattern() == 0 {
                Self::nan()
            } else {
                with_sign(negative, INFINITE)
            };
        }
        let (ma, ea) = parts(self);
        let (mb, eb) = parts(other);
        let ghost num: int = abs(self.value()) * abs(other.value());
        let ghost den: int = one_in_units();
        proof {
            lemma2_to64();
            lemma_pow2_adds(21, 32);
            lemma_pow2_adds(53, 53);
            lemma_pow2_bound(106);
            lemma_pow2_strictly_increases(106, 120);
            lemma_pow2_pos(1074);
            assert(0 <= ma * mb < pow2(53) * pow2(53)) by (nonlinear_arith)
                requires
                    0 <= ma < pow2(53),
                    0 <= mb < pow2(53),
            ;
        }
        if ma == 0 || mb == 0 {
            proof {
                assert(num == 0) by (nonlinear_arith)
                    requires
                        num == abs(self.value()) * abs(other.value()),
                        abs(self.value()) == 0 || abs(other.value()) == 0,
                ;
                assert(0 * den == 0);
                assert(magnitude(0) == 0);
                lemma_nearest_exact(0, num, den);
            }
            return with_sign(negative, 0);
        }
        let sig: u128 = ma as u128 * mb as u128;
        let s: u32 = ea + eb + (EXTRA_PLACES - 1074);
        proof {
            let t = pow2(EXTRA_PLACES as nat);
            lemma_pow2_adds(ea as nat, eb as nat);
            lemma_pow2_adds((ea + eb) as nat, EXTRA_PLACES as nat);
            lemma_pow2_adds(s as nat, 1074);
            assert(sig > 0) by (nonlinear_arith)
                requires
                    sig == ma * mb,
                    ma > 0,
                    mb > 0,
            ;
            assert(num == sig * (pow2(ea as nat) * pow2(eb as nat))) by (nonlinear_arith)
                requires
                    num == (ma * pow2(ea as nat)) * (mb * pow2(eb as nat)),
                    sig == ma * mb,
            ;
            assert(num >= 0) by (nonlinear_arith)
                requires
                    num == sig * (pow2(ea as nat) * pow2(eb as nat)),
                    sig >= 0,
                    pow2(ea as nat) >= 0,
                    pow2(eb as nat) >= 0,
            ;
            assert(num * t == sig * pow2(s as nat) * den) by (nonlinear_arith)
                requires
                    num == sig * pow2((ea + eb) as nat),
                    pow2((ea + eb) as nat) * t == pow2(s as nat) * den,
            ;
        }
        let n: u64 = round(sig, s, false, Ghost(num), Ghost(den));
        with_sign(negative, n)
    }

    /// The quotient, see [`Binary64::spec_over`].
    #[verifier::when_used_as_spec(spec_over)]
    pub fn over(self, other: Self) -> (r: Self)
        ensures
            r == self.spec_over(other),
    {
        if self.is_nan() || other.is_nan() {
            return Self::nan();
        }
        let negative: bool = self.is_negative() != other.is_negative();
        if self.is_infinite() {
            return if other.is_infinite() {
                Self::nan()
            } else {
                with_sign(negative, INFINITE)
            };
        }
        if other.is_infinite() {
            return with_sign(negative, 0);
        }
        if other.pattern() == 0 {
            return if self.pattern() == 0 {
                Self::nan()
            } else {
                with_sign(negative, INFINITE)
            };
        }
        let (ma, ea) = parts(self);
        let (mb, eb) = parts(other);
        let ghost num: int = abs(self.value()) * one_in_units();
        let ghost den: int = abs(other.value());
        if ma == 0 {
            proof {
                assert(num == 0) by (nonlinear_arith)
                    requires
                        num == abs(self.value()) * one_in_units(),
                        abs(self.value()) == 0,
                ;
                assert(0 * den == 0);
                assert(magnitude(0) == 0);
                lemma_nearest_exact(0, num, den);
            }
            return with_sign(negative, 0);
        }
        let n: u64 = divide(ma, ea, mb, eb);
        with_sign(negative, n)
    }

    /// The double nearest to `k`.
    #[verifier::when_used_as_spec(spec_from_integer)]
    pub fn from_integer(k: u64) -> (r: Self)
        ensures
            r == Self::spec_from_integer(k),
    {
        let ghost num: int = k * one_in_units();
        proof {
            lemma_pow2_pos(1074);
            lemma2_to64();
            lemma_pow2_strictly_increases(64, 120);
        }
        if k == 0 {
            proof {
                assert(num == 0);
                assert(magnitude(0) == 0);
                lemma_nearest_exact(0, num, 1);
            }
            return Self::zero();
        }
        proof {
            let t = pow2(EXTRA_PLACES as nat);
            lemma_pow2_adds(1074, EXTRA_PLACES as nat);
            assert(num >= 0) by (nonlinear_arith)
                requires
                    num == k * one_in_units(),
                    one_in_units() > 0,
                    k >= 0,
            ;
            assert(num * t == k * (one_in_units() * t) * 1) by (nonlinear_arith)
                requires
                    num == k * one_in_units(),
            ;
        }
        let n: u64 = round(k as u128, 1074 + EXTRA_PLACES, false, Ghost(num), Ghost(1int));
        with_sign(false, n)
    }

    /// The whole part, see [`Binary64::spec_to_index`].
    #[verifier::when_used_as_spec(spec_to_index)]
    pub fn to_index(self) -> (r: usize)
        ensures
            r == self.spec_to_index(),
    {
        if self.is_nan() || self.is_negative() {
            return 0;
        }
        let ghost one = pow2(1074);
        proof {
            lemma_pow2_pos(1074);
            lemma2_to64();
            lemma_pow2_adds(21, 32);
        }
        if self.is_infinite() {
            proof {
                let b: int = BINADE as int;
                assert(INFINITE as int / b == 2047 && INFINITE as int % b == 0);
                lemma_pow2_adds(972, 1074);
                lemma_pow2_strictly_increases(64, 972);
                assert(b * (pow2(972) * one) == (b * pow2(972)) * one) by (nonlinear_arith);
                lemma_div_by_multiple(b * pow2(972), one as int);
                assert(b * pow2(972) >= pow2(972)) by (nonlinear_arith)
                    requires
                        b >= 1,
                ;
            }
            return usize::MAX;
        }
        let (m, e) = parts(self);
        if e <= 1074 {
            let d: u32 = 1074 - e;
            proof {
                lemma_pow2_adds(e as nat, d as nat);
                lemma_pow2_pos(e as nat);
                lemma_pow2_pos(d as nat);
                lemma_div_multiples_vanish_quotient(
                    pow2(e as nat) as int,
                    m as int,
                    pow2(d as nat) as int,
                );
                assert(m * pow2(e as nat) == pow2(e as nat) * m) by (nonlinear_arith);
                assert(self.value() / one_in_units() == m as int / pow2(d as nat) as int);
            }
            if d >= 54 {
                proof {
                    lemma_pow2_strictly_increases(53, d as nat);
                    assert(m as int / pow2(d as nat) as int == 0) by (nonlinear_arith)
                        requires
                            0 <= m < pow2(d as nat),
                    ;
                }
                return 0;
            }
            let whole: u128 = m as u128 / power_of_two(d);
            clamp_to_index(whole)
        } else {
            let g: u32 = e - 1074;
            proof {
                lemma_pow2_adds(g as nat, 1074);
                assert(m * (pow2(g as nat) * one) == (m * pow2(g as nat)) * one)
                    by (nonlinear_arith);
                lemma_div_by_multiple(m * pow2(g as nat), one as int);
                assert(self.value() / one_in_units() == m * pow2(g as nat));
                lemma_pow2_pos(g as nat);
            }
            if g > 64 {
                proof {
                    lemma_pow2_strictly_increases(64, g as nat);
                    assert(m * pow2(g as nat) >= pow2(g as nat)) by (nonlinear_arith)
                        requires
                            m >= 1,
                            pow2(g as nat) > 0,
                    ;
                }
                return usize::MAX;
            }
            proof {
                if g < 64 {
                    lemma_pow2_strictly_increases(g as nat, 64);
                }
                lemma_pow2_adds(53, 64);
                lemma_pow2_bound(117);
                assert(m * pow2(g as nat) <= pow2(53) * pow2(64)) by (nonlinear_arith)
                    requires
                        m < pow2(53),
                        0 < pow2(g as nat) <= pow2(64),
                ;
            }
            let whole: u128 = m as u128 * power_of_two(g);
            clamp_to_index(whole)
        }
    }
}

/// Brings a whole number into the range of `usize`.
fn clamp_to_index(whole: u128) -> (r: usize)
    ensures
        r == if whole > usize::MAX {
            usize::MAX
        } else {
            whole as usize
        },
{
    if whole > usize::MAX as u128 {
        usize::MAX
    } else {
        whole as usize
    }
}

/// The exponent does not fall as the pattern grows.
proof fn lemma_exponents_ordered(q: int, p: int)
    requires
        0 <= q <= p,
    ensures
        p < BINADE ==> q < BINADE,
        q >= BINADE ==> q / (BINADE as int) <= p / (BINADE as int),
{
    let b: int = BINADE as int;
    assert(q / b <= p / b) by (nonlinear_arith)
        requires
            0 <= q <= p,
            b > 0,
    ;
}

/// The pattern nearest to the quotient of `ma * 2^ea` by `mb * 2^eb`.
fn divide(ma: u64, ea: u32, mb: u64, eb: u32) -> (n: u64)
    requires
        0 < ma < 2 * BINADE,
        0 < mb < 2 * BINADE,
        ea <= 2045,
        eb <= 2045,
    ensures
        n <= INFINITE,
        n == nearest(ma * pow2(ea as nat) * one_in_units(), mb * pow2(eb as nat)),
{
    let ghost num: int = ma * pow2(ea as nat) * one_in_units();
    let ghost den: int = mb * pow2(eb as nat);
    proof {
        lemma2_to64();
        lemma_pow2_adds(21, 32);
        lemma_pow2_strictly_increases(53, 120);
    }
    let len: u32 = bit_length(ma as u128);
    proof {
        if len > 53 {
            if len > 54 {
                lemma_pow2_strictly_increases(53, (len - 1) as nat);
            }
            assert(false);
        }
    }
    let shift: u32 = 108 - len;
    proof {
        lemma_pow2_adds(len as nat, shift as nat);
        lemma_pow2_adds((len - 1) as nat, shift as nat);
        lemma_pow2_bound(108);
        lemma_pow2_strictly_increases(108, 120);
        lemma_pow2_pos(shift as nat);
        assert(pow2((len - 1) as nat) * pow2(shift as nat) <= ma * pow2(shift as nat) < pow2(
            len as nat,
        ) * pow2(shift as nat)) by (nonlinear_arith)
            requires
                pow2((len - 1) as nat) <= ma < pow2(len as nat),
                pow2(shift as nat) > 0,
        ;
    }
    let dividend: u128 = ma as u128 * power_of_two(shift);
    let sig: u128 = dividend / mb as u128;
    let rem: u128 = dividend % mb as u128;
    let s: u32 = ea + 1074 + EXTRA_PLACES - eb - shift;
    proof {
        let t = pow2(EXTRA_PLACES as nat);
        let w = pow2((s + eb) as nat);
        lemma_pow2_adds(53, 54);
        lemma_pow2_pos(54);
        lemma_pow2_adds(s as nat, eb as nat);
        lemma_pow2_adds(ea as nat, 1074);
        lemma_pow2_adds((ea + 1074) as nat, EXTRA_PLACES as nat);
        lemma_pow2_adds(shift as nat, (s + eb) as nat);
        lemma_pow2_pos((s + eb) as nat);
        lemma_pow2_pos(ea as nat);
        lemma_pow2_pos(eb as nat);
        lemma_pow2_pos(1074);
        assert(dividend == sig * mb + rem) by (nonlinear_arith)
            requires
                sig == dividend / (mb as u128),
                rem == dividend % (mb as u128),
                mb > 0,
        ;
        assert(sig <= dividend) by (nonlinear_arith)
            requires
                dividend == sig * mb + rem,
                mb >= 1,
                sig >= 0,
                rem >= 0,
        ;
        assert(sig >= pow2(54)) by (nonlinear_arith)
            requires
                dividend == sig * mb + rem,
                dividend >= pow2(53) * pow2(54),
                0 <= rem < mb,
                0 < mb < pow2(53),
        ;
        assert(den > 0) by (nonlinear_arith)
            requires
                den == mb * pow2(eb as nat),
                mb > 0,
                pow2(eb as nat) > 0,
        ;
        assert(num == ma * pow2((ea + 1074) as nat)) by (nonlinear_arith)
            requires
                num == ma * pow2(ea as nat) * one_in_units(),
                pow2((ea + 1074) as nat) == pow2(ea as nat) * one_in_units(),
        ;
        assert(num >= 0) by (nonlinear_arith)
            requires
                num == ma * pow2((ea + 1074) as nat),
                ma >= 0,
                pow2((ea + 1074) as nat) >= 0,
        ;
        assert(num * t == dividend * w) by (nonlinear_arith)
            requires
                num == ma * pow2((ea + 1074) as nat),
                pow2((ea + 1074) as nat) * t == pow2(shift as nat) * w,
                dividend == ma * pow2(shift as nat),
        ;
        assert(sig * pow2(s as nat) * den == (sig * mb) * w) by (nonlinear_arith)
            requires
                den == mb * pow2(eb as nat),
                w == pow2(s as nat) * pow2(eb as nat),
        ;
        assert((sig + 1) * pow2(s as nat) * den == (sig * mb + mb) * w) by (nonlinear_arith)
            requires
                den == mb * pow2(eb as nat),
                w == pow2(s as nat) * pow2(eb as nat),
        ;
        if rem != 0 {
            assert((sig * mb) * w < dividend * w < (sig * mb + mb) * w) by (nonlinear_arith)
                requires
                    sig * mb < dividend < sig * mb + mb,
                    w > 0,
            ;
        }
    }
    round(sig, s, rem != 0, Ghost(num), Ghost(den))
}

/// The difference has the sign of the comparison.
pub proof fn lemma_minus_sign(a: Binary64, b: Binary64)
    requires
        !a.is_nan(),
        b.is_finite(),
    ensures
        !a.minus(b).is_nan(),
        b.value() <= a.value() ==> a.minus(b).value() >= 0,
        a.value() <= b.value() ==> a.minus(b).value() <= 0,
        a.is_finite() && a.value() == b.value() ==> a.minus(b).value() == 0,
{
    let diff = a.value() - b.value();
    let n: int = b.pattern() as int;
    assert(magnitude(0) == 0);
    lemma_magnitude_monotone(0, INFINITE as int);
    lemma_magnitude_step(n);
    lemma_magnitude_monotone(n, INFINITE as int);
    assert(b.neg().value() == -b.value());
    if a.is_finite() && diff != 0 {
        lemma_nearest(abs(diff), 1);
        lemma_magnitude_step(nearest(abs(diff), 1));
    }
}

/// A product with a factor that is not negative has the sign of the other.
pub proof fn lemma_times_sign(a: Binary64, b: Binary64)
    requires
        !a.is_nan(),
        a.value() >= 0,
        !b.is_nan(),
        a.is_finite() || b.pattern() > 0,
        a.pattern() > 0 || b.is_finite(),
    ensures
        !a.times(b).is_nan(),
        b.value() >= 0 ==> a.times(b).value() >= 0,
        b.value() <= 0 ==> a.times(b).value() <= 0,
{
    let num = abs(a.value()) * abs(b.value());
    lemma_value_range(a);
    lemma_value_range(b);
    lemma_pow2_pos(1074);
    if a.is_finite() && b.is_finite() {
        assert(num >= 0) by (nonlinear_arith)
            requires
                num == abs(a.value()) * abs(b.value()),
                abs(a.value()) >= 0,
                abs(b.value()) >= 0,
        ;
        lemma_nearest(num, one_in_units());
        lemma_magnitude_step(nearest(num, one_in_units()));
        if a.pattern() == 0 || b.pattern() == 0 {
            assert(num == 0) by (nonlinear_arith)
                requires
                    num == abs(a.value()) * abs(b.value()),
                    abs(a.value()) == 0 || abs(b.value()) == 0,
            ;
            assert(0 * one_in_units() == 0);
            lemma_nearest_exact(0, num, one_in_units());
        }
    }
}

/// Whole numbers below 2^53 are held exactly.
pub proof fn lemma_integer_exact(k: u64)
    requires
        k < 2 * BINADE,
    ensures
        Binary64::from_integer(k).is_finite(),
        !Binary64::from_integer(k).is_negative(),
        Binary64::from_integer(k).value() == k * one_in_units(),
{
    lemma_pow2_pos(1074);
    lemma2_to64();
    if k == 0 {
        assert(magnitude(0) == 0);
        assert(0 * one_in_units() == 0);
        lemma_nearest_exact(0, 0, 1);
    } else {
        let j = lemma_normalizing_shift(k as int, 0);
        let m = k * pow2(j);
        let e: int = 1074 - j;
        let n = e * BINADE + m;
        lemma_magnitude_at(e, m);
        lemma_pow2_adds(j, e as nat);
        assert(m * pow2(e as nat) == k * one_in_units()) by (nonlinear_arith)
            requires
                m == k * pow2(j),
                one_in_units() == pow2(j) * pow2(e as nat),
        ;
        assert(0 <= n < INFINITE) by (nonlinear_arith)
            requires
                n == e * BINADE + m,
                1022 <= e <= 1074,
                0 <= m < 2 * BINADE,
        ;
        lemma_nearest_exact(n, k * one_in_units(), 1);
    }
}

/// Every positive number below 2^53 can be doubled until it has 53 digits.
proof fn lemma_normalizing_shift(k: int, i: nat) -> (j: nat)
    requires
        0 < k,
        k * pow2(i) < 2 * BINADE,
        i <= 52,
        pow2(i) <= k * pow2(i),
    ensures
        i <= j <= 52,
        BINADE <= k * pow2(j) < 2 * BINADE,
    decreases 52 - i,
{
    if k * pow2(i) >= BINADE {
        i
    } else {
        if i == 52 {
            lemma2_to64();
            lemma_pow2_adds(20, 32);
            assert(false);
        }
        lemma_pow2_unfold(i + 1);
        assert(k * pow2(i + 1) == 2 * (k * pow2(i))) by (nonlinear_arith)
            requires
                pow2(i + 1) == 2 * pow2(i),
        ;
        lemma_normalizing_shift(k, i + 1)
    }
}

/// The value that the exact value `x` rounds to.
spec fn rounded(x: int) -> int {
    if x < 0 {
        -magnitude(nearest(-x, 1))
    } else {
        magnitude(nearest(x, 1))
    }
}

/// Rounding keeps the order of values on both sides of zero.
proof fn lemma_rounded_monotone(x: int, y: int)
    requires
        x <= y,
    ensures
        rounded(x) <= rounded(y),
{
    lemma_nearest(abs(x), 1);
    lemma_nearest(abs(y), 1);
    let n = nearest(abs(x), 1);
    let m = nearest(abs(y), 1);
    lemma_magnitude_step(n);
    lemma_magnitude_step(m);
    if 0 <= x {
        lemma_nearest_monotone(x, 1, y, 1);
        if n < m {
            lemma_magnitude_monotone(n, m);
        }
    } else if y < 0 {
        lemma_nearest_monotone(-y, 1, -x, 1);
        if m < n {
            lemma_magnitude_monotone(m, n);
        }
    }
}

/// No number lies beyond the infinities, and only they lie there.
pub proof fn lemma_value_range(a: Binary64)
    requires
        !a.is_nan(),
    ensures
        -magnitude(INFINITE as int) <= a.value() <= magnitude(INFINITE as int),
        a.is_infinite() <==> abs(a.value()) == magnitude(INFINITE as int),
        a.value() == 0 <==> a.pattern() == 0,
        a.value() > 0 ==> !a.is_negative(),
        magnitude(INFINITE as int) > 0,
{
    let n: int = a.pattern() as int;
    assert(magnitude(0) == 0);
    lemma_magnitude_monotone(0, INFINITE as int);
    if n > 0 {
        lemma_magnitude_monotone(0, n);
    }
    if n < INFINITE {
        lemma_magnitude_monotone(n, INFINITE as int);
    }
}

/// A sum of finite numbers has the rounded value of the exact sum.
proof fn lemma_plus_value(a: Binary64, b: Binary64)
    requires
        a.is_finite(),
        b.is_finite(),
    ensures
        !a.plus(b).is_nan(),
        a.plus(b).value() == rounded(a.value() + b.value()),
{
    let sum = a.value() + b.value();
    assert(magnitude(0) == 0);
    lemma_nearest(abs(sum), 1);
    lemma_nearest_exact(0, 0, 1);
}

/// Adding the same number keeps the order.
pub proof fn lemma_plus_monotone(a: Binary64, b: Binary64, c: Binary64)
    requires
        a.le(b),
        !a.plus(c).is_nan(),
        !b.plus(c).is_nan(),
    ensures
        a.plus(c).le(b.plus(c)),
{
    lemma_value_range(a);
    lemma_value_range(b);
    lemma_value_range(a.plus(c));
    lemma_value_range(b.plus(c));
    if a.is_finite() && b.is_finite() && c.is_finite() {
        lemma_plus_value(a, c);
        lemma_plus_value(b, c);
        lemma_rounded_monotone(a.value() + c.value(), b.value() + c.value());
    }
}

/// Adding something greater does not give less.
pub proof fn lemma_plus_monotone_right(a: Binary64, b: Binary64, c: Binary64)
    requires
        b.le(c),
        !a.plus(b).is_nan(),
        !a.plus(c).is_nan(),
    ensures
        a.plus(b).le(a.plus(c)),
{
    lemma_value_range(b);
    lemma_value_range(c);
    lemma_value_range(a.plus(b));
    lemma_value_range(a.plus(c));
    if a.is_finite() && b.is_finite() && c.is_finite() {
        lemma_plus_value(a, b);
        lemma_plus_value(a, c);
        lemma_rounded_monotone(a.value() + b.value(), a.value() + c.value());
    }
}

/// Adding something not negative does not make a finite number smaller, and
/// adding something not positive does not make it greater.
pub proof fn lemma_plus_moves(a: Binary64, b: Binary64)
    requires
        a.is_finite(),
        !b.is_nan(),
    ensures
        !a.plus(b).is_nan(),
        b.value() >= 0 ==> a.value() <= a.plus(b).value(),
        b.value() <= 0 ==> a.plus(b).value() <= a.value(),
{
    let sum = a.value() + b.value();
    lemma_value_range(a);
    lemma_value_range(b);
    if b.is_finite() {
        lemma_plus_value(a, b);
        lemma_nearest_exact(a.pattern() as int, magnitude(a.pattern() as int), 1);
        if b.value() >= 0 {
            lemma_rounded_monotone(a.value(), sum);
        }
        if b.value() <= 0 {
            lemma_rounded_monotone(sum, a.value());
        }
    }
}

/// Adding something that is not negative does not give less.
pub proof fn lemma_plus_grows(a: Binary64, b: Binary64)
    requires
        !b.is_nan(),
        b.value() >= 0,
        !a.plus(b).is_nan(),
    ensures
        a.le(a.plus(b)),
{
    lemma_value_range(a);
    lemma_value_range(b);
    lemma_value_range(a.plus(b));
    if a.is_finite() && b.is_finite() {
        lemma_plus_value(a, b);
        lemma_nearest_exact(a.pattern() as int, magnitude(a.pattern() as int), 1);
        lemma_rounded_monotone(a.value(), a.value() + b.value());
    }
}

/// Multiplying numbers that are not negative keeps the order, and gives
/// nothing negative.
pub proof fn lemma_times_monotone(k: Binary64, a: Binary64, b: Binary64)
    requires
        !k.is_nan(),
        k.value() >= 0,
        a.le(b),
        a.value() >= 0,
        !k.times(a).is_nan(),
        !k.times(b).is_nan(),
    ensures
        k.times(a).value() >= 0,
        k.times(a).le(k.times(b)),
{
    let one = one_in_units();
    lemma_pow2_pos(1074);
    assert(magnitude(0) == 0);
    lemma_value_range(k);
    lemma_value_range(a);
    lemma_value_range(b);
    lemma_value_range(k.times(a));
    lemma_value_range(k.times(b));
    if k.is_finite() && a.is_finite() {
        let x = abs(k.value()) * abs(a.value());
        assert(x >= 0) by (nonlinear_arith)
            requires
                x == abs(k.value()) * abs(a.value()),
                abs(k.value()) >= 0,
                abs(a.value()) >= 0,
        ;
        lemma_nearest(x, one);
        let n = nearest(x, one);
        lemma_magnitude_step(n);
        if k.pattern() == 0 || a.pattern() == 0 {
            assert(x == 0) by (nonlinear_arith)
                requires
                    x == abs(k.value()) * abs(a.value()),
                    abs(k.value()) == 0 || abs(a.value()) == 0,
            ;
            assert(0 * one == 0);
            lemma_nearest_exact(0, 0, one);
        }
        if b.is_finite() {
            let y = abs(k.value()) * abs(b.value());
            assert(x <= y) by (nonlinear_arith)
                requires
                    x == abs(k.value()) * abs(a.value()),
                    y == abs(k.value()) * abs(b.value()),
                    abs(k.value()) >= 0,
                    0 <= abs(a.value()) <= abs(b.value()),
            ;
            assert(x * one <= y * one) by (nonlinear_arith)
                requires
                    x <= y,
                    one > 0,
            ;
            lemma_nearest(y, one);
            lemma_nearest_monotone(x, one, y, one);
            let m = nearest(y, one);
            lemma_magnitude_step(m);
            if n < m {
                lemma_magnitude_monotone(n, m);
            }
            if k.pattern() == 0 || b.pattern() == 0 {
                assert(y == 0) by (nonlinear_arith)
                    requires
                        y == abs(k.value()) * abs(b.value()),
                        abs(k.value()) == 0 || abs(b.value()) == 0,
                ;
                assert(0 * one == 0);
                lemma_nearest_exact(0, 0, one);
            }
        }
    }
}

/// Factors may change places.
pub proof fn lemma_times_commutes(a: Binary64, b: Binary64)
    ensures
        a.times(b) == b.times(a),
{
    assert(abs(a.value()) * abs(b.value()) == abs(b.value()) * abs(a.value()))
        by (nonlinear_arith);
}

/// Whole numbers are finite, and those above 0 are positive.
pub proof fn lemma_integer_positive(k: u64)
    requires
        k > 0,
    ensures
        Binary64::from_integer(k).is_finite(),
        !Binary64::from_integer(k).is_negative(),
        Binary64::from_integer(k).pattern() > 0,
{
    let u = one_in_units();
    let b: int = BINADE as int;
    lemma_pow2_pos(1074);
    lemma2_to64();
    assert(u <= k * u <= 0x1_0000_0000_0000_0000 * u && k * u >= 0) by (nonlinear_arith)
        requires
            1 <= k <= 0x1_0000_0000_0000_0000,
            u > 0,
    ;
    lemma_integer_exact(1);
    let one: int = Binary64::from_integer(1).pattern() as int;
    assert(magnitude(0) == 0);
    lemma_nearest_exact(one, u, 1);
    lemma_nearest_monotone(u, 1, k * u, 1);
    // 2^64 is held exactly.
    let top: int = 1086 * b + b;
    lemma_magnitude_at(1086, b);
    lemma_pow2_adds(12, 1074);
    assert(b * (4096 * u) == 0x1_0000_0000_0000_0000 * u) by (nonlinear_arith)
        requires
            b == 0x10_0000_0000_0000,
    ;
    lemma_nearest_exact(top, 0x1_0000_0000_0000_0000 * u, 1);
    lemma_nearest_monotone(k * u, 1, 0x1_0000_0000_0000_0000 * u, 1);
    lemma_nearest(k * u, 1);
}

/// Dividing by a positive number keeps the order of what is not negative and
/// lies below it.
pub proof fn lemma_over_monotone(a: Binary64, b: Binary64, e: Binary64)
    requires
        a.le(b),
        a.value() >= 0,
        b.lt(e),
    ensures
        a.over(e).le(b.over(e)),
        a.over(e).value() >= 0,
{
    let u = one_in_units();
    lemma_pow2_pos(1074);
    assert(magnitude(0) == 0);
    lemma_value_range(a);
    lemma_value_range(b);
    lemma_value_range(e);
    if e.is_finite() {
        let x = abs(a.value()) * u;
        let y = abs(b.value()) * u;
        let den = abs(e.value());
        assert(0 <= x <= y) by (nonlinear_arith)
            requires
                x == abs(a.value()) * u,
                y == abs(b.value()) * u,
                0 <= abs(a.value()) <= abs(b.value()),
                u > 0,
        ;
        assert(x * den <= y * den) by (nonlinear_arith)
            requires
                x <= y,
                den > 0,
        ;
        lemma_nearest(x, den);
        lemma_nearest(y, den);
        lemma_nearest_monotone(x, den, y, den);
        let n = nearest(x, den);
        let m = nearest(y, den);
        lemma_magnitude_step(n);
        lemma_magnitude_step(m);
        if n < m {
            lemma_magnitude_monotone(n, m);
        }
        if a.pattern() == 0 {
            assert(x == 0) by (nonlinear_arith)
                requires
                    x == abs(a.value()) * u,
                    abs(a.value()) == 0,
            ;
            assert(0 * den == 0);
            lemma_nearest_exact(0, 0, den);
        }
        if b.pattern() == 0 {
            assert(y == 0) by (nonlinear_arith)
                requires
                    y == abs(b.value()) * u,
                    abs(b.value()) == 0,
            ;
            assert(0 * den == 0);
            lemma_nearest_exact(0, 0, den);
        }
    }
}

/// The whole part keeps the order.
pub proof fn lemma_to_index_monotone(a: Binary64, b: Binary64)
    requires
        a.le(b),
    ensures
        a.to_index() <= b.to_index(),
{
    let u = one_in_units();
    lemma_pow2_pos(1074);
    lemma_value_range(a);
    lemma_value_range(b);
    lemma_div_is_ordered(a.value(), b.value(), u);
    if !a.is_negative() {
        lemma_div_pos_is_pos(a.value(), u);
        if b.is_negative() {
            assert(a.value() == 0);
            assert(0int / u == 0) by (nonlinear_arith)
                requires
                    u > 0,
            ;
        }
    } else if !b.is_negative() {
        lemma_magnitude_step(b.pattern() as int);
        lemma_div_pos_is_pos(b.value(), u);
    }
}

/// Between 2^-1022 and 2^52 rounding errs by at most one part in 2^53.
pub proof fn lemma_nearest_close(num: int, den: int)
    requires
        den > 0,
        BINADE * den <= num <= BINADE * one_in_units() * den,
    ensures
        BINADE <= nearest(num, den) < INFINITE,
        magnitude(nearest(num, den)) * den * (2 * BINADE - 1) <= num * (2 * BINADE),
        num * (2 * BINADE) <= magnitude(nearest(num, den)) * den * (2 * BINADE + 1),
{
    let b: int = BINADE as int;
    let u = one_in_units();
    lemma2_to64();
    lemma_pow2_pos(1074);
    assert(num >= 0) by (nonlinear_arith)
        requires
            b * den <= num,
            den > 0,
            b > 0,
    ;
    lemma_nearest(num, den);
    lemma_magnitude_at(0, b);
    lemma_magnitude_at(1074, b);
    assert(b * pow2(0) == b);
    lemma_nearest_exact(b, b * den, den);
    lemma_nearest_exact(1075 * b, b * u * den, den);
    assert(b * den * den <= num * den && num * den <= b * u * den * den) by (nonlinear_arith)
        requires
            b * den <= num <= b * u * den,
            den > 0,
    ;
    lemma_nearest_monotone(b * den, den, num, den);
    lemma_nearest_monotone(num, den, b * u * den, den);
    let n = nearest(num, den);
    let k: int = n / b - 1;
    let m: int = b + n % b;
    assert(n == k * b + m && k >= 0) by (nonlinear_arith)
        requires
            k == n / b - 1,
            m == b + n % b,
            b > 0,
            n >= b,
    ;
    lemma_magnitude_at(k, m);
    let g = pow2(k as nat) as int;
    lemma_pow2_pos(k as nat);
    let v = magnitude(n);
    assert(magnitude(n + 1) == v + g) by (nonlinear_arith)
        requires
            magnitude(n + 1) == (m + 1) * g,
            v == m * g,
    ;
    assert(v >= b * g) by (nonlinear_arith)
        requires
            v == m * g,
            m >= b,
            g > 0,
    ;
    assert(magnitude(n - 1) >= v - g) by {
        if m > b {
            lemma_magnitude_at(k, m - 1);
            assert((m - 1) * g == m * g - g) by (nonlinear_arith);
        } else if k > 0 {
            lemma_magnitude_at(k - 1, 2 * b - 1);
            assert(n - 1 == (k - 1) * b + (2 * b - 1)) by (nonlinear_arith)
                requires
                    n == k * b + m,
                    m == b,
            ;
            lemma_pow2_unfold(k as nat);
            let h = pow2((k - 1) as nat) as int;
            assert((2 * b - 1) * h >= b * (2 * h) - 2 * h) by (nonlinear_arith)
                requires
                    h >= 0,
            ;
        }
    }
    let low = magnitude(n - 1) + v;
    let high = v + magnitude(n + 1);
    assert(2 * num <= high * den && low * den <= 2 * num);
    assert(num * (2 * b) <= v * den * (2 * b + 1)) by (nonlinear_arith)
        requires
            2 * num <= high * den,
            high == 2 * v + g,
            b * g <= v,
            den > 0,
            b > 0,
    ;
    assert(v * den * (2 * b - 1) <= num * (2 * b)) by (nonlinear_arith)
        requires
            low * den <= 2 * num,
            low >= 2 * v - g,
            b * g <= v,
            den > 0,
            b > 0,
    ;
}

} // verus!
