//! What holds of the numbers: how they are encoded, compared and rounded.
use vstd::arithmetic::power2::{lemma_pow2_pos, pow2};
use vstd::prelude::*;

use crate::arithmetic::{
    abs, lemma_integer_exact, lemma_integer_positive, lemma_value_range, one_in_units,
};
use crate::binary64::{
    lemma_magnitude_monotone, lemma_magnitude_step, lemma_rank_orders_values, magnitude, Binary64,
    INFINITE,
};
use crate::rounding::{is_nearest, lemma_nearest, nearest};

verus! {

/// Whether `c` comes no closer to `num / den` than `r` does, where `r` has an
/// even pattern if another value comes equally close. An infinity counts as the
/// first power of two beyond the finite doubles.
pub open spec fn no_closer(c: Binary64, r: Binary64, num: int, den: int) -> bool {
    let near = abs(r.value() * den - num);
    let far = abs(c.value() * den - num);
    &&& near <= far
    &&& near == far && c.value() != r.value() ==> r.pattern() % 2 == 0
}

/// The pattern that a value rounds to comes closest to it.
proof fn lemma_no_pattern_closer(n: int, c: int, num: int, den: int)
    requires
        is_nearest(n, num, den),
        0 <= c <= INFINITE,
        den > 0,
    ensures
        abs(magnitude(n) * den - num) <= abs(magnitude(c) * den - num),
        abs(magnitude(n) * den - num) == abs(magnitude(c) * den - num) && c != n ==> n % 2 == 0,
{
    let a = magnitude(n);
    let z = magnitude(c);
    if n < c {
        let b = magnitude(n + 1);
        lemma_magnitude_step(n);
        if n + 1 < c {
            lemma_magnitude_monotone(n + 1, c);
        }
        assert(a * den < b * den && b * den <= z * den && (a + b) * den == a * den + b * den)
            by (nonlinear_arith)
            requires
                a < b <= z,
                den > 0,
        ;
    } else if c < n {
        let b = magnitude(n - 1);
        lemma_magnitude_step(n - 1);
        if c < n - 1 {
            lemma_magnitude_monotone(c, n - 1);
        }
        assert(b * den < a * den && z * den <= b * den && (b + a) * den == b * den + a * den)
            by (nonlinear_arith)
            requires
                z <= b < a,
                den > 0,
        ;
    }
}

/// A value with a sign rounds to the number that comes closest to it.
proof fn lemma_no_number_closer(negative: bool, num: int, den: int, c: Binary64)
    requires
        num >= 0,
        den > 0,
        !c.is_nan(),
    ensures
        ({
            let r = Binary64::signed(negative, nearest(num, den));
            let x = if negative {
                -num
            } else {
                num
            };
            &&& !r.is_nan()
            &&& r.is_negative() == negative
            &&& no_closer(c, r, x, den)
        }),
{
    lemma_nearest(num, den);
    let n = nearest(num, den);
    let r = Binary64::signed(negative, n);
    let m = magnitude(n);
    let z = magnitude(c.pattern() as int);
    assert(magnitude(0) == 0);
    lemma_value_range(c);
    lemma_value_range(r);
    assert(r.pattern() == n);
    assert((-m) * den == -(m * den) && (-z) * den == -(z * den)) by (nonlinear_arith);
    assert(0 * den == 0);
    lemma_no_pattern_closer(n, 0, num, den);
    lemma_no_pattern_closer(n, c.pattern() as int, num, den);
    lemma_magnitude_step(c.pattern() as int);
    assert(z * den >= 0) by (nonlinear_arith)
        requires
            z >= 0,
            den > 0,
    ;
    if z > 0 {
        assert(z * den > 0) by (nonlinear_arith)
            requires
                z > 0,
                den > 0,
        ;
    }
}

/// The encoding is that of IEEE 754: a sign bit, 11 bits of exponent and 52 of
/// fraction.
pub proof fn law_encoding(a: Binary64)
    ensures
        ({
            let exponent: int = a.bits as int / 0x10_0000_0000_0000 % 2048;
            let fraction: int = a.bits as int % 0x10_0000_0000_0000;
            &&& a.is_negative() <==> a.bits >= 0x8000_0000_0000_0000
            &&& a.pattern() == a.bits as int % 0x8000_0000_0000_0000
            &&& a.is_nan() <==> exponent == 2047 && fraction != 0
            &&& a.is_infinite() <==> exponent == 2047 && fraction == 0
            &&& a.is_finite() <==> exponent != 2047
            &&& abs(a.value()) == if exponent == 0 {
                fraction
            } else {
                (0x10_0000_0000_0000 + fraction) * pow2((exponent - 1) as nat)
            }
            &&& a.value() < 0 ==> a.is_negative()
            &&& a.value() > 0 ==> !a.is_negative()
            &&& a.value() == 0 <==> exponent == 0 && fraction == 0
        }),
{
    let b: int = a.bits as int;
    let n: int = a.pattern() as int;
    assert(magnitude(0) == 0);
    if n > 0 {
        lemma_magnitude_monotone(0, n);
    }
    assert(b % 0x10_0000_0000_0000 == n % 0x10_0000_0000_0000);
    assert(b / 0x10_0000_0000_0000 % 2048 == n / 0x10_0000_0000_0000);
}

/// Two numbers that are not NaNs compare as their exact values do, and a NaN
/// compares with nothing. Ranks put the numbers in the same order and the NaNs
/// behind them.
pub proof fn law_comparing_is_numeric(a: Binary64, b: Binary64)
    ensures
        a.lt(b) <==> !a.is_nan() && !b.is_nan() && a.value() < b.value(),
        a.le(b) <==> !a.is_nan() && !b.is_nan() && a.value() <= b.value(),
        !a.is_nan() && !b.is_nan() ==> (a.rank() <= b.rank() <==> a.value() <= b.value()),
        !a.is_nan() && b.is_nan() ==> a.rank() < b.rank(),
        a.is_nan() && b.is_nan() ==> a.rank() == b.rank(),
{
    if !a.is_nan() && !b.is_nan() {
        lemma_rank_orders_values(a, b);
    }
}

/// The greater of two numbers is one of them and no less than either; a NaN
/// yields to a number. Of equal ones it is negative only where both are.
pub proof fn law_max_is_the_greater(a: Binary64, b: Binary64)
    ensures
        !a.is_nan() || !b.is_nan() ==> !a.max(b).is_nan() && (a.max(b) == a || a.max(b) == b),
        !a.is_nan() ==> a.value() <= a.max(b).value(),
        !b.is_nan() ==> b.value() <= a.max(b).value(),
        !a.is_nan() && !b.is_nan() && a.value() == b.value() ==> (a.max(b).is_negative()
            <==> a.is_negative() && b.is_negative()),
        a.is_nan() && b.is_nan() ==> a.max(b).is_nan(),
{
    assert(magnitude(0) == 0);
    if !a.is_nan() && !b.is_nan() {
        lemma_value_range(a);
        lemma_value_range(b);
    }
}

/// Negation flips the sign bit and nothing else.
pub proof fn law_negation_flips_the_sign(a: Binary64)
    ensures
        a.neg().pattern() == a.pattern(),
        a.neg().is_negative() <==> !a.is_negative(),
        a.neg().value() == -a.value(),
        a.neg().neg() == a,
{
}

/// A sum is rounded correctly: no number `c` comes closer to the exact sum. An
/// exact zero is negative only where both sides are. Infinities absorb what is
/// finite, and only opposite ones give a NaN.
pub proof fn law_sum_is_nearest(a: Binary64, b: Binary64, c: Binary64)
    requires
        !c.is_nan(),
    ensures
        a.plus(b).is_nan() <==> a.is_nan() || b.is_nan() || (a.is_infinite() && b.is_infinite()
            && a.is_negative() != b.is_negative()),
        a.is_infinite() && !a.plus(b).is_nan() ==> a.plus(b) == a,
        b.is_infinite() && !a.plus(b).is_nan() ==> a.plus(b) == b,
        a.is_finite() && b.is_finite() ==> {
            let sum = a.value() + b.value();
            &&& no_closer(c, a.plus(b), sum, 1)
            &&& sum < 0 ==> a.plus(b).is_negative()
            &&& sum > 0 ==> !a.plus(b).is_negative()
            &&& sum == 0 ==> a.plus(b).value() == 0 && (a.plus(b).is_negative() <==> a.is_negative()
                && b.is_negative())
        },
{
    let sum = a.value() + b.value();
    assert(magnitude(0) == 0);
    lemma_value_range(c);
    if a.is_finite() && b.is_finite() {
        lemma_no_number_closer(sum < 0, abs(sum), 1, c);
    }
}

/// A difference is rounded correctly: no number `c` comes closer to the exact
/// one. Otherwise subtracting is adding the negation.
pub proof fn law_difference_is_nearest(a: Binary64, b: Binary64, c: Binary64)
    requires
        !c.is_nan(),
    ensures
        a.minus(b) == a.plus(b.neg()),
        a.is_finite() && b.is_finite() ==> !a.minus(b).is_nan() && no_closer(
            c,
            a.minus(b),
            a.value() - b.value(),
            1,
        ),
{
    law_negation_flips_the_sign(b);
    law_sum_is_nearest(a, b.neg(), c);
}

/// A product is rounded correctly: no number `c` comes closer to the exact one.
/// Its sign is that of the exact product, also where it is zero or infinite;
/// only zero times an infinity gives a NaN.
pub proof fn law_product_is_nearest(a: Binary64, b: Binary64, c: Binary64)
    requires
        !c.is_nan(),
    ensures
        a.times(b).is_nan() <==> a.is_nan() || b.is_nan() || (a.is_infinite() && b.value() == 0)
            || (a.value() == 0 && b.is_infinite()),
        !a.times(b).is_nan() ==> (a.times(b).is_negative() <==> a.is_negative()
            != b.is_negative()),
        !a.times(b).is_nan() && (a.is_infinite() || b.is_infinite()) ==> a.times(b).is_infinite(),
        a.is_finite() && b.is_finite() ==> no_closer(
            c,
            a.times(b),
            a.value() * b.value(),
            one_in_units(),
        ),
{
    let x = abs(a.value());
    let y = abs(b.value());
    let negative = a.is_negative() != b.is_negative();
    lemma_pow2_pos(1074);
    assert(magnitude(0) == 0);
    if !a.is_nan() {
        lemma_value_range(a);
    }
    if !b.is_nan() {
        lemma_value_range(b);
    }
    if a.is_finite() && b.is_finite() {
        lemma_magnitude_step(a.pattern() as int);
        lemma_magnitude_step(b.pattern() as int);
        assert(x * y >= 0) by (nonlinear_arith)
            requires
                x >= 0,
                y >= 0,
        ;
        assert((-x) * y == -(x * y) && x * (-y) == -(x * y) && (-x) * (-y) == x * y)
            by (nonlinear_arith);
        lemma_no_number_closer(negative, x * y, one_in_units(), c);
    }
}

/// A quotient is rounded correctly: no number `c` comes closer to the exact one.
/// Its sign is that of the exact quotient, also where it is zero or infinite. A
/// number divided by zero is infinite; only zero by zero and infinity by
/// infinity give a NaN.
pub proof fn law_quotient_is_nearest(a: Binary64, b: Binary64, c: Binary64)
    requires
        !c.is_nan(),
    ensures
        a.over(b).is_nan() <==> a.is_nan() || b.is_nan() || (a.is_infinite() && b.is_infinite())
            || (a.value() == 0 && b.value() == 0),
        !a.over(b).is_nan() ==> (a.over(b).is_negative() <==> a.is_negative()
            != b.is_negative()),
        !a.over(b).is_nan() && (a.is_infinite() || b.value() == 0) ==> a.over(b).is_infinite(),
        !a.over(b).is_nan() && b.is_infinite() ==> a.over(b).value() == 0,
        a.is_finite() && b.is_finite() && b.value() != 0 ==> no_closer(
            c,
            a.over(b),
            a.value() * one_in_units(),
            b.value(),
        ),
{
    let u = one_in_units();
    let x = abs(a.value());
    let y = abs(b.value());
    let negative = a.is_negative() != b.is_negative();
    lemma_pow2_pos(1074);
    assert(magnitude(0) == 0);
    if !a.is_nan() {
        lemma_value_range(a);
    }
    if !b.is_nan() {
        lemma_value_range(b);
    }
    if a.is_finite() && b.is_finite() && b.value() != 0 {
        let r = a.over(b);
        lemma_magnitude_step(a.pattern() as int);
        lemma_magnitude_step(b.pattern() as int);
        assert(x * u >= 0) by (nonlinear_arith)
            requires
                x >= 0,
                u > 0,
        ;
        assert((-x) * u == -(x * u)) by (nonlinear_arith);
        lemma_no_number_closer(negative, x * u, y, c);
        assert(r.value() * (-y) == -(r.value() * y) && c.value() * (-y) == -(c.value() * y))
            by (nonlinear_arith);
    }
}

/// A whole number is rounded correctly, and below 2^53 it is held exactly.
pub proof fn law_whole_number_is_nearest(k: u64, c: Binary64)
    requires
        !c.is_nan(),
    ensures
        Binary64::from_integer(k).is_finite(),
        !Binary64::from_integer(k).is_negative(),
        no_closer(c, Binary64::from_integer(k), k * one_in_units(), 1),
        k < 0x20_0000_0000_0000 ==> Binary64::from_integer(k).value() == k * one_in_units(),
{
    let u = one_in_units();
    lemma_pow2_pos(1074);
    assert(k * u >= 0) by (nonlinear_arith)
        requires
            u > 0,
    ;
    lemma_no_number_closer(false, k * u, 1, c);
    if k > 0 {
        lemma_integer_positive(k);
    }
    if k < 0x20_0000_0000_0000 {
        lemma_integer_exact(k);
    }
}

/// An index is the whole part of a number: the number lies at or above it and
/// below the next, unless there is no next. Below 0, and for a NaN, it is 0.
pub proof fn law_index_is_the_whole_part(a: Binary64)
    ensures
        a.is_nan() || a.value() <= 0 ==> a.to_index() == 0,
        !a.is_nan() && a.value() > 0 ==> {
            &&& a.to_index() * one_in_units() <= a.value()
            &&& a.value() < (a.to_index() + 1) * one_in_units() || a.to_index() == usize::MAX
        },
{
    let u = one_in_units();
    lemma_pow2_pos(1074);
    if !a.is_nan() {
        lemma_value_range(a);
        let v = a.value();
        let w = v / u;
        assert(w * u <= v < (w + 1) * u) by (nonlinear_arith)
            requires
                w == v / u,
                u > 0,
        ;
        if v >= 0 {
            assert(w >= 0) by (nonlinear_arith)
                requires
                    v < (w + 1) * u,
                    v >= 0,
                    u > 0,
            ;
            if v == 0 {
                assert(w == 0) by (nonlinear_arith)
                    requires
                        w * u <= 0,
                        w >= 0,
                        u > 0,
                ;
            }
            if w > usize::MAX {
                assert(usize::MAX * u <= w * u) by (nonlinear_arith)
                    requires
                        usize::MAX < w,
                        u > 0,
                ;
            }
        }
    }
}

} // verus!
