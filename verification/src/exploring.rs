//! How exploring draws spread over the entries.
use vstd::arithmetic::power2::{
    lemma2_to64, lemma_pow2_adds, lemma_pow2_pos, lemma_pow2_strictly_increases, pow2,
};
use vstd::prelude::*;

use crate::arithmetic::{
    abs, lemma_integer_exact, lemma_integer_positive, lemma_nearest_close, lemma_over_monotone,
    lemma_times_commutes, lemma_times_monotone, lemma_to_index_monotone, one_in_units,
};
use crate::binary64::{lemma_magnitude_monotone, lemma_magnitude_step, magnitude, Binary64, BINADE};
use crate::metadata::MetadataView;
use crate::numbers::{
    law_index_is_the_whole_part, law_quotient_is_nearest, law_whole_number_is_nearest, no_closer,
};
use crate::rounding::{
    is_nearest, lemma_magnitude_at, lemma_nearest, lemma_nearest_exact, lemma_nearest_monotone,
    nearest,
};
use crate::scheduler::{draw_value, DRAW_BOUND};
use crate::tuning::Tuning;

verus! {

/// Neighbours up to 1 lie no further apart than 2^-52.
proof fn lemma_gap_below_one(n: int)
    requires
        0 <= n <= 1023 * BINADE,
    ensures
        magnitude(n + 1) - magnitude(n) <= pow2(1022),
{
    let b: int = BINADE as int;
    lemma2_to64();
    lemma_pow2_strictly_increases(0, 1022);
    if n < b {
        if n + 1 == b {
            assert((n + 1) / b == 1 && (n + 1) % b == 0);
            assert(b * pow2(0) == b);
        }
    } else {
        let k: int = n / b - 1;
        let m: int = b + n % b;
        assert(n == k * b + m) by (nonlinear_arith)
            requires
                k == n / b - 1,
                m == b + n % b,
                b > 0,
        ;
        assert(0 <= k <= 1022) by (nonlinear_arith)
            requires
                k == n / b - 1,
                b <= n <= 1023 * b,
                b > 0,
        ;
        lemma_magnitude_at(k, m);
        assert((m + 1) * pow2(k as nat) - m * pow2(k as nat) == pow2(k as nat))
            by (nonlinear_arith);
        if k < 1022 {
            lemma_pow2_strictly_increases(k as nat, 1022);
        }
    }
}

/// The exact fraction that a draw stands for, before rounding.
proof fn lemma_draw_fraction(draw: u64)
    requires
        draw <= DRAW_BOUND,
    ensures
        ({
            let u = one_in_units();
            let n = nearest(draw * u * u, DRAW_BOUND * u);
            &&& u > 0
            &&& draw * u * u >= 0
            &&& draw_value(draw) == Binary64::signed(false, n)
            &&& is_nearest(n, draw * u * u, DRAW_BOUND * u)
            &&& 0 <= n <= 1023 * BINADE
        }),
{
    let u = one_in_units();
    lemma_pow2_pos(1074);
    lemma_integer_exact(draw);
    lemma_integer_exact(DRAW_BOUND);
    let num = draw * u * u;
    let den = DRAW_BOUND * u;
    assert(den > 0 && num >= 0) by (nonlinear_arith)
        requires
            u > 0,
            num == draw * u * u,
            den == DRAW_BOUND * u,
            draw >= 0,
            DRAW_BOUND > 0,
    ;
    lemma_nearest(num, den);
    // 1 is held exactly, and no draw stands for more.
    let one: int = 1023 * BINADE;
    lemma2_to64();
    lemma_magnitude_at(1022, BINADE as int);
    lemma_pow2_adds(52, 1022);
    lemma_pow2_adds(20, 32);
    assert(magnitude(one) == u);
    lemma_nearest_exact(one, u * den, den);
    assert(num * den <= (u * den) * den) by (nonlinear_arith)
        requires
            num == draw * u * u,
            den == DRAW_BOUND * u,
            draw <= DRAW_BOUND,
            u > 0,
            den > 0,
    ;
    assert(u * den >= 0) by (nonlinear_arith)
        requires
            u > 0,
            den > 0,
    ;
    lemma_nearest_monotone(num, den, u * den, den);
    assert(Binary64::from_integer(DRAW_BOUND).pattern() != 0) by {
        assert(magnitude(0) == 0);
    }
}

/// Draws stand for different numbers, in their order.
proof fn lemma_draws_are_ordered(low: u64, high: u64)
    requires
        low < high <= DRAW_BOUND,
    ensures
        draw_value(low).lt(draw_value(high)),
{
    let u = one_in_units();
    let den = DRAW_BOUND * u;
    let a = low * u * u;
    let b = high * u * u;
    lemma_draw_fraction(low);
    lemma_draw_fraction(high);
    let n = nearest(a, den);
    let m = nearest(b, den);
    lemma2_to64();
    lemma_pow2_adds(52, 1022);
    lemma_pow2_adds(20, 32);
    lemma_pow2_pos(1022);
    let w = pow2(1022) as int;
    assert(u == BINADE * w);
    assert(den > 0 && a * den <= b * den && b - a >= u * u && a >= 0) by (nonlinear_arith)
        requires
            u > 0,
            den == DRAW_BOUND * u,
            DRAW_BOUND > 0,
            a == low * u * u,
            b == high * u * u,
            0 <= low,
            low + 1 <= high,
    ;
    lemma_nearest_monotone(a, den, b, den);
    if n == m {
        let mid_high = magnitude(n) + magnitude(n + 1);
        lemma_gap_below_one(n);
        if n == 0 {
            assert(magnitude(0) == 0 && magnitude(1) == 1);
            assert(2 * b <= mid_high * den);
            assert(2 * b <= den) by (nonlinear_arith)
                requires
                    2 * b <= mid_high * den,
                    mid_high == 1,
            ;
            assert(b >= u * u);
            assert(false) by (nonlinear_arith)
                requires
                    2 * b <= den,
                    b >= u * u,
                    den == DRAW_BOUND * u,
                    u == BINADE * w,
                    w > 0,
                    DRAW_BOUND == 10000,
                    BINADE == 0x10_0000_0000_0000,
            ;
        } else {
            let mid_low = magnitude(n - 1) + magnitude(n);
            lemma_gap_below_one(n - 1);
            assert(mid_high - mid_low <= 2 * w);
            assert(2 * (b - a) <= (mid_high - mid_low) * den) by (nonlinear_arith)
                requires
                    2 * b <= mid_high * den,
                    mid_low * den <= 2 * a,
            ;
            assert((mid_high - mid_low) * den <= 2 * w * den) by (nonlinear_arith)
                requires
                    mid_high - mid_low <= 2 * w,
                    den > 0,
            ;
            assert(false) by (nonlinear_arith)
                requires
                    2 * (u * u) <= 2 * w * den,
                    den == DRAW_BOUND * u,
                    u == BINADE * w,
                    w > 0,
                    DRAW_BOUND == 10000,
                    BINADE == 0x10_0000_0000_0000,
            ;
        }
    }
    lemma_magnitude_monotone(n, m);
}

/// Epsilon is the probability of exploring: where it is `share` out of
/// [`DRAW_BOUND`], exactly the draws below `share` explore.
pub proof fn law_epsilon_is_probability_of_exploring(tuning: Tuning, share: u64, draw: u64)
    requires
        share <= DRAW_BOUND,
        draw < DRAW_BOUND,
        tuning.epsilon == draw_value(share),
    ensures
        draw_value(draw).lt(tuning.epsilon) <==> draw < share,
{
    if draw < share {
        lemma_draws_are_ordered(draw, share);
    } else if share < draw {
        lemma_draws_are_ordered(share, draw);
    }
}

/// Exploring spreads in order: the place that a draw stands for lies within
/// the list, does not fall as the draw grows, and is the first for draws of 0
/// or less.
pub proof fn law_exploring_spreads_in_order(
    tuning: Tuning,
    len: nat,
    low: Binary64,
    high: Binary64,
)
    requires
        0 < len <= u64::MAX,
        Binary64::zero().lt(tuning.epsilon),
        low.le(high),
        high.lt(tuning.epsilon),
    ensures
        0 <= MetadataView::explore_position(tuning, len, low)
            <= MetadataView::explore_position(tuning, len, high) < len,
        low.le(Binary64::zero()) ==> MetadataView::explore_position(tuning, len, low) == 0,
{
    let e = tuning.epsilon;
    let k = Binary64::from_integer(len as u64);
    let q = low.over(e);
    let r = high.over(e);
    assert(magnitude(0) == 0);
    lemma_integer_positive(len as u64);
    lemma_magnitude_step(low.pattern() as int);
    if low.pattern() > 0 {
        lemma_magnitude_monotone(0, low.pattern() as int);
    }
    if low.value() < 0 {
        lemma_negative_goes_first(low, e, k);
    } else {
        lemma_over_monotone(low, high, e);
        lemma_product_is_number(q, k);
        lemma_product_is_number(r, k);
        lemma_times_commutes(q, k);
        lemma_times_commutes(r, k);
        lemma_times_monotone(k, q, r);
        lemma_to_index_monotone(q.times(k), r.times(k));
        if low.value() == 0 {
            lemma_over_monotone(low, low, e);
            lemma_zero_goes_first(low, e, k);
        }
    }
}

/// A product with a positive whole number is a number.
proof fn lemma_product_is_number(q: Binary64, k: Binary64)
    requires
        !q.is_nan(),
        k.is_finite(),
        !k.is_negative(),
        k.pattern() > 0,
    ensures
        !q.times(k).is_nan(),
{
    lemma_pow2_pos(1074);
    let num = abs(q.value()) * abs(k.value());
    if q.is_finite() {
        assert(num >= 0) by (nonlinear_arith)
            requires
                num == abs(q.value()) * abs(k.value()),
                abs(q.value()) >= 0,
                abs(k.value()) >= 0,
        ;
        lemma_nearest(num, one_in_units());
    }
}

/// A negative draw stands for the first place.
proof fn lemma_negative_goes_first(low: Binary64, e: Binary64, k: Binary64)
    requires
        !low.is_nan(),
        low.value() < 0,
        Binary64::zero().lt(e),
        k.is_finite(),
        !k.is_negative(),
        k.pattern() > 0,
    ensures
        low.over(e).times(k).to_index() == 0,
{
    let q = low.over(e);
    let u = one_in_units();
    lemma_pow2_pos(1074);
    assert(magnitude(0) == 0);
    lemma_magnitude_step(low.pattern() as int);
    lemma_magnitude_step(e.pattern() as int);
    assert(low.is_negative() && !e.is_negative());
    if low.is_finite() && e.is_finite() {
        let num = abs(low.value()) * u;
        assert(num >= 0) by (nonlinear_arith)
            requires
                num == abs(low.value()) * u,
                abs(low.value()) >= 0,
                u > 0,
        ;
        lemma_nearest(num, abs(e.value()));
    }
    assert(q.is_nan() || q.is_negative());
    if !q.is_nan() && q.is_finite() {
        let num = abs(q.value()) * abs(k.value());
        assert(num >= 0) by (nonlinear_arith)
            requires
                num == abs(q.value()) * abs(k.value()),
                abs(q.value()) >= 0,
                abs(k.value()) >= 0,
        ;
        lemma_nearest(num, u);
    }
}

/// The draw 0 stands for the first place.
proof fn lemma_zero_goes_first(zero: Binary64, e: Binary64, k: Binary64)
    requires
        zero.pattern() == 0,
        Binary64::zero().lt(e),
        k.is_finite(),
    ensures
        zero.over(e).times(k).to_index() == 0,
{
    let q = zero.over(e);
    let u = one_in_units();
    lemma_pow2_pos(1074);
    assert(magnitude(0) == 0);
    if e.is_finite() {
        assert(0 * u == 0 && 0 * abs(e.value()) == 0);
        lemma_magnitude_step(e.pattern() as int);
        lemma_nearest_exact(0, 0, abs(e.value()));
    }
    assert(q.pattern() == 0);
    assert(abs(q.value()) * abs(k.value()) == 0) by (nonlinear_arith)
        requires
            abs(q.value()) == 0,
    ;
    assert(0 * u == 0);
    lemma_nearest_exact(0, 0, u);
    assert(0int / u == 0) by (nonlinear_arith)
        requires
            u > 0,
    ;
}

/// Bounds on the exact value of what a draw of at least 1 stands for.
proof fn lemma_draw_is_close(draw: u64)
    requires
        1 <= draw <= DRAW_BOUND,
    ensures
        ({
            let u = one_in_units();
            let r = draw_value(draw).value();
            let d: int = 2 * BINADE;
            &&& draw_value(draw).is_finite()
            &&& !draw_value(draw).is_negative()
            &&& draw_value(draw).pattern() > 0
            &&& 0 < r <= u
            &&& u <= 20000 * r
            &&& 10000 * r * (d - 1) <= draw * u * d
            &&& draw * u * d <= 10000 * r * (d + 1)
        }),
{
    let u = one_in_units();
    let b: int = BINADE as int;
    let num = draw * u * u;
    let den = DRAW_BOUND * u;
    lemma_draw_fraction(draw);
    lemma_large_unit();
    let n = nearest(num, den);
    assert(b * den <= num && num <= b * u * den && den > 0) by (nonlinear_arith)
        requires
            num == draw * u * u,
            den == DRAW_BOUND * u,
            1 <= draw <= DRAW_BOUND,
            DRAW_BOUND == 10000,
            u >= 10000 * b,
            b >= 1,
    ;
    lemma_nearest_close(num, den);
    lemma2_to64();
    lemma_pow2_adds(52, 1022);
    lemma_pow2_adds(20, 32);
    lemma_magnitude_at(1022, b);
    assert(magnitude(1023 * b) == u);
    if n < 1023 * b {
        lemma_magnitude_monotone(n, 1023 * b);
    }
    assert(magnitude(0) == 0);
    lemma_magnitude_monotone(0, n);
    let r = draw_value(draw).value();
    let d: int = 2 * b;
    assert(r == magnitude(n));
    assert(10000 * r * (d - 1) <= draw * u * d) by (nonlinear_arith)
        requires
            r * den * (d - 1) <= num * d,
            num == draw * u * u,
            den == 10000 * u,
            u > 0,
    ;
    assert(draw * u * d <= 10000 * r * (d + 1)) by (nonlinear_arith)
        requires
            num * d <= r * den * (d + 1),
            num == draw * u * u,
            den == 10000 * u,
            u > 0,
    ;
    assert(u <= 20000 * r) by (nonlinear_arith)
        requires
            draw * u * d <= 10000 * r * (d + 1),
            draw >= 1,
            d >= 1,
            u > 0,
            r > 0,
    ;
}

/// 1 is many units.
proof fn lemma_large_unit()
    ensures
        one_in_units() >= 1000000 * BINADE,
{
    lemma2_to64();
    lemma_pow2_adds(52, 1022);
    lemma_pow2_adds(20, 32);
    lemma_pow2_strictly_increases(20, 1022);
    let w = pow2(1022) as int;
    assert(BINADE * w >= 1000000 * BINADE) by (nonlinear_arith)
        requires
            w >= 1000000,
            BINADE >= 0,
    ;
}

/// Each of four roundings errs by one part in 2^53, so the product of `d / s`
/// and `len` stays on its side of the whole numbers around it.
proof fn lemma_roundings_compose(
    u: int,
    draw: int,
    share: int,
    len: int,
    r: int,
    e: int,
    q: int,
    t: int,
    p: int,
)
    requires
        u > 0,
        0 < r,
        0 < e,
        0 < q,
        0 < t,
        0 < len,
        0 < draw,
        0 < share <= 10000,
        0 <= p < 10000,
        p * share + 1 <= draw * len <= (p + 1) * share - 1,
        10000 * r * 0x1F_FFFF_FFFF_FFFF <= draw * u * 0x20_0000_0000_0000 <= 10000 * r
            * 0x20_0000_0000_0001,
        10000 * e * 0x1F_FFFF_FFFF_FFFF <= share * u * 0x20_0000_0000_0000 <= 10000 * e
            * 0x20_0000_0000_0001,
        q * e * 0x1F_FFFF_FFFF_FFFF <= r * u * 0x20_0000_0000_0000 <= q * e
            * 0x20_0000_0000_0001,
        t * 0x1F_FFFF_FFFF_FFFF <= q * len * 0x20_0000_0000_0000 <= t * 0x20_0000_0000_0001,
    ensures
        p * u <= t < (p + 1) * u,
{
    let d: int = 0x20_0000_0000_0000;
    let lo: int = d - 1;
    let hi: int = d + 1;
    // t * share against draw * len * u, once from either side.
    assert(t * share * (hi * hi * hi) >= draw * len * u * (lo * d * d)) by {
        assert(t * e * (hi * hi) >= r * u * len * (d * d)) by (nonlinear_arith)
            requires
                t * hi >= q * len * d,
                q * e * hi >= r * u * d,
                e > 0,
                len > 0,
                hi > 0,
                d > 0,
        ;
        assert(t * e * 10000 * (hi * hi * hi) >= draw * u * u * len * (d * d * d))
            by (nonlinear_arith)
            requires
                t * e * (hi * hi) >= r * u * len * (d * d),
                10000 * r * hi >= draw * u * d,
                u > 0,
                len > 0,
                hi > 0,
                d > 0,
        ;
        assert(t * share * u * (hi * hi * hi * d) >= t * e * 10000 * (hi * hi * hi * lo))
            by (nonlinear_arith)
            requires
                share * u * d >= 10000 * e * lo,
                t > 0,
                hi > 0,
        ;
        let c = t * e * 10000;
        let v = draw * u * u * len * (d * d * d);
        assert(c * (hi * hi * hi * lo) == c * (hi * hi * hi) * lo) by (nonlinear_arith);
        assert(c * (hi * hi * hi) * lo >= v * lo) by (nonlinear_arith)
            requires
                c * (hi * hi * hi) >= v,
                lo > 0,
        ;
        assert(t * share * u * (hi * hi * hi * d) == t * share * (hi * hi * hi) * (u * d))
            by (nonlinear_arith);
        let w = draw * len * u;
        let cube = d * d * d;
        assert(draw * u * u * len == w * u) by (nonlinear_arith)
            requires
                w == draw * len * u,
        ;
        assert(w * u * cube * lo == w * (lo * d * d) * (u * d)) by (nonlinear_arith)
            requires
                cube == d * d * d,
        ;
        assert(u * d > 0);
        let x = t * share * (hi * hi * hi);
        let y = draw * len * u * (lo * d * d);
        let z = u * d;
        assert(x >= y) by (nonlinear_arith)
            requires
                x * z >= y * z,
                z > 0,
        ;
    }
    assert(t * share * (lo * lo * lo) <= draw * len * u * (hi * d * d)) by {
        assert(t * e * (lo * lo) <= r * u * len * (d * d)) by (nonlinear_arith)
            requires
                t * lo <= q * len * d,
                q * e * lo <= r * u * d,
                e > 0,
                len > 0,
                lo > 0,
                d > 0,
        ;
        assert(t * e * 10000 * (lo * lo * lo) <= draw * u * u * len * (d * d * d))
            by (nonlinear_arith)
            requires
                t * e * (lo * lo) <= r * u * len * (d * d),
                10000 * r * lo <= draw * u * d,
                u > 0,
                len > 0,
                lo > 0,
                d > 0,
        ;
        assert(t * share * u * (lo * lo * lo * d) <= t * e * 10000 * (lo * lo * lo * hi))
            by (nonlinear_arith)
            requires
                share * u * d <= 10000 * e * hi,
                t > 0,
                lo > 0,
        ;
        let c = t * e * 10000;
        let v = draw * u * u * len * (d * d * d);
        assert(c * (lo * lo * lo * hi) == c * (lo * lo * lo) * hi) by (nonlinear_arith);
        assert(c * (lo * lo * lo) * hi <= v * hi) by (nonlinear_arith)
            requires
                c * (lo * lo * lo) <= v,
                hi > 0,
        ;
        assert(t * share * u * (lo * lo * lo * d) == t * share * (lo * lo * lo) * (u * d))
            by (nonlinear_arith);
        let w = draw * len * u;
        let cube = d * d * d;
        assert(draw * u * u * len == w * u) by (nonlinear_arith)
            requires
                w == draw * len * u,
        ;
        assert(w * u * cube * hi == w * (hi * d * d) * (u * d)) by (nonlinear_arith)
            requires
                cube == d * d * d,
        ;
        assert(u * d > 0);
        let x = t * share * (lo * lo * lo);
        let y = draw * len * u * (hi * d * d);
        let z = u * d;
        assert(x <= y) by (nonlinear_arith)
            requires
                x * z <= y * z,
                z > 0,
        ;
    }
    let whole = p * share;
    assert(0 <= whole <= 100000000 - 10000 && (p + 1) * share == whole + share)
        by (nonlinear_arith)
        requires
            whole == p * share,
            0 <= p < 10000,
            0 < share <= 10000,
    ;
    let g = hi * hi * hi;
    let h = lo * d * d;
    let g2 = lo * lo * lo;
    let h2 = hi * d * d;
    assert(whole * g < (whole + 1) * h) by (nonlinear_arith)
        requires
            0 <= whole <= 100000000,
            g == 0x20_0000_0000_0001int * 0x20_0000_0000_0001int * 0x20_0000_0000_0001int,
            h == 0x1F_FFFF_FFFF_FFFFint * 0x20_0000_0000_0000int * 0x20_0000_0000_0000int,
    ;
    let next = whole + share;
    assert((next - 1) * h2 < next * g2) by (nonlinear_arith)
        requires
            0 < next <= 100000000,
            g2 == 0x1F_FFFF_FFFF_FFFFint * 0x1F_FFFF_FFFF_FFFFint * 0x1F_FFFF_FFFF_FFFFint,
            h2 == 0x20_0000_0000_0001int * 0x20_0000_0000_0000int * 0x20_0000_0000_0000int,
    ;
    assert(t >= p * u) by (nonlinear_arith)
        requires
            t * share * g >= draw * len * u * h,
            draw * len >= whole + 1,
            whole * g < (whole + 1) * h,
            whole == p * share,
            share > 0,
            u > 0,
            h > 0,
            g > 0,
    ;
    assert(t < (p + 1) * u) by (nonlinear_arith)
        requires
            t * share * g2 <= draw * len * u * h2,
            draw * len <= next - 1,
            (next - 1) * h2 < next * g2,
            next == (p + 1) * share,
            share > 0,
            u > 0,
            h2 > 0,
            g2 > 0,
    ;
}

/// Every entry can be explored: where epsilon is `share` out of
/// [`DRAW_BOUND`] and there are fewer than `share` entries, each place is the
/// one that some exploring draw stands for.
pub proof fn law_every_entry_can_be_explored(tuning: Tuning, share: u64, len: nat, place: int)
    requires
        share <= DRAW_BOUND,
        tuning.epsilon == draw_value(share),
        0 <= place < len < share,
    ensures
        exists|draw: u64|
            draw < share && #[trigger] MetadataView::explore_position(tuning, len, draw_value(draw))
                == place,
{
    let draw: u64 = (place * share / (len as int) + 1) as u64;
    let z: int = place * share / (len as int);
    assert(0 <= z && z * len <= place * share < (z + 1) * len && z + 1 < share)
        by (nonlinear_arith)
        requires
            z == place * share / (len as int),
            0 <= place < len < share,
    ;
    assert(draw == z + 1);
    assert(place * share + 1 <= draw * len <= (place + 1) * share - 1) by (nonlinear_arith)
        requires
            draw == z + 1,
            z * len <= place * share < (z + 1) * len,
            len < share,
    ;
    lemma_explored_place(tuning, share, len, place, draw);
}

/// The place that `draw` stands for, where it lies strictly between whole
/// numbers.
proof fn lemma_explored_place(tuning: Tuning, share: u64, len: nat, place: int, draw: u64)
    requires
        share <= DRAW_BOUND,
        tuning.epsilon == draw_value(share),
        0 <= place < len < share,
        1 <= draw < share,
        place * share + 1 <= draw * len <= (place + 1) * share - 1,
    ensures
        MetadataView::explore_position(tuning, len, draw_value(draw)) == place,
{
    let u = one_in_units();
    let b: int = BINADE as int;
    let k = Binary64::from_integer(len as u64);
    let r = draw_value(draw).value();
    let e = draw_value(share).value();
    let d: int = 2 * b;
    lemma_large_unit();
    lemma_draw_is_close(draw);
    lemma_draw_is_close(share);
    lemma_draws_are_ordered(draw, share);
    lemma_integer_exact(len as u64);
    // The quotient.
    let ratio = draw_value(draw).over(tuning.epsilon);
    assert(b * e <= r * u && r * u <= b * u * e) by (nonlinear_arith)
        requires
            0 < e <= u,
            0 < r <= u,
            u <= 20000 * r,
            u <= 20000 * e,
            u >= 1000000 * b,
            b == 0x10_0000_0000_0000,
    ;
    lemma_nearest_close(r * u, e);
    let n = nearest(r * u, e);
    let q = magnitude(n);
    assert(ratio == Binary64::signed(false, n));
    assert(magnitude(0) == 0);
    lemma_magnitude_monotone(0, n);
    assert(q <= 2 * u) by (nonlinear_arith)
        requires
            q * e * (d - 1) <= r * u * d,
            r <= e,
            e > 0,
            u > 0,
            d >= 2,
    ;
    assert(u <= 40000 * q) by (nonlinear_arith)
        requires
            r * u * d <= q * e * (d + 1),
            u <= 20000 * r,
            0 < e <= u,
            q > 0,
            d >= 1,
    ;
    // The product.
    let product = ratio.times(k);
    let num = q * (len * u);
    assert(b * u <= num && num <= b * u * u) by (nonlinear_arith)
        requires
            num == q * (len * u),
            u <= 40000 * q,
            q <= 2 * u,
            1 <= len <= 10000,
            u >= 1000000 * b,
            b == 0x10_0000_0000_0000,
    ;
    lemma_nearest_close(num, u);
    let m = nearest(num, u);
    let t = magnitude(m);
    assert(abs(ratio.value()) == q && abs(k.value()) == len * u) by {
        assert(len * u >= 0) by (nonlinear_arith)
            requires
                u > 0,
        ;
    }
    assert(product == Binary64::signed(false, m));
    lemma_magnitude_monotone(0, m);
    assert(t * (d - 1) <= q * len * d) by (nonlinear_arith)
        requires
            t * u * (d - 1) <= num * d,
            num == q * (len * u),
            u > 0,
    ;
    assert(q * len * d <= t * (d + 1)) by (nonlinear_arith)
        requires
            num * d <= t * u * (d + 1),
            num == q * (len * u),
            u > 0,
    ;
    lemma_roundings_compose(
        u,
        draw as int,
        share as int,
        len as int,
        r,
        e,
        q,
        t,
        place,
    );
    assert(t / u == place) by (nonlinear_arith)
        requires
            place * u <= t < (place + 1) * u,
            u > 0,
    ;
    assert(product.to_index() == place);
}

/// A draw stands for its share of [`DRAW_BOUND`]: no number `c` comes closer to
/// `draw / 10000`.
pub proof fn law_draw_is_a_ten_thousandth(draw: u64, c: Binary64)
    requires
        draw < 0x20_0000_0000_0000,
        !c.is_nan(),
    ensures
        !draw_value(draw).is_nan(),
        !draw_value(draw).is_negative(),
        no_closer(c, draw_value(draw), draw * one_in_units(), 10000),
{
    let u = one_in_units();
    let a = Binary64::from_integer(draw);
    let b = Binary64::from_integer(10000);
    let r = draw_value(draw);
    lemma_pow2_pos(1074);
    law_whole_number_is_nearest(draw, c);
    law_whole_number_is_nearest(10000, c);
    assert(10000 * u != 0);
    law_quotient_is_nearest(a, b, c);
    let x = r.value() * 10000 - draw * u;
    let y = c.value() * 10000 - draw * u;
    assert(r.value() * (10000 * u) - draw * u * u == x * u && c.value() * (10000 * u) - draw * u * u
        == y * u) by (nonlinear_arith)
        requires
            x == r.value() * 10000 - draw * u,
            y == c.value() * 10000 - draw * u,
    ;
    assert(abs(x * u) == abs(x) * u && abs(y * u) == abs(y) * u) by (nonlinear_arith)
        requires
            u > 0,
    ;
    assert(abs(x) * u <= abs(y) * u ==> abs(x) <= abs(y)) by (nonlinear_arith)
        requires
            u > 0,
    ;
}

/// A draw below epsilon explores: it selects the entry at the place that it
/// stands for, which is the whole part of its share of the list, or the last.
/// What has been learned does not matter.
pub proof fn law_exploring_takes_the_place_of_the_draw(
    m: MetadataView,
    other: MetadataView,
    tuning: Tuning,
    indices: Seq<usize>,
    rand_val: Binary64,
)
    requires
        0 < indices.len() <= usize::MAX,
        rand_val.lt(tuning.epsilon),
    ensures
        ({
            let place = MetadataView::explore_position(tuning, indices.len(), rand_val);
            let share = rand_val.over(tuning.epsilon).times(
                Binary64::from_integer(indices.len() as u64),
            );
            let u = one_in_units();
            &&& 0 <= place < indices.len()
            &&& m.selected(tuning, indices, rand_val) == indices[place]
            &&& share.is_nan() || share.value() <= 0 ==> place == 0
            &&& !share.is_nan() && share.value() > 0 ==> {
                &&& place * u <= share.value()
                &&& share.value() < (place + 1) * u || place == indices.len() - 1
            }
        }),
        m.selected(tuning, indices, rand_val) == other.selected(tuning, indices, rand_val),
{
    let len = indices.len();
    let u = one_in_units();
    let share = rand_val.over(tuning.epsilon).times(Binary64::from_integer(len as u64));
    let slot = share.to_index();
    lemma_pow2_pos(1074);
    law_index_is_the_whole_part(share);
    if slot >= len {
        assert((len - 1) * u <= slot * u) by (nonlinear_arith)
            requires
                len <= slot,
                u > 0,
        ;
    }
}

/// Every entry can be explored: where epsilon is `share` out of
/// [`DRAW_BOUND`] and fewer than `share` entries are listed, each of them is
/// selected by some exploring draw, whatever the Q-values.
pub proof fn law_some_draw_selects_each_entry(
    m: MetadataView,
    tuning: Tuning,
    indices: Seq<usize>,
    share: u64,
    idx: usize,
)
    requires
        share <= DRAW_BOUND,
        tuning.epsilon == draw_value(share),
        indices.len() < share,
        indices.contains(idx),
    ensures
        exists|draw: u64|
            {
                &&& draw < share
                &&& draw_value(draw).lt(tuning.epsilon)
                &&& #[trigger] m.selected(tuning, indices, draw_value(draw)) == idx
            },
{
    let place = choose|place: int| 0 <= place < indices.len() && indices[place] == idx;
    law_every_entry_can_be_explored(tuning, share, indices.len(), place);
    let draw = choose|draw: u64|
        draw < share && #[trigger] MetadataView::explore_position(
            tuning,
            indices.len(),
            draw_value(draw),
        ) == place;
    law_epsilon_is_probability_of_exploring(tuning, share, draw);
    assert(m.selected(tuning, indices, draw_value(draw)) == idx);
}

} // verus!
