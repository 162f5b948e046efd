//! Rounding of exact values to the nearest double, ties to the even pattern.
use vstd::arithmetic::power2::{
    lemma2_to64, lemma_pow2_adds, lemma_pow2_pos, lemma_pow2_strictly_increases, lemma_pow2_unfold,
    pow2,
};
use vstd::prelude::*;

use crate::binary64::{
    lemma_magnitude_monotone, lemma_magnitude_step, magnitude, BINADE, INFINITE,
};

verus! {

/// Whether `n` is the pattern that the non-negative value `num / den` (in
/// units of 2^-1074) rounds to: the value lies no further from `n` than from
/// either neighbour, and on a tie `n` is even. Past the greatest finite
/// double, `INFINITE` takes part as if it were 2^1024.
pub open spec fn is_nearest(n: int, num: int, den: int) -> bool {
    &&& 0 <= n <= INFINITE
    &&& n > 0 ==> {
        let midpoint = (magnitude(n - 1) + magnitude(n)) * den;
        midpoint < 2 * num || (midpoint == 2 * num && n % 2 == 0)
    }
    &&& n < INFINITE ==> {
        let midpoint = (magnitude(n) + magnitude(n + 1)) * den;
        2 * num < midpoint || (2 * num == midpoint && n % 2 == 0)
    }
}

/// The pattern that the non-negative value `num / den` rounds to.
pub open spec fn nearest(num: int, den: int) -> int {
    choose|n: int| is_nearest(n, num, den)
}

/// If `n` is the last pattern at or below the value, the value rounds to `n`
/// or to its successor, whichever side of the midpoint it lies on.
proof fn lemma_round_from_below(n: int, num: int, den: int)
    requires
        0 <= n < INFINITE,
        den > 0,
        magnitude(n) * den <= num < magnitude(n + 1) * den,
    ensures
        2 * num < (magnitude(n) + magnitude(n + 1)) * den ==> is_nearest(n, num, den),
        2 * num > (magnitude(n) + magnitude(n + 1)) * den ==> is_nearest(n + 1, num, den),
        2 * num == (magnitude(n) + magnitude(n + 1)) * den && n % 2 == 0 ==> is_nearest(
            n,
            num,
            den,
        ),
        2 * num == (magnitude(n) + magnitude(n + 1)) * den && n % 2 != 0 ==> is_nearest(
            n + 1,
            num,
            den,
        ),
{
    let a = magnitude(n);
    let b = magnitude(n + 1);
    if n > 0 {
        let z = magnitude(n - 1);
        lemma_magnitude_step(n - 1);
        assert((z + a) * den < 2 * num) by (nonlinear_arith)
            requires
                z < a,
                a * den <= num,
                den > 0,
        ;
    }
    let c = magnitude(n + 2);
    lemma_magnitude_step(n + 1);
    assert(2 * num < (b + c) * den) by (nonlinear_arith)
        requires
            b < c,
            num < b * den,
            den > 0,
    ;
}

/// From `n` on upwards there is a pattern that the value rounds to.
proof fn lemma_nearest_exists_from(n: int, num: int, den: int)
    requires
        0 <= n <= INFINITE,
        den > 0,
        magnitude(n) * den <= num,
    ensures
        exists|m: int| is_nearest(m, num, den),
    decreases INFINITE - n,
{
    if n == INFINITE {
        let z = magnitude(n - 1);
        let a = magnitude(n);
        lemma_magnitude_step(n - 1);
        assert((z + a) * den < 2 * num) by (nonlinear_arith)
            requires
                z < a,
                a * den <= num,
                den > 0,
        ;
        assert(is_nearest(n, num, den));
    } else if magnitude(n + 1) * den <= num {
        lemma_nearest_exists_from(n + 1, num, den);
    } else {
        lemma_round_from_below(n, num, den);
    }
}

/// Of two values in order, the greater does not round to a lesser pattern.
pub proof fn lemma_nearest_monotone_at(n1: int, num1: int, den1: int, n2: int, num2: int, den2: int)
    requires
        den1 > 0,
        den2 > 0,
        num1 * den2 <= num2 * den1,
        is_nearest(n1, num1, den1),
        is_nearest(n2, num2, den2),
    ensures
        n1 <= n2,
{
    if n1 > n2 {
        let low = magnitude(n1 - 1) + magnitude(n1);
        let high = magnitude(n2) + magnitude(n2 + 1);
        if n1 - 1 > n2 {
            lemma_magnitude_monotone(n2, n1 - 1);
            lemma_magnitude_monotone(n2 + 1, n1);
            assert(high < low);
        }
        assert(low * den1 * den2 <= 2 * num1 * den2) by (nonlinear_arith)
            requires
                low * den1 <= 2 * num1,
                den2 > 0,
        ;
        assert(2 * num2 * den1 <= high * den2 * den1) by (nonlinear_arith)
            requires
                2 * num2 <= high * den2,
                den1 > 0,
        ;
        assert(2 * num1 * den2 <= 2 * num2 * den1) by (nonlinear_arith)
            requires
                num1 * den2 <= num2 * den1,
        ;
        assert(low * (den1 * den2) <= high * (den1 * den2)) by (nonlinear_arith)
            requires
                low * den1 * den2 <= high * den2 * den1,
        ;
        assert(den1 * den2 > 0) by (nonlinear_arith)
            requires
                den1 > 0,
                den2 > 0,
        ;
        if high < low {
            assert(high * (den1 * den2) < low * (den1 * den2)) by (nonlinear_arith)
                requires
                    high < low,
                    den1 * den2 > 0,
            ;
        } else {
            assert(n1 == n2 + 1);
            assert(low == high);
            assert(low * den1 == 2 * num1) by (nonlinear_arith)
                requires
                    low * den1 * den2 <= 2 * num1 * den2,
                    2 * num1 * den2 <= 2 * num2 * den1,
                    2 * num2 * den1 <= high * den2 * den1,
                    low == high,
                    den2 > 0,
            ;
            assert(high * den2 == 2 * num2) by (nonlinear_arith)
                requires
                    low * den1 * den2 <= 2 * num1 * den2,
                    2 * num1 * den2 <= 2 * num2 * den1,
                    2 * num2 * den1 <= high * den2 * den1,
                    low == high,
                    den1 > 0,
            ;
        }
    }
}

/// Every non-negative value rounds to exactly one pattern.
pub proof fn lemma_nearest(num: int, den: int)
    requires
        num >= 0,
        den > 0,
    ensures
        is_nearest(nearest(num, den), num, den),
        0 <= nearest(num, den) <= INFINITE,
        forall|n: int| is_nearest(n, num, den) ==> n == nearest(num, den),
{
    assert(magnitude(0) == 0);
    assert(0 * den == 0);
    lemma_nearest_exists_from(0, num, den);
    assert forall|n: int| is_nearest(n, num, den) implies n == nearest(num, den) by {
        lemma_nearest_monotone_at(n, num, den, nearest(num, den), num, den);
        lemma_nearest_monotone_at(nearest(num, den), num, den, n, num, den);
    }
}

/// Rounding keeps the order of values.
pub proof fn lemma_nearest_monotone(num1: int, den1: int, num2: int, den2: int)
    requires
        num1 >= 0,
        num2 >= 0,
        den1 > 0,
        den2 > 0,
        num1 * den2 <= num2 * den1,
    ensures
        nearest(num1, den1) <= nearest(num2, den2),
{
    lemma_nearest(num1, den1);
    lemma_nearest(num2, den2);
    lemma_nearest_monotone_at(nearest(num1, den1), num1, den1, nearest(num2, den2), num2, den2);
}

/// A value that some double holds exactly rounds to that double.
pub proof fn lemma_nearest_exact(n: int, num: int, den: int)
    requires
        0 <= n <= INFINITE,
        den > 0,
        num == magnitude(n) * den,
    ensures
        num >= 0,
        nearest(num, den) == n,
{
    lemma_magnitude_step(n);
    assert(num >= 0) by (nonlinear_arith)
        requires
            num == magnitude(n) * den,
            magnitude(n) >= 0,
            den > 0,
    ;
    let a = magnitude(n);
    let b = magnitude(n + 1);
    assert(2 * num < (a + b) * den) by (nonlinear_arith)
        requires
            num == a * den,
            a < b,
            den > 0,
    ;
    if n > 0 {
        let z = magnitude(n - 1);
        lemma_magnitude_step(n - 1);
        assert((z + a) * den < 2 * num) by (nonlinear_arith)
            requires
                num == a * den,
                z < a,
                den > 0,
        ;
    }
    assert(is_nearest(n, num, den));
    lemma_nearest(num, den);
}

/// Extra binary places, below 2^-1074, that intermediate results carry.
pub const EXTRA_PLACES: u32 = 1200;

/// Whether the value `num / den` is `sig * 2^s` in units of
/// 2^-(1074 + EXTRA_PLACES), or, with `sticky`, lies strictly between that and
/// the next multiple of `2^s`.
pub open spec fn brackets(sig: int, s: nat, sticky: bool, num: int, den: int) -> bool {
    let scaled = num * pow2(EXTRA_PLACES as nat);
    if sticky {
        sig * pow2(s) * den < scaled < (sig + 1) * pow2(s) * den
    } else {
        scaled == sig * pow2(s) * den
    }
}

/// The value of the pattern with exponent step `k` and significand `m`, and
/// of its successor.
pub proof fn lemma_magnitude_at(k: int, m: int)
    requires
        k >= 0,
        0 <= m < 2 * BINADE,
        k > 0 ==> m >= BINADE,
    ensures
        magnitude(k * BINADE + m) == m * pow2(k as nat),
        magnitude(k * BINADE + m + 1) == (m + 1) * pow2(k as nat),
{
    let b: int = BINADE as int;
    let n = k * b + m;
    lemma2_to64();
    if m < b {
        assert(k == 0 && n == m && pow2(k as nat) == 1);
        if m + 1 == b {
            assert((n + 1) / b == 1 && (n + 1) % b == 0);
            assert(b * pow2(0) == b);
        }
    } else {
        assert(n >= b) by (nonlinear_arith)
            requires
                n == k * b + m,
                m >= b,
                k >= 0,
                b > 0,
        ;
        assert(n / b == k + 1 && n % b == m - b) by (nonlinear_arith)
            requires
                n == k * b + m,
                b <= m < 2 * b,
                b > 0,
        ;
        if m + 1 == 2 * b {
            assert((n + 1) / b == k + 2 && (n + 1) % b == 0) by (nonlinear_arith)
                requires
                    n == k * b + m,
                    m + 1 == 2 * b,
                    b > 0,
            ;
            lemma_pow2_unfold((k + 1) as nat);
            assert(b * (2 * pow2(k as nat)) == (2 * b) * pow2(k as nat)) by (nonlinear_arith);
        } else {
            assert((n + 1) / b == k + 1 && (n + 1) % b == m + 1 - b) by (nonlinear_arith)
                requires
                    n == k * b + m,
                    b <= m,
                    m + 1 < 2 * b,
                    b > 0,
            ;
        }
    }
}

/// Comparing `c * 2^k` with `num / den` in either unit comes to the same.
proof fn lemma_scaled(c: int, k: nat, num: int, den: int)
    ensures
        c * pow2(k + EXTRA_PLACES as nat) * den < num * pow2(EXTRA_PLACES as nat) <==> c * pow2(k)
            * den < num,
        c * pow2(k + EXTRA_PLACES as nat) * den == num * pow2(EXTRA_PLACES as nat) <==> c * pow2(k)
            * den == num,
{
    let t = pow2(EXTRA_PLACES as nat);
    lemma_pow2_adds(k, EXTRA_PLACES as nat);
    lemma_pow2_pos(EXTRA_PLACES as nat);
    let y = c * pow2(k) * den;
    assert(c * (pow2(k) * t) * den == y * t) by (nonlinear_arith)
        requires
            y == c * pow2(k) * den,
    ;
    assert(y * t < num * t <==> y < num) by (nonlinear_arith)
        requires
            t > 0,
    ;
    assert(y * t == num * t <==> y == num) by (nonlinear_arith)
        requires
            t > 0,
    ;
}

/// 2 to the power `k`.
pub(crate) fn power_of_two(k: u32) -> (r: u128)
    requires
        k <= 126,
    ensures
        r == pow2(k as nat),
        r > 0,
{
    let mut p: u128 = 1;
    let mut i: u32 = 0;
    proof {
        lemma2_to64();
    }
    while i < k
        invariant
            i <= k <= 126,
            p == pow2(i as nat),
        decreases k - i,
    {
        proof {
            lemma_pow2_unfold((i + 1) as nat);
            lemma_pow2_bound((i + 1) as nat);
        }
        p = p * 2;
        i = i + 1;
    }
    proof {
        lemma_pow2_pos(k as nat);
    }
    p
}

/// Powers of two up to 2^126 fit a `u128` twice over.
pub(crate) proof fn lemma_pow2_bound(k: nat)
    requires
        k <= 126,
    ensures
        pow2(k) * 2 <= u128::MAX,
{
    lemma2_to64();
    lemma_pow2_adds(64, 62);
    lemma_pow2_adds(32, 30);
    if k < 126 {
        lemma_pow2_strictly_increases(k, 126);
    }
    assert(0x1_0000_0000_0000_0000int * 0x4000_0000_0000_0000int * 2 <= u128::MAX);
}

/// Number of binary digits of `x`.
pub(crate) fn bit_length(x: u128) -> (len: u32)
    requires
        0 < x < pow2(120),
    ensures
        1 <= len <= 120,
        pow2((len - 1) as nat) <= x < pow2(len as nat),
{
    let mut len: u32 = 1;
    let mut p: u128 = 2;
    proof {
        lemma2_to64();
    }
    while p <= x
        invariant
            1 <= len <= 120,
            p == pow2(len as nat),
            pow2((len - 1) as nat) <= x < pow2(120),
        decreases 120 - len,
    {
        proof {
            if len >= 120 {
                assert(false);
            }
            lemma_pow2_unfold((len + 1) as nat);
            lemma_pow2_bound((len + 1) as nat);
        }
        p = p * 2;
        len = len + 1;
    }
    len
}

/// Where the value lies between significands `m` and `m + 1` at exponent step
/// `k` decides what it rounds to.
proof fn lemma_round_scaled(k: int, m: int, num: int, den: int)
    requires
        0 <= k <= 2045,
        0 <= m < 2 * BINADE,
        k > 0 ==> m >= BINADE,
        num >= 0,
        den > 0,
        ({
            let p = pow2((k + EXTRA_PLACES) as nat);
            let scaled = num * pow2(EXTRA_PLACES as nat);
            m * p * den <= scaled < (m + 1) * p * den
        }),
    ensures
        ({
            let n = k * BINADE + m;
            let twice = 2 * num * pow2(EXTRA_PLACES as nat);
            let midpoint = (2 * m + 1) * pow2((k + EXTRA_PLACES) as nat) * den;
            &&& 0 <= n < INFINITE
            &&& twice < midpoint ==> nearest(num, den) == n
            &&& twice > midpoint ==> nearest(num, den) == n + 1
            &&& twice == midpoint && n % 2 == 0 ==> nearest(num, den) == n
            &&& twice == midpoint && n % 2 != 0 ==> nearest(num, den) == n + 1
        }),
{
    let n = k * BINADE + m;
    lemma_magnitude_at(k, m);
    lemma_scaled(m, k as nat, num, den);
    lemma_scaled(m + 1, k as nat, num, den);
    lemma_scaled(2 * m + 1, k as nat, 2 * num, den);
    assert(m * pow2(k as nat) + (m + 1) * pow2(k as nat) == (2 * m + 1) * pow2(k as nat))
        by (nonlinear_arith);
    lemma_round_from_below(n, num, den);
    lemma_nearest(num, den);
}

/// Values of 2^1024 or more round to infinity.
proof fn lemma_round_overflow(sig: int, s: nat, sticky: bool, len: nat, num: int, den: int)
    requires
        len >= 1,
        pow2((len - 1) as nat) <= sig,
        len + s >= 53 + EXTRA_PLACES + 2046,
        num >= 0,
        den > 0,
        brackets(sig, s, sticky, num, den),
    ensures
        nearest(num, den) == INFINITE,
{
    let b: int = BINADE as int;
    let u: nat = (2045 + EXTRA_PLACES) as nat;
    let scaled = num * pow2(EXTRA_PLACES as nat);
    lemma_magnitude_at(2045, 2 * b - 1);
    lemma_scaled(2 * b, 2045, num, den);
    lemma2_to64();
    lemma_pow2_adds(21, 32);
    lemma_pow2_adds(53, u);
    lemma_pow2_adds((len - 1) as nat, s);
    let top: nat = (len - 1 + s) as nat;
    if 53 + u < top {
        lemma_pow2_strictly_increases((53 + u) as nat, top);
    }
    lemma_pow2_pos(s);
    assert(pow2((len - 1) as nat) * pow2(s) * den <= sig * pow2(s) * den) by (nonlinear_arith)
        requires
            pow2((len - 1) as nat) <= sig,
            pow2(s) > 0,
            den > 0,
    ;
    assert(2 * b * pow2(u) * den <= pow2((len - 1) as nat) * pow2(s) * den) by (nonlinear_arith)
        requires
            2 * b * pow2(u) <= pow2((len - 1) as nat) * pow2(s),
            den > 0,
    ;
    assert(sig * pow2(s) * den <= scaled);
    let z = magnitude(INFINITE - 1);
    let a = magnitude(INFINITE as int);
    assert(a * den <= num);
    lemma_magnitude_step(INFINITE - 1);
    assert((z + a) * den < 2 * num) by (nonlinear_arith)
        requires
            z < a,
            a * den <= num,
            den > 0,
    ;
    assert(is_nearest(INFINITE as int, num, den));
    lemma_nearest(num, den);
}

/// Cutting `d` binary digits off a bracketed value: `m` and `rem` are what is
/// kept and what is cut, and `rem` with `sticky` tells the side of the midpoint.
proof fn lemma_cut(
    sig: int,
    s: nat,
    sticky: bool,
    d: nat,
    m: int,
    rem: int,
    num: int,
    den: int,
)
    requires
        d >= 1,
        den > 0,
        sig == m * pow2(d) + rem,
        0 <= rem < pow2(d),
        brackets(sig, s, sticky, num, den),
    ensures
        ({
            let half = pow2((d - 1) as nat);
            let p = pow2(d + s);
            let scaled = num * pow2(EXTRA_PLACES as nat);
            let midpoint = (2 * m + 1) * p * den;
            &&& m * p * den <= scaled < (m + 1) * p * den
            &&& rem < half ==> 2 * scaled < midpoint
            &&& rem > half || (rem == half && sticky) ==> 2 * scaled > midpoint
            &&& rem == half && !sticky ==> 2 * scaled == midpoint
        }),
{
    let q = pow2(d);
    let half = pow2((d - 1) as nat);
    let scaled = num * pow2(EXTRA_PLACES as nat);
    let w = pow2(s) * den;
    lemma_pow2_adds(d, s);
    lemma_pow2_unfold(d);
    lemma_pow2_pos(s);
    assert(w > 0) by (nonlinear_arith)
        requires
            w == pow2(s) * den,
            pow2(s) > 0,
            den > 0,
    ;
    assert(sig * pow2(s) * den == sig * w) by (nonlinear_arith)
        requires
            w == pow2(s) * den,
    ;
    assert((sig + 1) * pow2(s) * den == sig * w + w) by (nonlinear_arith)
        requires
            w == pow2(s) * den,
    ;
    assert(m * (q * pow2(s)) * den == (m * q) * w) by (nonlinear_arith)
        requires
            w == pow2(s) * den,
    ;
    assert((m + 1) * (q * pow2(s)) * den == (m * q) * w + q * w) by (nonlinear_arith)
        requires
            w == pow2(s) * den,
    ;
    assert((2 * m + 1) * (q * pow2(s)) * den == 2 * ((m * q) * w) + q * w) by (nonlinear_arith)
        requires
            w == pow2(s) * den,
    ;
    assert(sig * w == (m * q) * w + rem * w) by (nonlinear_arith)
        requires
            sig == m * q + rem,
    ;
    assert(rem * w >= 0) by (nonlinear_arith)
        requires
            rem >= 0,
            w > 0,
    ;
    assert(rem * w + w <= q * w) by (nonlinear_arith)
        requires
            rem + 1 <= q,
            w > 0,
    ;
    assert(q * w == 2 * (half * w)) by (nonlinear_arith)
        requires
            q == 2 * half,
    ;
    if rem < half {
        assert(rem * w + w <= half * w) by (nonlinear_arith)
            requires
                rem + 1 <= half,
                w > 0,
        ;
    } else if rem > half {
        assert(rem * w >= half * w + w) by (nonlinear_arith)
            requires
                rem >= half + 1,
                w > 0,
        ;
    }
}

/// The pattern nearest to a bracketed value.
pub(crate) fn round(
    sig: u128,
    s: u32,
    sticky: bool,
    Ghost(num): Ghost<int>,
    Ghost(den): Ghost<int>,
) -> (n: u64)
    requires
        0 < sig < pow2(120),
        s <= 6000,
        sticky ==> sig >= pow2(54),
        num >= 0,
        den > 0,
        brackets(sig as int, s as nat, sticky, num, den),
    ensures
        n == nearest(num, den),
        n <= INFINITE,
{
    let len: u32 = bit_length(sig);
    let step: u32 = if len + s > 53 + EXTRA_PLACES {
        len + s - 53 - EXTRA_PLACES
    } else {
        0
    };
    if step >= 2046 {
        proof {
            lemma_round_overflow(sig as int, s as nat, sticky, len as nat, num, den);
        }
        return INFINITE;
    }
    let unit: u32 = step + EXTRA_PLACES;
    proof {
        lemma2_to64();
        lemma_pow2_adds(21, 32);
        assert(pow2(53) == 2 * BINADE);
        assert(pow2(52) == BINADE) by {
            lemma_pow2_unfold(53);
        }
        lemma_pow2_pos(s as nat);
    }
    if unit <= s {
        let shift: u32 = s - unit;
        proof {
            if len >= 54 {
                assert(false);
            }
            if sticky {
                lemma_pow2_strictly_increases(53, 54);
                if len < 53 {
                    lemma_pow2_strictly_increases(len as nat, 53);
                }
            }
            // The shifted significand stays below 2^53.
            lemma_pow2_adds(len as nat, shift as nat);
            if len + shift < 53 {
                lemma_pow2_strictly_increases((len + shift) as nat, 53);
            }
            lemma_pow2_pos(shift as nat);
            assert(sig * pow2(shift as nat) < pow2(len as nat) * pow2(shift as nat))
                by (nonlinear_arith)
                requires
                    sig < pow2(len as nat),
                    pow2(shift as nat) > 0,
            ;
            lemma_pow2_adds((len - 1) as nat, shift as nat);
            assert(sig * pow2(shift as nat) >= pow2((len - 1) as nat) * pow2(shift as nat))
                by (nonlinear_arith)
                requires
                    sig >= pow2((len - 1) as nat),
                    pow2(shift as nat) > 0,
            ;
            lemma_pow2_adds(shift as nat, unit as nat);
        }
        let power: u128 = power_of_two(shift);
        let m: u128 = sig * power;
        proof {
            let p = pow2(unit as nat);
            let scaled = num * pow2(EXTRA_PLACES as nat);
            lemma_pow2_pos(unit as nat);
            assert(sig * pow2(s as nat) * den == m * p * den) by (nonlinear_arith)
                requires
                    pow2(s as nat) == power * p,
                    m == sig * power,
            ;
            assert(m * p * den < (m + 1) * p * den) by (nonlinear_arith)
                requires
                    p > 0,
                    den > 0,
            ;
            assert(2 * (m * p * den) < (2 * m + 1) * p * den) by (nonlinear_arith)
                requires
                    p > 0,
                    den > 0,
            ;
            assert(2 * num * pow2(EXTRA_PLACES as nat) == 2 * scaled) by (nonlinear_arith)
                requires
                    scaled == num * pow2(EXTRA_PLACES as nat),
            ;
            lemma_round_scaled(step as int, m as int, num, den);
        }
        step as u64 * BINADE + m as u64
    } else {
        let d: u32 = unit - s;
        if d > 120 {
            proof {
                // Everything is cut off, and it comes to less than half a unit.
                assert(step == 0);
                if d > 121 {
                    lemma_pow2_strictly_increases(120, (d - 1) as nat);
                }
                lemma_pow2_unfold(d as nat);
                lemma_cut(sig as int, s as nat, sticky, d as nat, 0, sig as int, num, den);
                let scaled = num * pow2(EXTRA_PLACES as nat);
                assert(2 * num * pow2(EXTRA_PLACES as nat) == 2 * scaled) by (nonlinear_arith)
                    requires
                        scaled == num * pow2(EXTRA_PLACES as nat),
                ;
                lemma_round_scaled(0, 0, num, den);
            }
            return 0;
        }
        let power: u128 = power_of_two(d);
        let half: u128 = power_of_two(d - 1);
        let m: u128 = sig / power;
        let rem: u128 = sig % power;
        proof {
            assert(sig == m * power + rem) by (nonlinear_arith)
                requires
                    m == sig / power,
                    rem == sig % power,
                    power > 0,
            ;
            // The kept significand has at most 53 digits, and exactly 53 in
            // a normal number.
            lemma_pow2_adds(53, d as nat);
            if len < 53 + d {
                lemma_pow2_strictly_increases(len as nat, (53 + d) as nat);
            }
            assert(m < pow2(53)) by (nonlinear_arith)
                requires
                    m == sig / power,
                    sig < pow2(53) * power,
                    power > 0,
            ;
            if step > 0 {
                lemma_pow2_adds(52, d as nat);
                assert(m >= pow2(52)) by (nonlinear_arith)
                    requires
                        m == sig / power,
                        sig >= pow2(52) * power,
                        power > 0,
                ;
            }
            lemma_cut(sig as int, s as nat, sticky, d as nat, m as int, rem as int, num, den);
            let scaled = num * pow2(EXTRA_PLACES as nat);
            assert(2 * num * pow2(EXTRA_PLACES as nat) == 2 * scaled) by (nonlinear_arith)
                requires
                    scaled == num * pow2(EXTRA_PLACES as nat),
            ;
            lemma_round_scaled(step as int, m as int, num, den);
        }
        let n: u64 = step as u64 * BINADE + m as u64;
        if rem > half || (rem == half && (sticky || n % 2 != 0)) {
            n + 1
        } else {
            n
        }
    }
}

} // verus!
