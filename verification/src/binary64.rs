//! Double-precision numbers held as their IEEE 754 bit pattern.
//!
//! Every finite double is a whole multiple of 2^-1074, so its exact value is
//! an integer once that number is taken as the unit. The model below works in
//! that unit throughout.
use vstd::arithmetic::power2::{lemma2_to64, lemma_pow2_pos, lemma_pow2_unfold, pow2};
use vstd::prelude::*;

verus! {

/// Weight of the sign bit.
pub const SIGN_BIT: u64 = 0x8000_0000_0000_0000;

/// Pattern of positive infinity, the greatest pattern that is not a NaN.
pub const INFINITE: u64 = 0x7FF0_0000_0000_0000;

/// Number of patterns between two neighbouring powers of two.
pub const BINADE: u64 = 0x10_0000_0000_0000;

/// Pattern of the NaN that arithmetic produces.
pub const QUIET_NAN: u64 = 0x7FF8_0000_0000_0000;

/// The exact value, in units of 2^-1074, of the non-negative double with
/// pattern `n`. At `INFINITE` it is 2^1024, the first power of two that the
/// format cannot hold.
pub open spec fn magnitude(n: int) -> int {
    if n < BINADE {
        n
    } else {
        (BINADE + n % (BINADE as int)) * pow2((n / (BINADE as int) - 1) as nat)
    }
}

/// A double-precision number.
///
/// The derived equality compares bit patterns; numeric comparison is
/// [`Binary64::lt`] and [`Binary64::le`].
#[derive(Clone, Copy, Debug, PartialEq, Eq, Structural)]
pub struct Binary64 {
    /// The IEEE 754 interchange encoding.
    pub bits: u64,
}

impl Binary64 {
    /// Whether the sign bit is set.
    pub open spec fn spec_is_negative(self) -> bool {
        self.bits >= SIGN_BIT
    }

    /// The pattern without its sign bit.
    pub open spec fn spec_pattern(self) -> u64 {
        if self.bits >= SIGN_BIT {
            (self.bits - SIGN_BIT) as u64
        } else {
            self.bits
        }
    }

    /// Whether this is a NaN.
    pub open spec fn spec_is_nan(self) -> bool {
        self.spec_pattern() > INFINITE
    }

    /// Whether this is one of the two infinities.
    pub open spec fn spec_is_infinite(self) -> bool {
        self.spec_pattern() == INFINITE
    }

    /// Whether this is neither a NaN nor infinite.
    pub open spec fn is_finite(self) -> bool {
        self.spec_pattern() < INFINITE
    }

    /// The exact value in units of 2^-1074; meaningless for a NaN.
    pub open spec fn value(self) -> int {
        if self.spec_is_negative() {
            -magnitude(self.spec_pattern() as int)
        } else {
            magnitude(self.spec_pattern() as int)
        }
    }

    /// Place of the number in ascending order. Both zeros share place 0, and
    /// every NaN is put behind positive infinity.
    pub open spec fn spec_rank(self) -> i64 {
        if self.spec_is_nan() {
            (INFINITE + 1) as i64
        } else if self.spec_is_negative() {
            (-(self.spec_pattern() as int)) as i64
        } else {
            self.spec_pattern() as i64
        }
    }

    /// Numeric `<`, false when either side is a NaN.
    pub open spec fn spec_lt(self, other: Self) -> bool {
        !self.spec_is_nan() && !other.spec_is_nan() && self.value() < other.value()
    }

    /// Numeric `<=`, false when either side is a NaN.
    pub open spec fn spec_le(self, other: Self) -> bool {
        !self.spec_is_nan() && !other.spec_is_nan() && self.value() <= other.value()
    }

    /// The greater of two numbers. A NaN yields to the other side, and the
    /// positive zero counts as greater than the negative one.
    pub open spec fn spec_max(self, other: Self) -> Self {
        if self.spec_is_nan() && other.spec_is_nan() {
            Self::spec_nan()
        } else if self.spec_is_nan() {
            other
        } else if other.spec_is_nan() {
            self
        } else if self.value() < other.value() || (self.value() == other.value()
            && self.spec_is_negative()) {
            other
        } else {
            self
        }
    }

    /// The number with the given sign and pattern.
    pub open spec fn signed(negative: bool, n: int) -> Self {
        Binary64 {
            bits: if negative {
                (n + SIGN_BIT) as u64
            } else {
                n as u64
            },
        }
    }

    /// The NaN that arithmetic produces.
    pub open spec fn spec_nan() -> Self {
        Binary64 { bits: QUIET_NAN }
    }

    /// Positive zero.
    pub open spec fn spec_zero() -> Self {
        Binary64 { bits: 0 }
    }

    /// The number with its sign bit flipped.
    pub open spec fn spec_neg(self) -> Self {
        Self::signed(!self.spec_is_negative(), self.spec_pattern() as int)
    }

    /// Wraps an IEEE 754 bit pattern.
    pub fn from_bits(bits: u64) -> (r: Self)
        ensures
            r.bits == bits,
    {
        Binary64 { bits }
    }

    /// The IEEE 754 bit pattern.
    pub fn to_bits(self) -> (r: u64)
        ensures
            r == self.bits,
    {
        self.bits
    }

    /// The NaN that arithmetic produces.
    #[verifier::when_used_as_spec(spec_nan)]
    pub fn nan() -> (r: Self)
        ensures
            r == Self::spec_nan(),
    {
        Binary64 { bits: QUIET_NAN }
    }

    /// Positive zero.
    #[verifier::when_used_as_spec(spec_zero)]
    pub fn zero() -> (r: Self)
        ensures
            r == Self::spec_zero(),
    {
        Binary64 { bits: 0 }
    }

    /// Whether the sign bit is set.
    #[verifier::when_used_as_spec(spec_is_negative)]
    pub fn is_negative(self) -> (r: bool)
        ensures
            r == self.spec_is_negative(),
    {
        self.bits >= SIGN_BIT
    }

    /// The pattern without its sign bit.
    #[verifier::when_used_as_spec(spec_pattern)]
    pub fn pattern(self) -> (r: u64)
        ensures
            r == self.spec_pattern(),
            r < SIGN_BIT,
    {
        if self.bits >= SIGN_BIT {
            self.bits - SIGN_BIT
        } else {
            self.bits
        }
    }

    /// Whether this is a NaN.
    #[verifier::when_used_as_spec(spec_is_nan)]
    pub fn is_nan(self) -> (r: bool)
        ensures
            r == self.spec_is_nan(),
    {
        self.pattern() > INFINITE
    }

    /// Whether this is one of the two infinities.
    #[verifier::when_used_as_spec(spec_is_infinite)]
    pub fn is_infinite(self) -> (r: bool)
        ensures
            r == self.spec_is_infinite(),
    {
        self.pattern() == INFINITE
    }

    /// Place of the number in ascending order, see [`Binary64::spec_rank`].
    #[verifier::when_used_as_spec(spec_rank)]
    pub fn rank(self) -> (r: i64)
        ensures
            r == self.spec_rank(),
    {
        if self.is_nan() {
            INFINITE as i64 + 1
        } else if self.is_negative() {
            -(self.pattern() as i64)
        } else {
            self.pattern() as i64
        }
    }

    /// The number with its sign bit flipped.
    #[verifier::when_used_as_spec(spec_neg)]
    pub fn neg(self) -> (r: Self)
        ensures
            r == self.spec_neg(),
    {
        if self.bits >= SIGN_BIT {
            Binary64 { bits: self.bits - SIGN_BIT }
        } else {
            Binary64 { bits: self.bits + SIGN_BIT }
        }
    }

    /// Numeric `<`, false when either side is a NaN.
    #[verifier::when_used_as_spec(spec_lt)]
    pub fn lt(self, other: Self) -> (r: bool)
        ensures
            r == self.spec_lt(other),
    {
        proof {
            if !self.is_nan() && !other.is_nan() {
                lemma_rank_orders_values(self, other);
            }
        }
        !self.is_nan() && !other.is_nan() && self.rank() < other.rank()
    }

    /// Numeric `<=`, false when either side is a NaN.
    #[verifier::when_used_as_spec(spec_le)]
    pub fn le(self, other: Self) -> (r: bool)
        ensures
            r == self.spec_le(other),
    {
        proof {
            if !self.is_nan() && !other.is_nan() {
                lemma_rank_orders_values(self, other);
            }
        }
        !self.is_nan() && !other.is_nan() && self.rank() <= other.rank()
    }

    /// The greater of two numbers. A NaN yields to the other side, and the
    /// positive zero counts as greater than the negative one.
    #[verifier::when_used_as_spec(spec_max)]
    pub fn max(self, other: Self) -> (r: Self)
        ensures
            r == self.spec_max(other),
    {
        if self.is_nan() && other.is_nan() {
            Self::nan()
        } else if self.is_nan() {
            other
        } else if other.is_nan() || other.lt(self) {
            self
        } else if self.lt(other) || self.is_negative() {
            other
        } else {
            self
        }
    }
}

/// Neighbouring patterns differ by a power of two.
pub proof fn lemma_magnitude_step(n: int)
    requires
        0 <= n,
    ensures
        magnitude(n) < magnitude(n + 1),
        magnitude(n) >= 0,
{
    let b: int = BINADE as int;
    lemma2_to64();
    if n >= b - 1 {
        let e: int = n / b;
        if n >= b {
            lemma_pow2_pos((e - 1) as nat);
            assert((b + n % b) * pow2((e - 1) as nat) >= 0) by (nonlinear_arith)
                requires
                    b + n % b >= 0,
                    pow2((e - 1) as nat) > 0,
            ;
            if n % b == b - 1 {
                assert((n + 1) / b == e + 1);
                assert((n + 1) % b == 0);
                lemma_pow2_unfold(e as nat);
                assert((b + (b - 1)) * pow2((e - 1) as nat) < b * (2 * pow2((e - 1) as nat)))
                    by (nonlinear_arith)
                    requires
                        pow2((e - 1) as nat) > 0,
                ;
            } else {
                assert((n + 1) / b == e);
                assert((n + 1) % b == n % b + 1);
                assert((b + n % b) * pow2((e - 1) as nat) < (b + n % b + 1) * pow2(
                    (e - 1) as nat,
                )) by (nonlinear_arith)
                    requires
                        pow2((e - 1) as nat) > 0,
                ;
            }
        } else {
            assert((n + 1) / b == 1);
            assert((n + 1) % b == 0);
            assert(b * pow2(0) == b);
        }
    }
}

/// The exact value grows strictly with the pattern.
pub proof fn lemma_magnitude_monotone(n: int, m: int)
    requires
        0 <= n < m,
    ensures
        0 <= magnitude(n) < magnitude(m),
    decreases m - n,
{
    lemma_magnitude_step(m - 1);
    if n < m - 1 {
        lemma_magnitude_monotone(n, m - 1);
    }
}

/// On numbers other than NaN, the order of ranks is the numeric order.
pub proof fn lemma_rank_orders_values(a: Binary64, b: Binary64)
    requires
        !a.is_nan(),
        !b.is_nan(),
    ensures
        a.rank() < b.rank() <==> a.value() < b.value(),
        a.rank() <= b.rank() <==> a.value() <= b.value(),
{
    let n: int = a.pattern() as int;
    let m: int = b.pattern() as int;
    if n < m {
        lemma_magnitude_monotone(n, m);
    }
    if m < n {
        lemma_magnitude_monotone(m, n);
    }
    if 0 < n {
        lemma_magnitude_monotone(0, n);
    }
    if 0 < m {
        lemma_magnitude_monotone(0, m);
    }
}

/// Numbers with the same sign and the same value are the same.
pub proof fn lemma_value_injective(a: Binary64, b: Binary64)
    requires
        !a.is_nan(),
        !b.is_nan(),
        a.value() == b.value(),
        a.is_negative() == b.is_negative(),
    ensures
        a == b,
{
    lemma_rank_orders_values(a, b);
    lemma_rank_orders_values(b, a);
}

/// What yields to `a` also yields to the greater of `a` and `b`, and so does
/// `b` itself.
pub proof fn lemma_max_absorbs(a: Binary64, b: Binary64, x: Binary64)
    requires
        a.max(a) == a,
    ensures
        a.max(b).max(a.max(b)) == a.max(b),
        a.max(b).max(b) == a.max(b),
        a.max(b).max(a) == a.max(b),
        a.max(x) == a ==> a.max(b).max(x) == a.max(b),
{
    if !a.is_nan() && !x.is_nan() && a.value() == x.value() && a.is_negative() == x.is_negative() {
        lemma_value_injective(a, x);
    }
    if !a.is_nan() && !b.is_nan() && a.value() == b.value() && a.is_negative() == b.is_negative() {
        lemma_value_injective(a, b);
    }
    if !b.is_nan() && !x.is_nan() && b.value() == x.value() && b.is_negative() == x.is_negative() {
        lemma_value_injective(b, x);
    }
}

} // verus!
