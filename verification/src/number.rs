//! Binary32 numbers as bit patterns, and the part of their behaviour that is integer arithmetic:
//! which of two is smaller, and which is nearest inside a range.

use vstd::arithmetic::power2::*;
use vstd::prelude::*;

verus! {

/// An IEEE 754 binary32 number, given by its bits.
#[derive(Clone, Copy, Debug, PartialEq, Eq, Structural)]
pub struct Number {
    pub bits: u32,
}

/// The sign bit.
pub const SIGN: u32 = 0x8000_0000;

/// The bits of positive infinity: no number is larger, and larger bits are not a number.
pub const INFINITY: u32 = 0x7f80_0000;

/// The number with these bits.
#[verifier::allow_in_spec]
pub fn num(bits: u32) -> Number
    returns
        (Number { bits }),
{
    Number { bits }
}

impl Number {
    /// Whether the sign bit is set.
    pub open spec fn negative(self) -> bool {
        self.bits >= SIGN
    }

    /// The bits without the sign.
    pub open spec fn magnitude(self) -> int {
        if self.negative() {
            self.bits - SIGN
        } else {
            self.bits as int
        }
    }

    /// Whether the bits are a number at all.
    pub open spec fn is_number(self) -> bool {
        self.magnitude() <= INFINITY
    }

    /// Whether the bits are a number other than an infinity.
    pub open spec fn is_finite(self) -> bool {
        self.magnitude() < INFINITY
    }

    /// Where the number stands among all numbers. The two zeros stand in the same place.
    pub open spec fn rank(self) -> int {
        if self.negative() {
            -self.magnitude()
        } else {
            self.magnitude()
        }
    }

    /// `self < other`. Never true of a value that is not a number.
    pub open spec fn lt(self, other: Number) -> bool {
        self.is_number() && other.is_number() && self.rank() < other.rank()
    }

    /// `self == 0`.
    pub open spec fn is_zero_spec(self) -> bool {
        self.magnitude() == 0
    }

    /// `self` moved to the nearer end of `lo..=hi` when it is outside; unchanged when it is not
    /// a number.
    pub open spec fn clamped(self, lo: Number, hi: Number) -> Number {
        if self.lt(lo) {
            lo
        } else if hi.lt(self) {
            hi
        } else {
            self
        }
    }

    /// The exact value of a finite number, counted in the smallest positive step of the format.
    pub open spec fn steps(self) -> int {
        if self.negative() {
            -magnitude_steps(self.magnitude())
        } else {
            magnitude_steps(self.magnitude())
        }
    }

    /// Whether the bits are not a number.
    pub fn is_nan(self) -> (nan: bool)
        ensures
            nan == !self.is_number(),
    {
        if self.bits >= SIGN {
            self.bits - SIGN > INFINITY
        } else {
            self.bits > INFINITY
        }
    }

    /// Whether this is one of the two zeros.
    pub fn is_zero(self) -> (zero: bool)
        ensures
            zero == self.is_zero_spec(),
    {
        self.bits == 0 || self.bits == SIGN
    }

    /// `self <= other`.
    pub open spec fn le(self, other: Number) -> bool {
        self.is_number() && other.is_number() && self.rank() <= other.rank()
    }

    /// `self <= other`.
    pub fn at_most(self, other: Number) -> (small: bool)
        ensures
            small == self.le(other),
    {
        !self.is_nan() && !other.is_nan() && self.rank_of() <= other.rank_of()
    }

    /// `self <= 0`.
    pub open spec fn le_zero(self) -> bool {
        self.is_number() && self.rank() <= 0
    }

    /// `self <= 0`. Not true of a value that is not a number.
    pub fn is_at_most_zero(self) -> (small: bool)
        ensures
            small == self.le_zero(),
    {
        self.bits == 0 || (self.bits >= SIGN && self.bits - SIGN <= INFINITY)
    }

    /// `self == other`: the two zeros are equal, and nothing equals a value that is not a number.
    pub open spec fn same(self, other: Number) -> bool {
        self.is_number() && other.is_number() && self.rank() == other.rank()
    }

    /// `self == other`.
    pub fn equals(self, other: Number) -> (same: bool)
        ensures
            same == self.same(other),
    {
        !self.is_nan() && !other.is_nan() && self.rank_of() == other.rank_of()
    }

    fn rank_of(self) -> (r: i64)
        ensures
            r == self.rank(),
    {
        if self.bits >= SIGN {
            -((self.bits - SIGN) as i64)
        } else {
            self.bits as i64
        }
    }

    /// `self < other`.
    pub fn less(self, other: Number) -> (less: bool)
        ensures
            less == self.lt(other),
    {
        !self.is_nan() && !other.is_nan() && self.rank_of() < other.rank_of()
    }

    /// Pulls the number back inside `lo..=hi`.
    pub fn clamp(self, lo: Number, hi: Number) -> (out: Number)
        requires
            lo.is_number(),
            hi.is_number(),
            lo.rank() <= hi.rank(),
        ensures
            out == self.clamped(lo, hi),
            self.is_number() ==> !out.lt(lo) && !hi.lt(out),
    {
        if self.less(lo) {
            lo
        } else if hi.less(self) {
            hi
        } else {
            self
        }
    }
}

/// What the exponent and fraction fields of a finite number stand for, in smallest steps.
pub open spec fn magnitude_steps(magnitude: int) -> int {
    let exponent = magnitude / 0x80_0000;
    let fraction = magnitude % 0x80_0000;
    if exponent == 0 {
        fraction
    } else {
        (0x80_0000 + fraction) * pow2((exponent - 1) as nat)
    }
}

proof fn lemma_steps_next(m: int)
    requires
        0 <= m,
        m + 1 < INFINITY,
    ensures
        magnitude_steps(m) < magnitude_steps(m + 1),
{
    let e = m / 0x80_0000;
    let f = m % 0x80_0000;
    if f + 1 < 0x80_0000 {
        assert((m + 1) / 0x80_0000 == e && (m + 1) % 0x80_0000 == f + 1);
        if e > 0 {
            let p = pow2((e - 1) as nat);
            lemma_pow2_pos((e - 1) as nat);
            assert((0x80_0000 + f) * p < (0x80_0000 + f + 1) * p) by (nonlinear_arith)
                requires
                    p > 0,
            ;
        }
    } else {
        assert((m + 1) / 0x80_0000 == e + 1 && (m + 1) % 0x80_0000 == 0);
        if e == 0 {
            lemma2_to64();
        } else {
            let p = pow2((e - 1) as nat);
            lemma_pow2_pos((e - 1) as nat);
            lemma_pow2_unfold(e as nat);
            assert((0x80_0000 + f) * p < 0x80_0000 * (2 * p)) by (nonlinear_arith)
                requires
                    p > 0,
                    f == 0x7f_ffff,
            ;
        }
    }
}

/// A larger magnitude stands for more.
pub proof fn lemma_steps_increase(a: int, b: int)
    requires
        0 <= a < b < INFINITY,
    ensures
        0 <= magnitude_steps(a) < magnitude_steps(b),
    decreases b - a,
{
    lemma_steps_nonnegative(a);
    if a + 1 < b {
        lemma_steps_increase(a + 1, b);
    }
    lemma_steps_next(a);
}

/// Only zero stands for nothing.
pub proof fn lemma_steps_nonnegative(a: int)
    requires
        0 <= a,
    ensures
        0 <= magnitude_steps(a),
        magnitude_steps(a) == 0 ==> a == 0,
{
    let e = a / 0x80_0000;
    let f = a % 0x80_0000;
    if e > 0 {
        let p = pow2((e - 1) as nat);
        lemma_pow2_pos((e - 1) as nat);
        assert((0x80_0000 + f) * p > 0) by (nonlinear_arith)
            requires
                p > 0,
                f >= 0,
        ;
    }
}

/// Comparing ranks compares exact values: of two finite numbers the smaller value has the
/// smaller rank, and only then.
pub proof fn law_rank_orders_values(a: Number, b: Number)
    requires
        a.is_finite(),
        b.is_finite(),
    ensures
        a.lt(b) <==> a.steps() < b.steps(),
{
    let (ma, mb) = (a.magnitude(), b.magnitude());
    lemma_steps_nonnegative(ma);
    lemma_steps_nonnegative(mb);
    if ma < mb {
        lemma_steps_increase(ma, mb);
    } else if mb < ma {
        lemma_steps_increase(mb, ma);
    }
}

} // verus!
