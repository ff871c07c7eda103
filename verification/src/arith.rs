//! Arithmetic on binary32 numbers by their bits: sums, products, quotients and remainders, each
//! rounded to nearest with ties to even, and the ways to a whole number.

use vstd::arithmetic::div_mod::*;
use vstd::arithmetic::mul::*;
use vstd::arithmetic::power2::*;
use vstd::prelude::*;

use crate::number::{law_rank_orders_values, magnitude_steps, INFINITY, Number, SIGN};
use crate::rounding::{
    cut_off, lemma_rounded_scales, lemma_rounded_stays_above, lemma_rounded_stays_below,
    lemma_scaled_is_exact, lemma_small_is_exact, lemma_spacing_divides, lemma_spacing_positive,
    lemma_spacing_range, nearest, power_of_two, round, rounded, size_of, spacing, spacing_of,
};

verus! {

/// The binary32 number nearest to `n / d` smallest steps, in smallest steps, and of two that are
/// equally near the even one. There is no largest number here.
pub open spec fn ratio(n: nat, d: nat) -> nat {
    let unit = spacing(n / d);
    let q = n / (unit * d);
    let r = n % (unit * d);
    if 2 * r < unit * d || (2 * r == unit * d && q % 2 == 0) {
        q * unit
    } else {
        (q + 1) * unit
    }
}

/// The bits of a number of so many smallest steps.
pub open spec fn bits_of(steps: nat) -> nat
    decreases steps,
{
    if steps < 0x100_0000 {
        steps
    } else {
        0x80_0000 + bits_of(steps / 2)
    }
}

/// The number of so many smallest steps, or an infinity where no finite number is so large.
pub open spec fn number_of(steps: nat, negative: bool) -> Number {
    with_sign(
        if bits_of(steps) > INFINITY {
            INFINITY as nat
        } else {
            bits_of(steps)
        },
        negative,
    )
}

/// What a computation with no result gives.
#[verifier::allow_in_spec]
pub fn not_a_number() -> Number
    returns
        (Number { bits: 0x7fc0_0000 }),
{
    Number { bits: 0x7fc0_0000 }
}

/// One.
#[verifier::allow_in_spec]
pub fn one() -> Number
    returns
        (Number { bits: 0x3f80_0000 }),
{
    Number { bits: 0x3f80_0000 }
}

impl Number {
    /// The size of a finite number, in smallest steps.
    pub open spec fn size(self) -> nat {
        magnitude_steps(self.magnitude()) as nat
    }

    /// An infinity.
    pub open spec fn is_infinite(self) -> bool {
        self.magnitude() == INFINITY
    }

    /// `self * other`.
    #[verifier::opaque]
    pub open spec fn product(self, other: Number) -> Number {
        let negative = self.negative() != other.negative();
        if !self.is_number() || !other.is_number() {
            not_a_number()
        } else if self.is_infinite() || other.is_infinite() {
            if self.is_zero_spec() || other.is_zero_spec() {
                not_a_number()
            } else {
                with_sign(INFINITY as nat, negative)
            }
        } else {
            number_of(ratio(self.size() * other.size(), pow2(149)), negative)
        }
    }

    /// `self / other`.
    #[verifier::opaque]
    pub open spec fn quotient(self, other: Number) -> Number {
        let negative = self.negative() != other.negative();
        if !self.is_number() || !other.is_number() {
            not_a_number()
        } else if self.is_infinite() {
            if other.is_infinite() {
                not_a_number()
            } else {
                with_sign(INFINITY as nat, negative)
            }
        } else if other.is_infinite() {
            with_sign(0, negative)
        } else if other.is_zero_spec() {
            if self.is_zero_spec() {
                not_a_number()
            } else {
                with_sign(INFINITY as nat, negative)
            }
        } else {
            number_of(ratio(self.size() * pow2(149), other.size()), negative)
        }
    }

    /// `self % other`: what is left of `self` once as many whole `other`s as fit are taken out, with
    /// the sign of `self`.
    #[verifier::opaque]
    pub open spec fn remainder(self, other: Number) -> Number {
        if !self.is_number() || !other.is_number() || self.is_infinite() || other.is_zero_spec() {
            not_a_number()
        } else if other.is_infinite() {
            self
        } else {
            number_of(self.size() % other.size(), self.negative())
        }
    }

    /// `self + other`. A sum that is exactly zero is positive, unless both are negative.
    #[verifier::opaque]
    pub open spec fn sum(self, other: Number) -> Number {
        if !self.is_number() || !other.is_number() {
            not_a_number()
        } else if self.is_infinite() {
            if other.is_infinite() && self.negative() != other.negative() {
                not_a_number()
            } else {
                self
            }
        } else if other.is_infinite() {
            other
        } else {
            let steps = self.steps() + other.steps();
            if steps == 0 {
                with_sign(0, self.negative() && other.negative())
            } else if steps < 0 {
                number_of(rounded((-steps) as nat), true)
            } else {
                number_of(rounded(steps as nat), false)
            }
        }
    }

    /// `-self`.
    pub open spec fn negated(self) -> Number {
        Number {
            bits: if self.negative() {
                (self.bits - SIGN) as u32
            } else {
                (self.bits + SIGN) as u32
            },
        }
    }

    /// `self - other`.
    pub open spec fn difference(self, other: Number) -> Number {
        self.sum(other.negated())
    }

    /// The largest whole number that is not above a finite number.
    #[verifier::opaque]
    pub open spec fn floored(self) -> int {
        if self.negative() {
            -((self.size() + pow2(149) - 1) / pow2(149) as int)
        } else {
            (self.size() / pow2(149)) as int
        }
    }

    /// The number, or zero where it is below zero or is not a number.
    pub open spec fn or_zero(self) -> Number {
        if !self.is_number() || self.lt(Number { bits: 0 }) {
            Number { bits: 0 }
        } else {
            self
        }
    }
}

/// A whole number as a binary32 number.
#[verifier::opaque]
pub open spec fn whole_number(n: nat) -> Number {
    number_of(rounded(n) * pow2(149), false)
}

/// A magnitude with a sign.
pub open spec fn with_sign(magnitude: nat, negative: bool) -> Number {
    Number {
        bits: (magnitude + if negative {
            SIGN as int
        } else {
            0
        }) as u32,
    }
}

fn signed(magnitude: u32, negative: bool) -> (n: Number)
    requires
        magnitude <= INFINITY,
    ensures
        n == with_sign(magnitude as nat, negative),
{
    if negative {
        Number { bits: magnitude + SIGN }
    } else {
        Number { bits: magnitude }
    }
}

/// A finite magnitude as a significand and a power of two.
pub(crate) fn split(magnitude: u32) -> (parts: (u32, u32))
    requires
        magnitude < INFINITY,
    ensures
        parts.0 < 0x100_0000,
        parts.1 < 254,
        parts.1 > 0 ==> parts.0 >= 0x80_0000,
        parts.1 == (if magnitude < 0x80_0000 {
            0
        } else {
            magnitude / 0x80_0000 - 1
        }),
        magnitude_steps(magnitude as int) == parts.0 * pow2(parts.1 as nat),
        parts.0 == 0 <==> magnitude == 0,
{
    let e: u32 = magnitude / 0x80_0000;
    let f: u32 = magnitude % 0x80_0000;
    proof {
        lemma2_to64();
        assert(f * pow2(0) == f);
    }
    if e == 0 {
        (f, 0)
    } else {
        (0x80_0000 + f, e - 1)
    }
}

/// Doubling a number adds one to its exponent.
proof fn lemma_bits_double(steps: nat, k: nat)
    requires
        steps >= 0x80_0000,
    ensures
        bits_of(steps * pow2(k)) == bits_of(steps) + 0x80_0000 * k,
        steps * pow2(k) >= 0x80_0000,
    decreases k,
{
    if k == 0 {
        lemma2_to64();
        assert(steps * pow2(0) == steps);
    } else {
        let less = (k - 1) as nat;
        lemma_bits_double(steps, less);
        lemma_pow2_unfold(k);
        let half = steps * pow2(less);
        assert(steps * pow2(k) == 2 * half) by (nonlinear_arith)
            requires
                pow2(k) == 2 * pow2(less),
                half == steps * pow2(less),
        ;
        assert((2 * half) / 2 == half);
    }
}

/// The bits of a number. See [`bits_of`].
fn bits(steps: u128) -> (b: u64)
    ensures
        b == bits_of(steps as nat),
        b < 0x8000_0000,
{
    let mut v: u128 = steps;
    let mut b: u64 = 0;
    proof {
        lemma2_to64();
        lemma_pow2_adds(64, 64);
        lemma_bits_bound(steps as nat, 128);
    }
    while v >= 0x100_0000
        invariant
            bits_of(steps as nat) == b + bits_of(v as nat),
            bits_of(steps as nat) <= 0x80_0000 * 129,
        decreases v,
    {
        v = v / 2;
        b = b + 0x80_0000;
    }
    b + v as u64
}

pub proof fn lemma_bits_bound(steps: nat, k: nat)
    requires
        steps < pow2(k),
        k >= 23,
    ensures
        bits_of(steps) <= 0x80_0000 * (k + 1),
    decreases k,
{
    lemma2_to64();
    if steps >= 0x100_0000 {
        if k <= 24 {
            if k < 24 {
                lemma_pow2_strictly_increases(k, 24);
            }
        } else {
            lemma_pow2_unfold(k);
            lemma_bits_bound(steps / 2, (k - 1) as nat);
        }
    }
}

/// The number of `v` times two to the power of `k` smallest steps. See [`number_of`].
fn join(v: u128, k: u32, negative: bool) -> (n: Number)
    requires
        k < 1000,
    ensures
        n == number_of((v * pow2(k as nat)) as nat, negative),
{
    let mut v: u128 = v;
    let mut k: u32 = k;
    let ghost steps = (v * pow2(k as nat)) as nat;
    while k > 0 && v < 0x80_0000
        invariant
            k < 1000,
            steps == v * pow2(k as nat),
        decreases k,
    {
        proof {
            lemma_pow2_unfold(k as nat);
            assert((2 * v) * pow2((k - 1) as nat) == v * pow2(k as nat)) by (nonlinear_arith)
                requires
                    pow2(k as nat) == 2 * pow2((k - 1) as nat),
            ;
        }
        v = v * 2;
        k = k - 1;
    }
    let b: u64 = bits(v);
    proof {
        if k > 0 {
            lemma_bits_double(v as nat, k as nat);
        } else {
            lemma2_to64();
            assert(v * pow2(0) == v);
        }
    }
    let magnitude: u64 = b + 0x80_0000 * k as u64;
    assert(magnitude == bits_of(steps));
    if magnitude > INFINITY as u64 {
        signed(INFINITY, negative)
    } else {
        signed(magnitude as u32, negative)
    }
}

/// Scaling both sides of a division scales what is left over.
pub proof fn lemma_scaled_division(n: int, u: int, k: int)
    requires
        0 <= n,
        0 < u,
        0 < k,
    ensures
        0 < u * k,
        (n * k) / (u * k) == n / u,
        (n * k) % (u * k) == (n % u) * k,
{
    let (q, r) = (n / u, n % u);
    lemma_fundamental_div_mod(n, u);
    lemma_mod_bound(n, u);
    assert(0 < u * k) by (nonlinear_arith)
        requires
            0 < u,
            0 < k,
    ;
    assert(n * k == (u * k) * q + r * k) by (nonlinear_arith)
        requires
            n == u * q + r,
    ;
    assert(0 <= r * k < u * k) by (nonlinear_arith)
        requires
            0 <= r < u,
            0 < k,
    ;
    lemma_fundamental_div_mod_converse(n * k, u * k, q, r * k);
}

/// A factor of both sides of a ratio cancels.
pub proof fn lemma_ratio_cancels(n: nat, d: nat, k: nat)
    requires
        0 < d,
        0 < k,
    ensures
        ratio(n * k, d * k) == ratio(n, d),
{
    let unit = spacing(n / d);
    lemma_scaled_division(n as int, d as int, k as int);
    assert((n * k) as nat / (d * k) as nat == n / d);
    lemma_spacing_positive(n / d);
    let u = unit * d;
    assert(0 < u) by (nonlinear_arith)
        requires
            u == unit * d,
            0 < unit,
            0 < d,
    ;
    assert(unit * (d * k) == u * k) by (nonlinear_arith)
        requires
            u == unit * d,
    ;
    lemma_scaled_division(n as int, u as int, k as int);
    let r = n as int % u as int;
    assert(2 * (r * k) < u * k <==> 2 * r < u) by (nonlinear_arith)
        requires
            0 < k,
    ;
    assert(2 * (r * k) == u * k <==> 2 * r == u) by (nonlinear_arith)
        requires
            0 < k,
    ;
}

/// Twice a ratio that fills the significand is twice its number.
proof fn lemma_ratio_doubles(n: nat, d: nat)
    requires
        0 < d,
        n / d >= 0x80_0000,
    ensures
        ratio(2 * n, d) == 2 * ratio(n, d),
        (2 * n) / d >= 0x80_0000,
{
    let unit = spacing(n / d);
    let twice = (2 * n) / d;
    lemma_spacing_positive(n / d);
    lemma_scaled_division(n as int, d as int, 2);
    lemma_div_denominator(2 * n as int, d as int, 2);
    assert(twice as int / 2 == n as int / d as int);
    assert(twice >= 0x100_0000);
    assert(spacing(twice) == 2 * unit);
    let u = unit * d;
    assert(0 < u) by (nonlinear_arith)
        requires
            u == unit * d,
            0 < unit,
            0 < d,
    ;
    assert((2 * unit) * d == u * 2) by (nonlinear_arith)
        requires
            u == unit * d,
    ;
    lemma_scaled_division(n as int, u as int, 2);
    let q = n as int / u as int;
    assert(q * (2 * unit) == 2 * (q * unit)) by (nonlinear_arith);
    assert((q + 1) * (2 * unit) == 2 * ((q + 1) * unit)) by (nonlinear_arith);
}

/// A ratio that fills the significand is the same number at every scale.
proof fn lemma_ratio_scales(n: nat, d: nat, k: nat)
    requires
        0 < d,
        n / d >= 0x80_0000,
    ensures
        ratio(n * pow2(k), d) == ratio(n, d) * pow2(k),
        (n * pow2(k)) as nat / d >= 0x80_0000,
    decreases k,
{
    if k == 0 {
        lemma2_to64();
        assert(n * pow2(0) == n && ratio(n, d) * pow2(0) == ratio(n, d));
    } else {
        let less = (k - 1) as nat;
        lemma_ratio_scales(n, d, less);
        lemma_pow2_unfold(k);
        let big = n * pow2(less);
        lemma_ratio_doubles(big, d);
        assert(n * pow2(k) == 2 * big) by (nonlinear_arith)
            requires
                pow2(k) == 2 * pow2(less),
                big == n * pow2(less),
        ;
        assert(ratio(n, d) * pow2(k) == 2 * (ratio(n, d) * pow2(less))) by (nonlinear_arith)
            requires
                pow2(k) == 2 * pow2(less),
        ;
    }
}

/// Less than half of a smallest step is nothing.
pub proof fn lemma_ratio_vanishes(n: nat, d: nat)
    requires
        2 * n < d,
    ensures
        ratio(n, d) == 0,
{
    lemma_basic_div(n as int, d as int);
    lemma_small_mod(n, d);
    assert(spacing(0) == 1);
    assert(1 * d == d);
}

/// The nearest number to a ratio. See [`ratio`].
fn nearest_ratio(n: u128, d: u128) -> (steps: u128)
    requires
        1 <= d,
        n < 0x1000_0000_0000_0000_0000_0000_0000,
    ensures
        steps == ratio(n as nat, d as nat),
{
    let whole: u128 = n / d;
    assert(whole <= n) by (nonlinear_arith)
        requires
            whole == n / d,
            d >= 1,
    ;
    let (unit, _): (u128, u128) = spacing_of(whole);
    proof {
        lemma_fundamental_div_mod(n as int, d as int);
        lemma_mod_bound(n as int, d as int);
        if unit <= whole {
            assert(unit * d <= n) by (nonlinear_arith)
                requires
                    unit <= whole,
                    n == d * whole + n as int % d as int,
                    n as int % d as int >= 0,
                    d >= 1,
            ;
        } else {
            assert(1 * d == d);
        }
        assert(unit * d >= 1) by (nonlinear_arith)
            requires
                unit >= 1,
                d >= 1,
        ;
    }
    let u: u128 = unit * d;
    let q: u128 = n / u;
    let r: u128 = n % u;
    proof {
        lemma_fundamental_div_mod(n as int, u as int);
        assert(q * unit <= n) by (nonlinear_arith)
            requires
                n == u * q + r,
                r >= 0,
                u == unit * d,
                d >= 1,
                q >= 0,
                unit >= 0,
        ;
        assert((q + 1) * unit == q * unit + unit) by (nonlinear_arith);
    }
    if r < u - r || (r == u - r && q % 2 == 0) {
        q * unit
    } else {
        (q + 1) * unit
    }
}

proof fn lemma_regroup(a: int, x: int, b: int, y: int)
    ensures
        (a * x) * (b * y) == (a * b) * (x * y),
{
    assert((a * x) * (b * y) == (a * b) * (x * y)) by (nonlinear_arith);
}

/// The product of two finite magnitudes.
fn multiply(a: u32, b: u32, negative: bool) -> (n: Number)
    requires
        a < INFINITY,
        b < INFINITY,
    ensures
        n == number_of(
            ratio(
                (magnitude_steps(a as int) * magnitude_steps(b as int)) as nat,
                pow2(149),
            ),
            negative,
        ),
{
    let (m, j): (u32, u32) = split(a);
    let (w, k): (u32, u32) = split(b);
    assert(m * w < 0x1_0000_0000_0000) by (nonlinear_arith)
        requires
            m < 0x100_0000,
            w < 0x100_0000,
    ;
    let p: u128 = m as u128 * w as u128;
    let e: u32 = j + k;
    let ghost exact = (magnitude_steps(a as int) * magnitude_steps(b as int)) as nat;
    proof {
        lemma_regroup(m as int, pow2(j as nat) as int, w as int, pow2(k as nat) as int);
        lemma_pow2_adds(j as nat, k as nat);
        lemma_pow2_pos(149);
        lemma_pow2_pos(e as nat);
        assert(exact == p * pow2(e as nat));
    }
    if p == 0 {
        proof {
            assert(0 * pow2(e as nat) == 0);
            lemma_ratio_vanishes(0, pow2(149));
            assert(0 * pow2(0) == 0);
        }
        return join(0, 0, negative);
    }
    if e < 149 {
        let down: u32 = 149 - e;
        proof {
            lemma_pow2_adds(e as nat, down as nat);
            lemma_pow2_pos(down as nat);
            lemma_mul_is_commutative(pow2(e as nat) as int, pow2(down as nat) as int);
            lemma_ratio_cancels(p as nat, pow2(down as nat), pow2(e as nat));
        }
        if down > 80 {
            proof {
                lemma2_to64_rest();
                lemma_pow2_strictly_increases(49, down as nat);
                lemma_ratio_vanishes(p as nat, pow2(down as nat));
                lemma2_to64();
                assert(0 * pow2(0) == 0);
            }
            return join(0, 0, negative);
        }
        let steps: u128 = nearest_ratio(p, power_of_two(down));
        proof {
            lemma2_to64();
            assert(steps * pow2(0) == steps);
        }
        return join(steps, 0, negative);
    }
    let up: u32 = e - 149;
    proof {
        lemma_pow2_adds(up as nat, 149);
        assert(p * pow2(e as nat) == (p * pow2(up as nat)) * pow2(149)) by (nonlinear_arith)
            requires
                pow2(e as nat) == pow2(up as nat) * pow2(149),
        ;
        lemma_ratio_cancels((p * pow2(up as nat)) as nat, 1, pow2(149));
        assert(1 * pow2(149) == pow2(149));
    }
    let first: u32 = if up < 24 {
        up
    } else {
        24
    };
    let d: u128 = power_of_two(first);
    proof {
        lemma2_to64();
        if first < 24 {
            lemma_pow2_strictly_increases(first as nat, 24);
        }
        assert(p * d < 0x100_0000_0000_0000_0000) by (nonlinear_arith)
            requires
                p < 0x1_0000_0000_0000,
                d <= 0x100_0000,
        ;
    }
    let start: u128 = p * d;
    let steps: u128 = nearest_ratio(start, 1);
    let rest: u32 = up - first;
    proof {
        lemma_pow2_adds(first as nat, rest as nat);
        assert(p * pow2(up as nat) == start * pow2(rest as nat)) by (nonlinear_arith)
            requires
                pow2(up as nat) == pow2(first as nat) * pow2(rest as nat),
                start == p * pow2(first as nat),
        ;
        if rest > 0 {
            assert(start >= 0x100_0000) by (nonlinear_arith)
                requires
                    start == p * d,
                    p >= 1,
                    d == 0x100_0000,
            ;
            lemma_div_basics(start as int);
            lemma_ratio_scales(start as nat, 1, rest as nat);
        } else {
            assert(start * pow2(0) == start && steps * pow2(0) == steps);
        }
    }
    join(steps, rest, negative)
}

/// The quotient of two finite magnitudes.
fn divide(a: u32, b: u32, negative: bool) -> (n: Number)
    requires
        a < INFINITY,
        0 < b < INFINITY,
    ensures
        n == number_of(
            ratio(
                (magnitude_steps(a as int) * pow2(149)) as nat,
                magnitude_steps(b as int) as nat,
            ),
            negative,
        ),
{
    let (m, j): (u32, u32) = split(a);
    let (w, k): (u32, u32) = split(b);
    let ghost over = (magnitude_steps(a as int) * pow2(149)) as nat;
    let ghost under = magnitude_steps(b as int) as nat;
    let e: u32 = j + 149;
    proof {
        lemma_pow2_adds(j as nat, 149);
        lemma_pow2_pos(e as nat);
        lemma_pow2_pos(k as nat);
        assert(over == m * pow2(e as nat)) by (nonlinear_arith)
            requires
                over == (m * pow2(j as nat)) * pow2(149),
                pow2(e as nat) == pow2(j as nat) * pow2(149),
        ;
        assert(under == w * pow2(k as nat));
        assert(under > 0) by (nonlinear_arith)
            requires
                under == w * pow2(k as nat),
                w > 0,
                pow2(k as nat) > 0,
        ;
    }
    if m == 0 {
        proof {
            assert(0 * pow2(e as nat) == 0);
            lemma_ratio_vanishes(0, under);
            lemma2_to64();
            assert(0 * pow2(0) == 0);
        }
        return join(0, 0, negative);
    }
    if e < k {
        let down: u32 = k - e;
        proof {
            lemma_pow2_adds(e as nat, down as nat);
            lemma_pow2_pos(down as nat);
            assert(w * pow2(k as nat) == (w * pow2(down as nat)) * pow2(e as nat))
                by (nonlinear_arith)
                requires
                    pow2(k as nat) == pow2(e as nat) * pow2(down as nat),
            ;
            assert(w * pow2(down as nat) >= pow2(down as nat)) by (nonlinear_arith)
                requires
                    w >= 1,
                    pow2(down as nat) > 0,
            ;
            lemma_ratio_cancels(m as nat, (w * pow2(down as nat)) as nat, pow2(e as nat));
        }
        if down > 60 {
            proof {
                lemma2_to64();
                lemma_pow2_strictly_increases(25, down as nat);
                lemma_ratio_vanishes(m as nat, (w * pow2(down as nat)) as nat);
                assert(0 * pow2(0) == 0);
            }
            return join(0, 0, negative);
        }
        let d: u128 = power_of_two(down);
        proof {
            lemma2_to64_rest();
            if down < 60 {
                lemma_pow2_strictly_increases(down as nat, 60);
            }
            assert(w * d < 0x1000_0000_0000_0000_0000_0000) by (nonlinear_arith)
                requires
                    w < 0x100_0000,
                    d <= 0x1000_0000_0000_0000,
            ;
        }
        let steps: u128 = nearest_ratio(m as u128, w as u128 * d);
        proof {
            lemma2_to64();
            assert(steps * pow2(0) == steps);
        }
        return join(steps, 0, negative);
    }
    let up: u32 = e - k;
    proof {
        lemma_pow2_adds(up as nat, k as nat);
        assert(m * pow2(e as nat) == (m * pow2(up as nat)) * pow2(k as nat)) by (nonlinear_arith)
            requires
                pow2(e as nat) == pow2(up as nat) * pow2(k as nat),
        ;
        lemma_ratio_cancels((m * pow2(up as nat)) as nat, w as nat, pow2(k as nat));
    }
    let first: u32 = if up < 60 {
        up
    } else {
        60
    };
    let d: u128 = power_of_two(first);
    proof {
        lemma2_to64_rest();
        if first < 60 {
            lemma_pow2_strictly_increases(first as nat, 60);
        }
        assert(m * d < 0x1000_0000_0000_0000_0000_0000) by (nonlinear_arith)
            requires
                m < 0x100_0000,
                d <= 0x1000_0000_0000_0000,
        ;
    }
    let start: u128 = m as u128 * d;
    let steps: u128 = nearest_ratio(start, w as u128);
    let rest: u32 = up - first;
    proof {
        lemma_pow2_adds(first as nat, rest as nat);
        assert(m * pow2(up as nat) == start * pow2(rest as nat)) by (nonlinear_arith)
            requires
                pow2(up as nat) == pow2(first as nat) * pow2(rest as nat),
                start == m * pow2(first as nat),
        ;
        if rest > 0 {
            assert(start as int / w as int >= 0x80_0000) by (nonlinear_arith)
                requires
                    start == m * d,
                    m >= 1,
                    d == 0x1000_0000_0000_0000,
                    0 < w < 0x100_0000,
            ;
            lemma_ratio_scales(start as nat, w as nat, rest as nat);
        } else {
            lemma2_to64();
            assert(start * pow2(0) == start && steps * pow2(0) == steps);
        }
    }
    join(steps, rest, negative)
}

/// `m` times two to the power of `up`, less as many whole `w`s as fit.
fn shifted_remainder(m: u32, up: u32, w: u32) -> (r: u32)
    requires
        0 < w < 0x100_0000,
    ensures
        r == (m * pow2(up as nat)) % w as int,
        r < w,
{
    let mut r: u32 = m % w;
    let mut i: u32 = 0;
    proof {
        lemma2_to64();
        assert(m * pow2(0) == m);
    }
    while i < up
        invariant
            i <= up,
            0 < w < 0x100_0000,
            r < w,
            r == (m * pow2(i as nat)) % w as int,
        decreases up - i,
    {
        proof {
            let so_far = m * pow2(i as nat);
            lemma_pow2_unfold((i + 1) as nat);
            assert(m * pow2((i + 1) as nat) == 2 * so_far) by (nonlinear_arith)
                requires
                    pow2((i + 1) as nat) == 2 * pow2(i as nat),
                    so_far == m * pow2(i as nat),
            ;
            lemma_mul_mod_noop_right(2, so_far, w as int);
        }
        r = (2 * r) % w;
        i = i + 1;
    }
    r
}

/// What is left of one finite magnitude once as many whole others as fit are taken out.
fn leave(a: u32, b: u32, negative: bool) -> (n: Number)
    requires
        a < INFINITY,
        0 < b < INFINITY,
    ensures
        n == number_of(
            magnitude_steps(a as int) as nat % magnitude_steps(b as int) as nat,
            negative,
        ),
{
    let (m, j): (u32, u32) = split(a);
    let (w, k): (u32, u32) = split(b);
    proof {
        lemma_pow2_pos(j as nat);
        lemma_pow2_pos(k as nat);
    }
    if j >= k {
        let up: u32 = j - k;
        proof {
            lemma_pow2_adds(up as nat, k as nat);
            lemma_pow2_pos(up as nat);
            assert(m * pow2(j as nat) == (m * pow2(up as nat)) * pow2(k as nat))
                by (nonlinear_arith)
                requires
                    pow2(j as nat) == pow2(up as nat) * pow2(k as nat),
            ;
            assert(0 <= m * pow2(up as nat)) by (nonlinear_arith);
            lemma_scaled_division(m * pow2(up as nat), w as int, pow2(k as nat) as int);
        }
        let r: u32 = shifted_remainder(m, up, w);
        return join(r as u128, k, negative);
    }
    let down: u32 = k - j;
    proof {
        lemma_pow2_adds(down as nat, j as nat);
        lemma_pow2_pos(down as nat);
        assert(w * pow2(k as nat) == (w * pow2(down as nat)) * pow2(j as nat)) by (nonlinear_arith)
            requires
                pow2(k as nat) == pow2(down as nat) * pow2(j as nat),
        ;
        assert(w * pow2(down as nat) > 0) by (nonlinear_arith)
            requires
                w > 0,
                pow2(down as nat) > 0,
        ;
        lemma_scaled_division(m as int, w * pow2(down as nat), pow2(j as nat) as int);
    }
    if down >= 2 {
        proof {
            lemma2_to64();
            if down > 2 {
                lemma_pow2_strictly_increases(2, down as nat);
            }
            assert(w * pow2(down as nat) > m) by (nonlinear_arith)
                requires
                    w >= 0x80_0000,
                    pow2(down as nat) >= 4,
                    m < 0x100_0000,
            ;
            lemma_small_mod(m as nat, (w * pow2(down as nat)) as nat);
        }
        return join(m as u128, j, negative);
    }
    proof {
        lemma2_to64();
        assert(w * pow2(1) == 2 * w);
    }
    let r: u32 = m % (2 * w);
    join(r as u128, j, negative)
}

impl Number {
    fn size_bits(self) -> (magnitude: u32)
        ensures
            magnitude == self.magnitude(),
    {
        if self.bits >= SIGN {
            self.bits - SIGN
        } else {
            self.bits
        }
    }

    /// `self * other`.
    pub fn times(self, other: Number) -> (out: Number)
        ensures
            out == self.product(other),
    {
        proof {
            reveal(Number::product);
        }
        let negative: bool = (self.bits >= SIGN) != (other.bits >= SIGN);
        let (a, b): (u32, u32) = (self.size_bits(), other.size_bits());
        if a > INFINITY || b > INFINITY {
            not_a_number()
        } else if a == INFINITY || b == INFINITY {
            if a == 0 || b == 0 {
                not_a_number()
            } else {
                signed(INFINITY, negative)
            }
        } else {
            proof {
                lemma_steps_are_sizes(self);
                lemma_steps_are_sizes(other);
            }
            multiply(a, b, negative)
        }
    }

    /// `self / other`.
    pub fn over(self, other: Number) -> (out: Number)
        ensures
            out == self.quotient(other),
    {
        proof {
            reveal(Number::quotient);
        }
        let negative: bool = (self.bits >= SIGN) != (other.bits >= SIGN);
        let (a, b): (u32, u32) = (self.size_bits(), other.size_bits());
        if a > INFINITY || b > INFINITY {
            not_a_number()
        } else if a == INFINITY {
            if b == INFINITY {
                not_a_number()
            } else {
                signed(INFINITY, negative)
            }
        } else if b == INFINITY {
            signed(0, negative)
        } else if b == 0 {
            if a == 0 {
                not_a_number()
            } else {
                signed(INFINITY, negative)
            }
        } else {
            proof {
                lemma_steps_are_sizes(self);
                lemma_steps_are_sizes(other);
            }
            divide(a, b, negative)
        }
    }

    /// `self % other`.
    pub fn rest(self, other: Number) -> (out: Number)
        ensures
            out == self.remainder(other),
    {
        proof {
            reveal(Number::remainder);
        }
        let (a, b): (u32, u32) = (self.size_bits(), other.size_bits());
        if a > INFINITY || b > INFINITY || a == INFINITY || b == 0 {
            not_a_number()
        } else if b == INFINITY {
            self
        } else {
            leave(a, b, self.bits >= SIGN)
        }
    }

    /// `self.max(0)`.
    pub fn max_zero(self) -> (out: Number)
        ensures
            out == self.or_zero(),
    {
        let zero: Number = Number { bits: 0 };
        if self.is_nan() || self.less(zero) {
            zero
        } else {
            self
        }
    }

    /// The largest whole number that is not above a finite number, as far as 64 bits reach.
    pub fn floor(self) -> (n: i64)
        requires
            self.is_finite(),
        ensures
            n == (if self.floored() > i64::MAX {
                i64::MAX as int
            } else if self.floored() < i64::MIN {
                i64::MIN as int
            } else {
                self.floored()
            }),
    {
        proof {
            reveal(Number::floored);
        }
        let (m, k): (u32, u32) = split(self.size_bits());
        let negative: bool = self.bits >= SIGN;
        let ghost one = pow2(149) as int;
        proof {
            lemma_steps_are_sizes(self);
            lemma_pow2_pos(149);
            lemma2_to64();
        }
        if k >= 149 {
            let up: u32 = k - 149;
            let ghost whole = m * pow2(up as nat);
            proof {
                lemma_pow2_adds(up as nat, 149);
                assert(m * pow2(k as nat) == whole * one) by (nonlinear_arith)
                    requires
                        pow2(k as nat) == pow2(up as nat) * one,
                        whole == m * pow2(up as nat),
                ;
                assert((whole * one) / one == whole && (whole * one + one - 1) / one == whole)
                    by (nonlinear_arith)
                    requires
                        one > 0,
                ;
            }
            if up >= 41 {
                proof {
                    lemma2_to64_rest();
                    if up > 41 {
                        lemma_pow2_strictly_increases(41, up as nat);
                    }
                    assert(whole >= 0x1_0000_0000_0000_0000) by (nonlinear_arith)
                        requires
                            whole == m * pow2(up as nat),
                            m >= 0x80_0000,
                            pow2(up as nat) >= 0x200_0000_0000,
                    ;
                }
                if negative {
                    return i64::MIN;
                } else {
                    return i64::MAX;
                }
            }
            let d: u128 = power_of_two(up);
            proof {
                lemma2_to64_rest();
                lemma_pow2_strictly_increases(up as nat, 41);
                assert(m * d < 0x2_0000_0000_0000_0000) by (nonlinear_arith)
                    requires
                        m < 0x100_0000,
                        d < 0x200_0000_0000,
                ;
            }
            let whole: i128 = (m as u128 * d) as i128;
            if negative {
                return clip(-whole);
            } else {
                return clip(whole);
            }
        }
        let down: u32 = 149 - k;
        let ghost part = pow2(down as nat) as int;
        proof {
            lemma_pow2_adds(k as nat, down as nat);
            lemma_pow2_pos(k as nat);
            lemma_pow2_pos(down as nat);
            lemma_floor_of_parts(m as int, pow2(k as nat) as int, part);
        }
        if down >= 24 {
            proof {
                if down > 24 {
                    lemma_pow2_strictly_increases(24, down as nat);
                }
                lemma_basic_div(m as int, part);
                if m == 0 {
                    lemma_basic_div(part - 1, part);
                } else {
                    lemma_fundamental_div_mod_converse(m + part - 1, part, 1, m - 1);
                }
            }
            if negative && m > 0 {
                return -1;
            } else {
                return 0;
            }
        }
        let d: u128 = power_of_two(down);
        proof {
            lemma_pow2_strictly_increases(down as nat, 24);
            assert(0 <= m as int / part <= m && 0 <= (m + part - 1) / part <= m + part)
                by (nonlinear_arith)
                requires
                    part >= 1,
                    m >= 0,
            ;
        }
        if negative {
            -(((m as u128 + d - 1) / d) as i64)
        } else {
            (m as u128 / d) as i64
        }
    }
}

fn clip(n: i128) -> (out: i64)
    ensures
        out == (if n > i64::MAX {
            i64::MAX as int
        } else if n < i64::MIN {
            i64::MIN as int
        } else {
            n as int
        }),
{
    if n > i64::MAX as i128 {
        i64::MAX
    } else if n < i64::MIN as i128 {
        i64::MIN
    } else {
        n as i64
    }
}

proof fn lemma_floor_of_parts(m: int, a: int, part: int)
    requires
        0 <= m,
        0 < a,
        0 < part,
    ensures
        (m * a) / (a * part) == m / part,
        (m * a + a * part - 1) / (a * part) == (m + part - 1) / part,
{
    lemma_scaled_division(m, part, a);
    lemma_mul_is_commutative(a, part);
    let q = (m + part - 1) / part;
    let r = (m + part - 1) % part;
    lemma_fundamental_div_mod(m + part - 1, part);
    lemma_mod_bound(m + part - 1, part);
    assert(m * a + a * part - 1 == (a * part) * q + (r * a + a - 1)) by (nonlinear_arith)
        requires
            m + part - 1 == part * q + r,
    ;
    assert(0 <= r * a + a - 1 < a * part) by (nonlinear_arith)
        requires
            0 <= r < part,
            0 < a,
    ;
    lemma_fundamental_div_mod_converse(
        m * a + a * part - 1,
        a * part,
        q,
        r * a + a - 1,
    );
}

pub proof fn lemma_steps_are_sizes(n: Number)
    requires
        n.is_finite(),
    ensures
        magnitude_steps(n.magnitude()) >= 0,
        n.size() == magnitude_steps(n.magnitude()),
{
    crate::number::lemma_steps_nonnegative(n.magnitude());
}

/// A 32-bit word as a fraction of all of them, from 0 up to 1.
#[verifier::opaque]
pub open spec fn fraction(word: u32) -> Number {
    number_of(rounded(word as nat) * pow2(117), false)
}

/// A word as a fraction. See [`fraction`].
pub fn fraction_of(word: u32) -> (out: Number)
    ensures
        out == fraction(word),
{
    proof {
        reveal(fraction);
    }
    let v: u128 = round(word as u128);
    join(v, 117, false)
}

/// A whole number as a binary32 number.
pub fn from_whole(n: u64) -> (out: Number)
    ensures
        out == whole_number(n as nat),
{
    proof {
        reveal(whole_number);
    }
    let v: u128 = round(n as u128);
    proof {
        lemma_pow2_pos(149);
    }
    join(v, 149, false)
}

/// A signed whole number as a binary32 number.
pub open spec fn signed_number(n: int) -> Number {
    if n < 0 {
        whole_number((-n) as nat).negated()
    } else {
        whole_number(n as nat)
    }
}

/// A signed whole number as a binary32 number. See [`signed_number`].
pub fn from_signed(n: i64) -> (out: Number)
    ensures
        out == signed_number(n as int),
{
    if n < 0 {
        from_whole((-(n as i128)) as u64).minus_self()
    } else {
        from_whole(n as u64)
    }
}

/// The spacing round `m` times two to the power of `d`, and a little above it.
proof fn lemma_spacing_at(m: nat, d: nat, r: nat)
    requires
        0x80_0000 <= m < 0x100_0000,
        r < pow2(d),
    ensures
        spacing((m * pow2(d) + r) as nat) == pow2(d),
        (m * pow2(d) + r) / pow2(d) == m,
        (m * pow2(d) + r) % pow2(d) == r,
    decreases d,
{
    let n = (m * pow2(d) + r) as nat;
    lemma_pow2_pos(d);
    lemma2_to64();
    lemma_mul_is_commutative(m as int, pow2(d) as int);
    lemma_fundamental_div_mod_converse(n as int, pow2(d) as int, m as int, r as int);
    if d == 0 {
        assert(m * 1 == m);
        assert(n == m);
    } else {
        let less = (d - 1) as nat;
        lemma_pow2_unfold(d);
        lemma_pow2_pos(less);
        assert(n == 2 * (m * pow2(less)) + r) by (nonlinear_arith)
            requires
                n == m * pow2(d) + r,
                pow2(d) == 2 * pow2(less),
        ;
        assert(n / 2 == m * pow2(less) + r / 2);
        assert(m * pow2(less) >= 0x80_0000) by (nonlinear_arith)
            requires
                m >= 0x80_0000,
                pow2(less) >= 1,
        ;
        lemma_spacing_at(m, less, r / 2);
    }
}

/// What is far below the last place of a number does not change it.
proof fn lemma_far_apart(m: nat, d: nat, w: nat)
    requires
        0x80_0000 <= m < 0x100_0000,
        w < 0x100_0000,
        d >= 40,
    ensures
        rounded((m * pow2(d) + w) as nat) == m * pow2(d),
        m * pow2(d) - w >= 0x80_0000,
        rounded((m * pow2(d) - w) as nat) == m * pow2(d),
{
    lemma2_to64_rest();
    if d > 40 {
        lemma_pow2_strictly_increases(40, d);
    }
    let one = pow2(d) as int;
    lemma_spacing_at(m, d, w);
    assert(m * one >= 0x80_0000 * one) by (nonlinear_arith)
        requires
            m >= 0x80_0000,
            one > 0,
    ;
    if w == 0 {
    } else if m > 0x80_0000 {
        let r = (one - w) as nat;
        assert(m * one - w == (m - 1) * one + r) by (nonlinear_arith)
            requires
                r == one - w,
        ;
        lemma_spacing_at((m - 1) as nat, d, r);
        assert((m - 1 + 1) * one == m * one);
    } else {
        let less = (d - 1) as nat;
        let half = pow2(less) as int;
        lemma_pow2_unfold(d);
        let r = (half - w) as nat;
        let n = (m * one - w) as nat;
        assert(m == 0x80_0000 && one == 2 * half);
        assert(m * one == 0x80_0000 * one);
        assert(n == 0xff_ffff * half + r);
        lemma_spacing_at(0xff_ffff, less, r);
        assert(spacing(n) == half);
        assert((0xff_ffff + 1) * half == 0x100_0000 * half);
    }
}

/// `t` times two to the power of `k` smallest steps, as a number.
fn rounded_join(t: u128, k: u32, negative: bool) -> (n: Number)
    requires
        k < 1000,
        t < 0x1000_0000_0000_0000_0000_0000,
    ensures
        n == number_of(rounded((t * pow2(k as nat)) as nat), negative),
{
    let v: u128 = round(t);
    proof {
        if t < 0x100_0000 {
            lemma_scaled_is_exact(t as nat, k as nat);
            lemma_small_is_exact(t as nat);
        } else {
            lemma_rounded_scales(t as nat, k as nat);
        }
    }
    join(v, k, negative)
}

/// The sum, or with `apart` the difference, of a finite magnitude and one that is no larger.
fn combine(a: u32, b: u32, apart: bool, negative: bool) -> (n: Number)
    requires
        b <= a < INFINITY,
    ensures
        ({
            let (x, y) = (magnitude_steps(a as int), magnitude_steps(b as int));
            &&& 0 <= y <= x
            &&& n == number_of(
                rounded(
                    (if apart {
                        x - y
                    } else {
                        x + y
                    }) as nat,
                ),
                negative,
            )
        }),
{
    let (m, j): (u32, u32) = split(a);
    let (w, k): (u32, u32) = split(b);
    let ghost (x, y) = (magnitude_steps(a as int), magnitude_steps(b as int));
    proof {
        crate::number::lemma_steps_nonnegative(b as int);
        if b < a {
            crate::number::lemma_steps_increase(b as int, a as int);
        }
        lemma_pow2_pos(j as nat);
        lemma_pow2_pos(k as nat);
    }
    let up: u32 = j - k;
    proof {
        lemma_pow2_adds(up as nat, k as nat);
        assert(x == (m * pow2(up as nat)) * pow2(k as nat)) by (nonlinear_arith)
            requires
                x == m * pow2(j as nat),
                pow2(j as nat) == pow2(up as nat) * pow2(k as nat),
        ;
    }
    let ghost top = m * pow2(up as nat);
    proof {
        assert(x + y == (top + w) * pow2(k as nat)) by (nonlinear_arith)
            requires
                x == top * pow2(k as nat),
                y == w * pow2(k as nat),
        ;
        assert(x - y == (top - w) * pow2(k as nat)) by (nonlinear_arith)
            requires
                x == top * pow2(k as nat),
                y == w * pow2(k as nat),
        ;
    }
    if up >= 60 {
        proof {
            lemma_far_apart(m as nat, up as nat, w as nat);
            lemma_rounded_scales((top + w) as nat, k as nat);
            lemma_rounded_scales((top - w) as nat, k as nat);
        }
        return join(m as u128, j, negative);
    }
    let d: u128 = power_of_two(up);
    proof {
        lemma2_to64_rest();
        lemma_pow2_strictly_increases(up as nat, 60);
        assert(m * d < 0x100_0000_0000_0000_0000_0000) by (nonlinear_arith)
            requires
                m < 0x100_0000,
                d < 0x1000_0000_0000_0000,
        ;
        assert(top >= w) by (nonlinear_arith)
            requires
                top * pow2(k as nat) >= w * pow2(k as nat),
                pow2(k as nat) > 0,
        ;
    }
    let whole: u128 = m as u128 * d;
    if apart {
        rounded_join(whole - w as u128, k, negative)
    } else {
        rounded_join(whole + w as u128, k, negative)
    }
}

impl Number {
    /// `self + other`.
    pub fn plus(self, other: Number) -> (out: Number)
        ensures
            out == self.sum(other),
    {
        proof {
            reveal(Number::sum);
        }
        let (a, b): (u32, u32) = (self.size_bits(), other.size_bits());
        if a > INFINITY || b > INFINITY {
            return not_a_number();
        }
        let (na, nb): (bool, bool) = (self.bits >= SIGN, other.bits >= SIGN);
        if a == INFINITY {
            if b == INFINITY && na != nb {
                return not_a_number();
            }
            return self;
        }
        if b == INFINITY {
            return other;
        }
        proof {
            lemma_steps_are_sizes(self);
            lemma_steps_are_sizes(other);
            if a < b {
                crate::number::lemma_steps_increase(a as int, b as int);
            } else if b < a {
                crate::number::lemma_steps_increase(b as int, a as int);
            }
        }
        if na == nb {
            if a == 0 && b == 0 {
                proof {
                    crate::number::lemma_steps_nonnegative(0);
                    assert(magnitude_steps(0) == 0);
                }
                signed(0, na)
            } else if b <= a {
                proof {
                    crate::number::lemma_steps_nonnegative(a as int);
                }
                combine(a, b, false, na)
            } else {
                proof {
                    crate::number::lemma_steps_nonnegative(b as int);
                }
                combine(b, a, false, na)
            }
        } else if a == b {
            signed(0, false)
        } else if b < a {
            combine(a, b, true, na)
        } else {
            combine(b, a, true, nb)
        }
    }

    /// `-self`.
    pub fn minus_self(self) -> (out: Number)
        ensures
            out == self.negated(),
    {
        if self.bits >= SIGN {
            Number { bits: self.bits - SIGN }
        } else {
            Number { bits: self.bits + SIGN }
        }
    }

    /// `self - other`.
    pub fn minus(self, other: Number) -> (out: Number)
        ensures
            out == self.difference(other),
    {
        self.plus(other.minus_self())
    }
}

impl Number {
    /// The whole number nearest to a number, a half going away from zero, as a number. Where the
    /// numbers are whole already it is itself.
    #[verifier::opaque]
    pub open spec fn nearest_whole(self) -> Number {
        if self.magnitude() >= 0x4b00_0000 {
            self
        } else {
            number_of(nearest(self.size()) * pow2(149), self.negative())
        }
    }

    /// A number cut off after the point, as a number.
    #[verifier::opaque]
    pub open spec fn cut_short(self) -> Number {
        if self.magnitude() >= 0x4b00_0000 {
            self
        } else {
            number_of(cut_off(self.size()) * pow2(149), self.negative())
        }
    }

    /// A number as a byte: cut off after the point, and no further out than a byte reaches. What is
    /// not a number is zero.
    #[verifier::opaque]
    pub open spec fn byte(self) -> u8 {
        if !self.is_number() || self.negative() {
            0
        } else if self.is_infinite() || cut_off(self.size()) > 255 {
            255
        } else {
            cut_off(self.size()) as u8
        }
    }

    /// `self.round()`.
    pub fn round(self) -> (out: Number)
        ensures
            out == self.nearest_whole(),
    {
        proof {
            reveal(Number::nearest_whole);
        }
        let magnitude: u32 = self.size_bits();
        if magnitude >= 0x4b00_0000 {
            return self;
        }
        proof {
            lemma_steps_are_sizes(self);
            lemma_below_whole(self);
        }
        join(size_of(magnitude) as u128, 149, self.bits >= SIGN)
    }

    /// `self.trunc()`.
    pub fn trunc(self) -> (out: Number)
        ensures
            out == self.cut_short(),
    {
        proof {
            reveal(Number::cut_short);
        }
        let magnitude: u32 = self.size_bits();
        if magnitude >= 0x4b00_0000 {
            return self;
        }
        let size: Number = Number { bits: magnitude };
        proof {
            reveal(Number::floored);
            lemma_steps_are_sizes(self);
            lemma_below_whole(self);
        }
        join(size.floor() as u128, 149, self.bits >= SIGN)
    }

    /// `self as u8`.
    pub fn to_byte(self) -> (out: u8)
        ensures
            out == self.byte(),
    {
        proof {
            reveal(Number::byte);
        }
        if self.is_nan() || self.bits >= SIGN {
            return 0;
        }
        if self.bits == INFINITY {
            return 255;
        }
        proof {
            reveal(Number::floored);
        }
        let n: i64 = self.floor();
        if n > 255 {
            255
        } else {
            n as u8
        }
    }
}

/// A number with a fraction is less than two to the power of 23.
pub proof fn lemma_below_whole(n: Number)
    requires
        n.magnitude() < 0x4b00_0000,
    ensures
        cut_off(n.size()) <= 0x80_0000,
        nearest(n.size()) <= 0x80_0000,
{
    let top = magnitude_steps(0x4b00_0000);
    crate::number::lemma_steps_nonnegative(n.magnitude());
    crate::number::lemma_steps_increase(n.magnitude(), 0x4b00_0000);
    lemma2_to64();
    assert(top == 0x80_0000 * pow2(149));
    let one = pow2(149) as int;
    lemma_pow2_pos(149);
    lemma_pow2_unfold(150);
    let size = n.size() as int;
    assert(size / one <= 0x80_0000) by (nonlinear_arith)
        requires
            0 <= size <= 0x80_0000 * one,
            one > 0,
    ;
    assert((2 * size + one) / (2 * one) <= 0x80_0000) by (nonlinear_arith)
        requires
            0 <= size <= 0x80_0000 * one,
            one > 0,
    ;
}

/// A finite number's size is one that rounding leaves, and its bits are the number's own.
pub proof fn lemma_size_is_exact(n: Number)
    requires
        n.is_finite(),
    ensures
        rounded(n.size()) == n.size(),
        bits_of(n.size()) == n.magnitude(),
        number_of(n.size(), n.negative()) == n,
{
    let e = n.magnitude() / 0x80_0000;
    let f = n.magnitude() % 0x80_0000;
    lemma_steps_are_sizes(n);
    if e == 0 {
        lemma_small_is_exact(n.size());
    } else {
        let m = (0x80_0000 + f) as nat;
        lemma_scaled_is_exact(m, (e - 1) as nat);
        lemma_bits_double(m, (e - 1) as nat);
        assert(bits_of(m) == m);
    }
}

/// Adding a zero to a number changes nothing, but that the sum of two zeros is the positive one
/// unless both are negative.
pub proof fn law_zero_adds_nothing(n: Number, zero: Number)
    requires
        n.is_number(),
        zero.is_zero_spec(),
    ensures
        !n.is_zero_spec() ==> n.sum(zero) == n && zero.sum(n) == n,
        n.is_zero_spec() && !n.negative() ==> n.sum(zero) == n,
{
    reveal(Number::sum);
    if n.is_finite() {
        lemma_size_is_exact(n);
        lemma_steps_are_sizes(n);
        crate::number::lemma_steps_nonnegative(n.magnitude());
    }
}

/// No finite number of nothings is anything.
pub proof fn law_times_zero_is_zero(n: Number, zero: Number)
    requires
        n.is_finite(),
        zero.is_zero_spec(),
    ensures
        n.product(zero).is_zero_spec(),
        zero.product(n).is_zero_spec(),
{
    reveal(Number::product);
    lemma_pow2_pos(149);
    let d = pow2(149);
    assert(zero.size() == 0);
    assert(n.size() * 0 == 0);
    assert(0 * n.size() == 0) by (nonlinear_arith);
    lemma_ratio_vanishes(0, d);
}

/// The order of two factors does not matter.
pub proof fn law_products_commute(a: Number, b: Number)
    ensures
        a.product(b) == b.product(a),
{
    reveal(Number::product);
    assert(a.size() * b.size() == b.size() * a.size()) by (nonlinear_arith);
}

/// One is as many smallest steps as there are in it.
pub proof fn lemma_one()
    ensures
        one().size() == pow2(149),
        one().is_finite(),
        !one().is_zero_spec(),
{
    lemma2_to64();
    lemma_pow2_adds(23, 126);
}

pub proof fn lemma_ratio_of_one(n: nat)
    ensures
        ratio(n, 1) == rounded(n),
{
    assert(n / 1 == n);
    let unit = spacing(n);
    assert(unit * 1 == unit);
}

/// Once a number is the number.
pub proof fn law_times_one_is_itself(n: Number)
    requires
        n.is_number(),
    ensures
        n.product(one()) == n,
{
    reveal(Number::product);
    lemma_one();
    if n.is_finite() {
        let d = pow2(149);
        lemma_pow2_pos(149);
        lemma_size_is_exact(n);
        lemma_ratio_cancels(n.size(), 1, d);
        lemma_ratio_of_one(n.size());
        assert(1 * d == d);
    }
}

/// A number goes into itself once.
pub proof fn law_itself_goes_in_once(n: Number)
    requires
        n.is_finite(),
        !n.is_zero_spec(),
    ensures
        n.quotient(n) == one(),
{
    reveal(Number::quotient);
    lemma_one();
    let d = pow2(149);
    lemma_pow2_pos(149);
    lemma_size_is_exact(one());
    lemma_steps_are_sizes(n);
    crate::number::lemma_steps_nonnegative(n.magnitude());
    lemma_ratio_cancels(d, 1, n.size());
    lemma_ratio_of_one(d);
    assert(1 * n.size() == n.size());
    assert(d * n.size() == n.size() * d) by (nonlinear_arith);
}

/// A finite number less itself is nothing.
pub proof fn law_less_itself_is_zero(n: Number)
    requires
        n.is_finite(),
    ensures
        n.difference(n) == (Number { bits: 0 }),
{
    reveal(Number::sum);
    lemma_steps_are_sizes(n);
}

/// The difference of two numbers below 256 is finite.
pub proof fn lemma_small_difference(a: Number, b: Number)
    requires
        a.magnitude() < 0x4380_0000,
        b.magnitude() < 0x4380_0000,
    ensures
        a.difference(b).is_finite(),
{
    reveal(Number::sum);
    lemma_below_256(a);
    lemma_below_256(b.negated());
    let steps = a.steps() + b.negated().steps();
    let size = if steps < 0 {
        (-steps) as nat
    } else {
        steps as nat
    };
    lemma_pow2_unfold(158);
    lemma_pow2_unfold(159);
    crate::rounding::lemma_rounded_bound(size);
    lemma_bits_bound(rounded(size), 159);
}

proof fn lemma_below_256(n: Number)
    requires
        n.magnitude() < 0x4380_0000,
    ensures
        n.size() < pow2(157),
        -pow2(157) < n.steps() < pow2(157),
{
    lemma2_to64();
    lemma_pow2_adds(23, 134);
    lemma_steps_are_sizes(n);
    crate::number::lemma_steps_increase(n.magnitude(), 0x4380_0000);
}

/// Two finite numbers have a product, which has a sign when just one of them does.
pub proof fn lemma_product_is_number(a: Number, b: Number)
    requires
        a.is_finite(),
        b.is_finite(),
    ensures
        a.product(b).is_number(),
        a.product(b).negative() == (a.negative() != b.negative()),
{
    reveal(Number::product);
}

/// Two numbers with the same sign have a sum.
pub proof fn lemma_sum_is_number(a: Number, b: Number)
    requires
        a.is_number(),
        b.is_number(),
        a.negative() == b.negative(),
    ensures
        a.sum(b).is_number(),
{
    reveal(Number::sum);
}

/// More steps have more bits.
pub proof fn lemma_bits_increase(a: nat, b: nat)
    requires
        a <= b,
    ensures
        bits_of(a) <= bits_of(b),
    decreases b,
{
    if b >= 0x100_0000 {
        if a >= 0x100_0000 {
            lemma_bits_increase(a / 2, b / 2);
        } else {
            lemma_bits_increase(0x80_0000, b / 2);
        }
    }
}

/// A remainder, moved up by the modulus where it is below zero, is not below zero.
pub proof fn lemma_wrapped_into(v: Number, m: Number)
    requires
        m.is_number(),
        !m.negative(),
        !m.is_zero_spec(),
    ensures
        !v.remainder(m).sum(m).lt((Number { bits: 0 })),
{
    reveal(Number::remainder);
    reveal(Number::sum);
    if v.is_finite() && m.is_finite() {
        lemma_steps_are_sizes(m);
        lemma_size_is_exact(m);
        crate::number::lemma_steps_nonnegative(m.magnitude());
        let left = v.size() % m.size();
        let r = v.remainder(m);
        lemma_mod_bound(v.size() as int, m.size() as int);
        lemma_bits_increase(left, m.size());
        assert(r.magnitude() <= m.magnitude());
        if r.magnitude() < m.magnitude() {
            crate::number::lemma_steps_increase(r.magnitude(), m.magnitude());
        }
        lemma_steps_are_sizes(r);
    }
}

impl Number {
    /// The number without its sign.
    pub open spec fn absolute(self) -> Number {
        Number { bits: self.magnitude() as u32 }
    }

    /// The number without its sign. See [`Number::absolute`].
    pub fn abs(self) -> (out: Number)
        ensures
            out == self.absolute(),
    {
        Number { bits: self.size_bits() }
    }

    /// How many whole ones there are in the number, as far as a count goes. There is none in what is
    /// below zero or is not a number.
    pub open spec fn count(self) -> nat {
        if !self.is_number() || self.negative() {
            0
        } else if self.is_infinite() || cut_off(self.size()) > usize::MAX {
            usize::MAX as nat
        } else {
            cut_off(self.size())
        }
    }

    /// How many whole ones there are in the number. See [`Number::count`].
    pub fn to_count(self) -> (n: usize)
        ensures
            n == self.count(),
    {
        if self.is_nan() || self.bits >= SIGN {
            return 0;
        }
        proof {
            lemma2_to64();
            lemma2_to64_rest();
            lemma_pow2_pos(149);
            if self.is_finite() {
                lemma_steps_are_sizes(self);
            }
            reveal(Number::floored);
        }
        if self.bits >= 0x5f80_0000 {
            proof {
                if self.is_finite() {
                    lemma_pow2_adds(23, 190);
                    lemma_pow2_adds(64, 149);
                    if self.bits > 0x5f80_0000 {
                        crate::number::lemma_steps_increase(0x5f80_0000, self.magnitude());
                    }
                    lemma_div_is_ordered(pow2(213) as int, self.size() as int, pow2(149) as int);
                    lemma_div_multiples_vanish(pow2(64) as int, pow2(149) as int);
                    assert(pow2(149) * pow2(64) == pow2(64) * pow2(149)) by (nonlinear_arith);
                }
            }
            return usize::MAX;
        }
        let whole: u64 = if self.bits >= 0x5f00_0000 {
            let m: u64 = (self.bits - 0x5f00_0000) as u64 + 0x80_0000;
            proof {
                lemma_pow2_adds(40, 149);
                assert(self.magnitude() / 0x80_0000 == 190);
                let v = m * pow2(40) as int;
                assert(m * pow2(189) == pow2(149) * v) by (nonlinear_arith)
                    requires
                        pow2(189) == pow2(40) * pow2(149),
                        v == m * pow2(40) as int,
                ;
                lemma_div_multiples_vanish(v, pow2(149) as int);
            }
            m * 0x100_0000_0000
        } else {
            proof {
                lemma_pow2_adds(23, 189);
                lemma_pow2_adds(63, 149);
                crate::number::lemma_steps_increase(self.magnitude(), 0x5f00_0000);
                assert(self.size() / pow2(149) < pow2(63)) by {
                    assert(pow2(149) * pow2(63) == pow2(63) * pow2(149)) by (nonlinear_arith);
                    lemma_multiply_divide_lt(
                        self.size() as int,
                        pow2(149) as int,
                        pow2(63) as int,
                    );
                }
            }
            self.floor() as u64
        };
        if whole > usize::MAX as u64 {
            usize::MAX
        } else {
            whole as usize
        }
    }
}

/// Nothing is no number of anything.
pub proof fn lemma_zero_goes_into(d: nat)
    requires
        0 < d < 0x100_0000,
    ensures
        whole_number(0).quotient(whole_number(d)).is_zero_spec(),
{
    reveal(whole_number);
    lemma_small_is_exact(0);
    assert(0 * pow2(149) == 0);
    lemma_whole_is_finite(d);
    lemma_zero_over(whole_number(0), whole_number(d));
}

proof fn lemma_whole_is_finite(d: nat)
    requires
        0 < d < 0x100_0000,
    ensures
        whole_number(d).is_finite(),
        !whole_number(d).is_zero_spec(),
        !whole_number(d).negative(),
{
    reveal(whole_number);
    lemma_small_is_exact(d);
    lemma_pow2_pos(149);
    let steps = (d * pow2(149)) as nat;
    assert(steps >= pow2(149)) by (nonlinear_arith)
        requires
            steps == d * pow2(149),
            d >= 1,
            pow2(149) >= 0,
    ;
    lemma_one();
    lemma_size_is_exact(one());
    lemma_bits_increase(pow2(149), steps);
    lemma2_to64();
    lemma_pow2_adds(24, 149);
    assert(steps < pow2(173)) by (nonlinear_arith)
        requires
            steps == d * pow2(149),
            d < 0x100_0000,
            pow2(173) == 0x100_0000 * pow2(149),
            pow2(149) > 0,
    ;
    lemma_bits_bound(steps, 173);
}

/// The sum of two zeros is one of them.
pub proof fn lemma_sum_of_zeros(a: Number, b: Number)
    requires
        a.is_zero_spec(),
        b.is_zero_spec(),
    ensures
        a.sum(b).is_zero_spec(),
{
    reveal(Number::sum);
}

/// A part of nothing is nothing.
pub proof fn lemma_zero_over(zero: Number, n: Number)
    requires
        zero.is_zero_spec(),
        n.is_finite(),
        !n.is_zero_spec(),
    ensures
        zero.quotient(n).is_zero_spec(),
{
    reveal(Number::quotient);
    lemma_steps_are_sizes(n);
    crate::number::lemma_steps_nonnegative(n.magnitude());
    assert(zero.size() == 0);
    assert(0 * pow2(149) == 0);
    lemma_ratio_vanishes(0, n.size());
}

/// Rounding a ratio at most doubles it.
proof fn lemma_ratio_bound(n: nat, d: nat)
    requires
        0 < d,
    ensures
        ratio(n, d) * d <= 2 * n,
{
    let unit = spacing(n / d);
    lemma_spacing_positive(n / d);
    let u = unit * d;
    assert(0 < u) by (nonlinear_arith)
        requires
            u == unit * d,
            0 < unit,
            0 < d,
    ;
    let (q, r) = (n as int / u as int, n as int % u as int);
    lemma_fundamental_div_mod(n as int, u as int);
    lemma_mod_bound(n as int, u as int);
    assert((q * unit) * d == u * q) by (nonlinear_arith)
        requires
            u == unit * d,
    ;
    assert(((q + 1) * unit) * d == u * q + u) by (nonlinear_arith)
        requires
            u == unit * d,
    ;
    assert(0 <= u * q) by (nonlinear_arith)
        requires
            0 <= q,
            0 < u,
    ;
}

/// The bits of some steps stand for no more than they are.
proof fn lemma_bits_stand_for_less(steps: nat)
    ensures
        0 <= magnitude_steps(bits_of(steps) as int) <= steps,
        steps >= 0x80_0000 ==> bits_of(steps) >= 0x80_0000,
    decreases steps,
{
    lemma2_to64();
    if steps >= 0x100_0000 {
        let half = bits_of(steps / 2) as int;
        lemma_bits_stand_for_less(steps / 2);
        let e = half / 0x80_0000;
        assert((half + 0x80_0000) / 0x80_0000 == e + 1);
        assert((half + 0x80_0000) % 0x80_0000 == half % 0x80_0000);
        lemma_pow2_unfold(e as nat);
        let (m, p) = (0x80_0000 + half % 0x80_0000, pow2((e - 1) as nat));
        assert(m * (2 * p) == 2 * (m * p)) by (nonlinear_arith);
        assert(magnitude_steps(half) == m * p);
        assert(magnitude_steps(half + 0x80_0000) == m * (2 * p));
    } else if steps >= 0x80_0000 {
        assert(steps / 0x80_0000 == 1);
        let f = steps as int % 0x80_0000;
        assert((0x80_0000 + f) * pow2(0) == 0x80_0000 + f);
    }
}

/// The bits of a count of steps that rounding leaves stand for just that many.
proof fn lemma_bits_stand_for(steps: nat)
    requires
        rounded(steps) == steps,
    ensures
        magnitude_steps(bits_of(steps) as int) == steps,
        steps >= 0x80_0000 ==> bits_of(steps) >= 0x80_0000,
    decreases steps,
{
    lemma2_to64();
    if steps >= 0x100_0000 {
        let unit = spacing(steps / 2) as int;
        lemma_spacing_positive(steps / 2);
        let t = if rounded(steps) == (steps / spacing(steps)) * spacing(steps) {
            steps as int / (2 * unit)
        } else {
            steps as int / (2 * unit) + 1
        };
        assert(steps == t * (2 * unit));
        assert(steps == 2 * (t * unit)) by (nonlinear_arith)
            requires
                steps == t * (2 * unit),
        ;
        let low = (steps / 2) as int;
        assert(low == t * unit);
        lemma_div_multiples_vanish(t, unit);
        lemma_mod_multiples_basic(t, unit);
        assert(unit * t == t * unit) by (nonlinear_arith);
        assert(rounded(steps / 2) == steps / 2);
        let half = bits_of(steps / 2) as int;
        lemma_bits_stand_for(steps / 2);
        let e = half / 0x80_0000;
        assert((half + 0x80_0000) / 0x80_0000 == e + 1);
        assert((half + 0x80_0000) % 0x80_0000 == half % 0x80_0000);
        lemma_pow2_unfold(e as nat);
        let (m, p) = (0x80_0000 + half % 0x80_0000, pow2((e - 1) as nat));
        assert(m * (2 * p) == 2 * (m * p)) by (nonlinear_arith);
        assert(magnitude_steps(half) == m * p);
        assert(magnitude_steps(half + 0x80_0000) == m * (2 * p));
    } else if steps >= 0x80_0000 {
        assert(steps / 0x80_0000 == 1);
        let f = steps as int % 0x80_0000;
        assert((0x80_0000 + f) * pow2(0) == 0x80_0000 + f);
    }
}

/// A count of steps that rounding leaves is the size of a number, as far as there are numbers.
pub proof fn lemma_exact_steps(steps: nat, negative: bool)
    requires
        rounded(steps) == steps,
        bits_of(steps) < INFINITY,
    ensures
        number_of(steps, negative).is_finite(),
        number_of(steps, negative).negative() == negative,
        number_of(steps, negative).size() == steps,
        number_of(steps, negative).steps() == (if negative {
            -(steps as int)
        } else {
            steps as int
        }),
{
    lemma_bits_stand_for(steps);
}

/// A sum between two numbers is rounded between them.
pub proof fn lemma_sum_between(lo: Number, hi: Number, a: Number, b: Number)
    requires
        lo.is_finite(),
        hi.is_finite(),
        a.is_finite(),
        b.is_finite(),
        lo.steps() <= a.steps() + b.steps() <= hi.steps(),
    ensures
        lo.le(a.sum(b)),
        a.sum(b).le(hi),
{
    reveal(Number::sum);
    let steps = a.steps() + b.steps();
    lemma_size_is_exact(lo);
    lemma_size_is_exact(hi);
    lemma_steps_are_sizes(lo);
    lemma_steps_are_sizes(hi);
    crate::number::lemma_steps_nonnegative(lo.magnitude());
    crate::number::lemma_steps_nonnegative(hi.magnitude());
    if steps > 0 {
        let size = rounded(steps as nat);
        lemma_rounded_stays_below(steps as nat, hi.size());
        lemma_bits_increase(size, hi.size());
        if !lo.negative() {
            lemma_rounded_stays_above(steps as nat, lo.size());
            lemma_bits_increase(lo.size(), size);
        }
    } else if steps < 0 {
        let size = rounded((-steps) as nat);
        lemma_rounded_stays_below((-steps) as nat, lo.size());
        lemma_bits_increase(size, lo.size());
        if hi.negative() {
            lemma_rounded_stays_above((-steps) as nat, hi.size());
            lemma_bits_increase(hi.size(), size);
        }
    }
}

/// Adding what is not negative does not go down.
pub proof fn lemma_sum_goes_up(a: Number, b: Number)
    requires
        a.is_finite(),
        b.is_finite(),
        !b.negative(),
    ensures
        a.le(a.sum(b)),
{
    reveal(Number::sum);
    let steps = a.steps() + b.steps();
    lemma_size_is_exact(a);
    lemma_steps_are_sizes(a);
    lemma_steps_are_sizes(b);
    crate::number::lemma_steps_nonnegative(a.magnitude());
    crate::number::lemma_steps_nonnegative(b.magnitude());
    if steps > 0 {
        if !a.negative() {
            lemma_rounded_stays_above(steps as nat, a.size());
            lemma_bits_increase(a.size(), rounded(steps as nat));
        }
    } else if steps < 0 {
        lemma_rounded_stays_below((-steps) as nat, a.size());
        lemma_bits_increase(rounded((-steps) as nat), a.size());
    }
}

/// Going an eighth of the way or less from one number toward another does not pass it, nor go back.
pub proof fn law_a_part_of_the_way_does_not_pass(from: Number, to: Number, part: Number)
    requires
        from.is_finite(),
        to.is_finite(),
        to.difference(from).is_finite(),
        !part.negative(),
        part.magnitude() <= 0x3e00_0000,
    ensures
        from.le(to) ==> from.le(from.sum(to.difference(from).product(part))) && from.sum(
            to.difference(from).product(part),
        ).le(to),
        to.le(from) ==> to.le(from.sum(to.difference(from).product(part))) && from.sum(
            to.difference(from).product(part),
        ).le(from),
{
    let way = to.difference(from);
    let step = way.product(part);
    let apart = to.steps() - from.steps();
    let gap = if apart < 0 {
        -apart
    } else {
        apart
    };
    law_rank_orders_values(from, to);
    law_rank_orders_values(to, from);
    lemma_steps_are_sizes(from);
    lemma_steps_are_sizes(to);
    assert(way.size() <= 2 * gap && (gap > 0 ==> way.negative() == (apart < 0))) by {
        reveal(Number::sum);
        assert(from.negated().magnitude() == from.magnitude());
        assert(to.steps() + from.negated().steps() == apart);
        if gap > 0 {
            crate::rounding::lemma_rounded_bound(gap as nat);
            lemma_bits_stand_for_less(rounded(gap as nat));
        }
    }
    lemma_steps_are_sizes(way);
    lemma_steps_are_sizes(part);
    let d = pow2(149);
    lemma_pow2_pos(149);
    lemma2_to64();
    lemma_pow2_adds(23, 123);
    lemma_pow2_adds(3, 146);
    let eighth = Number { bits: 0x3e00_0000 };
    assert(eighth.size() == pow2(146));
    if part.magnitude() < 0x3e00_0000 {
        crate::number::lemma_steps_increase(part.magnitude(), 0x3e00_0000);
    }
    let n = way.size() * part.size();
    let r = ratio(n, d);
    lemma_ratio_bound(n, d);
    assert(8 * n <= way.size() * d) by (nonlinear_arith)
        requires
            n == way.size() * part.size(),
            8 * part.size() <= d,
            way.size() >= 0,
    ;
    assert(4 * r <= way.size()) by (nonlinear_arith)
        requires
            r * d <= 2 * n,
            8 * n <= way.size() * d,
            d > 0,
    ;
    assert(step.is_finite() && (gap > 0 ==> step.negative() == (apart < 0)) && step.size() <= r) by {
        reveal(Number::product);
        lemma_bits_stand_for_less(r);
        lemma_size_is_exact(way);
        lemma_bits_increase(r, way.size());
    }
    lemma_steps_are_sizes(step);
    if apart < 0 {
        lemma_sum_between(to, from, from, step);
    } else {
        lemma_sum_between(from, to, from, step);
        if apart == 0 {
            lemma_sum_between(to, from, from, step);
        }
    }
}

/// Rounding does not carry a ratio up past a binary32 number.
pub proof fn lemma_ratio_stays_below(n: nat, d: nat, y: nat)
    requires
        0 < d,
        n <= y * d,
        rounded(y) == y,
    ensures
        ratio(n, d) <= y,
{
    if n == y * d {
        lemma_ratio_cancels(y, 1, d);
        lemma_ratio_of_one(y);
        assert(1 * d == d);
    } else {
        let x = n / d;
        assert(x < y) by {
            assert(d * y == y * d) by (nonlinear_arith);
            lemma_multiply_divide_lt(n as int, d as int, y as int);
        }
        let unit = spacing(x) as int;
        let big = spacing(y) as int;
        let k = lemma_spacing_divides(x, y) as int;
        lemma_spacing_positive(x);
        lemma_spacing_positive(y);
        let t = if rounded(y) == (y / spacing(y)) * spacing(y) {
            y as int / big
        } else {
            y as int / big + 1
        };
        assert(y == t * big);
        let u = unit * d;
        assert(0 < u) by (nonlinear_arith)
            requires
                u == unit * d,
                0 < unit,
                0 < d,
        ;
        let q = n as int / u;
        lemma_fundamental_div_mod(n as int, u);
        lemma_mod_bound(n as int, u);
        assert(y == (t * k) * unit) by (nonlinear_arith)
            requires
                y == t * big,
                big == unit * k,
        ;
        assert(y * d == (t * k) * u) by (nonlinear_arith)
            requires
                y == (t * k) * unit,
                u == unit * d,
        ;
        assert(q < t * k) by (nonlinear_arith)
            requires
                n < (t * k) * u,
                n == u * q + n as int % u,
                n as int % u >= 0,
                u > 0,
        ;
        assert((q + 1) * unit <= (t * k) * unit) by (nonlinear_arith)
            requires
                q + 1 <= t * k,
                unit > 0,
        ;
        assert(q * unit <= (q + 1) * unit) by (nonlinear_arith)
            requires
                unit > 0,
        ;
    }
}

/// A quotient that is no smaller than a number is rounded to no less than it.
pub proof fn lemma_ratio_stays_above(n: nat, d: nat, y: nat)
    requires
        0 < d,
        y * d <= n,
        rounded(y) == y,
    ensures
        y <= ratio(n, d),
{
    let x = n / d;
    assert(y <= x) by {
        lemma_fundamental_div_mod(n as int, d as int);
        lemma_mod_bound(n as int, d as int);
        assert(y <= x) by (nonlinear_arith)
            requires
                y * d <= n,
                n == d * x + n as int % d as int,
                n as int % (d as int) < d,
                0 < d,
        ;
    }
    let unit = spacing(x) as int;
    let small = spacing(y) as int;
    let k = lemma_spacing_divides(y, x) as int;
    lemma_spacing_positive(x);
    lemma_spacing_positive(y);
    lemma_spacing_range(x);
    lemma_spacing_range(y);
    let u = unit * d;
    assert(0 < u) by (nonlinear_arith)
        requires
            u == unit * d,
            0 < unit,
            0 < d,
    ;
    let q = n as int / u;
    lemma_fundamental_div_mod(n as int, u);
    lemma_mod_bound(n as int, u);
    assert(q * unit <= (q + 1) * unit) by (nonlinear_arith)
        requires
            unit > 0,
    ;
    if k == 1 {
        let t = if rounded(y) == (y / spacing(y)) * spacing(y) {
            y as int / small
        } else {
            y as int / small + 1
        };
        assert(y == t * unit);
        assert(t <= q) by (nonlinear_arith)
            requires
                (t * unit) * d <= n,
                u == unit * d,
                n == u * q + n as int % u,
                n as int % u < u,
                u > 0,
        ;
        assert(t * unit <= q * unit) by (nonlinear_arith)
            requires
                t <= q,
                unit > 0,
        ;
    } else {
        assert(2 * small <= unit) by (nonlinear_arith)
            requires
                unit == small * k,
                k != 1,
                unit > 0,
                small > 0,
        ;
        lemma_fundamental_div_mod(n as int, d as int);
        lemma_mod_bound(n as int, d as int);
        assert(0x80_0000 * u <= n) by (nonlinear_arith)
            requires
                0x80_0000 * unit <= x,
                u == unit * d,
                n == d * x + n as int % d as int,
                n as int % d as int >= 0,
                0 < d,
        ;
        assert(0x80_0000 <= q) by (nonlinear_arith)
            requires
                0x80_0000 * u <= n,
                n == u * q + n as int % u,
                n as int % u < u,
                u > 0,
        ;
        assert(0x80_0000 * unit <= q * unit) by (nonlinear_arith)
            requires
                0x80_0000 <= q,
                unit > 0,
        ;
    }
}

/// A part of a number is no larger than the number: multiplying by one or less does not grow it.
pub proof fn law_a_part_is_no_larger(n: Number, part: Number)
    requires
        n.is_finite(),
        part.magnitude() <= 0x3f80_0000,
    ensures
        n.product(part).magnitude() <= n.magnitude(),
{
    reveal(Number::product);
    let d = pow2(149);
    lemma_pow2_pos(149);
    lemma_one();
    lemma_size_is_exact(n);
    lemma_steps_are_sizes(n);
    lemma_steps_are_sizes(part);
    if part.magnitude() < 0x3f80_0000 {
        crate::number::lemma_steps_increase(part.magnitude(), 0x3f80_0000);
    }
    let p = n.size() * part.size();
    assert(p <= n.size() * d) by (nonlinear_arith)
        requires
            p == n.size() * part.size(),
            part.size() <= d,
            n.size() >= 0,
    ;
    lemma_ratio_stays_below(p, d, n.size());
    lemma_bits_increase(ratio(p, d), n.size());
}

/// What is left of one after something is taken off is no more than one.
pub proof fn lemma_less_than_one(taken: Number)
    requires
        taken.is_finite(),
        !taken.negative(),
    ensures
        one().difference(taken).le(one()),
{
    let off = taken.negated();
    lemma_one();
    lemma_steps_are_sizes(taken);
    lemma_steps_are_sizes(one());
    assert(off.magnitude() == taken.magnitude());
    lemma_sum_between(off, one(), one(), off);
}

/// A number less one that is no smaller is not above zero, and neither is a part of it.
pub proof fn lemma_not_above_zero(a: Number, b: Number, over: Number)
    requires
        a.is_finite(),
        b.is_finite(),
        a.le(b),
        over.is_finite(),
        !over.negative(),
        !over.is_zero_spec(),
    ensures
        a.difference(b).quotient(over).le_zero(),
{
    reveal(Number::sum);
    reveal(Number::quotient);
    law_rank_orders_values(a, b);
    law_rank_orders_values(b, a);
    lemma_steps_are_sizes(a);
    lemma_steps_are_sizes(b);
    assert(b.negated().magnitude() == b.magnitude());
    let less = a.difference(b);
    if less.is_zero_spec() {
        lemma_zero_over(less, over);
    }
}

} // verus!
