//! Whole numbers among binary32 numbers: where the arithmetic on them is exact.

use vstd::arithmetic::div_mod::*;
use vstd::arithmetic::power2::*;
use vstd::prelude::*;

use crate::arith::{
    bits_of, lemma_below_whole, lemma_bits_bound, lemma_bits_increase, lemma_exact_steps,
    lemma_ratio_cancels, lemma_ratio_of_one, lemma_ratio_stays_above, lemma_ratio_stays_below,
    lemma_sum_between, number_of, ratio, signed_number, whole_number,
};
use crate::number::{
    INFINITY, Number, law_rank_orders_values, lemma_steps_increase, lemma_steps_nonnegative,
    magnitude_steps, num,
};
use crate::rounding::{lemma_scaled_is_exact, lemma_small_is_exact, nearest, pixel, rounded};

verus! {

/// A number is the whole number `k`.
pub open spec fn is_whole(n: Number, k: int) -> bool {
    n.is_finite() && n.steps() == k * pow2(149)
}

/// The whole number of a size, with a sign.
proof fn lemma_number_of_whole(k: nat, negative: bool)
    requires
        k < 0x100_0000,
    ensures
        number_of(k * pow2(149), negative).negative() == negative,
        is_whole(
            number_of(k * pow2(149), negative),
            if negative {
                -(k as int)
            } else {
                k as int
            },
        ),
{
    let steps = k * pow2(149);
    lemma_scaled_is_exact(k, 149);
    lemma2_to64();
    lemma_pow2_adds(24, 149);
    lemma_pow2_pos(149);
    assert(steps < pow2(173)) by (nonlinear_arith)
        requires
            steps == k * pow2(149),
            k < 0x100_0000,
            pow2(173) == 0x100_0000 * pow2(149),
            pow2(149) > 0,
    ;
    lemma_bits_bound(steps, 173);
    lemma_exact_steps(steps, negative);
    assert((-(k as int)) * pow2(149) == -(k * pow2(149))) by (nonlinear_arith);
}

/// A whole number below two to the power of 24 becomes itself.
pub proof fn law_small_whole_numbers_are_exact(k: int)
    requires
        -0x100_0000 < k < 0x100_0000,
    ensures
        is_whole(signed_number(k), k),
        signed_number(k).negative() == (k < 0),
{
    reveal(whole_number);
    let size = if k < 0 {
        (-k) as nat
    } else {
        k as nat
    };
    lemma_small_is_exact(size);
    lemma_number_of_whole(size, false);
    if k < 0 {
        lemma_negated(whole_number(size), size as int);
    }
}

/// The negative of a whole number is whole.
pub proof fn lemma_negated(n: Number, k: int)
    requires
        is_whole(n, k),
    ensures
        is_whole(n.negated(), -k),
{
    assert((-k) * pow2(149) == -(k * pow2(149))) by (nonlinear_arith);
}

/// Two whole numbers have a whole sum.
pub proof fn law_whole_sums_are_exact(a: Number, b: Number, j: int, k: int)
    requires
        is_whole(a, j),
        is_whole(b, k),
        -0x100_0000 < j + k < 0x100_0000,
    ensures
        is_whole(a.sum(b), j + k),
{
    reveal(Number::sum);
    let one = pow2(149) as int;
    lemma_pow2_pos(149);
    assert(a.steps() + b.steps() == (j + k) * one) by (nonlinear_arith)
        requires
            a.steps() == j * one,
            b.steps() == k * one,
    ;
    let size = if j + k < 0 {
        (-(j + k)) as nat
    } else {
        (j + k) as nat
    };
    assert(j + k < 0 ==> -((j + k) * one) == size * one) by (nonlinear_arith)
        requires
            j + k < 0 ==> size == -(j + k),
    ;
    assert(((j + k) * one == 0) == (j + k == 0)) by (nonlinear_arith)
        requires
            one > 0,
    ;
    assert(((j + k) * one < 0) == (j + k < 0)) by (nonlinear_arith)
        requires
            one > 0,
    ;
    lemma_scaled_is_exact(size, 149);
    lemma_number_of_whole(size, j + k < 0);
}

/// Two whole numbers have a whole difference.
pub proof fn law_whole_differences_are_exact(a: Number, b: Number, j: int, k: int)
    requires
        is_whole(a, j),
        is_whole(b, k),
        -0x100_0000 < j - k < 0x100_0000,
    ensures
        is_whole(a.difference(b), j - k),
{
    lemma_negated(b, k);
    law_whole_sums_are_exact(a, b.negated(), j, -k);
}

/// Two whole numbers have a whole product.
pub proof fn law_whole_products_are_exact(a: Number, b: Number, j: int, k: int)
    requires
        is_whole(a, j),
        is_whole(b, k),
        -0x100_0000 < j * k < 0x100_0000,
    ensures
        is_whole(a.product(b), j * k),
{
    reveal(Number::product);
    let one = pow2(149) as int;
    lemma_pow2_pos(149);
    lemma_steps_nonnegative(a.magnitude());
    lemma_steps_nonnegative(b.magnitude());
    let (m, n) = (lemma_size_of_whole(a, j), lemma_size_of_whole(b, k));
    let size = (m * n) as nat;
    assert((m * one) * (n * one) == (size * one) * one) by (nonlinear_arith)
        requires
            size == m * n,
    ;
    assert(size == j * k || size == -(j * k)) by (nonlinear_arith)
        requires
            size == m * n,
            m == j || m == -j,
            n == k || n == -k,
    ;
    let steps = size * pow2(149);
    lemma_ratio_cancels(steps, 1, pow2(149));
    assert(1 * pow2(149) == pow2(149));
    lemma_ratio_of_one(steps);
    lemma_scaled_is_exact(size, 149);
    let negative = a.negative() != b.negative();
    lemma_number_of_whole(size, negative);
    assert(j * k == (if negative {
        -(size as int)
    } else {
        size as int
    })) by (nonlinear_arith)
        requires
            size == m * n,
            j == (if a.negative() {
                -m
            } else {
                m
            }),
            k == (if b.negative() {
                -n
            } else {
                n
            }),
            negative == (a.negative() != b.negative()),
    ;
}

/// What is left of a whole number once another has been taken out of it as often as it fits is exact,
/// with the sign of the first.
pub proof fn law_whole_remainders_are_exact(a: Number, b: Number, j: int, k: int)
    requires
        is_whole(a, j),
        is_whole(b, k),
        -0x100_0000 < j < 0x100_0000,
        0 < k < 0x100_0000,
    ensures
        is_whole(
            a.remainder(b),
            if j < 0 {
                -((-j) % k)
            } else {
                j % k
            },
        ),
{
    reveal(Number::remainder);
    let one = pow2(149) as int;
    lemma_pow2_pos(149);
    let (m, n) = (lemma_size_of_whole(a, j), lemma_size_of_whole(b, k));
    assert(b.size() > 0) by (nonlinear_arith)
        requires
            b.size() == n * one,
            n > 0,
            one > 0,
    ;
    crate::arith::lemma_scaled_division(m, n, one);
    lemma_mod_bound(m, n);
    lemma_number_of_whole((m % n) as nat, a.negative());
    if j == 0 {
        lemma_small_mod(0, k as nat);
    }
}

/// How large a whole number is.
proof fn lemma_size_of_whole(n: Number, k: int) -> (m: int)
    requires
        is_whole(n, k),
    ensures
        0 <= m,
        n.size() == m * pow2(149),
        k == (if n.negative() {
            -m
        } else {
            m
        }),
{
    let one = pow2(149) as int;
    let m = if n.negative() {
        -k
    } else {
        k
    };
    lemma_pow2_pos(149);
    lemma_steps_nonnegative(n.magnitude());
    assert(n.size() == m * one) by (nonlinear_arith)
        requires
            n.negative() ==> -(n.size() as int) == k * one,
            !n.negative() ==> n.size() == k * one,
            m == (if n.negative() {
                -k
            } else {
                k
            }),
    ;
    assert(0 <= m) by (nonlinear_arith)
        requires
            0 <= m * one,
            0 < one,
    ;
    m
}

/// The nearest whole number to one below two to the power of 23 is the pixel it is on.
pub proof fn law_nearest_is_the_pixel(n: Number)
    requires
        n.magnitude() < 0x4b00_0000,
    ensures
        is_whole(n.nearest_whole(), pixel(n)),
        -0x80_0000 <= pixel(n) <= 0x80_0000,
{
    reveal(Number::nearest_whole);
    lemma_below_whole(n);
    lemma_steps_nonnegative(n.magnitude());
    lemma_number_of_whole(nearest(n.size()), n.negative());
}

/// A count of parts of one, few enough that they are all told apart, is a count of steps that
/// rounding leaves.
pub proof fn lemma_parts_are_exact(parts: nat, k: nat)
    requires
        parts < 0x100_0000,
        k <= 149,
    ensures
        rounded(parts * pow2(k)) == parts * pow2(k),
        bits_of(parts * pow2(k)) < INFINITY,
        magnitude_steps(bits_of(parts * pow2(k)) as int) == parts * pow2(k),
{
    let steps = parts * pow2(k);
    lemma_scaled_is_exact(parts, k);
    lemma2_to64();
    lemma_pow2_adds(24, k);
    lemma_pow2_pos(k);
    assert(steps < pow2(24 + k)) by (nonlinear_arith)
        requires
            steps == parts * pow2(k),
            parts < 0x100_0000,
            pow2(24 + k) == 0x100_0000 * pow2(k),
            pow2(k) > 0,
    ;
    lemma_bits_bound(steps, 24 + k);
    lemma_exact_steps(steps, false);
}

/// What lies between two sizes has bits that stand for something between them.
pub proof fn lemma_size_between(lo: nat, hi: nat, steps: nat)
    requires
        lo <= steps <= hi,
        bits_of(hi) < INFINITY,
        magnitude_steps(bits_of(lo) as int) == lo,
        magnitude_steps(bits_of(hi) as int) == hi,
    ensures
        bits_of(steps) < INFINITY,
        lo <= magnitude_steps(bits_of(steps) as int) <= hi,
{
    lemma_bits_increase(lo, steps);
    lemma_bits_increase(steps, hi);
    if bits_of(lo) < bits_of(steps) {
        lemma_steps_increase(bits_of(lo) as int, bits_of(steps) as int);
    }
    if bits_of(steps) < bits_of(hi) {
        lemma_steps_increase(bits_of(steps) as int, bits_of(hi) as int);
    }
}

/// How large a fifth of a whole number comes out: between the whole numbers it is between, and on
/// one only where it is one.
proof fn lemma_fifth_size(k: nat)
    requires
        k < 0x20_0000,
    ensures
        ({
            let (got, one) = (bits_of(ratio(k * pow2(149), 5)), pow2(149) as int);
            &&& got < INFINITY
            &&& k % 5 == 0 ==> magnitude_steps(got as int) == (k / 5) * one
            &&& k % 5 != 0 ==> (k / 5) * one < magnitude_steps(got as int) < (k / 5 + 1) * one
        }),
{
    let (m, r, one) = (k / 5, k % 5, pow2(149) as int);
    let steps = k * pow2(149);
    lemma_pow2_pos(149);
    if r == 0 {
        let y = m * pow2(149);
        lemma_parts_are_exact(m, 149);
        assert(y * 5 == steps) by (nonlinear_arith)
            requires
                y == m * pow2(149),
                steps == k * pow2(149),
                k == 5 * m,
        ;
        lemma_ratio_stays_below(steps, 5, y);
        lemma_ratio_stays_above(steps, 5, y);
    } else {
        let eighth = pow2(146) as int;
        lemma2_to64();
        lemma_pow2_adds(3, 146);
        lemma_pow2_pos(146);
        let (lo, hi) = ((8 * m + 1) * pow2(146), (8 * m + 7) * pow2(146));
        lemma_parts_are_exact((8 * m + 1) as nat, 146);
        lemma_parts_are_exact((8 * m + 7) as nat, 146);
        assert(lo * 5 <= steps <= hi * 5 && m * one < lo && hi < (m + 1) * one)
            by (nonlinear_arith)
            requires
                one == 8 * eighth,
                eighth > 0,
                lo == (8 * m + 1) * eighth,
                hi == (8 * m + 7) * eighth,
                steps == k * one,
                k == 5 * m + r,
                1 <= r <= 4,
        ;
        lemma_ratio_stays_below(steps, 5, hi as nat);
        lemma_ratio_stays_above(steps, 5, lo as nat);
        lemma_size_between(lo as nat, hi as nat, ratio(steps, 5));
    }
}

/// A fifth of a whole number goes down to the whole fifths of it, and up to the next ones.
pub proof fn lemma_fifths(n: Number, k: int)
    requires
        is_whole(n, k),
        -0x20_0000 < k < 0x20_0000,
    ensures
        n.quotient(num(0x40a0_0000)).is_finite(),
        n.quotient(num(0x40a0_0000)).floored() == k / 5,
        -n.quotient(num(0x40a0_0000)).negated().floored() == (k + 4) / 5,
{
    reveal(Number::quotient);
    reveal(Number::floored);
    let one = pow2(149) as int;
    lemma_pow2_pos(149);
    lemma_steps_nonnegative(n.magnitude());
    let size = if k < 0 {
        -k
    } else {
        k
    };
    lemma_five();
    assert(n.size() == size * one) by (nonlinear_arith)
        requires
            n.size() >= 0,
            n.size() == k * one || n.size() == -(k * one),
            size == k || size == -k,
            size >= 0,
            one > 0,
    ;
    assert(n.negative() ==> k <= 0) by (nonlinear_arith)
        requires
            n.negative() ==> k * one <= 0,
            one > 0,
    ;
    assert(!n.negative() ==> k >= 0) by (nonlinear_arith)
        requires
            !n.negative() ==> k * one >= 0,
            one > 0,
    ;
    let steps = (size * one) as nat;
    lemma_ratio_cancels(steps, 5, pow2(149));
    lemma_fifth_size(size as nat);
    let q = n.quotient(num(0x40a0_0000));
    let got = q.size() as int;
    let m = size / 5;
    assert(q.magnitude() == bits_of(ratio(steps, 5)));
    lemma_steps_nonnegative(q.magnitude());
    if size % 5 == 0 {
        assert(got / one == m && (got + one - 1) / one == m) by (nonlinear_arith)
            requires
                got == m * one,
                one > 0,
        ;
    } else {
        assert(got / one == m && (got + one - 1) / one == m + 1) by (nonlinear_arith)
            requires
                m * one < got < (m + 1) * one,
                one > 0,
        ;
    }
}

/// The edge of a block, or a cell, is five pixels.
pub proof fn lemma_five()
    ensures
        is_whole(num(0x40a0_0000), 5),
{
    assert(0x40a0_0000int / 0x80_0000 == 129 && 0x40a0_0000int % 0x80_0000 == 0x20_0000);
    lemma2_to64();
    lemma_pow2_adds(21, 128);
    assert(0xa0_0000 * pow2(128) == 5 * pow2(149)) by (nonlinear_arith)
        requires
            pow2(149) == 0x20_0000 * pow2(128),
    ;
}

/// What is cut short of a number that is not negative and no more than a whole number is a whole
/// number no more than that one.
pub proof fn lemma_cut_short_is_whole(n: Number, most: nat) -> (k: int)
    requires
        n.is_finite(),
        !n.negative(),
        n.size() <= most * pow2(149),
        most < 0x80_0000,
    ensures
        0 <= k <= most,
        is_whole(n.cut_short(), k),
{
    reveal(Number::cut_short);
    let one = pow2(149) as int;
    lemma_pow2_pos(149);
    let k = n.size() as int / one;
    assert(0 <= k <= most) by (nonlinear_arith)
        requires
            k == n.size() as int / one,
            0 <= n.size() <= most * one,
            one > 0,
    ;
    let top = Number { bits: 0x4b00_0000 };
    lemma2_to64();
    assert(0x4b00_0000int / 0x80_0000 == 150 && 0x4b00_0000int % 0x80_0000 == 0);
    assert(top.steps() == 0x80_0000 * one);
    lemma_steps_nonnegative(n.magnitude());
    assert(most * one < 0x80_0000 * one) by (nonlinear_arith)
        requires
            most < 0x80_0000,
            one > 0,
    ;
    law_rank_orders_values(n, top);
    lemma_number_of_whole(k as nat, false);
    k
}

/// A number is halfway between two whole numbers.
pub open spec fn is_halfway(n: Number) -> bool {
    (2 * n.steps()) % (2 * pow2(149) as int) == pow2(149)
}

/// A number is nearer to a whole number than to any other exactly where that is the pixel it is on.
proof fn lemma_pixel_is_nearest(n: Number, k: int)
    requires
        n.is_finite(),
        -0x100_0000 < k < 0x100_0000,
    ensures
        (2 * k - 1) * pow2(149) < 2 * n.steps() < (2 * k + 1) * pow2(149) ==> pixel(n) == k,
        pixel(n) == k && !is_halfway(n) ==> (2 * k - 1) * pow2(149) < 2 * n.steps() < (2 * k + 1)
            * pow2(149),
{
    let one = pow2(149) as int;
    lemma_pow2_pos(149);
    lemma_pow2_unfold(150);
    lemma_steps_nonnegative(n.magnitude());
    let (size, q) = (n.size() as int, (2 * n.size() + one) / (2 * one));
    let (at, s) = if n.negative() {
        (-q, -size)
    } else {
        (q, size)
    };
    assert(s == n.steps());
    assert(nearest(n.size()) == q);
    lemma_fundamental_div_mod(2 * size + one, 2 * one);
    lemma_mod_bound(2 * size + one, 2 * one);
    assert((2 * q - 1) * one <= 2 * size < (2 * q + 1) * one) by (nonlinear_arith)
        requires
            2 * size + one == (2 * one) * q + (2 * size + one) % (2 * one),
            0 <= (2 * size + one) % (2 * one) < 2 * one,
    ;
    if !is_halfway(n) {
        if 2 * size == (2 * q - 1) * one {
            let turns = if n.negative() {
                -q
            } else {
                q - 1
            };
            assert(2 * s == turns * (2 * one) + one) by (nonlinear_arith)
                requires
                    2 * size == (2 * q - 1) * one,
                    s == (if n.negative() {
                        -size
                    } else {
                        size
                    }),
                    turns == (if n.negative() {
                        -q
                    } else {
                        q - 1
                    }),
            ;
            assert((2 * one) * turns == turns * (2 * one)) by (nonlinear_arith);
            lemma_fundamental_div_mod_converse(2 * s, 2 * one, turns, one);
        }
        assert((2 * at - 1) * one < 2 * s < (2 * at + 1) * one) by (nonlinear_arith)
            requires
                (2 * q - 1) * one < 2 * size < (2 * q + 1) * one,
                at == q && s == size || at == -q && s == -size,
        ;
    }
    if (2 * k - 1) * one < 2 * s < (2 * k + 1) * one {
        let j = if n.negative() {
            -k
        } else {
            k
        };
        assert((2 * j - 1) * one < 2 * size < (2 * j + 1) * one) by (nonlinear_arith)
            requires
                (2 * k - 1) * one < 2 * s < (2 * k + 1) * one,
                j == k && s == size || j == -k && s == -size,
        ;
        assert(j == q) by (nonlinear_arith)
            requires
                (2 * j - 1) * one < 2 * size < (2 * j + 1) * one,
                (2 * q - 1) * one <= 2 * size < (2 * q + 1) * one,
                one > 0,
        ;
    }
}

/// A count of halves, few enough that they are all told apart, is a number.
proof fn lemma_halves(h: int) -> (n: Number)
    requires
        -0x100_0000 < h < 0x100_0000,
    ensures
        n.is_finite(),
        n.steps() == h * pow2(148),
{
    let size = if h < 0 {
        (-h) as nat
    } else {
        h as nat
    };
    lemma_parts_are_exact(size, 148);
    lemma_exact_steps(size * pow2(148), h < 0);
    assert(h < 0 ==> -(size * pow2(148)) == h * pow2(148)) by (nonlinear_arith)
        requires
            h < 0 ==> size == -h,
    ;
    number_of(size * pow2(148), h < 0)
}

/// Taking a whole number away takes as many pixels away, unless the number is halfway between two
/// pixels before or after: a half goes away from zero, which is not the same way on both sides of
/// it.
pub proof fn law_a_whole_step_keeps_the_pixel(n: Number, step: Number, k: int)
    requires
        n.magnitude() < 0x4a80_0000,
        is_whole(step, k),
        -0x40_0000 < k < 0x40_0000,
        !is_halfway(n),
        !is_halfway(n.difference(step)),
    ensures
        pixel(n.difference(step)) == pixel(n) - k,
{
    let (one, half) = (pow2(149) as int, pow2(148) as int);
    lemma_pow2_unfold(149);
    lemma_pow2_pos(148);
    law_nearest_is_the_pixel(n);
    let m = pixel(n);
    lemma_pixel_is_nearest(n, m);
    lemma_within(n);
    lemma_negated(step, k);
    let (at, d) = (m - k, n.difference(step));
    assert((2 * at - 1) * one < 2 * (n.steps() - k * one) < (2 * at + 1) * one)
        by (nonlinear_arith)
        requires
            (2 * m - 1) * one < 2 * n.steps() < (2 * m + 1) * one,
            at == m - k,
    ;
    assert((-k) * one == -(k * one)) by (nonlinear_arith);
    let (lo, hi) = (lemma_halves(2 * at - 1), lemma_halves(2 * at + 1));
    assert((2 * at - 1) * one == 2 * ((2 * at - 1) * half) && (2 * at + 1) * one == 2 * ((2 * at + 1)
        * half)) by (nonlinear_arith)
        requires
            one == 2 * half,
    ;
    lemma_sum_between(lo, hi, n, step.negated());
    law_rank_orders_values(d, lo);
    law_rank_orders_values(hi, d);
    if 2 * d.steps() == (2 * at - 1) * one {
        lemma_odd_halves(d.steps(), at - 1, one);
    }
    if 2 * d.steps() == (2 * at + 1) * one {
        lemma_odd_halves(d.steps(), at, one);
    }
    lemma_pixel_is_nearest(d, at);
}

proof fn lemma_odd_halves(steps: int, turns: int, one: int)
    requires
        one > 0,
        2 * steps == (2 * turns + 1) * one,
    ensures
        (2 * steps) % (2 * one) == one,
{
    assert(2 * steps == (2 * one) * turns + one) by (nonlinear_arith)
        requires
            2 * steps == (2 * turns + 1) * one,
    ;
    assert((2 * one) * turns == turns * (2 * one)) by (nonlinear_arith);
    lemma_fundamental_div_mod_converse(2 * steps, 2 * one, turns, one);
}

/// A number below two to the power of 22 is on a pixel no further out.
proof fn lemma_within(n: Number)
    requires
        n.magnitude() < 0x4a80_0000,
    ensures
        -0x40_0000 <= pixel(n) <= 0x40_0000,
{
    let one = pow2(149) as int;
    lemma_pow2_pos(149);
    lemma_pow2_unfold(150);
    lemma_pow2_unfold(149);
    lemma_steps_nonnegative(n.magnitude());
    lemma_steps_increase(n.magnitude(), 0x4a80_0000);
    assert(0x4a80_0000int / 0x80_0000 == 149 && 0x4a80_0000int % 0x80_0000 == 0);
    assert(magnitude_steps(0x4a80_0000) == 0x80_0000 * pow2(148));
    let size = n.size() as int;
    assert((2 * size + one) / (2 * one) <= 0x40_0000) by (nonlinear_arith)
        requires
            0 <= size <= 0x40_0000 * one,
            one > 0,
    ;
}

/// A number is `k` halves.
pub open spec fn is_halves(n: Number, k: int) -> bool {
    n.is_finite() && n.steps() == k * pow2(148)
}

/// A whole number is twice as many halves.
pub proof fn lemma_whole_is_halves(n: Number, k: int)
    ensures
        is_whole(n, k) <==> is_halves(n, 2 * k),
{
    lemma_pow2_unfold(149);
    assert(k * pow2(149) == (2 * k) * pow2(148)) by (nonlinear_arith)
        requires
            pow2(149) == 2 * pow2(148),
    ;
}

/// So many halves, with a sign.
proof fn lemma_number_of_halves(k: nat, negative: bool)
    requires
        k < 0x100_0000,
    ensures
        number_of(k * pow2(148), negative).negative() == negative,
        rounded(k * pow2(148)) == k * pow2(148),
        is_halves(
            number_of(k * pow2(148), negative),
            if negative {
                -(k as int)
            } else {
                k as int
            },
        ),
{
    lemma_parts_are_exact(k, 148);
    lemma_exact_steps(k * pow2(148), negative);
    assert((-(k as int)) * pow2(148) == -(k * pow2(148))) by (nonlinear_arith);
}

/// Some halves and some more are all of them.
pub proof fn law_sums_of_halves_are_exact(a: Number, b: Number, j: int, k: int)
    requires
        is_halves(a, j),
        is_halves(b, k),
        -0x100_0000 < j + k < 0x100_0000,
    ensures
        is_halves(a.sum(b), j + k),
{
    reveal(Number::sum);
    let half = pow2(148) as int;
    lemma_pow2_pos(148);
    assert(a.steps() + b.steps() == (j + k) * half) by (nonlinear_arith)
        requires
            a.steps() == j * half,
            b.steps() == k * half,
    ;
    let size = if j + k < 0 {
        (-(j + k)) as nat
    } else {
        (j + k) as nat
    };
    assert(j + k < 0 ==> -((j + k) * half) == size * half) by (nonlinear_arith)
        requires
            j + k < 0 ==> size == -(j + k),
    ;
    assert(((j + k) * half == 0) == (j + k == 0)) by (nonlinear_arith)
        requires
            half > 0,
    ;
    assert(((j + k) * half < 0) == (j + k < 0)) by (nonlinear_arith)
        requires
            half > 0,
    ;
    lemma_number_of_halves(size, j + k < 0);
}

/// Half of a whole number is that many halves, whether it is multiplied by a half or divided by
/// two.
pub proof fn law_half_of_a_whole_is_exact(n: Number, k: int)
    requires
        is_whole(n, k),
        -0x100_0000 < k < 0x100_0000,
    ensures
        is_halves(n.product(num(0x3f00_0000)), k),
        is_halves(n.quotient(num(0x4000_0000)), k),
{
    reveal(Number::product);
    reveal(Number::quotient);
    let one = pow2(149) as int;
    let half = pow2(148) as int;
    lemma_pow2_pos(148);
    lemma_pow2_unfold(149);
    let m = lemma_size_of_whole(n, k);
    let size = m as nat;
    assert(num(0x3f00_0000).size() == half) by {
        lemma2_to64();
        lemma_pow2_adds(23, 125);
    }
    assert(num(0x4000_0000).size() == 2 * one) by {
        lemma2_to64();
        lemma_pow2_adds(23, 127);
        lemma_pow2_unfold(150);
    }
    assert((m * one) * half == (size * half) * one) by (nonlinear_arith)
        requires
            size == m,
    ;
    assert((m * one) * one == (size * half) * (2 * one)) by (nonlinear_arith)
        requires
            size == m,
            one == 2 * half,
    ;
    let steps = size * pow2(148);
    lemma_number_of_halves(size, n.negative());
    lemma_ratio_cancels(steps, 1, pow2(149));
    lemma_ratio_cancels(steps, 1, 2 * pow2(149));
    assert(1 * pow2(149) == pow2(149));
    lemma_ratio_of_one(steps);
}

/// The negative of some halves is as many the other way.
pub proof fn lemma_negated_halves(n: Number, k: int)
    requires
        is_halves(n, k),
    ensures
        is_halves(n.negated(), -k),
{
    assert((-k) * pow2(148) == -(k * pow2(148))) by (nonlinear_arith);
}

/// A number below two to the power of 22 is on a pixel no further out.
pub proof fn lemma_pixel_within(n: Number)
    requires
        n.magnitude() < 0x4a80_0000,
    ensures
        -0x40_0000 <= pixel(n) <= 0x40_0000,
{
    let most = num(0x4a80_0000);
    lemma2_to64();
    lemma_pow2_adds(23, 148);
    lemma_pow2_adds(22, 149);
    lemma_pow2_unfold(150);
    lemma_pow2_pos(149);
    assert(most.size() == 0x40_0000 * pow2(149));
    lemma_steps_increase(n.magnitude(), most.magnitude());
    let (size, one) = (magnitude_steps(n.magnitude()), pow2(149) as int);
    assert((2 * size + one) / (2 * one) <= 0x40_0000) by (nonlinear_arith)
        requires
            0 <= size < 0x40_0000 * one,
            one > 0,
    ;
    assert(0 <= (2 * size + one) / (2 * one)) by (nonlinear_arith)
        requires
            0 <= size,
            one > 0,
    ;
}

/// Some halves less some others are what is left of them.
pub proof fn law_differences_of_halves_are_exact(a: Number, b: Number, j: int, k: int)
    requires
        is_halves(a, j),
        is_halves(b, k),
        -0x100_0000 < j - k < 0x100_0000,
    ensures
        is_halves(a.difference(b), j - k),
{
    lemma_negated_halves(b, k);
    law_sums_of_halves_are_exact(a, b.negated(), j, -k);
}

/// A fifth of a multiple of five is exact.
pub proof fn lemma_exact_fifth(n: Number, m: int)
    requires
        is_whole(n, 5 * m),
        -0x6_0000 < m < 0x6_0000,
    ensures
        is_whole(n.quotient(num(0x40a0_0000)), m),
{
    lemma_fifths(n, 5 * m);
    let q = n.quotient(num(0x40a0_0000));
    reveal(Number::floored);
    lemma_pow2_pos(149);
    lemma_steps_nonnegative(q.magnitude());
    let (size, one) = (q.size() as int, pow2(149) as int);
    lemma_fundamental_div_mod(size, one);
    lemma_fundamental_div_mod(size + one - 1, one);
    lemma_mod_bound(size, one);
    lemma_mod_bound(size + one - 1, one);
    assert(q.negated().size() == q.size());
    let (down, up) = (size / one, (size + one - 1) / one);
    assert(down == up && size == down * one) by (nonlinear_arith)
        requires
            size == one * down + size % one,
            size + one - 1 == one * up + (size + one - 1) % one,
            0 <= size % one < one,
            0 <= (size + one - 1) % one < one,
            down == up,
            one > 0,
    ;
    assert((-down) * one == -(down * one)) by (nonlinear_arith);
}

/// A number cut off after the point is the whole number that is not above it.
pub proof fn lemma_cut_short_is_below(n: Number)
    requires
        !n.negative(),
        n.magnitude() < 0x4b00_0000,
    ensures
        is_whole(n.cut_short(), crate::rounding::cut_off(n.size()) as int),
        crate::rounding::cut_off(n.size()) * pow2(149) <= n.steps(),
        n.steps() < (crate::rounding::cut_off(n.size()) + 1) * pow2(149),
{
    reveal(Number::cut_short);
    lemma_below_whole(n);
    lemma_steps_nonnegative(n.magnitude());
    lemma_pow2_pos(149);
    let (size, one) = (n.size() as int, pow2(149) as int);
    let k = crate::rounding::cut_off(n.size());
    lemma_number_of_whole(k, false);
    lemma_fundamental_div_mod(size, one);
    lemma_mod_bound(size, one);
    assert(k * one <= size < (k + 1) * one) by (nonlinear_arith)
        requires
            size == one * k + size % one,
            0 <= size % one < one,
    ;
}

/// A whole number below two to the power of 20 has bits to match, and is on its own pixel.
pub proof fn lemma_whole_is_small(n: Number, k: int)
    requires
        is_whole(n, k),
        -0x10_0000 < k < 0x10_0000,
    ensures
        n.magnitude() < 0x4980_0000,
        pixel(n) == k,
{
    let most = num(0x4980_0000);
    lemma2_to64();
    lemma_pow2_adds(23, 146);
    lemma_pow2_adds(20, 149);
    lemma_pow2_pos(149);
    assert(most.size() == 0x10_0000 * pow2(149));
    lemma_steps_nonnegative(n.magnitude());
    let m = lemma_size_of_whole(n, k);
    assert(m * pow2(149) < 0x10_0000 * pow2(149)) by (nonlinear_arith)
        requires
            m < 0x10_0000,
            pow2(149) > 0,
    ;
    if most.magnitude() < n.magnitude() {
        lemma_steps_increase(most.magnitude(), n.magnitude());
    }
    crate::rounding::law_whole_pixels_stay(n, k);
}

} // verus!
