//! Arithmetic keeps order and stays near: rounding a larger value gives no less, so sums, products
//! and quotients of larger numbers are no less either, and what is rounded is near to what it was.

use vstd::arithmetic::div_mod::*;
use vstd::arithmetic::power2::*;
use vstd::prelude::*;

use crate::arith::{
    law_a_part_is_no_larger, law_products_commute, law_times_one_is_itself, law_times_zero_is_zero,
    law_zero_adds_nothing, lemma_bits_increase, lemma_exact_steps, lemma_ratio_of_one,
    lemma_ratio_stays_above, lemma_ratio_stays_below, lemma_ratio_vanishes, lemma_size_is_exact,
    lemma_steps_are_sizes, lemma_sum_between, lemma_sum_of_zeros, number_of, one, ratio,
};
use crate::number::{
    Number, law_rank_orders_values, lemma_steps_increase, lemma_steps_nonnegative, num,
};
use crate::rounding::{
    lemma_rounded_stays_above, lemma_rounded_stays_below, lemma_scaled_is_exact,
    lemma_small_is_exact, lemma_spacing_divides, lemma_spacing_positive, lemma_spacing_range,
    rounded, spacing,
};

verus! {

/// The spacing of binary32 numbers is a power of two.
proof fn lemma_spacing_is_a_power(p: nat) -> (k: nat)
    ensures
        spacing(p) == pow2(k),
    decreases p,
{
    if p < 0x100_0000 {
        lemma2_to64();
        0
    } else {
        let k = lemma_spacing_is_a_power(p / 2);
        lemma_pow2_unfold(k + 1);
        k + 1
    }
}

/// A larger ratio is rounded to no less.
pub proof fn lemma_ratio_goes_up(a: nat, b: nat, d: nat)
    requires
        0 < d,
        a <= b,
    ensures
        ratio(a, d) <= ratio(b, d),
{
    let (x, y) = (a / d, b / d);
    lemma_div_is_ordered(a as int, b as int, d as int);
    lemma_fundamental_div_mod(a as int, d as int);
    lemma_fundamental_div_mod(b as int, d as int);
    lemma_mod_bound(a as int, d as int);
    lemma_mod_bound(b as int, d as int);
    let k = lemma_spacing_divides(x, y);
    lemma_spacing_positive(x);
    lemma_spacing_positive(y);
    lemma_spacing_range(x);
    lemma_spacing_range(y);
    let unit = spacing(x);
    if k == 1 {
        assert(unit * 1 == unit);
        let u = unit * d;
        assert(0 < u) by (nonlinear_arith)
            requires
                u == unit * d,
                0 < unit,
                0 < d,
        ;
        let (p, q) = (a as int / u as int, b as int / u as int);
        lemma_div_is_ordered(a as int, b as int, u as int);
        lemma_fundamental_div_mod(a as int, u as int);
        lemma_fundamental_div_mod(b as int, u as int);
        assert(p * unit <= q * unit && (p + 1) * unit <= (q + 1) * unit && p * unit <= (q + 1)
            * unit) by (nonlinear_arith)
            requires
                p <= q,
                0 < unit,
        ;
        if p < q {
            assert((p + 1) * unit <= q * unit) by (nonlinear_arith)
                requires
                    p + 1 <= q,
                    0 < unit,
            ;
        }
    } else {
        let edge = 0x80_0000 * spacing(y);
        assert(k >= 2) by (nonlinear_arith)
            requires
                spacing(y) == unit * k,
                spacing(y) >= 1,
                k != 1,
                k >= 0,
        ;
        assert(spacing(y) >= 2 * unit) by (nonlinear_arith)
            requires
                spacing(y) == unit * k,
                k >= 2,
                unit >= 1,
        ;
        let power = lemma_spacing_is_a_power(y);
        lemma_scaled_is_exact(0x80_0000, power);
        assert(a <= edge * d) by (nonlinear_arith)
            requires
                a == d * x + a as int % d as int,
                a as int % (d as int) < d,
                x + 1 <= edge,
                0 < d,
        ;
        assert(edge * d <= b) by (nonlinear_arith)
            requires
                b == d * y + b as int % d as int,
                b as int % d as int >= 0,
                edge <= y,
                0 < d,
        ;
        lemma_ratio_stays_below(a, d, edge);
        lemma_ratio_stays_above(b, d, edge);
    }
}

/// More steps are rounded to no fewer.
pub proof fn lemma_rounded_goes_up(a: nat, b: nat)
    requires
        a <= b,
    ensures
        rounded(a) <= rounded(b),
{
    lemma_ratio_goes_up(a, b, 1);
    lemma_ratio_of_one(a);
    lemma_ratio_of_one(b);
}

/// More steps make a number that is further from zero.
proof fn lemma_further_out(fewer: nat, more: nat, negative: bool)
    requires
        fewer <= more,
    ensures
        number_of(fewer, negative).is_number(),
        number_of(more, negative).is_number(),
        number_of(fewer, negative).negative() == negative,
        number_of(more, negative).negative() == negative,
        number_of(fewer, negative).magnitude() <= number_of(more, negative).magnitude(),
{
    lemma_bits_increase(fewer, more);
}

/// Of two finite numbers the lower has the lower value.
pub proof fn lemma_values_in_order(a: Number, b: Number)
    requires
        a.is_finite(),
        b.is_finite(),
    ensures
        a.le(b) <==> a.steps() <= b.steps(),
        a.negative() ==> a.steps() == -a.size(),
        !a.negative() ==> a.steps() == a.size(),
        b.negative() ==> b.steps() == -b.size(),
        !b.negative() ==> b.steps() == b.size(),
{
    law_rank_orders_values(b, a);
    lemma_steps_are_sizes(a);
    lemma_steps_are_sizes(b);
}

/// Sums keep order: adding the same to the larger of two numbers gives no less.
pub proof fn law_sums_keep_order(a: Number, b: Number, more: Number)
    requires
        more.is_finite(),
        a.le(b),
    ensures
        a.sum(more).le(b.sum(more)),
{
    reveal(Number::sum);
    let (low, high) = (a.steps() + more.steps(), b.steps() + more.steps());
    if a.is_finite() && b.is_finite() {
        lemma_values_in_order(a, b);
        if low < 0 && high < 0 {
            lemma_rounded_goes_up((-high) as nat, (-low) as nat);
            lemma_further_out(rounded((-high) as nat), rounded((-low) as nat), true);
        }
        if low > 0 && high > 0 {
            lemma_rounded_goes_up(low as nat, high as nat);
            lemma_further_out(rounded(low as nat), rounded(high as nat), false);
        }
    }
    if low < 0 {
        lemma_further_out(rounded((-low) as nat), rounded((-low) as nat), true);
    }
    if high > 0 {
        lemma_further_out(rounded(high as nat), rounded(high as nat), false);
    }
}

/// A number less one that is below it is more than nothing.
pub proof fn lemma_more_than_nothing(a: Number, b: Number)
    requires
        a.is_finite(),
        b.is_finite(),
        b.lt(a),
    ensures
        num(0).lt(a.difference(b)),
{
    reveal(Number::sum);
    law_rank_orders_values(b, a);
    assert(b.negated().magnitude() == b.magnitude());
    let steps = (a.steps() - b.steps()) as nat;
    lemma_small_is_exact(1);
    lemma_rounded_stays_above(steps, 1);
    lemma_bits_increase(1, rounded(steps));
}

/// Differences turn order round: taking the larger of two numbers away leaves no more.
pub proof fn law_differences_turn_order(from: Number, a: Number, b: Number)
    requires
        from.is_finite(),
        a.le(b),
    ensures
        from.difference(b).le(from.difference(a)),
{
    reveal(Number::sum);
    assert(a.negated().magnitude() == a.magnitude());
    assert(b.negated().magnitude() == b.magnitude());
    law_sums_keep_order(b.negated(), a.negated(), from);
}

/// Products keep order: the larger of two numbers, times what is not negative, is no less.
pub proof fn law_products_keep_order(a: Number, b: Number, by: Number)
    requires
        a.is_finite(),
        b.is_finite(),
        by.is_finite(),
        !by.negative(),
        a.le(b),
    ensures
        a.product(by).le(b.product(by)),
{
    reveal(Number::product);
    let d = pow2(149);
    lemma_pow2_pos(149);
    lemma_values_in_order(a, b);
    lemma_values_in_order(by, by);
    let (p, q) = (a.size() * by.size(), b.size() * by.size());
    lemma_further_out(ratio(p, d), ratio(p, d), a.negative());
    lemma_further_out(ratio(q, d), ratio(q, d), b.negative());
    lemma_in_order(p, q, a, b, by.size());
    if p == 0 && q == 0 {
        lemma_ratio_vanishes(0, d);
    }
    if p <= q {
        lemma_ratio_goes_up(p, q, d);
        lemma_further_out(ratio(p, d), ratio(q, d), a.negative());
    } else {
        lemma_ratio_goes_up(q, p, d);
        lemma_further_out(ratio(q, d), ratio(p, d), a.negative());
    }
}

/// The sizes of two numbers in order, scaled, are in order, the other way round below zero.
proof fn lemma_in_order(p: nat, q: nat, a: Number, b: Number, k: nat)
    requires
        a.is_finite(),
        b.is_finite(),
        a.le(b),
        p == a.size() * k,
        q == b.size() * k,
    ensures
        !a.negative() && !b.negative() ==> p <= q,
        a.negative() && b.negative() ==> q <= p,
        !a.negative() && b.negative() ==> p == 0 && q == 0,
{
    lemma_values_in_order(a, b);
    if a.size() <= b.size() {
        assert(p <= q) by (nonlinear_arith)
            requires
                p == a.size() * k,
                q == b.size() * k,
                a.size() <= b.size(),
                k >= 0,
        ;
    }
    if b.size() <= a.size() {
        assert(q <= p) by (nonlinear_arith)
            requires
                p == a.size() * k,
                q == b.size() * k,
                b.size() <= a.size(),
                k >= 0,
        ;
    }
    if !a.negative() && b.negative() {
        assert(a.size() == 0 && b.size() == 0);
        assert(0 * k == 0);
    }
}

/// Quotients keep order: the larger of two numbers, over what is above zero, is no less.
pub proof fn law_quotients_keep_order(a: Number, b: Number, over: Number)
    requires
        over.is_finite(),
        !over.negative(),
        !over.is_zero_spec(),
        a.le(b),
    ensures
        a.quotient(over).le(b.quotient(over)),
{
    reveal(Number::quotient);
    let one = pow2(149);
    let d = over.size();
    lemma_values_in_order(over, over);
    lemma_steps_nonnegative(over.magnitude());
    let (p, q) = (a.size() * one, b.size() * one);
    lemma_further_out(ratio(p, d), ratio(p, d), a.negative());
    lemma_further_out(ratio(q, d), ratio(q, d), b.negative());
    if a.is_finite() && b.is_finite() {
        lemma_in_order(p, q, a, b, one);
    }
    if p == 0 && q == 0 {
        lemma_ratio_vanishes(0, d);
    }
    if p <= q {
        lemma_ratio_goes_up(p, q, d);
        lemma_further_out(ratio(p, d), ratio(q, d), a.negative());
    } else {
        lemma_ratio_goes_up(q, p, d);
        lemma_further_out(ratio(q, d), ratio(p, d), a.negative());
    }
}

/// A ratio is rounded to within half a step, and within a part in so many of it where it has 24
/// bits or more.
pub proof fn lemma_ratio_is_near(n: nat, d: nat)
    requires
        0 < d,
    ensures
        n < 0x80_0000 * d ==> 2 * (ratio(n, d) * d - n) <= d && 2 * (n - ratio(n, d) * d) <= d,
        0x80_0000 * d <= n ==> 0x100_0000 * (ratio(n, d) * d - n) <= n && 0x100_0000 * (n - ratio(
            n,
            d,
        ) * d) <= n,
{
    let x = n / d;
    let unit = spacing(x);
    let u = unit * d;
    lemma_spacing_positive(x);
    lemma_spacing_range(x);
    lemma_fundamental_div_mod(n as int, d as int);
    lemma_mod_bound(n as int, d as int);
    assert(0 < u) by (nonlinear_arith)
        requires
            u == unit * d,
            0 < unit,
            0 < d,
    ;
    if 0x80_0000 * d <= n {
        assert(0x80_0000 <= x) by (nonlinear_arith)
            requires
                0x80_0000 * d <= n,
                n == d * x + n as int % d as int,
                n as int % (d as int) < d,
                0 < d,
        ;
        assert(0x80_0000 * u <= n) by (nonlinear_arith)
            requires
                u == unit * d,
                0x80_0000 * unit <= x,
                n == d * x + n as int % d as int,
                n as int % d as int >= 0,
                0 < d,
        ;
    } else {
        assert(x < 0x80_0000) by (nonlinear_arith)
            requires
                n < 0x80_0000 * d,
                n == d * x + n as int % d as int,
                n as int % d as int >= 0,
                0 < d,
        ;
        assert(unit == 1);
        assert(1 * d == d);
    }
    let (q, r) = (n as int / u as int, n as int % u as int);
    lemma_fundamental_div_mod(n as int, u as int);
    lemma_mod_bound(n as int, u as int);
    assert((q * unit) * d == u * q && ((q + 1) * unit) * d == u * q + u) by (nonlinear_arith)
        requires
            u == unit * d,
    ;
}

/// Any number of steps is rounded to within a part in so many of it.
pub proof fn lemma_rounded_is_near(p: nat)
    ensures
        0x100_0000 * (rounded(p) - p) <= p,
        0x100_0000 * (p - rounded(p)) <= p,
{
    if p < 0x80_0000 {
        lemma_small_is_exact(p);
    } else {
        lemma_ratio_is_near(p, 1);
        lemma_ratio_of_one(p);
    }
}

/// What a ratio is rounded to is a binary32 number.
pub proof fn lemma_ratio_is_exact(n: nat, d: nat)
    requires
        0 < d,
    ensures
        rounded(ratio(n, d)) == ratio(n, d),
{
    let x = n / d;
    let unit = spacing(x);
    let u = unit * d;
    lemma_spacing_positive(x);
    lemma_spacing_range(x);
    let k = lemma_spacing_is_a_power(x);
    lemma_fundamental_div_mod(n as int, d as int);
    lemma_mod_bound(n as int, d as int);
    assert(0 < u) by (nonlinear_arith)
        requires
            u == unit * d,
            0 < unit,
            0 < d,
    ;
    let q = n as int / u as int;
    lemma_fundamental_div_mod(n as int, u as int);
    lemma_mod_bound(n as int, u as int);
    assert(n < 0x100_0000 * u) by (nonlinear_arith)
        requires
            u == unit * d,
            x + 1 <= 0x100_0000 * unit,
            n == d * x + n as int % d as int,
            n as int % (d as int) < d,
            0 < d,
    ;
    assert(q < 0x100_0000) by (nonlinear_arith)
        requires
            n < 0x100_0000 * u,
            n == u * q + n as int % u as int,
            n as int % u as int >= 0,
            0 < u,
    ;
    lemma_div_pos_is_pos(n as int, u as int);
    lemma_scaled_is_exact(q as nat, k);
    if q + 1 < 0x100_0000 {
        lemma_scaled_is_exact((q + 1) as nat, k);
    } else {
        lemma_scaled_is_exact(0x80_0000, k + 1);
        lemma_pow2_unfold(k + 1);
        assert(0x100_0000 * pow2(k) == 0x80_0000 * pow2(k + 1)) by (nonlinear_arith)
            requires
                pow2(k + 1) == 2 * pow2(k),
        ;
    }
}

/// A sum that is not negative has as many steps as its parts have, rounded.
pub proof fn lemma_sum_steps(a: Number, b: Number, most: Number)
    requires
        a.is_finite(),
        b.is_finite(),
        most.is_finite(),
        0 <= a.steps() + b.steps() <= most.size(),
    ensures
        a.sum(b).is_finite(),
        a.sum(b).steps() == rounded((a.steps() + b.steps()) as nat),
{
    reveal(Number::sum);
    let steps = (a.steps() + b.steps()) as nat;
    lemma_size_is_exact(most);
    lemma_rounded_stays_below(steps, most.size());
    lemma_bits_increase(rounded(steps), most.size());
    lemma_ratio_is_exact(steps, 1);
    lemma_ratio_of_one(steps);
    lemma_small_is_exact(0);
    if steps > 0 {
        lemma_exact_steps(rounded(steps), false);
    }
}

/// A swing of up to one times a height, round a middle, stays between the middle less the height
/// and the middle and the height.
pub proof fn lemma_swing(middle: Number, height: Number, swing: Number)
    requires
        middle.is_number(),
        height.is_finite(),
        !height.negative(),
        swing.magnitude() <= 0x3f80_0000,
    ensures
        height.product(swing).magnitude() <= height.magnitude(),
        middle.difference(height).le(middle.sum(height.product(swing))),
        middle.sum(height.product(swing)).le(middle.sum(height)),
{
    let part = height.product(swing);
    let low = height.negated();
    law_a_part_is_no_larger(height, swing);
    assert(low.magnitude() == height.magnitude());
    if middle.is_finite() {
        law_sums_keep_order(low, part, middle);
        law_sums_keep_order(part, height, middle);
        lemma_sums_commute(low, middle);
        lemma_sums_commute(part, middle);
        lemma_sums_commute(height, middle);
    } else {
        reveal(Number::sum);
    }
}

/// A finite sum is near to the sum of what its parts stand for.
pub proof fn lemma_sum_is_near(a: Number, b: Number)
    requires
        a.is_finite(),
        b.is_finite(),
        a.sum(b).is_finite(),
    ensures
        0x100_0000 * (a.sum(b).steps() - (a.steps() + b.steps())) <= distance(
            a.steps() + b.steps(),
            0,
        ),
        0x100_0000 * ((a.steps() + b.steps()) - a.sum(b).steps()) <= distance(
            a.steps() + b.steps(),
            0,
        ),
{
    reveal(Number::sum);
    let steps = a.steps() + b.steps();
    let size = distance(steps, 0) as nat;
    lemma_rounded_is_near(size);
    lemma_ratio_is_exact(size, 1);
    lemma_ratio_of_one(size);
    if steps != 0 {
        lemma_exact_steps(rounded(size), steps < 0);
    }
}

/// How far apart two values are.
pub open spec fn distance(a: int, b: int) -> int {
    if a <= b {
        b - a
    } else {
        a - b
    }
}

/// A number no larger than another stands for no more, on either side of zero.
pub proof fn lemma_reach(n: Number, most: Number)
    requires
        n.magnitude() <= most.magnitude(),
        most.is_finite(),
    ensures
        -(most.size() as int) <= n.steps() <= most.size(),
        n.is_finite(),
{
    lemma_steps_are_sizes(n);
    lemma_steps_are_sizes(most);
    if n.magnitude() < most.magnitude() {
        lemma_steps_increase(n.magnitude(), most.magnitude());
    }
}

/// The order of two addends does not matter.
pub proof fn lemma_sums_commute(a: Number, b: Number)
    requires
        a.is_finite(),
        b.is_finite(),
    ensures
        a.sum(b) == b.sum(a),
{
    reveal(Number::sum);
}

/// A number and nothing more is where the number is.
pub proof fn lemma_nothing_more(n: Number, zero: Number)
    requires
        n.is_finite(),
        zero.is_zero_spec(),
    ensures
        n.sum(zero).same(n),
        zero.sum(n).same(n),
{
    law_zero_adds_nothing(n, zero);
    lemma_sums_commute(n, zero);
    if n.is_zero_spec() {
        lemma_sum_of_zeros(n, zero);
    }
}

/// What is left of one of two numbers that are not negative, less the other, is between them.
pub proof fn lemma_less(a: Number, b: Number)
    requires
        a.is_finite(),
        b.is_finite(),
        num(0).le(a),
        num(0).le(b),
    ensures
        a.difference(b).is_finite(),
        b.le(a) ==> num(0).le(a.difference(b)) && a.difference(b).le(a),
        a.le(b) ==> a.difference(b).le_zero() && b.negated().le(a.difference(b)),
{
    let off = b.negated();
    assert(off.magnitude() == b.magnitude());
    lemma_values_in_order(a, b);
    lemma_values_in_order(b, a);
    lemma_values_in_order(num(0), a);
    lemma_values_in_order(num(0), b);
    lemma_steps_are_sizes(off);
    lemma_sum_between(off, a, a, off);
    if b.le(a) {
        lemma_sum_between(num(0), a, a, off);
    }
    if a.le(b) {
        lemma_sum_between(off, num(0), a, off);
    }
}

/// A swing about a middle goes up as what drives it does.
pub proof fn lemma_swings_up(middle: Number, height: Number, low: Number, high: Number)
    requires
        middle.is_finite(),
        height.is_finite(),
        !height.negative(),
        low.magnitude() <= 0x3f80_0000,
        high.magnitude() <= 0x3f80_0000,
        low.le(high),
    ensures
        middle.sum(height.product(low)).le(middle.sum(height.product(high))),
{
    law_products_keep_order(low, high, height);
    law_products_commute(low, height);
    law_products_commute(high, height);
    law_a_part_is_no_larger(height, low);
    law_a_part_is_no_larger(height, high);
    let (p, q) = (height.product(low), height.product(high));
    law_sums_keep_order(p, q, middle);
    lemma_sums_commute(p, middle);
    lemma_sums_commute(q, middle);
}

/// A swing is at or above its middle where what drives it is not below nothing, at its top where that
/// is one, and the other way about below.
pub proof fn lemma_swings_both_ways(middle: Number, height: Number, swing: Number)
    requires
        middle.is_finite(),
        height.is_finite(),
        !height.negative(),
        swing.magnitude() <= 0x3f80_0000,
    ensures
        num(0).le(swing) ==> middle.le(middle.sum(height.product(swing))),
        swing.le(num(0)) ==> middle.sum(height.product(swing)).le(middle),
        one().le(swing) ==> middle.sum(height).le(middle.sum(height.product(swing))),
        swing.le(one().negated()) ==> middle.sum(height.product(swing)).le(
            middle.difference(height),
        ),
{
    let none = num(0);
    law_times_zero_is_zero(height, none);
    lemma_nothing_more(middle, height.product(none));
    law_times_one_is_itself(height);
    if none.le(swing) {
        lemma_swings_up(middle, height, none, swing);
    }
    if swing.le(none) {
        lemma_swings_up(middle, height, swing, none);
    }
    if one().le(swing) {
        lemma_swings_up(middle, height, one(), swing);
    }
    if swing.le(one().negated()) {
        let down = one().negated();
        lemma_swings_up(middle, height, swing, down);
        assert(height.product(down) == height.negated()) by {
            reveal(Number::product);
            assert(down.size() == one().size());
        }
    }
}

} // verus!
