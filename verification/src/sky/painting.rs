//! What the painted sky looks like: which channel the glow goes to, where the two ends of the
//! gradient are, and which rows of it a block shows.

use vstd::arithmetic::div_mod::*;
use vstd::arithmetic::mul::lemma_mul_is_commutative;
use vstd::arithmetic::power2::*;
use vstd::prelude::*;

use crate::arith::{
    law_a_part_is_no_larger, law_times_one_is_itself, law_times_zero_is_zero,
    lemma_steps_are_sizes, one, whole_number,
};
use crate::number::{
    INFINITY, Number, lemma_steps_increase, lemma_steps_nonnegative, magnitude_steps, num,
};
use crate::order::{
    law_products_keep_order, law_quotients_keep_order, law_sums_keep_order, lemma_less,
    lemma_nothing_more, lemma_sum_is_near, lemma_sums_commute, lemma_values_in_order,
};
use crate::sky::colour::{
    Gradient, HorizonGlow, Tone, block_y, is_channel, is_colour, mixed, sky_bytes, texel_at,
    view_part,
};
use crate::sky::fading::{
    law_nothing_glows_above_the_band, law_the_glow_floods_below_the_band,
    law_the_glow_grows_downward, law_the_glow_is_warm, lemma_down, lemma_up,
};
use crate::sky::model::{block_px, law_dither_averages_to_the_centre, sampled};
use crate::sprite::bake::{byte_at, lemma_byte_at};
use crate::whole::{
    is_whole, law_small_whole_numbers_are_exact, law_whole_differences_are_exact,
    law_whole_products_are_exact, law_whole_sums_are_exact, lemma_five,
};

verus! {

/// One of a colour's three channels: red, green or blue.
pub open spec fn channel_of(tone: Tone, c: int) -> Number {
    if c == 0 {
        tone.r
    } else if c == 1 {
        tone.g
    } else {
        tone.b
    }
}

/// More is no smaller a byte.
proof fn lemma_bytes_keep_order(a: Number, b: Number)
    requires
        a.le(b),
    ensures
        a.byte() <= b.byte(),
{
    reveal(Number::byte);
    if !a.negative() && !b.is_infinite() && b.magnitude() < INFINITY {
        if a.magnitude() < b.magnitude() && !b.negative() {
            lemma_steps_increase(a.magnitude(), b.magnitude());
        }
        lemma_steps_nonnegative(a.magnitude());
        lemma_steps_nonnegative(b.magnitude());
        lemma_pow2_pos(149);
        if !b.negative() {
            lemma_div_is_ordered(a.size() as int, b.size() as int, pow2(149) as int);
        }
    }
}

/// A number that is nothing but its sign adds no byte.
proof fn lemma_same_byte(a: Number, b: Number)
    requires
        a.same(b),
    ensures
        a.byte() == b.byte(),
{
    lemma_bytes_keep_order(a, b);
    lemma_bytes_keep_order(b, a);
}

/// A whole number up to 255 is its byte.
proof fn lemma_whole_byte(n: Number, k: int)
    requires
        is_whole(n, k),
        0 <= k <= 255,
    ensures
        n.byte() == k,
{
    reveal(Number::byte);
    lemma_pow2_pos(149);
    lemma_steps_nonnegative(n.magnitude());
    assert(k > 0 ==> k * pow2(149) > 0) by (nonlinear_arith)
        requires
            pow2(149) > 0,
    ;
    assert(n.negative() ==> k == 0) by {
        if n.negative() && k > 0 {
            assert(n.steps() <= 0);
        }
    }
    if k == 0 {
        assert(k * pow2(149) == 0) by (nonlinear_arith)
            requires
                k == 0,
        ;
        assert(n.steps() == 0);
        lemma_div_multiples_vanish(0, pow2(149) as int);
    }
    lemma_div_multiples_vanish(k, pow2(149) as int);
    lemma_mul_is_commutative(k, pow2(149) as int);
}

/// The gradient's own channel at a row.
spec fn base(ends: Gradient, y: Number, view_h: Number, c: int) -> Number {
    mixed(channel_of(ends.top, c), channel_of(ends.bottom, c), view_part(y, view_h))
}

proof fn lemma_part_of_view(y: Number, view_h: Number)
    requires
        y.is_number(),
        view_h.is_finite(),
    ensures
        num(0).le(view_part(y, view_h)),
        view_part(y, view_h).le(one()),
        y.le_zero() ==> view_part(y, view_h).is_zero_spec(),
        num(0).lt(view_h) && view_h.le(y) ==> view_part(y, view_h) == one(),
{
    if num(0).lt(view_h) {
        law_quotients_keep_order(y, y, view_h);
        if y.le_zero() {
            law_quotients_keep_order(y, num(0), view_h);
            crate::arith::lemma_zero_over(num(0), view_h);
        }
        if view_h.le(y) {
            law_quotients_keep_order(view_h, y, view_h);
            crate::arith::law_itself_goes_in_once(view_h);
        }
    }
}

proof fn lemma_base_is_a_number(ends: Gradient, y: Number, view_h: Number, c: int)
    requires
        is_colour(ends.top),
        is_colour(ends.bottom),
        y.is_number(),
        view_h.is_finite(),
    ensures
        num(0).le(base(ends, y, view_h, c)),
        base(ends, y, view_h, c).is_finite(),
        base(ends, y, view_h, c).steps() <= 0x200 * pow2(149),
{
    let (a, b, t) = (channel_of(ends.top, c), channel_of(ends.bottom, c), view_part(y, view_h));
    lemma_part_of_view(y, view_h);
    lemma_less(b, a);
    let way = b.difference(a);
    law_a_part_is_no_larger(way, t);
    let step = way.product(t);
    let most = num(0x4400_0000);
    lemma_sizes();
    lemma_values_in_order(a, num(0x4380_0000));
    if a.le(b) {
        lemma_up(a, b, t, t);
        assert(way.le(num(0x4380_0000)));
    } else {
        lemma_down(a, b, t, t);
    }
    crate::order::lemma_reach(step, num(0x4380_0000));
    if a.le(b) {
        lemma_values_in_order(step, num(0x4380_0000));
        crate::arith::lemma_sum_between(most.negated(), most, a, step);
    } else {
        lemma_back_to(a, b, t);
        crate::arith::lemma_sum_between(most.negated(), most, a, step);
    }
    lemma_values_in_order(base(ends, y, view_h, c), most);
}

proof fn lemma_sizes()
    ensures
        num(0x4380_0000).size() == 0x100 * pow2(149),
        num(0x4400_0000).size() == 0x200 * pow2(149),
        pow2(149) > 0,
{
    lemma_pow2_pos(149);
    lemma2_to64();
    lemma_pow2_adds(23, 135);
    lemma_pow2_adds(9, 149);
    lemma_pow2_adds(23, 134);
    lemma_pow2_adds(8, 149);
}

/// Going down to a number that is not below nothing does not go below nothing.
proof fn lemma_back_to(a: Number, b: Number, t: Number)
    requires
        is_channel(a),
        is_channel(b),
        b.le(a),
        num(0).le(t),
        t.le(one()),
    ensures
        num(0).le(mixed(a, b, t)),
{
    let way = b.difference(a);
    lemma_less(b, a);
    law_a_part_is_no_larger(way, t);
    let step = way.product(t);
    assert(a.negated().magnitude() == a.magnitude());
    crate::order::lemma_reach(step, way);
    crate::order::lemma_reach(way, a);
    crate::order::lemma_reach(a, num(0x4380_0000));
    lemma_sizes();
    lemma_values_in_order(a, a);
    lemma_steps_are_sizes(way);
    if way.magnitude() < a.magnitude() {
        lemma_steps_increase(way.magnitude(), a.magnitude());
    }
    crate::arith::lemma_sum_between(num(0), num(0x4400_0000), a, step);
}

/// What a glow adds to a row is not below nothing, and no more than a channel holds.
proof fn lemma_glow_is_within(glow: HorizonGlow, y: Number, c: int)
    requires
        num(0).lt(glow.strength),
        glow.strength.le(one()),
        glow.top.is_finite(),
        glow.bottom.is_finite(),
        glow.top.lt(glow.bottom),
        y.is_finite(),
    ensures
        num(0).le(channel_of(glow.added(y), c)),
        channel_of(glow.added(y), c).le(num(0x437f_0000)),
{
    law_nothing_glows_above_the_band(glow, glow.top);
    law_the_glow_is_warm(glow);
    if y.le(glow.top) {
        law_nothing_glows_above_the_band(glow, y);
    } else {
        law_the_glow_grows_downward(glow, glow.top, y);
        if glow.bottom.le(y) {
            law_the_glow_floods_below_the_band(glow, y);
        } else {
            law_the_glow_grows_downward(glow, y, glow.bottom);
        }
    }
}

/// A byte below the last is a number cut off after the point.
proof fn lemma_byte_is_below(n: Number)
    requires
        n.is_finite(),
        num(0).le(n),
        n.byte() < 255,
    ensures
        n.byte() * pow2(149) <= n.steps() < (n.byte() + 1) * pow2(149),
{
    reveal(Number::byte);
    lemma_pow2_pos(149);
    lemma_steps_are_sizes(n);
    lemma_steps_nonnegative(n.magnitude());
    let (size, one) = (n.size() as int, pow2(149) as int);
    if n.negative() {
        assert(n.magnitude() == 0);
        lemma_fundamental_div_mod(0, one);
        assert(magnitude_steps(0) == 0);
        assert(0 * one == 0 && (0 + 1) * one == one) by (nonlinear_arith);
    } else {
        lemma_fundamental_div_mod(size, one);
        lemma_mod_bound(size, one);
        let q = size / one;
        assert(q * one <= size < (q + 1) * one) by (nonlinear_arith)
            requires
                size == one * q + size % one,
                0 <= size % one < one,
        ;
    }
}

/// The glow goes to each channel by itself: a channel of the painted sky exceeds what it is without
/// the glow by that channel of what the glow adds, up to cutting short, and never falls below it. A
/// channel that is full already stays full.
pub proof fn law_each_channel_gets_its_own_glow(
    ends: Gradient,
    glow: HorizonGlow,
    y: Number,
    view_h: Number,
    c: int,
)
    requires
        is_colour(ends.top),
        is_colour(ends.bottom),
        num(0).lt(glow.strength),
        glow.strength.le(one()),
        glow.top.is_finite(),
        glow.bottom.is_finite(),
        glow.top.lt(glow.bottom),
        y.is_finite(),
        view_h.is_finite(),
        0 <= c < 3,
    ensures
        ({
            let bare = texel_at(ends, None, y, view_h)[c] as int;
            let lit = texel_at(ends, Some(glow), y, view_h)[c] as int;
            let added = channel_of(glow.added(y), c).steps();
            let one = pow2(149) as int;
            &&& bare <= lit
            &&& lit < 255 ==> 256 * ((lit - bare) * one - added) <= 257 * one
            &&& lit < 255 ==> 256 * (added - (lit - bare) * one) <= 257 * one
        }),
{
    let b = base(ends, y, view_h, c);
    let a = channel_of(glow.added(y), c);
    let one = pow2(149) as int;
    lemma_base_is_a_number(ends, y, view_h, c);
    lemma_glow_is_within(glow, y, c);
    lemma_nothing_more(b, num(0));
    lemma_same_byte(b.sum(num(0)), b);
    let bare = b.byte() as int;
    let lit = b.sum(a).byte() as int;
    assert(texel_at(ends, None, y, view_h)[c] == bare);
    assert(texel_at(ends, Some(glow), y, view_h)[c] == lit);
    law_sums_keep_order(num(0), a, b);
    lemma_sums_commute(num(0), b);
    lemma_sums_commute(a, b);
    lemma_bytes_keep_order(b.sum(num(0)), b.sum(a));
    lemma_sizes();
    lemma_values_in_order(num(0), a);
    lemma_values_in_order(num(0), b);
    lemma_values_in_order(a, num(0x4380_0000));
    assert(num(0x4480_0000).size() == 0x400 * pow2(149)) by {
        lemma2_to64();
        lemma_pow2_adds(23, 136);
        lemma_pow2_adds(10, 149);
    }
    crate::arith::lemma_sum_between(num(0), num(0x4480_0000), b, a);
    lemma_sum_is_near(b, a);
    if lit < 255 {
        let sum = b.sum(a);
        lemma_byte_is_below(b);
        lemma_byte_is_below(sum);
        assert(lit * one - bare * one == (lit - bare) * one) by (nonlinear_arith);
        assert((lit + 1) * one == lit * one + one) by (nonlinear_arith);
        assert((bare + 1) * one == bare * one + one) by (nonlinear_arith);
    }
}

/// The painted sky is as warm as its glow: over a gradient of greys no channel is less than one that
/// the glow adds no more to, and from the bottom of the band down red is at least green and green at
/// least blue.
pub proof fn law_a_grey_sky_glows_warm(ends: Gradient, glow: HorizonGlow, y: Number, view_h: Number)
    requires
        is_colour(ends.top),
        is_colour(ends.bottom),
        ends.top.r == ends.top.g,
        ends.top.g == ends.top.b,
        ends.bottom.r == ends.bottom.g,
        ends.bottom.g == ends.bottom.b,
        num(0).lt(glow.strength),
        glow.strength.le(one()),
        glow.top.is_finite(),
        glow.bottom.is_finite(),
        glow.top.lt(glow.bottom),
        y.is_finite(),
        view_h.is_finite(),
    ensures
        ({
            let lit = texel_at(ends, Some(glow), y, view_h);
            &&& forall|c: int, d: int|
                #![trigger lit[c], lit[d]]
                0 <= c < 3 && 0 <= d < 3 && channel_of(glow.added(y), c).le(
                    channel_of(glow.added(y), d),
                ) ==> lit[c] <= lit[d]
            &&& glow.bottom.le(y) ==> lit[2] <= lit[1] && lit[1] <= lit[0]
        }),
{
    let lit = texel_at(ends, Some(glow), y, view_h);
    assert forall|c: int, d: int|
        #![trigger lit[c], lit[d]]
        0 <= c < 3 && 0 <= d < 3 && channel_of(glow.added(y), c).le(
            channel_of(glow.added(y), d),
        ) implies lit[c] <= lit[d] by {
        let (p, q) = (channel_of(glow.added(y), c), channel_of(glow.added(y), d));
        let b = base(ends, y, view_h, c);
        lemma_base_is_a_number(ends, y, view_h, c);
        lemma_glow_is_within(glow, y, c);
        lemma_glow_is_within(glow, y, d);
        law_sums_keep_order(p, q, b);
        lemma_sums_commute(p, b);
        lemma_sums_commute(q, b);
        lemma_bytes_keep_order(b.sum(p), b.sum(q));
        assert(b == base(ends, y, view_h, d));
    }
    law_the_glow_is_warm(glow);
    if glow.bottom.le(y) {
        law_the_glow_floods_below_the_band(glow, y);
        assert(lit[2] <= lit[1]);
    }
}

/// The sky runs from its top to its bottom, each channel by itself: of ends in whole numbers, the
/// first row of the view and all above it are the top's colour, the last and all below it are the
/// bottom's, and every row between is between them, no further from the bottom than the rows above
/// it. It is opaque.
pub proof fn law_the_sky_runs_from_top_to_bottom(
    ends: Gradient,
    y: Number,
    lower: Number,
    view_h: Number,
    c: int,
    top: int,
    bottom: int,
)
    requires
        is_colour(ends.top),
        is_colour(ends.bottom),
        0 <= c < 3,
        is_whole(channel_of(ends.top, c), top),
        is_whole(channel_of(ends.bottom, c), bottom),
        0 <= top <= 255,
        0 <= bottom <= 255,
        y.is_finite(),
        lower.is_finite(),
        y.le(lower),
        view_h.is_finite(),
        num(0).lt(view_h),
    ensures
        ({
            let (here, there) = (
                texel_at(ends, None, y, view_h)[c],
                texel_at(ends, None, lower, view_h)[c],
            );
            &&& y.le_zero() ==> here == top
            &&& view_h.le(y) ==> here == bottom
            &&& top <= bottom ==> top <= here <= there <= bottom
            &&& bottom <= top ==> bottom <= there <= here <= top
            &&& texel_at(ends, None, y, view_h)[3] == 255
        }),
{
    let (a, b) = (channel_of(ends.top, c), channel_of(ends.bottom, c));
    let (s, t) = (view_part(y, view_h), view_part(lower, view_h));
    let way = b.difference(a);
    lemma_part_of_view(y, view_h);
    lemma_part_of_view(lower, view_h);
    law_quotients_keep_order(y, lower, view_h);
    law_whole_differences_are_exact(b, a, bottom, top);
    law_times_one_is_itself(way);
    law_whole_sums_are_exact(a, way, top, bottom - top);
    lemma_base_is_a_number(ends, y, view_h, c);
    lemma_base_is_a_number(ends, lower, view_h, c);
    let (here, there, all) = (mixed(a, b, s), mixed(a, b, t), mixed(a, b, one()));
    lemma_nothing_more(here, num(0));
    lemma_nothing_more(there, num(0));
    lemma_same_byte(here.sum(num(0)), here);
    lemma_same_byte(there.sum(num(0)), there);
    lemma_whole_byte(a, top);
    lemma_whole_byte(all, bottom);
    lemma_values_in_order(a, b);
    lemma_pow2_pos(149);
    assert(a.le(b) == (top <= bottom)) by {
        assert((top * pow2(149) <= bottom * pow2(149)) == (top <= bottom)) by (nonlinear_arith)
            requires
                pow2(149) > 0,
        ;
    }
    if s.is_zero_spec() {
        law_times_zero_is_zero(way, s);
        lemma_nothing_more(a, way.product(s));
        lemma_same_byte(here, a);
    }
    assert(s.le(t) && t.le(one()));
    if top <= bottom {
        lemma_up(a, b, s, t);
        lemma_up(a, b, t, one());
        lemma_bytes_keep_order(a, here);
        lemma_bytes_keep_order(here, there);
        lemma_bytes_keep_order(there, all);
    }
    if bottom <= top {
        lemma_values_in_order(b, a);
        assert(b.le(a));
        lemma_down(a, b, s, t);
        lemma_down(a, b, t, one());
        lemma_bytes_keep_order(here, a);
        lemma_bytes_keep_order(there, here);
        lemma_bytes_keep_order(all, there);
    }
}

/// A block takes its colour from a row inside itself: of the rows five pixels high that the blocks
/// are, the one it is in.
proof fn lemma_block_samples_itself(bx: int, row: nat)
    requires
        row < 0x20_0000,
    ensures
        block_y(bx, row).is_finite(),
        (5 * row) * pow2(149) <= block_y(bx, row).steps() <= (5 * (row + 1)) * pow2(149),
{
    let k = sampled(bx, row as int);
    let five = block_px();
    law_dither_averages_to_the_centre(bx, row as int);
    law_small_whole_numbers_are_exact(k);
    law_small_whole_numbers_are_exact(row as int);
    let at = whole_number(row);
    let (n, all) = (whole_number(k as nat), num(0x4200_0000));
    lemma2_to64();
    lemma_pow2_adds(23, 131);
    lemma_pow2_adds(5, 149);
    assert(is_whole(all, 32));
    lemma_pow2_pos(149);
    assert(0 * pow2(149) <= k * pow2(149) <= 32 * pow2(149)) by (nonlinear_arith)
        requires
            0 <= k <= 32,
            pow2(149) > 0,
    ;
    lemma_values_in_order(num(0), n);
    lemma_values_in_order(n, all);
    law_quotients_keep_order(num(0), n, all);
    law_quotients_keep_order(n, all, all);
    crate::arith::law_itself_goes_in_once(all);
    crate::arith::lemma_zero_over(num(0), all);
    let part = n.quotient(all);
    assert(num(0).le(part) && part.le(one()));
    law_sums_keep_order(num(0), part, at);
    law_sums_keep_order(part, one(), at);
    lemma_sums_commute(num(0), at);
    lemma_sums_commute(part, at);
    lemma_sums_commute(one(), at);
    lemma_nothing_more(at, num(0));
    crate::arith::lemma_one();
    assert(is_whole(one(), 1));
    law_whole_sums_are_exact(at, one(), row as int, 1);
    let y = at.sum(part);
    assert(at.le(y) && y.le(at.sum(one())));
    lemma_five();
    law_products_keep_order(at, y, five);
    law_products_keep_order(y, at.sum(one()), five);
    law_whole_products_are_exact(at, five, row as int, 5);
    law_whole_products_are_exact(at.sum(one()), five, (row + 1) as int, 5);
    let (lo, mid, hi) = (at.product(five), y.product(five), at.sum(one()).product(five));
    assert(lo.le(mid) && mid.le(hi));
    lemma_values_in_order(lo, mid);
    lemma_values_in_order(mid, hi);
}

/// A block of the painted sky shows a row of the sky that it covers: the block in column `col` and
/// row `row`, counted from the top left, has the colour of a row from five times its own down to
/// five pixels further.
pub proof fn law_a_block_shows_its_own_rows(
    ends: Gradient,
    glow: Option<HorizonGlow>,
    cols: nat,
    rows: nat,
    view_h: Number,
    col: int,
    row: int,
)
    requires
        0 <= col < cols,
        0 <= row < rows,
        row < 0x20_0000,
    ensures
        exists|y: Number|
            y.is_finite() && (5 * row) * pow2(149) <= #[trigger] y.steps() <= (5 * (row + 1)) * pow2(149)
                && forall|k: int|
                0 <= k < 4 ==> #[trigger] sky_bytes(ends, glow, cols, rows, view_h)[4 * (row * cols
                    + col) + k] == texel_at(ends, glow, y, view_h)[k],
{
    let y = block_y(col, row as nat);
    lemma_block_samples_itself(col, row as nat);
    assert forall|k: int| 0 <= k < 4 implies #[trigger] sky_bytes(
        ends,
        glow,
        cols,
        rows,
        view_h,
    )[4 * (row * cols + col) + k] == texel_at(ends, glow, y, view_h)[k] by {
        lemma_byte_at(col, row, cols as int, rows as int, k);
        assert(byte_at(col, row, cols as int, k) == 4 * (row * cols + col) + k);
    }
    assert(y.steps() == y.steps());
}

} // verus!
