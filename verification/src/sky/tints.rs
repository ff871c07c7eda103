//! What the backdrop's colours and places answer to: which way each channel leans by day and at
//! dusk, what follows the sun, and what the camera moves.

use vstd::arithmetic::power2::*;
use vstd::prelude::*;

use crate::arith::{
    law_a_part_is_no_larger, law_itself_goes_in_once, law_less_itself_is_zero,
    law_products_commute, law_times_one_is_itself, law_times_zero_is_zero, law_zero_adds_nothing,
    lemma_product_is_number, lemma_size_is_exact, lemma_small_difference, lemma_steps_are_sizes,
    lemma_sum_is_number, lemma_zero_over, one, signed_number, whole_number,
};
use crate::number::{Number, lemma_steps_increase, num};
use crate::order::{
    law_differences_turn_order, law_products_keep_order, law_quotients_keep_order,
    law_sums_keep_order, lemma_less, lemma_more_than_nothing, lemma_nothing_more,
    lemma_sums_commute, lemma_swing, lemma_values_in_order,
};
use crate::rounding::{law_whole_pixels_stay, pixel};
use crate::sky::colour::{
    Disc, Palette, Recipe, SkyHour, Stop, Tone, along, between_rings, block_middle, block_radius,
    clamped255, disc_alphas, disc_blocks, end_channel, glow_at, horizon, is_channel, is_colour,
    law_night_is_the_biomes_own, lemma_no_step, mixed, mixed_tone, ramp_at, sky_ends, zenith,
};
use crate::sky::mesh::ViewSize;
use crate::sky::model::{block_px, law_dither_averages_to_the_centre, sampled};
use crate::sky::ridges::{Ridge, buried, snapped};
use crate::sky::stars::{
    StarSeed, corner_of, extent, hash_bits, hashed, law_wrapped_is_inside, star_seed,
    star_visibility, wrapped,
};
use crate::whole::{
    is_halves, is_whole, law_differences_of_halves_are_exact, law_half_of_a_whole_is_exact,
    law_nearest_is_the_pixel, law_small_whole_numbers_are_exact, law_whole_differences_are_exact,
    law_whole_products_are_exact, law_whole_sums_are_exact, lemma_cut_short_is_below,
    lemma_exact_fifth, lemma_five, lemma_whole_is_halves, lemma_whole_is_small,
};

verus! {

/// The hash of a star is from nothing to one.
pub proof fn law_a_hash_is_within_one(i: u32)
    ensures
        num(0).le(hashed(i)),
        hashed(i).le(one()),
{
    let k = hash_bits(i);
    let h = i.wrapping_mul(374_761_393);
    let m = (h ^ (h >> 13u32)).wrapping_mul(1_274_126_177);
    assert(m & 0x00ff_ffff <= 0x00ff_ffff) by (bit_vector);
    let (n, all) = (whole_number(k as nat), num(0x4b80_0000));
    law_small_whole_numbers_are_exact(k as int);
    lemma2_to64();
    lemma_pow2_adds(23, 150);
    lemma_pow2_adds(24, 149);
    lemma_pow2_pos(149);
    assert(all.size() == 0x100_0000 * pow2(149));
    assert(0 <= k * pow2(149) <= 0x100_0000 * pow2(149)) by (nonlinear_arith)
        requires
            0 <= k <= 0xff_ffff,
            pow2(149) > 0,
    ;
    lemma_values_in_order(num(0), n);
    lemma_values_in_order(n, all);
    law_quotients_keep_order(num(0), n, all);
    law_quotients_keep_order(n, all, all);
    law_itself_goes_in_once(all);
    lemma_zero_over(num(0), all);
}

/// A part of a number that is not below nothing is not below nothing, and no more than it.
proof fn lemma_a_part(part: Number, n: Number)
    requires
        num(0).le(part),
        part.le(one()),
        n.is_finite(),
        !n.negative(),
    ensures
        num(0).le(part.product(n)),
        part.product(n).le(n),
{
    law_products_keep_order(num(0), part, n);
    law_products_keep_order(part, one(), n);
    law_products_commute(num(0), n);
    law_products_commute(one(), n);
    law_times_zero_is_zero(n, num(0));
    law_times_one_is_itself(n);
}

/// Every star is seeded in the sky: anywhere across the view and in the upper 0.7 of it, from a
/// quarter bright up, and its twinkle within one turn.
pub proof fn law_a_star_is_seeded_in_the_sky(i: int)
    ensures
        ({
            let seed = star_seed(i);
            &&& num(0).le(seed.x) && seed.x.le(one())
            &&& num(0).le(seed.y) && seed.y.le(num(0x3f33_3333))
            &&& num(0x3e80_0000).le(seed.alpha)
            &&& seed.alpha.le(num(0x3e80_0000).sum(num(0x3f0c_cccd)))
            &&& num(0).le(seed.phase) && seed.phase.le(num(0x40c9_0fdb))
        }),
{
    law_a_hash_is_within_one((i * 2 + 1) as u32);
    law_a_hash_is_within_one((i * 7 + 3) as u32);
    law_a_hash_is_within_one((i * 13 + 5) as u32);
    law_a_hash_is_within_one((i * 23 + 11) as u32);
    lemma_a_part(hashed((i * 7 + 3) as u32), num(0x3f33_3333));
    lemma_a_part(hashed((i * 23 + 11) as u32), num(0x40c9_0fdb));
    let more = hashed((i * 13 + 5) as u32).product(num(0x3f0c_cccd));
    let least = num(0x3e80_0000);
    lemma_a_part(hashed((i * 13 + 5) as u32), num(0x3f0c_cccd));
    law_sums_keep_order(num(0), more, least);
    law_sums_keep_order(more, num(0x3f0c_cccd), least);
    lemma_sums_commute(num(0), least);
    lemma_sums_commute(more, least);
    lemma_sums_commute(num(0x3f0c_cccd), least);
    lemma_nothing_more(least, num(0));
}

/// What is inside a range already is wrapped to where it is.
proof fn lemma_wrapped_stays(v: Number, m: Number)
    requires
        !v.negative(),
        v.lt(m),
        m.is_finite(),
    ensures
        wrapped(v, m) == v,
{
    reveal(Number::remainder);
    lemma_steps_increase(v.magnitude(), m.magnitude());
    lemma_steps_are_sizes(v);
    lemma_steps_are_sizes(m);
    vstd::arithmetic::div_mod::lemma_small_mod(v.size(), m.size());
    lemma_size_is_exact(v);
}

/// A star is inside the view on each axis by itself: where it is across hangs on its own place
/// across, the camera's and the view's width, and so down. With the camera at the origin it is that
/// part of the view across and down that it was seeded at.
pub proof fn law_a_star_is_placed_on_each_axis(
    seed: StarSeed,
    sine: Number,
    cam: (Number, Number),
    view: (Number, Number),
    visibility: Number,
    other: (Number, Number, Number),
)
    requires
        num(0).lt(view.0),
        num(0).lt(view.1),
        view.0.is_finite(),
        view.1.is_finite(),
        !seed.x.negative(),
        !seed.y.negative(),
        seed.x.is_finite(),
        seed.y.is_finite(),
    ensures
        ({
            let star = seed.seen(sine, cam, view, visibility);
            &&& !star.x.lt(num(0)) && star.x.lt(view.0)
            &&& !star.y.lt(num(0)) && star.y.lt(view.1)
            &&& star.x == (StarSeed { y: other.0, ..seed }).seen(
                sine,
                (cam.0, other.1),
                (view.0, other.2),
                visibility,
            ).x
            &&& star.y == (StarSeed { x: other.0, ..seed }).seen(
                sine,
                (other.1, cam.1),
                (other.2, view.1),
                visibility,
            ).y
        }),
        seed.x.product(view.0).lt(view.0) ==> seed.seen(
            sine,
            (num(0), num(0)),
            view,
            visibility,
        ).x == seed.x.product(view.0),
        seed.y.product(view.1).lt(view.1) ==> seed.seen(
            sine,
            (num(0), num(0)),
            view,
            visibility,
        ).y == seed.y.product(view.1),
{
    let still = num(0x3dcc_cccd);
    let (x, y) = (seed.x.product(view.0), seed.y.product(view.1));
    law_wrapped_is_inside(x.difference(cam.0.product(still)), view.0);
    law_wrapped_is_inside(y.difference(cam.1.product(still)), view.1);
    law_products_commute(num(0), still);
    law_times_zero_is_zero(still, num(0));
    lemma_product_is_number(seed.x, view.0);
    lemma_product_is_number(seed.y, view.1);
    let none = num(0).product(still);
    assert(none.negated().is_zero_spec());
    if x.lt(view.0) {
        law_zero_adds_nothing(x, none.negated());
        lemma_wrapped_stays(x, view.0);
    }
    if y.lt(view.1) {
        law_zero_adds_nothing(y, none.negated());
        lemma_wrapped_stays(y, view.1);
    }
}

/// The stars show by night and are shut out underground: at the surface as much of them shows as it
/// is night, and from as deep as it goes nothing does.
pub proof fn law_stars_show_by_night(night: Number)
    requires
        night.is_finite(),
    ensures
        star_visibility(night, num(0)) == night,
        star_visibility(night, one()).is_zero_spec(),
{
    law_zero_adds_nothing(one(), num(0).negated());
    law_times_one_is_itself(night);
    law_less_itself_is_zero(one());
    law_times_zero_is_zero(night, one().difference(one()));
}

/// The view lies about the point that the camera is on: half of its width to the left of it and half
/// of its height above.
pub proof fn law_the_view_lies_about_its_focus(
    focus: (Number, Number),
    view: ViewSize,
    x: int,
    y: int,
)
    requires
        is_whole(focus.0, x),
        is_whole(focus.1, y),
        -0x40_0000 < x < 0x40_0000,
        -0x40_0000 < y < 0x40_0000,
        view.w < 0x40_0000,
        view.h < 0x40_0000,
    ensures
        is_halves(corner_of(focus, view).0, 2 * x - view.w),
        is_halves(corner_of(focus, view).1, 2 * y - view.h),
        is_whole(extent(view).0, view.w as int),
        is_whole(extent(view).1, view.h as int),
{
    let half = num(0x3f00_0000);
    let (w, h) = extent(view);
    law_small_whole_numbers_are_exact(view.w as int);
    law_small_whole_numbers_are_exact(view.h as int);
    law_half_of_a_whole_is_exact(w, view.w as int);
    law_half_of_a_whole_is_exact(h, view.h as int);
    lemma_whole_is_halves(focus.0, x);
    lemma_whole_is_halves(focus.1, y);
    law_differences_of_halves_are_exact(focus.0, w.product(half), 2 * x, view.w as int);
    law_differences_of_halves_are_exact(focus.1, h.product(half), 2 * y, view.h as int);
}

/// The sun and the moon each show by their own strength: at the surface the sun as it is and the moon
/// at 0.9 of it, and underground neither.
pub proof fn law_each_disc_shows_by_its_own_strength(
    sun_a: Number,
    moon_a: Number,
    depth: Number,
    other: Number,
)
    requires
        sun_a.is_finite(),
        moon_a.is_finite(),
    ensures
        disc_alphas(sun_a, other, depth).0 == disc_alphas(sun_a, moon_a, depth).0,
        disc_alphas(other, moon_a, depth).1 == disc_alphas(sun_a, moon_a, depth).1,
        disc_alphas(sun_a, moon_a, num(0)) == (sun_a, moon_a.product(num(0x3f66_6666))),
        disc_alphas(sun_a, moon_a, one()).0.is_zero_spec(),
        disc_alphas(sun_a, moon_a, one()).1.is_zero_spec(),
{
    law_zero_adds_nothing(one(), num(0).negated());
    law_times_one_is_itself(sun_a);
    law_times_one_is_itself(moon_a);
    law_less_itself_is_zero(one());
    law_times_zero_is_zero(sun_a, one().difference(one()));
    law_times_zero_is_zero(moon_a, one().difference(one()));
    law_times_zero_is_zero(num(0x3f66_6666), moon_a.product(one().difference(one())));
}

/// Going toward a higher number leads no lower.
proof fn lemma_toward(from: Number, a: Number, b: Number, part: Number, more: Number)
    requires
        is_channel(from),
        is_channel(a),
        is_channel(b),
        a.le(b),
        num(0).le(part),
        part.le(one()),
        num(0).le(more),
        more.le(one()),
    ensures
        mixed(from, a, part).le(mixed(from, b, part)),
        from.sum(a.difference(from).product(part).product(more)).le(
            from.sum(b.difference(from).product(part).product(more)),
        ),
{
    assert(from.negated().magnitude() == from.magnitude());
    law_sums_keep_order(a, b, from.negated());
    lemma_small_difference(a, from);
    lemma_small_difference(b, from);
    let (p, q) = (a.difference(from), b.difference(from));
    lemma_keeps(p, q, part);
    lemma_keeps(p.product(part), q.product(part), more);
    lemma_adds(from, p.product(part), q.product(part));
    lemma_adds(from, p.product(part).product(more), q.product(part).product(more));
}

proof fn lemma_keeps(p: Number, q: Number, part: Number)
    requires
        p.is_finite(),
        q.is_finite(),
        p.le(q),
        num(0).le(part),
        part.le(one()),
    ensures
        p.product(part).is_finite(),
        q.product(part).is_finite(),
        p.product(part).le(q.product(part)),
{
    law_a_part_is_no_larger(p, part);
    law_a_part_is_no_larger(q, part);
    if part.negative() {
        law_times_zero_is_zero(p, part);
        law_times_zero_is_zero(q, part);
    } else {
        law_products_keep_order(p, q, part);
    }
}

proof fn lemma_adds(from: Number, p: Number, q: Number)
    requires
        from.is_finite(),
        p.is_finite(),
        q.is_finite(),
        p.le(q),
    ensures
        from.sum(p).le(from.sum(q)),
{
    law_sums_keep_order(p, q, from);
    lemma_sums_commute(p, from);
    lemma_sums_commute(q, from);
}

/// A channel of an end of the sky by day is no less than that of one with less daylight in it.
proof fn lemma_daylit(
    a: crate::sky::colour::Recipe,
    b: crate::sky::colour::Recipe,
    night: Number,
    low: Number,
    deep: Number,
    hour: SkyHour,
)
    requires
        is_channel(night),
        is_channel(low),
        is_channel(deep),
        is_channel(a.day),
        is_channel(b.day),
        is_channel(a.dusk),
        is_channel(b.dusk),
        a.day.le(b.day),
        a.day_part == b.day_part,
        a.own_part == b.own_part,
        is_channel(a.day_part),
        is_channel(a.own_part),
        is_channel(a.dusk_part),
        is_channel(a.deep_part),
        a.dusk_part == b.dusk_part,
        a.deep_part == b.deep_part,
        num(0).le(hour.day),
        hour.day.le(one()),
        hour.twilight.is_zero_spec(),
    ensures
        end_channel(a, night, low, deep, num(0), hour).le(
            end_channel(b, night, low, deep, num(0), hour),
        ),
{
    let own = low.product(a.own_part);
    let (p, q) = (a.day.product(a.day_part), b.day.product(b.day_part));
    lemma_product_is_number(a.day, a.day_part);
    lemma_product_is_number(b.day, b.day_part);
    lemma_product_is_number(low, a.own_part);
    lemma_bounded(a.day, a.day_part);
    lemma_bounded(b.day, b.day_part);
    lemma_bounded(low, a.own_part);
    law_products_keep_order(a.day, b.day, a.day_part);
    law_sums_keep_order(p, q, own);
    lemma_sum_is_number(p, own);
    lemma_sum_is_number(q, own);
    let (noon_a, noon_b) = (clamped255(p.sum(own)), clamped255(q.sum(own)));
    assert(is_channel(noon_a) || noon_a.is_zero_spec());
    assert(!p.sum(own).negative() && !q.sum(own).negative()) by {
        reveal(Number::sum);
        lemma_steps_are_sizes(p);
        lemma_steps_are_sizes(q);
        lemma_steps_are_sizes(own);
    }
    lemma_toward(night, noon_a, noon_b, hour.day, one());
    let (lit_a, lit_b) = (mixed(night, noon_a, hour.day), mixed(night, noon_b, hour.day));
    lemma_lit(night, noon_a, hour.day);
    lemma_lit(night, noon_b, hour.day);
    lemma_no_more(lit_a, a.dusk, hour.twilight, a.dusk_part);
    lemma_no_more(lit_b, b.dusk, hour.twilight, b.dusk_part);
    let dusky_a = lit_a.sum(a.dusk.difference(lit_a).product(hour.twilight).product(a.dusk_part));
    let dusky_b = lit_b.sum(b.dusk.difference(lit_b).product(hour.twilight).product(b.dusk_part));
    lemma_no_more(dusky_a, deep, num(0), a.deep_part);
    lemma_no_more(dusky_b, deep, num(0), b.deep_part);
}

/// A full channel is 255.
proof fn lemma_full()
    ensures
        is_whole(num(0x437f_0000), 255),
{
    let most = num(0x437f_0000);
    assert(most.size() == 0xff_0000 * pow2(133));
    lemma2_to64();
    lemma_pow2_adds(16, 133);
    assert(0xff_0000 * pow2(133) == 255 * pow2(149)) by (nonlinear_arith)
        requires
            pow2(149) == 0x1_0000 * pow2(133),
    ;
}

/// The product of two channels is finite.
proof fn lemma_bounded(a: Number, b: Number)
    requires
        is_channel(a),
        is_channel(b),
    ensures
        a.product(b).is_finite(),
{
    let most = num(0x437f_0000);
    law_products_keep_order(a, most, b);
    law_products_keep_order(b, most, most);
    law_products_commute(b, most);
    lemma_full();
    crate::whole::law_whole_products_are_exact(most, most, 255, 255);
    lemma_product_is_number(a, b);
}

/// What lies between two channels is a number no larger than twice one.
proof fn lemma_lit(from: Number, to: Number, part: Number)
    requires
        is_channel(from),
        is_channel(to),
        num(0).le(part),
        part.le(one()),
    ensures
        mixed(from, to, part).magnitude() <= 0x4400_0000,
{
    let way = to.difference(from);
    lemma_less(to, from);
    lemma_small_difference(to, from);
    law_a_part_is_no_larger(way, part);
    let step = way.product(part);
    let (most, twice) = (num(0x4380_0000), num(0x4400_0000));
    crate::order::lemma_reach(from, most);
    assert(way.magnitude() <= most.magnitude());
    crate::order::lemma_reach(step, most);
    lemma_pow2_unfold(135);
    assert(most.size() == 0x80_0000 * pow2(134));
    assert(twice.size() == 0x80_0000 * pow2(135));
    crate::arith::lemma_sum_between(twice.negated(), twice, from, step);
}

/// None of the way leads nowhere.
proof fn lemma_no_more(from: Number, to: Number, none: Number, part: Number)
    requires
        from.magnitude() <= 0x4400_0000,
        is_channel(to),
        none.is_zero_spec(),
        part.is_finite(),
    ensures
        from.sum(to.difference(from).product(none).product(part)).same(from),
        from.sum(to.difference(from).product(none).product(part)).magnitude() <= 0x4400_0000,
{
    let way = to.difference(from);
    assert(way.is_finite()) by {
        let (most, all) = (num(0x4400_0000), num(0x4480_0000));
        crate::order::lemma_reach(to, most);
        crate::order::lemma_reach(from.negated(), most);
        lemma_pow2_unfold(136);
        assert(most.size() == 0x80_0000 * pow2(135));
        assert(all.size() == 0x80_0000 * pow2(136));
        crate::arith::lemma_sum_between(all.negated(), all, to, from.negated());
    }
    law_times_zero_is_zero(way, none);
    law_times_zero_is_zero(part, way.product(none));
    lemma_nothing_more(from, way.product(none).product(part));
}

/// The day is blue: over a palette of greys, as long as there is no twilight and the camera is at
/// the surface, no channel of either end of the sky is more than the one after it.
#[verifier::spinoff_prover]
pub proof fn law_a_grey_sky_turns_blue_by_day(own: Palette, hour: SkyHour)
    requires
        is_colour(own.sky_top),
        is_colour(own.sky_bottom),
        is_colour(own.sky_top_deep),
        own.sky_top.r == own.sky_top.g && own.sky_top.g == own.sky_top.b,
        own.sky_bottom.r == own.sky_bottom.g && own.sky_bottom.g == own.sky_bottom.b,
        own.sky_top_deep.r == own.sky_top_deep.g && own.sky_top_deep.g == own.sky_top_deep.b,
        num(0).le(hour.day),
        hour.day.le(one()),
        hour.twilight.is_zero_spec(),
    ensures
        ({
            let ends = sky_ends(own, num(0), hour);
            &&& ends.top.r.le(ends.top.g) && ends.top.g.le(ends.top.b)
            &&& ends.bottom.r.le(ends.bottom.g) && ends.bottom.g.le(ends.bottom.b)
        }),
{
    let (top, low, deep) = (own.sky_top.r, own.sky_bottom.r, own.sky_top_deep.r);
    let (r, g, b) = (
        zenith(0x42c0_0000, 0x4280_0000),
        zenith(0x430c_0000, 0x4250_0000),
        zenith(0x434d_0000, 0x42c0_0000),
    );
    lemma_daylit(r, g, top, low, deep, hour);
    lemma_daylit(g, b, top, low, deep, hour);
    let (r, g, b) = (
        horizon(0x4348_0000, 0x4372_0000),
        horizon(0x435c_0000, 0x430a_0000),
        horizon(0x4370_0000, 0x4294_0000),
    );
    lemma_daylit(r, g, low, low, deep, hour);
    lemma_daylit(g, b, low, low, deep, hour);
}

/// Each channel of the sky is made of its own: two palettes that agree on one make the same of it,
/// whatever their others are.
pub proof fn law_each_channel_of_the_sky_is_its_own(
    own: Palette,
    other: Palette,
    depth: Number,
    hour: SkyHour,
)
    ensures
        own.sky_top.r == other.sky_top.r && own.sky_bottom.r == other.sky_bottom.r
            && own.sky_top_deep.r == other.sky_top_deep.r ==> sky_ends(own, depth, hour).top.r
            == sky_ends(other, depth, hour).top.r && sky_ends(own, depth, hour).bottom.r
            == sky_ends(other, depth, hour).bottom.r,
        own.sky_top.g == other.sky_top.g && own.sky_bottom.g == other.sky_bottom.g
            && own.sky_top_deep.g == other.sky_top_deep.g ==> sky_ends(own, depth, hour).top.g
            == sky_ends(other, depth, hour).top.g && sky_ends(own, depth, hour).bottom.g
            == sky_ends(other, depth, hour).bottom.g,
        own.sky_top.b == other.sky_top.b && own.sky_bottom.b == other.sky_bottom.b
            && own.sky_top_deep.b == other.sky_top_deep.b ==> sky_ends(own, depth, hour).top.b
            == sky_ends(other, depth, hour).top.b && sky_ends(own, depth, hour).bottom.b
            == sky_ends(other, depth, hour).bottom.b,
{
}

/// Dusk is warm at the horizon: over a palette of greys with no daylight and the camera at the
/// surface, no channel of the bottom of the sky is less than the one after it.
pub proof fn law_a_grey_horizon_turns_warm_at_dusk(own: Palette, hour: SkyHour)
    requires
        is_colour(own.sky_bottom),
        is_colour(own.sky_top_deep),
        own.sky_bottom.r == own.sky_bottom.g && own.sky_bottom.g == own.sky_bottom.b,
        own.sky_top_deep.r == own.sky_top_deep.g && own.sky_top_deep.g == own.sky_top_deep.b,
        hour.day.is_zero_spec(),
        num(0).le(hour.twilight),
        hour.twilight.le(one()),
    ensures
        ({
            let low = sky_ends(own, num(0), hour).bottom;
            low.b.le(low.g) && low.g.le(low.r)
        }),
{
    let (low, deep) = (own.sky_bottom.r, own.sky_top_deep.r);
    let (r, g, b) = (
        horizon(0x4348_0000, 0x4372_0000),
        horizon(0x435c_0000, 0x430a_0000),
        horizon(0x4370_0000, 0x4294_0000),
    );
    lemma_dusk(r, low, deep, hour);
    lemma_dusk(g, low, deep, hour);
    lemma_dusk(b, low, deep, hour);
    lemma_toward(low, b.dusk, g.dusk, hour.twilight, r.dusk_part);
    lemma_toward(low, g.dusk, r.dusk, hour.twilight, r.dusk_part);
}

proof fn lemma_dusk(a: crate::sky::colour::Recipe, night: Number, deep: Number, hour: SkyHour)
    requires
        is_channel(night),
        is_channel(deep),
        is_channel(a.day),
        is_channel(a.dusk),
        is_channel(a.day_part),
        is_channel(a.own_part),
        is_channel(a.deep_part),
        num(0).le(a.dusk_part),
        a.dusk_part.le(one()),
        hour.day.is_zero_spec(),
        num(0).le(hour.twilight),
        hour.twilight.le(one()),
    ensures
        end_channel(a, night, night, deep, num(0), hour).same(
            night.sum(a.dusk.difference(night).product(hour.twilight).product(a.dusk_part)),
        ),
{
    let own = night.product(a.own_part);
    let day = a.day.product(a.day_part);
    lemma_product_is_number(a.day, a.day_part);
    lemma_product_is_number(night, a.own_part);
    lemma_sum_is_number(day, own);
    let noon = clamped255(day.sum(own));
    let way = noon.difference(night);
    lemma_small_difference(noon, night);
    law_times_zero_is_zero(way, hour.day);
    law_zero_adds_nothing(night, way.product(hour.day));
    let lit = mixed(night, noon, hour.day);
    assert(lit == night);
    lemma_dusky(night, a.dusk, hour.twilight, a.dusk_part);
    let dusky = night.sum(a.dusk.difference(night).product(hour.twilight).product(a.dusk_part));
    lemma_no_more(dusky, deep, num(0), a.deep_part);
}

proof fn lemma_dusky(from: Number, to: Number, part: Number, more: Number)
    requires
        is_channel(from),
        is_channel(to),
        num(0).le(part),
        part.le(one()),
        num(0).le(more),
        more.le(one()),
    ensures
        from.sum(to.difference(from).product(part).product(more)).magnitude() <= 0x4400_0000,
{
    let way = to.difference(from);
    lemma_less(to, from);
    lemma_small_difference(to, from);
    law_a_part_is_no_larger(way, part);
    law_a_part_is_no_larger(way.product(part), more);
    let step = way.product(part).product(more);
    let (most, twice) = (num(0x4380_0000), num(0x4400_0000));
    crate::order::lemma_reach(from, most);
    crate::order::lemma_reach(step, most);
    lemma_pow2_unfold(135);
    assert(most.size() == 0x80_0000 * pow2(134));
    assert(twice.size() == 0x80_0000 * pow2(135));
    crate::arith::lemma_sum_between(twice.negated(), twice, from, step);
}

/// The glow follows the sun down: the lower the sun, the lower its band ends, which it does no higher
/// than it starts. Its strength is no more than the twilight's.
pub proof fn law_the_glow_follows_the_sun(
    hour: SkyHour,
    later: SkyHour,
    depth: Number,
    view_h: Number,
)
    requires
        hour.twilight == later.twilight,
        hour.twilight.is_finite(),
        !hour.twilight.negative(),
        hour.sun_y.is_finite(),
        hour.sun_y.le(later.sun_y),
        later.sun_y.is_finite(),
        !depth.negative(),
        depth.le(one()),
        view_h.is_finite(),
        !view_h.negative(),
    ensures
        glow_at(hour, depth, view_h) is Some <==> glow_at(later, depth, view_h) is Some,
        glow_at(hour, depth, view_h) matches Some(g) ==> {
            let h = glow_at(later, depth, view_h)->0;
            &&& g.bottom.le(h.bottom)
            &&& g.bottom.is_finite() ==> g.top.le(g.bottom)
            &&& g.strength.le(hour.twilight)
            &&& g.strength == h.strength
        },
{
    let (least, more) = (num(0x3f05_1eb8), num(0x3e99_999a));
    let zero = num(0);
    let (s, t) = (
        crate::sky::colour::clamped01(hour.sun_y),
        crate::sky::colour::clamped01(later.sun_y),
    );
    assert(s.le(t) && zero.le(s) && t.le(one()));
    law_products_commute(more, s);
    law_products_commute(more, t);
    law_products_keep_order(s, t, more);
    lemma_a_part(s, more);
    lemma_a_part(t, more);
    let (p, q) = (more.product(s), more.product(t));
    lemma_adds(least, p, q);
    lemma_small_difference(least, p.negated());
    lemma_small_difference(least, q.negated());
    assert(p.negated().negated() == p && q.negated().negated() == q);
    law_products_keep_order(least.sum(p), least.sum(q), view_h);
    law_products_commute(least.sum(p), view_h);
    law_products_commute(least.sum(q), view_h);
    let bottom = view_h.product(least.sum(p));
    let high = view_h.product(num(0x3ed7_0a3d));
    law_a_part_is_no_larger(view_h, num(0x3ed7_0a3d));
    lemma_product_is_number(view_h, num(0x3ed7_0a3d));
    if bottom.is_finite() {
        law_differences_turn_order(bottom, zero, high);
        lemma_nothing_more(bottom, zero.negated());
    }
    let above = one().difference(depth);
    law_differences_turn_order(one(), zero, depth);
    law_differences_turn_order(one(), depth, one());
    law_less_itself_is_zero(one());
    law_zero_adds_nothing(one(), zero.negated());
    assert(zero.le(above) && above.le(one()));
    law_products_commute(hour.twilight, above);
    lemma_a_part(above, hour.twilight);
}

/// The inside of a disc is its core's colour and its outside its halo's: up to 0.32 of its radius
/// there is nothing of the halo in it, and beyond 0.42 nothing of the core.
pub proof fn law_a_disc_has_its_core_inside_its_halo(disc: Disc, alpha: Number, r: Number)
    requires
        is_colour(disc.core),
        is_colour(disc.halo),
        disc.radius.is_finite(),
        !disc.radius.negative(),
        r.is_finite(),
        !r.negative(),
    ensures
        ramp_at(disc.ramp(alpha), r) matches Some(lit) ==> {
            &&& r.le(num(0x3ea3_d70a).product(disc.radius)) ==> lit.0 == disc.core
            &&& num(0x3ed7_0a3d).product(disc.radius).lt(r) ==> lit.0 == disc.halo
        },
{
    reveal_with_fuel(crate::sky::colour::ramp_from, 5);
    let rings = disc.ramp(alpha);
    let radius = disc.radius;
    let (a, b, c, d) = (num(0), num(0x3ea3_d70a), num(0x3ed7_0a3d), num(0x3f80_0000));
    law_products_keep_order(a, b, radius);
    law_products_keep_order(b, c, radius);
    law_products_keep_order(c, d, radius);
    law_products_commute(a, radius);
    law_times_zero_is_zero(radius, a);
    law_products_commute(b, radius);
    law_products_commute(c, radius);
    law_products_commute(d, radius);
    law_a_part_is_no_larger(radius, b);
    law_a_part_is_no_larger(radius, c);
    law_a_part_is_no_larger(radius, d);
    lemma_product_is_number(radius, b);
    lemma_product_is_number(radius, c);
    lemma_product_is_number(radius, d);
    lemma_flat(disc.core, along(rings[0].at, rings[1].at, r));
    lemma_flat(disc.halo, along(rings[2].at, rings[3].at, r));
    lemma_along(rings[0].at, rings[1].at, r);
    lemma_along(rings[2].at, rings[3].at, r);
}

proof fn lemma_along(lo: Number, hi: Number, u: Number)
    requires
        lo.is_finite(),
        hi.is_finite(),
        u.is_finite(),
        num(0).le(lo),
        num(0).le(hi),
        num(0).le(u),
    ensures
        along(lo, hi, u).magnitude() <= 0x3f80_0000,
{
    lemma_less(hi, lo);
    lemma_less(u, lo);
    if lo.lt(hi) {
        crate::order::lemma_more_than_nothing(hi, lo);
        law_quotients_keep_order(u.difference(lo), u.difference(lo), hi.difference(lo));
    }
}

/// From a colour to itself there is no way to go.
proof fn lemma_flat(tone: Tone, t: Number)
    requires
        is_colour(tone),
    ensures
        t.magnitude() <= 0x3f80_0000 ==> mixed_tone(tone, tone, t) == tone,
{
    if t.magnitude() <= 0x3f80_0000 {
        lemma_still(tone.r, t);
        lemma_still(tone.g, t);
        lemma_still(tone.b, t);
    }
}

proof fn lemma_still(n: Number, t: Number)
    requires
        is_channel(n),
        t.magnitude() <= 0x3f80_0000,
    ensures
        mixed(n, n, t) == n,
{
    law_less_itself_is_zero(n);
    law_products_commute(num(0), t);
    law_times_zero_is_zero(t, num(0));
    law_zero_adds_nothing(n, num(0).product(t));
}

/// The view sinks as the camera does: with the focus so many whole rows of five pixels below the
/// surface it is at the surface until it is below it, all the way down from 300 rows on, and no
/// less deep the further down it is.
pub proof fn law_depth_grows_downward(
    focus_y: Number,
    lower: Number,
    surface_row: i32,
    row: int,
    further: int,
)
    requires
        is_whole(focus_y, 5 * row),
        is_whole(lower, 5 * further),
        -0x5_0000 < row <= further < 0x5_0000,
        -0x5_0000 < surface_row < 0x5_0000,
    ensures
        row <= surface_row ==> buried(focus_y, surface_row).is_zero_spec(),
        surface_row + 300 <= row ==> buried(focus_y, surface_row) == one(),
        buried(focus_y, surface_row).le(buried(lower, surface_row)),
{
    let (five, all) = (num(0x40a0_0000), num(0x4396_0000));
    let surface = signed_number(surface_row as int);
    lemma_exact_fifth(focus_y, row);
    lemma_exact_fifth(lower, further);
    law_small_whole_numbers_are_exact(surface_row as int);
    let (a, b) = (focus_y.quotient(five).difference(surface), lower.quotient(five).difference(
        surface,
    ));
    crate::whole::law_whole_differences_are_exact(
        focus_y.quotient(five),
        surface,
        row,
        surface_row as int,
    );
    crate::whole::law_whole_differences_are_exact(
        lower.quotient(five),
        surface,
        further,
        surface_row as int,
    );
    lemma2_to64();
    lemma_pow2_adds(15, 134);
    lemma_pow2_pos(149);
    assert(all.size() == 0x96_0000 * pow2(134));
    assert(all.size() == 300 * pow2(149)) by (nonlinear_arith)
        requires
            all.size() == 0x96_0000 * pow2(134),
            pow2(149) == 0x8000 * pow2(134),
    ;
    let (m, n, unit) = (row - surface_row, further - surface_row, pow2(149) as int);
    assert(m * unit <= n * unit && (m <= 0 ==> m * unit <= 0) && (300 <= m ==> 300 * unit <= m
        * unit)) by (nonlinear_arith)
        requires
            m <= n,
            unit > 0,
    ;
    lemma_values_in_order(a, b);
    lemma_values_in_order(a, num(0));
    lemma_values_in_order(all, a);
    law_quotients_keep_order(a, b, all);
    if row <= surface_row {
        law_quotients_keep_order(a, num(0), all);
    }
    if surface_row + 300 <= row {
        law_quotients_keep_order(all, a, all);
    }
    law_itself_goes_in_once(all);
    lemma_zero_over(num(0), all);
}

/// Each wave of a ridge has its own height: where the other is at rest, the hills are within the one
/// wave's height of theirs, and lower down the view the further down its sine is.
pub proof fn law_each_wave_has_its_own_height(ridge: Ridge, sines: (Number, Number), view_h: Number)
    requires
        sines.0.magnitude() <= 0x3f80_0000,
        sines.1.magnitude() <= 0x3f80_0000,
        ridge.a1.is_finite(),
        ridge.a2.is_finite(),
        !ridge.a1.negative(),
        !ridge.a2.negative(),
        view_h.product(ridge.base).is_finite(),
        view_h.product(ridge.base).sum(ridge.a1).is_finite(),
        view_h.product(ridge.base).difference(ridge.a1).is_finite(),
        view_h.product(ridge.base).sum(ridge.a2).is_finite(),
        view_h.product(ridge.base).difference(ridge.a2).is_finite(),
    ensures
        ({
            let rest = view_h.product(ridge.base);
            let y = ridge.raised(sines, view_h);
            &&& sines.1.is_zero_spec() ==> rest.difference(ridge.a1).le(y) && y.le(
                rest.sum(ridge.a1),
            )
            &&& sines.0.is_zero_spec() ==> rest.difference(ridge.a2).le(y) && y.le(
                rest.sum(ridge.a2),
            )
            &&& sines.1.is_zero_spec() && !sines.0.negative() ==> rest.le(y)
            &&& sines.0.is_zero_spec() && !sines.1.negative() ==> rest.le(y)
        }),
{
    let rest = view_h.product(ridge.base);
    let (p, q) = (sines.0.product(ridge.a1), sines.1.product(ridge.a2));
    law_products_commute(sines.0, ridge.a1);
    law_products_commute(sines.1, ridge.a2);
    lemma_swing(rest, ridge.a1, sines.0);
    lemma_swing(rest, ridge.a2, sines.1);
    lemma_product_is_number(sines.0, ridge.a1);
    lemma_product_is_number(sines.1, ridge.a2);
    if sines.1.is_zero_spec() {
        law_times_zero_is_zero(ridge.a2, sines.1);
        lemma_nothing_more(rest.sum(p), q);
        if !sines.0.negative() {
            crate::arith::lemma_sum_goes_up(rest, p);
        }
    }
    if sines.0.is_zero_spec() {
        law_times_zero_is_zero(ridge.a1, sines.0);
        lemma_nothing_more(rest, p);
        lemma_values_in_order(rest, rest.sum(p));
        lemma_values_in_order(rest.sum(p), rest);
        law_sums_keep_order(rest, rest.sum(p), q);
        law_sums_keep_order(rest.sum(p), rest, q);
        if !sines.1.negative() {
            crate::arith::lemma_sum_goes_up(rest, q);
        }
    }
}

/// The hills go with the camera, and none of their angles against it: further right in the view, or
/// with the camera further right, neither wave has turned less far. Both start at nothing.
pub proof fn law_hills_turn_with_the_camera(
    ridge: Ridge,
    sx: Number,
    further: Number,
    cam_x: Number,
)
    requires
        ridge.f1.is_finite(),
        ridge.f2.is_finite(),
        !ridge.f1.negative(),
        !ridge.f2.negative(),
        ridge.parallax.is_finite(),
        sx.le(further),
        sx.sum(cam_x.product(ridge.parallax)).is_finite(),
        further.sum(cam_x.product(ridge.parallax)).is_finite(),
        cam_x.product(ridge.parallax).is_finite(),
    ensures
        ridge.angles(sx, cam_x).0.le(ridge.angles(further, cam_x).0),
        ridge.angles(sx, cam_x).1.le(ridge.angles(further, cam_x).1),
        ridge.angles(num(0), num(0)).0.is_zero_spec(),
        ridge.angles(num(0), num(0)).1.is_zero_spec(),
        ridge.f1.le(ridge.f2) && num(0).le(sx.sum(cam_x.product(ridge.parallax))) ==> ridge.angles(
            sx,
            cam_x,
        ).0.le(ridge.angles(sx, cam_x).1),
{
    let shift = cam_x.product(ridge.parallax);
    law_sums_keep_order(sx, further, shift);
    let (a, b) = (sx.sum(shift), further.sum(shift));
    law_products_keep_order(a, b, ridge.f1);
    law_products_keep_order(a, b, ridge.f2);
    law_products_commute(num(0), ridge.parallax);
    law_times_zero_is_zero(ridge.parallax, num(0));
    let none = num(0).product(ridge.parallax);
    crate::arith::lemma_sum_of_zeros(num(0), none);
    law_times_zero_is_zero(ridge.f1, num(0).sum(none));
    law_times_zero_is_zero(ridge.f2, num(0).sum(none));
    if ridge.f1.le(ridge.f2) && num(0).le(a) {
        law_products_commute(a, ridge.f1);
        law_products_commute(a, ridge.f2);
        if a.negative() {
            law_times_zero_is_zero(ridge.f1, a);
            law_times_zero_is_zero(ridge.f2, a);
        } else {
            law_products_keep_order(ridge.f1, ridge.f2, a);
        }
    }
}

/// How much of the hills' colour a ridge keeps is no more than all of it.
proof fn lemma_kept(day: Number, shade: Number)
    requires
        num(0).le(day),
        day.le(one()),
        num(0).le(shade),
        shade.le(one()),
    ensures
        ({
            let k = num(0x3ecc_cccd).sum(num(0x3f19_999a).product(day)).product(shade);
            num(0).le(k) && k.le(one())
        }),
        num(0x3ecc_cccd).sum(num(0x3f19_999a)) == one(),
{
    let (night, more) = (num(0x3ecc_cccd), num(0x3f19_999a));
    law_products_commute(more, day);
    lemma_a_part(day, more);
    let p = more.product(day);
    assert(night.sum(more) == one()) by {
        reveal(Number::sum);
        lemma2_to64();
        lemma_pow2_adds(1, 124);
        lemma_pow2_adds(25, 124);
        lemma_pow2_pos(124);
        crate::rounding::lemma_rounded_scales(0x200_0001, 124);
        assert(crate::rounding::spacing(0x80_0000) == 1);
        assert(crate::rounding::spacing(0x100_0000) == 2);
        assert(crate::rounding::spacing(0x200_0001) == 4);
        assert(0x200_0001nat / 4 == 0x80_0000 && 0x200_0001nat % 4 == 1);
        assert(crate::rounding::rounded(0x200_0001) == 0x200_0000);
        assert(night.steps() == 0xcc_cccd * pow2(124));
        assert(more.steps() == 0x99_999a * pow2(125));
        crate::arith::lemma_one();
        lemma_size_is_exact(one());
    }
    lemma_adds(night, num(0), p);
    lemma_adds(night, p, more);
    lemma_nothing_more(night, num(0));
    let lit = night.sum(p);
    assert(night.le(lit) && lit.le(one()));
    lemma_keeps(lit, one(), shade);
    lemma_keeps(num(0), lit, shade);
    law_products_commute(one(), shade);
    law_times_one_is_itself(shade);
    law_products_commute(num(0), shade);
    law_times_zero_is_zero(shade, num(0));
}

/// A ridge is the hills' colour made darker, each channel by itself: whole steps of no more than that
/// channel of the hills, the same for channels that are, and black where they are. An unshaded ridge
/// by full day has the colour that whole hills have.
pub proof fn law_a_ridge_darkens_each_channel(ridge: Ridge, hill: Tone, day: Number)
    requires
        is_colour(hill),
        num(0).le(day),
        day.le(one()),
        num(0).le(ridge.shade),
        ridge.shade.le(one()),
    ensures
        ({
            let tone = ridge.tinted(hill, day);
            &&& tone.r.le(hill.r) && tone.g.le(hill.g) && tone.b.le(hill.b)
            &&& num(0).le(tone.r) && num(0).le(tone.g) && num(0).le(tone.b)
            &&& hill.r == hill.g ==> tone.r == tone.g
            &&& hill.g == hill.b ==> tone.g == tone.b
            &&& ridge.shade == one() && day == one() ==> {
                &&& forall|k: int| is_whole(hill.r, k) ==> #[trigger] is_whole(tone.r, k)
                &&& forall|k: int| is_whole(hill.g, k) ==> #[trigger] is_whole(tone.g, k)
                &&& forall|k: int| is_whole(hill.b, k) ==> #[trigger] is_whole(tone.b, k)
            }
        }),
{
    let k = num(0x3ecc_cccd).sum(num(0x3f19_999a).product(day)).product(ridge.shade);
    lemma_kept(day, ridge.shade);
    lemma_darkened(hill.r, k);
    lemma_darkened(hill.g, k);
    lemma_darkened(hill.b, k);
    if ridge.shade == one() && day == one() {
        law_times_one_is_itself(num(0x3f19_999a));
        law_times_one_is_itself(one());
        assert(k == one());
    }
}

proof fn lemma_darkened(n: Number, k: Number)
    requires
        is_channel(n),
        num(0).le(k),
        k.le(one()),
    ensures
        num(0).le(n.product(k).cut_short()),
        n.product(k).cut_short().le(n),
        k == one() ==> forall|j: int|
            is_whole(n, j) ==> #[trigger] is_whole(n.product(k).cut_short(), j),
{
    law_products_commute(n, k);
    lemma_a_part(k, n);
    let p = n.product(k);
    law_a_part_is_no_larger(n, k);
    lemma_product_is_number(n, k);
    if p.negative() {
        law_times_zero_is_zero(n, k);
        reveal(Number::cut_short);
        lemma_pow2_pos(149);
        crate::number::lemma_steps_nonnegative(0);
        vstd::arithmetic::div_mod::lemma_small_mod(0, pow2(149));
        vstd::arithmetic::div_mod::lemma_basic_div(0, pow2(149) as int);
        assert(p.size() == 0);
        assert(0 * pow2(149) == 0);
        lemma_size_is_exact(p);
    } else {
        lemma_cut_short_is_below(p);
        lemma_pow2_pos(149);
        let whole = p.cut_short();
        let c = crate::rounding::cut_off(p.size());
        assert(0 <= c * pow2(149)) by (nonlinear_arith)
            requires
                c >= 0,
                pow2(149) > 0,
        ;
        lemma_values_in_order(whole, p);
        lemma_values_in_order(num(0), whole);
        assert(whole.le(p) && p.le(n));
        if k == one() {
            law_times_one_is_itself(n);
            assert forall|j: int| is_whole(n, j) implies #[trigger] is_whole(
                n.product(k).cut_short(),
                j,
            ) by {
                let unit = pow2(149) as int;
                assert(c == j) by (nonlinear_arith)
                    requires
                        c * unit <= j * unit,
                        j * unit < (c + 1) * unit,
                        unit > 0,
                ;
            }
        }
    }
}

/// The middle of a block of a disc is inside the block: between its edges, which are five pixels
/// apart.
pub proof fn law_a_block_has_its_middle_inside(at: int)
    requires
        -0x8000 <= at <= 0x8000,
    ensures
        block_middle(at).is_finite(),
        (5 * at) * pow2(149) <= block_middle(at).steps() <= (5 * (at + 1)) * pow2(149),
{
    let (half, five) = (num(0x3f00_0000), block_px());
    law_small_whole_numbers_are_exact(at);
    law_small_whole_numbers_are_exact(at + 1);
    let (a, b) = (signed_number(at), signed_number(at + 1));
    lemma_whole_is_halves(a, at);
    lemma_whole_is_halves(b, at + 1);
    lemma2_to64();
    lemma_pow2_adds(23, 125);
    lemma_pow2_pos(148);
    assert(half.size() == pow2(148));
    assert(is_halves(half, 1));
    crate::whole::law_sums_of_halves_are_exact(a, half, 2 * at, 1);
    let mid = a.sum(half);
    assert((2 * at) * pow2(148) <= (2 * at + 1) * pow2(148) <= (2 * (at + 1)) * pow2(148))
        by (nonlinear_arith)
        requires
            pow2(148) > 0,
    ;
    lemma_values_in_order(a, mid);
    lemma_values_in_order(mid, b);
    crate::whole::lemma_five();
    law_products_keep_order(a, mid, five);
    law_products_keep_order(mid, b, five);
    crate::whole::law_whole_products_are_exact(a, five, at, 5);
    crate::whole::law_whole_products_are_exact(b, five, at + 1, 5);
    lemma_values_in_order(a.product(five), mid.product(five));
    lemma_values_in_order(mid.product(five), b.product(five));
}

/// The colours of a disc's blocks are those of their own places, row by row from the top left: the
/// one in column `col` and row `row`, counted from the middle, has what the disc has at its own
/// distance, moved by no more than half a block for the dither.
pub proof fn law_a_block_has_the_colour_of_its_place(
    disc: Disc,
    alpha: Number,
    n: int,
    out: Seq<Number>,
    col: int,
    row: int,
)
    requires
        0 < n,
        out.len() == (2 * n) * (2 * n),
        -n <= col < n,
        -n <= row < n,
        out[(row + n) * (2 * n) + (col + n)].is_finite(),
    ensures
        ({
            let i = (row + n) * (2 * n) + (col + n);
            let half = num(0x3f00_0000);
            exists|r: Number|
                #![trigger ramp_at(disc.ramp(alpha), r)]
                out[i].sum(half.negated().product(block_px())).le(r) && r.le(
                    out[i].sum(half.product(block_px())),
                ) && disc_blocks(disc, alpha, n, out)[i] == ramp_at(disc.ramp(alpha), r)
        }),
{
    let i = (row + n) * (2 * n) + (col + n);
    let (half, five) = (num(0x3f00_0000), block_px());
    assert(0 <= i < (2 * n) * (2 * n)) by (nonlinear_arith)
        requires
            i == (row + n) * (2 * n) + (col + n),
            0 <= row + n < 2 * n,
            0 <= col + n < 2 * n,
    ;
    vstd::arithmetic::div_mod::lemma_fundamental_div_mod_converse(i, 2 * n, row + n, col + n);
    let k = sampled(col, row);
    law_dither_averages_to_the_centre(col, row);
    law_small_whole_numbers_are_exact(k);
    let (w, all) = (whole_number(k as nat), num(0x4200_0000));
    lemma2_to64();
    lemma_pow2_adds(23, 131);
    lemma_pow2_adds(5, 149);
    lemma_pow2_pos(149);
    assert(all.size() == 32 * pow2(149));
    assert(0 * pow2(149) <= k * pow2(149) <= 32 * pow2(149)) by (nonlinear_arith)
        requires
            0 <= k <= 32,
            pow2(149) > 0,
    ;
    lemma_values_in_order(num(0), w);
    lemma_values_in_order(w, all);
    law_quotients_keep_order(num(0), w, all);
    law_quotients_keep_order(w, all, all);
    law_itself_goes_in_once(all);
    lemma_zero_over(num(0), all);
    let part = w.quotient(all);
    law_sums_keep_order(num(0), part, half.negated());
    law_sums_keep_order(part, one(), half.negated());
    lemma_nothing_more(half.negated(), num(0));
    assert(one().difference(half) == half) by {
        reveal(Number::sum);
        crate::arith::lemma_one();
        lemma_pow2_adds(23, 125);
        lemma_pow2_unfold(149);
        lemma_size_is_exact(half);
    }
    let off = part.difference(half);
    assert(half.negated().le(off) && off.le(half));
    law_products_keep_order(half.negated(), off, five);
    law_products_keep_order(off, half, five);
    law_products_commute(off, five);
    law_a_part_is_no_larger(five, off);
    law_a_part_is_no_larger(five, half);
    law_a_part_is_no_larger(five, half.negated());
    law_products_commute(half, five);
    law_products_commute(half.negated(), five);
    lemma_adds(out[i], half.negated().product(five), five.product(off));
    lemma_adds(out[i], five.product(off), half.product(five));
    let r = block_radius(out[i], col, row);
    assert(disc_blocks(disc, alpha, n, out)[i] == ramp_at(disc.ramp(alpha), r));
}

/// A disc has as many blocks from its middle to its rim as cover its radius, and none to spare.
pub proof fn law_a_disc_reaches_its_rim(disc: Disc, radius: int)
    requires
        is_whole(disc.radius, radius),
        0 <= radius < 0x20_0000,
    ensures
        5 * (disc.reach() - 1) < radius <= 5 * disc.reach(),
{
    crate::whole::lemma_fifths(disc.radius, radius);
}

/// A ridge scrolls by its own part of the camera's motion, in whole pixels: with the camera at the
/// origin not at all, and one that takes all of it by the pixel that the camera is on.
pub proof fn law_a_ridge_scrolls_with_the_camera(ridge: Ridge, cam_x: Number)
    requires
        ridge.parallax.is_finite(),
        cam_x.magnitude() < 0x4b00_0000,
    ensures
        is_whole(ridge.scrolled(num(0)), 0),
        ridge.parallax == one() ==> is_whole(ridge.scrolled(cam_x), pixel(cam_x)),
        cam_x.product(ridge.parallax).magnitude() < 0x4b00_0000 ==> is_whole(
            ridge.scrolled(cam_x),
            pixel(cam_x.product(ridge.parallax)),
        ),
{
    law_products_commute(num(0), ridge.parallax);
    law_times_zero_is_zero(ridge.parallax, num(0));
    let none = num(0).product(ridge.parallax);
    law_nearest_is_the_pixel(none);
    assert(none.steps() == 0 * pow2(149)) by {
        assert(0 * pow2(149) == 0);
        lemma_steps_are_sizes(none);
    }
    law_whole_pixels_stay(none, 0);
    law_times_one_is_itself(cam_x);
    law_nearest_is_the_pixel(cam_x);
    if cam_x.product(ridge.parallax).magnitude() < 0x4b00_0000 {
        law_nearest_is_the_pixel(cam_x.product(ridge.parallax));
    }
}

/// The edges of the blocks are five pixels apart: what is snapped is a whole number of blocks from the
/// origin, the nearest one, and an edge stays where it is.
pub proof fn law_a_snap_is_to_an_edge(v: Number, blocks: int)
    requires
        v.quotient(block_px()).magnitude() < 0x4b00_0000,
        -0x33_3333 <= pixel(v.quotient(block_px())) <= 0x33_3333,
        -0x6_0000 < blocks < 0x6_0000,
    ensures
        is_whole(snapped(v), 5 * pixel(v.quotient(block_px()))),
        is_whole(v, 5 * blocks) ==> is_whole(snapped(v), 5 * blocks),
{
    let q = v.quotient(block_px());
    law_nearest_is_the_pixel(q);
    lemma_five();
    law_whole_products_are_exact(q.nearest_whole(), block_px(), pixel(q), 5);
    if is_whole(v, 5 * blocks) {
        lemma_exact_fifth(v, blocks);
        lemma_whole_is_small(q, blocks);
    }
}

proof fn lemma_all_the_way(a: Number, b: Number, j: int, k: int)
    requires
        is_whole(a, j),
        is_whole(b, k),
        0 <= j <= 255,
        0 <= k <= 255,
    ensures
        is_whole(a.sum(b.difference(a).product(one())), k),
        is_whole(a.sum(b.difference(a).product(one()).product(one())), k),
{
    law_whole_differences_are_exact(b, a, k, j);
    law_times_one_is_itself(b.difference(a));
    law_whole_sums_are_exact(a, b.difference(a), j, k - j);
}

/// A palette of whole channels from 0 to 255.
pub open spec fn is_tone_of(tone: Tone, r: int, g: int, b: int) -> bool {
    &&& is_whole(tone.r, r)
    &&& is_whole(tone.g, g)
    &&& is_whole(tone.b, b)
    &&& 0 <= r <= 255
    &&& 0 <= g <= 255
    &&& 0 <= b <= 255
}

/// As deep as it goes the sky's top is the biome's deep colour, whatever it is above ground: each
/// channel is its own by night, where neither the day nor the dusk has a part in it.
pub proof fn law_the_deep_sky_is_the_biomes_own(
    own: Palette,
    hour: SkyHour,
    r: int,
    g: int,
    b: int,
    deep_r: int,
    deep_g: int,
    deep_b: int,
)
    requires
        is_colour(own.sky_top),
        is_colour(own.sky_bottom),
        is_colour(own.sky_top_deep),
        is_tone_of(own.sky_top, r, g, b),
        is_tone_of(own.sky_top_deep, deep_r, deep_g, deep_b),
        hour.day.is_zero_spec(),
        hour.twilight.is_zero_spec(),
    ensures
        is_tone_of(sky_ends(own, one(), hour).top, deep_r, deep_g, deep_b),
{
    let (top, deep) = (own.sky_top, own.sky_top_deep);
    law_night_is_the_biomes_own(own, num(0), hour);
    lemma_all_the_way(top.r, deep.r, r, deep_r);
    lemma_all_the_way(top.g, deep.g, g, deep_g);
    lemma_all_the_way(top.b, deep.b, b, deep_b);
    lemma_deep_channel(zenith(0x42c0_0000, 0x4280_0000), top.r, own.sky_bottom.r, deep.r, hour);
    lemma_deep_channel(zenith(0x430c_0000, 0x4250_0000), top.g, own.sky_bottom.g, deep.g, hour);
    lemma_deep_channel(zenith(0x434d_0000, 0x42c0_0000), top.b, own.sky_bottom.b, deep.b, hour);
}

proof fn lemma_deep_channel(
    like: Recipe,
    night: Number,
    horizon: Number,
    deep: Number,
    hour: SkyHour,
)
    requires
        is_channel(night),
        is_channel(horizon),
        is_channel(deep),
        is_channel(like.day),
        is_channel(like.day_part),
        is_channel(like.own_part),
        is_channel(like.dusk),
        is_channel(like.dusk_part),
        like.deep_part == one(),
        hour.day.is_zero_spec(),
        hour.twilight.is_zero_spec(),
    ensures
        end_channel(like, night, horizon, deep, one(), hour) == night.sum(
            deep.difference(night).product(one()).product(one()),
        ),
{
    let day = like.day.product(like.day_part);
    let own = horizon.product(like.own_part);
    lemma_product_is_number(like.day, like.day_part);
    lemma_product_is_number(horizon, like.own_part);
    lemma_sum_is_number(day, own);
    let noon = clamped255(day.sum(own));
    assert(noon.magnitude() <= 0x437f_0000);
    lemma_no_step(night, noon, hour.day, num(0));
    lemma_no_step(night, like.dusk, hour.twilight, like.dusk_part);
}

/// From one ring of a disc to the next the colour goes from the one's to the other's: where the first
/// is it is the first's, and where the second is the second's, channel by channel.
pub proof fn law_a_ring_runs_from_tone_to_tone(
    lo: Stop,
    hi: Stop,
    r: int,
    g: int,
    b: int,
    to_r: int,
    to_g: int,
    to_b: int,
)
    requires
        lo.at.is_finite(),
        hi.at.is_finite(),
        lo.at.lt(hi.at),
        hi.at.difference(lo.at).is_finite(),
        is_tone_of(lo.tone, r, g, b),
        is_tone_of(hi.tone, to_r, to_g, to_b),
    ensures
        between_rings(lo, hi, lo.at) matches Some((tone, _)) ==> is_tone_of(tone, r, g, b),
        between_rings(lo, hi, hi.at) matches Some((tone, _)) ==> is_tone_of(tone, to_r, to_g, to_b),
{
    let way = hi.at.difference(lo.at);
    law_less_itself_is_zero(lo.at);
    law_sums_keep_order(lo.at, hi.at, lo.at.negated());
    assert(!way.is_zero_spec()) by {
        lemma_more_than_nothing(hi.at, lo.at);
    }
    lemma_zero_over(num(0), way);
    law_itself_goes_in_once(way);
    let none = along(lo.at, hi.at, lo.at);
    assert(none.is_zero_spec());
    lemma_none_of_the_way(lo.tone.r, hi.tone.r, none, r, to_r);
    lemma_none_of_the_way(lo.tone.g, hi.tone.g, none, g, to_g);
    lemma_none_of_the_way(lo.tone.b, hi.tone.b, none, b, to_b);
    lemma_all_the_way(lo.tone.r, hi.tone.r, r, to_r);
    lemma_all_the_way(lo.tone.g, hi.tone.g, g, to_g);
    lemma_all_the_way(lo.tone.b, hi.tone.b, b, to_b);
}

proof fn lemma_none_of_the_way(a: Number, b: Number, none: Number, j: int, k: int)
    requires
        is_whole(a, j),
        is_whole(b, k),
        none.is_zero_spec(),
        0 <= j <= 255,
        0 <= k <= 255,
    ensures
        is_whole(a.sum(b.difference(a).product(none)), j),
{
    law_whole_differences_are_exact(b, a, k, j);
    law_times_zero_is_zero(b.difference(a), none);
    let step = b.difference(a).product(none);
    assert(step.steps() == 0 * pow2(149)) by {
        assert(0 * pow2(149) == 0);
        lemma_steps_are_sizes(step);
    }
    law_whole_sums_are_exact(a, step, j, 0);
}

} // verus!
