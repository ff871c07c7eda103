//! The stars: a fixed set, wrapped into the view wherever the camera goes.

use vstd::arithmetic::div_mod::*;
use vstd::arithmetic::power2::*;
use vstd::prelude::*;

use crate::arith::{
    from_whole, law_a_part_is_no_larger, law_products_commute, law_times_one_is_itself,
    law_times_zero_is_zero, lemma_bits_increase, lemma_one, lemma_product_is_number,
    lemma_size_is_exact, lemma_wrapped_into, one, ratio, whole_number,
};
use crate::number::{Number, lemma_steps_nonnegative, num};
use crate::order::{
    law_products_keep_order, law_sums_keep_order, lemma_nothing_more, lemma_ratio_goes_up,
    lemma_swing, lemma_swings_both_ways, lemma_swings_up, lemma_values_in_order,
};
use crate::rounding::{lemma_rounded_scales, rounded, spacing};
use crate::sky::mesh::ViewSize;
use crate::whole::{is_whole, law_whole_remainders_are_exact, law_whole_sums_are_exact};

verus! {

/// Stars in the sky.
pub const STAR_COUNT: usize = 90;

/// The bits of an index's hash: 24 of them.
pub open spec fn hash_bits(i: u32) -> u32 {
    let h = i.wrapping_mul(374_761_393);
    (h ^ (h >> 13u32)).wrapping_mul(1_274_126_177) & 0x00ff_ffff
}

/// An index's hash, from 0 up to 1.
pub open spec fn hashed(i: u32) -> Number {
    whole_number(hash_bits(i) as nat).quotient(num(0x4b80_0000))
}

/// Cheap hash of an index, from 0 up to 1. Deterministic per index, decent spread.
pub fn hash(i: u32) -> (h: Number)
    ensures
        h == hashed(i),
{
    let h: u32 = i.wrapping_mul(374_761_393);
    let h: u32 = (h ^ (h >> 13u32)).wrapping_mul(1_274_126_177);
    from_whole((h & 0x00ff_ffff) as u64).over(num(0x4b80_0000))
}

/// What one star is seeded with.
#[derive(Clone, Copy, Debug, PartialEq, Eq, Structural)]
pub struct StarSeed {
    /// How far across the view.
    pub x: Number,
    /// How far down it.
    pub y: Number,
    /// How bright.
    pub alpha: Number,
    /// Where its twinkle starts, in radians.
    pub phase: Number,
}

/// The seed of star `i`: four decorrelated hashes of its index. Stars keep to the upper 0.7 of the
/// view, and are 0.25 to 0.8 bright.
pub open spec fn star_seed(i: int) -> StarSeed {
    StarSeed {
        x: hashed((i * 2 + 1) as u32),
        y: hashed((i * 7 + 3) as u32).product(num(0x3f33_3333)),
        alpha: num(0x3e80_0000).sum(hashed((i * 13 + 5) as u32).product(num(0x3f0c_cccd))),
        phase: hashed((i * 23 + 11) as u32).product(num(0x40c9_0fdb)),
    }
}

/// A coordinate brought into `0..m`, or zero where there is no such range.
pub open spec fn wrapped(v: Number, m: Number) -> Number {
    if m.le_zero() {
        num(0)
    } else {
        let r = v.remainder(m);
        let up = if r.lt(num(0)) {
            r.sum(m)
        } else {
            r
        };
        if up.lt(m) {
            up
        } else {
            num(0)
        }
    }
}

/// Brings a coordinate into `0..m`. See [`wrapped`].
///
/// A small negative remainder a long way from the origin can round up onto the modulus itself, which
/// would put a star one pixel outside the view: that boundary is folded back to zero.
pub fn wrap(v: Number, m: Number) -> (out: Number)
    ensures
        out == wrapped(v, m),
{
    if m.is_at_most_zero() {
        return num(0);
    }
    let r: Number = v.rest(m);
    let up: Number = if r.less(num(0)) {
        r.plus(m)
    } else {
        r
    };
    if up.less(m) {
        up
    } else {
        num(0)
    }
}

/// However far out a coordinate is, it is wrapped inside.
pub proof fn law_wrapped_is_inside(v: Number, m: Number)
    requires
        num(0).lt(m),
    ensures
        !wrapped(v, m).lt(num(0)),
        wrapped(v, m).lt(m),
{
    lemma_wrapped_into(v, m);
}

/// Wrapping takes out whole ranges and nothing else: a whole coordinate, on either side of the
/// origin, comes to what it is past the last multiple of the range that it has reached.
pub proof fn law_wrapping_takes_out_whole_ranges(v: Number, m: Number, at: int, range: int)
    requires
        is_whole(v, at),
        is_whole(m, range),
        -0x80_0000 < at < 0x80_0000,
        0 < range < 0x80_0000,
    ensures
        is_whole(wrapped(v, m), at % range),
{
    let r = v.remainder(m);
    law_whole_remainders_are_exact(v, m, at, range);
    let left = if at < 0 {
        -((-at) % range)
    } else {
        at % range
    };
    let one = pow2(149) as int;
    lemma_pow2_pos(149);
    lemma_values_in_order(num(0), m);
    lemma_values_in_order(m, num(0));
    lemma_values_in_order(r, num(0));
    lemma_values_in_order(num(0), r);
    lemma_values_in_order(m, r);
    assert(range * one > 0 && (left < 0 <==> left * one < 0) && left * one < range * one)
        by (nonlinear_arith)
        requires
            range > 0,
            one > 0,
            left < range,
    ;
    if at < 0 {
        lemma_mod_bound(-at, range);
        lemma_fundamental_div_mod(-at, range);
        let q = (-at) / range;
        if left < 0 {
            assert(at == range * (-q - 1) + (range + left)) by (nonlinear_arith)
                requires
                    -at == range * q + (-left),
            ;
            lemma_fundamental_div_mod_converse(at, range, -q - 1, range + left);
            law_whole_sums_are_exact(r, m, left, range);
            let up = r.sum(m);
            lemma_values_in_order(m, up);
            assert((left + range) * one < range * one) by (nonlinear_arith)
                requires
                    left < 0,
                    one > 0,
            ;
        } else {
            assert(at == range * (-q) + 0) by (nonlinear_arith)
                requires
                    -at == range * q,
            ;
            lemma_fundamental_div_mod_converse(at, range, -q, 0);
        }
    } else {
        lemma_mod_bound(at, range);
    }
}

/// How much of the stars shows: at night, and not underground.
pub open spec fn star_visibility(night: Number, depth: Number) -> Number {
    night.product(num(0x3f80_0000).difference(depth))
}

/// One star, placed for a frame.
#[derive(Clone, Copy, Debug, PartialEq, Eq, Structural)]
pub struct Star {
    pub x: Number,
    pub y: Number,
    /// How much of it shows, twinkle and all.
    pub alpha: Number,
}

impl StarSeed {
    /// The angle of the star's twinkle: 1.6 radians a second from where it starts.
    pub open spec fn turned(&self, seconds: Number) -> Number {
        seconds.product(num(0x3fcc_cccd)).sum(self.phase)
    }

    /// The star as the camera sees it. It takes 0.1 of the camera's motion, and twinkles by 0.22
    /// round 0.78 of its own brightness; `sine` is that of its twinkle.
    pub open spec fn seen(
        &self,
        sine: Number,
        cam: (Number, Number),
        view: (Number, Number),
        visibility: Number,
    ) -> Star {
        let still = num(0x3dcc_cccd);
        Star {
            x: wrapped(self.x.product(view.0).difference(cam.0.product(still)), view.0),
            y: wrapped(self.y.product(view.1).difference(cam.1.product(still)), view.1),
            alpha: self.alpha.product(visibility).product(twinkling(sine)),
        }
    }
}

/// A star's twinkle starts at its own phase and turns on from there: never back, and by 1.6 radians at
/// least once a second is over.
pub proof fn law_a_twinkle_turns_on(seed: StarSeed, seconds: Number, later: Number)
    requires
        seed.phase.is_finite(),
        num(0).le(seconds),
        seconds.le(later),
        later.is_finite(),
        later.product(num(0x3fcc_cccd)).is_finite(),
    ensures
        seconds.is_zero_spec() ==> seed.turned(seconds).same(seed.phase),
        seed.turned(seconds).le(seed.turned(later)),
        one().le(seconds) ==> num(0x3fcc_cccd).sum(seed.phase).le(seed.turned(seconds)),
{
    let rate = num(0x3fcc_cccd);
    law_products_keep_order(seconds, later, rate);
    law_products_keep_order(num(0), seconds, rate);
    law_products_commute(num(0), rate);
    law_times_zero_is_zero(rate, num(0));
    lemma_product_is_number(seconds, rate);
    law_sums_keep_order(seconds.product(rate), later.product(rate), seed.phase);
    if one().le(seconds) {
        law_products_keep_order(one(), seconds, rate);
        law_products_commute(one(), rate);
        law_times_one_is_itself(rate);
        law_sums_keep_order(rate, seconds.product(rate), seed.phase);
    }
    if seconds.is_zero_spec() {
        law_products_commute(seconds, rate);
        law_times_zero_is_zero(rate, seconds);
        lemma_nothing_more(seed.phase, seconds.product(rate));
    }
}

/// How much of its own brightness a star has, from the sine of its twinkle: 0.78, give or take 0.22.
pub open spec fn twinkling(sine: Number) -> Number {
    num(0x3f47_ae14).sum(num(0x3e61_47ae).product(sine))
}

/// A star twinkles round its own brightness: never below 0.56 of it, but for what rounding takes,
/// and never above all of it.
pub proof fn law_a_twinkle_stays_lit(sine: Number)
    requires
        sine.magnitude() <= 0x3f80_0000,
    ensures
        num(0x3f0f_5c28).le(twinkling(sine)),
        twinkling(sine).le(one()),
{
    lemma_swing(num(0x3f47_ae14), num(0x3e61_47ae), sine);
    lemma_twinkle_ends();
}

/// A twinkle follows its sine: it is above its middle on one half of a turn, up to all of the star's
/// brightness, and below it on the other, and a higher sine is never dimmer.
pub proof fn law_a_twinkle_follows_its_sine(sine: Number, higher: Number)
    requires
        sine.magnitude() <= 0x3f80_0000,
        higher.magnitude() <= 0x3f80_0000,
        sine.le(higher),
    ensures
        twinkling(sine).le(twinkling(higher)),
        num(0).le(sine) ==> num(0x3f47_ae14).le(twinkling(sine)),
        sine.le(num(0)) ==> twinkling(sine).le(num(0x3f47_ae14)),
        one().le(sine) ==> one().le(twinkling(sine)),
        sine.le(one().negated()) ==> twinkling(sine).le(num(0x3f0f_5c28)),
{
    lemma_swings_up(num(0x3f47_ae14), num(0x3e61_47ae), sine, higher);
    lemma_swings_both_ways(num(0x3f47_ae14), num(0x3e61_47ae), sine);
    lemma_twinkle_ends();
}

/// A twinkle is one at its top, and 0.56 at its bottom but for what rounding takes.
proof fn lemma_twinkle_ends()
    ensures
        num(0x3f47_ae14).difference(num(0x3e61_47ae)) == num(0x3f0f_5c28),
        num(0x3f47_ae14).sum(num(0x3e61_47ae)) == one(),
{
    let (mid, most) = (num(0x3f47_ae14), num(0x3e61_47ae));
    lemma2_to64();
    lemma_pow2_adds(2, 123);
    lemma_pow2_adds(26, 123);
    lemma_pow2_pos(123);
    lemma_rounded_scales(0x23d_70a2, 123);
    lemma_rounded_scales(0x3ff_fffe, 123);
    assert(spacing(0x8f_5c28) == 1);
    assert(spacing(0x11e_b851) == 2);
    assert(spacing(0x23d_70a2) == 4);
    assert(0x23d_70a2nat / 4 == 0x8f_5c28 && 0x23d_70a2nat % 4 == 2);
    assert(rounded(0x23d_70a2) == 0x23d_70a0);
    assert(spacing(0xff_ffff) == 1);
    assert(spacing(0x1ff_ffff) == 2);
    assert(spacing(0x3ff_fffe) == 4);
    assert(0x3ff_fffenat / 4 == 0xff_ffff && 0x3ff_fffenat % 4 == 2);
    assert(rounded(0x3ff_fffe) == 0x400_0000);
    assert(mid.steps() == 0xc7_ae14 * pow2(125));
    assert(most.steps() == 0xe1_47ae * pow2(123));
    assert(mid.difference(most) == num(0x3f0f_5c28)) by {
        reveal(Number::sum);
        assert(most.negated().steps() == -most.steps()) by {
            assert(most.negated().magnitude() == most.magnitude());
        }
        assert(pow2(125) == 4 * pow2(123));
        assert(mid.steps() + most.negated().steps() == 0x23d_70a2 * pow2(123));
        assert(rounded(0x23d_70a2) * pow2(123) == 0x8f_5c28 * pow2(125)) by (nonlinear_arith)
            requires
                rounded(0x23d_70a2) == 0x23d_70a0,
                pow2(125) == 4 * pow2(123),
        ;
        assert(0x3f0f_5c28int / 0x80_0000 == 126 && 0x3f0f_5c28int % 0x80_0000 == 0xf_5c28);
        lemma_size_is_exact(num(0x3f0f_5c28));
        assert(num(0x3f0f_5c28).size() == 0x8f_5c28 * pow2(125));
    }
    assert(mid.sum(most) == one()) by {
        reveal(Number::sum);
        lemma_one();
        lemma_size_is_exact(one());
    }
}

/// A star never goes dark: as long as any of its own brightness shows, some of it does on every
/// turn of its twinkle, and never more than all of it.
pub proof fn law_a_star_never_goes_dark(
    seed: StarSeed,
    sine: Number,
    cam: (Number, Number),
    view: (Number, Number),
    visibility: Number,
)
    requires
        sine.magnitude() <= 0x3f80_0000,
        num(0).lt(seed.alpha.product(visibility)),
        seed.alpha.product(visibility).is_finite(),
    ensures
        num(0).lt(seed.seen(sine, cam, view, visibility).alpha),
        seed.seen(sine, cam, view, visibility).alpha.le(seed.alpha.product(visibility)),
{
    let own = seed.alpha.product(visibility);
    let (least, part) = (num(0x3f0f_5c28), twinkling(sine));
    law_a_twinkle_stays_lit(sine);
    law_a_part_is_no_larger(own, part);
    lemma_product_is_number(own, part);
    reveal(Number::product);
    let (d, s) = (pow2(149), least.size());
    lemma2_to64();
    lemma_pow2_adds(24, 125);
    lemma_pow2_pos(125);
    assert(s == 0x8f_5c28 * pow2(125));
    assert(s < d < 2 * s);
    lemma_values_in_order(least, part);
    lemma_values_in_order(num(0), own);
    lemma_steps_nonnegative(own.magnitude());
    assert(s <= own.size() * part.size()) by (nonlinear_arith)
        requires
            1 <= own.size(),
            s <= part.size(),
    ;
    lemma_ratio_goes_up(s, own.size() * part.size(), d);
    lemma_basic_div(s as int, d as int);
    lemma_small_mod(s, d);
    assert(1 * d == d);
    assert(ratio(s, d) == 1);
    lemma_bits_increase(1, ratio(own.size() * part.size(), d));
}

/// A view's size, as numbers.
pub open spec fn extent(view: ViewSize) -> (Number, Number) {
    (whole_number(view.w as nat), whole_number(view.h as nat))
}

/// The view's top-left corner in the world, with the camera on a point.
pub open spec fn corner_of(focus: (Number, Number), view: ViewSize) -> (Number, Number) {
    let half = num(0x3f00_0000);
    (
        focus.0.difference(extent(view).0.product(half)),
        focus.1.difference(extent(view).1.product(half)),
    )
}

/// The view's top-left corner in the world. See [`corner_of`].
pub fn view_corner(focus: (Number, Number), view: ViewSize) -> (corner: (Number, Number))
    ensures
        corner == corner_of(focus, view),
{
    let half: Number = num(0x3f00_0000);
    (
        focus.0.minus(from_whole(view.w as u64).times(half)),
        focus.1.minus(from_whole(view.h as u64).times(half)),
    )
}

/// The fixed star set, seeded once and never touched again.
#[derive(Clone, Debug)]
pub struct StarField {
    seeds: Vec<StarSeed>,
}

impl StarField {
    /// The seeds, in order.
    pub closed spec fn seeds(&self) -> Seq<StarSeed> {
        self.seeds@
    }

    /// Seed the field. Seeds are fractions of the view rather than pixels, so a resized window
    /// is still full of stars.
    pub fn new() -> (field: StarField)
        ensures
            field.seeds() == Seq::new(STAR_COUNT as nat, |i: int| star_seed(i)),
    {
        let mut seeds: Vec<StarSeed> = Vec::new();
        let mut i: usize = 0;
        while i < STAR_COUNT
            invariant
                i <= STAR_COUNT,
                seeds@ =~= Seq::new(i as nat, |j: int| star_seed(j)),
            decreases STAR_COUNT - i,
        {
            let n: u32 = i as u32;
            seeds.push(
                StarSeed {
                    x: hash(n * 2 + 1),
                    y: hash(n * 7 + 3).times(num(0x3f33_3333)),
                    alpha: num(0x3e80_0000).plus(hash(n * 13 + 5).times(num(0x3f0c_cccd))),
                    phase: hash(n * 23 + 11).times(num(0x40c9_0fdb)),
                },
            );
            i = i + 1;
        }
        StarField { seeds }
    }

    /// How much of the field shows. See [`star_visibility`].
    pub fn visibility(night: Number, depth: Number) -> (out: Number)
        ensures
            out == star_visibility(night, depth),
    {
        night.times(num(0x3f80_0000).minus(depth))
    }

    /// The angle of star `i`'s twinkle. See [`StarSeed::turned`].
    pub fn twinkle(&self, i: usize, seconds: Number) -> (angle: Number)
        requires
            i < self.seeds().len(),
        ensures
            angle == self.seeds()[i as int].turned(seconds),
    {
        seconds.times(num(0x3fcc_cccd)).plus(self.seeds[i].phase)
    }

    /// Star `i` as the camera sees it. `cam` is the view's top-left corner in the world. See
    /// [`StarSeed::seen`].
    pub fn star(
        &self,
        i: usize,
        sine: Number,
        cam: (Number, Number),
        view: ViewSize,
        visibility: Number,
    ) -> (star: Star)
        requires
            i < self.seeds().len(),
        ensures
            star == self.seeds()[i as int].seen(sine, cam, extent(view), visibility),
    {
        let seed: StarSeed = self.seeds[i];
        let (w, h): (Number, Number) = (from_whole(view.w as u64), from_whole(view.h as u64));
        let still: Number = num(0x3dcc_cccd);
        let twinkle: Number = num(0x3f47_ae14).plus(num(0x3e61_47ae).times(sine));
        Star {
            x: wrap(seed.x.times(w).minus(cam.0.times(still)), w),
            y: wrap(seed.y.times(h).minus(cam.1.times(still)), h),
            alpha: seed.alpha.times(visibility).times(twinkle),
        }
    }
}

} // verus!
