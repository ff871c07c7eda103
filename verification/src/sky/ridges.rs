//! The hills: two ridges of two waves each, snapped to the backdrop's blocks.

use vstd::prelude::*;

use crate::arith::{
    from_signed, law_products_commute, lemma_not_above_zero, lemma_steps_are_sizes, signed_number,
};
use crate::number::{Number, num};
use crate::order::{distance, law_sums_keep_order, lemma_reach, lemma_sum_is_near, lemma_swing};
use crate::sky::colour::{Tone, clamp01, clamped01};
use crate::sky::model::block_px;

verus! {

/// How far underground the view is: 0 at the surface row, 1 from 300 rows of five pixels below it.
pub open spec fn buried(focus_y: Number, surface_row: i32) -> Number {
    clamped01(
        focus_y.quotient(num(0x40a0_0000)).difference(signed_number(surface_row as int)).quotient(
            num(0x4396_0000),
        ),
    )
}

/// How far underground the view is. `focus_y` is its centre in world pixels, with y running down.
/// See [`buried`].
pub fn depth_at(focus_y: Number, surface_row: i32) -> (depth: Number)
    ensures
        depth == buried(focus_y, surface_row),
{
    let row: Number = focus_y.over(num(0x40a0_0000));
    clamp01(row.minus(from_signed(surface_row as i64)).over(num(0x4396_0000)))
}

/// The camera is at the surface until it is below its row.
pub proof fn law_no_depth_above_the_surface(focus_y: Number, surface_row: i32)
    requires
        focus_y.quotient(num(0x40a0_0000)).is_finite(),
        focus_y.quotient(num(0x40a0_0000)).le(signed_number(surface_row as int)),
        signed_number(surface_row as int).is_finite(),
    ensures
        buried(focus_y, surface_row).is_zero_spec(),
{
    lemma_not_above_zero(
        focus_y.quotient(num(0x40a0_0000)),
        signed_number(surface_row as int),
        num(0x4396_0000),
    );
}

/// The nearest edge of a block.
pub open spec fn snapped(v: Number) -> Number {
    v.quotient(block_px()).nearest_whole().product(block_px())
}

/// The nearest edge of a block. See [`snapped`].
pub fn snap_to_block(v: Number) -> (out: Number)
    ensures
        out == snapped(v),
{
    v.over(block_px()).round().times(block_px())
}

/// One line of hills: two waves.
#[derive(Clone, Copy, Debug, PartialEq, Eq, Structural)]
pub struct Ridge {
    /// How much of the camera's motion it takes. Nearer means more.
    pub parallax: Number,
    /// Its resting height, as a part of the view.
    pub base: Number,
    /// How fast the slow wave turns, in radians a pixel.
    pub f1: Number,
    /// How fast the fast one does.
    pub f2: Number,
    /// How high the slow wave is, in pixels.
    pub a1: Number,
    /// How high the fast one is.
    pub a2: Number,
    /// How much of the hills' colour it keeps.
    pub shade: Number,
}

/// The far hills: higher, slower and lighter than the near ones.
#[verifier::allow_in_spec]
pub fn far_ridge() -> Ridge
    returns
        (Ridge {
            parallax: num(0x3e99_999a),
            base: num(0x3f33_3333),
            f1: num(0x3bc4_9ba6),
            f2: num(0x3c8b_4396),
            a1: num(0x41d0_0000),
            a2: num(0x4140_0000),
            shade: num(0x3f80_0000),
        }),
{
    Ridge {
        parallax: num(0x3e99_999a),
        base: num(0x3f33_3333),
        f1: num(0x3bc4_9ba6),
        f2: num(0x3c8b_4396),
        a1: num(0x41d0_0000),
        a2: num(0x4140_0000),
        shade: num(0x3f80_0000),
    }
}

/// The near hills.
#[verifier::allow_in_spec]
pub fn near_ridge() -> Ridge
    returns
        (Ridge {
            parallax: num(0x3f0c_cccd),
            base: num(0x3f51_eb85),
            f1: num(0x3c34_3958),
            f2: num(0x3cbc_6a7f),
            a1: num(0x4190_0000),
            a2: num(0x4110_0000),
            shade: num(0x3f0c_cccd),
        }),
{
    Ridge {
        parallax: num(0x3f0c_cccd),
        base: num(0x3f51_eb85),
        f1: num(0x3c34_3958),
        f2: num(0x3cbc_6a7f),
        a1: num(0x4190_0000),
        a2: num(0x4110_0000),
        shade: num(0x3f0c_cccd),
    }
}

/// The near hills are lower, darker and scroll faster than the far ones.
pub proof fn law_near_hills_are_lower_darker_and_faster()
    ensures
        far_ridge().base.lt(near_ridge().base),
        near_ridge().shade.lt(far_ridge().shade),
        far_ridge().parallax.lt(near_ridge().parallax),
{
}

impl Ridge {
    /// The angles of the two waves at a view column.
    pub open spec fn angles(&self, sx: Number, cam_x: Number) -> (Number, Number) {
        let wx = sx.sum(cam_x.product(self.parallax));
        (wx.product(self.f1), wx.product(self.f2))
    }

    /// The height of the hills, from the sines of the two waves.
    pub open spec fn raised(&self, sines: (Number, Number), view_h: Number) -> Number {
        view_h.product(self.base).sum(sines.0.product(self.a1)).sum(sines.1.product(self.a2))
    }

    /// The angles of the two waves at a view column, with the ridge shifted by its part of the
    /// camera's motion. See [`Ridge::angles`].
    pub fn waves(&self, sx: Number, cam_x: Number) -> (angles: (Number, Number))
        ensures
            angles == self.angles(sx, cam_x),
    {
        let wx: Number = sx.plus(cam_x.times(self.parallax));
        (wx.times(self.f1), wx.times(self.f2))
    }

    /// The height of the hills, from the sines of [`Ridge::waves`], with y running down.
    pub fn height_at(&self, sines: (Number, Number), view_h: Number) -> (y: Number)
        ensures
            y == self.raised(sines, view_h),
    {
        view_h.times(self.base).plus(sines.0.times(self.a1)).plus(sines.1.times(self.a2))
    }

    /// The angles of the two waves in the middle of the block column that starts at a coordinate of
    /// the ridge's own.
    pub fn column_waves(&self, ridge_x: Number) -> (angles: (Number, Number))
        ensures
            angles == self.angles(ridge_x.sum(num(0x4020_0000)), num(0)),
    {
        self.waves(ridge_x.plus(num(0x4020_0000)), num(0))
    }

    /// The top of a block column, from the sines of [`Ridge::column_waves`]. The camera has no part
    /// in it, so the silhouette is the same set of columns wherever the camera stands.
    pub fn column_top(&self, sines: (Number, Number), view_h: Number) -> (y: Number)
        ensures
            y == snapped(self.raised(sines, view_h)),
    {
        snap_to_block(self.height_at(sines, view_h))
    }

    /// How far along its own space the ridge has scrolled.
    pub open spec fn scrolled(&self, cam_x: Number) -> Number {
        cam_x.product(self.parallax).nearest_whole()
    }

    /// How far along its own space the ridge has scrolled, in whole pixels.
    pub fn scroll(&self, cam_x: Number) -> (shift: Number)
        ensures
            shift == self.scrolled(cam_x),
            shift == cam_x.product(self.parallax).nearest_whole(),
    {
        cam_x.times(self.parallax).round()
    }

    /// The ridge's colour: 0.4 of the hills' at night and all of it by day, times its own shade, in
    /// whole steps.
    pub open spec fn tinted(&self, hill: Tone, day: Number) -> Tone {
        let k = num(0x3ecc_cccd).sum(num(0x3f19_999a).product(day)).product(self.shade);
        Tone {
            r: hill.r.product(k).cut_short(),
            g: hill.g.product(k).cut_short(),
            b: hill.b.product(k).cut_short(),
        }
    }

    /// The ridge's colour. See [`Ridge::tinted`].
    pub fn tint(&self, hill: Tone, day: Number) -> (out: Tone)
        ensures
            out == self.tinted(hill, day),
    {
        let k: Number = num(0x3ecc_cccd).plus(num(0x3f19_999a).times(day)).times(self.shade);
        Tone { r: hill.r.times(k).trunc(), g: hill.g.times(k).trunc(), b: hill.b.times(k).trunc() }
    }
}

/// A ridge stays within its own amplitude of its resting height: between the two ends that its
/// waves reach, and as far as numbers are exact no further off than the two together are high.
pub proof fn law_a_ridge_stays_within_its_amplitude(
    ridge: Ridge,
    sines: (Number, Number),
    view_h: Number,
)
    requires
        sines.0.magnitude() <= 0x3f80_0000,
        sines.1.magnitude() <= 0x3f80_0000,
        ridge.a1.is_finite(),
        ridge.a2.is_finite(),
        !ridge.a1.negative(),
        !ridge.a2.negative(),
        view_h.product(ridge.base).difference(ridge.a1).difference(ridge.a2).is_finite(),
        view_h.product(ridge.base).sum(ridge.a1).sum(ridge.a2).is_finite(),
    ensures
        ({
            let rest = view_h.product(ridge.base);
            let y = ridge.raised(sines, view_h);
            let swing = ridge.a1.steps() + ridge.a2.steps();
            &&& rest.difference(ridge.a1).difference(ridge.a2).le(y)
            &&& y.le(rest.sum(ridge.a1).sum(ridge.a2))
            &&& 0x40_0000 * (distance(y.steps(), rest.steps()) - swing) <= distance(rest.steps(), 0)
                + swing
        }),
{
    let rest = view_h.product(ridge.base);
    let (a, b) = (ridge.a1, ridge.a2);
    law_products_commute(sines.0, a);
    law_products_commute(sines.1, b);
    let (p, q) = (a.product(sines.0), b.product(sines.1));
    assert(rest.is_number() && rest.is_finite() && rest.sum(a).is_finite() && rest.difference(
        a,
    ).is_finite()) by {
        reveal(Number::sum);
    }
    lemma_swing(rest, a, sines.0);
    let mid = rest.sum(p);
    lemma_swing(mid, b, sines.1);
    assert(b.negated().magnitude() == b.magnitude());
    law_sums_keep_order(rest.difference(a), mid, b.negated());
    law_sums_keep_order(mid, rest.sum(a), b);
    lemma_reach(p, a);
    lemma_reach(q, b);
    lemma_steps_are_sizes(a);
    lemma_steps_are_sizes(b);
    lemma_sum_is_near(rest, p);
    lemma_sum_is_near(mid, q);
}

} // verus!
