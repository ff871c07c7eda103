//! The backdrop's colours: the gradient and its twilight band, and the discs' ramp.

use vstd::prelude::*;

use crate::arith::{
    from_signed, from_whole, law_a_part_is_no_larger, law_less_itself_is_zero,
    law_times_zero_is_zero, law_zero_adds_nothing, lemma_product_is_number,
    lemma_small_difference, lemma_sum_is_number, lemma_sum_of_zeros, lemma_zero_over, one,
    signed_number, whole_number,
};
use crate::number::{Number, num};
use crate::sky::mesh::ViewSize;
use crate::sky::model::{
    Texel, block_grid, block_px, block_sample, blocks_over, paint_gradient, sampled,
};
use crate::sprite::bake::lemma_in_picture;

verus! {

/// A colour with channels from 0 to 255.
#[derive(Clone, Copy, Debug, PartialEq, Eq, Structural)]
pub struct Tone {
    pub r: Number,
    pub g: Number,
    pub b: Number,
}

/// A colour by the bits of its channels.
#[verifier::allow_in_spec]
pub fn tone(r: u32, g: u32, b: u32) -> Tone
    returns
        (Tone { r: num(r), g: num(g), b: num(b) }),
{
    Tone { r: num(r), g: num(g), b: num(b) }
}

/// A number pulled back between zero and one.
pub open spec fn clamped01(v: Number) -> Number {
    v.clamped(num(0), num(0x3f80_0000))
}

/// A number pulled back between zero and one. See [`clamped01`].
pub fn clamp01(v: Number) -> (out: Number)
    ensures
        out == clamped01(v),
{
    v.clamp(num(0), num(0x3f80_0000))
}

/// A number pulled back between zero and 255.
pub open spec fn clamped255(v: Number) -> Number {
    v.clamped(num(0), num(0x437f_0000))
}

/// From `a` to `b`, as far as `t` says.
pub open spec fn mixed(a: Number, b: Number, t: Number) -> Number {
    a.sum(b.difference(a).product(t))
}

fn mix(a: Number, b: Number, t: Number) -> (out: Number)
    ensures
        out == mixed(a, b, t),
{
    a.plus(b.minus(a).times(t))
}

/// The hour, as the sky's colours read it.
#[derive(Clone, Copy, Debug, PartialEq, Eq, Structural)]
pub struct SkyHour {
    pub day: Number,
    pub twilight: Number,
    /// How far down the view the sun is.
    pub sun_y: Number,
}

/// The biome's own night colours.
#[derive(Clone, Copy, Debug, PartialEq, Eq, Structural)]
pub struct Palette {
    pub sky_top: Tone,
    pub sky_bottom: Tone,
    pub sky_top_deep: Tone,
}

/// The two ends of the sky.
#[derive(Clone, Copy, Debug, PartialEq, Eq, Structural)]
pub struct Gradient {
    pub top: Tone,
    pub bottom: Tone,
}

/// How one end of the sky is made: the neutral daylight that the biome's horizon is pushed toward
/// and how much of each there is in it, the dusk and how much of it is taken, and how much of the
/// deep colour is.
#[derive(Clone, Copy, Debug, PartialEq, Eq, Structural)]
pub struct Recipe {
    pub day: Number,
    pub day_part: Number,
    pub own_part: Number,
    pub dusk: Number,
    pub dusk_part: Number,
    pub deep_part: Number,
}

/// One channel of one end of the sky: from the biome's own colour `night` toward daylight by the
/// day, from there toward dusk by the twilight, and from there toward the deep colour by the depth.
/// The daylight is derived from the biome's own horizon, so each keeps its hue at noon.
pub open spec fn end_channel(
    like: Recipe,
    night: Number,
    horizon: Number,
    deep: Number,
    depth: Number,
    hour: SkyHour,
) -> Number {
    let noon = clamped255(
        like.day.product(like.day_part).sum(horizon.product(like.own_part)),
    );
    let lit = mixed(night, noon, hour.day);
    let dusky = lit.sum(
        like.dusk.difference(lit).product(hour.twilight).product(like.dusk_part),
    );
    dusky.sum(deep.difference(dusky).product(depth).product(like.deep_part))
}

fn channel(
    like: Recipe,
    night: Number,
    horizon: Number,
    deep: Number,
    depth: Number,
    hour: &SkyHour,
) -> (out: Number)
    ensures
        out == end_channel(like, night, horizon, deep, depth, *hour),
{
    let noon: Number = like.day.times(like.day_part).plus(horizon.times(like.own_part)).clamp(
        num(0),
        num(0x437f_0000),
    );
    let lit: Number = mix(night, noon, hour.day);
    let dusky: Number = lit.plus(
        like.dusk.minus(lit).times(hour.twilight).times(like.dusk_part),
    );
    dusky.plus(deep.minus(dusky).times(depth).times(like.deep_part))
}

/// The recipe of a channel of the zenith.
#[verifier::allow_in_spec]
pub fn zenith(day: u32, dusk: u32) -> Recipe
    returns
        (Recipe {
            day: num(day),
            day_part: num(0x3ee6_6666),
            own_part: num(0x3fa0_0000),
            dusk: num(dusk),
            dusk_part: num(0x3ee6_6666),
            deep_part: num(0x3f80_0000),
        }),
{
    Recipe {
        day: num(day),
        day_part: num(0x3ee6_6666),
        own_part: num(0x3fa0_0000),
        dusk: num(dusk),
        dusk_part: num(0x3ee6_6666),
        deep_part: num(0x3f80_0000),
    }
}

/// The recipe of a channel of the horizon.
#[verifier::allow_in_spec]
pub fn horizon(day: u32, dusk: u32) -> Recipe
    returns
        (Recipe {
            day: num(day),
            day_part: num(0x3f00_0000),
            own_part: num(0x3fc0_0000),
            dusk: num(dusk),
            dusk_part: num(0x3f19_999a),
            deep_part: num(0x3f66_6666),
        }),
{
    Recipe {
        day: num(day),
        day_part: num(0x3f00_0000),
        own_part: num(0x3fc0_0000),
        dusk: num(dusk),
        dusk_part: num(0x3f19_999a),
        deep_part: num(0x3f66_6666),
    }
}

/// The two ends of the sky at an hour and a depth.
///
/// Daylight is (96, 140, 205) at the zenith and (200, 220, 240) at the horizon, and dusk is
/// (64, 52, 96) and (242, 138, 74).
pub open spec fn sky_ends(own: Palette, depth: Number, hour: SkyHour) -> Gradient {
    let (top, low, deep) = (own.sky_top, own.sky_bottom, own.sky_top_deep);
    Gradient {
        top: Tone {
            r: end_channel(zenith(0x42c0_0000, 0x4280_0000), top.r, low.r, deep.r, depth, hour),
            g: end_channel(zenith(0x430c_0000, 0x4250_0000), top.g, low.g, deep.g, depth, hour),
            b: end_channel(zenith(0x434d_0000, 0x42c0_0000), top.b, low.b, deep.b, depth, hour),
        },
        bottom: Tone {
            r: end_channel(horizon(0x4348_0000, 0x4372_0000), low.r, low.r, deep.r, depth, hour),
            g: end_channel(horizon(0x435c_0000, 0x430a_0000), low.g, low.g, deep.g, depth, hour),
            b: end_channel(horizon(0x4370_0000, 0x4294_0000), low.b, low.b, deep.b, depth, hour),
        },
    }
}

/// The two ends of the sky at an hour and a depth. See [`sky_ends`].
pub fn gradient(own: &Palette, depth: Number, hour: &SkyHour) -> (out: Gradient)
    ensures
        out == sky_ends(*own, depth, *hour),
{
    let (top, low, deep): (Tone, Tone, Tone) = (own.sky_top, own.sky_bottom, own.sky_top_deep);
    Gradient {
        top: Tone {
            r: channel(zenith(0x42c0_0000, 0x4280_0000), top.r, low.r, deep.r, depth, hour),
            g: channel(zenith(0x430c_0000, 0x4250_0000), top.g, low.g, deep.g, depth, hour),
            b: channel(zenith(0x434d_0000, 0x42c0_0000), top.b, low.b, deep.b, depth, hour),
        },
        bottom: Tone {
            r: channel(horizon(0x4348_0000, 0x4372_0000), low.r, low.r, deep.r, depth, hour),
            g: channel(horizon(0x435c_0000, 0x430a_0000), low.g, low.g, deep.g, depth, hour),
            b: channel(horizon(0x4370_0000, 0x4294_0000), low.b, low.b, deep.b, depth, hour),
        },
    }
}

/// The band of twilight that is added over the horizon.
#[derive(Clone, Copy, Debug, PartialEq, Eq, Structural)]
pub struct HorizonGlow {
    pub strength: Number,
    /// The row it starts at.
    pub top: Number,
    /// The row it ends at, below which everything is flooded.
    pub bottom: Number,
}

/// The band at an hour and a depth, or `None` where it is no stronger than 0.02. Its bottom follows
/// the sun down, from 0.52 of the view by up to 0.3 more, and it is 0.42 of the view high.
pub open spec fn glow_at(hour: SkyHour, depth: Number, view_h: Number) -> Option<HorizonGlow> {
    let strength = hour.twilight.product(num(0x3f80_0000).difference(depth));
    let bottom = view_h.product(
        num(0x3f05_1eb8).sum(num(0x3e99_999a).product(clamped01(hour.sun_y))),
    );
    if strength.le(num(0x3ca3_d70a)) {
        None
    } else {
        Some(
            HorizonGlow {
                strength,
                top: bottom.difference(view_h.product(num(0x3ed7_0a3d))),
                bottom,
            },
        )
    }
}

/// The band at an hour and a depth. See [`glow_at`].
pub fn horizon_glow(hour: &SkyHour, depth: Number, view_h: Number) -> (out: Option<HorizonGlow>)
    ensures
        out == glow_at(*hour, depth, view_h),
{
    let strength: Number = hour.twilight.times(num(0x3f80_0000).minus(depth));
    if strength.at_most(num(0x3ca3_d70a)) {
        return None;
    }
    let bottom: Number = view_h.times(
        num(0x3f05_1eb8).plus(num(0x3e99_999a).times(clamp01(hour.sun_y))),
    );
    let top: Number = bottom.minus(view_h.times(num(0x3ed7_0a3d)));
    Some(HorizonGlow { strength, top, bottom })
}

/// A stop of a ramp: where it is, its colour, and how much of it there is.
#[derive(Clone, Copy, Debug, PartialEq, Eq, Structural)]
pub struct Stop {
    pub at: Number,
    pub tone: Tone,
    pub part: Number,
}

/// The band's stops, from its top to its bottom: none of (240, 120, 60), 0.3 of (244, 132, 66) at
/// 0.55, and 0.62 of (255, 186, 110).
#[verifier::allow_in_spec]
pub fn band() -> (Stop, Stop, Stop)
    returns
        (
            Stop { at: num(0), tone: tone(0x4370_0000, 0x42f0_0000, 0x4270_0000), part: num(0) },
            Stop {
                at: num(0x3f0c_cccd),
                tone: tone(0x4374_0000, 0x4304_0000, 0x4284_0000),
                part: num(0x3e99_999a),
            },
            Stop {
                at: num(0x3f80_0000),
                tone: tone(0x437f_0000, 0x433a_0000, 0x42dc_0000),
                part: num(0x3f1e_b852),
            },
        ),
{
    (
        Stop { at: num(0), tone: tone(0x4370_0000, 0x42f0_0000, 0x4270_0000), part: num(0) },
        Stop {
            at: num(0x3f0c_cccd),
            tone: tone(0x4374_0000, 0x4304_0000, 0x4284_0000),
            part: num(0x3e99_999a),
        },
        Stop {
            at: num(0x3f80_0000),
            tone: tone(0x437f_0000, 0x433a_0000, 0x42dc_0000),
            part: num(0x3f1e_b852),
        },
    )
}

/// How far `u` is from `lo` to `hi`.
pub open spec fn along(lo: Number, hi: Number, u: Number) -> Number {
    if lo.lt(hi) {
        clamped01(u.difference(lo).quotient(hi.difference(lo)))
    } else {
        num(0x3f80_0000)
    }
}

fn part_way(lo: Number, hi: Number, u: Number) -> (t: Number)
    ensures
        t == along(lo, hi, u),
{
    if lo.less(hi) {
        clamp01(u.minus(lo).over(hi.minus(lo)))
    } else {
        num(0x3f80_0000)
    }
}

/// A stop's colour at a strength.
pub open spec fn stop_tone(stop: Stop, strength: Number) -> Tone {
    Tone {
        r: stop.tone.r.product(stop.part).product(strength),
        g: stop.tone.g.product(stop.part).product(strength),
        b: stop.tone.b.product(stop.part).product(strength),
    }
}

fn tone_of(stop: &Stop, strength: Number) -> (out: Tone)
    ensures
        out == stop_tone(*stop, strength),
{
    Tone {
        r: stop.tone.r.times(stop.part).times(strength),
        g: stop.tone.g.times(stop.part).times(strength),
        b: stop.tone.b.times(stop.part).times(strength),
    }
}

/// From one colour to another, as far as `t` says.
pub open spec fn mixed_tone(a: Tone, b: Tone, t: Number) -> Tone {
    Tone { r: mixed(a.r, b.r, t), g: mixed(a.g, b.g, t), b: mixed(a.b, b.b, t) }
}

fn mix_tone(a: Tone, b: Tone, t: Number) -> (out: Tone)
    ensures
        out == mixed_tone(a, b, t),
{
    Tone { r: mix(a.r, b.r, t), g: mix(a.g, b.g, t), b: mix(a.b, b.b, t) }
}

impl HorizonGlow {
    /// How far down the band a row is, from 0 above it to 1 below it.
    pub open spec fn down(&self, y: Number) -> Number {
        let span = self.bottom.difference(self.top);
        if num(0).lt(span) {
            clamped01(y.difference(self.top).quotient(span))
        } else {
            num(0x3f80_0000)
        }
    }

    /// What the band adds to a row.
    pub open spec fn added(&self, y: Number) -> Tone {
        let u = self.down(y);
        let (a, b, c) = band();
        if u.le(b.at) {
            mixed_tone(
                stop_tone(a, self.strength),
                stop_tone(b, self.strength),
                along(a.at, b.at, u),
            )
        } else if u.le(c.at) {
            mixed_tone(
                stop_tone(b, self.strength),
                stop_tone(c, self.strength),
                along(b.at, c.at, u),
            )
        } else {
            stop_tone(c, self.strength)
        }
    }

    /// What the band adds to a row. See [`HorizonGlow::added`].
    pub fn add_at(&self, y: Number) -> (out: Tone)
        ensures
            out == self.added(y),
    {
        let span: Number = self.bottom.minus(self.top);
        let u: Number = if num(0).less(span) {
            clamp01(y.minus(self.top).over(span))
        } else {
            num(0x3f80_0000)
        };
        let (a, b, c): (Stop, Stop, Stop) = band();
        if u.at_most(b.at) {
            mix_tone(
                tone_of(&a, self.strength),
                tone_of(&b, self.strength),
                part_way(a.at, b.at, u),
            )
        } else if u.at_most(c.at) {
            mix_tone(
                tone_of(&b, self.strength),
                tone_of(&c, self.strength),
                part_way(b.at, c.at, u),
            )
        } else {
            tone_of(&c, self.strength)
        }
    }
}

/// What a glow adds to a row, if there is one.
pub open spec fn extra(glow: Option<HorizonGlow>, y: Number) -> Tone {
    match glow {
        Some(g) => g.added(y),
        None => tone(0, 0, 0),
    }
}

/// How far down the view a row is.
pub open spec fn view_part(y: Number, view_h: Number) -> Number {
    if num(0).lt(view_h) {
        clamped01(y.quotient(view_h))
    } else {
        num(0)
    }
}

/// The sky's colour at a row: the gradient and what the glow adds, opaque. A channel that overshoots
/// stops at the last value.
pub open spec fn texel_at(
    ends: Gradient,
    glow: Option<HorizonGlow>,
    y: Number,
    view_h: Number,
) -> Seq<u8> {
    let base = mixed_tone(ends.top, ends.bottom, view_part(y, view_h));
    let add = extra(glow, y);
    seq![base.r.sum(add.r).byte(), base.g.sum(add.g).byte(), base.b.sum(add.b).byte(), 255u8]
}

/// The sky's colour at a row. See [`texel_at`].
pub fn sky_texel(ends: &Gradient, glow: &Option<HorizonGlow>, y: Number, view_h: Number) -> (out:
    Texel)
    ensures
        out@ == texel_at(*ends, *glow, y, view_h),
{
    let t: Number = if num(0).less(view_h) {
        clamp01(y.over(view_h))
    } else {
        num(0)
    };
    let add: Tone = match glow {
        Some(g) => g.add_at(y),
        None => tone(0, 0, 0),
    };
    let base: Tone = mix_tone(ends.top, ends.bottom, t);
    let out: Texel = [
        base.r.plus(add.r).to_byte(),
        base.g.plus(add.g).to_byte(),
        base.b.plus(add.b).to_byte(),
        255,
    ];
    assert(out@ =~= texel_at(*ends, *glow, y, view_h));
    out
}

/// The row of the smooth sky that a block of the grid takes its colour from, in view pixels.
pub open spec fn block_y(bx: int, row: nat) -> Number {
    whole_number(row).sum(
        whole_number(sampled(bx, row as int) as nat).quotient(num(0x4200_0000)),
    ).product(block_px())
}

fn sampled_y(bx: i32, row: u32) -> (y: Number)
    requires
        0 <= bx < 4,
        row <= i32::MAX,
    ensures
        y == block_y(bx as int, row as nat),
{
    let at: u32 = block_sample(bx, row as i32);
    from_whole(row as u64).plus(from_whole(at as u64).over(num(0x4200_0000))).times(block_px())
}

/// `phases` holds the colours of the four dither phases of each row of blocks.
pub open spec fn are_phases(
    phases: Seq<[Texel; 4]>,
    ends: Gradient,
    glow: Option<HorizonGlow>,
    view_h: Number,
) -> bool {
    forall|row: int, bx: int|
        0 <= row < phases.len() && 0 <= bx < 4 ==> (#[trigger] phases[row]@[bx])@ == texel_at(
            ends,
            glow,
            block_y(bx, row as nat),
            view_h,
        )
}

/// The sky over a block grid: each block is the colour of the row that it takes its sample from.
pub open spec fn sky_bytes(
    ends: Gradient,
    glow: Option<HorizonGlow>,
    cols: nat,
    rows: nat,
    view_h: Number,
) -> Seq<u8> {
    Seq::new(
        cols * rows * 4,
        |i: int|
            texel_at(
                ends,
                glow,
                block_y(i / 4 % (cols as int), (i / 4 / (cols as int)) as nat),
                view_h,
            )[i % 4],
    )
}

/// Paint the sky over a view, one texel to a block. See [`sky_bytes`].
pub fn paint_sky(ends: &Gradient, glow: &Option<HorizonGlow>, view: ViewSize) -> (out: Vec<u8>)
    requires
        blocks_over(view.w) * blocks_over(view.h) * 4 <= usize::MAX,
    ensures
        out@ == sky_bytes(
            *ends,
            *glow,
            blocks_over(view.w) as nat,
            blocks_over(view.h) as nat,
            whole_number(view.h as nat),
        ),
{
    let (cols, rows): (usize, usize) = block_grid(view);
    let view_h: Number = from_whole(view.h as u64);
    let mut phases: Vec<[Texel; 4]> = Vec::new();
    let mut row: usize = 0;
    while row < rows
        invariant
            row <= rows,
            rows == blocks_over(view.h),
            rows <= 0x4000_0000,
            phases@.len() == row,
            view_h == whole_number(view.h as nat),
            are_phases(phases@, *ends, *glow, view_h),
        decreases rows - row,
    {
        let y0: Number = sampled_y(0, row as u32);
        let y1: Number = sampled_y(1, row as u32);
        let y2: Number = sampled_y(2, row as u32);
        let y3: Number = sampled_y(3, row as u32);
        let texels: [Texel; 4] = [
            sky_texel(ends, glow, y0, view_h),
            sky_texel(ends, glow, y1, view_h),
            sky_texel(ends, glow, y2, view_h),
            sky_texel(ends, glow, y3, view_h),
        ];
        let ghost before = phases@;
        phases.push(texels);
        proof {
            assert forall|r: int, bx: int| 0 <= r < phases@.len() && 0 <= bx < 4 implies (
            #[trigger] phases@[r]@[bx])@ == texel_at(
                *ends,
                *glow,
                block_y(bx, r as nat),
                view_h,
            ) by {
                if r < before.len() {
                    assert(before[r]@[bx]@ == phases@[r]@[bx]@);
                } else {
                    assert(phases@[r] == texels);
                    if bx == 0 {
                    } else if bx == 1 {
                    } else if bx == 2 {
                    }
                }
            }
        }
        row = row + 1;
    }
    let ghost made = phases@;
    proof {
        assert(cols * rows <= usize::MAX) by (nonlinear_arith)
            requires
                cols * rows * 4 <= usize::MAX,
                0 <= cols,
                0 <= rows,
        ;
    }
    let out: Vec<u8> = paint_gradient(&phases, cols, rows);
    proof {
        let (w, h) = (cols as int, rows as int);
        let want = sky_bytes(*ends, *glow, cols as nat, rows as nat, view_h);
        assert forall|i: int| 0 <= i < out@.len() implies out@[i] == want[i] by {
            lemma_in_picture(i, w, h);
            let (col, row) = (i / 4 % w, i / 4 / w);
            assert(made[row]@[col % 4]@ == texel_at(
                *ends,
                *glow,
                block_y(col % 4, row as nat),
                view_h,
            ));
            assert(sampled(col % 4, row) == sampled(col, row));
        }
        assert(out@ =~= want);
    }
    out
}

/// The sun or the moon.
#[derive(Clone, Copy, Debug, PartialEq, Eq, Structural)]
pub struct Disc {
    pub radius: Number,
    pub core: Tone,
    pub halo: Tone,
}

/// The sun: 46 pixels, (255, 244, 214) and (255, 176, 92).
#[verifier::allow_in_spec]
pub fn sun() -> Disc
    returns
        (Disc {
            radius: num(0x4238_0000),
            core: tone(0x437f_0000, 0x4374_0000, 0x4356_0000),
            halo: tone(0x437f_0000, 0x4330_0000, 0x42b8_0000),
        }),
{
    Disc {
        radius: num(0x4238_0000),
        core: tone(0x437f_0000, 0x4374_0000, 0x4356_0000),
        halo: tone(0x437f_0000, 0x4330_0000, 0x42b8_0000),
    }
}

/// The moon: 34 pixels, (244, 248, 255) and (150, 170, 210).
#[verifier::allow_in_spec]
pub fn moon() -> Disc
    returns
        (Disc {
            radius: num(0x4208_0000),
            core: tone(0x4374_0000, 0x4378_0000, 0x437f_0000),
            halo: tone(0x4316_0000, 0x432a_0000, 0x4352_0000),
        }),
{
    Disc {
        radius: num(0x4208_0000),
        core: tone(0x4374_0000, 0x4378_0000, 0x437f_0000),
        halo: tone(0x4316_0000, 0x432a_0000, 0x4352_0000),
    }
}

/// One ring of a disc: how far out it is, its colour, and how much of it shows.
pub open spec fn ring(at: u32, tone: Tone, part: u32, radius: Number, alpha: Number) -> Stop {
    Stop { at: num(at).product(radius), tone, part: num(part).product(alpha) }
}

impl Disc {
    /// The disc's rings, from a hot core to nothing at its rim: 0.95 in the middle, 0.7 at 0.32 of
    /// the radius, then 0.28 of the halo at 0.42, and none at the rim.
    pub open spec fn ramp(&self, alpha: Number) -> Seq<Stop> {
        seq![
            ring(0, self.core, 0x3f73_3333, self.radius, alpha),
            ring(0x3ea3_d70a, self.core, 0x3f33_3333, self.radius, alpha),
            ring(0x3ed7_0a3d, self.halo, 0x3e8f_5c29, self.radius, alpha),
            ring(0x3f80_0000, self.halo, 0, self.radius, alpha),
        ]
    }

    /// The disc's rings at an alpha. See [`Disc::ramp`].
    pub fn rings(&self, alpha: Number) -> (out: [Stop; 4])
        ensures
            out@ == self.ramp(alpha),
    {
        let out: [Stop; 4] = [
            Stop {
                at: num(0).times(self.radius),
                tone: self.core,
                part: num(0x3f73_3333).times(alpha),
            },
            Stop {
                at: num(0x3ea3_d70a).times(self.radius),
                tone: self.core,
                part: num(0x3f33_3333).times(alpha),
            },
            Stop {
                at: num(0x3ed7_0a3d).times(self.radius),
                tone: self.halo,
                part: num(0x3e8f_5c29).times(alpha),
            },
            Stop { at: num(0x3f80_0000).times(self.radius), tone: self.halo, part: num(0).times(alpha) },
        ];
        assert(out@ =~= self.ramp(alpha));
        out
    }
}

/// The colour between two rings, or `None` where nothing of it shows.
pub open spec fn between_rings(lo: Stop, hi: Stop, r: Number) -> Option<(Tone, Number)> {
    let t = along(lo.at, hi.at, r);
    let alpha = mixed(lo.part, hi.part, t);
    if alpha.le_zero() {
        None
    } else {
        Some((mixed_tone(lo.tone, hi.tone, t), alpha))
    }
}

fn between(lo: &Stop, hi: &Stop, r: Number) -> (out: Option<(Tone, Number)>)
    ensures
        out == between_rings(*lo, *hi, r),
{
    let t: Number = part_way(lo.at, hi.at, r);
    let alpha: Number = mix(lo.part, hi.part, t);
    if alpha.is_at_most_zero() {
        None
    } else {
        Some((mix_tone(lo.tone, hi.tone, t), alpha))
    }
}

/// The colour at a radius between ring `i` and the last, from the first pair that it lies within.
pub open spec fn ramp_from(rings: Seq<Stop>, i: int, r: Number) -> Option<(Tone, Number)>
    decreases rings.len() - i,
{
    if i + 1 >= rings.len() {
        None
    } else if r.le(rings[i + 1].at) {
        between_rings(rings[i], rings[i + 1], r)
    } else {
        ramp_from(rings, i + 1, r)
    }
}

/// The colour of a disc at a radius, or `None` at the last ring and outside it.
pub open spec fn ramp_at(rings: Seq<Stop>, r: Number) -> Option<(Tone, Number)> {
    if rings.len() == 0 || rings.last().at.le(r) {
        None
    } else {
        ramp_from(rings, 0, r)
    }
}

/// The colour of a disc at a radius. See [`ramp_at`].
pub fn ring_at(rings: &[Stop], r: Number) -> (out: Option<(Tone, Number)>)
    ensures
        out == ramp_at(rings@, r),
{
    let n: usize = rings.len();
    if n == 0 || rings[n - 1].at.at_most(r) {
        return None;
    }
    let mut i: usize = 1;
    while i < n
        invariant
            1 <= i <= n,
            n == rings@.len(),
            !rings@.last().at.le(r),
            ramp_from(rings@, 0, r) == ramp_from(rings@, i - 1, r),
        decreases n - i,
    {
        if r.at_most(rings[i].at) {
            return between(&rings[i - 1], &rings[i], r);
        }
        i = i + 1;
    }
    None
}

/// How much of the sun and of the moon shows. Neither does underground, and the moon is 0.9 as
/// bright as it would be.
pub open spec fn disc_alphas(sun_a: Number, moon_a: Number, depth: Number) -> (Number, Number) {
    let above = num(0x3f80_0000).difference(depth);
    (sun_a.product(above), moon_a.product(above).product(num(0x3f66_6666)))
}

/// How much of the sun and of the moon shows. See [`disc_alphas`].
pub fn disc_alpha(sun_a: Number, moon_a: Number, depth: Number) -> (out: (Number, Number))
    ensures
        out == disc_alphas(sun_a, moon_a, depth),
{
    let above: Number = num(0x3f80_0000).minus(depth);
    (sun_a.times(above), moon_a.times(above).times(num(0x3f66_6666)))
}

/// How far the middle of a block is from the middle of its disc, along one axis.
pub open spec fn block_middle(at: int) -> Number {
    signed_number(at).sum(num(0x3f00_0000)).product(block_px())
}

/// How far the middle of a block is from the middle of its disc, along one axis. See
/// [`block_middle`].
pub fn block_offset(at: i32) -> (out: Number)
    ensures
        out == block_middle(at as int),
{
    from_signed(at as i64).plus(num(0x3f00_0000)).times(block_px())
}

/// The radius a block takes its colour from: how far out its middle is, moved within the block by
/// the dither.
pub open spec fn block_radius(out: Number, col: int, row: int) -> Number {
    out.sum(
        block_px().product(
            whole_number(sampled(col, row) as nat).quotient(num(0x4200_0000)).difference(
                num(0x3f00_0000),
            ),
        ),
    )
}

/// The colours of a disc's blocks, row by row, given how far out the middle of each is.
pub open spec fn disc_blocks(disc: Disc, alpha: Number, n: int, out: Seq<Number>) -> Seq<
    Option<(Tone, Number)>,
> {
    Seq::new(
        out.len(),
        |i: int|
            ramp_at(
                disc.ramp(alpha),
                block_radius(out[i], i % (2 * n) - n, i / (2 * n) - n),
            ),
    )
}

impl Disc {
    /// How many blocks there are from the middle to the rim.
    pub open spec fn reach(&self) -> int {
        -self.radius.quotient(block_px()).negated().floored()
    }

    /// How many blocks there are from the middle to the rim, as far as 32 bits go. See
    /// [`Disc::reach`].
    pub fn blocks(&self) -> (n: i32)
        requires
            self.radius.quotient(block_px()).is_finite(),
        ensures
            n == (if self.reach() > i32::MAX {
                i32::MAX as int
            } else if self.reach() < i32::MIN {
                i32::MIN as int
            } else {
                self.reach()
            }),
    {
        let below: i64 = self.radius.over(block_px()).minus_self().floor();
        if below < -0x7fff_ffff {
            i32::MAX
        } else if below > 0x8000_0000 {
            i32::MIN
        } else {
            (-below) as i32
        }
    }

    /// The colours of the disc's blocks, `n` of them from the middle to the rim. `out` has how far
    /// out the middle of each is. See [`disc_blocks`].
    pub fn colours(&self, alpha: Number, n: u16, out: &Vec<Number>) -> (colours: Vec<
        Option<(Tone, Number)>,
    >)
        requires
            out@.len() == (2 * n) * (2 * n),
        ensures
            colours@ == disc_blocks(*self, alpha, n as int, out@),
    {
        let rings: [Stop; 4] = self.rings(alpha);
        let side: usize = 2 * n as usize;
        let mut colours: Vec<Option<(Tone, Number)>> = Vec::new();
        let mut i: usize = 0;
        assert(n == 0 ==> (2 * n) * (2 * n) == 0) by (nonlinear_arith);
        while i < out.len()
            invariant
                i <= out@.len(),
                side == 2 * n,
                n > 0 || out@.len() == 0,
                out@.len() == (2 * n) * (2 * n),
                rings@ == self.ramp(alpha),
                colours@ =~= disc_blocks(*self, alpha, n as int, out@).take(i as int),
            decreases out@.len() - i,
        {
            proof {
                lemma_in_square(i as int, 2 * n as int);
            }
            let col: i32 = (i % side) as i32 - n as i32;
            let row: i32 = (i / side) as i32 - n as i32;
            let at: u32 = block_sample(col, row);
            let moved: Number = block_px().times(
                from_whole(at as u64).over(num(0x4200_0000)).minus(num(0x3f00_0000)),
            );
            colours.push(ring_at(&rings, out[i].plus(moved)));
            i = i + 1;
        }
        assert(colours@ =~= disc_blocks(*self, alpha, n as int, out@));
        colours
    }
}

proof fn lemma_in_square(i: int, side: int)
    requires
        0 <= i < side * side,
        0 < side,
    ensures
        0 <= i / side < side,
        0 <= i % side < side,
{
    assert(0 <= i / side < side && 0 <= i % side < side) by (nonlinear_arith)
        requires
            0 <= i < side * side,
            0 < side,
    ;
}

/// A channel that a colour can have.
pub open spec fn is_channel(n: Number) -> bool {
    !n.negative() && n.magnitude() <= 0x437f_0000
}

/// A colour all of whose channels are.
pub open spec fn is_colour(tone: Tone) -> bool {
    is_channel(tone.r) && is_channel(tone.g) && is_channel(tone.b)
}

pub proof fn lemma_no_step(a: Number, b: Number, none: Number, part: Number)
    requires
        is_channel(a),
        b.magnitude() <= 0x437f_0000,
        none.is_zero_spec(),
        part.is_finite(),
    ensures
        a.sum(b.difference(a).product(none)) == a,
        a.sum(b.difference(a).product(none).product(part)) == a,
{
    lemma_small_difference(b, a);
    law_times_zero_is_zero(b.difference(a), none);
    law_times_zero_is_zero(part, b.difference(a).product(none));
    law_zero_adds_nothing(a, b.difference(a).product(none));
    law_zero_adds_nothing(a, b.difference(a).product(none).product(part));
}

proof fn lemma_night_channel(
    like: Recipe,
    night: Number,
    horizon: Number,
    deep: Number,
    depth: Number,
    hour: SkyHour,
)
    requires
        is_channel(night),
        is_channel(horizon),
        is_channel(deep),
        is_channel(like.day),
        is_channel(like.day_part),
        is_channel(like.own_part),
        is_channel(like.dusk),
        is_channel(like.dusk_part),
        is_channel(like.deep_part),
        depth.is_zero_spec(),
        hour.day.is_zero_spec(),
        hour.twilight.is_zero_spec(),
    ensures
        end_channel(like, night, horizon, deep, depth, hour) == night,
{
    let day = like.day.product(like.day_part);
    let own = horizon.product(like.own_part);
    lemma_product_is_number(like.day, like.day_part);
    lemma_product_is_number(horizon, like.own_part);
    lemma_sum_is_number(day, own);
    let noon = clamped255(day.sum(own));
    assert(noon.magnitude() <= 0x437f_0000);
    lemma_no_step(night, noon, hour.day, num(0));
    lemma_no_step(night, like.dusk, hour.twilight, like.dusk_part);
    lemma_no_step(night, deep, depth, like.deep_part);
}

/// With no day and no twilight, and at the surface, the sky is the biome's own palette untouched.
pub proof fn law_night_is_the_biomes_own(own: Palette, depth: Number, hour: SkyHour)
    requires
        is_colour(own.sky_top),
        is_colour(own.sky_bottom),
        is_colour(own.sky_top_deep),
        depth.is_zero_spec(),
        hour.day.is_zero_spec(),
        hour.twilight.is_zero_spec(),
    ensures
        sky_ends(own, depth, hour).top == own.sky_top,
        sky_ends(own, depth, hour).bottom == own.sky_bottom,
{
    let (top, low, deep) = (own.sky_top, own.sky_bottom, own.sky_top_deep);
    lemma_night_channel(zenith(0x42c0_0000, 0x4280_0000), top.r, low.r, deep.r, depth, hour);
    lemma_night_channel(zenith(0x430c_0000, 0x4250_0000), top.g, low.g, deep.g, depth, hour);
    lemma_night_channel(zenith(0x434d_0000, 0x42c0_0000), top.b, low.b, deep.b, depth, hour);
    lemma_night_channel(horizon(0x4348_0000, 0x4372_0000), low.r, low.r, deep.r, depth, hour);
    lemma_night_channel(horizon(0x435c_0000, 0x430a_0000), low.g, low.g, deep.g, depth, hour);
    lemma_night_channel(horizon(0x4370_0000, 0x4294_0000), low.b, low.b, deep.b, depth, hour);
}

/// The glow is shut out underground: a camera as deep as it goes sees none of it.
pub proof fn law_no_glow_underground(hour: SkyHour, view_h: Number)
    requires
        hour.twilight.is_finite(),
    ensures
        glow_at(hour, num(0x3f80_0000), view_h) is None,
{
    law_less_itself_is_zero(one());
    law_times_zero_is_zero(hour.twilight, one().difference(one()));
}

proof fn lemma_top_of_band(a: Number, b: Number, part: Number, strength: Number, none: Number)
    requires
        is_channel(a),
        is_channel(b),
        part.magnitude() <= 0x3f80_0000,
        strength.magnitude() <= 0x3f80_0000,
        none.is_zero_spec(),
    ensures
        ({
            let lo = a.product(num(0)).product(strength);
            let hi = b.product(part).product(strength);
            mixed(lo, hi, none).is_zero_spec()
        }),
{
    let lo = a.product(num(0)).product(strength);
    let hi = b.product(part).product(strength);
    law_times_zero_is_zero(a, num(0));
    law_times_zero_is_zero(strength, a.product(num(0)));
    law_a_part_is_no_larger(b, part);
    law_a_part_is_no_larger(b.product(part), strength);
    lemma_small_difference(hi, lo);
    law_times_zero_is_zero(hi.difference(lo), none);
    lemma_sum_of_zeros(lo, hi.difference(lo).product(none));
}

/// The glow adds nothing above its band, where it is no stronger than a full one.
pub proof fn law_no_glow_above_the_band(glow: HorizonGlow, y: Number)
    requires
        glow.strength.magnitude() <= 0x3f80_0000,
        glow.down(y).is_zero_spec(),
    ensures
        glow.added(y).r.is_zero_spec(),
        glow.added(y).g.is_zero_spec(),
        glow.added(y).b.is_zero_spec(),
{
    let (a, b, _) = band();
    let u = glow.down(y);
    let t = along(a.at, b.at, u);
    assert(t.is_zero_spec()) by {
        lemma_zero_less_zero(u);
        lemma_small_difference(b.at, a.at);
        law_zero_adds_nothing(b.at, a.at.negated());
        lemma_zero_over(u.difference(a.at), b.at);
    }
    lemma_top_of_band(a.tone.r, b.tone.r, b.part, glow.strength, t);
    lemma_top_of_band(a.tone.g, b.tone.g, b.part, glow.strength, t);
    lemma_top_of_band(a.tone.b, b.tone.b, b.part, glow.strength, t);
}

proof fn lemma_zero_less_zero(u: Number)
    requires
        u.is_zero_spec(),
    ensures
        u.difference(num(0)).is_zero_spec(),
{
    lemma_sum_of_zeros(u, num(0).negated());
}

} // verus!
