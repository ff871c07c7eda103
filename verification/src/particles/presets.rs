//! What a burst is: the per-emit knobs, and the named presets.
//!
//! The quantities are binary32 numbers, given by their bits, with the value beside each.

use vstd::prelude::*;

use crate::arith::{
    law_a_part_is_no_larger, law_products_commute, lemma_small_difference, lemma_steps_are_sizes,
    one,
};
use crate::number::{Number, num};
use crate::order::{
    law_products_keep_order, law_sums_keep_order, lemma_rounded_goes_up, lemma_sums_commute,
    lemma_values_in_order,
};
use crate::rounding::{cut_off, law_scaling_does_not_grow, product, rounded, times_cut_off};
use crate::sprite::bake::Rgb;

verus! {

/// Per-emit tuning. Velocities are pixels per second, life is seconds, angles are radians with y
/// running down.
#[derive(Clone, Copy, Debug, PartialEq, Eq, Structural)]
pub struct EmitOpts {
    /// Base particle colour.
    pub color: Rgb,
    /// Mean launch speed, jittered per particle.
    pub speed: Number,
    /// Random angular fan. Zero is straight along `angle`.
    pub spread: Number,
    /// Lifetime, jittered per particle.
    pub life: Number,
    /// Downward acceleration. Negative floats particles up.
    pub gravity: Number,
    /// Square edge in world pixels.
    pub size: Number,
    /// Per-second velocity damping.
    pub drag: Number,
    /// Base launch angle. The default is straight up.
    pub angle: Number,
    /// Sinusoidal drift acceleration. Zero leaves the particle ballistic.
    pub wander: Number,
    /// Draw over the finished lit frame instead of in the world layer.
    pub glow: bool,
    /// Ease alpha in as well as out.
    pub fade_in: bool,
    /// Bounce off solid cells instead of passing through them.
    pub collide: bool,
}

/// A named burst: how many particles, and what each one is.
#[derive(Clone, Copy, Debug, PartialEq, Eq, Structural)]
pub struct Preset {
    /// How many particles one call emits.
    pub count: usize,
    /// What each of them is.
    pub opts: EmitOpts,
}

/// Half a turn.
pub const HALF_TURN: u32 = 0x4049_0fdb;

/// A whole turn.
pub const TURN: u32 = 0x40c9_0fdb;

/// Straight up: a quarter turn against the clock.
pub const UP: u32 = 0xbfc9_0fdb;

/// Up and to the left: three eighths of a turn against the clock.
pub const UP_LEFT: u32 = 0xc016_cbe4;

/// Up and to the right: an eighth of a turn against the clock.
pub const UP_RIGHT: u32 = 0xbf49_0fdb;

/// The colour with these channels.
#[verifier::allow_in_spec]
pub fn rgb(r: u8, g: u8, b: u8) -> Rgb
    returns
        (Rgb { r, g, b }),
{
    Rgb { r, g, b }
}

/// A white, ballistic, frictionless particle one pixel wide, launched straight up.
#[verifier::allow_in_spec]
pub fn plain() -> EmitOpts
    returns
        (EmitOpts {
            color: rgb(255, 255, 255),
            speed: num(0),
            spread: num(0),
            life: num(0),
            gravity: num(0),
            size: num(0x3f80_0000),
            drag: num(0),
            angle: num(UP),
            wander: num(0),
            glow: false,
            fade_in: false,
            collide: false,
        }),
{
    EmitOpts {
        color: rgb(255, 255, 255),
        speed: num(0),
        spread: num(0),
        life: num(0),
        gravity: num(0),
        size: num(0x3f80_0000),
        drag: num(0),
        angle: num(UP),
        wander: num(0),
        glow: false,
        fade_in: false,
        collide: false,
    }
}

/// A preset that leaves the rest plain.
#[verifier::allow_in_spec]
pub fn preset(
    count: usize,
    color: Rgb,
    speed: u32,
    spread: u32,
    life: u32,
    gravity: u32,
    size: u32,
    drag: u32,
    glow: bool,
    collide: bool,
) -> Preset
    returns
        (Preset {
            count,
            opts: EmitOpts {
                color,
                speed: num(speed),
                spread: num(spread),
                life: num(life),
                gravity: num(gravity),
                size: num(size),
                drag: num(drag),
                glow,
                collide,
                ..plain()
            },
        }),
{
    Preset {
        count,
        opts: EmitOpts {
            color,
            speed: num(speed),
            spread: num(spread),
            life: num(life),
            gravity: num(gravity),
            size: num(size),
            drag: num(drag),
            glow,
            collide,
            ..plain()
        },
    }
}

/// Impact debris: a wide upward-biased spray in the material's colour.
///
/// Speed 220, spread 1.6 half turns, life 0.5, gravity 1600, size 3, drag 1.5.
#[verifier::allow_in_spec]
pub fn burst() -> Preset
    returns
        preset(
            14,
            rgb(255, 255, 255),
            0x435c_0000,
            0x40a0_d97c,
            0x3f00_0000,
            0x44c8_0000,
            0x4040_0000,
            0x3fc0_0000,
            false,
            true,
        ),
{
    preset(
        14,
        rgb(255, 255, 255),
        0x435c_0000,
        0x40a0_d97c,
        0x3f00_0000,
        0x44c8_0000,
        0x4040_0000,
        0x3fc0_0000,
        false,
        true,
    )
}

/// Landing puff: low grey kick-up that spreads sideways and settles fast.
///
/// Speed 90, spread 0.9 half turns, life 0.4, gravity 300, size 3, drag 3.
#[verifier::allow_in_spec]
pub fn dust() -> Preset
    returns
        preset(
            10,
            rgb(170, 165, 155),
            0x42b4_0000,
            0x4034_f4ab,
            0x3ecc_cccd,
            0x4396_0000,
            0x4040_0000,
            0x4040_0000,
            false,
            true,
        ),
{
    preset(
        10,
        rgb(170, 165, 155),
        0x42b4_0000,
        0x4034_f4ab,
        0x3ecc_cccd,
        0x4396_0000,
        0x4040_0000,
        0x4040_0000,
        false,
        true,
    )
}

/// Dash trail: a slow, near-static smear that lingers where the player was.
///
/// Speed 40, spread a whole turn, life 0.35, no gravity, size 4, drag 4.
#[verifier::allow_in_spec]
pub fn trail() -> Preset
    returns
        preset(
            4,
            rgb(255, 255, 255),
            0x4220_0000,
            TURN,
            0x3eb3_3333,
            0,
            0x4080_0000,
            0x4080_0000,
            false,
            false,
        ),
{
    preset(
        4,
        rgb(255, 255, 255),
        0x4220_0000,
        TURN,
        0x3eb3_3333,
        0,
        0x4080_0000,
        0x4080_0000,
        false,
        false,
    )
}

/// Liquid splash: a tight, fast upward jet that arcs back down under gravity.
///
/// Speed 260, spread 0.7 half turns, life 0.6, gravity 1900, size 2, drag 0.5.
#[verifier::allow_in_spec]
pub fn splash() -> Preset
    returns
        preset(
            12,
            rgb(255, 255, 255),
            0x4382_0000,
            0x400c_be4c,
            0x3f19_999a,
            0x44ed_8000,
            0x4000_0000,
            0x3f00_0000,
            false,
            true,
        ),
{
    preset(
        12,
        rgb(255, 255, 255),
        0x4382_0000,
        0x400c_be4c,
        0x3f19_999a,
        0x44ed_8000,
        0x4000_0000,
        0x3f00_0000,
        false,
        true,
    )
}

/// Ground puff, before its strength is applied: strength drives the fields left plain here.
///
/// Gravity 260, drag 3.
#[verifier::allow_in_spec]
pub fn puff() -> Preset
    returns
        preset(2, rgb(255, 255, 255), 0, 0, 0, 0x4382_0000, 0x3f80_0000, 0x4040_0000, false, true),
{
    preset(2, rgb(255, 255, 255), 0, 0, 0, 0x4382_0000, 0x3f80_0000, 0x4040_0000, false, true)
}

/// Wall-slide scrape: grit shed off the wall face.
///
/// Speed 90, spread 0.8, life 0.3, gravity 700, size 2, drag 2.
#[verifier::allow_in_spec]
pub fn scrape() -> Preset
    returns
        preset(
            2,
            rgb(255, 255, 255),
            0x42b4_0000,
            0x3f4c_cccd,
            0x3e99_999a,
            0x442f_0000,
            0x4000_0000,
            0x4000_0000,
            false,
            true,
        ),
{
    preset(
        2,
        rgb(255, 255, 255),
        0x42b4_0000,
        0x3f4c_cccd,
        0x3e99_999a,
        0x442f_0000,
        0x4000_0000,
        0x4000_0000,
        false,
        true,
    )
}

/// Dash smear: a short streak of near-static motes thrown opposite the travel direction.
///
/// Speed 120, spread 0.9, life 0.28, no gravity, size 3, drag 5.
#[verifier::allow_in_spec]
pub fn smear() -> Preset
    returns
        preset(
            5,
            rgb(255, 255, 255),
            0x42f0_0000,
            0x3f66_6666,
            0x3e8f_5c29,
            0,
            0x4040_0000,
            0x40a0_0000,
            true,
            false,
        ),
{
    preset(
        5,
        rgb(255, 255, 255),
        0x42f0_0000,
        0x3f66_6666,
        0x3e8f_5c29,
        0,
        0x4040_0000,
        0x40a0_0000,
        true,
        false,
    )
}

/// Rising fire ember: buoyant, warm orange, and deliberately not solid.
///
/// Speed 60, spread half a half turn, life 0.9, gravity -260, size 2, drag 1.
#[verifier::allow_in_spec]
pub fn ember() -> Preset
    returns
        preset(
            3,
            rgb(255, 150, 40),
            0x4270_0000,
            0x3fc9_0fdb,
            0x3f66_6666,
            0xc382_0000,
            0x4000_0000,
            0x3f80_0000,
            false,
            false,
        ),
{
    preset(
        3,
        rgb(255, 150, 40),
        0x4270_0000,
        0x3fc9_0fdb,
        0x3f66_6666,
        0xc382_0000,
        0x4000_0000,
        0x3f80_0000,
        false,
        false,
    )
}

impl Preset {
    /// The same burst in a different colour.
    #[verifier::allow_in_spec]
    pub fn tinted(self, color: Rgb) -> Preset
        returns
            (Preset { count: self.count, opts: EmitOpts { color, ..self.opts } }),
    {
        Preset { count: self.count, opts: EmitOpts { color, ..self.opts } }
    }

    /// The same burst at a different angle.
    #[verifier::allow_in_spec]
    pub fn aimed(self, angle: u32) -> Preset
        returns
            (Preset { count: self.count, opts: EmitOpts { angle: num(angle), ..self.opts } }),
    {
        Preset { count: self.count, opts: EmitOpts { angle: num(angle), ..self.opts } }
    }
}

/// A puff's strength, pulled back between 0.05 and 1.
///
/// The floor is not padding: a caller computing strength from a touchdown speed can reach zero,
/// and it should still be visible that something landed.
#[verifier::allow_in_spec]
pub fn puff_strength(strength: Number) -> Number
    returns
        strength.clamped(num(0x3d4c_cccd), num(0x3f80_0000)),
{
    strength.clamp(num(0x3d4c_cccd), num(0x3f80_0000))
}

/// Particles that a puff has beyond the preset's own: twelve times its strength, cut off after
/// the point. A strength that is not a number adds none.
pub open spec fn puff_extra(strength: Number) -> nat {
    if !strength.is_number() {
        0
    } else {
        cut_off(product(12, puff_strength(strength).magnitude()))
    }
}

fn extra_of(strength: Number) -> (extra: usize)
    ensures
        extra == puff_extra(strength),
        extra <= 48,
{
    if strength.is_nan() {
        return 0;
    }
    times_cut_off(12, puff_strength(strength).bits) as usize
}

/// A puff of this colour and strength. With the strength `s`, it goes `50 + s * 110` pixels a
/// second, over `0.5 + s * 0.5` of a half turn, for `0.25 + s * 0.35` seconds.
///
/// Two sizes, not a continuum: three pixels above half strength and two at or below it.
pub open spec fn puff_of(color: Rgb, strength: Number) -> Preset {
    let s = puff_strength(strength);
    let half = num(0x3f00_0000);
    Preset {
        count: (puff().count + puff_extra(strength)) as usize,
        opts: EmitOpts {
            color,
            speed: num(0x4248_0000).sum(s.product(num(0x42dc_0000))),
            spread: num(HALF_TURN).product(half.sum(s.product(half))),
            life: num(0x3e80_0000).sum(s.product(num(0x3eb3_3333))),
            size: if half.lt(s) {
                num(0x4040_0000)
            } else {
                num(0x4000_0000)
            },
            ..puff().opts
        },
    }
}

/// A stronger puff is no less of one. The strengths are pulled into their range and then all that
/// grows with them grows.
pub proof fn lemma_puff_grows(color: Rgb, strength: Number, more: Number)
    requires
        strength.le(more),
    ensures
        ({
            let (a, b) = (puff_of(color, strength), puff_of(color, more));
            &&& a.count <= b.count
            &&& a.opts.speed.le(b.opts.speed)
            &&& a.opts.spread.le(b.opts.spread)
            &&& a.opts.life.le(b.opts.life)
            &&& a.opts.size.le(b.opts.size)
        }),
{
    let (s, t) = (puff_strength(strength), puff_strength(more));
    let half = num(0x3f00_0000);
    assert(s.le(t) && num(0).le(s) && t.le(one()));
    lemma_grows(num(0x4248_0000), num(0x42dc_0000), s, t);
    lemma_grows(half, half, s, t);
    lemma_grows(num(0x3e80_0000), num(0x3eb3_3333), s, t);
    let (p, q) = (half.sum(s.product(half)), half.sum(t.product(half)));
    law_products_keep_order(p, q, num(HALF_TURN));
    law_products_commute(p, num(HALF_TURN));
    law_products_commute(q, num(HALF_TURN));
    lemma_values_in_order(s, t);
    lemma_steps_are_sizes(s);
    lemma_steps_are_sizes(t);
    let (x, y) = (s.size(), t.size());
    assert(rounded(12) * x <= rounded(12) * y) by (nonlinear_arith)
        requires
            0 <= x <= y,
            0 <= rounded(12),
    ;
    lemma_rounded_goes_up(rounded(12) * x, rounded(12) * y);
    vstd::arithmetic::power2::lemma_pow2_pos(149);
    vstd::arithmetic::div_mod::lemma_div_is_ordered(
        product(12, s.magnitude()) as int,
        product(12, t.magnitude()) as int,
        vstd::arithmetic::power2::pow2(149) as int,
    );
    law_scaling_does_not_grow(12, s.bits);
    law_scaling_does_not_grow(12, t.bits);
}

proof fn lemma_grows(from: Number, by: Number, s: Number, t: Number)
    requires
        from.magnitude() < 0x4380_0000,
        !from.negative(),
        by.magnitude() < 0x4380_0000,
        !by.negative(),
        num(0).le(s),
        s.le(t),
        t.le(one()),
    ensures
        from.sum(s.product(by)).le(from.sum(t.product(by))),
        from.sum(t.product(by)).is_finite(),
        from.sum(s.product(by)).is_finite(),
{
    law_products_keep_order(s, t, by);
    law_products_commute(s, by);
    law_products_commute(t, by);
    law_a_part_is_no_larger(by, s);
    law_a_part_is_no_larger(by, t);
    let (p, q) = (s.product(by), t.product(by));
    law_sums_keep_order(p, q, from);
    lemma_sums_commute(p, from);
    lemma_sums_commute(q, from);
    lemma_small_difference(from, p.negated());
    lemma_small_difference(from, q.negated());
    assert(p.negated().negated() == p);
    assert(q.negated().negated() == q);
}

/// A puff of this strength, in the colour of whatever is underfoot: the stronger, the more, the
/// faster, the wider, the longer and the larger. See [`puff_of`].
pub fn puffed(color: Rgb, strength: Number) -> (out: Preset)
    ensures
        out == puff_of(color, strength),
        out.count == puff().count + puff_extra(strength),
{
    let base: Preset = puff();
    let extra: usize = extra_of(strength);
    let s: Number = puff_strength(strength);
    let half: Number = num(0x3f00_0000);
    Preset {
        count: base.count + extra,
        opts: EmitOpts {
            color,
            speed: num(0x4248_0000).plus(s.times(num(0x42dc_0000))),
            spread: num(HALF_TURN).times(half.plus(s.times(half))),
            life: num(0x3e80_0000).plus(s.times(num(0x3eb3_3333))),
            size: if half.less(s) {
                num(0x4040_0000)
            } else {
                num(0x4000_0000)
            },
            ..base.opts
        },
    }
}

/// Grit off a wall. `dir` is the side the wall is on: positive is right, and the grit leaves to
/// the left.
pub fn scraped(dir: Number, color: Rgb) -> (out: Preset)
    ensures
        out == scrape().tinted(color).aimed(
            if num(0).lt(dir) {
                UP_LEFT
            } else {
                UP_RIGHT
            },
        ),
{
    let angle: u32 = if num(0).less(dir) {
        UP_LEFT
    } else {
        UP_RIGHT
    };
    scrape().tinted(color).aimed(angle)
}

/// A dash's smear. `dir` is the direction of travel: the motes go the other way.
pub fn smeared(dir: Number, color: Rgb) -> (out: Preset)
    ensures
        out == smear().tinted(color).aimed(
            if num(0).lt(dir) {
                HALF_TURN
            } else {
                0
            },
        ),
{
    let angle: u32 = if num(0).less(dir) {
        HALF_TURN
    } else {
        0
    };
    smear().tinted(color).aimed(angle)
}

/// What happened to a creature, or to the player because of one.
#[derive(Clone, Copy, Debug, PartialEq, Eq, Structural)]
pub enum MobEventKind {
    PlayerHit,
    MobHurt,
    MobDie,
    PlayerChill,
}

/// One burst a creature event throws up.
#[derive(Clone, Copy, Debug, PartialEq, Eq, Structural)]
pub enum MobJuice {
    Splash,
    /// A puff of this strength.
    Puff(Number),
}

/// The bursts of an event, in order. A death is a splash with a puff under it; a chill is a
/// status and has no place to burst.
///
/// A wound of the player's puffs at 0.5, a creature's at 0.4, and a death at 0.85.
pub open spec fn juice_of(kind: MobEventKind) -> Seq<MobJuice> {
    match kind {
        MobEventKind::PlayerHit => seq![MobJuice::Puff(num(0x3f00_0000))],
        MobEventKind::MobHurt => seq![MobJuice::Puff(num(0x3ecc_cccd))],
        MobEventKind::MobDie => seq![MobJuice::Splash, MobJuice::Puff(num(0x3f59_999a))],
        MobEventKind::PlayerChill => Seq::empty(),
    }
}

/// One creature event's worth of bursts, in the order they are thrown.
pub fn mob_juice(kind: MobEventKind) -> (out: Vec<MobJuice>)
    ensures
        out@ == juice_of(kind),
{
    let mut out: Vec<MobJuice> = Vec::new();
    match kind {
        MobEventKind::PlayerHit => {
            out.push(MobJuice::Puff(num(0x3f00_0000)));
        },
        MobEventKind::MobHurt => {
            out.push(MobJuice::Puff(num(0x3ecc_cccd)));
        },
        MobEventKind::MobDie => {
            out.push(MobJuice::Splash);
            out.push(MobJuice::Puff(num(0x3f59_999a)));
        },
        MobEventKind::PlayerChill => {},
    }
    assert(out@ =~= juice_of(kind));
    out
}

} // verus!
