//! The player: what a step's events are spent into, and how the figure is drawn.

use vstd::arithmetic::power2::*;
use vstd::prelude::*;

use crate::arith::{
    law_a_part_is_no_larger, law_a_part_of_the_way_does_not_pass, law_itself_goes_in_once,
    law_less_itself_is_zero, law_products_commute, law_times_one_is_itself, lemma_one,
    lemma_product_is_number, lemma_ratio_cancels, lemma_ratio_of_one, lemma_size_is_exact,
    lemma_sum_goes_up, lemma_zero_over,
};
use crate::number::{Number, SIGN, num};
use crate::order::{
    law_differences_turn_order, law_quotients_keep_order, law_sums_keep_order,
    lemma_more_than_nothing, lemma_nothing_more, lemma_sums_commute, lemma_values_in_order,
};
use crate::particles::presets::{
    EmitOpts, Preset, UP, plain, puff_of, puffed, rgb, scraped, smeared, splash, trail,
};
use crate::particles::system::{scrape_of, smear_of};
use crate::rounding::pixel;
use crate::shear::{Point, QuadBuf, QuadVertex, ShearedRect, TileUv, quad_points, tile_edge};
use crate::sprite::bake::Rgb;
use crate::sprite::baked::BakedSprite;
use crate::sprite::frames::SpriteClock;
use crate::sprite::ids::StateId;
use crate::sprite::pose::Pose;
use crate::whole::{
    is_halves, is_whole, law_half_of_a_whole_is_exact, law_nearest_is_the_pixel,
    law_sums_of_halves_are_exact, law_whole_differences_are_exact, law_whole_products_are_exact,
    law_whole_sums_are_exact, lemma_negated, lemma_negated_halves, lemma_whole_is_halves,
    lemma_whole_is_small,
};

verus! {

/// Dust over empty space, where there is no cell to take a colour from.
#[verifier::allow_in_spec]
pub fn default_dust() -> Rgb
    returns
        rgb(170, 165, 155),
{
    rgb(170, 165, 155)
}

/// A splash whose liquid could not be sampled.
#[verifier::allow_in_spec]
pub fn default_splash() -> Rgb
    returns
        rgb(120, 170, 230),
{
    rgb(120, 170, 230)
}

/// The dash's spark: the one hue the player throws that is not sampled.
#[verifier::allow_in_spec]
pub fn dash_spark() -> Rgb
    returns
        rgb(255, 240, 180),
{
    rgb(255, 240, 180)
}

/// The air jump's ring of displaced air: eight pale, glowing motes, wide and downward.
///
/// Speed 130, spread 0.6 half turns, life 0.3, gravity 120, size 2, drag 4.
#[verifier::allow_in_spec]
pub fn air_jump() -> Preset
    returns
        (Preset {
            count: 8,
            opts: EmitOpts {
                color: rgb(225, 235, 255),
                speed: num(0x4302_0000),
                spread: num(0x3ff1_463b),
                life: num(0x3e99_999a),
                gravity: num(0x42f0_0000),
                size: num(0x4000_0000),
                drag: num(0x4080_0000),
                angle: num(0x3fc9_0fdb),
                glow: true,
                ..plain()
            },
        }),
{
    Preset {
        count: 8,
        opts: EmitOpts {
            color: rgb(225, 235, 255),
            speed: num(0x4302_0000),
            spread: num(0x3ff1_463b),
            life: num(0x3e99_999a),
            gravity: num(0x42f0_0000),
            size: num(0x4000_0000),
            drag: num(0x4080_0000),
            angle: num(0x3fc9_0fdb),
            glow: true,
            ..plain()
        },
    }
}

/// Something the body did in a step.
#[derive(Clone, Copy, Debug, PartialEq, Eq, Structural)]
pub enum PlayerEvent {
    Land,
    Step,
    Jump,
    DoubleJump,
    Dash,
    WallJump,
    Splash,
    Hurt,
}

/// A cell as it looks.
#[derive(Clone, Copy, Debug, PartialEq, Eq, Structural)]
pub enum CellLook {
    Empty,
    Solid(Rgb),
    Liquid(Rgb),
}

/// The colour of the cell something kicks off, or a neutral grey over empty space.
#[verifier::allow_in_spec]
pub fn ground_color(cell: CellLook) -> Rgb
    returns
        (match cell {
            CellLook::Empty => default_dust(),
            CellLook::Solid(color) => color,
            CellLook::Liquid(color) => color,
        }),
{
    match cell {
        CellLook::Empty => default_dust(),
        CellLook::Solid(color) => color,
        CellLook::Liquid(color) => color,
    }
}

/// The colour of the liquid being entered, so a splash matches the pool.
///
/// Any other cell falls back to the default blue and not to its own colour: the body entered a
/// liquid, and a sample that disagrees means the surface moved.
#[verifier::allow_in_spec]
pub fn liquid_color(cell: CellLook) -> Rgb
    returns
        (match cell {
            CellLook::Liquid(color) => color,
            _ => default_splash(),
        }),
{
    match cell {
        CellLook::Liquid(color) => color,
        _ => default_splash(),
    }
}

/// The strength of a landing with no recorded touchdown speed, 0.12: a soft landing still scuffs
/// the ground.
#[verifier::allow_in_spec]
pub fn soft_landing() -> Number
    returns
        num(0x3df5_c28f),
{
    num(0x3df5_c28f)
}

/// The strength of a footfall's puff, 0.16.
#[verifier::allow_in_spec]
pub fn step_puff() -> Number
    returns
        num(0x3e23_d70a),
{
    num(0x3e23_d70a)
}

/// The strength of a jump's puff, 0.3.
#[verifier::allow_in_spec]
pub fn jump_puff() -> Number
    returns
        num(0x3e99_999a),
{
    num(0x3e99_999a)
}

/// The strength of a landing: a part of the hardest, at 1400 pixels a second, where a touchdown
/// speed was recorded, and a soft one otherwise.
pub open spec fn landing_strength(speed: Number) -> Number {
    let part = speed.quotient(num(0x44af_0000));
    if !num(0).lt(speed) {
        soft_landing()
    } else if part.lt(num(0x3f80_0000)) {
        part
    } else {
        num(0x3f80_0000)
    }
}

fn strength_of_landing(speed: Number) -> (strength: Number)
    ensures
        strength == landing_strength(speed),
{
    if !num(0).less(speed) {
        return soft_landing();
    }
    let part: Number = speed.over(num(0x44af_0000));
    let one: Number = num(0x3f80_0000);
    if part.less(one) {
        part
    } else {
        one
    }
}

/// What the juice reads of the body at the end of a step, and of the cells around it.
#[derive(Clone, Copy, Debug, PartialEq, Eq, Structural)]
pub struct BodyReading {
    /// The touchdown speed of a landing, in pixels per second, or zero where none was recorded.
    pub land_impact: Number,
    /// Positive to the right.
    pub facing: Number,
    /// In a dash, or still in its pose.
    pub dashing: bool,
    pub wall_sliding: bool,
    pub in_liquid: bool,
    /// The cell under the feet.
    pub ground: CellLook,
    /// The cell at the feet.
    pub pool: CellLook,
    /// The cell behind the body: what a wall jump pushed off.
    pub wall_behind: CellLook,
    /// The cell the body slides down.
    pub wall_ahead: CellLook,
}

/// The other way than a number's sign: one for a negative number, and minus one otherwise.
pub open spec fn away_from(facing: Number) -> Number {
    if facing.is_number() && facing.negative() {
        num(0x3f80_0000)
    } else {
        num(0xbf80_0000)
    }
}

fn turned_from(facing: Number) -> (dir: Number)
    ensures
        dir == away_from(facing),
{
    if !facing.is_nan() && facing.bits >= SIGN {
        num(0x3f80_0000)
    } else {
        num(0xbf80_0000)
    }
}

/// Where particles are thrown from.
#[derive(Clone, Copy, Debug, PartialEq, Eq, Structural)]
pub enum Spot {
    /// The middle of the soles.
    Feet,
    /// A little above the feet.
    AboveFeet,
    /// The middle of the body.
    Middle,
    /// The wall behind the body, at its middle.
    WallBehind,
    /// The wall ahead of the body, a little under its middle.
    WallAhead,
}

/// The body's box, in world pixels with y running down.
#[derive(Clone, Copy, Debug, PartialEq, Eq, Structural)]
pub struct BodyBox {
    pub x: Number,
    pub y: Number,
    pub w: Number,
    pub h: Number,
}

impl BodyBox {
    /// Where a spot of a body is that faces this way.
    pub open spec fn spot(&self, facing: Number, spot: Spot) -> (Number, Number) {
        let half = num(0x3f00_0000);
        let two = num(0x4000_0000);
        let across = self.x.sum(self.w.quotient(two));
        let down = self.y.sum(self.h);
        match spot {
            Spot::Feet => (across, down),
            Spot::AboveFeet => (across, down.difference(num(0x4080_0000))),
            Spot::Middle => (across, self.y.sum(self.h.quotient(two))),
            Spot::WallBehind => (
                across.difference(facing.product(self.w).product(half)),
                self.y.sum(self.h.product(half)),
            ),
            Spot::WallAhead => (
                across.sum(facing.product(self.w.product(half).sum(two))),
                self.y.sum(self.h.product(num(0x3f19_999a))),
            ),
        }
    }

    /// Where a spot of the body is: the feet in the middle of the bottom edge, four pixels above
    /// them, the middle, the middle of the side behind, and two pixels ahead of the body at 0.6 of
    /// its height.
    pub fn place(&self, facing: Number, spot: Spot) -> (at: (Number, Number))
        ensures
            at == self.spot(facing, spot),
    {
        let half: Number = num(0x3f00_0000);
        let two: Number = num(0x4000_0000);
        let across: Number = self.x.plus(self.w.over(two));
        let down: Number = self.y.plus(self.h);
        match spot {
            Spot::Feet => (across, down),
            Spot::AboveFeet => (across, down.minus(num(0x4080_0000))),
            Spot::Middle => (across, self.y.plus(self.h.over(two))),
            Spot::WallBehind => (
                across.minus(facing.times(self.w).times(half)),
                self.y.plus(self.h.times(half)),
            ),
            Spot::WallAhead => (
                across.plus(facing.times(self.w.times(half).plus(two))),
                self.y.plus(self.h.times(num(0x3f19_999a))),
            ),
        }
    }

    /// The point in the wall that the body pushed off: its own width behind it, at its middle.
    pub open spec fn in_wall_behind(&self, facing: Number) -> (Number, Number) {
        (
            self.spot(facing, Spot::Feet).0.difference(facing.product(self.w)),
            self.spot(facing, Spot::WallBehind).1,
        )
    }

    /// The point in the wall that the body pushed off. See [`BodyBox::in_wall_behind`].
    pub fn wall_behind(&self, facing: Number) -> (at: (Number, Number))
        ensures
            at == self.in_wall_behind(facing),
    {
        (
            self.place(facing, Spot::Feet).0.minus(facing.times(self.w)),
            self.place(facing, Spot::WallBehind).1,
        )
    }

    /// The middle of the box, which the camera looks at.
    pub open spec fn middle(&self) -> (Number, Number) {
        let half = num(0x3f00_0000);
        (self.x.sum(self.w.product(half)), self.y.sum(self.h.product(half)))
    }

    /// The middle of the box.
    pub fn centre(&self) -> (at: (Number, Number))
        ensures
            at == self.middle(),
    {
        let half: Number = num(0x3f00_0000);
        (self.x.plus(self.w.times(half)), self.y.plus(self.h.times(half)))
    }
}

/// Where the camera looks after a frame: 0.12 of the way from where it looked to its target.
pub open spec fn eased(from: Number, to: Number) -> Number {
    from.sum(to.difference(from).product(num(0x3df5_c28f)))
}

/// Where the camera looks once it has followed a body for a frame.
pub open spec fn followed(focus: (Number, Number), body: BodyBox) -> (Number, Number) {
    (eased(focus.0, body.middle().0), eased(focus.1, body.middle().1))
}

/// Ease the camera's focus toward the middle of the body.
pub fn follow_player(focus: (Number, Number), body: &BodyBox) -> (out: (Number, Number))
    ensures
        out == followed(focus, *body),
        out == (eased(focus.0, body.middle().0), eased(focus.1, body.middle().1)),
{
    let (x, y): (Number, Number) = body.centre();
    let ease: Number = num(0x3df5_c28f);
    (focus.0.plus(x.minus(focus.0).times(ease)), focus.1.plus(y.minus(focus.1).times(ease)))
}

/// The camera is a pure lag: it closes on the body without passing it, from whichever side, and
/// never turns back.
pub proof fn law_camera_does_not_pass_the_body(from: Number, to: Number)
    requires
        from.is_finite(),
        to.is_finite(),
        to.difference(from).is_finite(),
    ensures
        from.le(to) ==> from.le(eased(from, to)) && eased(from, to).le(to),
        to.le(from) ==> to.le(eased(from, to)) && eased(from, to).le(from),
{
    law_a_part_of_the_way_does_not_pass(from, to, num(0x3df5_c28f));
}

/// The camera closes on the body's box on each axis by itself: from the left of it it goes no
/// further left and not past its right edge, from the right of it the other way about, and so down.
pub proof fn law_the_camera_follows_on_each_axis(focus: (Number, Number), body: BodyBox)
    requires
        focus.0.is_finite(),
        focus.1.is_finite(),
        body.x.is_finite(),
        body.y.is_finite(),
        body.w.is_finite(),
        body.h.is_finite(),
        !body.w.negative(),
        !body.h.negative(),
        body.x.sum(body.w).is_finite(),
        body.y.sum(body.h).is_finite(),
        body.middle().0.difference(focus.0).is_finite(),
        body.middle().1.difference(focus.1).is_finite(),
    ensures
        ({
            let next = followed(focus, body);
            let (right, low) = (body.x.sum(body.w), body.y.sum(body.h));
            &&& focus.0.le(body.x) ==> focus.0.le(next.0) && next.0.le(right)
            &&& right.le(focus.0) ==> next.0.le(focus.0) && body.x.le(next.0)
            &&& focus.1.le(body.y) ==> focus.1.le(next.1) && next.1.le(low)
            &&& low.le(focus.1) ==> next.1.le(focus.1) && body.y.le(next.1)
        }),
        forall|other: BodyBox| #![trigger followed(focus, other)]
            other.x == body.x && other.w == body.w ==> followed(focus, other).0 == followed(
                focus,
                body,
            ).0,
        forall|other: BodyBox| #![trigger followed(focus, other)]
            other.y == body.y && other.h == body.h ==> followed(focus, other).1 == followed(
                focus,
                body,
            ).1,
{
    law_the_middle_is_inside_the_body(body);
    law_camera_does_not_pass_the_body(focus.0, body.middle().0);
    law_camera_does_not_pass_the_body(focus.1, body.middle().1);
}

/// The point the camera is drawn to lies inside the body: no further left than its left edge and no
/// further right than its right one, and so down.
pub proof fn law_the_middle_is_inside_the_body(body: BodyBox)
    requires
        body.x.is_finite(),
        body.y.is_finite(),
        body.w.is_finite(),
        body.h.is_finite(),
        !body.w.negative(),
        !body.h.negative(),
    ensures
        body.x.le(body.middle().0),
        body.middle().0.le(body.x.sum(body.w)),
        body.y.le(body.middle().1),
        body.middle().1.le(body.y.sum(body.h)),
{
    lemma_a_part_in(body.x, body.w, num(0x3f00_0000));
    lemma_a_part_in(body.y, body.h, num(0x3f00_0000));
}

/// A part of a length is inside it.
proof fn lemma_a_part_in(edge: Number, length: Number, part: Number)
    requires
        edge.is_finite(),
        length.is_finite(),
        !length.negative(),
        !part.negative(),
        part.magnitude() <= 0x3f80_0000,
    ensures
        edge.le(edge.sum(length.product(part))),
        edge.sum(length.product(part)).le(edge.sum(length)),
{
    law_a_part_is_no_larger(length, part);
    lemma_product_is_number(length, part);
    lemma_sum_goes_up(edge, length.product(part));
    law_sums_keep_order(length.product(part), length, edge);
    lemma_sums_commute(length.product(part), edge);
    lemma_sums_commute(length, edge);
}

/// The middle is as far from one edge as from the other: of a box in whole pixels, twice the middle
/// is its two edges together, across and down. So a body moved by whole pixels moves its middle by
/// as much on the axis it moved on and not at all on the other.
pub proof fn law_the_middle_is_halfway(body: BodyBox, x: int, y: int, w: int, h: int)
    requires
        is_whole(body.x, x),
        is_whole(body.y, y),
        is_whole(body.w, w),
        is_whole(body.h, h),
        -0x100_0000 < w < 0x100_0000,
        -0x100_0000 < h < 0x100_0000,
        -0x100_0000 < 2 * x + w < 0x100_0000,
        -0x100_0000 < 2 * y + h < 0x100_0000,
    ensures
        is_halves(body.middle().0, x + (x + w)),
        is_halves(body.middle().1, y + (y + h)),
        is_halves(body.spot(num(0), Spot::Middle).0, x + (x + w)),
        is_halves(body.spot(num(0), Spot::Middle).1, y + (y + h)),
{
    lemma_whole_is_halves(body.x, x);
    lemma_whole_is_halves(body.y, y);
    law_half_of_a_whole_is_exact(body.w, w);
    law_half_of_a_whole_is_exact(body.h, h);
    law_sums_of_halves_are_exact(body.x, body.w.product(num(0x3f00_0000)), 2 * x, w);
    law_sums_of_halves_are_exact(body.y, body.h.product(num(0x3f00_0000)), 2 * y, h);
    law_sums_of_halves_are_exact(body.x, body.w.quotient(num(0x4000_0000)), 2 * x, w);
    law_sums_of_halves_are_exact(body.y, body.h.quotient(num(0x4000_0000)), 2 * y, h);
}

/// Where a body in whole pixels throws from: its feet are in the middle of its bottom edge and four
/// pixels under the spot above them. Of a body that faces right the wall behind is at its left edge
/// and the wall ahead two pixels past its right one, and of one that faces left the other way
/// about.
pub proof fn law_spots_are_on_the_body(
    body: BodyBox,
    facing: Number,
    right: bool,
    x: int,
    y: int,
    w: int,
    h: int,
)
    requires
        is_whole(body.x, x),
        is_whole(body.y, y),
        is_whole(body.w, w),
        is_whole(body.h, h),
        facing == (if right {
            num(0x3f80_0000)
        } else {
            num(0xbf80_0000)
        }),
        -0x20_0000 < x < 0x20_0000,
        -0x20_0000 < y < 0x20_0000,
        0 <= w < 0x20_0000,
        0 <= h < 0x20_0000,
        !body.h.negative(),
    ensures
        is_halves(body.spot(facing, Spot::Feet).0, x + (x + w)),
        is_whole(body.spot(facing, Spot::Feet).1, y + h),
        is_halves(body.spot(facing, Spot::AboveFeet).0, x + (x + w)),
        is_whole(body.spot(facing, Spot::AboveFeet).1, y + h - 4),
        is_whole(
            body.spot(facing, Spot::WallBehind).0,
            if right {
                x
            } else {
                x + w
            },
        ),
        is_halves(body.spot(facing, Spot::WallBehind).1, y + (y + h)),
        is_whole(
            body.spot(facing, Spot::WallAhead).0,
            if right {
                x + w + 2
            } else {
                x - 2
            },
        ),
        body.y.le(body.spot(facing, Spot::WallAhead).1),
        body.spot(facing, Spot::WallAhead).1.le(body.y.sum(body.h)),
        is_halves(
            body.in_wall_behind(facing).0,
            if right {
                2 * x - w
            } else {
                2 * x + 3 * w
            },
        ),
        is_halves(body.in_wall_behind(facing).1, y + (y + h)),
{
    let (half, two, four) = (num(0x3f00_0000), num(0x4000_0000), num(0x4080_0000));
    let across = body.x.sum(body.w.quotient(two));
    let side = if right {
        1int
    } else {
        -1int
    };
    lemma_counts();
    lemma_whole_is_halves(body.x, x);
    lemma_whole_is_halves(body.y, y);
    lemma_whole_is_halves(two, 2);
    law_half_of_a_whole_is_exact(body.w, w);
    law_half_of_a_whole_is_exact(body.h, h);
    law_sums_of_halves_are_exact(body.x, body.w.quotient(two), 2 * x, w);
    law_sums_of_halves_are_exact(body.y, body.h.product(half), 2 * y, h);
    law_whole_sums_are_exact(body.y, body.h, y, h);
    law_whole_differences_are_exact(body.y.sum(body.h), four, y + h, 4);
    assert(side * w == (if right { w } else { -w }));
    law_whole_products_are_exact(facing, body.w, side, w);
    let back = facing.product(body.w);
    law_half_of_a_whole_is_exact(back, side * w);
    lemma_negated_halves(back.product(half), side * w);
    law_sums_of_halves_are_exact(across, back.product(half).negated(), 2 * x + w, -(side * w));
    lemma_whole_is_halves(body.spot(facing, Spot::WallBehind).0, if right { x } else { x + w });
    let ahead = body.w.product(half).sum(two);
    law_sums_of_halves_are_exact(body.w.product(half), two, w, 4);
    lemma_signed_halves(facing, right, ahead, w + 4);
    law_sums_of_halves_are_exact(across, facing.product(ahead), 2 * x + w, side * (w + 4));
    lemma_whole_is_halves(
        body.spot(facing, Spot::WallAhead).0,
        if right {
            x + w + 2
        } else {
            x - 2
        },
    );
    lemma_a_part_in(body.y, body.h, num(0x3f19_999a));
    lemma_whole_is_halves(back, side * w);
    lemma_negated_halves(back, 2 * (side * w));
    law_sums_of_halves_are_exact(across, back.negated(), 2 * x + w, -(2 * (side * w)));
}

proof fn lemma_counts()
    ensures
        is_whole(num(0x3f80_0000), 1),
        is_whole(num(0xbf80_0000), -1),
        is_whole(num(0x4000_0000), 2),
        is_whole(num(0x4080_0000), 4),
{
    lemma2_to64();
    lemma_pow2_adds(23, 126);
    lemma_pow2_adds(23, 127);
    lemma_pow2_adds(23, 128);
    lemma_pow2_unfold(150);
    lemma_pow2_unfold(151);
    lemma_negated(num(0x3f80_0000), 1);
}

proof fn lemma_signed_halves(facing: Number, right: bool, n: Number, k: int)
    requires
        is_halves(n, k),
        facing == (if right {
            num(0x3f80_0000)
        } else {
            num(0xbf80_0000)
        }),
    ensures
        is_halves(
            facing.product(n),
            if right {
                k
            } else {
                -k
            },
        ),
{
    law_products_commute(facing, n);
    law_products_commute(num(0x3f80_0000), n);
    law_times_one_is_itself(n);
    if !right {
        lemma_negated_halves(n, k);
        reveal(Number::product);
        lemma_size_is_exact(n);
        assert(n.product(num(0x3f80_0000)).magnitude() == n.product(facing).magnitude());
        assert(n.product(facing) == n.negated());
    }
}

/// What a step is spent into.
#[derive(Clone, Copy, Debug, PartialEq, Eq, Structural)]
pub enum Effect {
    /// Particles.
    Throw(Spot, Preset),
    /// The shake of a landing this strong.
    FeelLanding(Number),
    /// The shake of a dash.
    FeelDash,
    /// The flash of being hurt.
    FeelHurt,
}

/// What the juice remembers between steps.
#[derive(Clone, Copy, Debug, PartialEq, Eq, Structural)]
pub struct JuiceState {
    /// Whether the body was submerged last step.
    pub prev_in_liquid: bool,
    /// Seconds until a slide throws grit again.
    pub scrape_timer: Number,
}

impl Default for JuiceState {
    fn default() -> (state: JuiceState)
        ensures
            state == (JuiceState { prev_in_liquid: false, scrape_timer: num(0) }),
    {
        JuiceState { prev_in_liquid: false, scrape_timer: num(0) }
    }
}

/// Whether the event at `i` is the landing that the recorded touchdown speed belongs to. The
/// reading is spent by the first landing, and any other in the step is a soft one.
pub open spec fn is_hard(events: Seq<PlayerEvent>, i: int) -> bool {
    forall|j: int| 0 <= j < i ==> #[trigger] events[j] != PlayerEvent::Land
}

/// The strength of the landing at `i`.
pub open spec fn landing(events: Seq<PlayerEvent>, body: BodyReading, i: int) -> Number {
    if is_hard(events, i) {
        landing_strength(body.land_impact)
    } else {
        soft_landing()
    }
}

/// A puff from the feet, in the colour of the ground.
pub open spec fn puff_effect(body: BodyReading, strength: Number) -> Effect {
    Effect::Throw(Spot::Feet, puff_of(ground_color(body.ground), strength))
}

/// A splash at the feet, in the colour of the pool.
pub open spec fn splash_effect(body: BodyReading) -> Effect {
    Effect::Throw(Spot::Feet, splash().tinted(liquid_color(body.pool)))
}

/// What the event at `i` is spent into.
pub open spec fn effects_of(events: Seq<PlayerEvent>, body: BodyReading, i: int) -> Seq<Effect> {
    match events[i] {
        PlayerEvent::Land => {
            let p = landing(events, body, i);
            seq![puff_effect(body, p), Effect::FeelLanding(p)]
        },
        PlayerEvent::Step => seq![puff_effect(body, step_puff())],
        PlayerEvent::Jump => seq![puff_effect(body, jump_puff())],
        PlayerEvent::DoubleJump => seq![Effect::Throw(Spot::AboveFeet, air_jump())],
        PlayerEvent::Dash => seq![
            Effect::Throw(Spot::Middle, smear_of(body.facing, dash_spark())),
            Effect::FeelDash,
        ],
        PlayerEvent::WallJump => seq![
            Effect::Throw(
                Spot::WallBehind,
                scrape_of(away_from(body.facing), ground_color(body.wall_behind)),
            ),
        ],
        PlayerEvent::Splash => seq![splash_effect(body)],
        PlayerEvent::Hurt => seq![Effect::FeelHurt],
    }
}

/// What the first `n` events are spent into, in order.
pub open spec fn event_effects(events: Seq<PlayerEvent>, body: BodyReading, n: nat) -> Seq<Effect>
    decreases n,
{
    if n == 0 {
        Seq::empty()
    } else {
        event_effects(events, body, (n - 1) as nat) + effects_of(events, body, n - 1)
    }
}

/// What the body's continuous states add: a trail while it dashes, grit while it slides and some
/// is due, and a splash on entering a liquid that no event reported.
pub open spec fn state_effects(
    events: Seq<PlayerEvent>,
    body: BodyReading,
    was_in_liquid: bool,
    scrape_due: bool,
) -> Seq<Effect> {
    let trailed = if body.dashing {
        seq![Effect::Throw(Spot::Middle, trail().tinted(dash_spark()))]
    } else {
        Seq::empty()
    };
    let scraped = if body.wall_sliding && scrape_due {
        seq![
            Effect::Throw(
                Spot::WallAhead,
                scrape_of(body.facing, ground_color(body.wall_ahead)),
            ),
        ]
    } else {
        Seq::empty()
    };
    let splashed = if body.in_liquid && !was_in_liquid && !events.contains(PlayerEvent::Splash) {
        seq![splash_effect(body)]
    } else {
        Seq::empty()
    };
    trailed + scraped + splashed
}

/// What a step was spent into.
#[derive(Clone, Debug, PartialEq, Eq)]
pub struct Spent {
    pub effects: Vec<Effect>,
    /// A landing spent the recorded touchdown speed.
    pub landed: bool,
}

fn puff_at_feet(body: &BodyReading, strength: Number) -> (effect: Effect)
    ensures
        effect == puff_effect(*body, strength),
{
    Effect::Throw(Spot::Feet, puffed(ground_color(body.ground), strength))
}

/// The wait for grit after a step of `dt`.
pub open spec fn waited(state: JuiceState, dt: Number) -> Number {
    state.scrape_timer.difference(dt)
}

/// The wait for grit that a step of `dt` leaves.
pub open spec fn left_to_wait(state: JuiceState, sliding: bool, dt: Number) -> Number {
    if sliding && waited(state, dt).le_zero() {
        num(0x3d4c_cccd)
    } else {
        waited(state, dt)
    }
}

/// A slide throws grit as its wait runs out and then waits anew: where none is left of it the wait
/// starts over, which is some time, and otherwise it is shorter by the step, whatever the body does.
pub proof fn law_grit_waits_its_turn(state: JuiceState, sliding: bool, dt: Number)
    requires
        state.scrape_timer.is_finite(),
        dt.is_finite(),
        num(0).le(dt),
    ensures
        state.scrape_timer.le(dt) && sliding ==> num(0).lt(left_to_wait(state, sliding, dt)),
        dt.lt(state.scrape_timer) || !sliding ==> left_to_wait(state, sliding, dt).le(
            state.scrape_timer,
        ),
        dt.is_zero_spec() && num(0).lt(state.scrape_timer) ==> left_to_wait(state, sliding, dt).same(
            state.scrape_timer,
        ),
{
    let t = state.scrape_timer;
    assert(dt.negated().magnitude() == dt.magnitude());
    law_differences_turn_order(t, num(0), dt);
    lemma_nothing_more(t, num(0).negated());
    if t.le(dt) {
        law_sums_keep_order(t, dt, dt.negated());
        law_less_itself_is_zero(dt);
    }
    if dt.lt(t) {
        lemma_more_than_nothing(t, dt);
    }
    if dt.is_zero_spec() {
        lemma_nothing_more(t, dt.negated());
    }
}

/// Turn the events of a step of `dt` and the body's states into dust, smear, shake and flash. A
/// slide throws grit every 0.05 seconds.
pub fn spawn_player_juice(
    events: &Vec<PlayerEvent>,
    body: &BodyReading,
    state: &mut JuiceState,
    dt: Number,
) -> (out: Spent)
    ensures
        out.effects@ == event_effects(events@, *body, events@.len()) + state_effects(
            events@,
            *body,
            old(state).prev_in_liquid,
            waited(*old(state), dt).le_zero(),
        ),
        out.landed == events@.contains(PlayerEvent::Land),
        final(state).prev_in_liquid == body.in_liquid,
        final(state).scrape_timer == left_to_wait(*old(state), body.wall_sliding, dt),
        final(state).scrape_timer == (if body.wall_sliding && waited(*old(state), dt).le_zero() {
            num(0x3d4c_cccd)
        } else {
            waited(*old(state), dt)
        }),
{
    let mut effects: Vec<Effect> = Vec::new();
    let mut landed: bool = false;
    let mut splashed: bool = false;
    let mut i: usize = 0;
    while i < events.len()
        invariant
            i <= events@.len(),
            effects@ == event_effects(events@, *body, i as nat),
            landed == !is_hard(events@, i as int),
            splashed == events@.take(i as int).contains(PlayerEvent::Splash),
        decreases events@.len() - i,
    {
        let ghost before = effects@;
        let ghost now = events@.take(i as int + 1);
        let event: PlayerEvent = events[i];
        proof {
            assert(now.drop_last() =~= events@.take(i as int));
            assert(now.last() == event);
            if splashed {
                let j = choose|j: int|
                    0 <= j < i && events@.take(i as int)[j] == PlayerEvent::Splash;
                assert(now[j] == PlayerEvent::Splash);
            }
            if now.contains(PlayerEvent::Splash) && event != PlayerEvent::Splash {
                let j = choose|j: int| 0 <= j < now.len() && now[j] == PlayerEvent::Splash;
                assert(events@.take(i as int)[j] == PlayerEvent::Splash);
            }
            if event == PlayerEvent::Splash {
                assert(now[i as int] == PlayerEvent::Splash);
            }
        }
        match event {
            PlayerEvent::Land => {
                let strength: Number = if landed {
                    soft_landing()
                } else {
                    strength_of_landing(body.land_impact)
                };
                assert(strength == landing(events@, *body, i as int));
                effects.push(puff_at_feet(body, strength));
                effects.push(Effect::FeelLanding(strength));
                landed = true;
            },
            PlayerEvent::Step => {
                effects.push(puff_at_feet(body, step_puff()));
            },
            PlayerEvent::Jump => {
                effects.push(puff_at_feet(body, jump_puff()));
            },
            PlayerEvent::DoubleJump => {
                effects.push(Effect::Throw(Spot::AboveFeet, air_jump()));
            },
            PlayerEvent::Dash => {
                let smear: Preset = smeared(body.facing, dash_spark());
                effects.push(Effect::Throw(Spot::Middle, smear));
                effects.push(Effect::FeelDash);
            },
            PlayerEvent::WallJump => {
                let grit: Preset = scraped(
                    turned_from(body.facing),
                    ground_color(body.wall_behind),
                );
                effects.push(Effect::Throw(Spot::WallBehind, grit));
            },
            PlayerEvent::Splash => {
                effects.push(
                    Effect::Throw(Spot::Feet, splash().tinted(liquid_color(body.pool))),
                );
                splashed = true;
            },
            PlayerEvent::Hurt => {
                effects.push(Effect::FeelHurt);
            },
        }
        assert(effects@ =~= before + effects_of(events@, *body, i as int));
        i = i + 1;
    }
    assert(events@.take(i as int) =~= events@);
    let ghost spent = effects@;
    if body.dashing {
        effects.push(Effect::Throw(Spot::Middle, trail().tinted(dash_spark())));
    }
    let wait: Number = state.scrape_timer.minus(dt);
    state.scrape_timer = wait;
    if body.wall_sliding && wait.is_at_most_zero() {
        state.scrape_timer = num(0x3d4c_cccd);
        let grit: Preset = scraped(body.facing, ground_color(body.wall_ahead));
        effects.push(Effect::Throw(Spot::WallAhead, grit));
    }
    if !splashed && body.in_liquid && !state.prev_in_liquid {
        effects.push(Effect::Throw(Spot::Feet, splash().tinted(liquid_color(body.pool))));
    }
    assert(effects@ =~= spent + state_effects(
        events@,
        *body,
        state.prev_in_liquid,
        wait.le_zero(),
    ));
    state.prev_in_liquid = body.in_liquid;
    proof {
        if landed {
            let j = choose|j: int| 0 <= j < i && events@[j] == PlayerEvent::Land;
            assert(events@[j] == PlayerEvent::Land);
        }
    }
    Spent { effects, landed }
}

/// Entering a liquid splashes once: on the step that enters it, whether or not an event reported
/// it, and on no later step that stays in it without one.
pub proof fn law_entering_a_liquid_splashes(
    events: Seq<PlayerEvent>,
    body: BodyReading,
    was_in_liquid: bool,
    scrape_due: bool,
)
    ensures
        body.in_liquid && !was_in_liquid ==> (event_effects(events, body, events.len())
            + state_effects(events, body, was_in_liquid, scrape_due)).contains(splash_effect(body)),
        was_in_liquid && !body.dashing && !body.wall_sliding ==> state_effects(
            events,
            body,
            was_in_liquid,
            scrape_due,
        ) == Seq::<Effect>::empty(),
{
    let all = event_effects(events, body, events.len()) + state_effects(
        events,
        body,
        was_in_liquid,
        scrape_due,
    );
    if body.in_liquid && !was_in_liquid {
        if events.contains(PlayerEvent::Splash) {
            let i = choose|i: int| 0 <= i < events.len() && events[i] == PlayerEvent::Splash;
            lemma_event_is_spent(events, body, events.len(), i);
            let at = choose|at: int|
                0 <= at < event_effects(events, body, events.len()).len() && event_effects(
                    events,
                    body,
                    events.len(),
                )[at] == splash_effect(body);
            assert(all[at] == splash_effect(body));
        } else {
            assert(all.last() == splash_effect(body));
        }
    }
    if was_in_liquid && !body.dashing && !body.wall_sliding {
        assert(state_effects(events, body, was_in_liquid, scrape_due) =~= Seq::<Effect>::empty());
    }
}

proof fn lemma_event_is_spent(events: Seq<PlayerEvent>, body: BodyReading, n: nat, i: int)
    requires
        0 <= i < n <= events.len(),
    ensures
        event_effects(events, body, n).contains(effects_of(events, body, i)[0]),
    decreases n,
{
    let before = event_effects(events, body, (n - 1) as nat);
    let now = event_effects(events, body, n);
    if i == n - 1 {
        assert(now[before.len() as int] == effects_of(events, body, i)[0]);
    } else {
        lemma_event_is_spent(events, body, (n - 1) as nat, i);
        let at = choose|at: int|
            0 <= at < before.len() && before[at] == effects_of(events, body, i)[0];
        assert(now[at] == effects_of(events, body, i)[0]);
    }
}

/// The sequence the figure plays. A pose the sheet does not author falls back to the first: the
/// wrong stance for a frame is a far cheaper failure than an invisible player.
pub fn figure_state(baked: &BakedSprite, pose: Pose) -> (state: StateId)
    requires
        baked.wf(),
    ensures
        state.seq() == match baked.plays(pose) {
            Some(seq) => seq,
            None => 0,
        },
{
    match baked.state_id(pose) {
        Some(id) => id,
        None => baked.first_state(),
    }
}

/// The slice of the strip that shows a frame of the figure, mirrored where the body faces left.
pub open spec fn figure_slice(
    baked: BakedSprite,
    state: StateId,
    clock: SpriteClock,
    facing: Number,
) -> TileUv {
    let s = state.seq() as int;
    let tile = baked.tile_at(0, s, baked.frame_shown(s, clock));
    TileUv::slice(tile as nat, baked.bake_count as nat, facing.lt(num(0)))
}

/// A figure turns with its body and shows the same frame either way: what it samples facing left is
/// what it samples facing right from its other edge.
pub proof fn law_a_figure_turns_with_its_body(
    baked: BakedSprite,
    state: StateId,
    clock: SpriteClock,
    left: Number,
    right: Number,
)
    requires
        left.lt(num(0)),
        num(0).le(right),
    ensures
        ({
            let (a, b) = (
                figure_slice(baked, state, clock, left),
                figure_slice(baked, state, clock, right),
            );
            let s = state.seq() as int;
            let tile = baked.tile_at(0, s, baked.frame_shown(s, clock));
            &&& a.u0 == b.u1
            &&& a.u1 == b.u0
            &&& b.u0 == tile_edge(tile, baked.bake_count as nat)
            &&& b.u1 == tile_edge(tile + 1, baked.bake_count as nat)
        }),
{
}

/// Which slice of the strip this frame of the figure samples. The art is authored facing right,
/// so a left-facing body mirrors it.
pub fn tile_uv(baked: &BakedSprite, state: StateId, clock: &SpriteClock, facing: Number) -> (uv:
    TileUv)
    requires
        baked.wf(),
        baked.shows(state),
    ensures
        uv == figure_slice(*baked, state, *clock, facing),
        ({
            let s = state.seq() as int;
            let tile = baked.tile_at(0, s, baked.frame_shown(s, *clock));
            uv == TileUv::slice(tile as nat, baked.bake_count as nat, facing.lt(num(0)))
        }),
{
    let tile: usize = baked.tile(state, 0, clock);
    TileUv::of(tile, baked.count(), facing.less(num(0)))
}

/// A point on the pixel grid.
pub open spec fn on_grid(x: Number, y: Number) -> Point {
    Point { x: x.nearest_whole(), y: y.nearest_whole() }
}

/// A top-left corner on the pixel grid. See [`on_grid`].
pub fn snapped(x: Number, y: Number) -> (at: Point)
    ensures
        at == on_grid(x, y),
{
    Point { x: x.round(), y: y.round() }
}

/// The figure, or one of its after-images: where it is, how far its edges lean, and how much of it
/// shows.
#[derive(Clone, Copy, Debug, PartialEq, Eq, Structural)]
pub struct Silhouette {
    pub x: Number,
    pub y: Number,
    pub top_dx: Number,
    pub bottom_dx: Number,
    pub alpha: Number,
}

/// One quad of the figure: its box snapped to the pixel grid by the top-left corner, with the lean
/// on its two horizontal edges.
pub open spec fn quad_at(image: Silhouette, w: Number, h: Number) -> ShearedRect {
    ShearedRect {
        x: on_grid(image.x, image.y).x,
        y: on_grid(image.x, image.y).y,
        w,
        h,
        top_dx: image.top_dx,
        bottom_dx: image.bottom_dx,
    }
}

/// One quad of the figure. See [`quad_at`].
pub fn quad_of(image: &Silhouette, w: Number, h: Number) -> (rect: ShearedRect)
    ensures
        rect == quad_at(*image, w, h),
{
    let snap: Point = snapped(image.x, image.y);
    ShearedRect {
        x: snap.x,
        y: snap.y,
        w,
        h,
        top_dx: image.top_dx,
        bottom_dx: image.bottom_dx,
    }
}

/// A tint: red, green, blue and alpha.
#[derive(Clone, Copy, Debug, PartialEq, Eq, Structural)]
pub struct Tint {
    pub r: Number,
    pub g: Number,
    pub b: Number,
    pub a: Number,
}

/// White at an alpha: the art as it is.
#[verifier::allow_in_spec]
pub fn faded(alpha: Number) -> Tint
    returns
        (Tint { r: num(0x3f80_0000), g: num(0x3f80_0000), b: num(0x3f80_0000), a: alpha }),
{
    Tint { r: num(0x3f80_0000), g: num(0x3f80_0000), b: num(0x3f80_0000), a: alpha }
}

/// The quads of some images, one after another.
pub open spec fn image_points(
    images: Seq<Silhouette>,
    w: Number,
    h: Number,
    uv: TileUv,
    origin: Point,
    n: nat,
) -> Seq<QuadVertex<Tint>>
    decreases n,
{
    if n == 0 {
        Seq::empty()
    } else {
        image_points(images, w, h, uv, origin, (n - 1) as nat) + quad_points(
            quad_at(images[n - 1], w, h),
            uv,
            faded(images[n - 1].alpha),
            origin,
        )
    }
}

proof fn lemma_image_points_len(
    images: Seq<Silhouette>,
    w: Number,
    h: Number,
    uv: TileUv,
    origin: Point,
    n: nat,
)
    ensures
        image_points(images, w, h, uv, origin, n).len() == 4 * n,
    decreases n,
{
    if n > 0 {
        lemma_image_points_len(images, w, h, uv, origin, (n - 1) as nat);
    }
}

/// The figure and its dash after-images, all of one size and one slice, relative to the figure's own
/// corner on the pixel grid. After-images first and the figure last, because order is composite
/// order inside one mesh: the other way round the nearest one would lie on top of the body it
/// trails.
pub fn push_figure(
    buf: &mut QuadBuf<Tint>,
    ghosts: &Vec<Silhouette>,
    figure: &Silhouette,
    w: Number,
    h: Number,
    uv: TileUv,
)
    requires
        4 * (ghosts@.len() + 1) <= u32::MAX,
    ensures
        final(buf).wf(),
        final(buf).base() == on_grid(figure.x, figure.y),
        final(buf).points() == image_points(
            ghosts@,
            w,
            h,
            uv,
            on_grid(figure.x, figure.y),
            ghosts@.len(),
        ) + quad_points(
            quad_at(*figure, w, h),
            uv,
            faded(num(0x3f80_0000)),
            on_grid(figure.x, figure.y),
        ),
        final(buf).count() == ghosts@.len() + 1,
{
    let origin: Point = snapped(figure.x, figure.y);
    buf.begin(origin);
    let mut i: usize = 0;
    while i < ghosts.len()
        invariant
            i <= ghosts@.len(),
            4 * (ghosts@.len() + 1) <= u32::MAX,
            buf.wf(),
            buf.base() == origin,
            buf.points() == image_points(ghosts@, w, h, uv, origin, i as nat),
            buf.count() == i,
        decreases ghosts@.len() - i,
    {
        proof {
            lemma_image_points_len(ghosts@, w, h, uv, origin, i as nat);
        }
        buf.push(quad_of(&ghosts[i], w, h), uv, faded(ghosts[i].alpha));
        i = i + 1;
    }
    proof {
        lemma_image_points_len(ghosts@, w, h, uv, origin, i as nat);
    }
    buf.push(quad_of(figure, w, h), uv, faded(num(0x3f80_0000)));
}

/// The rectangle of a world with no player art.
pub open spec fn box_rect(body: BodyBox, step_up: Number) -> ShearedRect {
    let at = on_grid(body.x, body.y.sum(step_up));
    ShearedRect { x: at.x, y: at.y, w: body.w, h: body.h, top_dx: num(0), bottom_dx: num(0) }
}

/// The box is the body's: as wide and as high, upright, and on the pixel of its corner, which a step
/// up that has yet to be shown moves down and not across.
pub proof fn law_the_box_is_the_bodys(body: BodyBox, step_up: Number, x: int, y: int, up: int)
    requires
        is_whole(body.x, x),
        is_whole(body.y, y),
        is_whole(step_up, up),
        -0x10_0000 < x < 0x10_0000,
        -0x8_0000 < y < 0x8_0000,
        -0x8_0000 < up < 0x8_0000,
    ensures
        ({
            let rect = box_rect(body, step_up);
            &&& is_whole(rect.x, x)
            &&& is_whole(rect.y, y + up)
            &&& rect.w == body.w
            &&& rect.h == body.h
            &&& rect.top_dx.is_zero_spec()
            &&& rect.bottom_dx.is_zero_spec()
        }),
{
    law_whole_sums_are_exact(body.y, step_up, y, up);
    lemma_whole_is_small(body.x, x);
    lemma_whole_is_small(body.y.sum(step_up), y + up);
    law_nearest_is_the_pixel(body.x);
    law_nearest_is_the_pixel(body.y.sum(step_up));
}

/// The one quad of a world with no player art: the body's box, moved by what of a step up has yet to
/// be shown and snapped to the pixel grid. It neither leans nor squashes: it shows where the body
/// is.
pub fn push_box(buf: &mut QuadBuf<Tint>, body: &BodyBox, step_up: Number, tint: Tint)
    ensures
        final(buf).wf(),
        final(buf).base() == on_grid(body.x, body.y.sum(step_up)),
        final(buf).points() == quad_points(
            box_rect(*body, step_up),
            TileUv { u0: num(0), u1: num(0x3f80_0000) },
            tint,
            final(buf).base(),
        ),
        ({
            let at = on_grid(body.x, body.y.sum(step_up));
            let rect = ShearedRect {
                x: at.x,
                y: at.y,
                w: body.w,
                h: body.h,
                top_dx: num(0),
                bottom_dx: num(0),
            };
            let whole = TileUv { u0: num(0), u1: num(0x3f80_0000) };
            final(buf).points() == quad_points(rect, whole, tint, at)
        }),
        final(buf).count() == 1,
{
    let origin: Point = snapped(body.x, body.y.plus(step_up));
    buf.begin(origin);
    let rect: ShearedRect = ShearedRect::flat(origin.x, origin.y, body.w, body.h);
    buf.push(rect, TileUv::whole(), tint);
    assert(buf.points() =~= quad_points(
        rect,
        TileUv { u0: num(0), u1: num(0x3f80_0000) },
        tint,
        origin,
    ));
}

/// A harder landing is no weaker: the strength grows with the touchdown speed from nothing up to
/// one, which it is from 1400 pixels a second, and one with no speed recorded is soft.
pub proof fn law_a_harder_landing_is_no_weaker(speed: Number, harder: Number)
    requires
        speed.is_number(),
        speed.le(harder),
    ensures
        num(0).lt(speed) ==> landing_strength(speed).le(landing_strength(harder)),
        num(0).le(landing_strength(speed)),
        landing_strength(speed).le(num(0x3f80_0000)),
        num(0x44af_0000).le(speed) ==> landing_strength(speed) == num(0x3f80_0000),
        speed.le_zero() ==> landing_strength(speed) == soft_landing(),
{
    let most = num(0x44af_0000);
    law_quotients_keep_order(speed, harder, most);
    if num(0).lt(speed) {
        law_quotients_keep_order(num(0), speed, most);
        lemma_zero_over(num(0), most);
    }
    if most.le(speed) {
        law_quotients_keep_order(most, speed, most);
        law_itself_goes_in_once(most);
    }
}

/// A landing is as strong as its speed: below so many quarters of the hardest it is no stronger than
/// those, and above them no weaker.
pub proof fn law_a_landing_is_as_strong_as_its_speed(
    speed: Number,
    mark: Number,
    part: Number,
    quarters: int,
)
    requires
        0 < quarters <= 4,
        is_whole(mark, 350 * quarters),
        part.is_finite(),
        part.steps() == quarters * pow2(147),
        num(0).lt(speed),
    ensures
        speed.le(mark) ==> landing_strength(speed).le(part),
        mark.le(speed) ==> part.le(landing_strength(speed)),
{
    let most = num(0x44af_0000);
    lemma2_to64();
    lemma_pow2_adds(2, 147);
    lemma_pow2_adds(13, 136);
    lemma_pow2_pos(149);
    lemma_pow2_pos(147);
    assert(part.size() == quarters * pow2(147) && !part.negative() && mark.size() == 350 * quarters
        * pow2(149) && !mark.negative()) by {
        assert(quarters * pow2(147) > 0 && (350 * quarters) * pow2(149) > 0) by (nonlinear_arith)
            requires
                quarters > 0,
                pow2(147) > 0,
                pow2(149) > 0,
        ;
        lemma_values_in_order(part, mark);
    }
    assert(most.size() == 1400 * pow2(149)) by {
        assert(0xaf_0000 * pow2(136) == 1400 * pow2(149)) by (nonlinear_arith)
            requires
                pow2(149) == 0x2000 * pow2(136),
        ;
    }
    assert(mark.quotient(most) == part) by {
        reveal(Number::quotient);
        let n = (350 * quarters) as nat * pow2(149);
        lemma_ratio_cancels(n, 1400, pow2(149));
        let d = pow2(147) * 1400;
        assert(n == quarters as nat * d) by (nonlinear_arith)
            requires
                n == (350 * quarters) as nat * pow2(149),
                pow2(149) == 4 * pow2(147),
                d == pow2(147) * 1400,
                quarters > 0,
        ;
        lemma_ratio_cancels(quarters as nat * pow2(147), 1, 1400);
        assert((quarters as nat * pow2(147)) * 1400 == n) by (nonlinear_arith)
            requires
                n == quarters as nat * d,
                d == pow2(147) * 1400,
        ;
        lemma_ratio_of_one(quarters as nat * pow2(147));
        lemma_size_is_exact(part);
    }
    let one = num(0x3f80_0000);
    assert(part.le(one)) by {
        lemma_one();
        lemma_values_in_order(part, one);
        assert(quarters * pow2(147) <= 4 * pow2(147)) by (nonlinear_arith)
            requires
                quarters <= 4,
        ;
    }
    if speed.le(mark) {
        law_quotients_keep_order(speed, mark, most);
    }
    if mark.le(speed) {
        law_quotients_keep_order(mark, speed, most);
    }
}

/// What is thrown up is in the colour of what it is thrown off, whatever the other cells are: dust in
/// that of the ground, and the grey of dust over none; a splash in that of the pool, and blue where
/// there is no liquid in it; grit in that of the wall it comes off.
pub proof fn law_dust_is_the_colour_of_its_cell(
    events: Seq<PlayerEvent>,
    body: BodyReading,
    i: int,
    color: Rgb,
)
    requires
        0 <= i < events.len(),
    ensures
        ({
            let spent = effects_of(events, body, i);
            &&& events[i] == PlayerEvent::Land || events[i] == PlayerEvent::Step || events[i]
                == PlayerEvent::Jump ==> (spent[0] matches Effect::Throw(spot, p) && spot
                == Spot::Feet && (body.ground == CellLook::Solid(color) ==> p.opts.color == color)
                && (body.ground == CellLook::Liquid(color) ==> p.opts.color == color) && (
            body.ground == CellLook::Empty ==> p.opts.color == default_dust()))
            &&& events[i] == PlayerEvent::Splash ==> (spent[0] matches Effect::Throw(spot, p)
                && spot == Spot::Feet && (body.pool == CellLook::Liquid(color) ==> p.opts.color
                == color) && (!(body.pool is Liquid) ==> p.opts.color == default_splash()))
            &&& events[i] == PlayerEvent::WallJump ==> (spent[0] matches Effect::Throw(spot, p)
                && spot == Spot::WallBehind && (body.wall_behind == CellLook::Solid(color)
                ==> p.opts.color == color))
        }),
        body.wall_sliding && !body.dashing && body.wall_ahead == CellLook::Solid(color) ==> (
        state_effects(events, body, true, true)[0] matches Effect::Throw(spot, p) && spot
            == Spot::WallAhead && p.opts.color == color),
{
}

/// Grit and smears go the way they should: off a wall jump the grit leaves the wall that was pushed
/// off, which is behind, and down a slide it leaves the wall ahead; a dash smears back.
pub proof fn law_grit_goes_away_from_its_wall(
    events: Seq<PlayerEvent>,
    body: BodyReading,
    i: int,
)
    requires
        0 <= i < events.len(),
        body.facing.is_number(),
        !body.facing.is_zero_spec(),
    ensures
        ({
            let right = num(0).lt(body.facing);
            let spent = effects_of(events, body, i);
            &&& events[i] == PlayerEvent::WallJump ==> (spent[0] matches Effect::Throw(_, p) && (
            right ==> num(UP).lt(p.opts.angle)) && (!right ==> p.opts.angle.lt(num(UP))))
            &&& events[i] == PlayerEvent::Dash ==> (spent[0] matches Effect::Throw(spot, p) && spot
                == Spot::Middle && (right <==> !p.opts.angle.is_zero_spec()))
            &&& body.wall_sliding && !body.dashing ==> (state_effects(
                events,
                body,
                true,
                true,
            )[0] matches Effect::Throw(_, p) && (right ==> p.opts.angle.lt(num(UP))) && (!right
                ==> num(UP).lt(p.opts.angle)))
        }),
{
}

/// The first landing of a step is as hard as it was recorded, and any after it is soft; each is felt
/// as hard as its dust is thrown. A dash and a hurt are felt once each, a dash is felt and thrown,
/// and a hurt is felt alone. A step alone is softer than a jump.
pub proof fn law_each_event_is_felt_as_it_is(
    events: Seq<PlayerEvent>,
    body: BodyReading,
    i: int,
)
    requires
        0 <= i < events.len(),
    ensures
        ({
            let spent = effects_of(events, body, i);
            let first = forall|j: int| 0 <= j < i ==> events[j] != PlayerEvent::Land;
            &&& events[i] == PlayerEvent::Land ==> spent.len() == 2 && spent[1]
                == Effect::FeelLanding(
                if first {
                    landing_strength(body.land_impact)
                } else {
                    soft_landing()
                },
            )
            &&& events[i] == PlayerEvent::Dash ==> spent.len() == 2 && spent[1] == Effect::FeelDash
            &&& events[i] == PlayerEvent::Hurt ==> spent == seq![Effect::FeelHurt]
            &&& events[i] != PlayerEvent::Land && events[i] != PlayerEvent::Dash && events[i]
                != PlayerEvent::Hurt ==> spent.len() == 1 && spent[0] is Throw
        }),
        step_puff().lt(jump_puff()),
        soft_landing().lt(step_puff()),
{
}

/// Events are spent in order: what a step throws starts with what its first events do, and what an
/// event adds comes after all that was before it. With no event and no state there is nothing.
pub proof fn law_events_are_spent_in_order(events: Seq<PlayerEvent>, body: BodyReading, n: nat)
    requires
        n < events.len(),
    ensures
        event_effects(events, body, n + 1) == event_effects(events, body, n) + effects_of(
            events,
            body,
            n as int,
        ),
        event_effects(events, body, 0) == Seq::<Effect>::empty(),
        !body.dashing && !body.wall_sliding && !body.in_liquid ==> state_effects(
            events,
            body,
            false,
            true,
        ) == Seq::<Effect>::empty(),
{
    assert(!body.dashing && !body.wall_sliding && !body.in_liquid ==> state_effects(
        events,
        body,
        false,
        true,
    ) =~= Seq::<Effect>::empty());
}

/// A figure stands on whole pixels and leans by its two edges alone: its quad has its top left on the
/// pixel that the image is on, is as large as it was told, and leans as the image does.
pub proof fn law_a_figure_stands_on_its_pixel(image: Silhouette, w: Number, h: Number)
    requires
        image.x.magnitude() < 0x4b00_0000,
        image.y.magnitude() < 0x4b00_0000,
    ensures
        ({
            let rect = quad_at(image, w, h);
            &&& is_whole(rect.x, pixel(image.x))
            &&& is_whole(rect.y, pixel(image.y))
            &&& rect.w == w
            &&& rect.h == h
            &&& rect.top_dx == image.top_dx
            &&& rect.bottom_dx == image.bottom_dx
        }),
{
    law_nearest_is_the_pixel(image.x);
    law_nearest_is_the_pixel(image.y);
}

/// Each after-image has a quad of its own, in order, as faint as it is and in no colour but the
/// art's.
pub proof fn law_each_image_has_its_own_quad(
    images: Seq<Silhouette>,
    w: Number,
    h: Number,
    uv: TileUv,
    origin: Point,
    n: nat,
    i: int,
)
    requires
        0 <= i < n <= images.len(),
    ensures
        image_points(images, w, h, uv, origin, n).subrange(4 * i, 4 * i + 4) == quad_points(
            quad_at(images[i], w, h),
            uv,
            faded(images[i].alpha),
            origin,
        ),
        faded(images[i].alpha).a == images[i].alpha,
        faded(images[i].alpha).r == faded(images[i].alpha).g,
        faded(images[i].alpha).g == faded(images[i].alpha).b,
        faded(images[i].alpha).r == num(0x3f80_0000),
    decreases n,
{
    lemma_image_points_len(images, w, h, uv, origin, n);
    lemma_image_points_len(images, w, h, uv, origin, (n - 1) as nat);
    let (now, before) = (
        image_points(images, w, h, uv, origin, n),
        image_points(images, w, h, uv, origin, (n - 1) as nat),
    );
    let own = quad_points(quad_at(images[i], w, h), uv, faded(images[i].alpha), origin);
    if i == n - 1 {
        assert(now.subrange(4 * i, 4 * i + 4) =~= own);
    } else {
        law_each_image_has_its_own_quad(images, w, h, uv, origin, (n - 1) as nat, i);
        assert(now.subrange(4 * i, 4 * i + 4) =~= before.subrange(4 * i, 4 * i + 4));
    }
}

} // verus!
