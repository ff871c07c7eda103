//! How a particle moves: gravity, drift and drag, and a bounce off what is solid.

use vstd::prelude::*;

use crate::arith::{
    law_a_part_is_no_larger, law_products_commute, law_times_one_is_itself, law_times_zero_is_zero,
    law_zero_adds_nothing, lemma_less_than_one, lemma_product_is_number, lemma_sum_goes_up, one,
};
use crate::number::{Number, num};
use crate::order::{
    law_products_keep_order, law_sums_keep_order, lemma_nothing_more, lemma_sums_commute,
};
use crate::particles::presets::EmitOpts;
use crate::particles::system::Birth;
use crate::sky::backdrop::{floor_of, floor_to_i32};
use crate::whole::{
    is_whole, law_whole_products_are_exact, law_whole_sums_are_exact, lemma_fifths,
};

verus! {

/// Where a particle is, and what moves it. Pixels and seconds, with y running down.
#[derive(Clone, Copy, Debug, PartialEq, Eq, Structural)]
pub struct Motion {
    pub x: Number,
    pub y: Number,
    pub vx: Number,
    pub vy: Number,
    pub gravity: Number,
    pub drag: Number,
    /// How strongly it drifts. Zero is ballistic.
    pub wander: Number,
    /// How far the drift has turned, in radians.
    pub phase: Number,
}

/// The cosine and the sine of an angle, or of two.
#[derive(Clone, Copy, Debug, PartialEq, Eq, Structural)]
pub struct Turn {
    pub cos: Number,
    pub sin: Number,
}

impl Motion {
    /// A particle at its birth, put at a point and not yet thrown.
    pub open spec fn placed(x: Number, y: Number, birth: Birth, opts: EmitOpts) -> Motion {
        Motion {
            x,
            y,
            vx: num(0),
            vy: num(0),
            gravity: opts.gravity,
            drag: opts.drag,
            wander: opts.wander,
            phase: birth.phase,
        }
    }

    /// Puts a particle at a point. See [`Motion::placed`].
    pub fn place(x: Number, y: Number, birth: &Birth, opts: &EmitOpts) -> (out: Motion)
        ensures
            out == Motion::placed(x, y, *birth, *opts),
    {
        Motion {
            x,
            y,
            vx: num(0),
            vy: num(0),
            gravity: opts.gravity,
            drag: opts.drag,
            wander: opts.wander,
            phase: birth.phase,
        }
    }

    /// The particle thrown at its birth's speed. `turn` is that of its launch angle.
    pub open spec fn thrown(&self, birth: Birth, turn: Turn) -> Motion {
        Motion {
            vx: turn.cos.product(birth.speed),
            vy: turn.sin.product(birth.speed),
            ..*self
        }
    }

    /// Throws the particle at its birth's speed. See [`Motion::thrown`].
    pub fn throw(&self, birth: &Birth, turn: Turn) -> (out: Motion)
        ensures
            out == self.thrown(*birth, turn),
    {
        Motion { vx: turn.cos.times(birth.speed), vy: turn.sin.times(birth.speed), ..*self }
    }

    /// Whether the particle drifts.
    pub open spec fn drifts(&self) -> bool {
        num(0).lt(self.wander)
    }

    /// Whether the particle drifts, and its two angles have to be turned.
    pub fn is_drifting(&self) -> (drifts: bool)
        ensures
            drifts == self.drifts(),
    {
        num(0).less(self.wander)
    }

    /// The drift's phase after a step of `dt`: it turns 2.3 radians a second.
    pub open spec fn turned(&self, dt: Number) -> Number {
        self.phase.sum(dt.product(num(0x4013_3333)))
    }

    /// The angles of a step's drift: across, and down, where it turns 1.7 times as fast so that the
    /// two never come back into phase.
    pub open spec fn angles(&self, dt: Number) -> (Number, Number) {
        (self.turned(dt), self.turned(dt).product(num(0x3fd9_999a)))
    }

    /// The angles of a step's drift. See [`Motion::angles`].
    pub fn drift_angles(&self, dt: Number) -> (angles: (Number, Number))
        ensures
            angles == self.angles(dt),
    {
        let phase: Number = self.phase.plus(dt.times(num(0x4013_3333)));
        (phase, phase.times(num(0x3fd9_999a)))
    }

    /// The velocity a step of `dt` gives: gravity, then drift, then drag. `drift` is the cosine of
    /// the first drift angle and the sine of the second; down it is 0.6 as strong.
    pub open spec fn velocity(&self, dt: Number, drift: Turn) -> (Number, Number) {
        let fallen = self.vy.sum(self.gravity.product(dt));
        let (vx, vy) = if self.drifts() {
            (
                self.vx.sum(drift.cos.product(self.wander).product(dt)),
                fallen.sum(
                    drift.sin.product(self.wander).product(num(0x3f19_999a)).product(dt),
                ),
            )
        } else {
            (self.vx, fallen)
        };
        if num(0).lt(self.drag) {
            let left = num(0x3f80_0000).difference(self.drag.product(dt));
            let keep = if num(0).lt(left) {
                left
            } else {
                num(0)
            };
            (vx.product(keep), vy.product(keep))
        } else {
            (vx, vy)
        }
    }

    /// Where a step of `dt` at a velocity leads.
    pub open spec fn reached(&self, v: (Number, Number), dt: Number) -> (Number, Number) {
        (self.x.sum(v.0.product(dt)), self.y.sum(v.1.product(dt)))
    }

    /// The velocity of a step and where it leads, as if nothing were in the way. See
    /// [`Motion::velocity`] and [`Motion::reached`].
    pub fn advance(&self, dt: Number, drift: Turn) -> (out: ((Number, Number), (Number, Number)))
        ensures
            out.0 == self.velocity(dt, drift),
            out.1 == self.reached(out.0, dt),
    {
        let mut vx: Number = self.vx;
        let mut vy: Number = self.vy.plus(self.gravity.times(dt));
        if self.is_drifting() {
            vx = vx.plus(drift.cos.times(self.wander).times(dt));
            vy = vy.plus(drift.sin.times(self.wander).times(num(0x3f19_999a)).times(dt));
        }
        if num(0).less(self.drag) {
            let left: Number = num(0x3f80_0000).minus(self.drag.times(dt));
            let keep: Number = if num(0).less(left) {
                left
            } else {
                num(0)
            };
            vx = vx.times(keep);
            vy = vy.times(keep);
        }
        ((vx, vy), (self.x.plus(vx.times(dt)), self.y.plus(vy.times(dt))))
    }

    /// One axis of a step: where it leads, or back where it was with 0.35 of the speed the other
    /// way where it bounces.
    pub open spec fn axis(was: Number, v: Number, to: Number, bounces: bool) -> (Number, Number) {
        if bounces {
            (was, v.negated().product(num(0x3eb3_3333)))
        } else {
            (to, v)
        }
    }

    /// The particle after a step of `dt`, bouncing on the axes that `flips` names.
    pub open spec fn stepped(&self, dt: Number, drift: Turn, flips: (bool, bool)) -> Motion {
        let v = self.velocity(dt, drift);
        let to = self.reached(v, dt);
        Motion {
            x: Motion::axis(self.x, v.0, to.0, flips.0).0,
            vx: Motion::axis(self.x, v.0, to.0, flips.0).1,
            y: Motion::axis(self.y, v.1, to.1, flips.1).0,
            vy: Motion::axis(self.y, v.1, to.1, flips.1).1,
            phase: if self.drifts() {
                self.turned(dt)
            } else {
                self.phase
            },
            ..*self
        }
    }

    /// The particle after a step. See [`Motion::stepped`].
    pub fn step(&self, dt: Number, drift: Turn, flips: (bool, bool)) -> (out: Motion)
        ensures
            out == self.stepped(dt, drift, flips),
    {
        let (v, to): ((Number, Number), (Number, Number)) = self.advance(dt, drift);
        let mut out: Motion = *self;
        if self.is_drifting() {
            out.phase = self.drift_angles(dt).0;
        }
        let bounce: Number = num(0x3eb3_3333);
        if flips.0 {
            out.vx = v.0.minus_self().times(bounce);
        } else {
            out.vx = v.0;
            out.x = to.0;
        }
        if flips.1 {
            out.vy = v.1.minus_self().times(bounce);
        } else {
            out.vy = v.1;
            out.y = to.1;
        }
        out
    }
}

/// Drag takes speed out and never turns a particle round: without gravity and drift, each axis is
/// no faster than it was, and keeps the sign it had.
pub proof fn law_drag_only_slows(m: Motion, dt: Number, drift: Turn)
    requires
        !m.drifts(),
        m.gravity.product(dt).is_zero_spec(),
        m.vx.is_finite(),
        m.vy.is_finite(),
        !m.vy.is_zero_spec(),
        m.drag.is_finite(),
        dt.is_finite(),
        !dt.negative(),
        m.drag.product(dt).is_finite(),
    ensures
        m.velocity(dt, drift).0.magnitude() <= m.vx.magnitude(),
        m.velocity(dt, drift).1.magnitude() <= m.vy.magnitude(),
        m.velocity(dt, drift).0.negative() == m.vx.negative(),
        m.velocity(dt, drift).1.negative() == m.vy.negative(),
{
    law_zero_adds_nothing(m.vy, m.gravity.product(dt));
    if num(0).lt(m.drag) {
        lemma_product_is_number(m.drag, dt);
        lemma_less_than_one(m.drag.product(dt));
        let left = one().difference(m.drag.product(dt));
        let keep = if num(0).lt(left) {
            left
        } else {
            num(0)
        };
        law_a_part_is_no_larger(m.vx, keep);
        law_a_part_is_no_larger(m.vy, keep);
        lemma_product_is_number(m.vx, keep);
        lemma_product_is_number(m.vy, keep);
    }
}

/// A particle that bounces off what is solid does not enter it: on that axis it stays where it was,
/// and leaves the other way no faster than it came.
pub proof fn law_a_bounce_stays_outside(m: Motion, dt: Number, drift: Turn, flips: (bool, bool))
    requires
        m.velocity(dt, drift).0.is_finite(),
        m.velocity(dt, drift).1.is_finite(),
    ensures
        ({
            let (v, next) = (m.velocity(dt, drift), m.stepped(dt, drift, flips));
            &&& flips.0 ==> next.x == m.x && next.vx.negative() != v.0.negative()
                && next.vx.magnitude() <= v.0.magnitude()
            &&& flips.1 ==> next.y == m.y && next.vy.negative() != v.1.negative()
                && next.vy.magnitude() <= v.1.magnitude()
        }),
{
    let v = m.velocity(dt, drift);
    law_a_part_is_no_larger(v.0.negated(), num(0x3eb3_3333));
    law_a_part_is_no_larger(v.1.negated(), num(0x3eb3_3333));
    lemma_product_is_number(v.0.negated(), num(0x3eb3_3333));
    lemma_product_is_number(v.1.negated(), num(0x3eb3_3333));
}

/// The axes are independent: one that does not bounce leads to where its velocity leads and keeps
/// that velocity, and one that bounces stays where it was, whatever the other does. Nothing else of
/// the particle changes but the turn of its drift.
pub proof fn law_axes_are_independent(m: Motion, dt: Number, drift: Turn, flips: (bool, bool))
    ensures
        ({
            let (v, next) = (m.velocity(dt, drift), m.stepped(dt, drift, flips));
            &&& !flips.0 ==> next.vx == v.0 && next.x == m.x.sum(next.vx.product(dt))
            &&& !flips.1 ==> next.vy == v.1 && next.y == m.y.sum(next.vy.product(dt))
            &&& flips.0 ==> next.x == m.x
            &&& flips.1 ==> next.y == m.y
            &&& next.gravity == m.gravity
            &&& next.drag == m.drag
            &&& next.wander == m.wander
            &&& !m.drifts() ==> next.phase == m.phase
        }),
        forall|other: bool| #![trigger m.stepped(dt, drift, (flips.0, other))]
            m.stepped(dt, drift, (flips.0, other)).x == m.stepped(dt, drift, flips).x && m.stepped(
                dt,
                drift,
                (flips.0, other),
            ).vx == m.stepped(dt, drift, flips).vx,
        forall|other: bool| #![trigger m.stepped(dt, drift, (other, flips.1))]
            m.stepped(dt, drift, (other, flips.1)).y == m.stepped(dt, drift, flips).y && m.stepped(
                dt,
                drift,
                (other, flips.1),
            ).vy == m.stepped(dt, drift, flips).vy,
{
}

/// Gravity pulls down and nowhere else: with no drift and no drag a step leaves the speed across as
/// it was, and gives the speed down what gravity gains in its time. In whole numbers it is exact,
/// and so is where the step leads.
pub proof fn law_gravity_pulls_down(
    m: Motion,
    dt: Number,
    drift: Turn,
    at: (int, int),
    speed: (int, int),
    g: int,
    t: int,
)
    requires
        !m.drifts(),
        !num(0).lt(m.drag),
        is_whole(m.x, at.0),
        is_whole(m.y, at.1),
        is_whole(m.vx, speed.0),
        is_whole(m.vy, speed.1),
        is_whole(m.gravity, g),
        is_whole(dt, t),
        -0x100_0000 < g * t < 0x100_0000,
        -0x100_0000 < speed.1 + g * t < 0x100_0000,
        -0x100_0000 < speed.0 * t < 0x100_0000,
        -0x100_0000 < (speed.1 + g * t) * t < 0x100_0000,
        -0x100_0000 < at.0 + speed.0 * t < 0x100_0000,
        -0x100_0000 < at.1 + (speed.1 + g * t) * t < 0x100_0000,
    ensures
        ({
            let next = m.stepped(dt, drift, (false, false));
            &&& next.vx == m.vx
            &&& is_whole(next.vy, speed.1 + g * t)
            &&& is_whole(next.x, at.0 + speed.0 * t)
            &&& is_whole(next.y, at.1 + (speed.1 + g * t) * t)
        }),
{
    let vy = m.vy.sum(m.gravity.product(dt));
    law_whole_products_are_exact(m.gravity, dt, g, t);
    law_whole_sums_are_exact(m.vy, m.gravity.product(dt), speed.1, g * t);
    law_whole_products_are_exact(m.vx, dt, speed.0, t);
    law_whole_products_are_exact(vy, dt, speed.1 + g * t, t);
    law_whole_sums_are_exact(m.x, m.vx.product(dt), at.0, speed.0 * t);
    law_whole_sums_are_exact(m.y, vy.product(dt), at.1, (speed.1 + g * t) * t);
}

/// A particle goes the way it is moving: without a bounce a step takes it no further left or up
/// where its speed is to the right or down, and the other way about.
pub proof fn law_a_particle_goes_the_way_it_moves(m: Motion, dt: Number, drift: Turn)
    requires
        m.x.is_finite(),
        m.y.is_finite(),
        dt.is_finite(),
        !dt.negative(),
        m.velocity(dt, drift).0.product(dt).is_finite(),
        m.velocity(dt, drift).1.product(dt).is_finite(),
        m.velocity(dt, drift).0.is_finite(),
        m.velocity(dt, drift).1.is_finite(),
    ensures
        ({
            let next = m.stepped(dt, drift, (false, false));
            &&& !next.vx.negative() ==> m.x.le(next.x)
            &&& next.vx.negative() ==> next.x.le(m.x)
            &&& !next.vy.negative() ==> m.y.le(next.y)
            &&& next.vy.negative() ==> next.y.le(m.y)
        }),
{
    let v = m.velocity(dt, drift);
    lemma_product_is_number(v.0, dt);
    lemma_product_is_number(v.1, dt);
    lemma_moved(m.x, v.0.product(dt));
    lemma_moved(m.y, v.1.product(dt));
}

proof fn lemma_moved(from: Number, by: Number)
    requires
        from.is_finite(),
        by.is_finite(),
    ensures
        !by.negative() ==> from.le(from.sum(by)),
        by.negative() ==> from.sum(by).le(from),
{
    if by.negative() {
        assert(by.rank() <= 0);
        law_sums_keep_order(by, num(0), from);
        lemma_sums_commute(by, from);
        lemma_nothing_more(from, num(0));
    } else {
        lemma_sum_goes_up(from, by);
    }
}

/// The drift pushes each axis the way its own angle points: a cosine to the right takes the speed
/// across no further left, a sine down takes the speed down no further up, and a particle that does
/// not drift heeds neither.
pub proof fn law_the_drift_pushes_where_it_points(m: Motion, dt: Number, drift: Turn)
    requires
        !num(0).lt(m.drag),
        m.vx.is_finite(),
        m.vy.sum(m.gravity.product(dt)).is_finite(),
        dt.is_finite(),
        !dt.negative(),
        m.wander.is_finite(),
        drift.cos.magnitude() <= 0x3f80_0000,
        drift.sin.magnitude() <= 0x3f80_0000,
        drift.cos.product(m.wander).product(dt).is_finite(),
        drift.sin.product(m.wander).product(num(0x3f19_999a)).product(dt).is_finite(),
    ensures
        ({
            let v = m.velocity(dt, drift);
            let still = m.vy.sum(m.gravity.product(dt));
            &&& m.drifts() && !drift.cos.negative() ==> m.vx.le(v.0)
            &&& m.drifts() && drift.cos.negative() ==> v.0.le(m.vx)
            &&& m.drifts() && !drift.sin.negative() ==> still.le(v.1)
            &&& m.drifts() && drift.sin.negative() ==> v.1.le(still)
            &&& !m.drifts() ==> v == (m.vx, still)
        }),
{
    if m.drifts() {
        let across = drift.cos.product(m.wander);
        let down = drift.sin.product(m.wander);
        law_products_commute(drift.cos, m.wander);
        law_products_commute(drift.sin, m.wander);
        law_a_part_is_no_larger(m.wander, drift.cos);
        law_a_part_is_no_larger(m.wander, drift.sin);
        law_a_part_is_no_larger(down, num(0x3f19_999a));
        lemma_product_is_number(drift.cos, m.wander);
        lemma_product_is_number(drift.sin, m.wander);
        lemma_product_is_number(across, dt);
        lemma_product_is_number(down, num(0x3f19_999a));
        lemma_product_is_number(down.product(num(0x3f19_999a)), dt);
        lemma_moved(m.vx, across.product(dt));
        lemma_moved(
            m.vy.sum(m.gravity.product(dt)),
            down.product(num(0x3f19_999a)).product(dt),
        );
    }
}

/// A particle is thrown along its launch angle: across by its cosine and down by its sine, as fast
/// as it was born, and from where it was put.
pub proof fn law_a_throw_follows_its_angle(m: Motion, birth: Birth, turn: Turn, speed: int, c: int, s: int)
    requires
        is_whole(birth.speed, speed),
        is_whole(turn.cos, c),
        is_whole(turn.sin, s),
        -0x100_0000 < c * speed < 0x100_0000,
        -0x100_0000 < s * speed < 0x100_0000,
    ensures
        is_whole(m.thrown(birth, turn).vx, c * speed),
        is_whole(m.thrown(birth, turn).vy, s * speed),
        m.thrown(birth, turn).x == m.x,
        m.thrown(birth, turn).y == m.y,
        m.thrown(birth, turn).phase == m.phase,
{
    law_whole_products_are_exact(turn.cos, birth.speed, c, speed);
    law_whole_products_are_exact(turn.sin, birth.speed, s, speed);
}

/// The cell that a coordinate lies in.
pub open spec fn cell_of(px: Number) -> int {
    floor_of(px.quotient(num(0x40a0_0000)))
}

/// A cell is five pixels: a whole pixel lies in the one that starts at it or up to four before it, on
/// either side of the origin.
pub proof fn law_a_cell_is_five_pixels(px: Number, at: int)
    requires
        is_whole(px, at),
        -0x20_0000 < at < 0x20_0000,
    ensures
        5 * cell_of(px) <= at < 5 * cell_of(px) + 5,
{
    lemma_fifths(px, at);
}

/// The cell that a coordinate lies in: five pixels to a cell, going down at the edges.
pub fn cell_at(px: Number) -> (cell: i32)
    ensures
        cell == cell_of(px),
        cell == floor_of(px.quotient(num(0x40a0_0000))),
{
    floor_to_i32(px.over(num(0x40a0_0000)))
}

/// A drifting particle's phase turns on with every step, never back, and by 2.3 radians at least in
/// one of a second; one that does not drift keeps its phase.
pub proof fn law_a_drift_turns_on(m: Motion, dt: Number, drift: Turn, flips: (bool, bool))
    requires
        m.phase.is_finite(),
        dt.is_finite(),
        num(0).le(dt),
        dt.product(num(0x4013_3333)).is_finite(),
    ensures
        !m.drifts() ==> m.stepped(dt, drift, flips).phase == m.phase,
        m.drifts() ==> m.stepped(dt, drift, flips).phase == m.angles(dt).0,
        m.phase.le(m.angles(dt).0),
        one().le(dt) ==> m.phase.sum(num(0x4013_3333)).le(m.angles(dt).0),
{
    let rate = num(0x4013_3333);
    law_products_keep_order(num(0), dt, rate);
    law_products_commute(num(0), rate);
    law_times_zero_is_zero(rate, num(0));
    let way = dt.product(rate);
    lemma_sums_commute(m.phase, way);
    lemma_sums_commute(m.phase, rate);
    law_sums_keep_order(num(0), way, m.phase);
    lemma_nothing_more(m.phase, num(0));
    lemma_sums_commute(m.phase, num(0));
    if one().le(dt) {
        law_products_keep_order(one(), dt, rate);
        law_products_commute(one(), rate);
        law_times_one_is_itself(rate);
        law_sums_keep_order(rate, way, m.phase);
    }
}

} // verus!
