//! The pool itself: which slots are up, which one is claimed next, and what each was emitted with.
//!
//! The pool is a fixed length. A full one drops the overflow rather than recycling a slot that is
//! still up.

use vstd::arithmetic::div_mod::*;
use vstd::arithmetic::power2::*;
use vstd::prelude::*;

use crate::arith::{
    law_a_part_is_no_larger, law_itself_goes_in_once, law_less_itself_is_zero, law_products_commute,
    law_times_zero_is_zero, law_zero_adds_nothing, lemma_bits_increase, lemma_product_is_number,
    lemma_ratio_vanishes, lemma_small_difference, lemma_steps_are_sizes, lemma_zero_over, one,
    ratio,
};
use crate::number::{Number, lemma_steps_nonnegative, num};
use crate::order::{
    law_differences_turn_order, law_products_keep_order, law_quotients_keep_order,
    lemma_ratio_goes_up, lemma_rounded_goes_up, lemma_values_in_order,
};
use crate::particles::motion::{Motion, Turn};
use crate::particles::presets::{
    EmitOpts, HALF_TURN, MobEventKind, MobJuice, Preset, TURN, UP_LEFT, UP_RIGHT, burst, dust,
    ember, mob_juice, puff_of, puffed, scrape, scraped, smear, smeared, splash, trail,
};
use crate::particles::rng::{
    JuiceRng, law_a_draw_is_in_its_range, ranged, unit, xorshift, xorshift_iter,
};
use crate::rounding::{law_scaling_does_not_grow, nearest, product, rounded, times_nearest};
use crate::sprite::bake::Rgb;

verus! {

/// Slots in the pool.
pub const MAX_PARTICLES: usize = 2048;

/// The positive one, as a binary32 number.
pub const ONE_BITS: u32 = 0x3f80_0000;

/// What a slot was emitted with. A slot that is not up carries no flags.
#[derive(Clone, Copy, Debug, PartialEq, Eq, Structural)]
pub struct Slot {
    /// Whether a particle is up in this slot.
    pub alive: bool,
    /// Draw over the lit frame instead of in the world layer.
    pub glow: bool,
    /// Ease alpha in as well as out.
    pub fade_in: bool,
    /// Bounce off solid cells instead of passing through them.
    pub collide: bool,
    pub rgb: Rgb,
    /// The side of its square, in pixels.
    pub size: Number,
}

/// One particle that is up, as it is drawn.
#[derive(Clone, Copy, Debug, PartialEq, Eq, Structural)]
pub struct Particle {
    /// The left edge of its square, in world pixels.
    pub x: Number,
    /// The top edge, with y running down.
    pub y: Number,
    /// The side of its square, in world pixels.
    pub size: Number,
    pub rgb: Rgb,
    /// How much of it shows, from 1 at birth to 0.
    pub alpha: Number,
    /// Whether it is drawn in the glow pass.
    pub glow: bool,
}

/// One particle as it is born.
#[derive(Clone, Copy, Debug, PartialEq, Eq, Structural)]
pub struct Birth {
    pub slot: usize,
    /// Which way it launches, in radians.
    pub angle: Number,
    /// How fast, in pixels per second.
    pub speed: Number,
    /// How long it lives, in seconds.
    pub life: Number,
    /// Where its drift starts, in radians.
    pub phase: Number,
}

/// The pass that draws a particle.
#[derive(Clone, Copy, Debug, PartialEq, Eq, Structural)]
pub enum Pass {
    /// In the world layer, under the light.
    Sprite,
    /// Over the lit frame.
    Glow,
}

/// How many of these are true.
pub open spec fn count(flags: Seq<bool>) -> nat
    decreases flags.len(),
{
    if flags.len() == 0 {
        0
    } else {
        count(flags.drop_last()) + if flags.last() {
            1nat
        } else {
            0nat
        }
    }
}

/// Which slots are up.
pub open spec fn alive(slots: Seq<Slot>) -> Seq<bool> {
    slots.map_values(|s: Slot| s.alive)
}

/// Which slots glow.
pub open spec fn glows(slots: Seq<Slot>) -> Seq<bool> {
    slots.map_values(|s: Slot| s.alive && s.glow)
}

/// The slot after `i`, round the ring.
pub open spec fn after(i: int) -> int {
    if i + 1 >= MAX_PARTICLES {
        0
    } else {
        i + 1
    }
}

/// The first slot of `left`, from `at` round the ring, that is not up.
pub open spec fn free_from(up: Seq<bool>, at: int, left: nat) -> Option<int>
    decreases left,
{
    if left == 0 {
        None
    } else if !up[at] {
        Some(at)
    } else {
        free_from(up, after(at), (left - 1) as nat)
    }
}

/// The pool's slots and cursor once `n` particles have been put up from `cursor` on, or as many
/// as there is room for.
pub open spec fn filled(slots: Seq<Slot>, cursor: int, n: nat, with: Slot) -> (Seq<Slot>, int)
    decreases n,
{
    if n == 0 {
        (slots, cursor)
    } else {
        match free_from(alive(slots), cursor, MAX_PARTICLES as nat) {
            None => (slots, cursor),
            Some(at) => filled(slots.update(at, with), after(at), (n - 1) as nat, with),
        }
    }
}

/// The slots those particles go into, in order.
pub open spec fn claimed(slots: Seq<Slot>, cursor: int, n: nat, with: Slot) -> Seq<int>
    decreases n,
{
    if n == 0 {
        Seq::empty()
    } else {
        match free_from(alive(slots), cursor, MAX_PARTICLES as nat) {
            None => Seq::empty(),
            Some(at) => seq![at] + claimed(
                slots.update(at, with),
                after(at),
                (n - 1) as nat,
                with,
            ),
        }
    }
}

proof fn lemma_count_update(flags: Seq<bool>, i: int, now: bool)
    requires
        0 <= i < flags.len(),
    ensures
        count(flags.update(i, now)) == count(flags) + (if now {
            1int
        } else {
            0
        }) - (if flags[i] {
            1int
        } else {
            0
        }),
    decreases flags.len(),
{
    let next = flags.update(i, now);
    if i == flags.len() - 1 {
        assert(next.drop_last() =~= flags.drop_last());
    } else {
        assert(next.drop_last() =~= flags.drop_last().update(i, now));
        lemma_count_update(flags.drop_last(), i, now);
    }
}

proof fn lemma_count_bound(flags: Seq<bool>)
    ensures
        count(flags) <= flags.len(),
    decreases flags.len(),
{
    if flags.len() > 0 {
        lemma_count_bound(flags.drop_last());
    }
}

proof fn lemma_count_full(flags: Seq<bool>)
    ensures
        count(flags) == flags.len() <==> (forall|i: int| 0 <= i < flags.len() ==> #[trigger] flags[i]),
    decreases flags.len(),
{
    if flags.len() > 0 {
        let less = flags.drop_last();
        lemma_count_full(less);
        lemma_count_bound(less);
        if count(flags) == flags.len() {
            assert forall|i: int| 0 <= i < flags.len() implies #[trigger] flags[i] by {
                if i < less.len() {
                    assert(less[i]);
                }
            }
        }
        if forall|i: int| 0 <= i < flags.len() ==> #[trigger] flags[i] {
            assert forall|i: int| 0 <= i < less.len() implies #[trigger] less[i] by {
                assert(flags[i]);
            }
        }
    }
}

proof fn lemma_count_none(flags: Seq<bool>)
    requires
        forall|i: int| 0 <= i < flags.len() ==> !#[trigger] flags[i],
    ensures
        count(flags) == 0,
    decreases flags.len(),
{
    if flags.len() > 0 {
        lemma_count_none(flags.drop_last());
    }
}

/// How many steps round the ring `to` is from `at`.
spec fn steps_to(at: int, to: int) -> int {
    if to >= at {
        to - at
    } else {
        to + MAX_PARTICLES - at
    }
}

/// A slot that is not up is found, wherever the search starts.
proof fn lemma_free_is_found(up: Seq<bool>, at: int, left: nat, dead: int)
    requires
        up.len() == MAX_PARTICLES,
        0 <= at < MAX_PARTICLES,
        0 <= dead < MAX_PARTICLES,
        !up[dead],
        steps_to(at, dead) < left,
    ensures
        free_from(up, at, left) is Some,
    decreases left,
{
    if up[at] {
        lemma_free_is_found(up, after(at), (left - 1) as nat, dead);
    }
}

proof fn lemma_free_is_free(up: Seq<bool>, at: int, left: nat)
    requires
        up.len() == MAX_PARTICLES,
        0 <= at < MAX_PARTICLES,
    ensures
        free_from(up, at, left) matches Some(i) ==> 0 <= i < MAX_PARTICLES && !up[i],
    decreases left,
{
    if left > 0 && up[at] {
        lemma_free_is_free(up, after(at), (left - 1) as nat);
    }
}

/// The search comes back empty exactly when the pool is full.
proof fn lemma_free_unless_full(up: Seq<bool>, at: int)
    requires
        up.len() == MAX_PARTICLES,
        0 <= at < MAX_PARTICLES,
    ensures
        free_from(up, at, MAX_PARTICLES as nat) is None <==> count(up) == MAX_PARTICLES,
{
    lemma_count_full(up);
    if count(up) != MAX_PARTICLES {
        let dead = choose|i: int| 0 <= i < up.len() && !#[trigger] up[i];
        lemma_free_is_found(up, at, MAX_PARTICLES as nat, dead);
    } else {
        lemma_free_is_free(up, at, MAX_PARTICLES as nat);
        if let Some(i) = free_from(up, at, MAX_PARTICLES as nat) {
            assert(up[i]);
        }
    }
}

proof fn lemma_update_slot(slots: Seq<Slot>, i: int, with: Slot)
    requires
        0 <= i < slots.len(),
    ensures
        alive(slots.update(i, with)) == alive(slots).update(i, with.alive),
        glows(slots.update(i, with)) == glows(slots).update(i, with.alive && with.glow),
{
    assert(alive(slots.update(i, with)) =~= alive(slots).update(i, with.alive));
    assert(glows(slots.update(i, with)) =~= glows(slots).update(i, with.alive && with.glow));
}

/// An emission puts up as many particles as were asked for or as there is room for, each in a
/// slot of its own that was free. Nothing that was up is evicted: an overflow is dropped.
pub proof fn law_overflow_is_dropped(slots: Seq<Slot>, cursor: int, n: nat, with: Slot)
    requires
        slots.len() == MAX_PARTICLES,
        0 <= cursor < MAX_PARTICLES,
        with.alive,
    ensures
        ({
            let room = (MAX_PARTICLES - count(alive(slots))) as nat;
            let into = claimed(slots, cursor, n, with);
            let (now, next) = filled(slots, cursor, n, with);
            &&& into.len() == (if n <= room {
                n
            } else {
                room
            })
            &&& into.no_duplicates()
            &&& forall|j: int|
                0 <= j < into.len() ==> 0 <= #[trigger] into[j] < MAX_PARTICLES && !slots[into[j]].alive
                    && now[into[j]] == with
            &&& now.len() == MAX_PARTICLES
            &&& 0 <= next < MAX_PARTICLES
            &&& forall|i: int|
                0 <= i < MAX_PARTICLES && slots[i].alive ==> #[trigger] now[i] == slots[i]
            &&& forall|i: int|
                0 <= i < MAX_PARTICLES && !into.contains(i) ==> #[trigger] now[i] == slots[i]
            &&& count(alive(now)) == count(alive(slots)) + into.len()
            &&& count(glows(now)) == count(glows(slots)) + (if with.glow {
                into.len()
            } else {
                0
            })
        }),
    decreases n,
{
    let up = alive(slots);
    lemma_count_bound(up);
    if n > 0 {
        lemma_free_unless_full(up, cursor);
        lemma_free_is_free(up, cursor, MAX_PARTICLES as nat);
        if let Some(at) = free_from(up, cursor, MAX_PARTICLES as nat) {
            let more = slots.update(at, with);
            lemma_update_slot(slots, at, with);
            lemma_count_update(up, at, true);
            lemma_count_update(glows(slots), at, with.glow);
            law_overflow_is_dropped(more, after(at), (n - 1) as nat, with);
            let rest = claimed(more, after(at), (n - 1) as nat, with);
            let into = claimed(slots, cursor, n, with);
            let (now, _) = filled(slots, cursor, n, with);
            assert(into =~= seq![at] + rest);
            assert(more[at].alive);
            assert(!rest.contains(at)) by {
                if rest.contains(at) {
                    let j = rest.index_of(at);
                    assert(!more[rest[j]].alive);
                }
            }
            assert forall|i: int, j: int|
                0 <= i < into.len() && 0 <= j < into.len() && i != j implies into[i] != into[j] by {
                if i > 0 && j > 0 {
                    assert(rest[i - 1] != rest[j - 1]);
                } else if i == 0 {
                    assert(into[j] == rest[j - 1]);
                    assert(rest.contains(rest[j - 1]));
                } else {
                    assert(into[i] == rest[i - 1]);
                    assert(rest.contains(rest[i - 1]));
                }
            }
            assert forall|j: int| 0 <= j < into.len() implies 0 <= #[trigger] into[j]
                < MAX_PARTICLES && !slots[into[j]].alive && now[into[j]] == with by {
                if j == 0 {
                    assert(now[at] == more[at]);
                } else {
                    assert(into[j] == rest[j - 1]);
                    assert(rest.contains(rest[j - 1]));
                    assert(!more[rest[j - 1]].alive);
                }
            }
            assert forall|i: int| 0 <= i < MAX_PARTICLES && slots[i].alive implies #[trigger] now[i]
                == slots[i] by {
                assert(more[i] == slots[i]);
            }
            assert forall|i: int|
                0 <= i < MAX_PARTICLES && !into.contains(i) implies #[trigger] now[i]
                == slots[i] by {
                assert(into[0] == at);
                if rest.contains(i) {
                    let j = rest.index_of(i);
                    assert(into[j + 1] == i);
                }
                assert(more[i] == slots[i]);
            }
        }
    }
}

/// An emission goes into slots of the pool that were free, and moves the cursor on within it.
proof fn lemma_claims(slots: Seq<Slot>, cursor: int, n: nat, with: Slot)
    requires
        slots.len() == MAX_PARTICLES,
        0 <= cursor < MAX_PARTICLES,
    ensures
        ({
            let into = claimed(slots, cursor, n, with);
            let (now, next) = filled(slots, cursor, n, with);
            &&& into.len() <= n
            &&& forall|j: int|
                0 <= j < into.len() ==> 0 <= #[trigger] into[j] < MAX_PARTICLES && !slots[into[j]].alive
            &&& now.len() == MAX_PARTICLES
            &&& 0 <= next < MAX_PARTICLES
        }),
    decreases n,
{
    if n > 0 {
        lemma_free_is_free(alive(slots), cursor, MAX_PARTICLES as nat);
        if let Some(at) = free_from(alive(slots), cursor, MAX_PARTICLES as nat) {
            let more = slots.update(at, with);
            lemma_claims(more, after(at), (n - 1) as nat, with);
            let rest = claimed(more, after(at), (n - 1) as nat, with);
            let into = claimed(slots, cursor, n, with);
            assert(into =~= seq![at] + rest);
            assert forall|j: int| 0 <= j < into.len() implies 0 <= #[trigger] into[j]
                < MAX_PARTICLES && !slots[into[j]].alive by {
                if j > 0 {
                    assert(into[j] == rest[j - 1]);
                    assert(!more[rest[j - 1]].alive);
                }
            }
        }
    }
}

/// What is born with no life to live is never up: as many are up as before, as many glow, and
/// each of them is as it was.
pub proof fn law_born_dead_is_not_up(slots: Seq<Slot>, cursor: int, n: nat, with: Slot)
    requires
        slots.len() == MAX_PARTICLES,
        0 <= cursor < MAX_PARTICLES,
        !with.alive,
    ensures
        ({
            let (now, _) = filled(slots, cursor, n, with);
            &&& alive(now) == alive(slots)
            &&& glows(now) == glows(slots)
            &&& forall|i: int|
                0 <= i < MAX_PARTICLES && slots[i].alive ==> #[trigger] now[i] == slots[i]
        }),
    decreases n,
{
    if n > 0 {
        lemma_free_is_free(alive(slots), cursor, MAX_PARTICLES as nat);
        if let Some(at) = free_from(alive(slots), cursor, MAX_PARTICLES as nat) {
            let more = slots.update(at, with);
            lemma_update_slot(slots, at, with);
            assert(alive(more) =~= alive(slots));
            assert(glows(more) =~= glows(slots));
            law_born_dead_is_not_up(more, after(at), (n - 1) as nat, with);
            let (now, _) = filled(slots, cursor, n, with);
            assert forall|i: int| 0 <= i < MAX_PARTICLES && slots[i].alive implies #[trigger] now[i]
                == slots[i] by {
                assert(more[i] == slots[i]);
            }
        }
    }
}

/// `count` times a budget pulled back between zero and one, as binary32 numbers multiply, rounded
/// to the nearest whole number. A budget that is not a number leaves none.
pub open spec fn scaled(count: nat, budget: Number) -> nat {
    if !budget.is_number() {
        0
    } else {
        nearest(product(count, budget.clamped(num(0), num(ONE_BITS)).magnitude()))
    }
}

/// How many particles an emission of `count` puts up under a budget.
///
/// At least one whenever there was something to scale and the budget is not zero: an effect that
/// fires at a tenth should still be visible. And nothing out of nothing.
pub open spec fn budgeted(count: nat, budget: Number) -> nat {
    if count == 0 || budget.le_zero() {
        0
    } else if scaled(count, budget) == 0 {
        1
    } else if scaled(count, budget) > usize::MAX {
        usize::MAX as nat
    } else {
        scaled(count, budget)
    }
}

/// Thins an emission by a budget. See [`budgeted`].
pub fn js_budget(count: usize, budget: Number) -> (n: usize)
    ensures
        n == budgeted(count as nat, budget),
{
    if count == 0 || budget.is_at_most_zero() {
        return 0;
    }
    if budget.is_nan() {
        return 1;
    }
    let part: Number = budget.clamp(num(0), num(ONE_BITS));
    let n: u128 = times_nearest(count as u64, part.bits);
    if n == 0 {
        1
    } else if n > usize::MAX as u128 {
        usize::MAX
    } else {
        n as usize
    }
}

/// A budget only thins. An emission of up to 24 bits is never more than it asked for, is nothing
/// only out of nothing or without a budget, and is all of it under a full one.
pub proof fn law_budget_only_thins(count: nat, budget: Number)
    requires
        count < 0x100_0000,
    ensures
        budgeted(count, budget) <= count,
        budgeted(count, budget) == 0 <==> count == 0 || budget.le_zero(),
        num(ONE_BITS).le(budget) ==> budgeted(count, budget) == count,
{
    let part = budget.clamped(num(0), num(ONE_BITS));
    if budget.is_number() && !budget.le_zero() {
        law_scaling_does_not_grow(count, part.bits);
    }
}

/// More asked for, or more of a budget, puts up no fewer.
pub proof fn law_a_larger_budget_thins_no_more(
    fewer: nat,
    more: nat,
    tight: Number,
    loose: Number,
)
    requires
        fewer <= more,
        tight.le(loose),
    ensures
        budgeted(fewer, tight) <= budgeted(more, loose),
{
    let zero = num(0);
    let whole = num(ONE_BITS);
    let (a, b) = (tight.clamped(zero, whole), loose.clamped(zero, whole));
    lemma_values_in_order(a, b);
    lemma_steps_are_sizes(a);
    lemma_steps_are_sizes(b);
    if !tight.le_zero() {
        let (s, t) = (a.size(), b.size());
        lemma_rounded_goes_up(fewer, more);
        let (p, q) = (rounded(fewer), rounded(more));
        assert(p * s <= q * t) by (nonlinear_arith)
            requires
                0 <= p <= q,
                0 <= s <= t,
        ;
        lemma_rounded_goes_up(p * s, q * t);
        let (low, high) = (product(fewer, a.magnitude()), product(more, b.magnitude()));
        assert(low <= high);
        lemma_pow2_pos(150);
        lemma_div_is_ordered(
            (2 * low + pow2(149)) as int,
            (2 * high + pow2(149)) as int,
            pow2(150) as int,
        );
    }
}

/// What is solid round a particle's next step.
#[derive(Clone, Copy, Debug, PartialEq, Eq, Structural)]
pub struct Solidity {
    /// Where it is.
    pub here: bool,
    /// One step across, at the height it is at.
    pub across: bool,
    /// One step across and one down.
    pub across_down: bool,
    /// One step down, in the column it is in.
    pub down: bool,
}

/// Which way a particle bounces: across, and down.
///
/// One axis at a time, across and then down, so that one clipping a corner does not bounce off a
/// cell neither axis entered. A particle already inside rock is not colliding with it, and flies
/// back out on its own.
pub open spec fn flipped(collide: bool, solid: Solidity) -> (bool, bool) {
    let tested = collide && !solid.here;
    (
        tested && solid.across,
        tested && if solid.across {
            solid.down
        } else {
            solid.across_down
        },
    )
}

/// Which way a particle bounces. See [`flipped`].
pub fn bounces(collide: bool, solid: Solidity) -> (flips: (bool, bool))
    ensures
        flips == flipped(collide, solid),
{
    if !collide || solid.here {
        return (false, false);
    }
    if solid.across {
        (true, solid.down)
    } else {
        (false, solid.across_down)
    }
}

/// Whether a step of `dt` takes all of a life.
pub open spec fn runs_out(life: Number, dt: Number) -> bool {
    life.difference(dt).le_zero()
}

/// The particle pool.
#[derive(Clone, Debug)]
pub struct ParticleSystem {
    /// Fraction of every emission that is actually put up.
    budget: Number,
    slots: Vec<Slot>,
    /// Seconds that each slot has left.
    lives: Vec<Number>,
    /// Seconds that each slot had at birth.
    spans: Vec<Number>,
    /// Where each slot is, and what moves it.
    moves: Vec<Motion>,
    /// Where the next search for a free slot begins.
    cursor: usize,
    /// Particles that are up, maintained incrementally.
    live: usize,
    /// Those of them that glow.
    glowing: usize,
    /// The stream every jitter is drawn from.
    rng: JuiceRng,
}

/// The motion of a slot that nothing has been put in: at the origin, with nothing to move it.
#[verifier::allow_in_spec]
pub fn still() -> Motion
    returns
        (Motion {
            x: num(0),
            y: num(0),
            vx: num(0),
            vy: num(0),
            gravity: num(0),
            drag: num(0),
            wander: num(0),
            phase: num(0),
        }),
{
    let zero: Number = num(0);
    Motion {
        x: zero,
        y: zero,
        vx: zero,
        vy: zero,
        gravity: zero,
        drag: zero,
        wander: zero,
        phase: zero,
    }
}

/// A slot with nothing in it.
#[verifier::allow_in_spec]
pub fn empty_slot() -> Slot
    returns
        (Slot {
            alive: false,
            glow: false,
            fade_in: false,
            collide: false,
            rgb: Rgb { r: 0, g: 0, b: 0 },
            size: num(0),
        }),
{
    Slot {
        alive: false,
        glow: false,
        fade_in: false,
        collide: false,
        rgb: Rgb { r: 0, g: 0, b: 0 },
        size: num(0),
    }
}

/// A slot with one of these in it. One that is born with no life to live is not up.
#[verifier::allow_in_spec]
pub fn slot_of(opts: &EmitOpts) -> Slot
    returns
        (Slot {
            alive: !opts.life.le_zero(),
            glow: opts.glow && !opts.life.le_zero(),
            fade_in: opts.fade_in && !opts.life.le_zero(),
            collide: opts.collide && !opts.life.le_zero(),
            rgb: opts.color,
            size: opts.size,
        }),
{
    let lives: bool = !opts.life.is_at_most_zero();
    Slot {
        alive: lives,
        glow: opts.glow && lives,
        fade_in: opts.fade_in && lives,
        collide: opts.collide && lives,
        rgb: opts.color,
        size: opts.size,
    }
}

/// A particle born of these four words.
///
/// The launch angle is fanned across the spread, and speed and life are jittered, so that a burst
/// does not read as one rigid object: it keeps 0.6 to 1 of the speed, and 0.75 to 1.25 of the life.
pub open spec fn birth(slot: usize, words: (u32, u32, u32, u32), opts: EmitOpts) -> Birth {
    Birth {
        slot,
        angle: opts.angle.sum(
            unit(words.0).difference(num(0x3f00_0000)).product(opts.spread),
        ),
        speed: opts.speed.product(ranged(num(0x3f19_999a), num(ONE_BITS), words.1)),
        life: opts.life.product(ranged(num(0x3f40_0000), num(0x3fa0_0000), words.2)),
        phase: unit(words.3).product(num(TURN)),
    }
}

/// A particle gets a part of the life it was emitted with, which is some life just where that is.
proof fn lemma_a_part_lives(life: Number, word: u32)
    ensures
        life.product(ranged(num(0x3f40_0000), num(0x3fa0_0000), word)).le_zero() == life.le_zero(),
{
    let (low, high) = (num(0x3f40_0000), num(0x3fa0_0000));
    let part = ranged(low, high, word);
    lemma_small_difference(high, low);
    law_a_draw_is_in_its_range(low, high, word);
    reveal(Number::product);
    let d = pow2(149);
    lemma_pow2_pos(149);
    if life.is_finite() {
        lemma_values_in_order(low, part);
        lemma_values_in_order(life, life);
        lemma_steps_nonnegative(life.magnitude());
        if life.is_zero_spec() {
            assert(0 * part.size() == 0);
            lemma_ratio_vanishes(0, d);
        } else if !life.negative() {
            let (s, t) = (low.size(), pow2(147));
            lemma2_to64();
            lemma_pow2_adds(22, 125);
            lemma_pow2_adds(2, 147);
            lemma_pow2_pos(147);
            assert(s == 0xc0_0000 * pow2(125));
            assert(s == 3 * t && d == 4 * t);
            assert(s <= life.size() * part.size()) by (nonlinear_arith)
                requires
                    1 <= life.size(),
                    s <= part.size(),
            ;
            lemma_ratio_goes_up(s, life.size() * part.size(), d);
            lemma_basic_div(s as int, d as int);
            lemma_small_mod(s, d);
            assert(1 * d == d);
            assert(ratio(s, d) == 1);
            lemma_bits_increase(1, ratio(life.size() * part.size(), d));
        }
    }
}

/// The births of an emission into these slots, with the generator at `state`: four words to a
/// particle, in the order they are drawn.
pub open spec fn births(into: Seq<int>, state: u32, opts: EmitOpts) -> Seq<Birth> {
    Seq::new(
        into.len(),
        |j: int|
            birth(
                into[j] as usize,
                (
                    xorshift_iter(state, (4 * j + 1) as nat),
                    xorshift_iter(state, (4 * j + 2) as nat),
                    xorshift_iter(state, (4 * j + 3) as nat),
                    xorshift_iter(state, (4 * j + 4) as nat),
                ),
                opts,
            ),
    )
}

/// What each slot has to live, once the first `n` of some births have been given theirs.
pub open spec fn given(lives: Seq<Number>, born: Seq<Birth>, n: nat) -> Seq<Number>
    decreases n,
{
    if n == 0 {
        lives
    } else {
        given(lives, born, (n - 1) as nat).update(born[n - 1].slot as int, born[n - 1].life)
    }
}

/// Where each slot is, once the first `n` of some births have been put at a point.
pub open spec fn put(
    moves: Seq<Motion>,
    born: Seq<Birth>,
    x: Number,
    y: Number,
    opts: EmitOpts,
    n: nat,
) -> Seq<Motion>
    decreases n,
{
    if n == 0 {
        moves
    } else {
        put(moves, born, x, y, opts, (n - 1) as nat).update(
            born[n - 1].slot as int,
            Motion::placed(x, y, born[n - 1], opts),
        )
    }
}

/// How each slot moves, once the first `n` of some births have been thrown.
pub open spec fn sent(moves: Seq<Motion>, born: Seq<Birth>, turns: Seq<Turn>, n: nat) -> Seq<
    Motion,
>
    decreases n,
{
    if n == 0 {
        moves
    } else {
        let before = sent(moves, born, turns, (n - 1) as nat);
        let at = born[n - 1].slot as int;
        before.update(at, before[at].thrown(born[n - 1], turns[n - 1]))
    }
}

/// Everything the pool holds.
pub struct Pool {
    pub slots: Seq<Slot>,
    /// Seconds that each slot has left.
    pub lives: Seq<Number>,
    /// Seconds that each slot had at birth.
    pub spans: Seq<Number>,
    /// Where each slot is, and what moves it.
    pub moves: Seq<Motion>,
    pub cursor: int,
    pub state: u32,
    pub budget: Number,
}

/// The pool after an emission at a point.
pub open spec fn emitted(pool: Pool, x: Number, y: Number, count: nat, opts: EmitOpts) -> Pool {
    let n = budgeted(count, pool.budget);
    let (slots, cursor) = filled(pool.slots, pool.cursor, n, slot_of(&opts));
    let into = claimed(pool.slots, pool.cursor, n, slot_of(&opts));
    let born = births(into, pool.state, opts);
    Pool {
        slots,
        lives: given(pool.lives, born, born.len()),
        spans: given(pool.spans, born, born.len()),
        moves: put(pool.moves, born, x, y, opts, born.len()),
        cursor,
        state: xorshift_iter(pool.state, 4 * into.len()),
        budget: pool.budget,
    }
}

/// What an emission puts up.
pub open spec fn born(pool: Pool, count: nat, opts: EmitOpts) -> Seq<Birth> {
    let n = budgeted(count, pool.budget);
    births(claimed(pool.slots, pool.cursor, n, slot_of(&opts)), pool.state, opts)
}

/// How much of a particle shows, with `life` left of `span`: all of it at birth, and nothing at
/// death. One that fades in also comes up over the first fifth of its life.
pub open spec fn alpha_of(fade_in: bool, life: Number, span: Number) -> Number {
    let left = life.quotient(span);
    if !fade_in {
        left
    } else {
        let rise = num(ONE_BITS).difference(left).product(num(0x40a0_0000));
        left.product(
            if rise.lt(num(ONE_BITS)) {
                rise
            } else {
                num(ONE_BITS)
            },
        )
    }
}

fn fade(fade_in: bool, life: Number, span: Number) -> (alpha: Number)
    ensures
        alpha == alpha_of(fade_in, life, span),
{
    let left: Number = life.over(span);
    if !fade_in {
        return left;
    }
    let one: Number = num(ONE_BITS);
    let rise: Number = one.minus(left).times(num(0x40a0_0000));
    left.times(
        if rise.less(one) {
            rise
        } else {
            one
        },
    )
}

/// What a slot shows, or `None` if nothing is up there.
pub open spec fn shown(pool: Pool, i: int) -> Option<Particle> {
    let s = pool.slots[i];
    if s.alive {
        Some(
            Particle {
                x: pool.moves[i].x,
                y: pool.moves[i].y,
                size: s.size,
                rgb: s.rgb,
                alpha: alpha_of(s.fade_in, pool.lives[i], pool.spans[i]),
                glow: s.glow,
            },
        )
    } else {
        None
    }
}

/// The motion of a slot after a step of `dt`, with what is solid round it.
pub open spec fn moved(pool: Pool, i: int, dt: Number, drift: Turn, solid: Solidity) -> Motion {
    pool.moves[i].stepped(dt, drift, flipped(pool.slots[i].collide, solid))
}

/// A slot once what was in it is gone: it keeps its colour and size, and no flags.
pub open spec fn freed(s: Slot) -> Slot {
    Slot { rgb: s.rgb, size: s.size, ..empty_slot() }
}

/// The pool after a step of `dt`. A particle that runs out of life gives its slot back and stays
/// where it was; the others age and move; and nothing happens to a slot that was not up.
pub open spec fn updated(
    pool: Pool,
    dt: Number,
    drifts: Seq<Turn>,
    solid: Seq<Solidity>,
) -> Pool {
    let ends = |i: int| pool.slots[i].alive && runs_out(pool.lives[i], dt);
    let goes_on = |i: int| pool.slots[i].alive && !runs_out(pool.lives[i], dt);
    Pool {
        slots: Seq::new(
            pool.slots.len(),
            |i: int|
                if ends(i) {
                    freed(pool.slots[i])
                } else {
                    pool.slots[i]
                },
        ),
        lives: Seq::new(
            pool.lives.len(),
            |i: int|
                if ends(i) {
                    num(0)
                } else if goes_on(i) {
                    pool.lives[i].difference(dt)
                } else {
                    pool.lives[i]
                },
        ),
        moves: Seq::new(
            pool.moves.len(),
            |i: int|
                if goes_on(i) {
                    moved(pool, i, dt, drifts[i], solid[i])
                } else {
                    pool.moves[i]
                },
        ),
        ..pool
    }
}

/// The pool with nothing up: every slot is given back with no life left, and stays where it was.
pub open spec fn cleared(pool: Pool) -> Pool {
    Pool {
        slots: Seq::new(
            pool.slots.len(),
            |i: int|
                if pool.slots[i].alive {
                    freed(pool.slots[i])
                } else {
                    pool.slots[i]
                },
        ),
        lives: Seq::new(pool.lives.len(), |i: int| num(0)),
        ..pool
    }
}

/// A pool that nothing has been put in, with the generator at `state`.
pub open spec fn blank_pool(state: u32) -> Pool {
    Pool {
        slots: Seq::new(MAX_PARTICLES as nat, |i: int| empty_slot()),
        lives: Seq::new(MAX_PARTICLES as nat, |i: int| num(0)),
        spans: Seq::new(MAX_PARTICLES as nat, |i: int| num(0)),
        moves: Seq::new(MAX_PARTICLES as nat, |i: int| still()),
        cursor: 0,
        state,
        budget: num(ONE_BITS),
    }
}

impl ParticleSystem {
    /// Everything the pool holds.
    pub closed spec fn pool(&self) -> Pool {
        Pool {
            slots: self.slots@,
            lives: self.lives@,
            spans: self.spans@,
            moves: self.moves@,
            cursor: self.cursor as int,
            state: self.rng.state(),
            budget: self.budget,
        }
    }

    /// The counters agree with the slots, a slot is up just as long as it has life left, and one
    /// that is not up carries no flags.
    pub closed spec fn wf(&self) -> bool {
        &&& self.slots@.len() == MAX_PARTICLES
        &&& self.lives@.len() == MAX_PARTICLES
        &&& self.spans@.len() == MAX_PARTICLES
        &&& self.moves@.len() == MAX_PARTICLES
        &&& self.cursor < MAX_PARTICLES
        &&& self.live == count(alive(self.slots@))
        &&& self.glowing == count(glows(self.slots@))
        &&& self.rng.wf()
        &&& forall|i: int|
            0 <= i < MAX_PARTICLES ==> (#[trigger] self.slots@[i]).alive
                == !self.lives@[i].le_zero()
        &&& forall|i: int|
            0 <= i < MAX_PARTICLES && !(#[trigger] self.slots@[i]).alive ==> !self.slots@[i].glow
                && !self.slots@[i].fade_in && !self.slots@[i].collide
    }

    /// What holds of everything that a pool holds.
    pub proof fn law_a_pool_keeps_its_shape(&self)
        requires
            self.wf(),
        ensures
            self.pool().slots.len() == MAX_PARTICLES,
            self.pool().lives.len() == MAX_PARTICLES,
            self.pool().spans.len() == MAX_PARTICLES,
            self.pool().moves.len() == MAX_PARTICLES,
            0 <= self.pool().cursor < MAX_PARTICLES,
            self.pool().state != 0,
            forall|i: int|
                0 <= i < MAX_PARTICLES ==> (#[trigger] self.pool().slots[i]).alive
                    == !self.pool().lives[i].le_zero(),
            forall|i: int|
                0 <= i < MAX_PARTICLES && !(#[trigger] self.pool().slots[i]).alive
                    ==> !self.pool().slots[i].glow && !self.pool().slots[i].fade_in
                    && !self.pool().slots[i].collide,
    {
    }

    /// An empty pool.
    pub fn new() -> (pool: ParticleSystem)
        ensures
            pool.wf(),
            pool.pool() == blank_pool(crate::particles::rng::DEFAULT_STATE),
            is_aging(pool.pool()),
    {
        let mut slots: Vec<Slot> = Vec::new();
        let mut lives: Vec<Number> = Vec::new();
        let mut spans: Vec<Number> = Vec::new();
        let mut moves: Vec<Motion> = Vec::new();
        while slots.len() < MAX_PARTICLES
            invariant
                slots.len() <= MAX_PARTICLES,
                lives.len() == slots.len(),
                spans.len() == slots.len(),
                moves.len() == slots.len(),
                slots@ =~= Seq::new(slots@.len(), |i: int| empty_slot()),
                lives@ =~= Seq::new(slots@.len(), |i: int| num(0)),
                spans@ =~= Seq::new(slots@.len(), |i: int| num(0)),
                moves@ =~= Seq::new(slots@.len(), |i: int| still()),
            decreases MAX_PARTICLES - slots.len(),
        {
            slots.push(empty_slot());
            lives.push(num(0));
            spans.push(num(0));
            moves.push(still());
        }
        proof {
            lemma_count_none(alive(slots@));
            lemma_count_none(glows(slots@));
        }
        ParticleSystem {
            budget: num(ONE_BITS),
            slots,
            lives,
            spans,
            moves,
            cursor: 0,
            live: 0,
            glowing: 0,
            rng: JuiceRng::new(),
        }
    }

    /// An empty pool whose jitter comes off `seed`.
    pub fn seeded(seed: u32) -> (pool: ParticleSystem)
        ensures
            pool.wf(),
            pool.pool() == blank_pool(
                if seed == 0 {
                    crate::particles::rng::DEFAULT_STATE
                } else {
                    seed
                },
            ),
            is_aging(pool.pool()),
    {
        let mut p: ParticleSystem = ParticleSystem::new();
        p.rng = JuiceRng::seeded(seed);
        p
    }

    /// Sets the fraction of every emission that is actually put up.
    pub fn set_budget(&mut self, budget: Number)
        requires
            old(self).wf(),
        ensures
            final(self).wf(),
            final(self).pool() == (Pool { budget, ..old(self).pool() }),
    {
        self.budget = budget;
    }

    /// The fraction of every emission that is actually put up.
    pub fn budget(&self) -> (budget: Number)
        ensures
            budget == self.pool().budget,
    {
        self.budget
    }

    /// How many particles are up.
    pub fn live_count(&self) -> (n: usize)
        requires
            self.wf(),
        ensures
            n == count(alive(self.pool().slots)),
    {
        self.live
    }

    /// How many of those glow. Zero means the glow pass has nothing to do.
    pub fn glow_count(&self) -> (n: usize)
        requires
            self.wf(),
        ensures
            n == count(glows(self.pool().slots)),
    {
        self.glowing
    }

    /// What is in slot `i`, or `None` if nothing is up there.
    pub fn slot(&self, i: usize) -> (slot: Option<Particle>)
        requires
            self.wf(),
            i < MAX_PARTICLES,
        ensures
            slot == shown(self.pool(), i as int),
    {
        let s: Slot = self.slots[i];
        if !s.alive {
            return None;
        }
        let at: Motion = self.moves[i];
        Some(
            Particle {
                x: at.x,
                y: at.y,
                size: s.size,
                rgb: s.rgb,
                alpha: fade(s.fade_in, self.lives[i], self.spans[i]),
                glow: s.glow,
            },
        )
    }

    /// Where slot `i` is, and what moves it. It stays as it was once the particle is gone.
    pub fn motion(&self, i: usize) -> (motion: Motion)
        requires
            self.wf(),
            i < MAX_PARTICLES,
        ensures
            motion == self.pool().moves[i as int],
    {
        self.moves[i]
    }

    /// The one pass that draws slot `i`, or `None` if nothing is up there.
    pub fn pass_of(&self, i: usize) -> (pass: Option<Pass>)
        requires
            self.wf(),
            i < MAX_PARTICLES,
        ensures
            pass == Some(Pass::Glow) <==> glows(self.pool().slots)[i as int],
            pass == Some(Pass::Sprite) <==> alive(self.pool().slots)[i as int] && !glows(
                self.pool().slots,
            )[i as int],
            pass is None <==> !alive(self.pool().slots)[i as int],
    {
        let s: Slot = self.slots[i];
        if !s.alive {
            None
        } else if s.glow {
            Some(Pass::Glow)
        } else {
            Some(Pass::Sprite)
        }
    }

    /// A free slot from the cursor round the ring, or `None` if the pool is full.
    fn claim(&mut self) -> (at: Option<usize>)
        requires
            old(self).wf(),
        ensures
            final(self).wf(),
            match free_from(
                alive(old(self).pool().slots),
                old(self).pool().cursor,
                MAX_PARTICLES as nat,
            ) {
                Some(i) => at == Some(i as usize) && 0 <= i < MAX_PARTICLES
                    && !old(self).pool().slots[i].alive && final(self).pool() == (Pool {
                    cursor: after(i),
                    ..old(self).pool()
                }),
                None => at is None && final(self).pool() == old(self).pool(),
            },
    {
        let ghost up = alive(self.slots@);
        let ghost from = self.cursor as int;
        proof {
            lemma_free_unless_full(up, from);
            lemma_free_is_free(up, from, MAX_PARTICLES as nat);
        }
        if self.live >= MAX_PARTICLES {
            proof {
                lemma_count_bound(up);
            }
            return None;
        }
        let mut left: usize = MAX_PARTICLES;
        while left > 0
            invariant
                left <= MAX_PARTICLES,
                self.wf(),
                up == alive(self.slots@),
                self.pool() == (Pool { cursor: self.cursor as int, ..old(self).pool() }),
                free_from(up, from, MAX_PARTICLES as nat) is Some,
                free_from(up, from, MAX_PARTICLES as nat) == free_from(
                    up,
                    self.cursor as int,
                    left as nat,
                ),
                up == alive(old(self).pool().slots),
                from == old(self).pool().cursor,
                free_from(up, from, MAX_PARTICLES as nat) matches Some(i) ==> 0 <= i
                    < MAX_PARTICLES && !up[i],
            decreases left,
        {
            let i: usize = self.cursor;
            self.cursor = if self.cursor + 1 >= MAX_PARTICLES {
                0
            } else {
                self.cursor + 1
            };
            if !self.slots[i].alive {
                return Some(i);
            }
            left = left - 1;
        }
        None
    }

    /// Puts up `count` particles at a point, thinned by the budget.
    ///
    /// Overflow is dropped, not recycled. The births come back in order, for
    /// [`ParticleSystem::launch`] to throw.
    pub fn emit(&mut self, x: Number, y: Number, count: usize, opts: &EmitOpts) -> (out: Vec<Birth>)
        requires
            old(self).wf(),
        ensures
            final(self).wf(),
            final(self).pool() == emitted(old(self).pool(), x, y, count as nat, *opts),
            out@ == born(old(self).pool(), count as nat, *opts),
    {
        let n: usize = js_budget(count, self.budget);
        let with: Slot = slot_of(opts);
        let ghost start = self.pool();
        let ghost into = claimed(start.slots, start.cursor, n as nat, with);
        let mut out: Vec<Birth> = Vec::new();
        let mut k: usize = 0;
        proof {
            lemma_claims(start.slots, start.cursor, n as nat, with);
            assert(into =~= claimed(self.slots@, self.cursor as int, n as nat, with));
        }
        while k < n
            invariant
                k <= n,
                self.wf(),
                with == slot_of(opts),
                start == old(self).pool(),
                into == claimed(start.slots, start.cursor, n as nat, with),
                n == budgeted(count as nat, start.budget),
                self.budget == start.budget,
                out@.len() == k,
                k <= into.len(),
                filled(start.slots, start.cursor, n as nat, with) == filled(
                    self.slots@,
                    self.cursor as int,
                    (n - k) as nat,
                    with,
                ),
                into.skip(k as int) == claimed(
                    self.slots@,
                    self.cursor as int,
                    (n - k) as nat,
                    with,
                ),
                self.rng.state() == xorshift_iter(start.state, 4 * k as nat),
                out@ =~= births(into, start.state, *opts).take(k as int),
                self.lives@ == given(start.lives, births(into, start.state, *opts), k as nat),
                self.spans@ == given(start.spans, births(into, start.state, *opts), k as nat),
                self.moves@ == put(
                    start.moves,
                    births(into, start.state, *opts),
                    x,
                    y,
                    *opts,
                    k as nat,
                ),
                forall|j: int| 0 <= j < into.len() ==> 0 <= #[trigger] into[j] < MAX_PARTICLES,
            decreases n - k,
        {
            let ghost before = self.slots@;
            let ghost rest = into.skip(k as int);
            let ghost held = self.pool();
            proof {
                lemma_free_unless_full(alive(before), self.cursor as int);
            }
            match self.claim() {
                None => {
                    assert(rest.len() == 0);
                    assert(births(into, start.state, *opts).take(k as int) =~= births(
                        into,
                        start.state,
                        *opts,
                    ));
                    return out;
                },
                Some(i) => {
                    proof {
                        assert(rest.len() > 0);
                        assert(rest[0] == i as int);
                        assert(into[k as int] == i as int);
                        lemma_update_slot(before, i as int, with);
                        lemma_count_update(alive(before), i as int, with.alive);
                        lemma_count_update(glows(before), i as int, with.glow);
                        lemma_count_bound(alive(before));
                        lemma_count_bound(alive(before.update(i as int, with)));
                        lemma_count_bound(glows(before.update(i as int, with)));
                    }
                    let ghost at = self.rng.state();
                    let fan: Number = self.rng.rand().minus(num(0x3f00_0000));
                    let angle: Number = opts.angle.plus(fan.times(opts.spread));
                    let keep: Number = self.rng.rand_range(num(0x3f19_999a), num(ONE_BITS));
                    let speed: Number = opts.speed.times(keep);
                    let last: Number = self.rng.rand_range(num(0x3f40_0000), num(0x3fa0_0000));
                    let life: Number = opts.life.times(last);
                    let phase: Number = self.rng.rand().times(num(TURN));
                    let birth: Birth = Birth { slot: i, angle, speed, life, phase };
                    proof {
                        assert(at == xorshift_iter(start.state, (4 * k) as nat));
                        assert(xorshift(at) == xorshift_iter(start.state, (4 * k + 1) as nat));
                        assert(xorshift(xorshift(at)) == xorshift_iter(
                            start.state,
                            (4 * k + 2) as nat,
                        ));
                        assert(xorshift(xorshift(xorshift(at))) == xorshift_iter(
                            start.state,
                            (4 * k + 3) as nat,
                        ));
                        assert(self.rng.state() == xorshift_iter(start.state, (4 * k + 4) as nat));
                        assert(births(into, start.state, *opts)[k as int] == birth);
                        lemma_a_part_lives(opts.life, xorshift(xorshift(xorshift(at))));
                    }
                    self.lives.set(i, life);
                    self.spans.set(i, life);
                    self.moves.set(i, Motion::place(x, y, &birth, opts));
                    self.slots.set(i, with);
                    if with.alive {
                        self.live = self.live + 1;
                    }
                    if with.glow {
                        self.glowing = self.glowing + 1;
                    }
                    out.push(birth);
                    proof {
                        assert(into.skip(k as int + 1) =~= rest.skip(1));
                        assert(rest.skip(1) =~= claimed(
                            self.slots@,
                            self.cursor as int,
                            (n - k - 1) as nat,
                            with,
                        ));
                        assert forall|j: int|
                            0 <= j < MAX_PARTICLES && !(#[trigger] self.slots@[j]).alive implies
                            !self.slots@[j].glow && !self.slots@[j].fade_in
                            && !self.slots@[j].collide by {
                            if j != i {
                                assert(self.slots@[j] == before[j]);
                            }
                        }
                        assert forall|j: int| 0 <= j < MAX_PARTICLES implies (
                        #[trigger] self.slots@[j]).alive == !self.lives@[j].le_zero() by {
                            if j != i {
                                assert(self.slots@[j] == before[j]);
                            }
                        }
                    }
                },
            }
            k = k + 1;
        }
        proof {
            assert(into.skip(k as int).len() == 0);
            assert(births(into, start.state, *opts).take(k as int) =~= births(
                        into,
                        start.state,
                        *opts,
                    ));
        }
        out
    }

    /// Emit one whole [`Preset`].
    pub fn emit_preset(&mut self, x: Number, y: Number, preset: &Preset) -> (out: Vec<Birth>)
        requires
            old(self).wf(),
        ensures
            final(self).wf(),
            final(self).pool() == after_preset(old(self).pool(), x, y, *preset),
            out@ == born_of(old(self).pool(), *preset),
    {
        self.emit(x, y, preset.count, &preset.opts)
    }

    /// Impact debris in the material's own colour.
    pub fn burst(&mut self, x: Number, y: Number, color: Rgb) -> (out: Vec<Birth>)
        requires
            old(self).wf(),
        ensures
            final(self).wf(),
            final(self).pool() == after_preset(old(self).pool(), x, y, burst().tinted(color)),
            out@ == born_of(old(self).pool(), burst().tinted(color)),
    {
        self.emit_preset(x, y, &burst().tinted(color))
    }

    /// Landing puff, in the preset's own grey.
    pub fn dust(&mut self, x: Number, y: Number) -> (out: Vec<Birth>)
        requires
            old(self).wf(),
        ensures
            final(self).wf(),
            final(self).pool() == after_preset(old(self).pool(), x, y, dust()),
            out@ == born_of(old(self).pool(), dust()),
    {
        self.emit_preset(x, y, &dust())
    }

    /// Dash trail.
    pub fn trail(&mut self, x: Number, y: Number, color: Rgb) -> (out: Vec<Birth>)
        requires
            old(self).wf(),
        ensures
            final(self).wf(),
            final(self).pool() == after_preset(old(self).pool(), x, y, trail().tinted(color)),
            out@ == born_of(old(self).pool(), trail().tinted(color)),
    {
        self.emit_preset(x, y, &trail().tinted(color))
    }

    /// Liquid splash.
    pub fn splash(&mut self, x: Number, y: Number, color: Rgb) -> (out: Vec<Birth>)
        requires
            old(self).wf(),
        ensures
            final(self).wf(),
            final(self).pool() == after_preset(old(self).pool(), x, y, splash().tinted(color)),
            out@ == born_of(old(self).pool(), splash().tinted(color)),
    {
        self.emit_preset(x, y, &splash().tinted(color))
    }

    /// Ground puff in the colour of whatever is underfoot. The strength scales count, speed,
    /// spread, life and size together.
    pub fn puff(&mut self, x: Number, y: Number, color: Rgb, strength: Number) -> (out: Vec<Birth>)
        requires
            old(self).wf(),
        ensures
            final(self).wf(),
            final(self).pool() == after_preset(old(self).pool(), x, y, puff_of(color, strength)),
            out@ == born_of(old(self).pool(), puff_of(color, strength)),
    {
        self.emit_preset(x, y, &puffed(color, strength))
    }

    /// Wall-slide scrape. `dir` is the side the wall is on: positive is right.
    pub fn scrape(&mut self, x: Number, y: Number, dir: Number, color: Rgb) -> (out: Vec<Birth>)
        requires
            old(self).wf(),
        ensures
            final(self).wf(),
            final(self).pool() == after_preset(old(self).pool(), x, y, scrape_of(dir, color)),
            out@ == born_of(old(self).pool(), scrape_of(dir, color)),
    {
        self.emit_preset(x, y, &scraped(dir, color))
    }

    /// Dash smear. `dir` is the direction of travel; the motes go the other way.
    pub fn smear(&mut self, x: Number, y: Number, dir: Number, color: Rgb) -> (out: Vec<Birth>)
        requires
            old(self).wf(),
        ensures
            final(self).wf(),
            final(self).pool() == after_preset(old(self).pool(), x, y, smear_of(dir, color)),
            out@ == born_of(old(self).pool(), smear_of(dir, color)),
    {
        self.emit_preset(x, y, &smeared(dir, color))
    }

    /// Rising fire ember.
    pub fn ember(&mut self, x: Number, y: Number) -> (out: Vec<Birth>)
        requires
            old(self).wf(),
        ensures
            final(self).wf(),
            final(self).pool() == after_preset(old(self).pool(), x, y, ember()),
            out@ == born_of(old(self).pool(), ember()),
    {
        self.emit_preset(x, y, &ember())
    }

    /// One creature event's worth of juice, in the creature's own blood tone.
    pub fn mob_event(&mut self, x: Number, y: Number, kind: MobEventKind, color: Rgb) -> (out: MobBurst)
        requires
            old(self).wf(),
        ensures
            final(self).wf(),
            (final(self).pool(), out.splash@, out.puff@) == after_event(
                old(self).pool(),
                x,
                y,
                kind,
                color,
            ),
            ({
                let puffs = |pool: Pool, strength: u32|
                    (
                        after_preset(pool, x, y, puff_of(color, num(strength))),
                        born_of(pool, puff_of(color, num(strength))),
                    );
                let none = Seq::<Birth>::empty();
                let pool = old(self).pool();
                match kind {
                    MobEventKind::PlayerHit => (final(self).pool(), out.puff@) == puffs(
                        pool,
                        0x3f00_0000,
                    ) && out.splash@ == none,
                    MobEventKind::MobHurt => (final(self).pool(), out.puff@) == puffs(
                        pool,
                        0x3ecc_cccd,
                    ) && out.splash@ == none,
                    MobEventKind::MobDie => {
                        let splashed = after_preset(pool, x, y, splash().tinted(color));
                        &&& out.splash@ == born_of(pool, splash().tinted(color))
                        &&& (final(self).pool(), out.puff@) == puffs(splashed, 0x3f59_999a)
                    },
                    MobEventKind::PlayerChill => final(self).pool() == pool && out.splash@ == none
                        && out.puff@ == none,
                }
            }),
    {
        let juice: Vec<MobJuice> = mob_juice(kind);
        let mut out: MobBurst = MobBurst { splash: Vec::new(), puff: Vec::new() };
        if juice.len() > 1 {
            out.splash = self.splash(x, y, color);
        }
        if juice.len() > 0 {
            if let MobJuice::Puff(strength) = juice[juice.len() - 1] {
                out.puff = self.puff(x, y, color, strength);
            }
        }
        out
    }

    /// Throws some births, given the turn of each one's launch angle.
    pub fn launch(&mut self, births: &Vec<Birth>, turns: &Vec<Turn>)
        requires
            old(self).wf(),
            turns@.len() == births@.len(),
            forall|j: int| 0 <= j < births@.len() ==> (#[trigger] births@[j]).slot < MAX_PARTICLES,
        ensures
            final(self).wf(),
            final(self).pool() == (Pool {
                moves: sent(old(self).pool().moves, births@, turns@, births@.len()),
                ..old(self).pool()
            }),
    {
        let mut k: usize = 0;
        while k < births.len()
            invariant
                k <= births@.len(),
                self.wf(),
                turns@.len() == births@.len(),
                forall|j: int|
                    0 <= j < births@.len() ==> (#[trigger] births@[j]).slot < MAX_PARTICLES,
                self.pool() == (Pool {
                    moves: sent(old(self).pool().moves, births@, turns@, k as nat),
                    ..old(self).pool()
                }),
            decreases births@.len() - k,
        {
            let birth: Birth = births[k];
            let at: Motion = self.moves[birth.slot];
            self.moves.set(birth.slot, at.throw(&birth, turns[k]));
            k = k + 1;
        }
    }

    /// The two angles that the particle in slot `i` drifts by over a step of `dt`, or `None` if
    /// nothing is up there or it does not drift.
    pub fn drift(&self, i: usize, dt: Number) -> (angles: Option<(Number, Number)>)
        requires
            self.wf(),
            i < MAX_PARTICLES,
        ensures
            angles == (if self.pool().slots[i as int].alive
                && self.pool().moves[i as int].drifts() {
                Some(self.pool().moves[i as int].angles(dt))
            } else {
                None
            }),
    {
        if self.slots[i].alive && self.moves[i].is_drifting() {
            Some(self.moves[i].drift_angles(dt))
        } else {
            None
        }
    }

    /// Where the particle in slot `i` is and where a step of `dt` leads it, for the cells there to
    /// be looked up, or `None` if it is not up or does not bounce off anything.
    pub fn lead(&self, i: usize, dt: Number, drift: Turn) -> (legs: Option<
        ((Number, Number), (Number, Number)),
    >)
        requires
            self.wf(),
            i < MAX_PARTICLES,
        ensures
            legs == ({
                let m = self.pool().moves[i as int];
                let s = self.pool().slots[i as int];
                if s.alive && s.collide {
                    Some(((m.x, m.y), m.reached(m.velocity(dt, drift), dt)))
                } else {
                    None
                }
            }),
    {
        let s: Slot = self.slots[i];
        if s.alive && s.collide {
            let m: Motion = self.moves[i];
            Some(((m.x, m.y), m.advance(dt, drift).1))
        } else {
            None
        }
    }

    /// One step of `dt`: every particle that is up ages and moves, and those that run out of life
    /// give their slots back. `drifts` has the cosine and the sine of each slot's drift, and `solid`
    /// what is solid round its step.
    pub fn update(&mut self, dt: Number, drifts: &Vec<Turn>, solid: &Vec<Solidity>)
        requires
            old(self).wf(),
            drifts@.len() == MAX_PARTICLES,
            solid@.len() == MAX_PARTICLES,
        ensures
            final(self).wf(),
            final(self).pool() == updated(old(self).pool(), dt, drifts@, solid@),
            count(alive(final(self).pool().slots)) <= count(alive(old(self).pool().slots)),
            count(glows(final(self).pool().slots)) <= count(glows(old(self).pool().slots)),
            num(0).le(dt) && is_aging(old(self).pool()) ==> is_aging(final(self).pool()),
    {
        let ghost start = self.pool();
        let ghost goal = updated(start, dt, drifts@, solid@);
        let mut i: usize = 0;
        while i < MAX_PARTICLES
            invariant
                i <= MAX_PARTICLES,
                self.wf(),
                drifts@.len() == MAX_PARTICLES,
                solid@.len() == MAX_PARTICLES,
                self.cursor == start.cursor,
                self.rng.state() == start.state,
                self.budget == start.budget,
                self.spans@ == start.spans,
                start.slots.len() == MAX_PARTICLES,
                start.lives.len() == MAX_PARTICLES,
                start.moves.len() == MAX_PARTICLES,
                goal == updated(start, dt, drifts@, solid@),
                forall|j: int| 0 <= j < i ==> #[trigger] self.slots@[j] == goal.slots[j],
                forall|j: int| 0 <= j < i ==> #[trigger] self.lives@[j] == goal.lives[j],
                forall|j: int| 0 <= j < i ==> #[trigger] self.moves@[j] == goal.moves[j],
                forall|j: int|
                    i <= j < MAX_PARTICLES ==> #[trigger] self.slots@[j] == start.slots[j],
                forall|j: int|
                    i <= j < MAX_PARTICLES ==> #[trigger] self.lives@[j] == start.lives[j],
                forall|j: int|
                    i <= j < MAX_PARTICLES ==> #[trigger] self.moves@[j] == start.moves[j],
            decreases MAX_PARTICLES - i,
        {
            if self.slots[i].alive {
                let left: Number = self.lives[i].minus(dt);
                if left.is_at_most_zero() {
                    self.retire(i);
                } else {
                    let flips: (bool, bool) = bounces(self.slots[i].collide, solid[i]);
                    self.lives.set(i, left);
                    self.moves.set(i, self.moves[i].step(dt, drifts[i], flips));
                }
            }
            i = i + 1;
        }
        proof {
            assert(self.slots@ =~= goal.slots);
            assert(self.lives@ =~= goal.lives);
            assert(self.moves@ =~= goal.moves);
            lemma_count_goes_down(alive(start.slots), alive(self.slots@));
            lemma_count_goes_down(glows(start.slots), glows(self.slots@));
            if num(0).le(dt) && is_aging(start) {
                assert forall|j: int| 0 <= j < MAX_PARTICLES && (#[trigger] self.slots@[j]).alive
                    implies self.lives@[j].le(self.spans@[j]) && self.spans@[j].is_finite() by {
                    assert(start.slots[j].alive);
                    lemma_life_runs_down(start.lives[j], start.spans[j], dt);
                }
            }
        }
    }

    /// Return a slot to the pool.
    fn retire(&mut self, i: usize)
        requires
            old(self).wf(),
            i < MAX_PARTICLES,
            old(self).slots@[i as int].alive,
        ensures
            final(self).wf(),
            final(self).slots@ == old(self).slots@.update(
                i as int,
                freed(old(self).slots@[i as int]),
            ),
            final(self).lives@ == old(self).lives@.update(i as int, num(0)),
            final(self).spans == old(self).spans,
            final(self).moves == old(self).moves,
            final(self).cursor == old(self).cursor,
            final(self).rng == old(self).rng,
            final(self).budget == old(self).budget,
    {
        let s: Slot = self.slots[i];
        let free: Slot = Slot {
            alive: false,
            glow: false,
            fade_in: false,
            collide: false,
            rgb: s.rgb,
            size: s.size,
        };
        proof {
            lemma_update_slot(self.slots@, i as int, free);
            lemma_count_update(alive(self.slots@), i as int, false);
            lemma_count_update(glows(self.slots@), i as int, false);
        }
        if s.glow {
            self.glowing = self.glowing - 1;
        }
        self.slots.set(i, free);
        self.lives.set(i, num(0));
        self.live = self.live - 1;
    }

    /// Recycle everything: a respawn, a level reload.
    pub fn clear(&mut self)
        requires
            old(self).wf(),
        ensures
            final(self).wf(),
            final(self).pool() == cleared(old(self).pool()),
            count(alive(final(self).pool().slots)) == 0,
            count(glows(final(self).pool().slots)) == 0,
    {
        let ghost start = self.pool();
        let ghost goal = cleared(start);
        let mut i: usize = 0;
        while i < MAX_PARTICLES
            invariant
                i <= MAX_PARTICLES,
                self.wf(),
                self.cursor == start.cursor,
                self.rng.state() == start.state,
                self.budget == start.budget,
                self.spans@ == start.spans,
                self.moves@ == start.moves,
                start.slots.len() == MAX_PARTICLES,
                start.lives.len() == MAX_PARTICLES,
                goal == cleared(start),
                forall|j: int| 0 <= j < i ==> #[trigger] self.slots@[j] == goal.slots[j],
                forall|j: int| 0 <= j < i ==> #[trigger] self.lives@[j] == goal.lives[j],
                forall|j: int|
                    i <= j < MAX_PARTICLES ==> #[trigger] self.slots@[j] == start.slots[j],
                forall|j: int|
                    i <= j < MAX_PARTICLES ==> #[trigger] self.lives@[j] == start.lives[j],
            decreases MAX_PARTICLES - i,
        {
            if self.slots[i].alive {
                self.retire(i);
            } else {
                self.lives.set(i, num(0));
            }
            i = i + 1;
        }
        proof {
            assert(self.slots@ =~= goal.slots);
            assert(self.lives@ =~= goal.lives);
            lemma_count_none(alive(self.slots@));
            lemma_count_none(glows(self.slots@));
        }
    }
}

/// The pool after a preset was emitted at a point.
pub open spec fn after_preset(pool: Pool, x: Number, y: Number, preset: Preset) -> Pool {
    emitted(pool, x, y, preset.count as nat, preset.opts)
}

/// What a preset puts up.
pub open spec fn born_of(pool: Pool, preset: Preset) -> Seq<Birth> {
    born(pool, preset.count as nat, preset.opts)
}

/// A scrape off a wall on this side.
pub open spec fn scrape_of(dir: Number, color: Rgb) -> Preset {
    scrape().tinted(color).aimed(
        if num(0).lt(dir) {
            UP_LEFT
        } else {
            UP_RIGHT
        },
    )
}

/// A smear behind travel in this direction.
pub open spec fn smear_of(dir: Number, color: Rgb) -> Preset {
    smear().tinted(color).aimed(
        if num(0).lt(dir) {
            HALF_TURN
        } else {
            0
        },
    )
}

/// The pool after a creature event at a point, and what its splash and its puff put up.
pub open spec fn after_event(pool: Pool, x: Number, y: Number, kind: MobEventKind, color: Rgb) -> (
    Pool,
    Seq<Birth>,
    Seq<Birth>,
) {
    let none = Seq::<Birth>::empty();
    match kind {
        MobEventKind::PlayerHit => {
            let puff = puff_of(color, num(0x3f00_0000));
            (after_preset(pool, x, y, puff), none, born_of(pool, puff))
        },
        MobEventKind::MobHurt => {
            let puff = puff_of(color, num(0x3ecc_cccd));
            (after_preset(pool, x, y, puff), none, born_of(pool, puff))
        },
        MobEventKind::MobDie => {
            let (first, puff) = (splash().tinted(color), puff_of(color, num(0x3f59_999a)));
            let splashed = after_preset(pool, x, y, first);
            (
                after_preset(splashed, x, y, puff),
                born_of(pool, first),
                born_of(splashed, puff),
            )
        },
        MobEventKind::PlayerChill => (pool, none, none),
    }
}

/// What a creature event put up.
#[derive(Clone, Debug, PartialEq, Eq)]
pub struct MobBurst {
    pub splash: Vec<Birth>,
    pub puff: Vec<Birth>,
}

proof fn lemma_count_split(slots: Seq<Slot>)
    ensures
        count(alive(slots)) == count(glows(slots)) + count(
            slots.map_values(|s: Slot| s.alive && !s.glow),
        ),
    decreases slots.len(),
{
    let dull = slots.map_values(|s: Slot| s.alive && !s.glow);
    if slots.len() > 0 {
        let less = slots.drop_last();
        lemma_count_split(less);
        assert(alive(slots).drop_last() =~= alive(less));
        assert(glows(slots).drop_last() =~= glows(less));
        assert(dull.drop_last() =~= less.map_values(|s: Slot| s.alive && !s.glow));
    }
}

/// Every particle that is up is drawn by exactly one pass: those that glow and those that do not
/// add up to all of them.
pub proof fn law_every_particle_is_in_one_pass(slots: Seq<Slot>)
    ensures
        count(alive(slots)) == count(glows(slots)) + count(
            slots.map_values(|s: Slot| s.alive && !s.glow),
        ),
{
    lemma_count_split(slots);
}

/// A particle is all there at birth, or nothing of it is where it fades in.
pub proof fn law_fade_at_birth(fade_in: bool, life: Number)
    requires
        life.is_finite(),
        !life.is_zero_spec(),
    ensures
        !fade_in ==> alpha_of(fade_in, life, life) == num(ONE_BITS),
        fade_in ==> alpha_of(fade_in, life, life).is_zero_spec(),
{
    law_itself_goes_in_once(life);
    law_less_itself_is_zero(one());
    let gone = one().difference(one());
    law_times_zero_is_zero(num(0x40a0_0000), gone);
    let rise = gone.product(num(0x40a0_0000));
    law_times_zero_is_zero(one(), rise);
    assert(rise.lt(one()));
}

pub proof fn lemma_put(
    moves: Seq<Motion>,
    born: Seq<Birth>,
    x: Number,
    y: Number,
    opts: EmitOpts,
    n: nat,
    j: int,
)
    requires
        moves.len() == MAX_PARTICLES,
        0 <= j < n <= born.len(),
        forall|a: int| 0 <= a < born.len() ==> (#[trigger] born[a]).slot < MAX_PARTICLES,
        forall|a: int, b: int| 0 <= a < b < born.len() ==> born[a].slot != born[b].slot,
    ensures
        put(moves, born, x, y, opts, n).len() == MAX_PARTICLES,
        put(moves, born, x, y, opts, n)[born[j].slot as int] == Motion::placed(x, y, born[j], opts),
    decreases n,
{
    if j < n - 1 {
        lemma_put(moves, born, x, y, opts, (n - 1) as nat, j);
        assert(born[j].slot != born[n - 1].slot);
    } else {
        lemma_put_len(moves, born, x, y, opts, (n - 1) as nat);
    }
}

proof fn lemma_put_len(
    moves: Seq<Motion>,
    born: Seq<Birth>,
    x: Number,
    y: Number,
    opts: EmitOpts,
    n: nat,
)
    requires
        n <= born.len(),
        forall|a: int| 0 <= a < born.len() ==> (#[trigger] born[a]).slot < moves.len(),
    ensures
        put(moves, born, x, y, opts, n).len() == moves.len(),
    decreases n,
{
    if n > 0 {
        lemma_put_len(moves, born, x, y, opts, (n - 1) as nat);
        assert(born[n - 1].slot < moves.len());
    }
}

proof fn lemma_sent(moves: Seq<Motion>, born: Seq<Birth>, turns: Seq<Turn>, n: nat, at: int)
    requires
        moves.len() == MAX_PARTICLES,
        n <= born.len(),
        0 <= at < MAX_PARTICLES,
        forall|a: int| 0 <= a < born.len() ==> (#[trigger] born[a]).slot < MAX_PARTICLES,
        forall|a: int, b: int| 0 <= a < b < born.len() ==> born[a].slot != born[b].slot,
    ensures
        sent(moves, born, turns, n).len() == MAX_PARTICLES,
        (forall|a: int| 0 <= a < n ==> (#[trigger] born[a]).slot != at) ==> sent(
            moves,
            born,
            turns,
            n,
        )[at] == moves[at],
        forall|a: int|
            0 <= a < n && (#[trigger] born[a]).slot == at ==> sent(moves, born, turns, n)[at]
                == moves[at].thrown(born[a], turns[a]),
    decreases n,
{
    if n > 0 {
        lemma_sent(moves, born, turns, (n - 1) as nat, at);
    }
}

/// An emission with life in it that is thrown flies: each of its particles is at the point, with
/// the velocity of its own birth, and every particle that was up before is where it was.
pub proof fn law_a_thrown_emission_flies(
    pool: Pool,
    x: Number,
    y: Number,
    count: nat,
    opts: EmitOpts,
    turns: Seq<Turn>,
    j: int,
    other: int,
)
    requires
        pool.slots.len() == MAX_PARTICLES,
        pool.moves.len() == MAX_PARTICLES,
        0 <= pool.cursor < MAX_PARTICLES,
        turns.len() == born(pool, count, opts).len(),
        0 <= j < turns.len(),
        0 <= other < MAX_PARTICLES,
        pool.slots[other].alive,
        !opts.life.le_zero(),
    ensures
        ({
            let births = born(pool, count, opts);
            let now = sent(emitted(pool, x, y, count, opts).moves, births, turns, births.len());
            &&& now[births[j].slot as int] == Motion::placed(x, y, births[j], opts).thrown(
                births[j],
                turns[j],
            )
            &&& now[other] == pool.moves[other]
        }),
{
    let n = budgeted(count, pool.budget);
    let with = slot_of(&opts);
    let into = claimed(pool.slots, pool.cursor, n, with);
    let births = born(pool, count, opts);
    law_overflow_is_dropped(pool.slots, pool.cursor, n, with);
    assert forall|a: int| 0 <= a < births.len() implies (#[trigger] births[a]).slot == into[a]
        && births[a].slot < MAX_PARTICLES by {}
    assert forall|a: int, b: int| 0 <= a < b < births.len() implies births[a].slot
        != births[b].slot by {
        assert(into[a] != into[b]);
    }
    let placed = put(pool.moves, births, x, y, opts, births.len());
    lemma_put(pool.moves, births, x, y, opts, births.len(), j);
    lemma_sent(placed, births, turns, births.len(), births[j].slot as int);
    assert forall|a: int| 0 <= a < births.len() implies (#[trigger] births[a]).slot != other by {
        assert(!pool.slots[into[a]].alive);
    }
    lemma_sent(placed, births, turns, births.len(), other);
    lemma_put_others(pool.moves, births, x, y, opts, births.len(), other);
}

proof fn lemma_put_others(
    moves: Seq<Motion>,
    born: Seq<Birth>,
    x: Number,
    y: Number,
    opts: EmitOpts,
    n: nat,
    other: int,
)
    requires
        n <= born.len(),
        0 <= other < moves.len(),
        forall|a: int| 0 <= a < born.len() ==> (#[trigger] born[a]).slot < moves.len()
            && born[a].slot != other,
    ensures
        put(moves, born, x, y, opts, n).len() == moves.len(),
        put(moves, born, x, y, opts, n)[other] == moves[other],
    decreases n,
{
    if n > 0 {
        lemma_put_others(moves, born, x, y, opts, (n - 1) as nat, other);
        assert(born[n - 1].slot != other);
    }
}

/// Whether each particle that is up has some life left, and no more than it was born with.
pub open spec fn is_aging(pool: Pool) -> bool {
    forall|i: int|
        0 <= i < pool.slots.len() && (#[trigger] pool.slots[i]).alive ==> !pool.lives[i].le_zero()
            && pool.lives[i].le(pool.spans[i]) && pool.spans[i].is_finite()
}

/// What shows of a particle with some of its life left is between nothing and all of it.
pub proof fn law_alpha_is_within(fade_in: bool, life: Number, span: Number)
    requires
        !life.le_zero(),
        life.le(span),
        span.is_finite(),
    ensures
        num(0).le(alpha_of(fade_in, life, span)),
        alpha_of(fade_in, life, span).le(one()),
{
    let left = life.quotient(span);
    law_quotients_keep_order(life, span, span);
    law_itself_goes_in_once(span);
    law_quotients_keep_order(num(0), life, span);
    lemma_zero_over(num(0), span);
    if fade_in {
        law_differences_turn_order(one(), left, one());
        law_less_itself_is_zero(one());
        law_differences_turn_order(one(), num(0), left);
        law_zero_adds_nothing(one(), num(0).negated());
        let gone = one().difference(left);
        lemma_product_is_number(gone, num(0x40a0_0000));
        let rise = gone.product(num(0x40a0_0000));
        let part = if rise.lt(num(ONE_BITS)) {
            rise
        } else {
            num(ONE_BITS)
        };
        law_products_keep_order(num(0), gone, num(0x40a0_0000));
        law_times_zero_is_zero(num(0x40a0_0000), num(0));
        law_products_commute(num(0), num(0x40a0_0000));
        law_a_part_is_no_larger(left, part);
        lemma_product_is_number(left, part);
        assert(!left.negative()) by {
            reveal(Number::quotient);
        }
        law_products_keep_order(num(0), part, left);
        law_products_commute(part, left);
        law_products_commute(num(0), left);
        law_times_zero_is_zero(left, num(0));
    }
}

/// What is drawn of a pool that only ages is within nothing and all of it.
pub proof fn law_a_shown_particle_is_no_more_than_whole(pool: Pool, i: int)
    requires
        is_aging(pool),
        0 <= i < pool.slots.len(),
    ensures
        shown(pool, i) matches Some(p) ==> num(0).le(p.alpha) && p.alpha.le(one()),
{
    if pool.slots[i].alive {
        law_alpha_is_within(pool.slots[i].fade_in, pool.lives[i], pool.spans[i]);
    }
}

pub proof fn lemma_given(lives: Seq<Number>, born: Seq<Birth>, n: nat, at: int)
    requires
        n <= born.len(),
        0 <= at < lives.len(),
        forall|a: int| 0 <= a < born.len() ==> (#[trigger] born[a]).slot < lives.len(),
    ensures
        given(lives, born, n).len() == lives.len(),
        (forall|a: int| 0 <= a < n ==> (#[trigger] born[a]).slot != at) ==> given(
            lives,
            born,
            n,
        )[at] == lives[at],
        (exists|a: int| 0 <= a < n && (#[trigger] born[a]).slot == at) ==> exists|a: int|
            0 <= a < n && (#[trigger] born[a]).slot == at && given(lives, born, n)[at]
                == born[a].life,
    decreases n,
{
    if n > 0 {
        lemma_given(lives, born, (n - 1) as nat, at);
        assert(born[n - 1].slot < lives.len());
        if born[n - 1].slot == at {
            assert(given(lives, born, n)[at] == born[n - 1].life);
        }
    }
}

proof fn lemma_given_alike(lives: Seq<Number>, spans: Seq<Number>, born: Seq<Birth>, n: nat, j: int)
    requires
        lives.len() == spans.len(),
        0 <= j < n <= born.len(),
        forall|a: int| 0 <= a < born.len() ==> (#[trigger] born[a]).slot < lives.len(),
    ensures
        given(lives, born, n)[born[j].slot as int] == given(spans, born, n)[born[j].slot as int],
    decreases n,
{
    let at = born[j].slot as int;
    assert(born[j].slot < lives.len());
    assert(born[n - 1].slot < lives.len());
    lemma_given(lives, born, (n - 1) as nat, at);
    lemma_given(spans, born, (n - 1) as nat, at);
    if j < n - 1 && born[n - 1].slot != at {
        lemma_given_alike(lives, spans, born, (n - 1) as nat, j);
    }
}

/// A pool that only ages still does after an emission of finite lives.
pub proof fn law_an_emission_ages(pool: Pool, x: Number, y: Number, count: nat, opts: EmitOpts)
    requires
        pool.slots.len() == MAX_PARTICLES,
        pool.lives.len() == MAX_PARTICLES,
        pool.spans.len() == MAX_PARTICLES,
        0 <= pool.cursor < MAX_PARTICLES,
        is_aging(pool),
        forall|j: int|
            0 <= j < born(pool, count, opts).len() ==> (#[trigger] born(
                pool,
                count,
                opts,
            )[j]).life.is_finite(),
    ensures
        is_aging(emitted(pool, x, y, count, opts)),
{
    let n = budgeted(count, pool.budget);
    let with = slot_of(&opts);
    let into = claimed(pool.slots, pool.cursor, n, with);
    let born = born(pool, count, opts);
    let now = emitted(pool, x, y, count, opts);
    lemma_claims(pool.slots, pool.cursor, n, with);
    assert forall|a: int| 0 <= a < born.len() implies (#[trigger] born[a]).slot == into[a]
        && born[a].slot < MAX_PARTICLES && born[a].life.le_zero() == opts.life.le_zero() by {
        lemma_a_part_lives(opts.life, xorshift_iter(pool.state, (4 * a + 3) as nat));
    }
    if with.alive {
        law_overflow_is_dropped(pool.slots, pool.cursor, n, with);
    } else {
        law_born_dead_is_not_up(pool.slots, pool.cursor, n, with);
    }
    assert forall|i: int| 0 <= i < now.slots.len() && (#[trigger] now.slots[i]).alive implies
        !now.lives[i].le_zero() && now.lives[i].le(now.spans[i]) && now.spans[i].is_finite() by {
        lemma_given(pool.lives, born, born.len(), i);
        lemma_given(pool.spans, born, born.len(), i);
        if exists|a: int| 0 <= a < born.len() && (#[trigger] born[a]).slot == i {
            let j = choose|a: int|
                0 <= a < born.len() && (#[trigger] born[a]).slot == i && given(
                    pool.lives,
                    born,
                    born.len(),
                )[i] == born[a].life;
            lemma_given_alike(pool.lives, pool.spans, born, born.len(), j);
            assert(!pool.slots[into[j]].alive);
            if !with.alive {
                assert(alive(now.slots)[i] == alive(pool.slots)[i]);
            }
        } else {
            if with.alive && into.contains(i) {
                let j = into.index_of(i);
                assert(born[j].slot == i);
            }
            if !with.alive {
                assert(alive(now.slots)[i] == alive(pool.slots)[i]);
            }
            assert(now.slots[i] == pool.slots[i]);
        }
    }
}

/// Time that does not run back leaves no more life than there was.
proof fn lemma_life_runs_down(life: Number, span: Number, dt: Number)
    requires
        life.le(span),
        span.is_finite(),
        !life.le_zero(),
        num(0).le(dt),
        !runs_out(life, dt),
    ensures
        life.difference(dt).le(span),
{
    if dt.is_finite() {
        law_differences_turn_order(life, num(0), dt);
        law_zero_adds_nothing(life, num(0).negated());
    } else {
        reveal(Number::sum);
    }
}

proof fn lemma_count_goes_down(before: Seq<bool>, now: Seq<bool>)
    requires
        now.len() == before.len(),
        forall|i: int| 0 <= i < now.len() && #[trigger] now[i] ==> before[i],
    ensures
        count(now) <= count(before),
    decreases now.len(),
{
    if now.len() > 0 {
        lemma_count_goes_down(before.drop_last(), now.drop_last());
    }
}

} // verus!
