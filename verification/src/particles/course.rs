//! The course of a particle: what it is born with, what a step does to it and to nothing else, and
//! where it is drawn.

use vstd::arithmetic::power2::*;
use vstd::prelude::*;

use crate::arith::{
    law_a_part_is_no_larger, law_products_commute, law_times_one_is_itself, law_times_zero_is_zero,
    lemma_one, lemma_size_is_exact, lemma_small_difference, one,
};
use crate::number::{Number, num};
use crate::order::{
    law_products_keep_order, law_quotients_keep_order, law_sums_keep_order, lemma_nothing_more,
    lemma_sums_commute, lemma_values_in_order,
};
use crate::particles::motion::Turn;
use crate::particles::presets::{
    EmitOpts, MobEventKind, MobJuice, TURN, UP, juice_of, lemma_puff_grows, puff_of, splash,
};
use crate::particles::rng::{
    law_a_draw_is_below_one, law_a_draw_is_in_its_range, ranged, unit, xorshift_iter,
};
use crate::particles::system::{
    MAX_PARTICLES, Pool, Solidity, after_event, alpha_of, birth, births, born, budgeted, claimed,
    cleared, emitted, flipped, law_overflow_is_dropped, lemma_given, lemma_put, scrape_of, shown,
    slot_of, smear_of, updated,
};
use crate::sprite::bake::Rgb;
use crate::whole::{is_whole, law_whole_differences_are_exact};

verus! {

/// A step never ends in rock it did not start in: whichever axes a colliding particle bounces on,
/// the cell that the other moves lead to is not solid. And it bounces only off a cell that is.
pub proof fn law_a_step_ends_outside_rock(collide: bool, solid: Solidity)
    ensures
        ({
            let (x, y) = flipped(collide, solid);
            let end = if x && y {
                solid.here
            } else if x {
                solid.down
            } else if y {
                solid.across
            } else {
                solid.across_down
            };
            &&& collide && !solid.here ==> !end
            &&& x ==> collide && !solid.here && solid.across
            &&& y && x ==> solid.down
            &&& y && !x ==> collide && !solid.here && solid.across_down
            &&& !collide || solid.here ==> !x && !y
        }),
{
}

/// A step changes each slot by what that slot holds and nothing else: one that is not up stays as it
/// is, one whose life does not outlast the step is given back where it was, and one that goes on has
/// lived that much longer and has moved. No step changes a colour, a size, what was had at birth,
/// where the next search begins, what is drawn next or the budget.
pub proof fn law_a_step_is_slot_by_slot(
    pool: Pool,
    dt: Number,
    drifts: Seq<Turn>,
    solid: Seq<Solidity>,
    i: int,
    life: int,
    t: int,
)
    requires
        pool.lives.len() == pool.slots.len(),
        pool.moves.len() == pool.slots.len(),
        0 <= i < pool.slots.len(),
    ensures
        ({
            let next = updated(pool, dt, drifts, solid);
            let (was, now) = (pool.slots[i], next.slots[i]);
            &&& next.slots.len() == pool.slots.len()
            &&& next.lives.len() == pool.slots.len()
            &&& next.moves.len() == pool.slots.len()
            &&& now.rgb == was.rgb
            &&& now.size == was.size
            &&& now.alive ==> now == was
            &&& !was.alive ==> now == was && next.lives[i] == pool.lives[i] && next.moves[i]
                == pool.moves[i]
            &&& !now.alive ==> next.moves[i] == pool.moves[i]
            &&& !now.alive && was.alive ==> next.lives[i].is_zero_spec() && !now.glow && !now.fade_in
                && !now.collide
            &&& was.alive && is_whole(pool.lives[i], life) && is_whole(dt, t) && -0x100_0000 < life
                - t < 0x100_0000 ==> now.alive == (t < life) && (t < life ==> is_whole(
                next.lives[i],
                life - t,
            ))
            &&& now.alive && !was.collide ==> next.moves[i] == pool.moves[i].stepped(
                dt,
                drifts[i],
                (false, false),
            )
            &&& now.alive && was.collide && !solid[i].here && solid[i].across ==> next.moves[i].x
                == pool.moves[i].x
            &&& next.spans == pool.spans
            &&& next.cursor == pool.cursor
            &&& next.state == pool.state
            &&& next.budget == pool.budget
        }),
{
    if is_whole(pool.lives[i], life) && is_whole(dt, t) && -0x100_0000 < life - t < 0x100_0000 {
        law_whole_differences_are_exact(pool.lives[i], dt, life, t);
        lemma_values_in_order(pool.lives[i].difference(dt), num(0));
        lemma_pow2_pos(149);
        assert(((life - t) * pow2(149) <= 0) == (life <= t))
            by (nonlinear_arith)
            requires
                pow2(149) > 0,
        ;
    }
}

/// Clearing takes everything down and moves nothing.
pub proof fn law_clearing_takes_all_down(pool: Pool, i: int)
    requires
        pool.lives.len() == pool.slots.len(),
        0 <= i < pool.slots.len(),
    ensures
        !cleared(pool).slots[i].alive,
        shown(cleared(pool), i) is None,
        cleared(pool).lives[i].is_zero_spec(),
        cleared(pool).moves == pool.moves,
        cleared(pool).state == pool.state,
        cleared(pool).budget == pool.budget,
{
}

/// What is drawn of a slot is what is in it: nothing where nothing is up, and else a square where
/// the slot is, in its own colour and size. One that does not fade in shows no more the less life
/// it has left of the same span.
pub proof fn law_a_slot_shows_what_is_in_it(pool: Pool, i: int)
    requires
        0 <= i < pool.slots.len(),
    ensures
        shown(pool, i) is Some <==> pool.slots[i].alive,
        shown(pool, i) matches Some(p) ==> p.x == pool.moves[i].x && p.y == pool.moves[i].y && p.rgb
            == pool.slots[i].rgb && p.size == pool.slots[i].size && p.glow == pool.slots[i].glow,
{
}

/// A particle fades as it ages: with less of its life left it shows no more, unless it is still
/// coming up.
pub proof fn law_a_particle_fades(life: Number, less: Number, span: Number)
    requires
        less.le(life),
        span.is_finite(),
        num(0).lt(span),
    ensures
        alpha_of(false, less, span).le(alpha_of(false, life, span)),
{
    law_quotients_keep_order(less, life, span);
}

/// A birth keeps to what was asked for: from 0.6 of the speed to all of it, from 0.75 of the life to
/// 1.25 of it, each by a draw of its own. It goes into the slot it was given.
pub proof fn law_a_birth_keeps_to_its_options(
    slot: usize,
    words: (u32, u32, u32, u32),
    opts: EmitOpts,
)
    requires
        opts.speed.is_finite(),
        !opts.speed.negative(),
        opts.life.is_finite(),
        !opts.life.negative(),
    ensures
        ({
            let b = birth(slot, words, opts);
            &&& b.slot == slot
            &&& opts.speed.product(num(0x3f19_999a)).le(b.speed)
            &&& b.speed.le(opts.speed)
            &&& opts.life.product(num(0x3f40_0000)).le(b.life)
            &&& b.life.le(opts.life.product(num(0x3fa0_0000)))
        }),
{
    lemma_part_of(opts.speed, num(0x3f19_999a), one(), words.1);
    lemma_part_of(opts.life, num(0x3f40_0000), num(0x3fa0_0000), words.2);
    law_times_one_is_itself(opts.speed);
}

proof fn lemma_part_of(n: Number, lo: Number, hi: Number, word: u32)
    requires
        n.is_finite(),
        !n.negative(),
        lo.magnitude() < 0x4380_0000,
        hi.magnitude() < 0x4380_0000,
        lo.lt(hi),
    ensures
        n.product(lo).le(n.product(ranged(lo, hi, word))),
        n.product(ranged(lo, hi, word)).le(n.product(hi)),
{
    lemma_small_difference(hi, lo);
    law_a_draw_is_in_its_range(lo, hi, word);
    let part = ranged(lo, hi, word);
    law_products_keep_order(lo, part, n);
    law_products_keep_order(part, hi, n);
    law_products_commute(lo, n);
    law_products_commute(part, n);
    law_products_commute(hi, n);
}

/// A birth is thrown within half of the spread to either side of the angle that was asked for, and
/// starts its drift within one turn.
pub proof fn law_a_birth_is_thrown_within_its_spread(
    slot: usize,
    words: (u32, u32, u32, u32),
    opts: EmitOpts,
)
    requires
        opts.angle.is_finite(),
        opts.spread.is_finite(),
        !opts.spread.negative(),
    ensures
        ({
            let b = birth(slot, words, opts);
            let half = num(0x3f00_0000);
            &&& opts.angle.sum(half.negated().product(opts.spread)).le(b.angle)
            &&& b.angle.le(opts.angle.sum(half.product(opts.spread)))
            &&& num(0).le(b.phase)
            &&& b.phase.le(num(TURN))
        }),
{
    let half = num(0x3f00_0000);
    law_a_draw_is_below_one(words.0);
    law_a_draw_is_below_one(words.3);
    let off = unit(words.0).difference(half);
    law_sums_keep_order(num(0), unit(words.0), half.negated());
    law_sums_keep_order(unit(words.0), one(), half.negated());
    lemma_nothing_more(half.negated(), num(0));
    assert(one().difference(half) == half) by {
        lemma_halves();
    }
    assert(half.negated().le(off) && off.le(half));
    law_products_keep_order(half.negated(), off, opts.spread);
    law_products_keep_order(off, half, opts.spread);
    lemma_within(opts.spread, half.negated());
    lemma_within(opts.spread, off);
    lemma_within(opts.spread, half);
    let (p, q, r) = (
        half.negated().product(opts.spread),
        off.product(opts.spread),
        half.product(opts.spread),
    );
    law_sums_keep_order(p, q, opts.angle);
    law_sums_keep_order(q, r, opts.angle);
    lemma_sums_commute(p, opts.angle);
    lemma_sums_commute(q, opts.angle);
    lemma_sums_commute(r, opts.angle);
    let turned = unit(words.3);
    law_products_keep_order(num(0), turned, num(TURN));
    law_products_keep_order(turned, one(), num(TURN));
    law_products_commute(num(0), num(TURN));
    law_products_commute(one(), num(TURN));
    law_times_zero_is_zero(num(TURN), num(0));
    law_times_one_is_itself(num(TURN));
}

proof fn lemma_within(n: Number, part: Number)
    requires
        n.is_finite(),
        part.magnitude() <= 0x3f80_0000,
    ensures
        part.product(n).is_finite(),
{
    law_a_part_is_no_larger(n, part);
    law_products_commute(n, part);
}

/// A half from one leaves a half.
proof fn lemma_halves()
    ensures
        one().difference(num(0x3f00_0000)) == num(0x3f00_0000),
{
    let half = num(0x3f00_0000);
    lemma_one();
    lemma2_to64();
    lemma_pow2_adds(23, 125);
    lemma_pow2_unfold(149);
    lemma_pow2_pos(148);
    assert(half.size() == pow2(148));
    assert(one().steps() + half.negated().steps() == half.size());
    lemma_size_is_exact(half);
    reveal(Number::sum);
}

/// An emission puts up what was asked for: each of its particles is at the point, in the colour and
/// size of the emission and with its flags, has all of its own life to live, and is drawn there.
pub proof fn law_an_emission_is_what_was_asked_for(
    pool: Pool,
    x: Number,
    y: Number,
    count: nat,
    opts: EmitOpts,
    j: int,
)
    requires
        pool.slots.len() == MAX_PARTICLES,
        pool.lives.len() == MAX_PARTICLES,
        pool.spans.len() == MAX_PARTICLES,
        pool.moves.len() == MAX_PARTICLES,
        0 <= pool.cursor < MAX_PARTICLES,
        !opts.life.le_zero(),
        0 <= j < born(pool, count, opts).len(),
    ensures
        ({
            let b = born(pool, count, opts)[j];
            let next = emitted(pool, x, y, count, opts);
            let (slot, at) = (next.slots[b.slot as int], next.moves[b.slot as int]);
            &&& slot.alive
            &&& slot.rgb == opts.color
            &&& slot.size == opts.size
            &&& slot.glow == opts.glow
            &&& slot.fade_in == opts.fade_in
            &&& slot.collide == opts.collide
            &&& next.lives[b.slot as int] == b.life
            &&& next.spans[b.slot as int] == b.life
            &&& at.x == x
            &&& at.y == y
            &&& at.gravity == opts.gravity
            &&& at.drag == opts.drag
            &&& at.wander == opts.wander
            &&& at.phase == b.phase
            &&& shown(next, b.slot as int) matches Some(p) && p.x == x && p.y == y && p.rgb
                == opts.color && p.size == opts.size && p.glow == opts.glow
        }),
{
    let n = budgeted(count, pool.budget);
    let with = slot_of(&opts);
    let into = claimed(pool.slots, pool.cursor, n, with);
    let births = born(pool, count, opts);
    law_overflow_is_dropped(pool.slots, pool.cursor, n, with);
    assert forall|a: int| 0 <= a < births.len() implies (#[trigger] births[a]).slot == into[a]
        && births[a].slot < MAX_PARTICLES by {}
    assert forall|a: int, b: int| 0 <= a < b < births.len() implies births[a].slot
        != births[b].slot by {
        assert(into[a] != into[b]);
    }
    let at = births[j].slot as int;
    assert(into.contains(at));
    lemma_put(pool.moves, births, x, y, opts, births.len(), j);
    lemma_given(pool.lives, births, births.len(), at);
    lemma_given(pool.spans, births, births.len(), at);
}

/// A stronger puff is no less of one: it has as many particles or more, and they are as fast, as
/// widely thrown, as long-lived and as large or more so. It is in the colour that it was asked for.
pub proof fn law_a_stronger_puff_is_no_less(color: Rgb, strength: Number, more: Number)
    requires
        strength.le(more),
    ensures
        ({
            let (a, b) = (puff_of(color, strength), puff_of(color, more));
            &&& a.count <= b.count
            &&& a.opts.speed.le(b.opts.speed)
            &&& a.opts.spread.le(b.opts.spread)
            &&& a.opts.life.le(b.opts.life)
            &&& a.opts.size.le(b.opts.size)
            &&& a.opts.color == color
            &&& b.opts.color == color
        }),
{
    lemma_puff_grows(color, strength, more);
}

/// Grit leaves a wall on the side away from it: to the left of straight up off a wall on the right,
/// and to the right of it otherwise. A smear goes back along the way of travel. Both are in the
/// colour they were asked for.
pub proof fn law_grit_leaves_the_wall(dir: Number, color: Rgb)
    ensures
        ({
            let (grit, smear) = (scrape_of(dir, color), smear_of(dir, color));
            &&& num(0).lt(dir) ==> grit.opts.angle.lt(num(UP)) && !smear.opts.angle.is_zero_spec()
            &&& !num(0).lt(dir) ==> num(UP).lt(grit.opts.angle) && smear.opts.angle.is_zero_spec()
            &&& grit.opts.color == color
            &&& smear.opts.color == color
        }),
{
}

/// A creature's event throws up as much as it is worth: a chill nothing, a wound a puff and no splash,
/// and a death a splash and a puff over it, in the colour it bleeds. A death's puff is no less than
/// that of a wound of the player's, which is no less than that of a creature's.
pub proof fn law_a_death_bursts_most(pool: Pool, x: Number, y: Number, color: Rgb)
    ensures
        after_event(pool, x, y, MobEventKind::PlayerChill, color).0 == pool,
        after_event(pool, x, y, MobEventKind::PlayerHit, color).1.len() == 0,
        after_event(pool, x, y, MobEventKind::MobHurt, color).1.len() == 0,
        ({
            let (hurt, hit, die) = (
                puff_of(color, num(0x3ecc_cccd)),
                puff_of(color, num(0x3f00_0000)),
                puff_of(color, num(0x3f59_999a)),
            );
            let splash = splash().tinted(color);
            let splashed = emitted(pool, x, y, splash.count as nat, splash.opts);
            &&& hurt.count <= hit.count <= die.count
            &&& splash.opts.color == color && hurt.opts.color == color && die.opts.color == color
            &&& after_event(pool, x, y, MobEventKind::MobHurt, color).0 == emitted(
                pool,
                x,
                y,
                hurt.count as nat,
                hurt.opts,
            )
            &&& after_event(pool, x, y, MobEventKind::PlayerHit, color).0 == emitted(
                pool,
                x,
                y,
                hit.count as nat,
                hit.opts,
            )
            &&& after_event(pool, x, y, MobEventKind::MobDie, color).0 == emitted(
                splashed,
                x,
                y,
                die.count as nat,
                die.opts,
            )
        }),
{
    lemma_puff_grows(color, num(0x3ecc_cccd), num(0x3f00_0000));
    lemma_puff_grows(color, num(0x3f00_0000), num(0x3f59_999a));
}

/// Each of a birth's four words is spent on one thing: whatever the other three are, the angle comes
/// of the first, the speed of the second, the life of the third and the phase of the fourth.
pub proof fn law_each_word_has_its_own_use(
    slot: usize,
    words: (u32, u32, u32, u32),
    other: (u32, u32, u32, u32),
    opts: EmitOpts,
)
    ensures
        ({
            let (a, b) = (birth(slot, words, opts), birth(slot, other, opts));
            &&& words.0 == other.0 ==> a.angle == b.angle
            &&& words.1 == other.1 ==> a.speed == b.speed
            &&& words.2 == other.2 ==> a.life == b.life
            &&& words.3 == other.3 ==> a.phase == b.phase
        }),
{
}

proof fn lemma_draws_go_on(x: u32, n: nat, more: nat)
    ensures
        xorshift_iter(xorshift_iter(x, n), more) == xorshift_iter(x, n + more),
    decreases more,
{
    if more > 0 {
        lemma_draws_go_on(x, n, (more - 1) as nat);
    }
}

/// No word is spent twice: what is born after an emission comes of the words after those it drew, just
/// as if it had been one of it.
pub proof fn law_births_draw_on(
    pool: Pool,
    x: Number,
    y: Number,
    count: nat,
    opts: EmitOpts,
    more: Seq<int>,
)
    ensures
        ({
            let into = claimed(pool.slots, pool.cursor, budgeted(count, pool.budget), slot_of(&opts));
            let next = emitted(pool, x, y, count, opts);
            births(into + more, pool.state, opts) == born(pool, count, opts) + births(
                more,
                next.state,
                opts,
            )
        }),
{
    let into = claimed(pool.slots, pool.cursor, budgeted(count, pool.budget), slot_of(&opts));
    let next = emitted(pool, x, y, count, opts);
    let (all, later) = (births(into + more, pool.state, opts), births(more, next.state, opts));
    assert forall|j: int| 0 <= j < more.len() implies all[into.len() + j] == #[trigger] later[j] by {
        assert((into + more)[into.len() + j] == more[j]);
        let n = 4 * into.len();
        lemma_draws_go_on(pool.state, n, (4 * j + 1) as nat);
        lemma_draws_go_on(pool.state, n, (4 * j + 2) as nat);
        lemma_draws_go_on(pool.state, n, (4 * j + 3) as nat);
        lemma_draws_go_on(pool.state, n, (4 * j + 4) as nat);
        assert(n + (4 * j + 1) == 4 * (into.len() + j) + 1);
        assert(n + (4 * j + 2) == 4 * (into.len() + j) + 2);
        assert(n + (4 * j + 3) == 4 * (into.len() + j) + 3);
        assert(n + (4 * j + 4) == 4 * (into.len() + j) + 4);
    }
    assert forall|i: int| 0 <= i < all.len() implies all[i] == (born(pool, count, opts) + later)[i] by {
        if i < into.len() {
            assert((into + more)[i] == into[i]);
        } else {
            assert(all[into.len() + (i - into.len())] == later[i - into.len()]);
        }
    }
    assert(all =~= born(pool, count, opts) + later);
}

/// A puff goes by its strength: one of more than half of the hardest is at least halfway from the
/// gentlest to it in speed, spread and life, and one of less at most.
pub proof fn law_a_puff_goes_by_its_strength(color: Rgb, strength: Number)
    ensures
        ({
            let (p, half) = (puff_of(color, strength).opts, num(0x3f00_0000));
            let speed = num(0x4248_0000).sum(half.product(num(0x42dc_0000)));
            let life = num(0x3e80_0000).sum(half.product(num(0x3eb3_3333)));
            &&& half.le(strength) ==> speed.le(p.speed) && life.le(p.life)
            &&& strength.le(half) ==> p.speed.le(speed) && p.life.le(life)
        }),
{
    let half = num(0x3f00_0000);
    if half.le(strength) {
        lemma_puff_grows(color, half, strength);
    }
    if strength.le(half) {
        lemma_puff_grows(color, strength, half);
    }
}

/// The pool after some of a creature's bursts at a point, one after another.
pub open spec fn after_bursts(pool: Pool, x: Number, y: Number, bursts: Seq<MobJuice>, color: Rgb) -> Pool
    decreases bursts.len(),
{
    if bursts.len() == 0 {
        pool
    } else {
        let before = after_bursts(pool, x, y, bursts.drop_last(), color);
        let preset = match bursts.last() {
            MobJuice::Splash => splash().tinted(color),
            MobJuice::Puff(strength) => puff_of(color, strength),
        };
        emitted(before, x, y, preset.count as nat, preset.opts)
    }
}

/// An event puts up the bursts that it is listed with, in their order and in its colour.
pub proof fn law_an_event_is_its_bursts(
    pool: Pool,
    x: Number,
    y: Number,
    kind: MobEventKind,
    color: Rgb,
)
    ensures
        after_event(pool, x, y, kind, color).0 == after_bursts(pool, x, y, juice_of(kind), color),
{
    reveal_with_fuel(after_bursts, 3);
    let bursts = juice_of(kind);
    if bursts.len() > 0 {
        assert(bursts.drop_last() =~= bursts.take(bursts.len() - 1));
    }
    if kind == MobEventKind::MobDie {
        assert(bursts.drop_last() =~= seq![MobJuice::Splash]);
        assert(bursts.drop_last().drop_last() =~= Seq::<MobJuice>::empty());
    } else if bursts.len() > 0 {
        assert(bursts.drop_last() =~= Seq::<MobJuice>::empty());
    }
}

/// A puff is held to its range: one weaker than the least is the least, and one past the hardest is
/// the hardest.
pub proof fn law_a_puff_is_held_to_its_range(color: Rgb, strength: Number)
    ensures
        strength.le(num(0x3d4c_cccd)) ==> puff_of(color, strength) == puff_of(
            color,
            num(0x3d4c_cccd),
        ),
        one().le(strength) ==> puff_of(color, strength) == puff_of(color, one()),
{
}

} // verus!
