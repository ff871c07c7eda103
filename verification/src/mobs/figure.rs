//! How a creature, its shots and its tell stand on the screen, and how their light answers to time.

use vstd::prelude::*;

use crate::arith::{law_products_commute, law_times_one_is_itself, lemma_sum_between, one};
use crate::mobs::art::art_corner;
use crate::mobs::draw::{
    Burrower, GlowingShot, MobLook, Placed, across, cell_px, glow_alpha, glow_quad, is_placed,
    lemma_across, lemma_lift, lit, lit_arrows, lit_live, shot_alpha, tells, tile_of,
};
use crate::mobs::light::{
    brightened, counted, law_a_pulse_stays_lit, law_flash_tops_out, lemma_pulse_ends, pulsing,
    swollen,
};
use crate::mobs::pool::{Shot, ShotPool, ShotSprite, mirrored, shot_placed};
use crate::number::{Number, num};
use crate::order::{
    law_differences_turn_order, law_products_keep_order, law_quotients_keep_order,
    law_sums_keep_order, lemma_sums_commute, lemma_swings_both_ways, lemma_swings_up,
};
use crate::rounding::pixel;
use crate::sky::colour::clamped01;
use crate::sky::placing::{holds, lemma_holds_last, lemma_holds_more, lemma_small_pixel};
use crate::sprite::baked::BakedSprite;
use crate::sprite::content::law_a_sprite_is_centred_on_its_box;
use crate::sprite::frames::SpriteClock;
use crate::sprite::ids::StateId;
use crate::whole::{
    is_halves, is_whole, law_nearest_is_the_pixel, law_whole_differences_are_exact,
    law_whole_products_are_exact, law_whole_sums_are_exact, lemma_five, lemma_negated,
    lemma_whole_is_small,
};

verus! {

proof fn lemma_one_and_two()
    ensures
        is_whole(num(0x3f80_0000), 1),
        is_whole(num(0x4000_0000), 2),
{
    vstd::arithmetic::power2::lemma2_to64();
    vstd::arithmetic::power2::lemma_pow2_adds(23, 126);
    vstd::arithmetic::power2::lemma_pow2_adds(23, 127);
    vstd::arithmetic::power2::lemma_pow2_unfold(150);
}

/// A shot is drawn about the pixel its centre is on, with y running up, in its own colour and twice
/// as wide as it reaches from there.
pub proof fn law_a_shot_is_drawn_about_its_centre(s: Shot, r: int)
    requires
        s.x.magnitude() < 0x4980_0000,
        s.y.magnitude() < 0x4980_0000,
        is_whole(s.r_px, r),
        0 <= r < 0x10_0000,
    ensures
        is_whole(shot_placed(s).at.x, pixel(s.x)),
        is_whole(shot_placed(s).at.y, -pixel(s.y)),
        is_whole(shot_placed(s).side, 2 * r),
        shot_placed(s).color == s.color,
{
    law_nearest_is_the_pixel(s.x);
    law_nearest_is_the_pixel(s.y);
    lemma_negated(s.y.nearest_whole(), pixel(s.y));
    lemma_one_and_two();
    law_whole_products_are_exact(s.r_px, num(0x4000_0000), r, 2);
}

/// A shot's light is a square about its centre a pixel larger than the shot all round, in its own
/// colour.
pub proof fn law_a_shots_light_is_about_its_centre<C>(shot: GlowingShot<C>, r: int)
    requires
        shot.x.magnitude() < 0x4980_0000,
        shot.y.magnitude() < 0x4980_0000,
        is_whole(shot.r_px, r),
        0 <= r < 0x10_0000,
    ensures
        ({
            let (x, y) = (pixel(shot.x), pixel(shot.y));
            let q = glow_quad(shot);
            &&& q.len() == 4
            &&& is_whole(q[0].at.x, x - (r + 1)) && is_whole(q[0].at.y, -(y - (r + 1)))
            &&& is_whole(q[1].at.x, x + (r + 1)) && is_whole(q[1].at.y, -(y - (r + 1)))
            &&& is_whole(q[2].at.x, x + (r + 1)) && is_whole(q[2].at.y, -(y + (r + 1)))
            &&& is_whole(q[3].at.x, x - (r + 1)) && is_whole(q[3].at.y, -(y + (r + 1)))
            &&& forall|i: int| 0 <= i < 4 ==> (#[trigger] q[i]).color == shot.color
        }),
{
    let (x, y) = (pixel(shot.x), pixel(shot.y));
    let half = shot.r_px.sum(num(0x3f80_0000));
    let side = half.product(num(0x4000_0000));
    let (left, top) = (
        shot.x.nearest_whole().difference(half),
        shot.y.nearest_whole().difference(half),
    );
    lemma_one_and_two();
    law_nearest_is_the_pixel(shot.x);
    law_nearest_is_the_pixel(shot.y);
    lemma_small_pixel(shot.x);
    lemma_small_pixel(shot.y);
    law_whole_sums_are_exact(shot.r_px, num(0x3f80_0000), r, 1);
    law_whole_products_are_exact(half, num(0x4000_0000), r + 1, 2);
    law_whole_differences_are_exact(shot.x.nearest_whole(), half, x, r + 1);
    law_whole_differences_are_exact(shot.y.nearest_whole(), half, y, r + 1);
    law_whole_sums_are_exact(left, side, x - (r + 1), (r + 1) * 2);
    law_whole_sums_are_exact(top, side, y - (r + 1), (r + 1) * 2);
    lemma_negated(top, y - (r + 1));
    lemma_negated(top.sum(side), y + (r + 1));
}

/// A slot shows a shot of its own pool: whatever is in the other changes nothing, and a player's slot
/// past the shots that are live shows none.
pub proof fn law_a_slot_mirrors_its_own_pool(
    which: ShotSprite,
    creature: Seq<Option<Shot>>,
    live: Seq<Shot>,
    others: Seq<Option<Shot>>,
    other_live: Seq<Shot>,
)
    ensures
        which.pool == ShotPool::Creature ==> mirrored(which, creature, other_live)
            == creature[which.slot as int],
        which.pool == ShotPool::Player && which.slot < live.len() ==> mirrored(which, others, live)
            == Some(live[which.slot as int]),
        which.pool == ShotPool::Player && which.slot >= live.len() ==> mirrored(
            which,
            others,
            live,
        ) is None,
{
}

/// Every shot that glows is lit once in the order of its slots, the creatures' before the player's,
/// and one that does not adds nothing.
pub proof fn law_every_glowing_shot_is_lit<C>(
    creature: Seq<Option<GlowingShot<C>>>,
    arrows: Seq<GlowingShot<C>>,
    n: nat,
    m: nat,
    i: int,
    j: int,
)
    requires
        0 <= i < n <= creature.len(),
        0 <= j < m <= arrows.len(),
    ensures
        creature[i] matches Some(shot) ==> (num(0).lt(shot.glow) ==> holds(
            lit_live(creature, n) + lit_arrows(arrows, m),
            glow_quad(shot),
        )),
        num(0).lt(arrows[j].glow) ==> holds(
            lit_live(creature, n) + lit_arrows(arrows, m),
            glow_quad(arrows[j]),
        ),
        arrows[j].glow.le_zero() ==> lit(arrows[j]).len() == 0,
{
    if let Some(shot) = creature[i] {
        if num(0).lt(shot.glow) {
            lemma_live_is_held(creature, n, i);
            lemma_holds_more(lit_live(creature, n), lit_arrows(arrows, m), glow_quad(shot));
        }
    }
    if num(0).lt(arrows[j].glow) {
        lemma_arrow_is_held(lit_live(creature, n), arrows, m, j);
    }
}

proof fn lemma_live_is_held<C>(shots: Seq<Option<GlowingShot<C>>>, n: nat, i: int)
    requires
        0 <= i < n <= shots.len(),
        shots[i] is Some,
        num(0).lt(shots[i]->0.glow),
    ensures
        holds(lit_live(shots, n), glow_quad(shots[i]->0)),
    decreases n,
{
    let before = lit_live(shots, (n - 1) as nat);
    if i == n - 1 {
        lemma_holds_last(before, glow_quad(shots[i]->0));
    } else {
        lemma_live_is_held(shots, (n - 1) as nat, i);
        let more = match shots[n - 1] {
            Some(shot) => lit(shot),
            None => Seq::empty(),
        };
        lemma_holds_more(before, more, glow_quad(shots[i]->0));
    }
}

proof fn lemma_arrow_is_held<C>(
    first: Seq<crate::sky::mesh::Vertex<C>>,
    shots: Seq<GlowingShot<C>>,
    n: nat,
    i: int,
)
    requires
        0 <= i < n <= shots.len(),
        num(0).lt(shots[i].glow),
    ensures
        holds(first + lit_arrows(shots, n), glow_quad(shots[i])),
    decreases n,
{
    let before = first + lit_arrows(shots, (n - 1) as nat);
    assert(first + lit_arrows(shots, n) =~= before + lit(shots[n - 1]));
    if i == n - 1 {
        lemma_holds_last(before, glow_quad(shots[i]));
    } else {
        lemma_arrow_is_held(first, shots, (n - 1) as nat, i);
        lemma_holds_more(before, lit(shots[n - 1]), glow_quad(shots[i]));
    }
}

/// A cell of a tell's row is a cell wide and high and stands one cell above the body, as many cells
/// in from its left edge as come before it. One that is not raised stands there, and one that is
/// stands higher by the lift, which all that are raised share.
pub proof fn law_a_cell_of_a_tell_stands_on_its_row<C: Copy>(b: Burrower<C>, c: int) -> (up: int)
    requires
        0 <= c < b.raised@.len(),
        b.tell_t.quotient(b.tell_time).is_number(),
        b.body_x.magnitude() < 0x4980_0000,
        b.body_y.magnitude() < 0x4980_0000,
        c < 0x10_0000,
    ensures
        ({
            let q = b.cell_quad(c);
            let (left, low) = (pixel(b.body_x) + 5 * c, pixel(b.body_y) - if b.raised@[c] {
                up
            } else {
                0
            });
            &&& is_whole(b.lift(), up)
            &&& 0 <= up <= 5
            &&& q.len() == 4
            &&& is_whole(q[0].at.x, left) && is_whole(q[0].at.y, -(low - 5))
            &&& is_whole(q[1].at.x, left + 5) && is_whole(q[1].at.y, -(low - 5))
            &&& is_whole(q[2].at.x, left + 5) && is_whole(q[2].at.y, -low)
            &&& is_whole(q[3].at.x, left) && is_whole(q[3].at.y, -low)
            &&& forall|i: int| 0 <= i < 4 ==> (#[trigger] q[i]).color == b.color
        }),
{
    let up = lemma_lift(b);
    let (x, y) = (pixel(b.body_x), pixel(b.body_y));
    law_nearest_is_the_pixel(b.body_x);
    law_nearest_is_the_pixel(b.body_y);
    lemma_small_pixel(b.body_x);
    lemma_small_pixel(b.body_y);
    lemma_five();
    lemma_across(c as nat);
    law_whole_sums_are_exact(b.body_x.nearest_whole(), across(c as nat), x, 5 * c);
    let left = b.body_x.nearest_whole().sum(across(c as nat));
    law_whole_sums_are_exact(left, cell_px(), x + 5 * c, 5);
    let (raise, lift) = if b.raised@[c] {
        (up, b.lift())
    } else {
        (0int, num(0))
    };
    assert(is_whole(num(0), 0)) by {
        crate::whole::law_small_whole_numbers_are_exact(0);
        assert(0 * vstd::arithmetic::power2::pow2(149) == 0);
    }
    let top = b.body_y.nearest_whole().difference(cell_px());
    law_whole_differences_are_exact(b.body_y.nearest_whole(), cell_px(), y, 5);
    law_whole_differences_are_exact(top, lift, y - 5, raise);
    lemma_negated(b.cell_top(c), y - 5 - raise);
    law_whole_sums_are_exact(b.cell_top(c), cell_px(), y - 5 - raise, 5);
    lemma_negated(b.cell_top(c).sum(cell_px()), y - raise);
    up
}

/// Every burrower that is about to surface has its row drawn, and no other creature does.
pub proof fn law_only_what_surfaces_tells<C: Copy>(mobs: Seq<Burrower<C>>, n: nat, i: int)
    requires
        0 <= i < n <= mobs.len(),
    ensures
        mobs[i].active && mobs[i].buried && num(0).lt(mobs[i].tell_t) ==> holds(
            tells(mobs, n),
            mobs[i].row(mobs[i].raised@.len()),
        ),
        !mobs[n - 1].active || !mobs[n - 1].buried || mobs[n - 1].tell_t.le_zero() ==> tells(mobs, n)
            == tells(mobs, (n - 1) as nat),
    decreases n,
{
    let before = tells(mobs, (n - 1) as nat);
    let last = mobs[n - 1];
    let more = if last.tells() {
        last.row(last.raised@.len())
    } else {
        Seq::empty()
    };
    assert(!last.tells() ==> before + more =~= before);
    if mobs[i].active && mobs[i].buried && num(0).lt(mobs[i].tell_t) {
        if i == n - 1 {
            lemma_holds_last(before, more);
        } else {
            law_only_what_surfaces_tells(mobs, (n - 1) as nat, i);
            lemma_holds_more(before, more, mobs[i].row(mobs[i].raised@.len()));
        }
    }
}

/// A creature is drawn about the middle of its art, which hangs off its body by the pads: in whole
/// pixels, twice the middle is the art's two edges together, across and, with y running up, down. It
/// is mirrored where it faces left, and is as large as its art.
pub proof fn law_a_creature_is_drawn_about_its_art(
    p: Placed,
    m: MobLook,
    baked: BakedSprite,
    state: StateId,
    clock: SpriteClock,
    body: (int, int),
    pad: (int, int),
    art: (int, int),
)
    requires
        is_placed(p, m, baked, state, clock),
        is_whole(m.body_x, body.0),
        is_whole(m.body_y, body.1),
        is_whole(m.pad_x, pad.0),
        is_whole(m.pad_top, pad.1),
        is_whole(m.art_w, art.0),
        is_whole(m.art_h, art.1),
        -0x8_0000 < body.0 < 0x8_0000,
        -0x8_0000 < body.1 < 0x8_0000,
        -0x8_0000 < pad.0 < 0x8_0000,
        -0x8_0000 < pad.1 < 0x8_0000,
        0 <= art.0 < 0x10_0000,
        0 <= art.1 < 0x10_0000,
    ensures
        is_halves(p.middle.x, 2 * (body.0 - pad.0) + art.0),
        is_halves(p.middle.y, -(2 * (body.1 - pad.1) + art.1)),
        p.flip_x <==> m.facing.lt(num(0)),
        p.w == m.art_w,
        p.h == m.art_h,
{
    law_whole_differences_are_exact(m.body_x, m.pad_x, body.0, pad.0);
    law_whole_differences_are_exact(m.body_y, m.pad_top, body.1, pad.1);
    let (left, top) = art_corner(m.body_x, m.body_y, m.pad_x, m.pad_top);
    lemma_whole_is_small(left, body.0 - pad.0);
    lemma_whole_is_small(top, body.1 - pad.1);
    law_a_sprite_is_centred_on_its_box(
        left,
        top,
        m.art_w,
        m.art_h,
        art,
    );
}

/// A tint comes round: creatures whose variants are a whole number of tint tables apart show the
/// same tile, and any below zero shows the first.
pub proof fn law_a_tint_comes_round(
    m: MobLook,
    other: MobLook,
    baked: BakedSprite,
    state: StateId,
    clock: SpriteClock,
    turns: int,
)
    requires
        baked.variants > 0,
    ensures
        m.variant >= 0 && other.variant == m.variant + turns * baked.variants && other.variant >= 0
            ==> tile_of(m, baked, state, clock) == tile_of(other, baked, state, clock),
        m.variant < 0 && other.variant == 0 ==> tile_of(m, baked, state, clock) == tile_of(
            other,
            baked,
            state,
            clock,
        ),
{
    vstd::arithmetic::div_mod::lemma_mod_multiples_vanish(
        turns,
        m.variant as int,
        baked.variants as int,
    );
    vstd::arithmetic::mul::lemma_mul_is_commutative(turns, baked.variants as int);
}

/// A creature's light answers to what drives it: a later moment of a countdown has as much of it
/// over or more, a tell shows no less the more is over, a pulse is no dimmer the higher its sine, and
/// a harder hit blinks no less.
pub proof fn law_light_answers_to_what_drives_it(less: Number, more: Number, tell_time: Number)
    requires
        less.is_finite(),
        more.is_finite(),
        less.le(more),
        tell_time.is_finite(),
        num(0).lt(tell_time),
    ensures
        counted(more, tell_time).le(counted(less, tell_time)),
        less.magnitude() <= 0x3f80_0000 && more.magnitude() <= 0x3f80_0000 ==> swollen(less).le(
            swollen(more),
        ) && pulsing(less).le(pulsing(more)),
        brightened(less).le(brightened(more)),
{
    law_quotients_keep_order(less, more, tell_time);
    let (a, b) = (
        clamped01(less.quotient(tell_time)),
        clamped01(more.quotient(tell_time)),
    );
    law_differences_turn_order(one(), a, b);
    if less.magnitude() <= 0x3f80_0000 && more.magnitude() <= 0x3f80_0000 {
        lemma_swings_up(num(0x3eb3_3333), num(0x3f00_0000), less, more);
        lemma_swings_up(num(0x3f4c_cccd), num(0x3e4c_cccd), less, more);
    }
    let (p, q) = (clamped01(less), clamped01(more));
    law_sums_keep_order(p, q, one());
    lemma_sums_commute(p, one());
    lemma_sums_commute(q, one());
}

/// A creature's glow is its own at the top of a pulse: never more than that, never none of it, and no
/// dimmer the higher the pulse's sine.
pub proof fn law_a_glow_pulses_below_its_own(glow: Number, sine: Number, higher: Number)
    requires
        glow.is_finite(),
        num(0).lt(glow),
        one().negated().le(sine),
        sine.le(higher),
        higher.le(one()),
    ensures
        glow_alpha(glow, sine).le(glow),
        glow.product(num(0x3f19_999a)).le(glow_alpha(glow, sine)),
        glow_alpha(glow, sine).le(glow_alpha(glow, higher)),
{
    law_a_pulse_stays_lit(sine);
    law_a_pulse_stays_lit(higher);
    law_light_answers_to_what_drives_it(sine, higher, one());
    let (a, b, least) = (pulsing(sine), pulsing(higher), num(0x3f19_999a));
    law_products_keep_order(a, b, glow);
    law_products_keep_order(a, one(), glow);
    law_products_keep_order(least, a, glow);
    law_products_commute(a, glow);
    law_products_commute(b, glow);
    law_products_commute(one(), glow);
    law_products_commute(least, glow);
    law_times_one_is_itself(glow);
}

/// Whether a creature is seen is a matter of two things and of nothing else about it: one that is not
/// active is not, one in the rock is not, and any other is.
pub proof fn law_only_what_is_out_is_seen(m: MobLook)
    ensures
        !(MobLook { active: false, ..m }).visible(),
        !(MobLook { buried: true, ..m }).visible(),
        (MobLook { active: true, buried: false, ..m }).visible(),
{
}

/// Light swings with what drives it: a pulse is above its middle on one half of its turn, up to all of
/// the glow, and below it on the other, down to 0.6; a tell shows 0.35 as its countdown starts and
/// half as much again of the whole, but for rounding, as it ends; and a flash at its height is twice
/// as bright.
pub proof fn law_light_swings_with_what_drives_it(sine: Number, over: Number, flash: Number)
    requires
        sine.magnitude() <= 0x3f80_0000,
        over.magnitude() <= 0x3f80_0000,
    ensures
        num(0).le(sine) ==> num(0x3f4c_cccd).le(pulsing(sine)),
        sine.le(num(0)) ==> pulsing(sine).le(num(0x3f4c_cccd)),
        one().le(sine) ==> one().le(pulsing(sine)),
        sine.le(one().negated()) ==> pulsing(sine).le(num(0x3f19_999a)),
        over.is_zero_spec() ==> swollen(over).same(num(0x3eb3_3333)),
        one().le(over) ==> num(0x3f59_9999).le(swollen(over)),
        one().le(flash) ==> is_whole(brightened(flash), 2),
        flash.le_zero() ==> is_whole(brightened(flash), 1),
{
    lemma_swings_both_ways(num(0x3f4c_cccd), num(0x3e4c_cccd), sine);
    lemma_swings_both_ways(num(0x3eb3_3333), num(0x3f00_0000), over);
    lemma_pulse_ends();
    lemma_one_and_two();
    assert(num(0x3f59_9999).le(num(0x3eb3_3333).sum(num(0x3f00_0000)))) by {
        vstd::arithmetic::power2::lemma2_to64();
        vstd::arithmetic::power2::lemma_pow2_adds(1, 124);
        vstd::arithmetic::power2::lemma_pow2_pos(124);
        let unit = vstd::arithmetic::power2::pow2(124);
        assert(num(0x3eb3_3333).steps() == 0xb3_3333 * unit);
        assert(num(0x3f00_0000).steps() == 0x100_0000 * unit);
        assert(0x3f59_9999int / 0x80_0000 == 126 && 0x3f59_9999int % 0x80_0000 == 0x59_9999);
        assert(num(0x3f59_9999).steps() == 0x1b3_3332 * unit);
        assert(0x3f59_999aint / 0x80_0000 == 126 && 0x3f59_999aint % 0x80_0000 == 0x59_999a);
        assert(num(0x3f59_999a).steps() == 0x1b3_3334 * unit);
        lemma_sum_between(
            num(0x3f59_9999),
            num(0x3f59_999a),
            num(0x3eb3_3333),
            num(0x3f00_0000),
        );
    }
    if one().le(flash) {
        law_whole_sums_are_exact(one(), one(), 1, 1);
    }
    law_flash_tops_out(flash);
}

/// A shot's light is as strong as its glow and never more than full.
pub proof fn law_a_shots_light_is_its_glow(glow: Number)
    ensures
        glow.le(one()) ==> shot_alpha(glow).same(glow),
        one().le(glow) ==> shot_alpha(glow) == one(),
        shot_alpha(glow).le(one()),
{
}

} // verus!
