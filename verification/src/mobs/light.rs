//! How bright a creature is: its pulse, its hit blink, and the tell of one about to break the
//! surface.

use vstd::arithmetic::power2::*;
use vstd::prelude::*;

use crate::arith::{
    law_itself_goes_in_once, law_less_itself_is_zero, law_times_zero_is_zero,
    law_zero_adds_nothing, lemma_one, lemma_size_is_exact, lemma_zero_over, one,
};
use crate::number::{Number, num};
use crate::order::{lemma_nothing_more, lemma_swing};
use crate::rounding::{lemma_rounded_scales, rounded, spacing};
use crate::sky::colour::{clamp01, clamped01};
use crate::whole::{is_whole, law_whole_products_are_exact, law_whole_sums_are_exact};

verus! {

/// An angle that has turned for a while at a rate, from where it started.
pub open spec fn turned(seconds: Number, rate: Number, start: Number) -> Number {
    seconds.product(rate).sum(start)
}

/// An angle starts where it starts and turns at its rate: with no time gone it is there, and after
/// whole seconds at a whole rate it is that many turns of one further.
pub proof fn law_an_angle_turns_at_its_rate(
    seconds: Number,
    rate: Number,
    start: Number,
    t: int,
    r: int,
    s: int,
)
    requires
        rate.is_finite(),
        start.is_finite(),
    ensures
        seconds.is_zero_spec() ==> turned(seconds, rate, start).same(start),
        is_whole(seconds, t) && is_whole(rate, r) && is_whole(start, s) && -0x100_0000 < t * r
            < 0x100_0000 && -0x100_0000 < t * r + s < 0x100_0000 ==> is_whole(
            turned(seconds, rate, start),
            t * r + s,
        ),
        is_whole(num(0x4040_0000), 3),
        is_whole(num(0x41d0_0000), 26),
{
    if seconds.is_zero_spec() {
        law_times_zero_is_zero(rate, seconds);
        lemma_nothing_more(start, seconds.product(rate));
    }
    if is_whole(seconds, t) && is_whole(rate, r) && is_whole(start, s) && -0x100_0000 < t * r
        < 0x100_0000 && -0x100_0000 < t * r + s < 0x100_0000 {
        law_whole_products_are_exact(seconds, rate, t, r);
        law_whole_sums_are_exact(seconds.product(rate), start, t * r, s);
    }
    lemma2_to64();
    lemma_pow2_adds(22, 127);
    lemma_pow2_adds(19, 130);
    assert(0xc0_0000 * pow2(127) == 3 * pow2(149)) by (nonlinear_arith)
        requires
            pow2(149) == 0x40_0000 * pow2(127),
    ;
    assert(0xd0_0000 * pow2(130) == 26 * pow2(149)) by (nonlinear_arith)
        requires
            pow2(149) == 0x8_0000 * pow2(130),
    ;
}

/// The angle of a creature's pulse: three radians a second, and out of step with the others by how
/// far it has wandered.
pub fn pulse_angle(state_t: Number, wander: Number) -> (angle: Number)
    ensures
        angle == turned(state_t, num(0x4040_0000), wander),
        angle == state_t.product(num(0x4040_0000)).sum(wander),
{
    state_t.times(num(0x4040_0000)).plus(wander)
}

/// The self-luminance of a creature, from the sine of its pulse: 0.8, give or take 0.2. It never
/// reaches zero, so a luminous creature is never invisible on a trough.
pub open spec fn pulsing(sine: Number) -> Number {
    num(0x3f4c_cccd).sum(num(0x3e4c_cccd).product(sine))
}

/// The self-luminance of a creature, from the sine of its pulse. See [`pulsing`].
pub fn pulse(sine: Number) -> (out: Number)
    ensures
        out == pulsing(sine),
{
    num(0x3f4c_cccd).plus(num(0x3e4c_cccd).times(sine))
}

/// A pulse stays lit: it is never below 0.6, and never above one.
pub proof fn law_a_pulse_stays_lit(sine: Number)
    requires
        one().negated().le(sine),
        sine.le(one()),
    ensures
        num(0x3f19_999a).le(pulsing(sine)),
        pulsing(sine).le(one()),
{
    lemma_swing(num(0x3f4c_cccd), num(0x3e4c_cccd), sine);
    lemma_pulse_ends();
}

/// A pulse is one at its top, and 0.6 at its bottom.
pub proof fn lemma_pulse_ends()
    ensures
        num(0x3f4c_cccd).difference(num(0x3e4c_cccd)) == num(0x3f19_999a),
        num(0x3f4c_cccd).sum(num(0x3e4c_cccd)) == one(),
{
    let (mid, most) = (num(0x3f4c_cccd), num(0x3e4c_cccd));
    lemma_pow2_adds(2, 123);
    lemma2_to64();
    lemma_pow2_adds(26, 123);
    lemma_pow2_pos(123);
    lemma_rounded_scales(0x266_6667, 123);
    lemma_rounded_scales(0x400_0001, 123);
    assert(spacing(0x99_9999) == 1);
    assert(spacing(0x133_3333) == 2);
    assert(spacing(0x266_6667) == 4);
    assert(0x266_6667nat / 4 == 0x99_9999 && 0x266_6667nat % 4 == 3);
    assert(rounded(0x266_6667) == 0x266_6668);
    assert(spacing(0x80_0000) == 1);
    assert(spacing(0x100_0000) == 2);
    assert(spacing(0x200_0000) == 4);
    assert(spacing(0x400_0001) == 8);
    assert(0x400_0001nat / 8 == 0x80_0000 && 0x400_0001nat % 8 == 1);
    assert(rounded(0x400_0001) == 0x400_0000);
    assert(mid.steps() == 0xcc_cccd * pow2(125));
    assert(most.steps() == 0xcc_cccd * pow2(123));
    assert(mid.difference(most) == num(0x3f19_999a)) by {
        reveal(Number::sum);
        lemma_size_is_exact(num(0x3f19_999a));
        assert(num(0x3f19_999a).size() == 0x99_999a * pow2(125));
    }
    assert(mid.sum(most) == one()) by {
        reveal(Number::sum);
        lemma_one();
        lemma_size_is_exact(one());
    }
}

/// How much brighter than its own colours a creature that was hurt is.
pub open spec fn brightened(flash: Number) -> Number {
    one().sum(clamped01(flash))
}

/// A creature's damage blink, as a factor of its own colours. See [`brightened`].
pub fn flashed(flash: Number) -> (k: Number)
    ensures
        k == brightened(flash),
{
    one().plus(clamp01(flash))
}

/// No flash is no tint at all, and one that overshoots brightens no more than a full one.
pub proof fn law_flash_tops_out(flash: Number)
    ensures
        flash.le_zero() ==> brightened(flash) == one(),
        one().le(flash) ==> brightened(flash) == brightened(one()),
{
    if flash.le_zero() {
        law_zero_adds_nothing(one(), clamped01(flash));
    }
}

/// How much of a countdown is over: 0 when it starts, 1 as it runs out.
pub open spec fn counted(tell_t: Number, tell_time: Number) -> Number {
    one().difference(clamped01(tell_t.quotient(tell_time)))
}

/// How much of a countdown is over. See [`counted`].
pub fn tell_over(tell_t: Number, tell_time: Number) -> (over: Number)
    ensures
        over == counted(tell_t, tell_time),
{
    one().minus(clamp01(tell_t.over(tell_time)))
}

/// How much of a tell shows: 0.35 when the countdown starts, and 0.5 more as it runs out.
pub open spec fn swollen(over: Number) -> Number {
    num(0x3eb3_3333).sum(num(0x3f00_0000).product(over))
}

/// How much of a tell shows. See [`swollen`].
pub fn tell_alpha(over: Number) -> (alpha: Number)
    ensures
        alpha == swollen(over),
{
    num(0x3eb3_3333).plus(num(0x3f00_0000).times(over))
}

/// Nothing of a full countdown is over, and all of an empty one is.
pub proof fn law_tell_runs_from_start_to_end(tell_time: Number, none: Number)
    requires
        tell_time.is_finite(),
        !tell_time.is_zero_spec(),
        none.is_zero_spec(),
    ensures
        counted(tell_time, tell_time).is_zero_spec(),
        counted(none, tell_time) == one(),
{
    law_itself_goes_in_once(tell_time);
    law_less_itself_is_zero(one());
    lemma_zero_over(none, tell_time);
    law_zero_adds_nothing(one(), clamped01(none.quotient(tell_time)).negated());
}

/// The angle that a tell's row churns by, `across` pixels from its left edge: 26 radians a second.
pub fn churn_angle(state_t: Number, across: Number) -> (angle: Number)
    ensures
        angle == turned(state_t, num(0x41d0_0000), across),
        angle == state_t.product(num(0x41d0_0000)).sum(across),
{
    state_t.times(num(0x41d0_0000)).plus(across)
}

/// Whether a cell of a tell's row is raised, from the sine of its churn: by a whole cell or not at
/// all.
pub fn is_raised(sine: Number) -> (raised: bool)
    ensures
        raised == num(0).lt(sine),
{
    num(0).less(sine)
}

} // verus!
