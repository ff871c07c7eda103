//! The shape of a sound: how its envelope, its sweep and its oscillators run, and which samples and
//! sounds come out.

use vstd::arithmetic::div_mod::*;
use vstd::arithmetic::power2::*;
use vstd::prelude::*;

use crate::arith::{
    law_a_part_is_no_larger, law_itself_goes_in_once, law_less_itself_is_zero,
    law_products_commute, law_times_one_is_itself, law_times_zero_is_zero, law_zero_adds_nothing,
    lemma_one, lemma_product_is_number, lemma_size_is_exact, lemma_small_difference,
    lemma_steps_are_sizes, lemma_zero_over, one, whole_number,
};
use crate::number::{Number, num};
use crate::order::{
    law_differences_turn_order, law_products_keep_order, law_quotients_keep_order,
    law_sums_keep_order, lemma_less, lemma_nothing_more, lemma_rounded_goes_up,
    lemma_values_in_order,
};
use crate::rounding::{cut_off, product, rounded};
use crate::sky::colour::mixed;
use crate::sky::fading::{lemma_down, lemma_up};
use crate::sound::play::known;
use crate::sound::range::lemma_whole_numbers_in_order;
use crate::sound::sample::{FULL_SCALE, level_of};
use crate::sound::synth::{
    DECLICK, Params, SoundWave, Voice, noise, ramp, ramp_gain, ramp_len, tone_of, unwound, volume,
};
use crate::whole::{
    is_whole, law_small_whole_numbers_are_exact, law_whole_differences_are_exact,
    law_whole_products_are_exact, law_whole_sums_are_exact,
};

verus! {

/// A sound rises over its attack and falls over its release, and is at full volume between: with the
/// two apart it opens at silence where it has an attack and closes at silence where it has a
/// release, gets no quieter while it rises, and no louder while it falls.
pub proof fn law_a_sound_rises_then_falls(
    t: Number,
    later: Number,
    attack: Number,
    release: Number,
)
    requires
        !attack.negative(),
        !release.negative(),
        attack.le(one()),
        release.le(one()),
        attack.sum(release).le(one()),
        num(0).le(t),
        t.le(later),
        later.le(one()),
    ensures
        attack.le(t) && t.le(one().difference(release)) ==> volume(t, attack, release) == one(),
        num(0).lt(attack) && t.is_zero_spec() ==> volume(t, attack, release).is_zero_spec(),
        num(0).lt(release) && one().difference(release).lt(t) && t == one() ==> volume(
            t,
            attack,
            release,
        ).is_zero_spec(),
        later.lt(attack) ==> volume(t, attack, release).le(volume(later, attack, release)),
        attack.le(t) && one().difference(release).lt(t) && num(0).lt(release) ==> volume(
            later,
            attack,
            release,
        ).le(volume(t, attack, release)),
{
    if num(0).lt(attack) {
        law_quotients_keep_order(t, later, attack);
        lemma_zero_over(num(0), attack);
        if t.is_zero_spec() {
            lemma_zero_over(t, attack);
        }
    }
    if num(0).lt(release) {
        law_differences_turn_order(one(), t, later);
        law_quotients_keep_order(one().difference(later), one().difference(t), release);
        law_less_itself_is_zero(one());
        lemma_zero_over(num(0), release);
        law_differences_turn_order(one(), num(0), release);
        law_zero_adds_nothing(one(), num(0).negated());
    }
}

/// The part of a sound that is over runs from nothing up to one, and never back.
pub proof fn law_the_part_that_is_over_grows(p: Params, n: nat, m: nat)
    requires
        n <= m <= p.samples(),
        0 < p.samples() < 0x1_0000_0000_0000_0000,
    ensures
        num(0).le(p.part(n)),
        p.part(n).le(p.part(m)),
        p.part(m).le(one()),
        p.part(0).is_zero_spec(),
        p.part(p.samples()) == one(),
{
    let all = whole_number(p.samples());
    lemma_whole_numbers_in_order(n, p.samples());
    lemma_whole_numbers_in_order(m, p.samples());
    lemma_whole_numbers_in_order(0, p.samples());
    if m > 0 {
        lemma_whole_numbers_in_order(n, m);
    }
    law_quotients_keep_order(num(0), whole_number(n), all);
    law_quotients_keep_order(whole_number(n), whole_number(m), all);
    law_quotients_keep_order(whole_number(m), all, all);
    law_itself_goes_in_once(all);
    lemma_zero_over(num(0), all);
    law_small_whole_numbers_are_exact(0);
    assert(whole_number(0).is_zero_spec()) by {
        assert(0 * pow2(149) == 0);
        lemma_values_in_order(whole_number(0), num(0));
        lemma_values_in_order(num(0), whole_number(0));
    }
    lemma_zero_over(whole_number(0), all);
}

/// A sweep goes straight from one pitch to the other: it never turns back, never leaves the pitch it
/// starts at behind on the wrong side, and of whole pitches it ends at the one it says.
pub proof fn law_a_sweep_goes_one_way(p: Params, n: nat, m: nat, from: int, to: int)
    requires
        n <= m <= p.samples(),
        0 < p.samples() < 0x1_0000_0000_0000_0000,
        p.hz.is_finite(),
        p.hz_to.is_finite(),
        num(0).le(p.hz),
        num(0).le(p.hz_to),
    ensures
        p.hz.le(p.hz_to) ==> p.hz.le(p.pitch(n)) && p.pitch(n).le(p.pitch(m)),
        p.hz_to.le(p.hz) ==> p.pitch(n).le(p.hz) && p.pitch(m).le(p.pitch(n)),
        is_whole(p.hz, from) && is_whole(p.hz_to, to) && 0 <= from < 0x80_0000 && 0 <= to
            < 0x80_0000 ==> is_whole(p.pitch(p.samples()), to),
{
    law_the_part_that_is_over_grows(p, n, m);
    assert(p.pitch(n) == mixed(p.hz, p.hz_to, p.part(n)));
    assert(p.pitch(m) == mixed(p.hz, p.hz_to, p.part(m)));
    if p.hz.le(p.hz_to) {
        lemma_up(p.hz, p.hz_to, p.part(n), p.part(m));
    }
    if p.hz_to.le(p.hz) {
        lemma_down(p.hz, p.hz_to, p.part(n), p.part(m));
    }
    if is_whole(p.hz, from) && is_whole(p.hz_to, to) && 0 <= from < 0x80_0000 && 0 <= to < 0x80_0000 {
        law_whole_differences_are_exact(p.hz_to, p.hz, to, from);
        law_times_one_is_itself(p.hz_to.difference(p.hz));
        law_whole_sums_are_exact(p.hz, p.hz_to.difference(p.hz), from, to - from);
    }
}

/// Each wave has its own shape over a cycle: a square is up for its first half and down for its
/// second, a saw rises all through from minus one, a triangle rises through the first half and falls
/// through the second, a sine is the sine it was given, and noise holds one value for a cycle.
pub proof fn law_each_wave_has_its_shape(v: Voice, later: Voice, sine: Number, other: Number)
    requires
        num(0).le(v.phase),
        v.phase.le(later.phase),
        later.phase.le(one()),
    ensures
        v.phase.lt(num(0x3f00_0000)) ==> tone_of(SoundWave::Square, v, sine) == one(),
        num(0x3f00_0000).le(v.phase) ==> tone_of(SoundWave::Square, v, sine) == one().negated(),
        tone_of(SoundWave::Saw, v, sine).le(tone_of(SoundWave::Saw, later, other)),
        v.phase.is_zero_spec() ==> tone_of(SoundWave::Saw, v, sine) == one().negated(),
        v.phase == one() ==> tone_of(SoundWave::Saw, v, sine) == one(),
        later.phase.le(num(0x3f00_0000)) ==> tone_of(SoundWave::Triangle, v, sine).le(
            tone_of(SoundWave::Triangle, later, other),
        ),
        num(0x3f00_0000).le(v.phase) ==> tone_of(SoundWave::Triangle, later, sine).le(
            tone_of(SoundWave::Triangle, v, other),
        ),
        v.phase == num(0x3f00_0000) ==> tone_of(SoundWave::Triangle, v, sine) == one(),
        tone_of(SoundWave::Sine, v, sine) == sine,
        v.hold == later.hold ==> tone_of(SoundWave::Noise, v, sine) == tone_of(
            SoundWave::Noise,
            later,
            other,
        ),
{
    let (half, two, four) = (num(0x3f00_0000), num(0x4000_0000), num(0x4080_0000));
    law_products_keep_order(v.phase, later.phase, two);
    assert(one().negated().magnitude() == one().magnitude());
    law_sums_keep_order(v.phase.product(two), later.phase.product(two), one().negated());
    law_products_commute(v.phase, two);
    if v.phase.is_zero_spec() {
        law_times_zero_is_zero(two, v.phase);
        law_zero_adds_nothing(one().negated(), v.phase.product(two));
    }
    if v.phase == one() {
        law_times_one_is_itself(two);
        lemma_two_less_one();
    }
    lemma_small_difference(v.phase, half);
    lemma_small_difference(later.phase, half);
    law_sums_keep_order(v.phase, later.phase, half.negated());
    let (a, b) = (v.phase.difference(half), later.phase.difference(half));
    law_less_itself_is_zero(half);
    let (x, y) = (a.absolute(), b.absolute());
    if later.phase.le(half) {
        law_sums_keep_order(later.phase, half, half.negated());
        assert(a.le(b) && b.le_zero());
        assert(y.le(x));
        lemma_peak(y, x);
    }
    if half.le(v.phase) {
        law_sums_keep_order(half, v.phase, half.negated());
        assert(a.le(b) && num(0).le(a));
        assert(x.le(y));
        lemma_peak(x, y);
    }
    if v.phase == half {
        law_products_commute(num(0), four);
        law_times_zero_is_zero(four, num(0));
        law_zero_adds_nothing(one(), num(0).product(four).negated());
    }
}

proof fn lemma_two_less_one()
    ensures
        num(0x4000_0000).difference(one()) == one(),
{
    let two = num(0x4000_0000);
    lemma_one();
    lemma2_to64();
    lemma_pow2_adds(23, 127);
    lemma_pow2_unfold(150);
    assert(two.size() == 2 * pow2(149));
    reveal(Number::sum);
    lemma_size_is_exact(one());
}

/// The further from the middle, the lower a triangle.
proof fn lemma_peak(near: Number, far: Number)
    requires
        near.is_finite(),
        far.is_finite(),
        !near.negative(),
        near.le(far),
    ensures
        one().difference(far.product(num(0x4080_0000))).le(
            one().difference(near.product(num(0x4080_0000))),
        ),
{
    law_products_keep_order(near, far, num(0x4080_0000));
    law_differences_turn_order(
        one(),
        near.product(num(0x4080_0000)),
        far.product(num(0x4080_0000)),
    );
}

/// A cycle is counted as it ends: a phase inside its cycle stays as it is, and one past the end by
/// less than another cycle has one taken out and one more counted.
pub proof fn law_a_cycle_is_counted_as_it_ends(v: Voice)
    requires
        v.phase.is_finite(),
        !v.phase.negative(),
    ensures
        v.phase.lt(one()) ==> unwound(v) == Some(v),
        one().le(v.phase) && v.phase.difference(one()).lt(one()) ==> unwound(v) == Some(
            Voice { phase: v.phase.difference(one()), hold: v.hold.wrapping_add(1) },
        ),
{
    reveal_with_fuel(unwound, 3);
    lemma_less(v.phase, one());
}

/// Noise takes over a sound by as much as it is told to: none of it leaves the tone as it is, and all
/// of it leaves nothing but the noise of the sample.
pub proof fn law_noise_takes_over_by_its_share(p: Params, n: nat, sine: Number)
    requires
        tone_of(p.wave, p.voice(n + 1)->0, sine).is_finite(),
        noise(n as usize as u32).is_finite(),
    ensures
        p.noise.is_zero_spec() ==> p.mixed(n, sine).same(
            tone_of(p.wave, p.voice(n + 1)->0, sine),
        ),
        p.noise == one() ==> p.mixed(n, sine).same(noise(n as usize as u32)),
{
    let (tone, grit) = (tone_of(p.wave, p.voice(n + 1)->0, sine), noise(n as usize as u32));
    if p.noise.is_zero_spec() {
        law_zero_adds_nothing(one(), p.noise.negated());
        law_times_one_is_itself(tone);
        law_times_zero_is_zero(grit, p.noise);
        lemma_nothing_more(tone, grit.product(p.noise));
    }
    if p.noise == one() {
        law_less_itself_is_zero(one());
        law_times_zero_is_zero(tone, one().difference(one()));
        law_times_one_is_itself(grit);
        lemma_nothing_more(grit, tone.product(one().difference(one())));
    }
}

/// A sample at full volume is what was mixed: where the envelope and the ramps leave all of it and
/// the gain is one, it is the mix itself, held between minus one and one.
pub proof fn law_full_volume_is_the_mix(p: Params, n: nat, sine: Number)
    requires
        volume(p.part(n), p.attack, p.release) == one(),
        ramp(n as int, p.samples() as int) == ramp_len(p.samples()),
        p.samples() > 0,
        p.gain == one(),
        p.mixed(n, sine).is_finite(),
    ensures
        p.sample(n, sine) == p.mixed(n, sine).clamped(num(0xbf80_0000), one()),
{
    let d = ramp_len(p.samples());
    law_small_whole_numbers_are_exact(d as int);
    lemma_pow2_pos(149);
    assert(d * pow2(149) > 0) by (nonlinear_arith)
        requires
            d > 0,
            pow2(149) > 0,
    ;
    law_itself_goes_in_once(whole_number(d));
    law_times_one_is_itself(p.mixed(n, sine));
}

/// The ramps against clicks are at the ends alone: a sound of at least two of them rises by one step
/// a sample over the first, falls so over the last, and is untouched between.
pub proof fn law_ramps_are_at_the_ends(n: int, total: int)
    requires
        0 <= n < total,
        2 * DECLICK < total,
    ensures
        n <= DECLICK ==> ramp(n, total) == n,
        total - 1 - DECLICK <= n ==> ramp(n, total) == total - 1 - n,
        DECLICK <= n <= total - 1 - DECLICK ==> ramp(n, total) == ramp_len(total as nat),
        ramp_len(total as nat) == DECLICK,
{
}

/// A sound lasts as long as it says: it has 44100 samples for each whole second.
pub proof fn law_a_sound_lasts_its_seconds(p: Params, seconds: int)
    requires
        is_whole(p.seconds, seconds),
        0 <= seconds <= 380,
        !p.seconds.negative(),
    ensures
        p.samples() == 44100 * seconds,
{
    let rate = num(0x472c_4400);
    lemma2_to64();
    lemma_pow2_adds(8, 141);
    assert(rate.size() == 0xac_4400 * pow2(141));
    assert(rate.size() == 44100 * pow2(149)) by (nonlinear_arith)
        requires
            rate.size() == 0xac_4400 * pow2(141),
            pow2(149) == 0x100 * pow2(141),
    ;
    law_whole_products_are_exact(p.seconds, rate, seconds, 44100);
    let n = p.seconds.product(rate);
    lemma_product_is_number(p.seconds, rate);
    lemma_steps_are_sizes(n);
    lemma_pow2_pos(149);
    lemma_div_multiples_vanish(seconds * 44100, pow2(149) as int);
    vstd::arithmetic::mul::lemma_mul_is_commutative(seconds * 44100, pow2(149) as int);
    reveal(Number::count);
}

/// A louder sample is no lower a level, on either side of silence, and one turned over has the level
/// turned over.
pub proof fn law_levels_keep_order(s: Number, more: Number)
    requires
        s.le(more),
    ensures
        level_of(s) <= level_of(more),
        level_of(s.negated()) == -level_of(s),
{
    let c = s.clamped(crate::sound::sample::minus_one(), one());
    let d = more.clamped(crate::sound::sample::minus_one(), one());
    let (m, n) = (c.magnitude(), d.magnitude());
    if c.negative() == d.negative() {
        if c.negative() {
            lemma_scaled_in_order(n, m);
        } else {
            lemma_scaled_in_order(m, n);
        }
    }
    let e = s.negated().clamped(crate::sound::sample::minus_one(), one());
    assert(e.magnitude() == c.magnitude());
    if s.is_zero_spec() {
        crate::rounding::law_nothing_stays_nothing(FULL_SCALE as nat);
    }
}

proof fn lemma_scaled_in_order(m: int, n: int)
    requires
        0 <= m <= n <= 0x3f80_0000,
    ensures
        cut_off(product(FULL_SCALE as nat, m)) <= cut_off(product(FULL_SCALE as nat, n)),
{
    let f = rounded(FULL_SCALE as nat);
    crate::number::lemma_steps_nonnegative(m);
    crate::number::lemma_steps_nonnegative(n);
    if m < n {
        crate::number::lemma_steps_increase(m, n);
    }
    let (x, y) = (crate::number::magnitude_steps(m), crate::number::magnitude_steps(n));
    assert(0 <= f * x <= f * y) by (nonlinear_arith)
        requires
            0 <= x <= y,
            0 <= f,
    ;
    lemma_rounded_goes_up((f * x) as nat, (f * y) as nat);
    lemma_pow2_pos(149);
    lemma_div_is_ordered(
        product(FULL_SCALE as nat, m) as int,
        product(FULL_SCALE as nat, n) as int,
        pow2(149) as int,
    );
}

/// What is played is what was asked for and the bank has: each such code and no other, as often and
/// in the order it was asked for.
pub proof fn law_known_codes_are_played(codes: Seq<u16>, bank: nat, code: u16)
    ensures
        known(codes, bank).contains(code) <==> codes.contains(code) && code < bank,
        (forall|i: int| 0 <= i < codes.len() ==> (#[trigger] codes[i]) < bank) ==> known(codes, bank)
            == codes,
        known(codes, bank).len() <= codes.len(),
        known(codes, bank) == codes.filter(|c: u16| c < bank),
    decreases codes.len(),
{
    reveal(Seq::filter);
    if codes.len() > 0 {
        let (less, last) = (codes.drop_last(), codes.last());
        law_known_codes_are_played(less, bank, code);
        let (before, now) = (known(less, bank), known(codes, bank));
        if codes.contains(code) && code < bank {
            let i = codes.index_of(code);
            if i < less.len() {
                assert(less[i] == code);
                let j = before.index_of(code);
                assert(now[j] == code);
            } else {
                assert(now.last() == code);
            }
        }
        if now.contains(code) {
            let j = now.index_of(code);
            if j < before.len() {
                assert(before[j] == code);
                let i = less.index_of(code);
                assert(codes[i] == code);
            } else {
                assert(codes.last() == code);
            }
        }
        if forall|i: int| 0 <= i < codes.len() ==> (#[trigger] codes[i]) < bank {
            assert forall|i: int| 0 <= i < less.len() implies (#[trigger] less[i]) < bank by {
                assert(codes[i] < bank);
            }
            assert(last < bank) by {
                assert(codes[codes.len() - 1] < bank);
            }
            assert(now =~= codes);
        }
    } else {
        assert(known(codes, bank) =~= codes);
    }
}

/// A sample is no louder than any of the things it is made of: the mix, the envelope where it is, the
/// ramp there and the gain each hold it down, where none of them is more than full.
pub proof fn law_each_part_holds_a_sample_down(p: Params, n: nat, sine: Number)
    requires
        p.mixed(n, sine).magnitude() <= 0x3f80_0000,
        volume(p.part(n), p.attack, p.release).magnitude() <= 0x3f80_0000,
        ramp_gain(n, p.samples()).magnitude() <= 0x3f80_0000,
        p.gain.magnitude() <= 0x3f80_0000,
    ensures
        p.sample(n, sine).magnitude() <= p.mixed(n, sine).magnitude(),
        p.sample(n, sine).magnitude() <= volume(p.part(n), p.attack, p.release).magnitude(),
        p.sample(n, sine).magnitude() <= ramp_gain(n, p.samples()).magnitude(),
        p.sample(n, sine).magnitude() <= p.gain.magnitude(),
{
    let (mix, env) = (p.mixed(n, sine), volume(p.part(n), p.attack, p.release));
    let (ramp, gain) = (ramp_gain(n, p.samples()), p.gain);
    let shaped = mix.product(env);
    law_a_part_is_no_larger(mix, env);
    law_a_part_is_no_larger(env, mix);
    law_products_commute(mix, env);
    law_a_part_is_no_larger(shaped, ramp);
    law_a_part_is_no_larger(ramp, shaped);
    law_products_commute(shaped, ramp);
    let ramped = shaped.product(ramp);
    law_a_part_is_no_larger(ramped, gain);
    law_a_part_is_no_larger(gain, ramped);
    law_products_commute(ramped, gain);
}

} // verus!
