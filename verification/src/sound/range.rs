//! What a sound keeps to: its envelope between silence and full volume, its oscillator between
//! minus one and one, and so every sample of it.

use vstd::arithmetic::power2::*;
use vstd::prelude::*;

use crate::arith::{
    fraction, law_a_part_is_no_larger, law_itself_goes_in_once,
    law_products_commute, law_times_one_is_itself, law_times_zero_is_zero, lemma_bits_increase,
    lemma_one, lemma_product_is_number, lemma_ratio_stays_below, lemma_size_is_exact,
    lemma_steps_are_sizes, lemma_sum_between, lemma_zero_over, one, ratio, whole_number,
};
use crate::number::{Number, num};
use crate::order::{
    law_products_keep_order, law_quotients_keep_order, lemma_less, lemma_reach,
    lemma_rounded_goes_up, lemma_rounded_is_near, lemma_sum_steps, lemma_values_in_order,
};
use crate::rounding::{
    lemma_rounded_stays_above, lemma_rounded_stays_below, lemma_scaled_is_exact,
    lemma_small_is_exact, rounded,
};
use crate::sound::synth::{
    Params, SoundWave, Voice, lemma_lost, noise, noise_word, ramp, ramp_gain, ramp_len, ramps,
    tone_of, unwound, volume,
};

verus! {

/// A larger whole number is no less as a binary32 number.
pub proof fn lemma_whole_numbers_in_order(few: nat, many: nat)
    requires
        few <= many,
        1 <= many < 0x1_0000_0000_0000_0000,
    ensures
        num(0).le(whole_number(few)),
        whole_number(few).le(whole_number(many)),
        whole_number(many).is_finite(),
        !whole_number(many).negative(),
        !whole_number(many).is_zero_spec(),
{
    reveal(whole_number);
    let d = pow2(149);
    let top = num(0x5f80_0000);
    lemma2_to64();
    lemma_pow2_pos(149);
    lemma_pow2_adds(64, 149);
    lemma_pow2_adds(23, 190);
    lemma_rounded_goes_up(few, many);
    lemma_scaled_is_exact(1, 64);
    lemma_rounded_stays_below(many, pow2(64));
    lemma_small_is_exact(1);
    lemma_rounded_stays_above(many, 1);
    let (p, q) = (rounded(few) * d, rounded(many) * d);
    assert(p <= q && d <= q <= pow2(64) * d) by (nonlinear_arith)
        requires
            p == rounded(few) * d,
            q == rounded(many) * d,
            rounded(few) <= rounded(many),
            1 <= rounded(many) <= pow2(64),
            d > 0,
    ;
    assert(top.size() == 0x80_0000 * pow2(190));
    lemma_size_is_exact(top);
    lemma_bits_increase(p, q);
    lemma_bits_increase(q, top.size());
    lemma_one();
    lemma_size_is_exact(one());
    lemma_bits_increase(d, q);
}

/// A part of a whole number is within none and all of it.
proof fn lemma_part_of_a_count(few: nat, many: nat)
    requires
        few <= many,
        1 <= many < 0x1_0000_0000_0000_0000,
    ensures
        num(0).le(whole_number(few).quotient(whole_number(many))),
        whole_number(few).quotient(whole_number(many)).le(one()),
{
    let (a, b) = (whole_number(few), whole_number(many));
    lemma_whole_numbers_in_order(few, many);
    law_quotients_keep_order(num(0), a, b);
    law_quotients_keep_order(a, b, b);
    law_itself_goes_in_once(b);
    lemma_zero_over(num(0), b);
}

/// The two ramps of an envelope, where they are numbers, are parts of the sound.
proof fn lemma_ramps(attack: Number, release: Number)
    ensures
        ({
            let (a, r) = ramps(attack, release);
            &&& num(0).lt(a) ==> a.le(one())
            &&& num(0).lt(r) ==> r.le(one())
        }),
{
    let a = attack.clamped(num(0), one());
    let r = release.clamped(num(0), one());
    let sum = a.sum(r);
    if one().lt(sum) {
        assert(a.is_number() && r.is_number()) by {
            reveal(Number::sum);
        }
        lemma_values_in_order(a, one());
        lemma_values_in_order(r, one());
        lemma_values_in_order(num(0), a);
        lemma_values_in_order(num(0), r);
        let most = num(0x4000_0000);
        assert(most.size() == 2 * one().size()) by {
            lemma2_to64();
            lemma_one();
            lemma_pow2_adds(23, 127);
            lemma_pow2_unfold(150);
        }
        lemma_values_in_order(one(), most);
        lemma_sum_between(num(0), most, a, r);
        law_quotients_keep_order(one(), sum, sum);
        law_quotients_keep_order(num(0), one(), sum);
        lemma_zero_over(num(0), sum);
        law_itself_goes_in_once(sum);
        let k = one().quotient(sum);
        law_a_part_is_no_larger(a, k);
        law_a_part_is_no_larger(r, k);
        lemma_product_is_number(a, k);
        lemma_product_is_number(r, k);
    }
}

/// The envelope stays between silence and full volume, whatever it rises and falls over.
pub proof fn law_the_envelope_stays_within(t: Number, attack: Number, release: Number)
    requires
        num(0).le(t),
        t.le(one()),
    ensures
        num(0).le(volume(t, attack, release)),
        volume(t, attack, release).le(one()),
{
    let (a, r) = ramps(attack, release);
    lemma_ramps(attack, release);
    if num(0).lt(a) && t.lt(a) {
        law_quotients_keep_order(num(0), t, a);
        law_quotients_keep_order(t, a, a);
        law_itself_goes_in_once(a);
        lemma_zero_over(num(0), a);
    } else if num(0).lt(r) && one().difference(r).lt(t) {
        let left = one().difference(t);
        lemma_less(one(), t);
        assert(left.le(r)) by {
            lemma_values_in_order(t, one());
            lemma_values_in_order(r, one());
            assert(t.negated().magnitude() == t.magnitude());
            assert(r.negated().magnitude() == r.magnitude());
            if one().steps() - t.steps() > r.steps() {
                lemma_sum_between(t, one(), one(), r.negated());
            } else {
                lemma_values_in_order(num(0), t);
                lemma_sum_between(num(0), r, one(), t.negated());
            }
        }
        law_quotients_keep_order(num(0), left, r);
        law_quotients_keep_order(left, r, r);
        law_itself_goes_in_once(r);
        lemma_zero_over(num(0), r);
    }
}

/// The ramps at the ends of a sound stay between silence and full volume.
pub proof fn law_the_declick_stays_within(n: nat, total: nat)
    requires
        n < total,
    ensures
        num(0).le(ramp_gain(n, total)),
        ramp_gain(n, total).le(one()),
{
    lemma_part_of_a_count(ramp(n as int, total as int) as nat, ramp_len(total));
}

/// Noise stays between minus one and one.
pub proof fn law_noise_stays_within(i: u32)
    ensures
        noise(i).magnitude() <= 0x3f80_0000,
{
    let part = fraction(noise_word(i));
    lemma_fraction_is_a_part(noise_word(i));
    lemma_twice_less_one(part);
}

proof fn lemma_fraction_is_a_part(word: u32)
    ensures
        num(0).le(fraction(word)),
        fraction(word).le(one()),
{
    reveal(fraction);
    lemma2_to64();
    lemma_pow2_adds(32, 117);
    lemma_scaled_is_exact(1, 32);
    lemma_rounded_stays_below(word as nat, pow2(32));
    let p = rounded(word as nat) * pow2(117);
    lemma_pow2_pos(117);
    assert(p <= pow2(32) * pow2(117)) by (nonlinear_arith)
        requires
            p == rounded(word as nat) * pow2(117),
            rounded(word as nat) <= pow2(32),
            pow2(117) > 0,
    ;
    lemma_one();
    lemma_size_is_exact(one());
    lemma_bits_increase(p, pow2(149));
}

/// Twice a part, less one, is between minus one and one.
proof fn lemma_twice_less_one(part: Number)
    requires
        num(0).le(part),
        part.le(one()),
    ensures
        part.product(num(0x4000_0000)).difference(one()).magnitude() <= 0x3f80_0000,
{
    let two = num(0x4000_0000);
    law_products_keep_order(num(0), part, two);
    law_products_keep_order(part, one(), two);
    law_times_zero_is_zero(two, num(0));
    law_products_commute(num(0), two);
    law_products_commute(one(), two);
    law_times_one_is_itself(two);
    let double = part.product(two);
    lemma_values_in_order(double, two);
    lemma_values_in_order(num(0), double);
    lemma_two();
    lemma_steps_are_sizes(one());
    assert(one().negated().magnitude() == one().magnitude());
    lemma_sum_between(one().negated(), one(), double, one().negated());
}

proof fn lemma_two()
    ensures
        num(0x4000_0000).steps() == 2 * one().steps(),
        num(0x4000_0000).size() == 2 * one().size(),
        one().steps() == one().size(),
        one().steps() > 0,
{
    lemma2_to64();
    lemma_one();
    lemma_pow2_adds(23, 127);
    lemma_pow2_unfold(150);
    lemma_pow2_pos(149);
}

/// Two numbers that are not below zero have a sum that is not either.
proof fn lemma_not_below(a: Number, b: Number)
    requires
        num(0).le(a),
        num(0).le(b),
    ensures
        num(0).le(a.sum(b)),
{
    reveal(Number::sum);
    if a.is_finite() && b.is_finite() {
        lemma_values_in_order(num(0), a);
        lemma_values_in_order(num(0), b);
    }
}

/// A phase that is not below zero is within a cycle once its whole cycles are taken out.
proof fn lemma_within_a_cycle(v: Voice)
    requires
        num(0).le(v.phase),
    ensures
        unwound(v) matches Some(u) ==> num(0).le(u.phase) && u.phase.lt(one()),
    decreases v.phase.rank(),
{
    let less = v.phase.difference(one());
    if one().le(v.phase) && less.lt(v.phase) {
        if v.phase.is_finite() {
            lemma_less(v.phase, one());
        } else {
            reveal(Number::sum);
        }
        lemma_within_a_cycle(Voice { phase: less, hold: v.hold.wrapping_add(1) });
    }
}

/// The pitch of a sweep between two that are not below zero is not either.
proof fn lemma_pitch(p: Params, n: nat)
    requires
        n < p.samples(),
        p.hz.is_finite(),
        p.hz_to.is_finite(),
        num(0).le(p.hz),
        num(0).le(p.hz_to),
    ensures
        num(0).le(p.pitch(n)),
{
    let t = p.part(n);
    let way = p.hz_to.difference(p.hz);
    lemma_part_of_a_count(n, p.samples());
    lemma_less(p.hz_to, p.hz);
    law_a_part_is_no_larger(way, t);
    let step = way.product(t);
    lemma_product_is_number(way, t);
    if num(0).le(step) {
        lemma_not_below(p.hz, step);
    } else {
        lemma_values_in_order(num(0), p.hz);
        lemma_values_in_order(step, num(0));
        let low = p.hz.negated();
        assert(low.magnitude() == p.hz.magnitude());
        if p.hz.le(p.hz_to) && t.negative() {
            law_times_zero_is_zero(way, t);
        }
        assert(p.hz_to.le(p.hz));
        assert(low.le(way) && low.le(step));
        lemma_values_in_order(low, step);
        lemma_sum_between(num(0), p.hz, p.hz, step);
    }
}

/// An oscillator that is not lost stays within its cycle.
pub proof fn law_a_phase_stays_within_its_cycle(p: Params, n: nat)
    requires
        n <= p.samples(),
        p.hz.is_finite(),
        p.hz_to.is_finite(),
        num(0).le(p.hz),
        num(0).le(p.hz_to),
    ensures
        p.voice(n) matches Some(v) ==> num(0).le(v.phase) && v.phase.lt(one()),
    decreases n,
{
    if n > 0 {
        law_a_phase_stays_within_its_cycle(p, (n - 1) as nat);
        if let Some(v) = p.voice((n - 1) as nat) {
            let f = p.pitch((n - 1) as nat);
            let rate = num(0x472c_4400);
            lemma_pitch(p, (n - 1) as nat);
            if f.is_finite() {
                law_quotients_keep_order(num(0), f, rate);
                lemma_zero_over(num(0), rate);
            } else {
                reveal(Number::quotient);
            }
            lemma_not_below(v.phase, f.quotient(rate));
            lemma_within_a_cycle(Voice { phase: v.phase.sum(f.quotient(rate)), hold: v.hold });
        }
    }
}

/// The highest pitch whose phases can always be counted: 2 to the 22nd cycles a sample.
pub const COUNTABLE: u32 = 0x522c_4400;

/// A phase of up to 2 to the 24th cycles can be unwound.
proof fn lemma_unwinds(v: Voice)
    requires
        num(0).le(v.phase),
        v.phase.le(num(0x4b80_0000)),
    ensures
        unwound(v) is Some,
    decreases v.phase.rank(),
{
    let less = v.phase.difference(one());
    let most = num(0x4b80_0000);
    if one().le(v.phase) {
        let p = v.phase.steps();
        let d = one().steps();
        lemma_values_in_order(one(), v.phase);
        lemma_values_in_order(v.phase, most);
        lemma_two();
        assert(one().negated().magnitude() == one().magnitude());
        lemma_less(v.phase, one());
        lemma_sum_steps(v.phase, one().negated(), most);
        lemma_rounded_is_near((p - d) as nat);
        assert(most.size() == 0x100_0000 * d) by {
            lemma2_to64();
            lemma_one();
            lemma_pow2_adds(1, 149);
            lemma_pow2_adds(1, 150);
            assert(most.size() == 0x80_0000 * pow2(150));
        }
        lemma_values_in_order(v.phase, less);
        assert(less.lt(v.phase));
        lemma_unwinds(Voice { phase: less, hold: v.hold.wrapping_add(1) });
    }
}

/// A step of the phase at such a pitch is up to 2 to the 23rd cycles.
proof fn lemma_step_is_countable(f: Number)
    requires
        num(0).le(f),
        f.is_finite(),
        f.size() <= 2 * num(COUNTABLE).size(),
    ensures
        num(0).le(f.quotient(num(0x472c_4400))),
        f.quotient(num(0x472c_4400)).le(num(0x4b00_0000)),
{
    let (rate, most) = (num(0x472c_4400), num(0x4b00_0000));
    law_quotients_keep_order(num(0), f, rate);
    lemma_zero_over(num(0), rate);
    let d = pow2(149);
    lemma2_to64();
    lemma_pow2_pos(149);
    lemma_pow2_adds(22, 141);
    lemma_pow2_adds(23, 149);
    lemma_pow2_pos(141);
    assert(rate.size() == 0xac_4400 * pow2(141));
    assert(num(COUNTABLE).size() == 0xac_4400 * pow2(163));
    assert(most.size() == 0x80_0000 * pow2(149));
    let n = f.size() * d;
    assert(n <= most.size() * rate.size()) by (nonlinear_arith)
        requires
            n == f.size() * d,
            f.size() <= 2 * (0xac_4400 * pow2(163)),
            pow2(163) == 0x40_0000 * pow2(141),
            most.size() == 0x80_0000 * d,
            rate.size() == 0xac_4400 * pow2(141),
            d > 0,
    ;
    assert(0 < rate.size());
    lemma_size_is_exact(most);
    lemma_ratio_stays_below(n, rate.size(), most.size());
    lemma_bits_increase(ratio(n, rate.size()), most.size());
    reveal(Number::quotient);
    lemma_values_in_order(num(0), f);
}

/// A sound between two pitches that are not below zero, nor past counting, is rendered: its
/// oscillator is never lost.
pub proof fn law_an_ordinary_sound_is_rendered(p: Params, n: nat)
    requires
        n <= p.samples(),
        num(0).le(p.hz),
        num(0).le(p.hz_to),
        p.hz.le(num(COUNTABLE)),
        p.hz_to.le(num(COUNTABLE)),
    ensures
        p.voice(n) is Some,
    decreases n,
{
    if n > 0 {
        let k = (n - 1) as nat;
        law_an_ordinary_sound_is_rendered(p, k);
        law_a_phase_stays_within_its_cycle(p, k);
        let v = p.voice(k)->0;
        let f = p.pitch(k);
        lemma_pitch(p, k);
        let most = num(COUNTABLE);
        let twice = num(0x52ac_4400);
        assert(twice.size() == 2 * most.size()) by {
            lemma_pow2_unfold(164);
            assert(most.size() == 0xac_4400 * pow2(163));
            assert(twice.size() == 0xac_4400 * pow2(164));
        }
        let t = p.part(k);
        let way = p.hz_to.difference(p.hz);
        lemma_part_of_a_count(k, p.samples());
        lemma_less(p.hz_to, p.hz);
        law_a_part_is_no_larger(way, t);
        let step = way.product(t);
        assert(way.magnitude() <= most.magnitude());
        lemma_reach(step, most);
        lemma_values_in_order(num(0), p.hz);
        lemma_values_in_order(p.hz, most);
        let low = num(0xd2ac_4400);
        assert(low.magnitude() == twice.magnitude());
        lemma_steps_are_sizes(twice);
        lemma_sum_between(low, twice, p.hz, step);
        lemma_values_in_order(f, twice);
        lemma_values_in_order(num(0), f);
        lemma_step_is_countable(f);
        let turn = f.quotient(num(0x472c_4400));
        let (top, end) = (num(0x4b00_0000), num(0x4b80_0000));
        lemma_values_in_order(turn, top);
        lemma_values_in_order(num(0), turn);
        lemma_values_in_order(v.phase, one());
        lemma_values_in_order(num(0), v.phase);
        assert(one().size() <= top.size() && end.size() == 2 * top.size()) by {
            lemma2_to64();
            lemma_one();
            lemma_pow2_unfold(150);
            lemma_pow2_pos(149);
            assert(top.size() == 0x80_0000 * pow2(149));
            assert(end.size() == 0x80_0000 * pow2(150));
        }
        lemma_steps_are_sizes(end);
        lemma_sum_between(num(0), end, v.phase, turn);
        lemma_unwinds(Voice { phase: v.phase.sum(turn), hold: v.hold });
    }
}

/// One less four times what is up to a half is between minus one and one.
proof fn lemma_one_less_four_times(x: Number)
    requires
        num(0).le(x),
        x.le(num(0x3f00_0000)),
    ensures
        one().difference(x.product(num(0x4080_0000))).magnitude() <= 0x3f80_0000,
{
    let (half, two, four) = (num(0x3f00_0000), num(0x4000_0000), num(0x4080_0000));
    let d = pow2(149);
    let y = x.product(four);
    lemma2_to64();
    lemma_pow2_pos(149);
    lemma_pow2_adds(23, 125);
    lemma_pow2_adds(23, 128);
    lemma_pow2_adds(23, 127);
    lemma_pow2_adds(148, 151);
    lemma_pow2_adds(150, 149);
    assert(half.size() == 0x80_0000 * pow2(125));
    assert(four.size() == 0x80_0000 * pow2(128));
    assert(two.size() == 0x80_0000 * pow2(127));
    lemma_values_in_order(x, half);
    lemma_values_in_order(num(0), x);
    let n = x.size() * four.size();
    assert(n <= half.size() * four.size()) by (nonlinear_arith)
        requires
            n == x.size() * four.size(),
            x.size() <= half.size(),
    ;
    lemma_size_is_exact(two);
    lemma_ratio_stays_below(n, d, two.size());
    lemma_bits_increase(ratio(n, d), two.size());
    assert(y.magnitude() <= two.magnitude()) by {
        reveal(Number::product);
    }
    law_products_keep_order(num(0), x, four);
    law_times_zero_is_zero(four, num(0));
    law_products_commute(num(0), four);
    lemma_two();
    lemma_values_in_order(y, two);
    lemma_values_in_order(num(0), y);
    assert(y.negated().magnitude() == y.magnitude());
    assert(one().negated().magnitude() == one().magnitude());
    lemma_steps_are_sizes(y);
    lemma_steps_are_sizes(one());
    lemma_sum_between(one().negated(), one(), one(), y.negated());
}

/// Every waveform stays between minus one and one, where its phase is within a cycle and its sine
/// is one.
pub proof fn law_a_tone_stays_within(wave: SoundWave, v: Voice, sine: Number)
    requires
        num(0).le(v.phase),
        v.phase.lt(one()),
        wave == SoundWave::Sine ==> sine.magnitude() <= 0x3f80_0000,
    ensures
        tone_of(wave, v, sine).magnitude() <= 0x3f80_0000,
{
    match wave {
        SoundWave::Saw => {
            lemma_twice_less_one(v.phase);
        },
        SoundWave::Triangle => {
            let half = num(0x3f00_0000);
            let off = v.phase.difference(half);
            lemma_values_in_order(v.phase, one());
            lemma_values_in_order(num(0), v.phase);
            assert(half.negated().magnitude() == half.magnitude());
            assert(2 * half.steps() == one().steps()) by {
                lemma2_to64();
                lemma_one();
                lemma_pow2_adds(23, 125);
                lemma_pow2_unfold(149);
            }
            lemma_steps_are_sizes(half);
            lemma_sum_between(half.negated(), half, v.phase, half.negated());
            lemma_one_less_four_times(off.absolute());
        },
        SoundWave::Noise => {
            law_noise_stays_within(v.hold);
        },
        _ => {},
    }
}

/// Nothing clips: every sample of a sound whose pitches are not below zero, which is up to all
/// noise, is between minus one and one, however loud it is.
pub proof fn law_every_sample_stays_within(p: Params, sine: Number, n: nat)
    requires
        n < p.samples(),
        p.hz.is_finite(),
        p.hz_to.is_finite(),
        num(0).le(p.hz),
        num(0).le(p.hz_to),
        num(0).le(p.noise),
        p.noise.le(one()),
        p.gain.is_finite(),
        p.voice(p.samples()) is Some,
        p.wave == SoundWave::Sine ==> sine.magnitude() <= 0x3f80_0000,
    ensures
        num(0xbf80_0000).le(p.sample(n, sine)),
        p.sample(n, sine).le(one()),
{
    law_a_phase_stays_within_its_cycle(p, n + 1);
    if p.voice(n + 1) is None {
        lemma_lost(p, n + 1, p.samples());
    }
    let tone = tone_of(p.wave, p.voice(n + 1)->0, sine);
    law_a_tone_stays_within(p.wave, p.voice(n + 1)->0, sine);
    let grit = noise(n as usize as u32);
    law_noise_stays_within(n as usize as u32);
    let keep = one().difference(p.noise);
    lemma_less(one(), p.noise);
    law_a_part_is_no_larger(tone, keep);
    law_a_part_is_no_larger(grit, p.noise);
    let (a, b) = (tone.product(keep), grit.product(p.noise));
    let (low, high) = (num(0xc000_0000), num(0x4000_0000));
    lemma_two();
    lemma_reach(a, one());
    lemma_reach(b, one());
    assert(low.magnitude() == high.magnitude());
    lemma_steps_are_sizes(high);
    lemma_sum_between(low, high, a, b);
    let mix = p.mixed(n, sine);
    assert(mix.is_finite());
    let env = volume(p.part(n), p.attack, p.release);
    lemma_part_of_a_count(n, p.samples());
    law_the_envelope_stays_within(p.part(n), p.attack, p.release);
    law_the_declick_stays_within(n, p.samples());
    law_a_part_is_no_larger(mix, env);
    law_a_part_is_no_larger(mix.product(env), ramp_gain(n, p.samples()));
    lemma_product_is_number(mix.product(env).product(ramp_gain(n, p.samples())), p.gain);
}

/// An ordinary sound is heard and does not clip: it is rendered, and every sample of it is between
/// minus one and one.
pub proof fn law_an_ordinary_sound_does_not_clip(p: Params, sines: Seq<Number>, n: int)
    requires
        0 <= n < p.samples(),
        num(0).le(p.hz),
        num(0).le(p.hz_to),
        p.hz.le(num(COUNTABLE)),
        p.hz_to.le(num(COUNTABLE)),
        num(0).le(p.noise),
        p.noise.le(one()),
        p.gain.is_finite(),
        p.wave == SoundWave::Sine ==> sines[n].magnitude() <= 0x3f80_0000,
    ensures
        p.voice(p.samples()) is Some,
        num(0xbf80_0000).le(p.rendered(sines)[n]),
        p.rendered(sines)[n].le(one()),
{
    law_an_ordinary_sound_is_rendered(p, p.samples());
    law_every_sample_stays_within(p, sines[n], n as nat);
}

} // verus!
