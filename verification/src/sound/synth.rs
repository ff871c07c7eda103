//! Parameters to samples: one oscillator, one envelope and some noise over it.

use vstd::prelude::*;

use crate::arith::{
    fraction, fraction_of, from_whole, law_times_zero_is_zero, law_zero_adds_nothing,
    lemma_sum_of_zeros, lemma_zero_goes_into, one, whole_number,
};
use crate::number::{Number, num};
use crate::particles::rng::{law_xorshift_injective, xorshift};

verus! {

/// Samples per second everything is rendered at.
pub const SAMPLE_RATE: u32 = 44_100;

/// Samples of fade forced onto both ends, whatever the envelope says: a millisecond, short enough
/// that no onset loses its character and long enough that a step becomes a ramp.
pub const DECLICK: usize = 44;

/// The noise of a sample index, before it is scaled: a hash of the index and not a stream, so two
/// plays of one sound are the same.
pub open spec fn noise_word(i: u32) -> u32 {
    xorshift(i.wrapping_mul(0x9e37_79b9) | 1)
}

/// The noise of a sample index, from -1 to 1.
pub open spec fn noise(i: u32) -> Number {
    fraction(noise_word(i)).product(num(0x4000_0000)).difference(one())
}

/// Deterministic white noise for a sample index. See [`noise`].
pub fn noise_at(i: u32) -> (out: Number)
    ensures
        out == noise(i),
{
    let mut x: u32 = i.wrapping_mul(0x9e37_79b9) | 1;
    x = x ^ (x << 13u32);
    x = x ^ (x >> 17u32);
    x = x ^ (x << 5u32);
    fraction_of(x).times(num(0x4000_0000)).minus(one())
}

/// No sample index has the word that is nothing.
pub proof fn law_noise_is_never_stuck(i: u32)
    ensures
        noise_word(i) != 0,
{
    let m = i.wrapping_mul(0x9e37_79b9);
    assert(m | 1 != 0) by (bit_vector);
    law_xorshift_injective(m | 1, 0);
    assert(xorshift(0) == 0) by (bit_vector);
}

/// How long each ramp of a sound of `total` samples is. A sound shorter than two ramps gets a
/// triangle.
pub open spec fn ramp_len(total: nat) -> nat {
    let half = total / 2;
    if half >= DECLICK {
        DECLICK as nat
    } else if half >= 1 {
        half
    } else {
        1
    }
}

/// The smaller of two.
pub open spec fn least(a: int, b: int) -> int {
    if a <= b {
        a
    } else {
        b
    }
}

/// The ramp at sample `n`, as a numerator over [`ramp_len`]: up from the first sample, down to the
/// last, and all of it between.
pub open spec fn ramp(n: int, total: int) -> int {
    least(least(n, total - 1 - n), ramp_len(total as nat) as int)
}

/// How much the de-click ramp leaves of sample `n` of `total`.
pub open spec fn ramp_gain(n: nat, total: nat) -> Number {
    whole_number(ramp(n as int, total as int) as nat).quotient(whole_number(ramp_len(total)))
}

/// The de-click ramp at sample `n` of `total`. See [`ramp_gain`].
pub fn declick(n: usize, total: usize) -> (gain: Number)
    requires
        n < total,
    ensures
        gain == ramp_gain(n as nat, total as nat),
{
    let half: usize = total / 2;
    let d: usize = if half >= DECLICK {
        DECLICK
    } else if half >= 1 {
        half
    } else {
        1
    };
    let left: usize = total - 1 - n;
    let near: usize = if n <= left {
        n
    } else {
        left
    };
    let num: usize = if near <= d {
        near
    } else {
        d
    };
    from_whole(num as u64).over(from_whole(d as u64))
}

/// A sound starts and ends at silence, never passes full volume, and reads the same from both
/// ends.
pub proof fn law_sound_opens_and_closes_at_silence(n: int, total: int)
    requires
        0 <= n < total,
    ensures
        ramp(0, total) == 0,
        ramp(total - 1, total) == 0,
        0 <= ramp(n, total) <= ramp_len(total as nat),
        ramp(n, total) == ramp(total - 1 - n, total),
{
}

/// The shape of an oscillation.
#[derive(Clone, Copy, Debug, PartialEq, Eq, Structural)]
pub enum SoundWave {
    Square,
    Saw,
    Sine,
    Triangle,
    Noise,
}

/// One sound's numbers.
#[derive(Clone, Copy, Debug, PartialEq, Eq, Structural)]
pub struct Params {
    pub wave: SoundWave,
    /// The pitch it starts at, in cycles a second.
    pub hz: Number,
    /// The pitch it sweeps to.
    pub hz_to: Number,
    pub seconds: Number,
    /// The part of the sound that it rises over.
    pub attack: Number,
    /// The part that it falls over.
    pub release: Number,
    /// How much of it is noise.
    pub noise: Number,
    pub gain: Number,
}

/// One sound, rendered: samples from -1 to 1.
pub type Pcm = Vec<Number>;

/// Where an oscillator is.
#[derive(Clone, Copy, Debug, PartialEq, Eq, Structural)]
pub struct Voice {
    /// How much of its cycle is over.
    pub phase: Number,
    /// How many cycles are. It is what gives noise a pitch: a new value per cycle rather than per
    /// sample.
    pub hold: u32,
}

/// An oscillator as it starts.
#[verifier::allow_in_spec]
pub fn first_voice() -> Voice
    returns
        (Voice { phase: num(0), hold: 0 }),
{
    Voice { phase: num(0), hold: 0 }
}

/// The whole cycles of a phase taken out and counted, or `None` where the phase is so large that
/// taking one out leaves it as it is.
pub open spec fn unwound(v: Voice) -> Option<Voice>
    decreases
            (if v.phase.rank() < 0 {
                0
            } else {
                v.phase.rank()
            }),
{
    let less = v.phase.difference(one());
    if !one().le(v.phase) {
        Some(v)
    } else if less.lt(v.phase) {
        unwound(Voice { phase: less, hold: v.hold.wrapping_add(1) })
    } else {
        None
    }
}

/// Takes the whole cycles out of a phase. See [`unwound`].
fn unwind(from: Voice) -> (out: Option<Voice>)
    ensures
        out == unwound(from),
{
    let mut v: Voice = from;
    while one().at_most(v.phase)
        invariant
            unwound(v) == unwound(from),
        decreases
                (if v.phase.rank() < 0 {
                    0
                } else {
                    v.phase.rank()
                }),
    {
        let less: Number = v.phase.minus(one());
        if !less.less(v.phase) {
            return None;
        }
        v = Voice { phase: less, hold: v.hold.wrapping_add(1) };
    }
    Some(v)
}

/// One sample of a waveform, from -1 to 1. `sine` is that of the phase as an angle.
pub open spec fn tone_of(wave: SoundWave, v: Voice, sine: Number) -> Number {
    match wave {
        SoundWave::Square => if v.phase.lt(num(0x3f00_0000)) {
            one()
        } else {
            num(0xbf80_0000)
        },
        SoundWave::Saw => v.phase.product(num(0x4000_0000)).difference(one()),
        SoundWave::Sine => sine,
        SoundWave::Triangle => one().difference(
            v.phase.difference(num(0x3f00_0000)).absolute().product(num(0x4080_0000)),
        ),
        SoundWave::Noise => noise(v.hold),
    }
}

/// One sample of a waveform. See [`tone_of`].
pub fn osc(wave: SoundWave, v: Voice, sine: Number) -> (out: Number)
    ensures
        out == tone_of(wave, v, sine),
{
    match wave {
        SoundWave::Square => if v.phase.less(num(0x3f00_0000)) {
            one()
        } else {
            num(0xbf80_0000)
        },
        SoundWave::Saw => v.phase.times(num(0x4000_0000)).minus(one()),
        SoundWave::Sine => sine,
        SoundWave::Triangle => one().minus(
            v.phase.minus(num(0x3f00_0000)).abs().times(num(0x4080_0000)),
        ),
        SoundWave::Noise => noise_at(v.hold),
    }
}

/// The parts of a sound that it rises and falls over: each pulled back between zero and one, and
/// both scaled down until they meet where they would overlap.
pub open spec fn ramps(attack: Number, release: Number) -> (Number, Number) {
    let a = attack.clamped(num(0), one());
    let r = release.clamped(num(0), one());
    if one().lt(a.sum(r)) {
        let k = one().quotient(a.sum(r));
        (a.product(k), r.product(k))
    } else {
        (a, r)
    }
}

/// The volume at a part `t` of a sound: a ramp up, a plateau and a ramp down.
pub open spec fn volume(t: Number, attack: Number, release: Number) -> Number {
    let (a, r) = ramps(attack, release);
    if num(0).lt(a) && t.lt(a) {
        t.quotient(a)
    } else if num(0).lt(r) && one().difference(r).lt(t) {
        one().difference(t).quotient(r)
    } else {
        one()
    }
}

/// The volume envelope. See [`volume`].
pub fn envelope(t: Number, attack: Number, release: Number) -> (out: Number)
    ensures
        out == volume(t, attack, release),
{
    let a: Number = attack.clamp(num(0), one());
    let r: Number = release.clamp(num(0), one());
    let (a, r): (Number, Number) = if one().less(a.plus(r)) {
        let k: Number = one().over(a.plus(r));
        (a.times(k), r.times(k))
    } else {
        (a, r)
    };
    if num(0).less(a) && t.less(a) {
        t.over(a)
    } else if num(0).less(r) && one().minus(r).less(t) {
        one().minus(t).over(r)
    } else {
        one()
    }
}

impl Params {
    /// How many samples the sound has: those of its seconds, cut off after the point.
    pub open spec fn samples(&self) -> nat {
        self.seconds.product(num(0x472c_4400)).count()
    }

    /// The part of the sound that is over at sample `n`.
    pub open spec fn part(&self, n: nat) -> Number {
        whole_number(n).quotient(whole_number(self.samples()))
    }

    /// The pitch at sample `n`: a straight sweep.
    pub open spec fn pitch(&self, n: nat) -> Number {
        self.hz.sum(self.hz_to.difference(self.hz).product(self.part(n)))
    }

    /// The oscillator after `n` samples. The phase is accumulated, because the pitch changes as it
    /// goes.
    pub open spec fn voice(&self, n: nat) -> Option<Voice>
        decreases n,
    {
        if n == 0 {
            Some(first_voice())
        } else {
            match self.voice((n - 1) as nat) {
                None => None,
                Some(v) => unwound(
                    Voice {
                        phase: v.phase.sum(
                            self.pitch((n - 1) as nat).quotient(num(0x472c_4400)),
                        ),
                        hold: v.hold,
                    },
                ),
            }
        }
    }

    /// The tone at sample `n` with the noise over it.
    pub open spec fn mixed(&self, n: nat, sine: Number) -> Number {
        let tone = tone_of(self.wave, self.voice(n + 1)->0, sine);
        tone.product(one().difference(self.noise)).sum(
            noise(n as usize as u32).product(self.noise),
        )
    }

    /// Sample `n`.
    pub open spec fn sample(&self, n: nat, sine: Number) -> Number {
        self.mixed(n, sine).product(volume(self.part(n), self.attack, self.release)).product(
            ramp_gain(n, self.samples()),
        ).product(self.gain).clamped(num(0xbf80_0000), one())
    }

    /// The samples of the sound, given the sine of each phase.
    pub open spec fn rendered(&self, sines: Seq<Number>) -> Seq<Number> {
        Seq::new(self.samples(), |n: int| self.sample(n as nat, sines[n]))
    }

    /// The oscillator one sample on, or `None` where its phase can no longer be counted.
    fn next(&self, total: usize, n: usize, v: Voice) -> (out: Option<Voice>)
        requires
            total == self.samples(),
            self.voice(n as nat) == Some(v),
        ensures
            out == self.voice(n as nat + 1),
    {
        let t: Number = from_whole(n as u64).over(from_whole(total as u64));
        let f: Number = self.hz.plus(self.hz_to.minus(self.hz).times(t));
        unwind(Voice { phase: v.phase.plus(f.over(num(0x472c_4400))), hold: v.hold })
    }
}

/// An oscillator that is lost is not found again.
pub proof fn lemma_lost(p: Params, k: nat, n: nat)
    requires
        k <= n,
        p.voice(k) is None,
    ensures
        p.voice(n) is None,
    decreases n - k,
{
    if k < n {
        lemma_lost(p, k + 1, n);
    }
}

/// The angles whose sines [`render_params`] takes: the phase at each sample, in radians. There are
/// none for a wave that is not a sine, nor where a phase can no longer be counted.
pub fn sine_angles(p: &Params) -> (angles: Vec<Number>)
    ensures
        p.wave != SoundWave::Sine || p.voice(p.samples()) is None ==> angles@.len() == 0,
        p.wave == SoundWave::Sine && p.voice(p.samples()) is Some ==> angles@ == Seq::new(
            p.samples(),
            |n: int| (p.voice((n + 1) as nat)->0).phase.product(num(0x40c9_0fdb)),
        ),
{
    let mut angles: Vec<Number> = Vec::new();
    match p.wave {
        SoundWave::Sine => {},
        _ => return angles,
    }
    let total: usize = p.seconds.times(num(0x472c_4400)).to_count();
    let mut v: Voice = first_voice();
    let mut n: usize = 0;
    while n < total
        invariant
            n <= total,
            total == p.samples(),
            p.wave == SoundWave::Sine,
            p.voice(n as nat) == Some(v),
            angles@ =~= Seq::new(
                n as nat,
                |k: int| (p.voice((k + 1) as nat)->0).phase.product(num(0x40c9_0fdb)),
            ),
        decreases total - n,
    {
        match p.next(total, n, v) {
            Some(next) => {
                v = next;
            },
            None => {
                proof {
                    lemma_lost(*p, n as nat + 1, total as nat);
                }
                return Vec::new();
            },
        }
        angles.push(v.phase.times(num(0x40c9_0fdb)));
        n = n + 1;
    }
    angles
}

/// Renders a sound, given the sines of [`sine_angles`], or `None` where the pitch is so high that a
/// phase can no longer be counted.
pub fn render_params(p: &Params, sines: &Vec<Number>) -> (out: Option<Pcm>)
    requires
        has_sines(*p, sines@),
    ensures
        out is None <==> p.voice(p.samples()) is None,
        out matches Some(pcm) ==> pcm@ == p.rendered(sines@),
{
    let total: usize = p.seconds.times(num(0x472c_4400)).to_count();
    let mut pcm: Vec<Number> = Vec::new();
    let mut v: Voice = first_voice();
    let mut n: usize = 0;
    while n < total
        invariant
            n <= total,
            total == p.samples(),
            has_sines(*p, sines@),
            p.voice(n as nat) == Some(v),
            pcm@.len() == n,
            p.voice(p.samples()) is Some ==> pcm@ =~= p.rendered(sines@).take(n as int),
        decreases total - n,
    {
        match p.next(total, n, v) {
            Some(next) => {
                v = next;
            },
            None => {
                proof {
                    lemma_lost(*p, n as nat + 1, total as nat);
                }
                return None;
            },
        }
        let sine: Number = if n < sines.len() {
            sines[n]
        } else {
            num(0)
        };
        let t: Number = from_whole(n as u64).over(from_whole(total as u64));
        let tone: Number = osc(p.wave, v, sine);
        let grit: Number = noise_at(n as u32).times(p.noise);
        let s: Number = tone.times(one().minus(p.noise)).plus(grit);
        let loud: Number = s.times(envelope(t, p.attack, p.release)).times(declick(n, total));
        pcm.push(loud.times(p.gain).clamp(num(0xbf80_0000), one()));
        proof {
            if p.wave == SoundWave::Sine && p.voice(p.samples()) is Some {
                assert(sine == sines@[n as int]);
            }
            assert(p.wave != SoundWave::Sine ==> p.sample(n as nat, sine) == p.sample(
                n as nat,
                sines@[n as int],
            ));
        }
        n = n + 1;
    }
    Some(pcm)
}

/// The sines that a sound is rendered from are all there.
pub open spec fn has_sines(p: Params, sines: Seq<Number>) -> bool {
    p.wave == SoundWave::Sine && p.voice(p.samples()) is Some ==> sines.len() == p.samples()
}

/// Renders the sound with this code, given its sines, or `None` if there is no such sound or it
/// cannot be rendered. See [`render_params`].
pub fn render(code: u16, table: &Vec<Params>, sines: &Vec<Number>) -> (out: Option<Pcm>)
    requires
        (code as nat) < table@.len() ==> has_sines(table@[code as int], sines@),
    ensures
        out is None <==> code >= table@.len() || table@[code as int].voice(
            table@[code as int].samples(),
        ) is None,
        out matches Some(pcm) ==> pcm@ == table@[code as int].rendered(sines@),
{
    if (code as usize) < table.len() {
        render_params(&table[code as usize], sines)
    } else {
        None
    }
}

/// What a sound of the bank is: its samples, or none where it cannot be rendered.
pub open spec fn banked(p: Params, sines: Seq<Number>) -> Seq<Number> {
    if p.voice(p.samples()) is Some {
        p.rendered(sines)
    } else {
        Seq::empty()
    }
}

/// Every sound in the bank, indexed by code, given the sines of each.
pub fn render_all(table: &Vec<Params>, sines: &Vec<Vec<Number>>) -> (out: Vec<Pcm>)
    requires
        table@.len() <= 0x1_0000,
        sines@.len() == table@.len(),
        forall|i: int| 0 <= i < table@.len() ==> has_sines(#[trigger] table@[i], sines@[i]@),
    ensures
        out@.len() == table@.len(),
        forall|i: int| 0 <= i < out@.len() ==> (#[trigger] out@[i])@ == banked(table@[i], sines@[i]@),
{
    let mut out: Vec<Pcm> = Vec::new();
    let mut i: usize = 0;
    while i < table.len()
        invariant
            i <= table@.len(),
            table@.len() <= 0x1_0000,
            sines@.len() == table@.len(),
            forall|k: int| 0 <= k < table@.len() ==> has_sines(#[trigger] table@[k], sines@[k]@),
            out@.len() == i,
            forall|k: int|
                0 <= k < i ==> (#[trigger] out@[k])@ == banked(table@[k], sines@[k]@),
        decreases table@.len() - i,
    {
        assert(has_sines(table@[i as int], sines@[i as int]@));
        match render(i as u16, table, &sines[i]) {
            Some(pcm) => out.push(pcm),
            None => out.push(Vec::new()),
        }
        i = i + 1;
    }
    out
}

/// Nothing clips: every sample that is a number is between minus one and one.
pub proof fn law_nothing_clips(p: Params, sines: Seq<Number>, n: int)
    requires
        0 <= n < p.samples(),
        p.rendered(sines)[n].is_number(),
    ensures
        num(0xbf80_0000).le(p.rendered(sines)[n]),
        p.rendered(sines)[n].le(one()),
{
}

/// A sound opens and closes at silence, as long as what its envelope leaves is finite.
pub proof fn law_opens_and_closes_at_silence(p: Params, sine: Number, n: nat)
    requires
        n < p.samples(),
        n == 0 || n == p.samples() - 1,
        p.mixed(n, sine).product(volume(p.part(n), p.attack, p.release)).is_finite(),
        p.gain.is_finite(),
    ensures
        p.sample(n, sine).is_zero_spec(),
{
    let loud = p.mixed(n, sine).product(volume(p.part(n), p.attack, p.release));
    let total = p.samples();
    assert(ramp(n as int, total as int) == 0);
    lemma_zero_goes_into(ramp_len(total));
    law_times_zero_is_zero(loud, ramp_gain(n, total));
    law_times_zero_is_zero(p.gain, loud.product(ramp_gain(n, total)));
}

/// A sound with no gain is silent, but is as long as it would be.
pub proof fn law_no_gain_is_silence(p: Params, sines: Seq<Number>, n: int)
    requires
        0 <= n < p.samples(),
        p.gain.is_zero_spec(),
        p.mixed(n as nat, sines[n]).product(
            volume(p.part(n as nat), p.attack, p.release),
        ).product(ramp_gain(n as nat, p.samples())).is_finite(),
    ensures
        p.rendered(sines)[n].is_zero_spec(),
        p.rendered(sines).len() == p.samples(),
{
    law_times_zero_is_zero(
        p.mixed(n as nat, sines[n]).product(
            volume(p.part(n as nat), p.attack, p.release),
        ).product(ramp_gain(n as nat, p.samples())),
        p.gain,
    );
}

/// A sound without a ramp at either end is at full volume throughout.
pub proof fn law_no_envelope_is_flat(t: Number, attack: Number, release: Number)
    requires
        attack.is_zero_spec(),
        release.is_zero_spec(),
    ensures
        volume(t, attack, release) == one(),
{
    lemma_sum_of_zeros(attack, release);
}

/// The sweep starts at the pitch it says it starts at.
pub proof fn law_the_sweep_starts_at_its_pitch(p: Params)
    requires
        0 < p.samples() < 0x100_0000,
        p.hz.is_finite(),
        !p.hz.is_zero_spec(),
        p.hz_to.difference(p.hz).is_finite(),
    ensures
        p.pitch(0) == p.hz,
{
    lemma_zero_goes_into(p.samples());
    law_times_zero_is_zero(p.hz_to.difference(p.hz), p.part(0));
    law_zero_adds_nothing(p.hz, p.hz_to.difference(p.hz).product(p.part(0)));
}

} // verus!
