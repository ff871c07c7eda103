use yugen_render::number::Number;
use yugen_render::sound::bank::{wav, SoundBank};
use yugen_render::sound::play::{SoundQueue, SoundVolume, MAX_PER_FRAME};
use yugen_render::sound::sample::level;
use yugen_render::sound::synth::{
    declick, envelope, noise_at, render, render_all, render_params, sine_angles, Params, SoundWave,
    DECLICK, SAMPLE_RATE,
};

fn num(x: f32) -> Number {
    Number { bits: x.to_bits() }
}

fn value(n: Number) -> f32 {
    f32::from_bits(n.bits)
}

#[test]
fn the_header_says_what_the_data_is() {
    let bytes = wav(&vec![num(0.0); 100]);
    assert_eq!(&bytes[..4], b"RIFF");
    assert_eq!(&bytes[8..12], b"WAVE");
    assert_eq!(bytes.len(), 44 + 200);
    assert_eq!(
        u32::from_le_bytes(bytes[4..8].try_into().unwrap()),
        (bytes.len() - 8) as u32,
        "the RIFF size must be the file minus its own 8-byte prefix"
    );
    assert_eq!(
        u32::from_le_bytes(bytes[40..44].try_into().unwrap()),
        200,
        "the data size must be the payload"
    );
}

#[test]
fn a_full_scale_sample_does_not_wrap_to_the_bottom() {
    let bytes = wav(&[num(1.0), num(-1.0)]);
    let s = |i: usize| i16::from_le_bytes(bytes[44 + i * 2..46 + i * 2].try_into().unwrap());
    assert_eq!(s(0), 32767);
    assert_eq!(s(1), -32767);
}

#[test]
fn a_level_is_the_product_that_the_machine_computes() {
    let mut x = 1u32;
    let mut bits: Vec<u32> = vec![0, 1, 0x8000_0000, 0x3f80_0000, 0x3f7f_ffff, 0x7f80_0000];
    bits.extend([0x7fc0_0000, 0xff80_0000, 0x0080_0000, 0x007f_ffff, 0xbf7f_ffff]);
    for i in 0..200_000u32 {
        x ^= x << 13;
        x ^= x >> 17;
        x ^= x << 5;
        bits.push(x);
        // Numbers between a half and one, and some a hair below a whole level.
        bits.push(0x3f00_0000 | (x & 0x80ff_ffff));
        let whole = (i % 32768) as f32 / 32767.0;
        bits.push(whole.to_bits());
        bits.push(whole.to_bits().saturating_sub(1));
    }
    for b in bits {
        let s = f32::from_bits(b);
        let want = (s.clamp(-1.0, 1.0) * 32767.0) as i16;
        assert_eq!(level(Number { bits: b }), want, "{s} ({b:#x})");
    }
}

#[test]
fn an_empty_sound_is_still_a_valid_file() {
    let bytes = wav(&[]);
    assert_eq!(bytes.len(), 44);
    assert_eq!(u32::from_le_bytes(bytes[40..44].try_into().unwrap()), 0);
}

#[test]
fn the_whole_file_is_the_canonical_one() {
    let mut want: Vec<u8> = Vec::new();
    want.extend_from_slice(b"RIFF");
    want.extend_from_slice(&46u32.to_le_bytes());
    want.extend_from_slice(b"WAVEfmt ");
    want.extend_from_slice(&16u32.to_le_bytes());
    want.extend_from_slice(&1u16.to_le_bytes());
    want.extend_from_slice(&1u16.to_le_bytes());
    want.extend_from_slice(&SAMPLE_RATE.to_le_bytes());
    want.extend_from_slice(&(SAMPLE_RATE * 2).to_le_bytes());
    want.extend_from_slice(&2u16.to_le_bytes());
    want.extend_from_slice(&16u16.to_le_bytes());
    want.extend_from_slice(b"data");
    want.extend_from_slice(&10u32.to_le_bytes());
    let samples = [0.0f32, -0.25, 7.0, f32::NAN, 0.1];
    for s in samples {
        want.extend_from_slice(&((s.clamp(-1.0, 1.0) * 32767.0) as i16).to_le_bytes());
    }
    assert_eq!(wav(&samples.map(num)), want);
}

#[test]
fn the_bank_is_indexed_by_code() {
    let bank = SoundBank::new(vec!["dig", "dash"]);
    assert_eq!((bank.len(), bank.is_empty()), (2, false));
    assert_eq!(bank.get(1), Some(&"dash"));
    assert_eq!(bank.get(2), None);
    let none: SoundBank<u8> = SoundBank::new(Vec::new());
    assert!(none.is_empty());
}

#[test]
fn the_queue_is_capped_rather_than_unbounded() {
    let mut q = SoundQueue::default();
    for _ in 0..MAX_PER_FRAME * 4 {
        q.play(0);
    }
    assert_eq!(q.pending().len(), MAX_PER_FRAME);
}

#[test]
fn silence_is_a_real_setting() {
    assert_eq!(SoundVolume::default(), SoundVolume(num(0.6)));
    for volume in [0.0, -0.0, -1.0] {
        let mut q = SoundQueue::default();
        q.play(0);
        assert!(q.play_queued(4, num(volume)).is_empty());
        assert!(q.pending().is_empty(), "a sound must not arrive late");
    }
}

#[test]
fn a_queue_plays_what_the_bank_has_in_order_and_is_emptied() {
    let mut q = SoundQueue::default();
    for code in [2, 9, 0, 2] {
        q.play(code);
    }
    assert_eq!(q.play_queued(3, num(0.6)), vec![2, 0, 2]);
    assert!(q.pending().is_empty());
    q.play(1);
    assert!(q.play_queued(0, num(0.6)).is_empty(), "an empty bank plays nothing");
}

#[test]
fn the_de_click_ramp_opens_and_closes_at_silence() {
    for total in [1usize, 2, 3, 87, 88, 89, 882] {
        let gain = |n: usize| value(declick(n, total));
        assert_eq!(gain(0), 0.0, "{total}");
        assert_eq!(gain(total - 1), 0.0, "{total}");
        for n in 0..total {
            let d = DECLICK.min(total / 2).max(1);
            let rise = (n as f32 / d as f32).min(1.0);
            let fall = ((total - 1 - n) as f32 / d as f32).min(1.0);
            assert_eq!(gain(n), rise.min(fall), "{n} of {total}");
        }
    }
    assert_eq!(value(declick(441, 882)), 1.0, "full volume between the ramps");
}

fn machine_noise(i: u32) -> f32 {
    let mut x = i.wrapping_mul(0x9e37_79b9) | 1;
    x ^= x << 13;
    x ^= x >> 17;
    x ^= x << 5;
    (f64::from(x) * 2.328_306_436_538_696_3e-10) as f32 * 2.0 - 1.0
}

/// A fixed case that touches every branch: a real oscillator, a sweep that rises, both ends of the
/// envelope, and a noise mix.
fn pin_case() -> Params {
    Params {
        wave: SoundWave::Triangle,
        hz: num(300.0),
        hz_to: num(900.0),
        seconds: num(0.02),
        attack: num(0.3),
        release: num(0.4),
        noise: num(0.25),
        gain: num(0.8),
    }
}

fn sines_of(p: &Params) -> Vec<Number> {
    sine_angles(p).iter().map(|a| num(value(*a).sin())).collect()
}

fn rendered(p: &Params) -> Vec<f32> {
    let pcm = render_params(p, &sines_of(p)).expect("a phase that can be counted");
    pcm.iter().map(|s| value(*s)).collect()
}

fn peak_of(pcm: &[f32]) -> f32 {
    pcm.iter().fold(0.0f32, |a, s| a.max(s.abs()))
}

fn crossings(w: &[f32]) -> usize {
    w.windows(2).filter(|p| p[0] * p[1] < 0.0).count()
}

/// One sound of every wave, and one that makes none.
fn bank() -> Vec<Params> {
    let dig = Params { wave: SoundWave::Noise, hz: num(700.0), hz_to: num(180.0), ..pin_case() };
    vec![
        dig,
        Params { wave: SoundWave::Square, noise: num(0.0), attack: num(0.0), ..pin_case() },
        Params { wave: SoundWave::Saw, hz: num(55.0), hz_to: num(900.0), ..pin_case() },
        Params { wave: SoundWave::Sine, seconds: num(0.05), ..pin_case() },
        Params { gain: num(0.0), ..pin_case() },
        Params { wave: SoundWave::Sine, noise: num(1.0), gain: num(3.0), ..pin_case() },
    ]
}

/// The synthesiser as the machine computes it.
fn machine(p: &Params) -> Vec<f32> {
    let [hz, hz_to, seconds, attack, release, mix, gain] =
        [p.hz, p.hz_to, p.seconds, p.attack, p.release, p.noise, p.gain].map(value);
    let total = (seconds * 44_100.0) as usize;
    let mut out = Vec::new();
    let mut phase = 0.0f32;
    let mut hold = 0u32;
    for n in 0..total {
        let t = n as f32 / total as f32;
        let f = hz + (hz_to - hz) * t;
        phase += f / 44_100.0;
        while phase >= 1.0 {
            phase -= 1.0;
            hold = hold.wrapping_add(1);
        }
        let tone = match p.wave {
            SoundWave::Square => if phase < 0.5 { 1.0 } else { -1.0 },
            SoundWave::Saw => phase * 2.0 - 1.0,
            SoundWave::Sine => (phase * core::f32::consts::TAU).sin(),
            SoundWave::Triangle => 1.0 - (phase - 0.5).abs() * 4.0,
            SoundWave::Noise => machine_noise(hold),
        };
        let s = tone * (1.0 - mix) + machine_noise(n as u32) * mix;
        let (a, r) = (attack.clamp(0.0, 1.0), release.clamp(0.0, 1.0));
        let (a, r) = if a + r > 1.0 {
            let k = 1.0 / (a + r);
            (a * k, r * k)
        } else {
            (a, r)
        };
        let env = if a > 0.0 && t < a {
            t / a
        } else if r > 0.0 && t > 1.0 - r {
            (1.0 - t) / r
        } else {
            1.0
        };
        let d = DECLICK.min(total / 2).max(1);
        let rise = (n as f32 / d as f32).min(1.0);
        let fall = ((total - 1 - n) as f32 / d as f32).min(1.0);
        out.push((s * env * rise.min(fall) * gain).clamp(-1.0, 1.0));
    }
    out
}

#[test]
fn a_sound_is_what_the_machine_computes() {
    for (i, p) in bank().iter().enumerate() {
        assert_eq!(rendered(p), machine(p), "sound {i}");
    }
    let odd = Params { hz: num(-300.0), hz_to: num(120_000.0), attack: num(0.8), ..pin_case() };
    assert_eq!(rendered(&odd), machine(&odd));
    assert!(rendered(&Params { seconds: num(0.0), ..pin_case() }).is_empty());
    assert!(rendered(&Params { seconds: num(-1.0), ..pin_case() }).is_empty());
    assert!(rendered(&Params { seconds: num(f32::NAN), ..pin_case() }).is_empty());
}

#[test]
fn a_pitch_that_cannot_be_counted_renders_nothing() {
    for hz in [1.0e15f32, 1.0e20, 3.0e38] {
        let p = Params { hz: num(hz), hz_to: num(hz), ..pin_case() };
        assert!(render_params(&p, &Vec::new()).is_none());
        let sine = Params { wave: SoundWave::Sine, ..p };
        assert!(sine_angles(&sine).is_empty());
        assert!(render_params(&sine, &Vec::new()).is_none());
    }
}

#[test]
fn an_ordinary_pitch_is_always_rendered() {
    for (hz, hz_to) in [(0.0, 0.0), (0.0, 44_100.0), (44_100.0, 0.0), (44_100.0, 44_100.0), (1.0e8, 3.0)] {
        let p = Params { hz: num(hz), hz_to: num(hz_to), ..pin_case() };
        assert_eq!(rendered(&p).len(), 882);
    }
}

#[test]
fn a_sweep_starts_at_its_pitch() {
    let p = Params { wave: SoundWave::Sine, ..pin_case() };
    let first = value(sine_angles(&p)[0]);
    assert_eq!(first, 300.0 / 44_100.0 * std::f32::consts::TAU);
}

#[test]
fn every_authored_sound_renders_to_audible_samples() {
    for (code, p) in bank().iter().enumerate() {
        let pcm = rendered(p);
        assert!(!pcm.is_empty(), "sound {code} rendered no samples");
        let peak = peak_of(&pcm);
        if value(p.gain) == 0.0 {
            assert_eq!(peak, 0.0, "sound {code} has no gain but is not silent");
            continue;
        }
        assert!(peak > 0.05, "sound {code} is inaudible: peak {peak}");
    }
}

#[test]
fn the_silence_exemption_only_covers_a_gain_of_zero() {
    let quiet = Params { gain: num(0.01), ..pin_case() };
    assert!(peak_of(&rendered(&quiet)) > 0.0, "0.01 still sounds");
    let silent = Params { gain: num(0.0), ..pin_case() };
    let pcm = rendered(&silent);
    assert!(!pcm.is_empty(), "silence is still the right number of samples");
    assert_eq!(peak_of(&pcm), 0.0);
}

#[test]
fn nothing_clips() {
    for (code, p) in bank().iter().enumerate() {
        for s in rendered(p) {
            assert!((-1.0..=1.0).contains(&s), "sound {code} clipped at {s}");
        }
    }
}

#[test]
fn nothing_clips_however_loud_it_is() {
    let waves = [
        SoundWave::Square,
        SoundWave::Saw,
        SoundWave::Sine,
        SoundWave::Triangle,
        SoundWave::Noise,
    ];
    for wave in waves {
        for (noise, gain) in [(0.0, 1.0e30), (1.0, -5.0), (0.5, 3.0)] {
            let p = Params { wave, noise: num(noise), gain: num(gain), ..pin_case() };
            let pcm = rendered(&p);
            assert!(pcm.iter().all(|s| (-1.0..=1.0).contains(s)), "{wave:?}");
        }
    }
}

#[test]
fn the_envelope_stays_between_silence_and_full_volume() {
    let ends = [0.0, 1.0e-30, 1.0e-8, 3.0e-8, 0.1, 0.3333, 0.7, 1.0, 2.0, -1.0, f32::NAN];
    for a in ends {
        for r in ends {
            for i in 0..=200 {
                let v = env(i as f32 / 200.0, a, r);
                assert!((0.0..=1.0).contains(&v), "{v} at {i} of {a} and {r}");
            }
        }
    }
}

#[test]
fn a_sound_starts_and_ends_at_silence() {
    for (code, p) in bank().iter().enumerate() {
        let pcm = rendered(p);
        let (first, last) = (pcm[0], pcm[pcm.len() - 1]);
        assert!(first.abs() < 0.05, "sound {code} opens on a click: {first}");
        assert!(last.abs() < 0.05, "sound {code} ends on a click: {last}");
    }
}

fn env(t: f32, attack: f32, release: f32) -> f32 {
    value(envelope(num(t), num(attack), num(release)))
}

#[test]
fn the_envelope_is_a_ramp_up_a_plateau_and_a_ramp_down() {
    assert_eq!(env(0.0, 0.25, 0.25), 0.0);
    assert_eq!(env(0.125, 0.25, 0.25), 0.5);
    assert_eq!(env(0.25, 0.25, 0.25), 1.0);
    assert_eq!(env(0.5, 0.25, 0.25), 1.0, "the plateau");
    assert_eq!(env(0.875, 0.25, 0.25), 0.5);
    assert_eq!(env(1.0, 0.25, 0.25), 0.0);
    assert_eq!(env(0.0, 0.0, 0.0), 1.0);
    assert_eq!(env(1.0, 0.0, 0.0), 1.0);
}

#[test]
fn an_overlong_envelope_becomes_a_peak_rather_than_going_negative() {
    let peak = env(0.5, 0.8, 0.8);
    assert!((peak - 1.0).abs() < 1.0e-5, "the two ramps should meet at 1");
    assert_eq!(env(0.0, 0.8, 0.8), 0.0);
    assert_eq!(env(1.0, 0.8, 0.8), 0.0);
}

#[test]
fn the_pin_case_covers_what_the_synth_decides() {
    let pcm = rendered(&pin_case());
    assert_eq!(pcm.len(), 882, "0.02 s at 44100");
    assert!(pcm[0].abs() < 0.05, "the de-click ramp opens it");
    assert!(pcm[pcm.len() - 1].abs() < 0.05, "and closes it");
    assert!(peak_of(&pcm) > 0.3, "the plateau is audible");
    assert!(pcm.iter().all(|s| (-1.0..=1.0).contains(s)), "nothing clips");

    let clean = rendered(&Params { noise: num(0.0), ..pin_case() });
    let third = clean.len() / 3;
    let (early, late) = (crossings(&clean[..third]), crossings(&clean[clean.len() - third..]));
    assert!(late > early, "the pitch did not rise: {early} then {late}");
}

#[test]
fn rendering_a_code_and_rendering_its_parameters_are_the_same_thing() {
    let table = bank();
    for (code, p) in table.iter().enumerate() {
        let sines = sines_of(p);
        assert_eq!(render(code as u16, &table, &sines), render_params(p, &sines));
    }
}

#[test]
fn a_swept_sound_really_changes_pitch() {
    let rising = Params { noise: num(0.0), hz: num(55.0), hz_to: num(900.0), ..pin_case() };
    let falling = Params { hz: rising.hz_to, hz_to: rising.hz, ..rising };
    for (p, rises) in [(rising, true), (falling, false)] {
        let pcm = rendered(&Params { seconds: num(0.1), ..p });
        let third = pcm.len() / 3;
        let (early, late) = (crossings(&pcm[..third]), crossings(&pcm[pcm.len() - third..]));
        if rises {
            assert!(late > early, "should rise: {early} then {late}");
        } else {
            assert!(early > late, "should fall: {early} then {late}");
        }
    }
}

#[test]
fn the_noise_is_the_same_every_time() {
    let table = bank();
    assert_eq!(render(0, &table, &Vec::new()), render(0, &table, &Vec::new()));
    assert_ne!(
        noise_at(0),
        noise_at(1),
        "a hash that returns the same value for every index is not noise"
    );
    for i in [0u32, 1, 12, 44_100, u32::MAX] {
        assert_eq!(value(noise_at(i)), machine_noise(i));
    }
}

#[test]
fn a_code_the_bank_does_not_have_renders_nothing() {
    let table = bank();
    assert!(render(table.len() as u16, &table, &Vec::new()).is_none());
    assert!(render(u16::MAX, &table, &Vec::new()).is_none());
    let sines: Vec<Vec<Number>> = table.iter().map(sines_of).collect();
    let all = render_all(&table, &sines);
    assert_eq!(all.len(), table.len());
    for (i, p) in table.iter().enumerate() {
        assert_eq!(Some(&all[i]), render_params(p, &sines[i]).as_ref());
    }
}
