use yugen_render::arith::{from_signed, from_whole};
use yugen_render::number::Number;

fn num(x: f32) -> Number {
    Number { bits: x.to_bits() }
}

fn value(n: Number) -> f32 {
    f32::from_bits(n.bits)
}

/// Bits from all over the format.
fn bits(seed: u32, n: u32) -> impl Iterator<Item = u32> {
    (0..n).scan(seed, |x, _| {
        *x ^= *x << 13;
        *x ^= *x >> 17;
        *x ^= *x << 5;
        Some(*x)
    })
}

const SPECIAL: [f32; 22] = [
    0.0,
    -0.0,
    1.0,
    -1.0,
    0.5,
    1.5,
    -2.5,
    3.0,
    0.62,
    16777215.0,
    16777216.0,
    1.0e-45,
    -1.0e-45,
    1.1754942e-38,
    f32::MIN_POSITIVE,
    f32::MAX,
    f32::MIN,
    1.0e30,
    1.0e-30,
    f32::INFINITY,
    f32::NEG_INFINITY,
    f32::NAN,
];

fn same(got: Number, want: f32, what: &str, a: f32, b: f32) {
    if want.is_nan() {
        assert!(got.is_nan(), "{a:e} {what} {b:e}");
    } else {
        assert_eq!(got.bits, want.to_bits(), "{a:e} {what} {b:e}: {:e} for {want:e}", value(got));
    }
}

fn try_pair(a: f32, b: f32) {
    same(num(a).times(num(b)), a * b, "times", a, b);
    same(num(a).over(num(b)), a / b, "over", a, b);
    same(num(a).rest(num(b)), a % b, "rest", a, b);
    same(num(a).plus(num(b)), a + b, "plus", a, b);
    same(num(a).minus(num(b)), a - b, "minus", a, b);
}

#[test]
fn arithmetic_is_the_machines() {
    for a in SPECIAL {
        for b in SPECIAL {
            try_pair(a, b);
        }
    }
    let pairs = bits(1, 60_000).zip(bits(77, 60_000));
    for (a, b) in pairs {
        let (x, y) = (f32::from_bits(a), f32::from_bits(b));
        try_pair(x, y);
        // Of like size, where rounding and the small numbers are.
        try_pair(x, f32::from_bits(a ^ (b & 0x3ff_ffff)));
        try_pair(f32::from_bits(a & 0x80ff_ffff), f32::from_bits(0x3f00_0000 | (b & 0xff_ffff)));
    }
}

#[test]
fn a_floor_is_the_whole_number_below() {
    for x in SPECIAL {
        if x.is_finite() {
            assert_eq!(num(x).floor(), x.floor() as i64, "{x:e}");
        }
    }
    for b in bits(5, 100_000) {
        let x = f32::from_bits(b);
        if x.is_finite() {
            assert_eq!(num(x).floor(), x.floor() as i64, "{x:e}");
        }
        let y = (b as i32 as f32) / 65536.0;
        assert_eq!(num(y).floor(), y.floor() as i64, "{y}");
    }
}

#[test]
fn a_whole_number_becomes_the_nearest_binary32() {
    for n in [0, 1, 2, 3, 16777215, 16777216, 16777217, 16777219, u64::MAX, 1 << 63] {
        assert_eq!(value(from_whole(n)), n as f32, "{n}");
    }
    for (i, b) in bits(9, 10_000).enumerate() {
        let n = (b as u64) << (i % 33);
        assert_eq!(value(from_whole(n)), n as f32, "{n}");
    }
}

#[test]
fn nothing_below_zero_is_left() {
    assert_eq!(value(num(-3.0).max_zero()), 0.0);
    assert_eq!(value(num(f32::NAN).max_zero()), 0.0);
    assert_eq!(value(num(f32::NEG_INFINITY).max_zero()), 0.0);
    assert_eq!(value(num(2.5).max_zero()), 2.5);
}

#[test]
fn whole_numbers_are_cut_and_rounded_as_the_machine_does() {
    let near = (0..4000).map(|i| (i as f32 - 2000.0) * 0.25);
    let all = SPECIAL.into_iter().chain(near).chain(bits(5, 40_000).map(f32::from_bits));
    for a in all {
        let n = num(a);
        same(n.round(), a.round(), "round", a, a);
        same(n.trunc(), a.trunc(), "trunc", a, a);
        assert_eq!(n.to_byte(), a as u8, "{a:e} as a byte");
        assert_eq!(n.to_count(), a as usize, "{a:e} as a count");
        assert_eq!(n.abs().bits, a.abs().to_bits(), "{a:e} without its sign");
    }
    for a in [9.2e18f32, 9.3e18, 1.8e19, 1.9e19, 4.0e9, 4.3e9] {
        assert_eq!(num(a).to_count(), a as usize, "{a:e} as a count");
    }
}

#[test]
fn signed_whole_numbers_are_the_machines() {
    let far = [i64::MIN, i64::MAX, i64::from(i32::MIN), -16_777_217, 16_777_219, 0, -1, 1];
    for n in far.into_iter().chain((0..2000).map(|i| (i - 1000) * 40_503_917)) {
        assert_eq!(value(from_signed(n)), n as f32, "{n}");
    }
}
