use yugen_render::number::Number;

fn num(x: f32) -> Number {
    Number { bits: x.to_bits() }
}

const SAMPLES: [f32; 12] = [
    f32::NEG_INFINITY,
    f32::MIN,
    -1.5,
    -1.0,
    -1.0e-45,
    -0.0,
    0.0,
    1.0e-45,
    1.0,
    1.0000001,
    f32::MAX,
    f32::INFINITY,
];

#[test]
fn bits_compare_as_the_numbers_they_are() {
    for a in SAMPLES.iter().chain(&[f32::NAN, -f32::NAN]) {
        for b in SAMPLES.iter().chain(&[f32::NAN]) {
            assert_eq!(num(*a).less(num(*b)), a < b, "{a} < {b}");
            assert_eq!(num(*a).at_most(num(*b)), a <= b, "{a} <= {b}");
            assert_eq!(num(*a).equals(num(*b)), a == b, "{a} == {b}");
        }
        assert_eq!(num(*a).is_nan(), a.is_nan());
        assert_eq!(num(*a).is_zero(), *a == 0.0);
        assert_eq!(num(*a).is_at_most_zero(), *a <= 0.0);
        let clamped = num(*a).clamp(num(-1.0), num(1.0));
        assert_eq!(clamped.bits, a.clamp(-1.0, 1.0).to_bits(), "{a}");
    }
}
