use yugen_render::number::Number;
use yugen_render::rounding::{times_cut_off, times_nearest};

fn num(x: f32) -> Number {
    Number { bits: x.to_bits() }
}

/// Bits from all over the format.
fn bits(n: u32) -> impl Iterator<Item = u32> {
    (0..n).map(|i| {
        let x = i.wrapping_mul(0x9e37_79b9);
        x ^ (x >> 15)
    })
}

#[test]
fn a_whole_number_times_a_fraction_is_as_the_machine_multiplies() {
    let one = 1.0f32.to_bits();
    for (i, b) in bits(100_000).enumerate() {
        let part = f32::from_bits(b % (one + 1));
        let n = (b as u64) >> (i % 32);
        let product = n as f32 * part;
        assert_eq!(times_cut_off(n, part.to_bits()), product as u128, "{n} times {part:e}");
        assert_eq!(times_nearest(n, part.to_bits()), product.round() as u128, "{n} times {part:e}");
    }
    assert_eq!(times_cut_off(5, num(0.7).bits), 3);
    assert_eq!(times_nearest(5, num(0.7).bits), 4);
    assert_eq!(times_nearest(u64::MAX, one), 1 << 64);
    assert_eq!(times_cut_off(0, one), 0);
    assert_eq!(times_cut_off(7, 0), 0);
}

#[test]
fn a_fraction_makes_nothing_larger_and_one_keeps_it() {
    for n in [0, 1, 2, 3, 1000, 0x7f_ffff, 0xff_ffff] {
        assert_eq!(times_nearest(n, 1.0f32.to_bits()), n as u128);
        assert_eq!(times_cut_off(n, 1.0f32.to_bits()), n as u128);
        for b in bits(1000) {
            assert!(times_nearest(n, b % 0x3f80_0001) <= n as u128);
        }
    }
}
