use yugen_render::fixed::push_fixed;
use yugen_render::number::Number;

fn text(x: f32, places: u32) -> String {
    let mut out = String::new();
    push_fixed(&mut out, Number { bits: x.to_bits() }, places);
    out
}

fn machine(x: f32, places: u32) -> String {
    format!("{:.*}", places as usize, x)
}

#[test]
fn a_number_is_written_with_as_many_places_as_it_is_asked_for() {
    assert_eq!(text(0.25, 2), "0.25");
    assert_eq!(text(1.0, 2), "1.00");
    assert_eq!(text(12.0, 1), "12.0");
    assert_eq!(text(60.0, 0), "60");
    assert_eq!(text(0.05, 2), "0.05");
    assert_eq!(text(0.999, 2), "1.00");
    assert_eq!(text(-0.001, 2), "-0.00");
    assert_eq!(text(f32::NAN, 2), "NaN");
    assert_eq!(text(f32::INFINITY, 1), "inf");
    assert_eq!(text(f32::NEG_INFINITY, 0), "-inf");
    assert_eq!(text(f32::MAX, 1), "340282346638528859811704183484516925440.0");
}

#[test]
fn of_two_that_are_equally_near_the_even_one_is_written() {
    for (x, want) in [(0.5, "0"), (1.5, "2"), (2.5, "2"), (-3.5, "-4")] {
        assert_eq!(text(x, 0), want);
    }
    assert_eq!(text(0.125, 2), "0.12");
    assert_eq!(text(0.375, 2), "0.38");
    assert_eq!(text(0.25, 1), "0.2");
    assert_eq!(text(0.75, 1), "0.8");
}

#[test]
fn a_number_is_written_as_the_machine_writes_it() {
    for i in 0..60_000u32 {
        let bits = i.wrapping_mul(0x9e37_79b9);
        let x = f32::from_bits(bits ^ (bits >> 15));
        for places in [0, 1, 2, 9] {
            assert_eq!(text(x, places), machine(x, places), "{x:e}");
        }
    }
    for i in -20_000..20_000 {
        let x = i as f32 / 64.0;
        for places in 0..5 {
            assert_eq!(text(x, places), machine(x, places), "{x}");
        }
    }
}

#[test]
fn a_short_decimal_is_written_as_it_was_read() {
    for (places, of) in [(0u32, 1), (1, 10), (2, 100)] {
        for units in 0..500 * of {
            let (front, back) = (units / of, units % of);
            let word = match places {
                0 => format!("{front}"),
                1 => format!("{front}.{back}"),
                _ => format!("{front}.{back:02}"),
            };
            assert_eq!(text(word.parse().unwrap(), places), word);
        }
    }
}
