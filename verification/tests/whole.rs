use yugen_render::arith::{from_signed, from_whole};
use yugen_render::number::Number;

fn num(x: f32) -> Number {
    Number { bits: x.to_bits() }
}

fn value(n: Number) -> f32 {
    f32::from_bits(n.bits)
}

const WHOLE: [i64; 9] = [0, 1, -1, 5, -360, 4095, 65_536, -8_388_607, 8_388_608];

#[test]
fn whole_numbers_add_and_subtract_exactly() {
    for j in WHOLE {
        for k in WHOLE {
            let (a, b) = (from_signed(j), from_signed(k));
            if (j + k).abs() < 0x100_0000 {
                assert_eq!(value(a.plus(b)) as i64, j + k);
            }
            if (j - k).abs() < 0x100_0000 {
                assert_eq!(value(a.minus(b)) as i64, j - k);
            }
        }
    }
    // One step further there is a gap.
    let top = from_whole(0x100_0000);
    assert_eq!(top.plus(from_whole(1)), top);
}

#[test]
fn whole_numbers_multiply_exactly() {
    for j in WHOLE {
        for k in WHOLE {
            if (j * k).abs() < 0x100_0000 {
                assert_eq!(value(from_signed(j).times(from_signed(k))) as i64, j * k);
            }
        }
    }
}

#[test]
fn whole_pixels_stay_where_they_are() {
    for at in WHOLE {
        assert_eq!(from_signed(at).round(), from_signed(at));
    }
}

#[test]
fn a_whole_step_moves_the_pixel_by_as_many() {
    for i in -4000..4000 {
        let x = i as f32 / 16.0 + 1.0 / 64.0;
        for step in [0i64, 1, 5, 250] {
            let moved = num(x).minus(from_signed(step)).round();
            assert_eq!(value(moved), x.round() - step as f32, "{x} less {step}");
        }
    }
    // Halfway, a half goes away from zero on either side of it.
    assert_eq!(value(num(0.5).minus(from_whole(1)).round()), -1.0);
    assert_eq!(0.5f32.round() - 1.0, 0.0);
}
