use yugen_render::pin::{check, hex, is_hex, path, samples_to_bytes, unhex, Difference};

#[test]
fn hex_round_trips_and_ignores_the_wrapping() {
    let bytes: Vec<u8> = (0..=255u8).collect();
    let text = hex(&bytes);
    assert!(text.contains('\n'), "the golden is wrapped");
    assert_eq!(unhex(&text), bytes);
}

#[test]
fn samples_keep_their_exact_bits() {
    // These two are different sounds and round to the same four places.
    let a = 0.1234567_f32;
    let b = f32::from_bits(a.to_bits() + 1);
    assert_ne!(
        samples_to_bytes(&[a.to_bits()]),
        samples_to_bytes(&[b.to_bits()])
    );
    assert_eq!(samples_to_bytes(&[a.to_bits()]), a.to_le_bytes().to_vec());
}

#[test]
fn a_line_of_hex_holds_forty_eight_bytes() {
    assert_eq!(hex(&[]), "\n");
    assert_eq!(hex(&[0x0f, 0xa0]), "0fa0\n");
    let text = hex(&[0xab; 97]);
    let lines: Vec<&str> = text.lines().collect();
    assert_eq!(lines.len(), 3);
    assert_eq!(lines[0], "ab".repeat(48));
    assert_eq!(lines[1], "ab".repeat(48));
    assert_eq!(lines[2], "ab");
}

#[test]
fn unhex_reads_either_case_and_drops_an_odd_digit() {
    assert_eq!(unhex(" 0F\t\r\n a0 7"), vec![0x0f, 0xa0]);
    assert_eq!(unhex("+f"), vec![0x0f]);
    assert!(is_hex("00ff"));
    assert!(!is_hex("0g"));
    assert!(!is_hex("-1"));
}

#[test]
fn a_difference_is_reported_where_it_starts() {
    let golden = hex(&[1, 2, 3]);
    assert_eq!(check(&golden, &[1, 2, 3]), Ok(()));
    assert_eq!(
        check(&golden, &[1, 9, 3]),
        Err(Difference { wanted: 3, got: 3, at: 1 })
    );
    assert_eq!(
        check(&golden, &[1, 2]),
        Err(Difference { wanted: 3, got: 2, at: 2 })
    );
    assert_eq!(
        check(&golden, &[1, 2, 3, 4]),
        Err(Difference { wanted: 3, got: 4, at: 3 })
    );
}

#[test]
fn a_golden_lives_beside_the_workspace_tests() {
    assert_eq!(path("/w/crates/r", "a.hex"), "/w/crates/r/../../tests/pin/a.hex");
    assert_eq!(path("/w/", "a.hex"), "/w/../../tests/pin/a.hex");
    assert_eq!(path("/w", "/abs"), "/abs");
}
