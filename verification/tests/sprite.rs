use yugen_render::number::Number;
use yugen_render::sprite::bake::{Rgb, tinted, tint_of};
use yugen_render::sprite::baked::{BakedSprite, CELL_SIZE, SpriteArt};
use yugen_render::sprite::content::{
    ContentArt, ContentSeq, FromContentOpts, SpriteAtlases, sprite_art_from_content,
    sprite_code_of, world_translation,
};
use yugen_render::sprite::error::{SpriteError, VARIANT_COUNT};
use yugen_render::sprite::frames::{
    Beat, ClockReading, Frame, SeqSpec, SpriteClock, frame_at, pick_frame_index, read,
    split_frames,
};
use yugen_render::sprite::pose::{PlayMode, Pose};
use yugen_render::sprite::table::{BakeError, bake_one, bake_sprite_table};

fn num(x: f32) -> Number {
    Number { bits: x.to_bits() }
}

fn value(n: Number) -> f32 {
    f32::from_bits(n.bits)
}

fn strings(rows: &[&str]) -> Vec<String> {
    rows.iter().map(|r| r.to_string()).collect()
}

/// A 2x2 art table with a two-colour palette, for the rasteriser tests.
fn art(frames: Vec<Frame>, mode: PlayMode) -> SpriteArt {
    SpriteArt {
        cells_w: 2,
        cells_h: 2,
        grain: 1,
        pal: strings(&[".", "#102030", "#ff8000"]),
        variants: 1,
        poses: vec![Pose::Idle],
        seqs: vec![SeqSpec {
            frames,
            mode,
            fps: num(10.0),
            blink_every: num(0.0),
            blink_for: num(0.1),
        }],
        fallback: Vec::new(),
    }
}

fn one_frame(rows: [&str; 2]) -> Frame {
    strings(&rows)
}

/// The four RGBA bytes of one texel of a baked strip.
fn texel(b: &BakedSprite, tile: usize, x: u32, y: u32) -> [u8; 4] {
    let w = b.atlas_size().0 as usize;
    let i = ((y as usize * w) + tile * b.cells_w as usize + x as usize) * 4;
    [b.pixels()[i], b.pixels()[i + 1], b.pixels()[i + 2], b.pixels()[i + 3]]
}

#[derive(Clone, Copy)]
struct Clock {
    state_t: f32,
    clock_t: f32,
    phase: f32,
}

const STOPPED: Clock = Clock { state_t: 0.0, clock_t: 0.0, phase: 0.0 };

fn beat(frames: f32) -> Beat {
    let f = frames.floor();
    if f.is_nan() {
        Beat::Undefined
    } else if f == f32::INFINITY {
        Beat::PastEnd
    } else if f == f32::NEG_INFINITY {
        Beat::BeforeStart
    } else {
        Beat::At(f as i64)
    }
}

/// What a clock reads against a sequence's cadence, on the machine's own numbers.
fn reading(s: &SeqSpec, clock: Clock) -> ClockReading {
    let fps = value(s.fps);
    let raw = clock.clock_t.max(0.0);
    let period = value(s.blink_every);
    let step = 1.0 / fps;
    let (breath, blink) = if period.is_nan() || period <= 0.0 {
        (beat(raw / step), None)
    } else {
        let t = raw % period;
        (beat(t / step), Some(t < value(s.blink_for)))
    };
    ClockReading {
        phase: beat(clock.phase * s.frames.len() as f32),
        state: beat(clock.state_t.max(0.0) * fps),
        breath,
        blink,
    }
}

fn at(clock: Clock) -> SpriteClock {
    SpriteClock {
        state_t: num(clock.state_t),
        clock_t: num(clock.clock_t),
        phase: num(clock.phase),
    }
}

fn pick(s: &SeqSpec, clock: Clock) -> usize {
    pick_frame_index(s, &at(clock))
}

// -- Rasterising ------------------------------------------------------------

#[test]
fn a_frame_bakes_one_texel_per_cell_at_the_authored_palette_colour() {
    let a = art(vec![one_frame(["12", "21"])], PlayMode::Hold);
    let b = BakedSprite::new(&a, "t").unwrap();
    assert_eq!(b.atlas_size(), (2, 2), "one texel per cell");
    assert_eq!(texel(&b, 0, 0, 0), [0x10, 0x20, 0x30, 255]);
    assert_eq!(texel(&b, 0, 1, 0), [0xff, 0x80, 0x00, 255]);
    assert_eq!(texel(&b, 0, 0, 1), [0xff, 0x80, 0x00, 255]);
    assert_eq!(texel(&b, 0, 1, 1), [0x10, 0x20, 0x30, 255]);
}

#[test]
fn the_art_rect_is_a_whole_number_of_cells_in_world_px() {
    let a = art(vec![one_frame(["12", "21"])], PlayMode::Hold);
    let b = BakedSprite::new(&a, "t").unwrap();
    assert_eq!(b.w_px, 2 * CELL_SIZE);
    assert_eq!(b.h_px, 2 * CELL_SIZE);
}

#[test]
fn both_spellings_of_transparent_are_left_unpainted_and_fully_clear() {
    let a = art(vec![one_frame([".0", "0."])], PlayMode::Hold);
    let b = BakedSprite::new(&a, "t").unwrap();
    for (x, y) in [(0, 0), (1, 0), (0, 1), (1, 1)] {
        assert_eq!(texel(&b, 0, x, y), [0, 0, 0, 0], "({x},{y}) should be clear");
    }
}

#[test]
fn the_transparent_slot_is_never_parsed_as_a_colour() {
    let a = art(vec![one_frame(["11", "11"])], PlayMode::Hold);
    assert!(BakedSprite::new(&a, "t").is_ok());
}

#[test]
fn a_row_of_the_wrong_width_is_a_construction_error() {
    let a = art(vec![one_frame(["123", "12"])], PlayMode::Hold);
    assert_eq!(
        BakedSprite::new(&a, "t").unwrap_err(),
        SpriteError::RowWidth { who: "t.Idle[0]".into(), row: 0, chars: 3, expected: 2 }
    );
}

#[test]
fn a_frame_with_the_wrong_number_of_rows_is_a_construction_error() {
    let a = art(vec![strings(&["12"])], PlayMode::Hold);
    assert!(matches!(
        BakedSprite::new(&a, "t").unwrap_err(),
        SpriteError::FrameRows { rows: 1, expected: 2, .. }
    ));
}

#[test]
fn a_character_outside_the_palette_is_a_construction_error() {
    for bad in ["a2", "92"] {
        let a = art(vec![one_frame([bad, "12"])], PlayMode::Hold);
        assert!(
            matches!(
                BakedSprite::new(&a, "t").unwrap_err(),
                SpriteError::PaletteIndex { row: 0, col: 0, .. }
            ),
            "{bad:?} should not bake"
        );
    }
}

#[test]
fn only_the_nine_digits_index_the_palette() {
    let mut a = art(vec![one_frame(["9.", "01"])], PlayMode::Hold);
    a.pal = vec![".".to_string()];
    a.pal.extend((0..11).map(|i| format!("#0000{i:02x}")));
    assert!(BakedSprite::new(&a, "t").is_ok());
    for bad in [":2", ";2", "/2"] {
        a.seqs[0].frames = vec![one_frame([bad, "12"])];
        assert!(
            matches!(
                BakedSprite::new(&a, "t").unwrap_err(),
                SpriteError::PaletteIndex { row: 0, col: 0, .. }
            ),
            "{bad:?} should not bake"
        );
    }
}

#[test]
fn only_a_state_with_frames_can_be_shown() {
    let mut a = art(vec![one_frame(["12", "21"])], PlayMode::Loop);
    assert!(a.has_room());
    let b = BakedSprite::new(&a, "t").unwrap();
    assert!(b.can_show(b.first_state()));
    assert_eq!((b.cells_w, b.cells_h, b.grain), (2, 2, 1));
    assert_eq!((b.w_px, b.h_px, b.variants, b.bake_count), (10, 10, 1, 1));
    a.seqs[0].frames.clear();
    let b = BakedSprite::new(&a, "t").unwrap();
    assert!(!b.can_show(b.first_state()));
    a.cells_w = u32::MAX;
    assert!(!a.has_room());
}

#[test]
fn a_palette_entry_that_is_not_six_hex_digits_is_a_construction_error() {
    for pal in [
        [".", "#12345", "#ff8000"],
        [".", "102030", "#ff8000"],
        [".", "#nothex", "#ff8000"],
        [".", "#1234567", "#ff8000"],
    ] {
        let mut a = art(vec![one_frame(["12", "21"])], PlayMode::Hold);
        a.pal = strings(&pal);
        assert!(
            matches!(BakedSprite::new(&a, "t").unwrap_err(), SpriteError::Palette { .. }),
            "{:?} should not parse",
            pal[1]
        );
    }
}

#[test]
fn a_tiles_uv_rect_is_its_share_of_the_strip_and_mirrors_in_place() {
    let mut a = art(vec![one_frame(["12", "21"])], PlayMode::Loop);
    a.seqs[0].frames =
        vec![one_frame(["12", "21"]), one_frame(["11", "22"]), one_frame(["22", "11"])];
    let b = BakedSprite::new(&a, "t").unwrap();
    assert_eq!(b.bake_count, 3);

    // Where it starts and how far it runs, each way.
    let uv = |tile: usize, flip: bool| {
        let r = b.tile_uv(tile, flip);
        [value(r.u0), value(r.v0), value(r.du), value(r.dv)]
    };
    assert_eq!(uv(1, false), [1.0 / 3.0, 0.0, 1.0 / 3.0, 1.0]);
    let flipped = uv(1, true);
    assert_eq!(flipped, [2.0 / 3.0, 0.0, -1.0 / 3.0, 1.0]);
    let plain = uv(1, false);
    assert_eq!(flipped[0] + flipped[2], plain[0], "same span, other end");
    assert_eq!(uv(0, false)[0], 0.0);
    assert_eq!(uv(2, false)[0] + uv(2, false)[2], 1.0);
}

// -- Pose sharing and variants ------------------------------------------------

fn seq(frames: Vec<Frame>, mode: PlayMode, fps: f32) -> SeqSpec {
    SeqSpec {
        frames,
        mode,
        fps: num(fps),
        blink_every: num(0.0),
        blink_for: num(0.0),
    }
}

#[test]
fn a_pose_repeated_across_sequences_bakes_once() {
    let neutral = one_frame(["12", "21"]);
    let other = one_frame(["11", "22"]);
    let mut a = art(vec![neutral.clone()], PlayMode::Loop);
    a.poses = vec![Pose::Idle, Pose::Run];
    a.seqs = vec![
        seq(vec![neutral.clone(), other.clone()], PlayMode::Loop, 8.0),
        seq(vec![other, neutral], PlayMode::Loop, 8.0),
    ];
    let b = BakedSprite::new(&a, "t").unwrap();

    assert_eq!(b.bake_count, 2, "four frames, two distinct poses");
    let idle = b.state_id(Pose::Idle).unwrap();
    let run = b.state_id(Pose::Run).unwrap();
    let late_run = at(Clock { state_t: 0.2, ..STOPPED });
    assert_eq!(b.frame_index(run, &late_run), 1);
    assert_eq!(b.still_tile(idle, 0), b.tile(run, 0, &late_run));
}

#[test]
fn each_variant_is_the_same_pose_through_its_own_tint() {
    let mut a = art(vec![one_frame(["11", "11"])], PlayMode::Hold);
    a.variants = 3;
    let b = BakedSprite::new(&a, "t").unwrap();

    assert_eq!(b.bake_count, 3, "one pose, three tints, three tiles");
    let s = b.first_state();
    let v0 = texel(&b, b.still_tile(s, 0), 0, 0);
    let v1 = texel(&b, b.still_tile(s, 1), 0, 0);
    assert_eq!(v0, [0x10, 0x20, 0x30, 255]);
    assert_ne!(v0, v1);
    assert!(v1[0] > v0[0] && v1[2] < v0[2]);
}

#[test]
fn a_variant_tilt_saturates_rather_than_wrapping_round_to_black() {
    let mut a = art(vec![one_frame(["22", "22"])], PlayMode::Hold);
    a.pal = strings(&[".", "#102030", "#ffffff"]);
    a.variants = 2;
    let b = BakedSprite::new(&a, "t").unwrap();
    let warm = texel(&b, b.still_tile(b.first_state(), 1), 0, 0);
    assert_eq!(
        [warm[0], warm[1]],
        [255, 255],
        "both channels this tilt brightens clamp at white"
    );
    assert_eq!(warm[2], (255.0f32 * 0.9).round() as u8);
    assert_eq!(warm[3], 255);
}

#[test]
fn asking_for_more_variants_than_the_tint_table_has_is_a_construction_error() {
    let mut a = art(vec![one_frame(["12", "21"])], PlayMode::Hold);
    a.variants = VARIANT_COUNT + 1;
    assert!(matches!(
        BakedSprite::new(&a, "t").unwrap_err(),
        SpriteError::VariantCount { .. }
    ));
    a.variants = 0;
    assert!(matches!(
        BakedSprite::new(&a, "t").unwrap_err(),
        SpriteError::VariantCount { .. }
    ));
}

#[test]
fn a_variant_index_from_an_entity_id_wraps_instead_of_indexing_out() {
    let mut a = art(vec![one_frame(["11", "11"])], PlayMode::Hold);
    a.variants = 3;
    let b = BakedSprite::new(&a, "t").unwrap();
    let s = b.first_state();
    assert_eq!(b.still_tile(s, 7), b.still_tile(s, 1));
    assert_eq!(b.still_tile(s, 300), b.still_tile(s, 0));
}

#[test]
fn every_tint_is_the_rounded_product_of_its_factor() {
    // The factors as binary32 numbers, for every value a channel can have.
    let factors: [[f32; 3]; 3] = [[1.0, 1.0, 1.0], [1.12, 1.02, 0.9], [0.9, 0.99, 1.14]];
    for (variant, f) in factors.iter().enumerate() {
        let tint = tint_of(variant);
        for c in 0..=255u8 {
            let got = tinted(Rgb { r: c, g: c, b: c }, tint);
            let want = |k: f32| (c as f32 * k).round().min(255.0) as u8;
            assert_eq!([got.r, got.g, got.b], [want(f[0]), want(f[1]), want(f[2])]);
        }
    }
}

// -- The frame picker ---------------------------------------------------------

fn strip(n: usize) -> SeqSpec {
    SeqSpec {
        frames: (0..n).map(|_| one_frame(["12", "21"])).collect(),
        mode: PlayMode::Loop,
        fps: num(10.0),
        blink_every: num(0.0),
        blink_for: num(0.1),
    }
}

#[test]
fn a_single_frame_sequence_is_frame_zero_in_every_mode() {
    for mode in [
        PlayMode::Hold,
        PlayMode::Loop,
        PlayMode::Once,
        PlayMode::Phase,
        PlayMode::Ambient,
    ] {
        let mut s = strip(1);
        s.mode = mode;
        let clock = Clock { state_t: 99.0, clock_t: 99.0, phase: 0.9 };
        assert_eq!(pick(&s, clock), 0, "{mode:?}");
    }
}

#[test]
fn hold_ignores_the_clock_entirely() {
    let mut s = strip(4);
    s.mode = PlayMode::Hold;
    assert_eq!(pick(&s, Clock { state_t: 99.0, clock_t: 99.0, phase: 0.75 }), 0);
}

#[test]
fn loop_advances_with_the_state_clock_and_wraps() {
    let s = strip(4);
    for (t, want) in [(0.0, 0), (0.05, 0), (0.1, 1), (0.35, 3), (0.4, 0), (0.45, 0)] {
        assert_eq!(pick(&s, Clock { state_t: t, ..STOPPED }), want, "t={t}");
    }
}

#[test]
fn once_holds_its_last_frame_forever() {
    let mut s = strip(3);
    s.mode = PlayMode::Once;
    for (t, want) in [(0.0, 0), (0.1, 1), (0.2, 2), (0.3, 2), (100.0, 2)] {
        assert_eq!(pick(&s, Clock { state_t: t, ..STOPPED }), want, "t={t}");
    }
}

#[test]
fn phase_indexes_off_distance_travelled_rather_than_time() {
    let mut s = strip(4);
    s.mode = PlayMode::Phase;
    for (p, want) in [(0.0, 0), (0.24, 0), (0.25, 1), (0.5, 2), (0.99, 3)] {
        let clock = Clock { phase: p, state_t: 99.0, clock_t: 99.0 };
        assert_eq!(pick(&s, clock), want, "phase={p}");
    }
}

#[test]
fn a_negative_clock_wraps_back_into_range_instead_of_blanking_the_sprite() {
    let mut s = strip(4);
    assert_eq!(pick(&s, Clock { state_t: -1.0, ..STOPPED }), 0, "loop clamps state_t at 0");

    s.mode = PlayMode::Phase;
    // floor(-0.3 * 4) is -2, wrapped into 0..4 is 2.
    assert_eq!(pick(&s, Clock { phase: -0.3, ..STOPPED }), 2);

    s.mode = PlayMode::Once;
    assert_eq!(pick(&s, Clock { state_t: -5.0, ..STOPPED }), 0);
}

#[test]
fn a_non_finite_clock_falls_back_to_the_neutral_pose() {
    let mut s = strip(4);
    for mode in [PlayMode::Loop, PlayMode::Phase, PlayMode::Once, PlayMode::Ambient] {
        s.mode = mode;
        let clock = Clock { state_t: f32::NAN, clock_t: f32::NAN, phase: f32::NAN };
        assert_eq!(pick(&s, clock), 0, "{mode:?}");
    }
}

#[test]
fn an_ambient_sequence_with_no_blink_period_loops_over_every_frame() {
    let mut s = strip(3);
    s.mode = PlayMode::Ambient;
    s.fps = num(2.0);
    s.blink_every = num(0.0);
    let seen: Vec<usize> = [0.0, 0.5, 1.0, 1.5]
        .iter()
        .map(|t| pick(&s, Clock { clock_t: *t, ..STOPPED }))
        .collect();
    assert_eq!(seen, vec![0, 1, 2, 0]);
}

fn blinking() -> SeqSpec {
    let mut s = strip(3);
    s.mode = PlayMode::Ambient;
    s.fps = num(2.0);
    s.blink_every = num(4.0);
    s.blink_for = num(0.2);
    s
}

#[test]
fn an_ambient_sequence_reserves_its_last_frame_for_the_blink() {
    let s = blinking();
    for t in [0.0, 0.1, 4.0, 4.1] {
        assert_eq!(pick(&s, Clock { clock_t: t, ..STOPPED }), 2, "t={t} is inside the blink");
    }
    for t in [0.3, 0.9, 1.4, 2.6, 3.9] {
        let i = pick(&s, Clock { clock_t: t, ..STOPPED });
        assert!(i < 2, "the breath must not show the blink frame, t={t} gave {i}");
    }
}

#[test]
fn the_ambient_breath_restarts_in_step_with_every_blink() {
    let s = blinking();
    for t in [0.3, 0.9, 1.4, 3.9] {
        let a = pick(&s, Clock { clock_t: t, ..STOPPED });
        let b = pick(&s, Clock { clock_t: t + 4.0, ..STOPPED });
        assert_eq!(a, b, "the breath should repeat with the period, t={t}");
    }
}

// -- split_frames -------------------------------------------------------------

#[test]
fn split_frames_reads_a_body_as_a_filmstrip_separated_by_blank_lines() {
    let body = strings(&["12", "21", "", "", "11", "22", ""]);
    let f = split_frames(&body, 2, "t").unwrap();
    assert_eq!(f.len(), 2);
    assert_eq!(f[0], vec!["12", "21"]);
    assert_eq!(f[1], vec!["11", "22"]);
}

#[test]
fn split_frames_rejects_a_frame_whose_row_count_disagrees_with_the_art_grid() {
    let body = strings(&["12", "21", "", "11", "22"]);
    assert!(matches!(
        split_frames(&body, 3, "t").unwrap_err(),
        SpriteError::FrameRows { frame: 0, rows: 2, expected: 3, .. }
    ));
}

#[test]
fn split_frames_of_an_empty_body_is_no_frames_rather_than_one_empty_one() {
    assert!(split_frames(&Vec::new(), 2, "t").unwrap().is_empty());
}

#[test]
fn split_frames_keeps_every_row_in_order() {
    let body = strings(&["", "a", "b", "", "c", "d"]);
    let frames = split_frames(&body, 2, "t").unwrap();
    let rows: Vec<String> = frames.into_iter().flatten().collect();
    assert_eq!(rows, vec!["a", "b", "c", "d"]);
}

// -- Fallback -----------------------------------------------------------------

fn two_state_art(poses: Vec<Pose>, fallback: Vec<(Pose, Pose)>) -> SpriteArt {
    let one = seq(vec![one_frame(["12", "21"])], PlayMode::Hold, 8.0);
    SpriteArt {
        grain: 1,
        cells_w: 2,
        cells_h: 2,
        pal: strings(&[".", "#102030", "#ff8000"]),
        variants: 1,
        seqs: vec![one; poses.len()],
        poses,
        fallback,
    }
}

#[test]
fn an_unauthored_pose_borrows_the_sequence_the_renderer_names() {
    let a = two_state_art(vec![Pose::Idle, Pose::Move], vec![(Pose::Air, Pose::Move)]);
    let b = BakedSprite::new(&a, "t").unwrap();
    assert_eq!(b.state_id(Pose::Air), b.state_id(Pose::Move));
    assert_eq!(b.state_id(Pose::Air).unwrap().index(), 1);
}

#[test]
fn a_fallback_chain_is_chased_until_it_lands_on_a_real_sequence() {
    let a = two_state_art(
        vec![Pose::Idle],
        vec![(Pose::Air, Pose::Move), (Pose::Move, Pose::Idle)],
    );
    let b = BakedSprite::new(&a, "t").unwrap();
    assert_eq!(b.state_id(Pose::Air), b.state_id(Pose::Idle));
    assert_eq!(b.state_id(Pose::Move), b.state_id(Pose::Idle));
}

#[test]
fn an_authored_pose_beats_a_fallback_that_names_it() {
    let a = two_state_art(vec![Pose::Idle, Pose::Air], vec![(Pose::Air, Pose::Idle)]);
    let b = BakedSprite::new(&a, "t").unwrap();
    assert_eq!(b.state_id(Pose::Air).unwrap().index(), 1, "authored wins");
}

#[test]
fn a_fallback_cycle_is_a_construction_error_rather_than_a_hang() {
    let a = two_state_art(
        vec![Pose::Idle],
        vec![(Pose::Air, Pose::Move), (Pose::Move, Pose::Air)],
    );
    assert!(matches!(
        BakedSprite::new(&a, "t").unwrap_err(),
        SpriteError::FallbackCycle { from: Pose::Air, .. }
    ));
}

#[test]
fn a_fallback_that_names_no_sequence_is_a_construction_error() {
    let a = two_state_art(vec![Pose::Idle], vec![(Pose::Air, Pose::Move)]);
    assert!(matches!(
        BakedSprite::new(&a, "t").unwrap_err(),
        SpriteError::FallbackDangling { from: Pose::Air, to: Pose::Move, .. }
    ));
}

#[test]
fn a_pose_declared_twice_is_a_construction_error() {
    let a = two_state_art(vec![Pose::Idle, Pose::Idle], Vec::new());
    assert!(matches!(
        BakedSprite::new(&a, "t").unwrap_err(),
        SpriteError::DuplicatePose { pose: Pose::Idle, .. }
    ));
}

#[test]
fn a_pose_the_sprite_never_authored_and_never_borrowed_is_absent() {
    let a = two_state_art(vec![Pose::Idle], Vec::new());
    let b = BakedSprite::new(&a, "t").unwrap();
    assert_eq!(b.state_id(Pose::Swim), None);
}

// -- The content bridge -------------------------------------------------------

fn content_seq(pose: Pose, mode: PlayMode, fps: f32, frames: &[&str]) -> ContentSeq {
    ContentSeq {
        pose,
        mode,
        fps: num(fps),
        blink_every: num(0.0),
        blink_for: num(0.0),
        frames: strings(frames),
    }
}

/// A record with a rate of its own on one sequence and an inherited one on the other.
fn player() -> ContentArt {
    ContentArt {
        cells_w: 2,
        cells_h: 2,
        grain: 1,
        pal: strings(&[".", "#102030", "#ff8000"]),
        fps: num(7.0),
        variants: 1,
        seq: vec![
            content_seq(Pose::Idle, PlayMode::Ambient, 1.6129032, &["12", "21", "", "11", "22"]),
            content_seq(Pose::Run, PlayMode::Phase, 0.0, &["12", "21", "", "22", "11"]),
        ],
    }
}

#[test]
fn the_ambient_beat_divides_where_every_other_mode_multiplies() {
    let authored = &player().seq[0];
    assert_eq!(authored.pose, Pose::Idle);
    assert_eq!(authored.mode, PlayMode::Ambient);
    let beat = 1.0 / value(authored.fps);
    assert!((beat - 0.62).abs() < 1e-6, "the beat should round-trip to 0.62s, was {beat}");
}

#[test]
fn a_sequence_fps_of_zero_inherits_the_sprite_wide_rate() {
    let def = player();
    let a = sprite_art_from_content(&def, "player", &FromContentOpts::default()).unwrap();
    for (i, s) in def.seq.iter().enumerate() {
        let want = if value(s.fps) == 0.0 { def.fps } else { s.fps };
        assert_eq!(a.seqs[i].fps, want, "{:?}", s.pose);
    }
    assert!(def.seq.iter().any(|s| value(s.fps) == 0.0));
    // A negative zero is unset as well.
    let mut negative = def.clone();
    negative.seq[1].fps = num(-0.0);
    let b = sprite_art_from_content(&negative, "player", &FromContentOpts::default()).unwrap();
    assert_eq!(b.seqs[1].fps, num(7.0));
}

#[test]
fn the_rate_scale_multiplies_whichever_rate_won() {
    let def = player();
    let rate = |s: &SeqSpec| value(s.fps);
    let plain = sprite_art_from_content(&def, "player", &FromContentOpts::default()).unwrap();
    let scaled = sprite_art_from_content(
        &def,
        "player",
        &FromContentOpts {
            rate_scale: vec![(Pose::Idle, num(0.5))],
            ..FromContentOpts::default()
        },
    )
    .unwrap();
    let i = plain.poses.iter().position(|p| *p == Pose::Idle).unwrap();
    assert_eq!(rate(&scaled.seqs[i]), rate(&plain.seqs[i]) * 0.5);
    let r = plain.poses.iter().position(|p| *p == Pose::Run).unwrap();
    assert_eq!(rate(&scaled.seqs[r]), rate(&plain.seqs[r]), "unnamed poses are untouched");
}

#[test]
fn the_variant_override_beats_what_content_declared() {
    let def = player();
    assert_eq!(def.variants, 1);
    let a = sprite_art_from_content(
        &def,
        "player",
        &FromContentOpts { variants: Some(VARIANT_COUNT), ..FromContentOpts::default() },
    )
    .unwrap();
    assert_eq!(a.variants, VARIANT_COUNT);
}

#[test]
fn every_sprite_in_the_compiled_table_bakes() {
    let table = vec![("player".to_string(), player()), ("icon".to_string(), player())];
    let baked = bake_sprite_table(&table).unwrap();
    assert_eq!(baked.len(), table.len());
    for (b, (id, def)) in baked.iter().zip(&table) {
        assert!(b.bake_count > 0, "{id} baked nothing");
        assert_eq!(b.cells_w, def.cells_w as u32);
        assert_eq!(b.cells_h, def.cells_h as u32);
        let (w, h) = b.atlas_size();
        assert_eq!(b.pixels().len(), (w * h * 4) as usize);
    }
}

#[test]
fn a_table_reports_its_first_bad_record_by_place() {
    let mut broken = player();
    broken.seq.clear();
    let table = vec![
        ("player".to_string(), player()),
        ("hole".to_string(), broken.clone()),
        ("hole".to_string(), broken),
    ];
    let (at, e) = bake_sprite_table(&table).unwrap_err();
    assert_eq!(at, 1);
    assert_eq!(e, BakeError::Sprite(SpriteError::NoSequences { who: "hole".to_string() }));

    // A sequence with no frames is as loud, wherever it stands.
    let mut blank = player();
    blank.seq.push(content_seq(Pose::Air, PlayMode::Hold, 0.0, &[]));
    let table = vec![
        ("player".to_string(), player()),
        ("player".to_string(), player()),
        ("blank".to_string(), blank),
    ];
    let (at, e) = bake_sprite_table(&table).unwrap_err();
    assert_eq!(at, 2);
    assert_eq!(
        e,
        BakeError::Sprite(SpriteError::EmptySequence { who: "blank".to_string(), pose: Pose::Air })
    );
}

#[test]
fn a_record_that_is_too_large_is_refused_before_it_is_rasterised() {
    let mut huge = player();
    huge.cells_h = i32::MAX;
    huge.grain = i32::MAX;
    let e = bake_one(&huge, "huge", &FromContentOpts::default()).unwrap_err();
    assert_eq!(e, BakeError::TooLarge);
    assert_eq!(e.message(), "the art is too large");

    let mut wide = player();
    wide.cells_w = i32::MAX;
    wide.cells_h = 1;
    wide.grain = 3;
    wide.seq = vec![content_seq(Pose::Idle, PlayMode::Hold, 0.0, &["12", "21", "11"])];
    let e = bake_one(&wide, "wide", &FromContentOpts::default()).unwrap_err();
    assert_eq!(e, BakeError::TooLarge);
}

#[test]
fn what_is_wrong_with_a_record_is_told_before_its_size() {
    let bake = |art: &ContentArt| bake_one(art, "r", &FromContentOpts::default()).unwrap_err();
    let who = || "r".to_string();

    let mut many = player();
    many.variants = i32::MAX;
    let asked = i32::MAX as usize;
    assert_eq!(bake(&many), BakeError::Sprite(SpriteError::VariantCount { who: who(), asked }));
    let all = FromContentOpts { variants: Some(usize::MAX), ..FromContentOpts::default() };
    assert_eq!(
        bake_one(&player(), "r", &all).unwrap_err(),
        BakeError::Sprite(SpriteError::VariantCount { who: who(), asked: usize::MAX })
    );

    let mut empty = player();
    empty.cells_h = i32::MAX;
    empty.grain = i32::MAX;
    empty.seq.clear();
    assert_eq!(bake(&empty), BakeError::Sprite(SpriteError::NoSequences { who: who() }));

    let mut wide = player();
    wide.cells_w = i32::MAX;
    assert_eq!(
        bake(&wide),
        BakeError::Sprite(SpriteError::RowWidth {
            who: "r.Idle[0]".to_string(),
            row: 0,
            chars: 2,
            expected: i32::MAX as u32,
        })
    );
    wide.pal.push("red".to_string());
    assert!(matches!(bake(&wide), BakeError::Sprite(SpriteError::Palette { .. })));
}

#[test]
fn a_finer_grain_packs_more_texels_into_the_same_world_rect() {
    let coarse = art(vec![one_frame(["1.", ".2"])], PlayMode::Loop);
    let mut fine = art(vec![strings(&["1..2", ".12.", ".21.", "2..1"])], PlayMode::Loop);
    fine.grain = 2;

    let baked_coarse = BakedSprite::new(&coarse, "coarse").expect("grain 1 bakes");
    let baked_fine = BakedSprite::new(&fine, "fine").expect("grain 2 bakes");
    assert_eq!(baked_fine.atlas_size().1, baked_coarse.atlas_size().1 * 2);
    assert_eq!(baked_fine.atlas_size().0, baked_coarse.atlas_size().0 * 2);
    assert_eq!(
        (baked_fine.w_px, baked_fine.h_px),
        (baked_coarse.w_px, baked_coarse.h_px),
        "the drawn rect is still cells * CELL_SIZE"
    );
}

#[test]
fn mob_art_bakes_through_the_same_bridge_as_the_sprite_table() {
    let mut record = player();
    record.seq[1].pose = Pose::Move;
    let a = sprite_art_from_content(
        &record,
        "mob",
        &FromContentOpts {
            fallback: vec![(Pose::Air, Pose::Move)],
            rate_scale: vec![(Pose::Idle, num(0.5))],
            variants: Some(VARIANT_COUNT),
        },
    )
    .unwrap();
    let baked = BakedSprite::new(&a, "mob").unwrap();
    assert_eq!(baked.variants, VARIANT_COUNT);
    assert!(baked.state_id(Pose::Air).is_some(), "no air pose");
}

#[test]
fn a_record_with_no_sequences_is_a_construction_error() {
    let art = ContentArt {
        grain: 1,
        cells_w: 2,
        cells_h: 2,
        pal: strings(&[".", "#102030"]),
        fps: num(0.0),
        variants: 1,
        seq: Vec::new(),
    };
    assert!(matches!(
        sprite_art_from_content(&art, "t", &FromContentOpts::default()).unwrap_err(),
        SpriteError::NoSequences { .. }
    ));
}

#[test]
fn a_record_with_no_cells_or_no_frames_is_a_construction_error() {
    let mut flat = player();
    flat.cells_h = 0;
    flat.cells_w = -3;
    assert_eq!(
        sprite_art_from_content(&flat, "flat", &FromContentOpts::default()).unwrap_err(),
        SpriteError::Grid { who: "flat".into(), cells_w: -3, cells_h: 0 }
    );
    let mut blank = player();
    blank.seq[1].frames = strings(&["", ""]);
    assert_eq!(
        sprite_art_from_content(&blank, "blank", &FromContentOpts::default()).unwrap_err(),
        SpriteError::EmptySequence { who: "blank".into(), pose: Pose::Run }
    );
}

// -- The id lookup ------------------------------------------------------------

fn table() -> Vec<(String, u16)> {
    vec![("player".to_string(), 0), ("icon_torch".to_string(), 1), ("icon_axe".to_string(), 2)]
}

#[test]
fn a_sprite_id_the_table_does_not_have_degrades_to_no_icon() {
    assert_eq!(sprite_code_of(&table(), "icon_not_a_thing"), None);
    assert_eq!(sprite_code_of(&table(), ""), None);
    let empty: SpriteAtlases<u8> = SpriteAtlases::new(Vec::new());
    assert!(empty.get(&table(), "icon_not_a_thing").is_none());
    assert!(empty.by_code(9999).is_none());
}

#[test]
fn a_sprite_id_the_table_does_have_resolves_to_its_own_code() {
    assert_eq!(sprite_code_of(&table(), "player"), Some(0));
    assert_eq!(sprite_code_of(&table(), "icon_torch"), Some(1));
    for (id, code) in table().iter() {
        assert_eq!(sprite_code_of(&table(), id), Some(*code));
    }
}

#[test]
fn a_missing_sprite_shifts_no_code_after_it() {
    let atlases = SpriteAtlases::new(vec![Some('p'), None, Some('a')]);
    assert_eq!(atlases.count(), 2);
    assert_eq!(atlases.by_code(0), Some(&'p'));
    assert_eq!(atlases.by_code(1), None);
    assert_eq!(atlases.by_code(2), Some(&'a'));
    assert_eq!(atlases.get(&table(), "icon_axe"), Some(&'a'));
    assert_eq!(atlases.get(&table(), "icon_torch"), None);
}

// -- The atlas and the flip ---------------------------------------------------

#[test]
fn the_atlas_is_one_row_of_tiles_at_grain_texels_per_cell() {
    let mut record = player();
    record.grain = 2;
    for s in record.seq.iter_mut() {
        s.frames = strings(&["1..2", ".12.", ".21.", "2..1", "", "1111", "2222", "1111", "2222"]);
    }
    let art = sprite_art_from_content(&record, "player", &FromContentOpts::default()).unwrap();
    let b = BakedSprite::new(&art, "player").unwrap();
    let layout = b.layout();
    assert_eq!(layout.tiles.len(), b.bake_count);
    assert_eq!((layout.width, layout.height), b.atlas_size());
    let (tw, th) = (b.cells_w * b.grain, b.cells_h * b.grain);
    for (i, rect) in layout.tiles.iter().enumerate() {
        assert_eq!((rect.min_x, rect.min_y), (i as u32 * tw, 0));
        assert_eq!((rect.max_x - rect.min_x, rect.max_y - rect.min_y), (tw, th));
    }
}

#[test]
fn the_one_axis_flip_puts_a_sim_top_left_rect_where_bevy_wants_its_centre() {
    let t = world_translation(num(100.0), num(40.0), num(10.0), num(15.0));
    assert_eq!(value(t.x), 105.0);
    assert_eq!(value(t.y), -47.5, "further down the sim is further down the screen");
}

#[test]
fn the_flip_snaps_the_corner_and_not_the_centre() {
    let t = world_translation(num(100.4), num(40.6), num(5.0), num(15.0));
    assert_eq!(value(t.x), 102.5, "corner rounded to 100, then half the extent");
    assert_eq!(value(t.y), -48.5);
}

#[test]
fn a_clock_reads_as_the_machine_computes() {
    let mut x = 3u32;
    let mut next = || {
        x ^= x << 13;
        x ^= x >> 17;
        x ^= x << 5;
        x
    };
    let frames: Vec<Frame> = (0..7).map(|_| one_frame(["12", "21"])).collect();
    for round in 0..30_000 {
        // From ordinary seconds and rates to bits from anywhere.
        let mut any = |scale: f32| {
            let b = next();
            if round % 3 == 0 { f32::from_bits(b) } else { b as f32 / u32::MAX as f32 * scale }
        };
        let mut s = seq(frames[..round % 7 + 1].to_vec(), PlayMode::Ambient, any(24.0));
        s.blink_every = num(if round % 5 == 0 { 0.0 } else { any(5.0) });
        s.blink_for = num(any(0.5));
        let clock = Clock { state_t: any(900.0), clock_t: any(900.0), phase: any(50.0) - 20.0 };
        assert_eq!(read(&s, &at(clock)), reading(&s, clock), "round {round}");
        assert_eq!(frame_at(&s, &reading(&s, clock)), pick(&s, clock));
    }
}

// -- The messages -------------------------------------------------------------

#[test]
fn every_error_says_what_is_wrong_and_where() {
    let who = || "t".to_string();
    let said = [
        SpriteError::Palette { who: who(), entry: "#\"".into() }.message(),
        SpriteError::PaletteIndex { who: who(), row: 1, col: 2, ch: '\'' }.message(),
        SpriteError::Grid { who: who(), cells_w: -1, cells_h: 0 }.message(),
        SpriteError::FrameRows { who: who(), frame: 3, rows: 4, expected: 5 }.message(),
        SpriteError::RowWidth { who: who(), row: 6, chars: 7, expected: 8 }.message(),
        SpriteError::EmptySequence { who: who(), pose: Pose::Run }.message(),
        SpriteError::NoSequences { who: who() }.message(),
        SpriteError::DuplicatePose { who: who(), pose: Pose::Skid }.message(),
        SpriteError::VariantCount { who: who(), asked: 9 }.message(),
        SpriteError::FallbackCycle { who: who(), from: Pose::Air }.message(),
        SpriteError::FallbackDangling { who: who(), from: Pose::Air, to: Pose::Move }.message(),
    ];
    let want = [
        "t: palette entry \"#\\\"\" is not #rrggbb",
        "t: row 1 col 2: '\\'' is not a palette index",
        "t: art grid is -1x0 cells; both must be positive",
        "t: frame 3 has 4 rows, expected cells_h=5",
        "t: row 6 has 7 chars, expected cells_w=8",
        "t: sequence Run has no frames",
        "t: sprite has no sequences",
        "t: declares state Skid twice",
        "t: asks for 9 variants; the tint table has 3",
        "t: fallback for Air is a cycle",
        "t: fallback Air -> Move names no sequence",
    ];
    for (message, wanted) in said.iter().zip(want) {
        assert_eq!(message, wanted);
    }
}
