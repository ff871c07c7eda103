use yugen_render::number::Number;
use yugen_render::settings::{
    apply, path_beside, shipped, stores, HintMode, InForce, RenderScale, Settings, WindowState,
    WindowWrites, AUTOSAVE_S, DAY_MINUTES,
};

fn num(x: f32) -> Number {
    Number { bits: x.to_bits() }
}

fn value(n: Number) -> f32 {
    f32::from_bits(n.bits)
}

/// What the game ships with: a five-minute day, saved every thirty seconds.
fn defaults() -> Settings {
    shipped(num(5.0), num(30.0))
}

fn parse(text: &str) -> Settings {
    let numbers: Vec<Option<Number>> = Settings::numbers_in(text)
        .iter()
        .map(|word| word.parse::<f32>().ok().map(num))
        .collect();
    Settings::from_text(defaults(), text, &numbers)
}

#[test]
fn a_round_trip_through_the_file_changes_nothing() {
    let mut want = Settings {
        fullscreen: true,
        vsync: false,
        scale: RenderScale::Fixed(3),
        particles: num(0.25),
        shake: num(0.0),
        hints: HintMode::Never,
        debug_overlay: true,
        day_minutes: num(12.0),
        autosave_s: num(60.0),
    };
    want.clamp();
    assert_eq!(parse(&want.to_text()), want);
}

#[test]
fn the_defaults_are_the_constants_the_game_already_shipped() {
    let d = defaults();
    assert_eq!(value(d.day_minutes) * 60.0, 300.0);
    assert_eq!(value(d.autosave_s), 30.0);
    assert_eq!(d.scale.zoom(), None, "Auto must not pin a zoom");
    assert_eq!(value(d.particles), 1.0);
    assert_eq!(value(d.shake), 1.0);
    assert!(d.vsync && !d.fullscreen && !d.debug_overlay);
    assert_eq!(d.hints, HintMode::Fade);
}

#[test]
fn an_empty_file_is_the_defaults() {
    assert_eq!(parse(""), defaults());
}

#[test]
fn a_bad_line_costs_that_line_and_nothing_else() {
    let text = "shake=banana\nshake_scale\n=\nhints=never\nnonsense=1\n";
    let got = parse(text);
    assert_eq!(got.hints, HintMode::Never, "a later key was lost");
    assert_eq!(got.shake, defaults().shake);
}

#[test]
fn a_key_from_a_newer_build_is_skipped_rather_than_fatal() {
    let text = format!("{}\nray_tracing=true\n", defaults().to_text());
    assert_eq!(parse(&text), defaults());
}

#[test]
fn a_hand_edited_value_out_of_range_lands_where_the_slider_would_put_it() {
    let got = parse("shake=900\nparticles=-4\nday_minutes=100000\n");
    assert_eq!(value(got.shake), 1.0);
    assert_eq!(value(got.particles), 0.0);
    assert_eq!(got.day_minutes, Number { bits: DAY_MINUTES.1 });
    assert_eq!(value(got.day_minutes), 60.0);
    assert_eq!(parse("autosave_s=1").autosave_s, Number { bits: AUTOSAVE_S.0 });
}

#[test]
fn an_unknown_scale_falls_back_to_auto_rather_than_to_nothing() {
    assert_eq!(parse("scale=99").scale, RenderScale::Auto);
    assert_eq!(parse("scale=x").scale, RenderScale::Auto);
    assert_eq!(parse("scale=4").scale, RenderScale::Fixed(4));
}

#[test]
fn the_file_sits_beside_the_saves_directory_and_not_inside_it() {
    let p = path_beside("/home/someone/.local/share/yugen/saves");
    assert_eq!(p, "/home/someone/.local/share/yugen/options.txt");
    // A directory that is in no other holds the file itself.
    assert_eq!(path_beside("/"), "/options.txt");
    assert_eq!(path_beside("saves"), "options.txt");
}

#[test]
fn the_directory_a_path_is_in_is_the_one_the_system_finds() {
    let pieces = ["", "/", "a", "bc", ".", "..", "/.", "//", "a/", ".hidden", "./"];
    for x in pieces {
        for y in pieces {
            for z in pieces {
                for w in ["", "a", ".", "/"] {
                    let saves = format!("{x}{y}{z}{w}");
                    let path = std::path::Path::new(&saves);
                    let want = path.parent().unwrap_or(path).join("options.txt");
                    assert_eq!(path_beside(&saves), want.to_str().unwrap(), "{saves}");
                }
            }
        }
    }
}

#[test]
fn the_file_reads_as_it_is_documented() {
    let text = defaults().to_text();
    let lines: Vec<&str> = text.lines().collect();
    assert_eq!(
        lines,
        vec![
            "# Yugen settings. Delete a line to restore its default.",
            "fullscreen=false",
            "vsync=true",
            "scale=auto",
            "particles=1.00",
            "shake=1.00",
            "hints=fade",
            "debug_overlay=false",
            "day_minutes=5.0",
            "autosave_s=30",
        ]
    );
    assert!(text.ends_with('\n'));
}

#[test]
fn comments_blank_lines_and_white_space_say_nothing() {
    let got = parse("  # fullscreen=true\n\n\t vsync = false \r\n fullscreen = yes\n#=\n");
    assert!(!got.fullscreen, "only the two words switch");
    assert!(!got.vsync);
    let later = parse("shake=0.25\nshake=0.5\n");
    assert_eq!(value(later.shake), 0.5, "the last line wins");
}

#[test]
fn a_number_that_is_none_stays_where_it_was() {
    let got = parse("particles=\nday_minutes=12 minutes\nautosave_s=nan\n");
    assert_eq!(got.particles, defaults().particles);
    assert_eq!(got.day_minutes, defaults().day_minutes);
    assert_eq!(got.autosave_s, defaults().autosave_s, "what is not a number moves no slider");
    let mut lost = Settings { shake: num(f32::NAN), day_minutes: num(f32::NAN), ..defaults() };
    lost.clamp();
    assert_eq!((value(lost.shake), value(lost.day_minutes)), (0.0, 2.0));
}

#[test]
fn a_malformed_switch_stays_where_it_was() {
    assert!(parse("vsync=banana").vsync);
    assert!(!parse("fullscreen=yes").fullscreen);
    assert!(parse("debug_overlay=true\ndebug_overlay=off").debug_overlay);
    assert!(!parse("vsync=false").vsync);
}

#[test]
fn a_second_trip_through_the_file_changes_nothing() {
    for i in 0..=997 {
        let part = i as f32 / 997.0;
        let mut s = Settings {
            particles: num(part),
            shake: num(1.0 - part),
            day_minutes: num(2.0 + 58.0 * part),
            autosave_s: num(300.0 - 290.0 * part),
            ..defaults()
        };
        s.clamp();
        let r = parse(&s.to_text());
        let far = |a: Number, b: Number| (value(a) - value(b)).abs();
        assert!(far(r.particles, s.particles) <= 0.0051);
        assert!(far(r.shake, s.shake) <= 0.0051);
        assert!(far(r.day_minutes, s.day_minutes) <= 0.051);
        assert!(far(r.autosave_s, s.autosave_s) <= 0.51);
        assert_eq!(parse(&r.to_text()), r);
    }
}

#[test]
fn the_words_of_the_menu_are_the_words_of_the_file() {
    assert_eq!(HintMode::all(), [HintMode::Always, HintMode::Fade, HintMode::Never]);
    assert_eq!(HintMode::all().map(|m| m.label()), ["Always", "Fade out", "Never"]);
    for (word, mode) in [("always", HintMode::Always), ("fade", HintMode::Fade)] {
        assert_eq!(parse(&format!("hints={word}")).hints, mode);
    }
    assert_eq!(parse("hints=sometimes").hints, HintMode::Fade);
    let scales: Vec<String> = RenderScale::all().iter().map(|s| s.label()).collect();
    assert_eq!(scales, vec!["Auto", "2x", "3x", "4x", "5x"]);
    assert_eq!(RenderScale::Fixed(7).zoom(), Some(num(7.0)));
    assert_eq!(value(RenderScale::Auto.zoom_floor()), 2.0);
    assert_eq!(value(RenderScale::Fixed(7).zoom_floor()), 7.0);
}

#[test]
fn only_a_change_is_written_to_the_file() {
    assert!(stores(true, false));
    assert!(!stores(true, true));
    assert!(!stores(false, false));
}

fn in_force() -> InForce {
    InForce {
        windows: vec![WindowState { fullscreen: Some(true), vsync: Some(true) }],
        floor: num(3.0),
        autosave_s: num(30.0),
        overlay: true,
        has_shake: true,
        has_particles: false,
        has_clock: true,
    }
}

#[test]
fn a_setting_is_pushed_to_the_part_that_owns_it() {
    let w = apply(&defaults(), &in_force());
    assert_eq!(w.windows, vec![WindowWrites { fullscreen: Some(false), vsync: None }]);
    assert_eq!(w.floor, Some(num(2.0)));
    assert_eq!(w.autosave_s, None);
    assert_eq!(w.overlay, Some(false));
    assert_eq!(w.shake, Some(num(1.0)));
    assert_eq!(w.particles, None, "that part is not in the app");
    assert_eq!(w.day_length_s, Some(num(5.0 * 60.0)));
}

#[test]
fn applying_twice_writes_once() {
    let s = defaults();
    let mut now = in_force();
    let first = apply(&s, &now);
    now.windows[0].fullscreen = first.windows[0].fullscreen;
    now.floor = first.floor.unwrap();
    now.overlay = first.overlay.unwrap();
    let second = apply(&s, &now);
    assert_eq!(second.windows, vec![WindowWrites { fullscreen: None, vsync: None }]);
    assert_eq!((second.floor, second.autosave_s, second.overlay), (None, None, None));
    // A window that is shown in some other way is always put right.
    now.windows[0] = WindowState { fullscreen: None, vsync: None };
    let third = apply(&s, &now);
    assert_eq!(third.windows, vec![WindowWrites { fullscreen: Some(false), vsync: Some(true) }]);
    now.floor = num(f32::NAN);
    assert_eq!(apply(&s, &now).floor, Some(num(2.0)));
}
