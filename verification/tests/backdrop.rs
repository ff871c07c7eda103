use yugen_render::number::Number;
use yugen_render::sky::colour::{
    block_offset, disc_alpha, gradient, horizon_glow, moon, paint_sky, ring_at, sky_texel, sun,
    Disc, Gradient, HorizonGlow, Palette, SkyHour, Stop, Tone,
};
use yugen_render::sky::mesh::ViewSize;
use yugen_render::sky::model::{block_grid, block_sample, BAYER_N, SKY_PIXEL_PX};
use yugen_render::sky::ridges::{depth_at, far_ridge, near_ridge, snap_to_block, Ridge};
use yugen_render::sky::stars::{view_corner, wrap, Star, StarField, STAR_COUNT};
use yugen_render::sprite::baked::CELL_SIZE;

fn num(x: f32) -> Number {
    Number { bits: x.to_bits() }
}

fn value(n: Number) -> f32 {
    f32::from_bits(n.bits)
}

fn tone(c: [f32; 3]) -> Tone {
    Tone { r: num(c[0]), g: num(c[1]), b: num(c[2]) }
}

fn rgb(t: Tone) -> [f32; 3] {
    [value(t.r), value(t.g), value(t.b)]
}

fn luma(t: Tone) -> f32 {
    rgb(t).iter().sum()
}

/// A temperate biome's night colours.
fn plains() -> Palette {
    Palette {
        sky_top: tone([14.0, 18.0, 38.0]),
        sky_bottom: tone([46.0, 62.0, 96.0]),
        sky_top_deep: tone([6.0, 7.0, 12.0]),
    }
}

fn horizon_of(c: [f32; 3]) -> Palette {
    Palette { sky_bottom: tone(c), ..plains() }
}

const HILL: [f32; 3] = [38.0, 58.0, 44.0];

fn hour(day: f32, twilight: f32, sun_y: f32) -> SkyHour {
    SkyHour { day: num(day), twilight: num(twilight), sun_y: num(sun_y) }
}

fn midnight() -> SkyHour {
    hour(0.0, 0.0, 1.5)
}

fn noon() -> SkyHour {
    hour(1.0, 0.0, 0.15)
}

fn crossing() -> SkyHour {
    hour(0.5, 1.0, 0.6)
}

fn glow_of(h: &SkyHour, depth: f32) -> Option<HorizonGlow> {
    horizon_glow(h, num(depth), num(450.0))
}

fn ridges() -> [Ridge; 2] {
    [far_ridge(), near_ridge()]
}

fn height(ridge: &Ridge, sx: f32, cam_x: f32, view_h: f32) -> f32 {
    let (a, b) = ridge.waves(num(sx), num(cam_x));
    let sines = (num(value(a).sin()), num(value(b).sin()));
    value(ridge.height_at(sines, num(view_h)))
}

fn column_top(ridge: &Ridge, ridge_x: f32, view_h: f32) -> f32 {
    let (a, b) = ridge.column_waves(num(ridge_x));
    let sines = (num(value(a).sin()), num(value(b).sin()));
    value(ridge.column_top(sines, num(view_h)))
}

fn star(
    field: &StarField,
    i: usize,
    cam: (f32, f32),
    view: ViewSize,
    seconds: f32,
    visibility: f32,
) -> Star {
    let angle = value(field.twinkle(i, num(seconds)));
    field.star(i, num(angle.sin()), (num(cam.0), num(cam.1)), view, num(visibility))
}

const VIEW: ViewSize = ViewSize { w: 720, h: 450 };

fn rings(disc: &Disc, alpha: f32) -> [Stop; 4] {
    disc.rings(num(alpha))
}

const BLOCK: f32 = 5.0;

fn the_sky_is_darkest_at_midnight_and_brightest_at_noon() {
    let night = gradient(&plains(), num(0.0), &midnight());
    let day = gradient(&plains(), num(0.0), &noon());
    assert!(luma(day.top) > luma(night.top), "noon's zenith is not brighter than midnight's");
    assert!(luma(day.bottom) > luma(night.bottom));
}

#[test]
fn sky_the_sky_is_darkest_at_midnight_and_brightest_at_noon() {
    the_sky_is_darkest_at_midnight_and_brightest_at_noon();
}

#[test]
fn model_the_sky_is_darkest_at_midnight_and_brightest_at_noon() {
    the_sky_is_darkest_at_midnight_and_brightest_at_noon();
}

fn the_night_sky_is_the_biomes_own_palette_untouched() {
    let g = gradient(&plains(), num(0.0), &midnight());
    assert_eq!(g.top, plains().sky_top);
    assert_eq!(g.bottom, plains().sky_bottom);
}

#[test]
fn sky_the_night_sky_is_the_biomes_own_palette_untouched() {
    the_night_sky_is_the_biomes_own_palette_untouched();
}

#[test]
fn model_the_night_sky_is_the_biomes_own_palette_untouched() {
    the_night_sky_is_the_biomes_own_palette_untouched();
}

fn a_buried_camera_sees_the_biomes_deep_colour_and_no_sky_at_all() {
    let deep = gradient(&plains(), num(1.0), &noon());
    assert_eq!(deep.top, plains().sky_top_deep, "the zenith sinks fully");
    assert!(
        luma(deep.bottom) > luma(deep.top),
        "the horizon should keep some light at full depth"
    );
}

#[test]
fn sky_a_buried_camera_sees_the_biomes_deep_colour_and_no_sky_at_all() {
    a_buried_camera_sees_the_biomes_deep_colour_and_no_sky_at_all();
}

#[test]
fn model_a_buried_camera_sees_the_biomes_deep_colour_and_no_sky_at_all() {
    a_buried_camera_sees_the_biomes_deep_colour_and_no_sky_at_all();
}

fn the_daytime_sky_keeps_each_biomes_own_hue() {
    let desert = gradient(&horizon_of([122.0, 84.0, 48.0]), num(0.0), &noon());
    let glacier = gradient(&horizon_of([58.0, 86.0, 120.0]), num(0.0), &noon());
    let (warm, cold) = (rgb(desert.bottom), rgb(glacier.bottom));
    assert!(warm[0] > warm[2], "desert noon should be warm, was {warm:?}");
    assert!(cold[2] > cold[0], "glacier noon should be cold, was {cold:?}");
}

#[test]
fn sky_the_daytime_sky_keeps_each_biomes_own_hue() {
    the_daytime_sky_keeps_each_biomes_own_hue();
}

#[test]
fn model_the_daytime_sky_keeps_each_biomes_own_hue() {
    the_daytime_sky_keeps_each_biomes_own_hue();
}

fn the_daylight_target_cannot_push_a_channel_past_full() {
    for level in [0.0, 46.0, 96.0, 128.0, 200.0, 255.0] {
        let g = gradient(&horizon_of([level; 3]), num(0.0), &noon());
        for c in rgb(g.top).into_iter().chain(rgb(g.bottom)) {
            assert!(c <= 255.0, "{level} overshot at noon: {c}");
        }
    }
}

#[test]
fn sky_the_daylight_target_cannot_push_a_channel_past_full() {
    the_daylight_target_cannot_push_a_channel_past_full();
}

#[test]
fn model_the_daylight_target_cannot_push_a_channel_past_full() {
    the_daylight_target_cannot_push_a_channel_past_full();
}

fn the_horizon_glow_only_burns_at_the_two_crossings() {
    assert!(glow_of(&midnight(), 0.0).is_none());
    assert!(glow_of(&noon(), 0.0).is_none());
    assert!(glow_of(&crossing(), 0.0).is_some());
    assert!(glow_of(&hour(0.0, 0.02, 0.6), 0.0).is_none(), "too faint to see");
}

#[test]
fn sky_the_horizon_glow_only_burns_at_the_two_crossings() {
    the_horizon_glow_only_burns_at_the_two_crossings();
}

#[test]
fn model_the_horizon_glow_only_burns_at_the_two_crossings() {
    the_horizon_glow_only_burns_at_the_two_crossings();
}

fn the_horizon_glow_is_shut_out_underground() {
    assert!(glow_of(&crossing(), 1.0).is_none());
    let shallow = glow_of(&crossing(), 0.2).expect("still lit at 0.2");
    let surface = glow_of(&crossing(), 0.0).expect("lit at the surface");
    assert!(value(shallow.strength) < value(surface.strength));
}

#[test]
fn sky_the_horizon_glow_is_shut_out_underground() {
    the_horizon_glow_is_shut_out_underground();
}

#[test]
fn model_the_horizon_glow_is_shut_out_underground() {
    the_horizon_glow_is_shut_out_underground();
}

fn the_glow_adds_nothing_above_the_band_and_floods_everything_below_it() {
    let glow = glow_of(&crossing(), 0.0).expect("sunset is lit");
    let (top, bottom) = (value(glow.top), value(glow.bottom));
    let add = |y: f32| rgb(glow.add_at(num(y)));
    assert_eq!(add(top - 50.0), [0.0; 3], "the sky above the band must be left alone");
    assert_eq!(add(top), [0.0; 3], "the first stop is empty");
    assert_eq!(add(bottom), add(bottom + 200.0));
    assert!(add(bottom)[0] > 0.0, "the horizon should be warm");
}

#[test]
fn sky_the_glow_adds_nothing_above_the_band_and_floods_everything_below_it() {
    the_glow_adds_nothing_above_the_band_and_floods_everything_below_it();
}

#[test]
fn model_the_glow_adds_nothing_above_the_band_and_floods_everything_below_it() {
    the_glow_adds_nothing_above_the_band_and_floods_everything_below_it();
}

fn the_glow_warms_the_sky_rather_than_recolouring_it() {
    let glow = glow_of(&crossing(), 0.0).expect("sunrise is lit");
    let add = rgb(glow.add_at(glow.bottom));
    assert!(add[0] > add[1] && add[1] > add[2], "not a warm wash: {add:?}");
}

#[test]
fn sky_the_glow_warms_the_sky_rather_than_recolouring_it() {
    the_glow_warms_the_sky_rather_than_recolouring_it();
}

#[test]
fn model_the_glow_warms_the_sky_rather_than_recolouring_it() {
    the_glow_warms_the_sky_rather_than_recolouring_it();
}

fn the_glow_tracks_the_sun_down_the_view_as_it_sets() {
    let view_h = 450.0;
    let high = glow_of(&hour(0.6, 0.7, 0.45), 0.0).expect("just past sunrise");
    let low = glow_of(&crossing(), 0.0).expect("at the crossing");
    assert!(value(low.bottom) > value(high.bottom), "{low:?} vs {high:?}");
    assert!(((value(low.bottom) - value(low.top)) - view_h * 0.42).abs() < 1.0e-3);
}

#[test]
fn sky_the_glow_tracks_the_sun_down_the_view_as_it_sets() {
    the_glow_tracks_the_sun_down_the_view_as_it_sets();
}

#[test]
fn model_the_glow_tracks_the_sun_down_the_view_as_it_sets() {
    the_glow_tracks_the_sun_down_the_view_as_it_sets();
}

fn the_gradient_runs_from_the_zenith_at_the_top_to_the_horizon_at_the_bottom() {
    let g = Gradient { top: tone([0.0, 0.0, 0.0]), bottom: tone([255.0, 255.0, 255.0]) };
    let top = sky_texel(&g, &None, num(0.5), num(100.0));
    let bottom = sky_texel(&g, &None, num(99.5), num(100.0));
    assert!(top[0] < 4, "the first row should be the zenith, was {top:?}");
    assert!(bottom[0] > 251, "the last row should be the horizon, was {bottom:?}");
    assert_eq!(top[3], 255, "the backdrop is opaque");
}

#[test]
fn sky_the_gradient_runs_from_the_zenith_at_the_top_to_the_horizon_at_the_bottom() {
    the_gradient_runs_from_the_zenith_at_the_top_to_the_horizon_at_the_bottom();
}

#[test]
fn model_the_gradient_runs_from_the_zenith_at_the_top_to_the_horizon_at_the_bottom() {
    the_gradient_runs_from_the_zenith_at_the_top_to_the_horizon_at_the_bottom();
}

fn a_channel_that_overshoots_saturates_instead_of_wrapping() {
    let flat = tone([400.0, -20.0, 128.0]);
    let g = Gradient { top: flat, bottom: flat };
    let texel = sky_texel(&g, &None, num(0.5), num(1.0));
    assert_eq!([texel[0], texel[1], texel[2]], [255, 0, 128]);
}

#[test]
fn sky_a_channel_that_overshoots_saturates_instead_of_wrapping() {
    a_channel_that_overshoots_saturates_instead_of_wrapping();
}

#[test]
fn model_a_channel_that_overshoots_saturates_instead_of_wrapping() {
    a_channel_that_overshoots_saturates_instead_of_wrapping();
}

fn the_stars_come_out_at_night_and_never_underground() {
    let visibility = |night: f32, depth: f32| value(StarField::visibility(num(night), num(depth)));
    assert_eq!(visibility(0.0, 0.0), 0.0);
    assert_eq!(visibility(1.0, 0.0), 1.0);
    assert_eq!(visibility(1.0, 1.0), 0.0, "buried is buried, whatever the hour");
}

#[test]
fn sky_the_stars_come_out_at_night_and_never_underground() {
    the_stars_come_out_at_night_and_never_underground();
}

#[test]
fn model_the_stars_come_out_at_night_and_never_underground() {
    the_stars_come_out_at_night_and_never_underground();
}

fn every_star_lands_inside_the_view_however_far_the_camera_has_gone() {
    let field = StarField::new();
    for cam in [(0.0, 0.0), (1.0e6, 1.0e5), (-1.0e6, -1.0e5)] {
        for i in 0..STAR_COUNT {
            let s = star(&field, i, cam, VIEW, 3.0, 1.0);
            let (x, y) = (value(s.x), value(s.y));
            assert!(x >= 0.0 && x < VIEW.w as f32, "star {i} left the view at {cam:?}: x {x}");
            assert!(y >= 0.0 && y < VIEW.h as f32);
        }
    }
}

#[test]
fn sky_every_star_lands_inside_the_view_however_far_the_camera_has_gone() {
    every_star_lands_inside_the_view_however_far_the_camera_has_gone();
}

#[test]
fn model_every_star_lands_inside_the_view_however_far_the_camera_has_gone() {
    every_star_lands_inside_the_view_however_far_the_camera_has_gone();
}

fn stars_twinkle_around_their_own_brightness_without_ever_going_dark() {
    let field = StarField::new();
    let mut min = f32::MAX;
    let mut max = f32::MIN;
    for step in 0..400 {
        let alpha = value(star(&field, 0, (0.0, 0.0), VIEW, step as f32 * 0.05, 1.0).alpha);
        min = min.min(alpha);
        max = max.max(alpha);
    }
    let still = field.star(0, num(0.0), (num(0.0), num(0.0)), VIEW, num(1.0));
    let base = value(still.alpha) / 0.78;
    assert!(min > 0.0, "a star should never blink fully out");
    assert!((min - base * (0.78 - 0.22)).abs() < 1.0e-3);
    assert!((max - base * (0.78 + 0.22)).abs() < 1.0e-3);
}

#[test]
fn sky_stars_twinkle_around_their_own_brightness_without_ever_going_dark() {
    stars_twinkle_around_their_own_brightness_without_ever_going_dark();
}

#[test]
fn model_stars_twinkle_around_their_own_brightness_without_ever_going_dark() {
    stars_twinkle_around_their_own_brightness_without_ever_going_dark();
}

fn the_ridges_sink_toward_black_at_night() {
    for ridge in &ridges() {
        let day = ridge.tint(tone(HILL), num(1.0));
        let night = ridge.tint(tone(HILL), num(0.0));
        assert!(luma(night) < luma(day), "the ridge should darken at night");
    }
}

#[test]
fn sky_the_ridges_sink_toward_black_at_night() {
    the_ridges_sink_toward_black_at_night();
}

#[test]
fn model_the_ridges_sink_toward_black_at_night() {
    the_ridges_sink_toward_black_at_night();
}

fn the_near_ridge_is_lower_darker_and_scrolls_faster_than_the_far_one() {
    let [far, near] = ridges();
    assert!(value(near.base) > value(far.base), "+y is down: nearer means lower");
    assert!(value(near.shade) < value(far.shade));
    assert!(value(near.parallax) > value(far.parallax));
    let lit = |r: &Ridge| luma(r.tint(tone(HILL), num(1.0)));
    assert!(lit(&near) < lit(&far));
}

#[test]
fn sky_the_near_ridge_is_lower_darker_and_scrolls_faster_than_the_far_one() {
    the_near_ridge_is_lower_darker_and_scrolls_faster_than_the_far_one();
}

#[test]
fn model_the_near_ridge_is_lower_darker_and_scrolls_faster_than_the_far_one() {
    the_near_ridge_is_lower_darker_and_scrolls_faster_than_the_far_one();
}

fn a_ridge_stays_within_its_own_amplitude_of_its_resting_height() {
    let view_h = 450.0;
    for ridge in &ridges() {
        let rest = view_h * value(ridge.base);
        let swing = value(ridge.a1) + value(ridge.a2);
        for x in 0..2000 {
            let y = height(ridge, x as f32, 137.0, view_h);
            assert!(
                (y - rest).abs() <= swing + 1.0e-3,
                "ridge left its amplitude at x={x}: {y} vs {rest} +/- {swing}"
            );
        }
    }
}

#[test]
fn sky_a_ridge_stays_within_its_own_amplitude_of_its_resting_height() {
    a_ridge_stays_within_its_own_amplitude_of_its_resting_height();
}

#[test]
fn model_a_ridge_stays_within_its_own_amplitude_of_its_resting_height() {
    a_ridge_stays_within_its_own_amplitude_of_its_resting_height();
}

fn a_ridge_scrolls_with_the_camera_at_its_own_rate() {
    for ridge in &ridges() {
        let a = height(ridge, 100.0, 200.0, 450.0);
        let b = height(ridge, 100.0 + 200.0 * value(ridge.parallax), 0.0, 450.0);
        assert!((a - b).abs() < 1.0e-3, "{a} vs {b}");
    }
}

#[test]
fn sky_a_ridge_scrolls_with_the_camera_at_its_own_rate() {
    a_ridge_scrolls_with_the_camera_at_its_own_rate();
}

#[test]
fn model_a_ridge_scrolls_with_the_camera_at_its_own_rate() {
    a_ridge_scrolls_with_the_camera_at_its_own_rate();
}

fn a_disc_is_a_hot_core_fading_to_nothing_at_its_rim() {
    for disc in [sun(), moon()] {
        let rings = rings(&disc, 1.0);
        assert_eq!(value(rings[0].at), 0.0, "the first ring is the centre point");
        assert_eq!(rings[3].at, disc.radius, "the last is the rim");
        assert_eq!(value(rings[3].part), 0.0, "and the rim is invisible");
        for pair in rings.windows(2) {
            assert!(value(pair[0].at) < value(pair[1].at), "rings must grow outward");
            assert!(value(pair[0].part) >= value(pair[1].part), "alpha must not rise outward");
        }
        assert_eq!(rings[0].tone, disc.core);
        assert_eq!(rings[3].tone, disc.halo);
    }
}

#[test]
fn sky_a_disc_is_a_hot_core_fading_to_nothing_at_its_rim() {
    a_disc_is_a_hot_core_fading_to_nothing_at_its_rim();
}

#[test]
fn model_a_disc_is_a_hot_core_fading_to_nothing_at_its_rim() {
    a_disc_is_a_hot_core_fading_to_nothing_at_its_rim();
}

fn a_disc_fades_as_a_whole_rather_than_shrinking() {
    let (full, half) = (rings(&sun(), 1.0), rings(&sun(), 0.5));
    for (a, b) in full.iter().zip(half.iter()) {
        assert_eq!(a.at, b.at, "the radius must not move with the fade");
        assert!((value(a.part) * 0.5 - value(b.part)).abs() < 1.0e-6);
    }
}

#[test]
fn sky_a_disc_fades_as_a_whole_rather_than_shrinking() {
    a_disc_fades_as_a_whole_rather_than_shrinking();
}

#[test]
fn model_a_disc_fades_as_a_whole_rather_than_shrinking() {
    a_disc_fades_as_a_whole_rather_than_shrinking();
}

fn the_moon_is_never_as_bright_or_as_warm_as_the_sun() {
    let (sun_a, moon_a) = disc_alpha(num(1.0), num(1.0), num(0.0));
    assert_eq!((value(sun_a), value(moon_a)), (1.0, 0.9));
    let (sun, moon) = (sun().rings(sun_a), moon().rings(moon_a));
    assert!(value(moon[0].part) < value(sun[0].part), "the moon should be the dimmer disc");
    assert!(value(moon[3].at) < value(sun[3].at), "and the smaller one");
    let (sun_halo, moon_halo) = (rgb(sun[2].tone), rgb(moon[2].tone));
    assert!(moon_halo[2] > moon_halo[0], "the moon reads cold");
    assert!(sun_halo[0] > sun_halo[2], "the sun reads warm");
}

#[test]
fn sky_the_moon_is_never_as_bright_or_as_warm_as_the_sun() {
    the_moon_is_never_as_bright_or_as_warm_as_the_sun();
}

#[test]
fn model_the_moon_is_never_as_bright_or_as_warm_as_the_sun() {
    the_moon_is_never_as_bright_or_as_warm_as_the_sun();
}

fn the_dither_spreads_a_band_edge_over_more_than_one_colour() {
    let view_h = 400.0;
    let g = gradient(&plains(), num(0.0), &crossing());
    let glow = horizon_glow(&crossing(), num(0.0), num(view_h));
    assert!(glow.is_some(), "sunset is lit");
    let mut rows_with_a_mixed_edge = 0;
    for row in 0..(view_h / BLOCK) as i32 {
        let mut colours = std::collections::BTreeSet::new();
        for bx in 0..BAYER_N as i32 {
            let y = (row as f32 + block_sample(bx, row) as f32 / 32.0) * BLOCK;
            colours.insert(sky_texel(&g, &glow, num(y), num(view_h)));
        }
        if colours.len() > 1 {
            rows_with_a_mixed_edge += 1;
        }
    }
    assert!(
        rows_with_a_mixed_edge > 20,
        "only {rows_with_a_mixed_edge} block rows dithered; the glow spans about {} of them",
        (view_h * 0.42 / BLOCK) as i32
    );
}

#[test]
fn sky_the_dither_spreads_a_band_edge_over_more_than_one_colour() {
    the_dither_spreads_a_band_edge_over_more_than_one_colour();
}

#[test]
fn model_the_dither_spreads_a_band_edge_over_more_than_one_colour() {
    the_dither_spreads_a_band_edge_over_more_than_one_colour();
}

fn a_ridge_column_is_on_the_grid_and_does_not_move_with_the_camera() {
    let view_h = 400.0;
    for ridge in &ridges() {
        for j in -400..400 {
            let top = column_top(ridge, j as f32 * BLOCK, view_h);
            assert!(
                (top / BLOCK - (top / BLOCK).round()).abs() < 1.0e-3,
                "column {j} topped at {top}, which is not on the {BLOCK}px grid"
            );
        }
        let far = value(ridge.scroll(num(1.0e4)));
        assert!(far.fract() == 0.0, "the scroll must be whole px, was {far}");
        assert!(
            (far - 1.0e4 * value(ridge.parallax)).abs() <= 0.5,
            "the rounding must not change the parallax rate"
        );
    }
}

#[test]
fn sky_a_ridge_column_is_on_the_grid_and_does_not_move_with_the_camera() {
    a_ridge_column_is_on_the_grid_and_does_not_move_with_the_camera();
}

#[test]
fn model_a_ridge_column_is_on_the_grid_and_does_not_move_with_the_camera() {
    a_ridge_column_is_on_the_grid_and_does_not_move_with_the_camera();
}

fn a_ridge_silhouette_is_the_same_shape_wherever_the_camera_stands() {
    let (view_h, view_w) = (400.0, 640.0);
    let walk = |ridge: &Ridge, cam_x: f32| {
        let shift = value(ridge.scroll(num(cam_x)));
        let first = (shift / BLOCK).floor() as i32;
        let last = ((shift + view_w) / BLOCK).ceil() as i32;
        (first..last)
            .map(|j| (j, column_top(ridge, j as f32 * BLOCK, view_h).to_bits()))
            .collect::<std::collections::BTreeMap<i32, u32>>()
    };
    for ridge in &ridges() {
        let near = walk(ridge, 0.0);
        let far = walk(ridge, 800.0);
        let shared: Vec<&i32> = near.keys().filter(|j| far.contains_key(j)).collect();
        assert!(!shared.is_empty(), "the two walks should still overlap");
        for j in shared {
            assert_eq!(near[j], far[j], "column {j} changed height when the camera moved");
        }
    }
}

#[test]
fn sky_a_ridge_silhouette_is_the_same_shape_wherever_the_camera_stands() {
    a_ridge_silhouette_is_the_same_shape_wherever_the_camera_stands();
}

#[test]
fn model_a_ridge_silhouette_is_the_same_shape_wherever_the_camera_stands() {
    a_ridge_silhouette_is_the_same_shape_wherever_the_camera_stands();
}

fn a_disc_block_reads_the_same_ramp_the_ring_fan_drew() {
    let rings = rings(&sun(), 1.0);
    let (core, a) = ring_at(&rings, num(0.0)).expect("the centre is lit");
    assert_eq!(core, sun().core, "the centre is the core colour");
    assert!((value(a) - value(rings[0].part)).abs() < 1.0e-6);
    for stop in &rings[..3] {
        let (c, a) = ring_at(&rings, stop.at).expect("a stop inside the rim is lit");
        assert_eq!(c, stop.tone, "the ramp drifted off its own stop at r={:?}", stop.at);
        assert!((value(a) - value(stop.part)).abs() < 1.0e-6);
    }
    assert!(ring_at(&rings, sun().radius).is_none());
    assert!(ring_at(&rings, num(value(sun().radius) + 1.0)).is_none());
}

#[test]
fn sky_a_disc_block_reads_the_same_ramp_the_ring_fan_drew() {
    a_disc_block_reads_the_same_ramp_the_ring_fan_drew();
}

#[test]
fn model_a_disc_block_reads_the_same_ramp_the_ring_fan_drew() {
    a_disc_block_reads_the_same_ramp_the_ring_fan_drew();
}

fn a_disc_fades_outward_block_by_block() {
    for disc in [sun(), moon()] {
        let rings = rings(&disc, 1.0);
        let mut last = f32::MAX;
        let mut steps = 0;
        let mut r = 0.0;
        while r < value(disc.radius) {
            if let Some((_, a)) = ring_at(&rings, num(r)) {
                assert!(value(a) <= last + 1.0e-6, "alpha rose outward at r={r}");
                last = value(a);
                steps += 1;
            }
            r += BLOCK;
        }
        assert!(steps > 3, "a disc should be more than {steps} blocks deep");
    }
}

#[test]
fn sky_a_disc_fades_outward_block_by_block() {
    a_disc_fades_outward_block_by_block();
}

#[test]
fn model_a_disc_fades_outward_block_by_block() {
    a_disc_fades_outward_block_by_block();
}

fn the_backdrop_grid_matches_the_world_it_sits_behind() {
    assert_eq!(
        SKY_PIXEL_PX, CELL_SIZE,
        "the sky's pixel and the world's cell are meant to be the same size"
    );
    let snap = |v: f32| value(snap_to_block(num(v)));
    let cell = CELL_SIZE as f32;
    assert_eq!(snap(0.4 * cell), 0.0);
    assert_eq!(snap(0.6 * cell), cell);
    assert_eq!(snap(-0.6 * cell), -cell);
}

#[test]
fn sky_the_backdrop_grid_matches_the_world_it_sits_behind() {
    the_backdrop_grid_matches_the_world_it_sits_behind();
}

#[test]
fn model_the_backdrop_grid_matches_the_world_it_sits_behind() {
    the_backdrop_grid_matches_the_world_it_sits_behind();
}

fn the_camera_is_at_the_surface_until_it_is_below_the_anchor() {
    for row in [-40, 0, 96] {
        let anchor = (row * CELL_SIZE as i32) as f32;
        let depth = |y: f32| value(depth_at(num(y), row));
        assert_eq!(depth(anchor), 0.0);
        assert_eq!(depth(anchor - 1000.0), 0.0, "the sky does not go deeper");
        assert_eq!(depth(anchor + 300.0 * CELL_SIZE as f32), 1.0);
        assert_eq!(depth(1.0e9), 1.0, "and it stops at fully buried");
        let half = depth(anchor + 300.0 * 0.5 * CELL_SIZE as f32);
        assert!((half - 0.5).abs() < 1.0e-4, "was {half}");
    }
}

#[test]
fn sky_the_camera_is_at_the_surface_until_it_is_below_the_anchor() {
    the_camera_is_at_the_surface_until_it_is_below_the_anchor();
}

#[test]
fn model_the_camera_is_at_the_surface_until_it_is_below_the_anchor() {
    the_camera_is_at_the_surface_until_it_is_below_the_anchor();
}

/// The sky as the machine computes it.
fn machine_channel(
    day: [f32; 3],
    dusk: (f32, f32),
    night: f32,
    horizon: f32,
    deep: f32,
    by_depth: f32,
    h: (f32, f32),
) -> f32 {
    let noon = (day[0] * day[1] + horizon * day[2]).clamp(0.0, 255.0);
    let mut t = night + (noon - night) * h.0;
    t += (dusk.0 - t) * h.1 * dusk.1;
    t + (deep - t) * by_depth
}

#[test]
fn the_gradient_is_what_the_machine_computes() {
    let day_top = [96.0, 140.0, 205.0];
    let day_bot = [200.0, 220.0, 240.0];
    let dusk_top = [64.0, 52.0, 96.0];
    let dusk_bot = [242.0, 138.0, 74.0];
    let own = plains();
    let (top, low, deep) = (rgb(own.sky_top), rgb(own.sky_bottom), rgb(own.sky_top_deep));
    for i in 0..200 {
        let f = |k: u32| (((i * k) % 97) as f32) / 96.0;
        let (day, dusk, depth) = (f(7), f(31), f(53));
        let g = gradient(&own, num(depth), &hour(day, dusk, 0.5));
        for c in 0..3 {
            let want = machine_channel(
                [day_top[c], 0.45, 1.25],
                (dusk_top[c], 0.45),
                top[c],
                low[c],
                deep[c],
                depth,
                (day, dusk),
            );
            assert_eq!(rgb(g.top)[c], want);
            let noon = (day_bot[c] * 0.5 + low[c] * 1.5).clamp(0.0, 255.0);
            let mut b = low[c] + (noon - low[c]) * day;
            b += (dusk_bot[c] - b) * dusk * 0.6;
            assert_eq!(rgb(g.bottom)[c], b + (deep[c] - b) * depth * 0.9);
        }
    }
}

#[test]
fn the_painted_sky_is_the_texel_of_each_blocks_own_row() {
    let view = ViewSize { w: 33, h: 58 };
    let ends = gradient(&plains(), num(0.1), &crossing());
    let glow = horizon_glow(&crossing(), num(0.1), num(58.0));
    let bytes = paint_sky(&ends, &glow, view);
    let (cols, rows) = block_grid(view);
    assert_eq!(bytes.len(), cols * rows * 4);
    for row in 0..rows {
        for col in 0..cols {
            let at = block_sample(col as i32, row as i32) as f32 / 32.0;
            let y = (row as f32 + at) * BLOCK;
            let want = sky_texel(&ends, &glow, num(y), num(58.0));
            let i = (row * cols + col) * 4;
            assert_eq!(bytes[i..i + 4], want, "block ({col},{row})");
        }
    }
}

#[test]
fn the_glow_is_what_the_machine_computes() {
    let stops = [
        (0.00f32, [240.0f32, 120.0, 60.0], 0.00f32),
        (0.55, [244.0, 132.0, 66.0], 0.30),
        (1.00, [255.0, 186.0, 110.0], 0.62),
    ];
    let glow = glow_of(&hour(0.4, 0.83, 0.47), 0.15).expect("lit");
    let strength = 0.83f32 * (1.0 - 0.15);
    let bottom = 450.0f32 * (0.52 + 0.30 * 0.47);
    let top = bottom - 450.0 * 0.42;
    assert_eq!([glow.strength, glow.top, glow.bottom].map(value), [strength, top, bottom]);
    for i in 0..500 {
        let y = i as f32 * 1.3 - 60.0;
        let u = ((y - top) / (bottom - top)).clamp(0.0, 1.0);
        let (lo, hi) = if u <= 0.55 { (stops[0], stops[1]) } else { (stops[1], stops[2]) };
        let t = ((u - lo.0) / (hi.0 - lo.0)).clamp(0.0, 1.0);
        let add = rgb(glow.add_at(num(y)));
        for c in 0..3 {
            let (a, b) = (lo.1[c] * lo.2 * strength, hi.1[c] * hi.2 * strength);
            assert_eq!(add[c], a + (b - a) * t, "row {y}");
        }
    }
}

#[test]
fn a_star_is_where_the_machine_puts_it() {
    let field = StarField::new();
    let hash = |i: u32| {
        let h = i.wrapping_mul(374_761_393);
        let h = (h ^ (h >> 13)).wrapping_mul(1_274_126_177);
        (h & 0x00ff_ffff) as f32 / 16_777_216.0
    };
    let inside = |v: f32, m: f32| {
        let r = v.rem_euclid(m);
        if r < m {
            r
        } else {
            0.0
        }
    };
    for i in 0..STAR_COUNT {
        let n = i as u32;
        let cam = (n as f32 * 1234.5 - 40_000.0, 900.0 - n as f32 * 77.7);
        let seconds = n as f32 * 0.37;
        let got = star(&field, i, cam, VIEW, seconds, 0.8);
        let phase = hash(n * 23 + 11) * core::f32::consts::TAU;
        let twinkle = 0.78 + 0.22 * (seconds * 1.6 + phase).sin();
        assert_eq!(value(got.x), inside(hash(n * 2 + 1) * 720.0 - cam.0 * 0.1, 720.0));
        let y = hash(n * 7 + 3) * 0.7 * 450.0 - cam.1 * 0.1;
        assert_eq!(value(got.y), inside(y, 450.0));
        assert_eq!(value(got.alpha), (0.25 + hash(n * 13 + 5) * 0.55) * 0.8 * twinkle);
    }
}

#[test]
fn a_wrapped_coordinate_stays_below_its_modulus() {
    for v in [-1.0e-9f32, -0.1, 0.0, 719.9999, 720.0, -720.0, 1.0e9, -1.0e9, f32::NAN] {
        let w = value(wrap(num(v), num(720.0)));
        assert!((0.0..720.0).contains(&w), "{v} wrapped to {w}");
    }
    assert_eq!(value(wrap(num(5.0), num(0.0))), 0.0);
    assert_eq!(value(wrap(num(5.0), num(-3.0))), 0.0);
    assert_eq!(value(wrap(num(-0.25), num(10.0))), 9.75);
}

#[test]
fn a_ridge_is_what_the_machine_computes() {
    let far = [0.30f32, 0.70, 0.006, 0.017, 26.0, 12.0, 1.0];
    let near = [0.55f32, 0.82, 0.011, 0.023, 18.0, 9.0, 0.55];
    for (ridge, k) in ridges().iter().zip([far, near]) {
        for j in -300..300 {
            let x = j as f32 * BLOCK;
            let wx = x + BLOCK * 0.5 + 0.0 * k[0];
            let y = 450.0 * k[1] + (wx * k[2]).sin() * k[4] + (wx * k[3]).sin() * k[5];
            assert_eq!(column_top(ridge, x, 450.0), (y / BLOCK).round() * BLOCK);
            let cam = x * 3.7;
            assert_eq!(value(ridge.scroll(num(cam))), (cam * k[0]).round());
        }
        for day in [0.0f32, 0.25, 0.9, 1.0] {
            let shade = (0.4 + 0.6 * day) * k[6];
            let want = HILL.map(|c| (c * shade).trunc());
            assert_eq!(rgb(ridge.tint(tone(HILL), num(day))), want);
        }
    }
}

#[test]
fn a_disc_is_as_many_blocks_as_reach_its_rim() {
    assert_eq!((sun().blocks(), moon().blocks()), (10, 7));
    let whole = Disc { radius: num(45.0), ..sun() };
    assert_eq!(whole.blocks(), 9);
    let disc = moon();
    let n = disc.blocks() as i32;
    let mut out = Vec::new();
    for row in -n..n {
        for col in -n..n {
            let (dx, dy) = (value(block_offset(col)), value(block_offset(row)));
            assert_eq!((dx, dy), ((col as f32 + 0.5) * BLOCK, (row as f32 + 0.5) * BLOCK));
            out.push(num(dx.hypot(dy)));
        }
    }
    let colours = disc.colours(num(0.7), n as u16, &out);
    assert_eq!(colours.len(), out.len());
    let rings = rings(&disc, 0.7);
    for (i, got) in colours.iter().enumerate() {
        let (col, row) = (i as i32 % (2 * n) - n, i as i32 / (2 * n) - n);
        let at = block_sample(col, row) as f32 / 32.0;
        let r = value(out[i]) + BLOCK * (at - 0.5);
        assert_eq!(*got, ring_at(&rings, num(r)), "block ({col},{row})");
    }
    assert!(colours[0].is_none(), "a corner of the square is outside the disc");
    assert!(colours[(2 * n * n + n) as usize].is_some());
}

#[test]
fn the_views_corner_is_half_a_view_from_the_focus() {
    let (x, y) = view_corner((num(100.25), num(-7.0)), ViewSize { w: 720, h: 451 });
    assert_eq!((value(x), value(y)), (100.25 - 360.0, -7.0 - 225.5));
}

#[test]
fn a_ramp_of_any_length_is_read_between_its_rings() {
    let ring = |at: f32, c: [f32; 3], part: f32| Stop { at: num(at), tone: tone(c), part: num(part) };
    let rings = vec![
        ring(0.0, [100.0, 0.0, 0.0], 1.0),
        ring(10.0, [0.0, 100.0, 0.0], 0.5),
        ring(20.0, [0.0, 0.0, 100.0], 0.0),
    ];
    let read = |r: f32| ring_at(&rings, num(r)).map(|(c, a)| (rgb(c), value(a)));
    assert_eq!(read(0.0), Some(([100.0, 0.0, 0.0], 1.0)));
    assert_eq!(read(5.0), Some(([50.0, 50.0, 0.0], 0.75)));
    assert_eq!(read(10.0), Some(([0.0, 100.0, 0.0], 0.5)));
    assert_eq!(read(15.0), Some(([0.0, 50.0, 50.0], 0.25)));
    assert_eq!(read(20.0), None);
    assert_eq!(read(21.0), None);
    assert_eq!(read(f32::NAN), None);
    assert_eq!(ring_at(&[], num(0.0)), None);
    assert_eq!(ring_at(&rings[..1], num(-1.0)), None);
}

#[test]
fn a_full_disc_never_rises_outward_at_all() {
    for disc in [sun(), moon()] {
        let rings = rings(&disc, 1.0);
        let mut last = f32::MAX;
        for i in 0..20_000 {
            let r = i as f32 * 0.0025;
            let a = ring_at(&rings, num(r)).map_or(0.0, |(_, a)| value(a));
            assert!(a <= last, "alpha rose outward at r={r}");
            last = a;
        }
        assert_eq!(last, 0.0);
    }
}

#[test]
fn the_glow_is_warm_and_only_grows_downward() {
    for strength in [f32::from_bits(1), 1.0e-38, 1.0e-20, 0.021, 0.1, 0.37, 0.5, 0.999, 1.0] {
        let glow = HorizonGlow { strength: num(strength), top: num(60.0), bottom: num(249.0) };
        let [r, g, b] = rgb(glow.add_at(glow.bottom));
        assert!(r > g && g > b && b > 0.0, "{r} {g} {b}");
        let mut last = [0.0f32; 3];
        for i in 0..3_000 {
            let now = rgb(glow.add_at(num(i as f32 * 0.1)));
            for k in 0..3 {
                assert!(now[k] >= last[k], "channel {k} fell at row {i}");
            }
            last = now;
        }
        assert_eq!(last, [r, g, b]);
        assert_eq!(rgb(glow.add_at(num(f32::INFINITY))), [r, g, b]);
        assert_eq!(rgb(glow.add_at(num(f32::NEG_INFINITY))), [0.0; 3]);
    }
}

#[test]
fn a_star_has_at_least_0_56_of_its_brightness_and_at_most_all_of_it() {
    let field = StarField::new();
    let cam = (num(0.0), num(0.0));
    for i in 0..STAR_COUNT {
        let own = field.star(i, num(1.0), cam, VIEW, num(1.0)).alpha;
        for step in -100..=100 {
            let a = value(field.star(i, num(step as f32 / 100.0), cam, VIEW, num(1.0)).alpha);
            assert!(0.55999 * value(own) <= a && a <= value(own), "star {i} at {step}: {a}");
        }
        let least = num(1.0e-44);
        assert!(value(field.star(i, num(-1.0), cam, VIEW, least).alpha) > 0.0);
    }
}

#[test]
fn a_ridge_reaches_its_two_ends_and_no_further() {
    for ridge in &ridges() {
        for view_h in [0.0, 1.0, 450.0, 1080.0, 1.0e6] {
            let at = |a: f32, b: f32| value(ridge.height_at((num(a), num(b)), num(view_h)));
            let rest = view_h * value(ridge.base);
            assert_eq!(at(1.0, 1.0), rest + value(ridge.a1) + value(ridge.a2));
            assert_eq!(at(-1.0, -1.0), rest - value(ridge.a1) - value(ridge.a2));
            for i in -20..=20 {
                let y = at(i as f32 / 20.0, (i as f32 * 0.7).sin());
                assert!(at(-1.0, -1.0) <= y && y <= at(1.0, 1.0));
            }
        }
    }
}

#[test]
fn a_band_past_all_numbers_still_grows_downward() {
    let glow = HorizonGlow { strength: num(0.5), top: num(-3.0e38), bottom: num(3.0e38) };
    let [r, g, b] = rgb(glow.add_at(glow.bottom));
    assert!(r > g && g > b && b > 0.0, "{r} {g} {b}");
    assert_eq!(rgb(glow.add_at(num(f32::MAX))), [r, g, b]);
    assert_eq!(rgb(glow.add_at(glow.top)), [0.0; 3]);
    assert_eq!(rgb(glow.add_at(num(f32::MIN))), [0.0; 3]);
    let mut last = 0.0;
    for i in -33..=33 {
        let now = value(glow.add_at(num(i as f32 * 1.0e37)).r);
        assert!(now >= last);
        last = now;
    }
}
