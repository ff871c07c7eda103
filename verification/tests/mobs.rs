use yugen_render::mobs::art::{
    art_origin, bake_mob, bake_mob_art, mob_opts, pose_of, removed_art, resolve_states, MobArt,
    MobArtError, MobAtlases, MobPose,
};
use yugen_render::mobs::draw::{
    place_breach_tells, place_mob, place_mob_glow, place_shot_glow, push_breach_tell,
    push_shot_glow, shot_alpha, tell_cells, Burrower, GlowingShot, MobLook,
};
use yugen_render::mobs::light::{
    churn_angle, flashed, is_raised, pulse, pulse_angle, tell_alpha, tell_over,
};
use yugen_render::mobs::pool::{
    follow_view, place_shot, spawn_pool, BreachTell, Daylight, MobGlow, MobSprite, Pooled, Shot,
    ShotGlow, ShotPool, ShotSprite,
};
use yugen_render::number::Number;
use yugen_render::shear::Point;
use yugen_render::sky::mesh::{Vertex, VertexBuf, ViewSize};
use yugen_render::sprite::bake::Rgb;
use yugen_render::sprite::baked::CELL_SIZE;
use yugen_render::sprite::content::{ContentArt, ContentSeq, SpriteAtlas};
use yugen_render::sprite::error::{SpriteError, VARIANT_COUNT};
use yugen_render::sprite::frames::SpriteClock;
use yugen_render::sprite::pose::{PlayMode, Pose};
use yugen_render::sprite::table::{bake_one, BakeError};

fn num(x: f32) -> Number {
    Number { bits: x.to_bits() }
}

fn value(n: Number) -> f32 {
    f32::from_bits(n.bits)
}

fn seq(pose: Pose, fps: f32, frames: &[&str]) -> ContentSeq {
    ContentSeq {
        pose,
        mode: PlayMode::Loop,
        fps: num(fps),
        blink_every: num(0.0),
        blink_for: num(0.0),
        frames: frames.iter().map(|s| s.to_string()).collect(),
    }
}

/// A 2x1 creature that authors each of the given poses, at its own rate or an inherited one.
fn creature(poses: &[Pose]) -> ContentArt {
    ContentArt {
        cells_w: 2,
        cells_h: 1,
        grain: 1,
        pal: vec![".".to_string(), "#102030".to_string(), "#ff8000".to_string()],
        fps: num(7.0),
        variants: 1,
        seq: poses
            .iter()
            .enumerate()
            .map(|(i, p)| seq(*p, if i == 1 { 3.0 } else { 0.0 }, &["12", "", "21"]))
            .collect(),
    }
}

const POSES: [MobPose; 3] = [MobPose::Idle, MobPose::Move, MobPose::Air];

fn bestiary() -> Vec<(String, Option<ContentArt>)> {
    vec![
        ("bat".to_string(), Some(creature(&[Pose::Idle, Pose::Move, Pose::Air]))),
        ("gone".to_string(), None),
        ("slime".to_string(), Some(creature(&[Pose::Move, Pose::Idle]))),
    ]
}

// -- The bake -----------------------------------------------------------------

#[test]
fn every_creature_bakes_at_the_art_rect_the_bestiary_published() {
    let baked = bake_mob_art(&bestiary()).unwrap();
    for ((_, record), (b, _)) in bestiary().iter().zip(&baked) {
        let (w, h) = record.as_ref().map_or((1, 1), |r| (r.cells_w, r.cells_h));
        assert_eq!(b.w_px, w as u32 * CELL_SIZE);
        assert_eq!(b.h_px, h as u32 * CELL_SIZE);
        assert_eq!(b.variants, VARIANT_COUNT);
    }
}

#[test]
fn every_pose_of_every_creature_resolves() {
    for (b, _) in bake_mob_art(&bestiary()).unwrap() {
        let states = resolve_states(&b, "mob").unwrap();
        for id in [states.idle, states.walk, states.air] {
            assert!(b.poses().get(id.index()).is_some());
        }
    }
}

#[test]
fn a_creature_with_no_air_pose_borrows_its_walk_cycle() {
    let baked = bake_one(&removed_art(), "removed", &mob_opts()).unwrap();
    let states = resolve_states(&baked, "removed").unwrap();
    assert_eq!(states.air, states.walk, "it should fly with its walk cycle");
    assert_ne!(states.air, states.idle, "not whichever sequence came first");
    // One that authors its own does not borrow.
    let bat = bake_mob(&bestiary()[0]).unwrap();
    assert_ne!(bat.1.air, bat.1.walk);
}

#[test]
fn the_idle_loop_plays_at_half_the_authored_rate() {
    let art = creature(&[Pose::Idle, Pose::Move, Pose::Air]);
    let baked = bake_one(&art, "bat", &mob_opts()).unwrap();
    let states = resolve_states(&baked, "bat").unwrap();
    let rate = |id| {
        value(baked.spec(id).fps)
    };
    assert_eq!(rate(states.idle), 7.0 * 0.5);
    assert_eq!(rate(states.walk), 3.0);
    assert_eq!(rate(states.air), 7.0);
}

#[test]
fn a_tombstoned_creature_bakes_a_magenta_cell() {
    let baked = bake_one(&removed_art(), "removed", &mob_opts()).unwrap();
    assert_eq!(baked.w_px, CELL_SIZE);
    assert_eq!(baked.h_px, CELL_SIZE);
    let tile = baked.still_tile(baked.first_state(), 0);
    assert_eq!(baked.pixels()[tile * 4..tile * 4 + 4], [0xff, 0x00, 0xff, 0xff]);
    resolve_states(&baked, "removed").unwrap();
}

#[test]
fn the_art_hangs_off_the_body_box_by_the_published_pad() {
    // Two cells wider and one taller than its body.
    let (w, h, pad) = (10.0, 15.0, CELL_SIZE as f32);
    let (art_w, art_h) = (w + 2.0 * pad, h + pad);
    let (left, top) = art_origin(num(100.0), num(200.0), num(pad), num(pad));
    let (left, top) = (value(left), value(top));
    assert_eq!(left, 100.0 - pad);
    assert_eq!(top, 200.0 - pad);
    assert_eq!(top + art_h, 200.0 + h, "feet planted");
    assert_eq!(left + art_w, 100.0 + w + pad, "centred");
}

#[test]
fn the_corner_may_be_rounded_after_the_pad_is_taken_off() {
    let corner = |x: f32, pad: f32| value(art_origin(num(x), num(x), num(pad), num(pad)).0);
    for x in [0.0, 3.2, 100.49, 7.75, -12.3] {
        for pad in [0.0, 5.0, 10.0] {
            assert_eq!(corner(x, pad).round(), x.round() - pad, "{x} less {pad}");
        }
    }
    // A half goes away from zero, on whichever side of it the corner ends up.
    assert_eq!(corner(2.5, 5.0).round(), -3.0);
    assert_eq!(2.5f32.round() - 5.0, -2.0);
}

#[test]
fn a_creature_that_does_not_bake_is_reported_by_its_code() {
    let mut table = bestiary();
    table[2].1 = Some(creature(&[Pose::Idle]));
    // The borrowing rule leads nowhere without a walk cycle.
    let (at, e) = bake_mob_art(&table).unwrap_err();
    assert_eq!(at, 2);
    assert_eq!(
        e,
        MobArtError::Bake(BakeError::Sprite(SpriteError::FallbackDangling {
            who: "slime".to_string(),
            from: Pose::Air,
            to: Pose::Move,
        }))
    );
    assert_eq!(e.message(), "content/mobs: slime: fallback Air -> Move names no sequence");

    let still = bake_mob(&("still".to_string(), Some(creature(&[Pose::Move]))));
    let e = still.unwrap_err();
    assert_eq!(e, MobArtError::NoSequence { who: "still".to_string(), pose: MobPose::Idle });
    assert_eq!(
        e.message(),
        "content/mobs: still has no Idle sequence and nothing to borrow one from"
    );
}

#[test]
fn what_is_wrong_with_a_creatures_own_record_is_told_first() {
    let bake = |art: ContentArt| bake_mob(&("mob".to_string(), Some(art))).unwrap_err();
    let who = || "mob".to_string();

    // Every pose it is drawn in has frames, and one that it is not drawn in has none.
    let mut blank = creature(&[Pose::Idle, Pose::Move, Pose::Air]);
    let mut run = blank.seq[0].clone();
    run.pose = Pose::Run;
    run.frames.clear();
    blank.seq.push(run.clone());
    let empty = SpriteError::EmptySequence { who: who(), pose: Pose::Run };
    assert_eq!(bake(blank), MobArtError::Bake(BakeError::Sprite(empty.clone())));

    // Without an idle sequence either, the empty one is still what is told.
    let mut still = creature(&[Pose::Move]);
    still.seq.push(run);
    assert_eq!(bake(still), MobArtError::Bake(BakeError::Sprite(empty)));

    let mut none = creature(&[Pose::Move]);
    none.seq.clear();
    let missing = SpriteError::NoSequences { who: who() };
    assert_eq!(bake(none.clone()), MobArtError::Bake(BakeError::Sprite(missing)));
    let table = vec![bestiary()[0].clone(), ("none".to_string(), Some(none))];
    assert_eq!(bake_mob_art(&table).unwrap_err().0, 1);
}

#[test]
fn a_creatures_pose_is_drawn_as_the_pose_of_that_name() {
    assert_eq!(POSES.map(pose_of), [Pose::Idle, Pose::Move, Pose::Air]);
}

// -- The draw -----------------------------------------------------------------

#[test]
fn full_daylight_is_the_default_until_the_lighting_milestone() {
    assert_eq!(value(Daylight::default().0), 1.0);
}

fn bat_art() -> MobArt<&'static str, ()> {
    let (baked, states) = bake_mob(&bestiary()[0]).unwrap();
    MobArt { atlas: SpriteAtlas { image: "strip", layout: (), baked }, states }
}

fn look() -> MobLook {
    MobLook {
        active: true,
        buried: false,
        pose: MobPose::Move,
        variant: 4,
        facing: num(-1.0),
        body_x: num(100.0),
        body_y: num(50.0),
        pad_x: num(5.0),
        pad_top: num(10.0),
        art_w: num(20.0),
        art_h: num(15.0),
        glow: num(0.5),
    }
}

/// The clock of a creature in the given frame of a sequence of three frames a second.
fn reading(frame: u8) -> SpriteClock {
    SpriteClock { state_t: num((f32::from(frame) + 0.5) / 3.0), ..SpriteClock::default() }
}

#[test]
fn a_creature_is_drawn_at_its_art_rect_and_hidden_when_it_is_not_there() {
    let art = bat_art();
    let m = look();
    let p = place_mob(&m, Some(&art), &reading(1)).unwrap();
    assert_eq!(p.tile, art.atlas.baked.tile(art.state(MobPose::Move), 1, &reading(1)));
    assert!(p.flip_x);
    assert_eq!((value(p.middle.x), value(p.middle.y)), (105.0, -47.5));
    assert_eq!((value(p.w), value(p.h)), (20.0, 15.0));
    let right = place_mob(&MobLook { facing: num(1.0), ..m }, Some(&art), &reading(1)).unwrap();
    assert!(!right.flip_x);

    assert!(place_mob(&MobLook { active: false, ..m }, Some(&art), &reading(0)).is_none());
    assert!(place_mob(&MobLook { buried: true, ..m }, Some(&art), &reading(0)).is_none());
    let none: Option<&MobArt<&str, ()>> = None;
    assert!(place_mob(&m, none, &reading(0)).is_none());
    // A variant below zero is the first.
    let first = place_mob(&MobLook { variant: -7, ..m }, Some(&art), &reading(0)).unwrap();
    assert_eq!(first.tile, art.atlas.baked.tile(art.state(MobPose::Move), 0, &reading(0)));
}

#[test]
fn a_glow_lies_exactly_on_the_sprite_it_belongs_to() {
    let art = bat_art();
    let m = look();
    let sprite = place_mob(&m, Some(&art), &reading(0)).unwrap();
    let glow = place_mob_glow(&m, Some(&art), &reading(0), num(1.0)).unwrap();
    assert_eq!(glow.placed, sprite);
    assert_eq!(glow.uv, art.atlas.baked.tile_uv(sprite.tile, true));
    assert_eq!(value(glow.alpha), 0.5 * (0.8 + 0.2));
    for dull in [0.0, -1.0, f32::NAN] {
        let m = MobLook { glow: num(dull), ..m };
        assert!(place_mob_glow(&m, Some(&art), &reading(0), num(0.0)).is_none());
    }
    let buried = MobLook { buried: true, ..m };
    assert!(place_mob_glow(&buried, Some(&art), &reading(0), num(0.0)).is_none());
}

#[test]
fn the_atlases_are_indexed_by_code() {
    let atlases = MobAtlases::new(vec![None, Some(bat_art())]);
    assert_eq!(atlases.count(), 1);
    assert!(atlases.by_code(0).is_none());
    assert_eq!(atlases.by_code(1).unwrap().atlas.image, "strip");
    assert!(atlases.by_code(2).is_none());
}

// -- The shots ----------------------------------------------------------------

fn lit(glow: f32, color: u8) -> GlowingShot<u8> {
    GlowingShot { glow: num(glow), x: num(10.4), y: num(20.6), r_px: num(1.5), color }
}

fn unlit() -> Vertex<u8> {
    Vertex { at: Point { x: num(0.0), y: num(0.0) }, color: 0 }
}

#[test]
fn only_a_luminous_shot_reaches_the_additive_pass() {
    let mut buf: VertexBuf<Vertex<u8>> = VertexBuf::new();
    push_shot_glow(&mut buf, &lit(0.0, 1));
    assert_eq!(buf.write(unlit()).vertices.len(), 3, "the degenerate stand-in");

    let mut buf: VertexBuf<Vertex<u8>> = VertexBuf::new();
    push_shot_glow(&mut buf, &lit(0.4, 1));
    let v = buf.write(unlit()).vertices;
    assert_eq!(v.len(), 4, "one quad");
    let corners: Vec<(f32, f32)> = v.iter().map(|v| (value(v.at.x), value(v.at.y))).collect();
    let want = vec![(7.5, -18.5), (12.5, -18.5), (12.5, -23.5), (7.5, -23.5)];
    assert_eq!(corners, want, "the square grows round its rounded middle");
}

#[test]
fn the_players_arrows_are_in_the_glow_pass_and_contribute_nothing() {
    let mut buf: VertexBuf<Vertex<u8>> = VertexBuf::new();
    place_shot_glow(&mut buf, &vec![None, None], &vec![lit(0.0, 1)]);
    assert_eq!(buf.write(unlit()).vertices.len(), 3, "the degenerate stand-in");
}

#[test]
fn the_creatures_shots_glow_before_the_arrows() {
    let shot = |n: u8| lit(0.4, n);
    let mut buf: VertexBuf<Vertex<u8>> = VertexBuf::new();
    place_shot_glow(&mut buf, &vec![Some(shot(1)), None, Some(shot(2))], &vec![shot(3)]);
    let v: Vec<u8> = buf.write(unlit()).vertices.iter().map(|v| v.color).collect();
    assert_eq!(v, vec![1, 1, 1, 1, 2, 2, 2, 2, 3, 3, 3, 3]);
    assert_eq!(value(shot_alpha(num(0.4))), 0.4);
    assert_eq!(value(shot_alpha(num(7.0))), 1.0);
    assert_eq!(value(shot_alpha(num(f32::NAN))), 1.0);
}

#[test]
fn a_shot_slot_shows_the_shot_of_its_own_pool() {
    let shot = |x: f32| Shot { x: num(x), y: num(2.0 * x), r_px: num(1.5), color: Rgb { r: 1, g: 2, b: 3 } };
    let creature = vec![None, Some(shot(10.3))];
    let live = vec![shot(19.8)];
    let at = |pool: ShotPool, slot: usize| {
        place_shot(ShotSprite { pool, slot }, &creature, &live)
            .map(|p| (value(p.at.x), value(p.at.y), value(p.side)))
    };
    assert_eq!(at(ShotPool::Creature, 0), None);
    assert_eq!(at(ShotPool::Creature, 1), Some((10.0, -21.0, 3.0)));
    assert_eq!(at(ShotPool::Player, 0), Some((20.0, -40.0, 3.0)));
    assert_eq!(at(ShotPool::Player, 1), None, "past the live ones");
}

// -- The pools ----------------------------------------------------------------

#[test]
fn every_slot_is_pooled_once_and_in_depth_order() {
    let plan = spawn_pool(2, 1, 2);
    assert_eq!(
        plan,
        vec![
            Pooled::Mob(MobSprite { slot: 0 }),
            Pooled::Glow(MobGlow { slot: 0 }),
            Pooled::Mob(MobSprite { slot: 1 }),
            Pooled::Glow(MobGlow { slot: 1 }),
            Pooled::Shot(ShotSprite { pool: ShotPool::Creature, slot: 0 }),
            Pooled::Shot(ShotSprite { pool: ShotPool::Player, slot: 0 }),
            Pooled::Shot(ShotSprite { pool: ShotPool::Player, slot: 1 }),
            Pooled::Tell(BreachTell),
            Pooled::ShotGlow(ShotGlow),
        ]
    );
    let depths: Vec<u32> = plan.iter().map(|p| p.depth()).collect();
    assert_eq!(depths, vec![45, 80, 45, 80, 55, 55, 55, 44, 81]);
}

#[test]
fn a_view_is_followed_once_per_change() {
    let (small, large) = (ViewSize { w: 1, h: 1 }, ViewSize { w: 640, h: 400 });
    let mut last = None;
    assert!(follow_view(&mut last, small));
    assert!(!follow_view(&mut last, small));
    assert!(follow_view(&mut last, large));
    assert_eq!(last, Some(large));
}

// -- The breach tell ----------------------------------------------------------

const TELL_TIME: f32 = 0.8;

fn burrower(w_px: f32) -> Burrower<u8> {
    Burrower {
        active: true,
        buried: true,
        tell_t: num(TELL_TIME),
        tell_time: num(TELL_TIME),
        body_x: num(10.4),
        body_y: num(64.7),
        w_px: num(w_px),
        raised: vec![false; tell_cells(num(w_px)).unwrap()],
        color: 9,
    }
}

fn row(b: &Burrower<u8>) -> Vec<(f32, f32)> {
    let mut buf = VertexBuf::new();
    push_breach_tell(&mut buf, b);
    let v = buf.write(unlit()).vertices;
    v.iter().map(|p| (value(p.at.x), value(p.at.y))).collect()
}

#[test]
fn the_tell_is_the_width_of_the_body_and_not_of_the_art() {
    let cell = CELL_SIZE as f32;
    assert_eq!(row(&burrower(cell * 3.0)).len(), 3 * 4, "three body cells wide");
    assert_eq!(row(&burrower(cell * 3.0 - 0.5)).len(), 3 * 4, "a part of a cell is a cell");
}

#[test]
fn a_row_has_a_cell_for_each_that_starts_within_the_body() {
    for (w_px, cells) in [(0.0, 0), (-3.0, 0), (0.5, 1), (5.0, 1), (5.1, 2), (12.0, 3), (640.0, 128)] {
        assert_eq!(tell_cells(num(w_px)), Some(cells), "{w_px}");
    }
    assert_eq!(tell_cells(num(f32::NAN)), Some(0));
    assert_eq!(tell_cells(num(f32::INFINITY)), None);
    assert_eq!(tell_cells(num(134_217_744.0)), None, "steps of a cell never get there");
}

#[test]
fn a_row_is_stepped_across_as_numbers_add_up() {
    // Past 2 to the 24th a step of five is a step of four.
    let wide = 16_777_300.0f32;
    let mut cells = 0;
    let mut c = 0.0f32;
    while c < wide {
        c += CELL_SIZE as f32;
        cells += 1;
    }
    assert_ne!(cells, 3_355_460);
    assert_eq!(tell_cells(num(wide)), Some(cells));
}

#[test]
fn a_pulse_is_never_below_its_trough_nor_above_its_crest() {
    assert_eq!(value(pulse(num(-1.0))), 0.6);
    assert_eq!(value(pulse(num(1.0))), 1.0);
    for i in -1000..=1000 {
        let p = value(pulse(num(i as f32 / 1000.0)));
        assert!((0.6..=1.0).contains(&p), "{p}");
    }
}

#[test]
fn the_tell_sits_a_cell_above_the_body_on_whole_pixels() {
    let cell = CELL_SIZE as f32;
    let v = row(&burrower(cell * 2.0));
    for p in &v {
        assert_eq!(p.0, p.0.round(), "x {} is not a whole pixel", p.0);
        assert_eq!(p.1, p.1.round(), "y {} is not a whole pixel", p.1);
    }
    let top = v.iter().map(|p| p.1).fold(f32::MIN, f32::max);
    assert_eq!(top, -(64.7f32.round() - cell));
    assert_eq!(v[0].0, 10.4f32.round());
    assert_eq!(v[4].0, v[1].0, "the second cell starts where the first ends");
}

#[test]
fn a_cell_of_the_tell_is_lifted_whole_or_not_at_all() {
    let cell = CELL_SIZE as f32;
    let mut b = burrower(cell * 2.0);
    b.tell_t = num(TELL_TIME * 0.3);
    b.raised[1] = true;
    let v = row(&b);
    assert_eq!(v[0].1, -60.0);
    assert_eq!(v[4].1, -57.0, "three pixels higher");
    assert_eq!(v[4].1 - v[7].1, cell, "still a cell high");
}

#[test]
fn only_a_buried_creature_about_to_surface_tells() {
    let told = burrower(CELL_SIZE as f32);
    let quiet = [
        Burrower { active: false, ..told.clone() },
        Burrower { buried: false, ..told.clone() },
        Burrower { tell_t: num(0.0), ..told.clone() },
        Burrower { tell_t: num(-1.0), ..told.clone() },
    ];
    let mut all = quiet.to_vec();
    all.push(told);
    let mut buf = VertexBuf::new();
    place_breach_tells(&mut buf, &all);
    assert_eq!(buf.len(), 4);
    place_breach_tells(&mut buf, &quiet.to_vec());
    assert_eq!(buf.len(), 0, "the row of the last frame is gone");
}

#[test]
fn the_hit_flash_brightens_and_tops_out_at_twice_the_body_colour() {
    let k = |f: f32| value(flashed(num(f)));
    assert_eq!(k(0.0), 1.0, "no flash is no tint at all");
    assert_eq!(k(1.0), 2.0);
    assert_eq!(k(4.0), k(1.0));
    assert!(k(0.5) < k(1.0));
    assert!(k(0.5) > 1.0);
}

fn pulse_at(state_t: f32, wander: f32) -> f32 {
    let angle = value(pulse_angle(num(state_t), num(wander)));
    assert_eq!(angle, state_t * 3.0 + wander);
    value(pulse(num(angle.sin())))
}

#[test]
fn the_glow_pulse_stays_inside_its_band() {
    let mut low = f32::MAX;
    let mut high = f32::MIN;
    for i in 0..2000 {
        let p = pulse_at(i as f32 * 0.01, 1.7);
        low = low.min(p);
        high = high.max(p);
    }
    assert!(low >= 0.8 - 0.2);
    assert!(high <= 0.8 + 0.2);
    assert!(low > 0.5);
    assert_ne!(pulse_at(1.0, 0.0), pulse_at(1.0, 1.0));
}

#[test]
fn the_tell_swells_as_the_creature_arrives() {
    let tell_time = 0.9f32;
    let alpha_at = |tell_t: f32| value(tell_alpha(tell_over(num(tell_t), num(tell_time))));
    let fresh = alpha_at(tell_time);
    let landing = alpha_at(0.0);
    assert!((fresh - 0.35).abs() < 1e-6, "starts at the base");
    assert!((landing - (0.35 + 0.5)).abs() < 1e-6, "ends fully swollen");
    assert!(landing > fresh, "the tell gets louder, not quieter");
    for t in [-1.0, 0.0, tell_time * 0.5, tell_time, tell_time * 4.0] {
        let a = alpha_at(t);
        assert!((0.0..=1.0).contains(&a), "alpha {a} out of range at {t}");
    }
}

#[test]
fn a_tells_cells_churn_in_a_square_wave() {
    for c in 0..6 {
        let across = (c * 5) as f32;
        let angle = value(churn_angle(num(0.37), num(across)));
        assert_eq!(angle, 0.37 * 26.0 + across);
        assert_eq!(is_raised(num(angle.sin())), angle.sin() > 0.0);
    }
    assert!(!is_raised(num(0.0)));
}
