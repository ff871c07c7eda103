use yugen_render::number::Number;
use yugen_render::particles::presets::{puffed, scraped, smeared, splash, trail};
use yugen_render::player::{
    air_jump, dash_spark, default_dust, default_splash, figure_state, follow_player, ground_color,
    jump_puff, liquid_color, push_box, push_figure, quad_of, soft_landing, spawn_player_juice,
    step_puff, tile_uv, BodyBox, BodyReading, CellLook, Effect, Silhouette, JuiceState, PlayerEvent,
    Spot, Tint,
};
use yugen_render::shear::{Point, QuadBuf, QuadVertex, ShearedRect, TileUv};
use yugen_render::sprite::bake::Rgb;
use yugen_render::sprite::baked::{BakedSprite, SpriteArt};
use yugen_render::sprite::frames::{SeqSpec, SpriteClock};
use yugen_render::sprite::pose::{PlayMode, Pose};

fn num(x: f32) -> Number {
    Number { bits: x.to_bits() }
}

fn value(n: Number) -> f32 {
    f32::from_bits(n.bits)
}

const DT: f32 = 1.0 / 120.0;

const STONE: Rgb = Rgb { r: 90, g: 91, b: 92 };
const WATER: Rgb = Rgb { r: 10, g: 20, b: 200 };

fn body() -> BodyReading {
    BodyReading {
        land_impact: num(0.0),
        facing: num(1.0),
        dashing: false,
        wall_sliding: false,
        in_liquid: false,
        ground: CellLook::Solid(STONE),
        pool: CellLook::Liquid(WATER),
        wall_behind: CellLook::Empty,
        wall_ahead: CellLook::Solid(STONE),
    }
}

fn thrown(strength: f32, color: Rgb) -> Effect {
    Effect::Throw(Spot::Feet, puffed(color, num(strength)))
}

fn spend(events: &[PlayerEvent], b: &BodyReading) -> Vec<Effect> {
    let mut state = JuiceState::default();
    spawn_player_juice(&events.to_vec(), b, &mut state, num(DT)).effects
}

#[test]
fn each_event_throws_its_own_preset() {
    let b = body();
    assert_eq!(spend(&[PlayerEvent::Step], &b), vec![thrown(0.16, STONE)]);
    assert_eq!(spend(&[PlayerEvent::Jump], &b), vec![thrown(0.3, STONE)]);
    assert_eq!(
        spend(&[PlayerEvent::Land], &b),
        vec![thrown(0.12, STONE), Effect::FeelLanding(num(0.12))]
    );
    assert_eq!(
        spend(&[PlayerEvent::DoubleJump], &b),
        vec![Effect::Throw(Spot::AboveFeet, air_jump())]
    );
    assert_eq!(
        spend(&[PlayerEvent::Dash], &b),
        vec![Effect::Throw(Spot::Middle, smeared(num(1.0), dash_spark())), Effect::FeelDash]
    );
    assert_eq!(
        spend(&[PlayerEvent::WallJump], &b),
        vec![Effect::Throw(Spot::WallBehind, scraped(num(-1.0), default_dust()))],
        "grit leaves away from the wall behind"
    );
    assert_eq!(
        spend(&[PlayerEvent::Splash], &b),
        vec![Effect::Throw(Spot::Feet, splash().tinted(WATER))]
    );
    assert_eq!(spend(&[PlayerEvent::Hurt], &b), vec![Effect::FeelHurt]);
    assert!(spend(&[], &b).is_empty());
    let strengths = [soft_landing(), step_puff(), jump_puff()];
    assert_eq!(strengths.map(value), [0.12, 0.16, 0.3]);
}

#[test]
fn a_recorded_touchdown_is_spent_by_the_first_landing() {
    for (speed, strength) in [(1120.0, 1120.0 / 1400.0), (1400.0, 1.0), (5000.0, 1.0)] {
        let b = BodyReading { land_impact: num(speed), ..body() };
        let mut state = JuiceState::default();
        let events = vec![PlayerEvent::Step, PlayerEvent::Land, PlayerEvent::Land];
        let out = spawn_player_juice(&events, &b, &mut state, num(DT));
        assert!(out.landed);
        assert_eq!(
            out.effects,
            vec![
                thrown(0.16, STONE),
                thrown(strength, STONE),
                Effect::FeelLanding(num(strength)),
                thrown(0.12, STONE),
                Effect::FeelLanding(num(0.12)),
            ]
        );
    }
}

#[test]
fn a_continuous_state_adds_after_the_events() {
    let b = BodyReading { dashing: true, wall_sliding: true, facing: num(-1.0), ..body() };
    let mut state = JuiceState::default();
    let out = spawn_player_juice(&vec![PlayerEvent::Hurt], &b, &mut state, num(DT));
    assert!(!out.landed);
    assert_eq!(value(state.scrape_timer), 0.05);
    assert_eq!(
        out.effects,
        vec![
            Effect::FeelHurt,
            Effect::Throw(Spot::Middle, trail().tinted(dash_spark())),
            Effect::Throw(Spot::WallAhead, scraped(num(-1.0), STONE)),
        ]
    );
    let sliding = BodyReading { dashing: false, ..b };
    let mut wait = 0.05f32;
    loop {
        wait -= DT;
        let out = spawn_player_juice(&vec![], &sliding, &mut state, num(DT));
        if wait <= 0.0 {
            assert_eq!(out.effects.len(), 1, "the wait is over");
            break;
        }
        assert!(out.effects.is_empty(), "a slide does not emit every step");
        assert_eq!(value(state.scrape_timer), wait);
    }
}

#[test]
fn entering_a_liquid_splashes_once() {
    let b = BodyReading { in_liquid: true, ..body() };
    let wet = Effect::Throw(Spot::Feet, splash().tinted(WATER));
    let dt = num(DT);
    let mut state = JuiceState::default();
    assert_eq!(spawn_player_juice(&vec![], &b, &mut state, dt).effects, vec![wet]);
    assert!(state.prev_in_liquid);
    assert!(spawn_player_juice(&vec![], &b, &mut state, dt).effects.is_empty());
    // Reported by an event, it is not splashed a second time.
    let mut fresh = JuiceState::default();
    let out = spawn_player_juice(&vec![PlayerEvent::Splash], &b, &mut fresh, dt);
    assert_eq!(out.effects, vec![wet]);
    // Out, and in again.
    spawn_player_juice(&vec![], &body(), &mut state, dt);
    assert_eq!(spawn_player_juice(&vec![], &b, &mut state, dt).effects, vec![wet]);
}

#[test]
fn the_spots_of_the_body_are_where_it_is() {
    let b = BodyBox { x: num(100.0), y: num(40.0), w: num(10.0), h: num(15.0) };
    let at = |facing: f32, spot: Spot| {
        let (x, y) = b.place(num(facing), spot);
        (value(x), value(y))
    };
    assert_eq!(at(1.0, Spot::Feet), (105.0, 55.0));
    assert_eq!(at(1.0, Spot::AboveFeet), (105.0, 51.0));
    assert_eq!(at(1.0, Spot::Middle), (105.0, 47.5));
    assert_eq!(at(1.0, Spot::WallBehind), (100.0, 47.5));
    assert_eq!(at(-1.0, Spot::WallBehind), (110.0, 47.5));
    let (x, y) = b.wall_behind(num(1.0));
    assert_eq!((value(x), value(y)), (95.0, 47.5), "its own width behind the feet");
    assert_eq!(at(1.0, Spot::WallAhead), (112.0, 40.0 + 15.0 * 0.6));
    assert_eq!(at(-1.0, Spot::WallAhead), (98.0, 40.0 + 15.0 * 0.6));
}

#[test]
fn the_camera_closes_on_the_body_without_passing_it() {
    let target = 100.0f32;
    let still = BodyBox { x: num(target), y: num(0.0), w: num(0.0), h: num(0.0) };
    let mut focus = (num(0.0), num(0.0));
    let mut previous = 0.0;
    for step in 0..200 {
        focus = follow_player(focus, &still);
        let x = value(focus.0);
        assert!(x >= previous, "the ease reversed at {x}");
        assert!(x <= target, "the ease overshot to {x}");
        assert_eq!(x, previous + (target - previous) * 0.12);
        assert!(step >= 100 || x > previous, "stalled at {x}");
        previous = x;
    }
    assert!((previous - target).abs() < 0.01, "{previous} never arrived");
}

#[test]
fn colours_are_sampled_and_fall_back() {
    assert_eq!(ground_color(CellLook::Empty), default_dust());
    assert_eq!(ground_color(CellLook::Solid(STONE)), STONE);
    assert_eq!(ground_color(CellLook::Liquid(WATER)), WATER);
    assert_eq!(liquid_color(CellLook::Empty), default_splash());
    assert_eq!(liquid_color(CellLook::Solid(STONE)), default_splash(), "never tinted with stone");
    assert_eq!(liquid_color(CellLook::Liquid(WATER)), WATER);
    assert_eq!(default_dust(), Rgb { r: 170, g: 165, b: 155 });
    assert_eq!(default_splash(), Rgb { r: 120, g: 170, b: 230 });
}

#[test]
fn the_air_jump_holds_the_numbers_it_is_documented_with() {
    let p = air_jump();
    let v = |n: Number| f32::from_bits(n.bits);
    assert_eq!(p.count, 8);
    assert_eq!(v(p.opts.speed), 130.0);
    assert_eq!(v(p.opts.spread), core::f32::consts::PI * 0.6);
    assert_eq!((v(p.opts.life), v(p.opts.gravity)), (0.3, 120.0));
    assert_eq!((v(p.opts.size), v(p.opts.drag)), (2.0, 4.0));
    assert_eq!(v(p.opts.angle), core::f32::consts::FRAC_PI_2);
    assert!(p.opts.glow && !p.opts.collide && !p.opts.fade_in);
}

// -- The drawn figure ---------------------------------------------------------

const ZERO: (f32, f32) = (0.0, 0.0);

fn image(x: f32, y: f32, lean: f32, alpha: f32) -> Silhouette {
    Silhouette { x: num(x), y: num(y), top_dx: num(lean), bottom_dx: num(0.0), alpha: num(alpha) }
}

fn buffer() -> QuadBuf<Tint> {
    QuadBuf::new()
}

fn origin(buf: &QuadBuf<Tint>) -> (f32, f32) {
    (value(buf.origin().x), value(buf.origin().y))
}

fn written(buf: &mut QuadBuf<Tint>) -> Vec<QuadVertex<Tint>> {
    let none = Point { x: num(0.0), y: num(0.0) };
    let clear = Tint { r: num(0.0), g: num(0.0), b: num(0.0), a: num(0.0) };
    buf.write(QuadVertex { at: none, uv: none, tint: clear }).vertices
}

fn vertices(buf: &mut QuadBuf<Tint>) -> Vec<(f32, f32)> {
    written(buf).iter().map(|v| (value(v.at.x), value(v.at.y))).collect()
}

fn push(buf: &mut QuadBuf<Tint>, ghosts: &[Silhouette], figure: &Silhouette) {
    push_figure(buf, &ghosts.to_vec(), figure, num(10.0), num(15.0), TileUv::whole());
}

#[test]
fn the_figure_lands_on_the_pixel_grid() {
    for raw in [0.0_f32, 0.4, 0.5, 12.7, -3.2, -0.5] {
        let quad = quad_of(&image(raw, raw, 0.0, 1.0), num(10.0), num(15.0));
        let (x, y) = (value(quad.x), value(quad.y));
        assert_eq!(x, raw.round(), "the left edge is on a half pixel");
        assert_eq!(y, raw.round(), "the top edge is on a half pixel");
    }
}

#[test]
fn the_quads_vertices_carry_the_shear_the_figure_published() {
    let figure = image(100.4, 200.7, -1.75, 1.0);
    let quad = quad_of(&figure, num(10.0), num(15.0));
    assert_eq!(quad.top_dx, figure.top_dx);
    assert_eq!(quad.bottom_dx, figure.bottom_dx);
    assert!(value(quad.top_dx).abs() > 0.0, "the top edge did not move");
    let corners = quad.corners();
    assert_eq!(value(corners[0].x), value(quad.x) + value(quad.top_dx));
    assert_eq!(value(corners[3].x), value(quad.x) + value(quad.bottom_dx));
}

#[test]
fn the_lean_never_moves_the_feet_off_the_pixel_grid() {
    for lean in [-2.5_f32, -1.25, 0.0, 1.25, 2.5] {
        let quad = quad_of(&image(100.4, 200.7, lean, 1.0), num(10.0), num(15.0));
        assert_eq!(value(quad.bottom_dx), 0.0, "the feet slid at lean {lean}");
        let corners = quad.corners().map(|c| value(c.x));
        assert_eq!(corners[3], corners[3].round(), "left foot off the grid");
        assert_eq!(corners[2], corners[2].round(), "right foot off it");
    }
}

#[test]
fn a_zero_lean_is_the_unsheared_quad_exactly() {
    let quad = quad_of(&image(100.4, 200.7, 0.0, 1.0), num(10.0), num(15.0));
    assert_eq!(quad, ShearedRect::flat(num(100.0), num(201.0), num(10.0), num(15.0)));
}

#[test]
fn a_dash_draws_its_ghosts_behind_the_figure() {
    let ghosts = [image(88.0, 200.7, 2.0, 0.15), image(94.0, 200.7, 2.0, 0.3)];
    let figure = image(100.4, 200.7, 2.0, 0.5);
    let mut buf = buffer();
    push(&mut buf, &ghosts, &figure);
    assert_eq!(origin(&buf), (100.0, 201.0));
    assert_eq!(buf.quads(), ghosts.len() + 1, "a ghost or the body is missing");

    let all = written(&mut buf);
    let alphas: Vec<f32> = all.chunks(4).map(|q| value(q[0].tint.a)).collect();
    assert_eq!(alphas, vec![0.15, 0.3, 1.0], "the figure is opaque over its own trail");
    let v: Vec<(f32, f32)> = all.iter().map(|v| (value(v.at.x), value(v.at.y))).collect();
    assert_eq!(v[v.len() - 4], (2.0, 0.0), "the figure is the last quad");
    let lefts: Vec<f32> = v.chunks(4).map(|q| q[3].0).collect();
    assert!(lefts.windows(2).all(|w| w[0] < w[1]), "not furthest first: {lefts:?}");
}

#[test]
fn a_still_body_is_one_quad() {
    let mut buf = buffer();
    push(&mut buf, &[], &image(100.4, 200.7, 0.0, 1.0));
    assert_eq!(buf.quads(), 1);
}

#[test]
fn the_fallback_draws_the_collision_box_and_nothing_else() {
    let body = BodyBox { x: num(100.4), y: num(200.7), w: num(10.0), h: num(15.0) };
    let tint = Tint { r: num(0.9), g: num(0.1), b: num(0.1), a: num(1.0) };
    let mut buf = buffer();
    push(&mut buf, &[], &image(9.0, 9.0, 9.0, 1.0));
    push_box(&mut buf, &body, num(3.0), tint);
    assert_eq!(origin(&buf), (100.0, 204.0), "the step-up was dropped");
    assert_eq!(buf.quads(), 1);
    let v = vertices(&mut buf);
    assert_eq!(v[0], ZERO, "the box is not at its own origin");
    assert_eq!(v[1], (10.0, 0.0), "not the box's width");
    assert_eq!(v[3], (0.0, -15.0), "not the box's height");
    assert_eq!(v[0].0, v[3].0, "the placeholder was sheared");
}

#[test]
fn the_mesh_is_never_empty() {
    let mut buf = buffer();
    for lean in [0.0, 2.5] {
        push(&mut buf, &[], &image(100.4, 200.7, lean, 1.0));
        assert!(vertices(&mut buf).len() >= 3);
    }
    let body = BodyBox { x: num(0.0), y: num(0.0), w: num(10.0), h: num(15.0) };
    let tint = Tint { r: num(0.9), g: num(0.1), b: num(0.1), a: num(1.0) };
    push_box(&mut buf, &body, num(0.0), tint);
    assert!(vertices(&mut buf).len() >= 3);
    buf.begin(Point { x: num(0.0), y: num(0.0) });
    assert_eq!(vertices(&mut buf).len(), 3);
}

fn sheet() -> BakedSprite {
    let seq = |rows: &[&str]| SeqSpec {
        frames: rows.iter().map(|r| vec![r.to_string()]).collect(),
        mode: PlayMode::Loop,
        fps: num(8.0),
        blink_every: num(0.0),
        blink_for: num(0.0),
    };
    let art = SpriteArt {
        cells_w: 1,
        cells_h: 1,
        grain: 1,
        pal: vec![".".to_string(), "#102030".to_string(), "#ff8000".to_string()],
        variants: 1,
        poses: vec![Pose::Idle, Pose::Run],
        seqs: vec![seq(&["1"]), seq(&["2", "."])],
        fallback: Vec::new(),
    };
    BakedSprite::new(&art, "player").unwrap()
}

#[test]
fn a_pose_the_sheet_lacks_shows_the_first_sequence() {
    let b = sheet();
    assert_eq!(figure_state(&b, Pose::Run), b.state_id(Pose::Run).unwrap());
    assert_eq!(figure_state(&b, Pose::Swim), b.first_state());
}

#[test]
fn the_figure_samples_the_tile_of_its_frame_and_mirrors_it() {
    let b = sheet();
    let run = figure_state(&b, Pose::Run);
    let clock = SpriteClock { state_t: num(0.15), ..SpriteClock::default() };
    assert_eq!(b.bake_count, 3);
    let (left, right) = (num(2.0 / 3.0), num(1.0));
    assert_eq!(tile_uv(&b, run, &clock, num(1.0)), TileUv { u0: left, u1: right });
    assert_eq!(tile_uv(&b, run, &clock, num(-1.0)), TileUv { u0: right, u1: left });
}
