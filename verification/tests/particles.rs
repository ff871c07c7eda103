use yugen_render::number::Number;
use yugen_render::mobs::pool::MOB_GLOW_Z;
use yugen_render::particles::draw::{
    place_particle_glow, shows_sprite, sprite_centre, PARTICLE_GLOW_Z, PARTICLE_Z,
};
use yugen_render::particles::motion::{cell_at, Turn};
use yugen_render::particles::presets::{
    burst, dust, ember, plain, puff, puffed, scrape, smear, splash, trail, EmitOpts, MobEventKind,
};
use yugen_render::particles::rng::JuiceRng;
use yugen_render::particles::system::{
    bounces, js_budget, Birth, ParticleSystem, Pass, Solidity, MAX_PARTICLES,
};
use yugen_render::shear::Point;
use yugen_render::sky::mesh::{Vertex, VertexBuf};
use yugen_render::sprite::bake::Rgb;

fn num(x: f32) -> Number {
    Number { bits: x.to_bits() }
}

fn value(n: Number) -> f32 {
    f32::from_bits(n.bits)
}

fn color(r: u8, g: u8, b: u8) -> Rgb {
    Rgb { r, g, b }
}

fn lasting(life: f32) -> EmitOpts {
    EmitOpts { life: num(life), ..plain() }
}

/// The step the pool is driven at.
const DT: f32 = 1.0 / 120.0;

const CELL: f32 = 5.0;

const OPEN: Solidity = Solidity { here: false, across: false, across_down: false, down: false };

/// A world: which cells are solid.
type World<'a> = Option<&'a dyn Fn(i32, i32) -> bool>;

fn turn_of(angle: Number) -> Turn {
    let a = value(angle);
    Turn { cos: num(a.cos()), sin: num(a.sin()) }
}

/// Throws what an emission put up.
fn launch(p: &mut ParticleSystem, births: &Vec<Birth>) {
    let turns: Vec<Turn> = births.iter().map(|b| turn_of(b.angle)).collect();
    p.launch(births, &turns);
}

fn emit(p: &mut ParticleSystem, x: f32, y: f32, count: usize, opts: &EmitOpts) -> Vec<Birth> {
    let births = p.emit(num(x), num(y), count, opts);
    launch(p, &births);
    births
}

/// One step against a world.
fn update(p: &mut ParticleSystem, dt: f32, world: World) {
    let drifts: Vec<Turn> = (0..MAX_PARTICLES)
        .map(|i| match p.drift(i, num(dt)) {
            Some((across, down)) => {
                Turn { cos: num(value(across).cos()), sin: num(value(down).sin()) }
            }
            None => Turn { cos: num(f32::NAN), sin: num(f32::NAN) },
        })
        .collect();
    let solid: Vec<Solidity> = (0..MAX_PARTICLES)
        .map(|i| match (world, p.lead(i, num(dt), drifts[i])) {
            (Some(is_solid), Some(((x, y), (nx, ny)))) => {
                let at = |x: Number, y: Number| is_solid(cell_at(x), cell_at(y));
                Solidity {
                    here: at(x, y),
                    across: at(nx, y),
                    across_down: at(nx, ny),
                    down: at(x, ny),
                }
            }
            _ => OPEN,
        })
        .collect();
    p.update(num(dt), &drifts, &solid);
}

/// A window of 64 by 64 cells with a floor from a row down. Cells that are not loaded are solid.
fn grid_with_floor(floor_row: i32) -> impl Fn(i32, i32) -> bool {
    move |x, y| !(0..64).contains(&x) || !(0..64).contains(&y) || y >= floor_row
}

/// Steps needed to outlive a life at its longest, plus one.
fn steps_to_outlive(life: f32) -> u32 {
    (life * 1.25 / DT).ceil() as u32 + 1
}

fn puff_into(p: &mut ParticleSystem, strength: f32) -> Vec<Birth> {
    let births = p.puff(num(0.0), num(0.0), color(1, 2, 3), num(strength));
    launch(p, &births);
    births
}

fn velocity(p: &ParticleSystem, slot: usize) -> (f32, f32) {
    let m = p.motion(slot);
    (value(m.vx), value(m.vy))
}

fn zero() -> Number {
    num(0.0)
}

#[test]
fn a_zero_seed_still_produces_a_stream() {
    let mut z = JuiceRng::seeded(0);
    assert_ne!(z.next_u32(), 0);
    let mut r = JuiceRng::new();
    for _ in 0..64 {
        let v = value(r.rand());
        assert!((0.0..1.0).contains(&v), "rand out of range: {v}");
    }
}

#[test]
fn the_stream_is_the_three_shifts() {
    let mut r = JuiceRng::seeded(1);
    let mut x = 1u32;
    for _ in 0..100 {
        x ^= x << 13;
        x ^= x >> 17;
        x ^= x << 5;
        assert_eq!(r.next_u32(), x);
        assert_ne!(x, 0);
    }
    assert_eq!(JuiceRng::default().next_u32(), JuiceRng::new().next_u32());
}

#[test]
fn a_fresh_pool_is_empty() {
    let p = ParticleSystem::new();
    assert_eq!(p.live_count(), 0);
    assert_eq!(p.glow_count(), 0);
    assert!(p.slot(0).is_none());
    assert!(p.slot(MAX_PARTICLES - 1).is_none());
    assert_eq!(value(p.budget()), 1.0);
}

#[test]
fn an_emit_fills_as_many_slots_as_it_was_asked_for() {
    let mut p = ParticleSystem::new();
    let born = emit(&mut p, 10.0, 20.0, 7, &lasting(5.0));
    assert_eq!(p.live_count(), 7);
    assert_eq!(
        (0..MAX_PARTICLES).filter(|&i| p.slot(i).is_some()).count(),
        7,
        "the live count and the live slots disagree"
    );
    let first = p.slot(0).unwrap();
    assert_eq!((value(first.x), value(first.y)), (10.0, 20.0));
    let slots: Vec<usize> = born.iter().map(|b| b.slot).collect();
    assert_eq!(slots, vec![0, 1, 2, 3, 4, 5, 6]);
}

#[test]
fn a_full_pool_drops_the_overflow_rather_than_growing() {
    let mut p = ParticleSystem::new();
    let opts = lasting(10.0);
    emit(&mut p, 0.0, 0.0, MAX_PARTICLES, &opts);
    assert_eq!(p.live_count(), MAX_PARTICLES);

    let first = p.slot(0).expect("slot 0 died");
    let over = EmitOpts { color: color(9, 9, 9), ..opts };
    assert!(emit(&mut p, 999.0, 999.0, 64, &over).is_empty());
    assert_eq!(p.live_count(), MAX_PARTICLES, "the pool grew");
    assert_eq!(p.slot(0), Some(first), "an overflow evicted a live slot");
}

#[test]
fn a_particle_dies_when_its_life_runs_out_and_gives_its_slot_back() {
    let mut p = ParticleSystem::new();
    emit(&mut p, 0.0, 0.0, 1, &lasting(0.1));
    assert_eq!(p.live_count(), 1);
    update(&mut p, DT, None);
    assert_eq!(p.live_count(), 1, "died early");
    for _ in 0..steps_to_outlive(0.1) {
        update(&mut p, DT, None);
    }
    assert_eq!(p.live_count(), 0, "outlived its jittered life");
    assert!(p.slot(0).is_none());
    emit(&mut p, 0.0, 0.0, 1, &lasting(5.0));
    assert_eq!(p.live_count(), 1);
}

#[test]
fn a_particle_runs_out_when_the_step_takes_all_of_its_life() {
    let inf = f32::INFINITY;
    let tiny = f32::from_bits(1);
    for (life, dt) in [
        (0.1, 0.1),
        (0.1, 0.05),
        (0.05, 0.1),
        (0.0, 0.0),
        (tiny, 0.0),
        (tiny, tiny),
        (2.0 * tiny, tiny),
        (inf, 1.0),
        (1.0, inf),
        (inf, inf),
        (f32::NAN, 1.0),
        (1.0, f32::NAN),
        (-1.0, 0.5),
    ] {
        let mut p = ParticleSystem::new();
        emit(&mut p, 0.0, 0.0, 1, &lasting(life));
        let left = value(p_life(life));
        update(&mut p, dt, None);
        let gone = left - dt <= 0.0;
        assert_eq!(p.live_count() == 0, gone, "{life} less {dt}");
    }
}

#[test]
fn the_cursor_reuses_freed_slots_without_scanning_from_zero() {
    let mut p = ParticleSystem::new();
    emit(&mut p, 0.0, 0.0, 16, &lasting(0.05));
    emit(&mut p, 0.0, 0.0, MAX_PARTICLES - 16, &lasting(100.0));
    assert_eq!(p.live_count(), MAX_PARTICLES);
    for _ in 0..steps_to_outlive(0.05) {
        update(&mut p, DT, None);
    }
    let freed = MAX_PARTICLES - p.live_count();
    assert_eq!(freed, 16, "the short-lived ones did not all die");
    emit(&mut p, 0.0, 0.0, freed + 8, &lasting(100.0));
    assert_eq!(p.live_count(), MAX_PARTICLES);
}

#[test]
fn the_cursor_goes_on_from_where_it_was() {
    let mut p = ParticleSystem::new();
    emit(&mut p, 0.0, 0.0, 2, &lasting(0.05));
    emit(&mut p, 0.0, 0.0, 2, &lasting(100.0));
    for _ in 0..steps_to_outlive(0.05) {
        update(&mut p, DT, None);
    }
    assert_eq!(p.live_count(), 2);
    let born = emit(&mut p, 0.0, 0.0, 1, &lasting(1.0));
    assert_eq!(born[0].slot, 4, "a freed slot behind the cursor waits its turn");
}

#[test]
fn every_live_particle_is_drawn_by_exactly_one_pass() {
    let mut p = ParticleSystem::new();
    emit(&mut p, 0.0, 0.0, 4, &EmitOpts { glow: true, ..lasting(100.0) });
    emit(&mut p, 0.0, 0.0, 6, &lasting(100.0));
    let passes: Vec<Option<Pass>> = (0..MAX_PARTICLES).map(|i| p.pass_of(i)).collect();
    let glow_pass = passes.iter().filter(|x| **x == Some(Pass::Glow)).count();
    let sprite_pass = passes.iter().filter(|x| **x == Some(Pass::Sprite)).count();
    assert_eq!(glow_pass, 4, "the glow pass takes the luminous ones");
    assert_eq!(sprite_pass, 6, "the sprite pool takes the rest");
    assert_eq!(glow_pass + sprite_pass, p.live_count());
    assert_eq!(glow_pass, p.glow_count(), "glow_count disagrees with the walk");
}

#[test]
fn the_glow_count_tracks_only_the_luminous_particles() {
    let mut p = ParticleSystem::new();
    emit(&mut p, 0.0, 0.0, 3, &EmitOpts { glow: true, ..lasting(0.1) });
    emit(&mut p, 0.0, 0.0, 5, &lasting(100.0));
    assert_eq!(p.live_count(), 8);
    assert_eq!(p.glow_count(), 3);
    assert!(p.slot(0).unwrap().glow);
    assert!(!p.slot(3).unwrap().glow);
    for _ in 0..steps_to_outlive(0.1) {
        update(&mut p, DT, None);
    }
    assert_eq!(p.glow_count(), 0);
    assert_eq!(p.live_count(), 5);
}

#[test]
fn every_preset_emits_its_own_count_of_drawable_particles() {
    let c = color(1, 2, 3);
    let (o, one) = (zero(), num(1.0));
    type Case = (&'static str, Box<dyn Fn(&mut ParticleSystem) -> Vec<Birth>>, usize);
    let cases: Vec<Case> = vec![
        ("burst", Box::new(move |p| p.burst(o, o, c)), burst().count),
        ("dust", Box::new(move |p| p.dust(o, o)), dust().count),
        ("trail", Box::new(move |p| p.trail(o, o, c)), trail().count),
        ("splash", Box::new(move |p| p.splash(o, o, c)), splash().count),
        ("scrape", Box::new(move |p| p.scrape(o, o, one, c)), scrape().count),
        ("smear", Box::new(move |p| p.smear(o, o, one, c)), smear().count),
        ("ember", Box::new(move |p| p.ember(o, o)), ember().count),
        ("puff", Box::new(move |p| p.puff(o, o, c, o)), puff().count),
    ];
    for (name, emit, count) in cases {
        let mut p = ParticleSystem::new();
        emit(&mut p);
        assert_eq!(p.live_count(), count, "{name} emitted the wrong count");
        let born = p.slot(0).unwrap_or_else(|| panic!("{name} was born dead"));
        assert!(value(born.size) > 0.0, "{name} emitted a zero-sized square");
        assert!(value(born.alpha) > 0.0, "{name} emitted an invisible particle");
    }
}

#[test]
fn a_tinted_preset_takes_the_callers_colour_and_keeps_everything_else() {
    let mut p = ParticleSystem::new();
    p.burst(zero(), zero(), color(12, 34, 56));
    assert_eq!(p.slot(0).unwrap().rgb, color(12, 34, 56));
    assert_eq!(p.slot(0).unwrap().size, burst().opts.size);
    let tinted = burst().tinted(color(12, 34, 56));
    assert_eq!(tinted.opts.size, burst().opts.size);
    assert_eq!(tinted.tinted(burst().opts.color), burst());
    let mut d = ParticleSystem::new();
    d.dust(zero(), zero());
    assert_eq!(d.slot(0).unwrap().rgb, dust().opts.color);
}

#[test]
fn a_puffs_strength_scales_the_whole_burst_together() {
    let mut soft = ParticleSystem::new();
    puff_into(&mut soft, 0.15);
    let mut hard = ParticleSystem::new();
    puff_into(&mut hard, 1.0);
    assert!(
        hard.live_count() > soft.live_count(),
        "a hard landing was no bigger than a footstep"
    );
    assert!(value(hard.slot(0).unwrap().size) > value(soft.slot(0).unwrap().size));

    use_sizes(0.15, 2.0);
    use_sizes(0.5, 2.0);
    use_sizes(0.51, 3.0);
    use_sizes(1.0, 3.0);

    let mut zero = ParticleSystem::new();
    puff_into(&mut zero, 0.0);
    assert!(zero.live_count() >= puff().count);
    let mut over = ParticleSystem::new();
    puff_into(&mut over, 9.0);
    assert_eq!(over.live_count(), hard.live_count());
}

fn use_sizes(strength: f32, want: f32) {
    let p = puffed(color(1, 2, 3), num(strength));
    assert_eq!(value(p.opts.size), want, "strength {strength}");
    assert_eq!(p.opts.color, color(1, 2, 3));
}

#[test]
fn a_scrape_and_a_smear_leave_on_the_side_they_were_given() {
    let (o, c) = (zero(), color(1, 2, 3));
    let mut right = ParticleSystem::new();
    let r = right.scrape(o, o, num(1.0), c);
    launch(&mut right, &r);
    let mut left = ParticleSystem::new();
    let l = left.scrape(o, o, num(-1.0), c);
    launch(&mut left, &l);
    let (vr, vl) = (velocity(&right, 0), velocity(&left, 0));
    assert!(vr.0 < 0.0, "grit went into the wall");
    assert!(vl.0 > 0.0, "grit went into the wall");
    assert!(vr.1 < 0.0 && vl.1 < 0.0);

    let mut dash = ParticleSystem::new();
    let d = dash.smear(o, o, num(1.0), c);
    launch(&mut dash, &d);
    assert!(velocity(&dash, 0).0 < 0.0, "the smear followed the dash instead of trailing it");
    assert_eq!(dash.glow_count(), smear().count, "the smear stopped glowing");
}

#[test]
fn a_creature_dying_puts_up_both_a_splash_and_a_puff_of_its_own_blood() {
    let blood = color(90, 200, 80);
    let at = |p: &mut ParticleSystem, kind: MobEventKind| {
        p.mob_event(num(40.0), num(50.0), kind, blood)
    };

    let mut died = ParticleSystem::new();
    let thrown = at(&mut died, MobEventKind::MobDie);
    assert!(died.live_count() > splash().count, "a death was only a splash");
    assert_eq!(thrown.splash.len() + thrown.puff.len(), died.live_count());
    assert_eq!(died.slot(0).unwrap().rgb, blood, "not the creature's own blood");

    let mut hurt = ParticleSystem::new();
    at(&mut hurt, MobEventKind::MobHurt);
    assert!(hurt.live_count() < died.live_count());
    assert!(hurt.live_count() > 0);

    let mut chill = ParticleSystem::new();
    at(&mut chill, MobEventKind::PlayerChill);
    assert_eq!(chill.live_count(), 0);
}

#[test]
fn clear_recycles_everything_and_leaves_the_pool_usable() {
    let mut p = ParticleSystem::new();
    emit(&mut p, 0.0, 0.0, 40, &EmitOpts { glow: true, ..lasting(10.0) });
    assert_eq!(p.glow_count(), 40);
    p.clear();
    assert_eq!(p.live_count(), 0);
    assert_eq!(p.glow_count(), 0);
    assert!(p.slot(0).is_none());
    p.burst(zero(), zero(), color(4, 5, 6));
    assert_eq!(p.live_count(), burst().count);
}

#[test]
fn the_jitter_stream_is_deterministic_and_is_not_the_creatures() {
    let mut a = ParticleSystem::new();
    let mut b = ParticleSystem::new();
    let first = a.burst(num(10.0), num(10.0), color(1, 2, 3));
    let second = b.burst(num(10.0), num(10.0), color(1, 2, 3));
    launch(&mut a, &first);
    launch(&mut b, &second);
    assert_eq!(first, second);
    for i in 0..burst().count {
        assert_eq!(a.motion(i), b.motion(i), "slot {i} diverged");
    }
    let mut c = ParticleSystem::seeded(12345);
    let other = c.burst(num(10.0), num(10.0), color(1, 2, 3));
    launch(&mut c, &other);
    assert_ne!(velocity(&a, 0).0, velocity(&c, 0).0);
}

/// A long-lived, otherwise inert particle to hang one property off.
fn probe(opts: EmitOpts) -> EmitOpts {
    EmitOpts { life: num(5.0), ..opts }
}

/// What a life is jittered to by the pool's first birth.
fn p_life(life: f32) -> Number {
    let mut p = ParticleSystem::new();
    p.emit(zero(), zero(), 1, &lasting(life))[0].life
}

#[test]
fn gravity_pulls_debris_down_and_floats_an_ember_up() {
    let flat = EmitOpts { angle: num(0.0), ..plain() };
    let mut heavy = ParticleSystem::new();
    emit(&mut heavy, 0.0, 0.0, 1, &probe(EmitOpts { gravity: num(1000.0), ..flat }));
    let mut light = ParticleSystem::new();
    emit(&mut light, 0.0, 0.0, 1, &probe(EmitOpts { gravity: num(-1000.0), ..flat }));
    for _ in 0..12 {
        update(&mut heavy, DT, None);
        update(&mut light, DT, None);
    }
    assert!(value(heavy.slot(0).unwrap().y) > 0.0, "gravity did not pull down");
    assert!(value(light.slot(0).unwrap().y) < 0.0, "buoyancy did not lift");
}

#[test]
fn drag_takes_speed_out_and_never_reverses_the_particle() {
    let mut p = ParticleSystem::new();
    let damped =
        EmitOpts { speed: num(400.0), angle: num(0.0), drag: num(500.0), ..probe(plain()) };
    emit(&mut p, 0.0, 0.0, 1, &damped);
    let x0 = value(p.slot(0).unwrap().x);
    update(&mut p, DT, None);
    let x1 = value(p.slot(0).unwrap().x);
    update(&mut p, DT, None);
    let x2 = value(p.slot(0).unwrap().x);
    assert!(x1 >= x0, "the first step went backwards");
    assert_eq!(x2, x1, "a fully damped particle kept moving");
}

#[test]
fn alpha_fades_linearly_over_a_particles_life() {
    let mut p = ParticleSystem::new();
    let born = emit(&mut p, 0.0, 0.0, 1, &lasting(1.0));
    let alpha = value(p.slot(0).unwrap().alpha);
    assert!((alpha - 1.0).abs() < 1e-6, "not opaque at birth: {alpha}");

    let max_life = value(born[0].life);
    for _ in 0..((max_life * 0.5 / DT) as u32) {
        update(&mut p, DT, None);
    }
    let half = value(p.slot(0).unwrap().alpha);
    assert!((half - 0.5).abs() < 0.02, "half-life alpha was {half}");
}

#[test]
fn a_fade_in_particle_eases_in_over_the_first_fifth_and_out_over_the_rest() {
    let mut p = ParticleSystem::new();
    let mote = EmitOpts { fade_in: true, ..lasting(1.0) };
    let born = emit(&mut p, 0.0, 0.0, 1, &mote);
    assert_eq!(value(p.slot(0).unwrap().alpha), 0.0);

    let max_life = value(born[0].life);
    let mut peak: f32 = 0.0;
    let mut peak_at = 0.0;
    for n in 0..((max_life / DT) as u32) {
        update(&mut p, DT, None);
        if let Some(s) = p.slot(0) {
            if value(s.alpha) > peak {
                peak = value(s.alpha);
                peak_at = (n + 1) as f32 * DT / max_life;
            }
        }
    }
    assert!(peak > 0.75, "never became visible enough: {peak}");
    assert!((peak_at - 0.2).abs() < 0.05, "peaked at {peak_at} of its life, not a fifth in");
}

#[test]
fn a_colliding_particle_bounces_off_a_solid_cell_instead_of_entering_it() {
    let floor = 10;
    let g = grid_with_floor(floor);
    let floor_y = floor as f32 * CELL;
    let mut p = ParticleSystem::new();
    let thrown = EmitOpts {
        speed: num(300.0),
        angle: num(core::f32::consts::FRAC_PI_2),
        collide: true,
        ..lasting(10.0)
    };
    emit(&mut p, 20.0, floor_y - 10.0, 1, &thrown);
    let launch_vy = velocity(&p, 0).1;
    assert!(launch_vy > 0.0, "not aimed at the floor");

    for _ in 0..60 {
        update(&mut p, DT, Some(&g));
        if velocity(&p, 0).1 < 0.0 {
            break;
        }
    }
    let vy = velocity(&p, 0).1;
    assert!(vy < 0.0, "never bounced: vy {vy}");
    let y = value(p.slot(0).unwrap().y);
    assert!(y < floor_y, "ended up inside the floor at {y}");
    assert!(vy.abs() < launch_vy, "bounced back at least as fast as it arrived");
}

#[test]
fn a_ballistic_particle_passes_straight_through_rock() {
    let g = grid_with_floor(10);
    let floor_y = 10.0 * CELL;
    let mut p = ParticleSystem::new();
    let thrown = EmitOpts {
        speed: num(300.0),
        angle: num(core::f32::consts::FRAC_PI_2),
        ..lasting(10.0)
    };
    emit(&mut p, 20.0, floor_y - 10.0, 1, &thrown);
    for _ in 0..60 {
        update(&mut p, DT, Some(&g));
    }
    assert!(
        value(p.slot(0).unwrap().y) > floor_y,
        "a ballistic particle was stopped by the world"
    );
}

#[test]
fn a_particle_emitted_inside_rock_is_not_trapped_by_it() {
    let g = grid_with_floor(10);
    let floor_y = 10.0 * CELL;
    let mut p = ParticleSystem::new();
    let buried = EmitOpts {
        speed: num(300.0),
        angle: num(-core::f32::consts::FRAC_PI_2),
        collide: true,
        ..lasting(10.0)
    };
    emit(&mut p, 20.0, floor_y + 6.0, 1, &buried);
    for _ in 0..60 {
        update(&mut p, DT, Some(&g));
    }
    let y = value(p.slot(0).unwrap().y);
    assert!(y < floor_y, "stayed buried at {y}");
}

#[test]
fn an_unloaded_cell_stops_a_colliding_particle_leaving_the_window() {
    let g = grid_with_floor(64);
    let mut p = ParticleSystem::new();
    let outbound = EmitOpts {
        speed: num(400.0),
        angle: num(core::f32::consts::PI),
        collide: true,
        ..lasting(10.0)
    };
    emit(&mut p, 160.0, 160.0, 1, &outbound);
    for _ in 0..600 {
        update(&mut p, DT, Some(&g));
    }
    assert!(value(p.slot(0).unwrap().x) > 0.0, "escaped the window");
}

#[test]
fn wander_costs_its_two_trig_calls_only_when_it_is_asked_for() {
    let mut still = ParticleSystem::new();
    emit(&mut still, 0.0, 0.0, 1, &probe(plain()));
    let phase0 = still.motion(0).phase;
    assert_eq!(still.drift(0, num(DT)), None);
    update(&mut still, DT, None);
    assert_eq!(still.motion(0).phase, phase0, "a ballistic particle drifted");

    let mut drifting = ParticleSystem::new();
    let mote = EmitOpts { wander: num(200.0), ..probe(plain()) };
    emit(&mut drifting, 0.0, 0.0, 1, &mote);
    let before = value(drifting.motion(0).phase);
    assert!(drifting.drift(0, num(DT)).is_some());
    update(&mut drifting, DT, None);
    assert!((value(drifting.motion(0).phase) - before - DT * 2.3).abs() < 1e-6);
    assert_ne!(velocity(&drifting, 0).0, 0.0, "wander did not push sideways");
}

#[test]
fn a_step_moves_a_particle_as_the_machine_does() {
    let mut p = ParticleSystem::seeded(99);
    let opts = EmitOpts {
        speed: num(220.0),
        gravity: num(1600.0),
        drag: num(1.5),
        wander: num(40.0),
        spread: num(6.0),
        ..lasting(3.0)
    };
    let born = emit(&mut p, 12.5, -7.25, 8, &opts);
    let mut want: Vec<(f32, f32, f32, f32, f32)> = born
        .iter()
        .map(|b| {
            let (a, s) = (value(b.angle), value(b.speed));
            (12.5, -7.25, a.cos() * s, a.sin() * s, value(b.phase))
        })
        .collect();
    for _ in 0..40 {
        update(&mut p, DT, None);
        for (i, m) in want.iter_mut().enumerate() {
            let (mut vx, mut vy) = (m.2, m.3 + 1600.0 * DT);
            m.4 += DT * 2.3;
            vx += m.4.cos() * 40.0 * DT;
            vy += (m.4 * 1.7).sin() * 40.0 * 0.6 * DT;
            let keep = 1.0 - 1.5 * DT;
            vx *= keep;
            vy *= keep;
            *m = (m.0 + vx * DT, m.1 + vy * DT, vx, vy, m.4);
            let got = p.motion(i);
            let got = (value(got.x), value(got.y), value(got.vx), value(got.vy), value(got.phase));
            assert_eq!(got, *m, "slot {i}");
        }
    }
}

#[test]
fn the_presets_hold_the_numbers_they_are_documented_with() {
    let b = burst().opts;
    assert_eq!((value(b.speed), value(b.life), value(b.gravity)), (220.0, 0.5, 1600.0));
    assert_eq!(value(b.spread), core::f32::consts::PI * 1.6);
    assert_eq!((value(b.size), value(b.drag)), (3.0, 1.5));
    assert_eq!(value(plain().angle), -core::f32::consts::FRAC_PI_2);
}

#[test]
fn the_budget_thins_a_burst_and_never_to_nothing_while_there_is_any() {
    assert_eq!(js_budget(10, num(1.0)), 10);
    assert_eq!(js_budget(10, num(0.5)), 5);
    assert_eq!(js_budget(10, num(0.0)), 0);
    assert_eq!(js_budget(10, num(-0.5)), 0);
    assert_eq!(js_budget(10, num(7.0)), 10);
    assert_eq!(js_budget(10, num(f32::NAN)), 1);
    assert_eq!(js_budget(5, num(0.5)), 3, "a half goes up");
    assert_eq!(js_budget(10, num(0.01)), 1, "a thin burst is still there");
    assert_eq!(js_budget(0, num(0.5)), 0, "nothing out of nothing");
    assert_eq!(js_budget(usize::MAX, num(1.0)), usize::MAX);
    let mut p = ParticleSystem::new();
    p.set_budget(num(0.5));
    emit(&mut p, 0.0, 0.0, 10, &lasting(1.0));
    assert_eq!(p.live_count(), 5);
}

#[test]
fn the_budget_scales_as_the_machine_multiplies() {
    let mut r = JuiceRng::seeded(7);
    for round in 0..20_000u32 {
        let count = (r.next_u32() as usize) << (round % 33) >> (round % 29);
        // Bits of every size up to one, the smallest included.
        let budget = f32::from_bits(r.next_u32() % 0x3f80_0001);
        let want = if count == 0 || budget <= 0.0 {
            0
        } else {
            ((count as f32 * budget).round() as usize).max(1)
        };
        assert_eq!(js_budget(count, num(budget)), want, "{count} times {budget:e}");
    }
}

#[test]
fn a_puff_has_twelve_times_its_strength_more_particles() {
    for (strength, extra) in [(0.0, 0), (0.05, 0), (0.16, 1), (0.3, 3), (0.5, 6), (1.0, 12), (9.0, 12)] {
        let p = puffed(color(1, 2, 3), num(strength));
        assert_eq!(p.count, puff().count + extra, "strength {strength}");
    }
    assert_eq!(puffed(color(1, 2, 3), num(f32::NAN)).count, puff().count);
    let mut r = JuiceRng::seeded(11);
    for _ in 0..2_000 {
        let s = f32::from_bits(r.next_u32() % 0x3f80_0001).clamp(0.05, 1.0);
        let p = puffed(color(1, 2, 3), num(s));
        assert_eq!(p.count, puff().count + (s * 12.0) as usize, "strength {s}");
    }
}

#[test]
fn a_particle_bounces_off_each_axis_on_its_own() {
    let open = Solidity { here: false, across: false, across_down: false, down: false };
    assert_eq!(bounces(true, open), (false, false));
    // A floor under it, a wall beside it, and a corner it clips.
    assert_eq!(
        bounces(true, Solidity { across_down: true, down: true, ..open }),
        (false, true)
    );
    assert_eq!(
        bounces(true, Solidity { across: true, across_down: true, ..open }),
        (true, false)
    );
    assert_eq!(bounces(true, Solidity { across_down: true, ..open }), (false, true));
    let inside = Solidity { here: true, across: true, across_down: true, down: true };
    assert_eq!(bounces(true, inside), (false, false), "one inside rock flies out");
    let rock = Solidity { here: false, across: true, across_down: true, down: true };
    assert_eq!(bounces(false, rock), (false, false), "a ballistic one passes through");
}

#[test]
fn the_glow_pass_sits_above_the_light_composite_and_alone() {
    let composite =
        [(70, "shadow"), (71, "colour"), (72, "bloom"), (75, "vignette"), (76, "wash")];
    for (z, what) in composite {
        assert!(PARTICLE_GLOW_Z > z, "not above light's {what} quad at {z}");
        assert_ne!(PARTICLE_GLOW_Z, z, "shares a depth with light's {what} quad");
        assert!(PARTICLE_Z < z);
    }
    assert!(PARTICLE_GLOW_Z < MOB_GLOW_Z);
}

#[test]
fn the_glow_mesh_holds_the_luminous_squares_in_slot_order() {
    let mut p = ParticleSystem::new();
    emit(&mut p, 10.4, 20.6, 2, &lasting(1.0));
    let size = num(3.0);
    emit(&mut p, 10.4, 20.6, 2, &EmitOpts { glow: true, size, ..lasting(1.0) });
    let colours: Vec<usize> = (0..MAX_PARTICLES).collect();
    let mut buf = VertexBuf::new();
    place_particle_glow(&mut buf, &p, &colours);
    let blank = Vertex { at: Point { x: num(0.0), y: num(0.0) }, color: 0 };
    let v = buf.write(blank).vertices;
    assert_eq!(v.iter().map(|v| v.color).collect::<Vec<usize>>(), vec![2, 2, 2, 2, 3, 3, 3, 3]);
    let corners: Vec<(f32, f32)> = v[..4].iter().map(|v| (value(v.at.x), value(v.at.y))).collect();
    let want = vec![(10.0, -21.0), (13.0, -21.0), (13.0, -24.0), (10.0, -24.0)];
    assert_eq!(corners, want, "the corner is on the pixel grid");
    let shown: Vec<bool> = (0..5).map(|i| shows_sprite(&p, i)).collect();
    assert_eq!(shown, vec![true, true, false, false, false]);
    let centre = sprite_centre(&p.slot(2).unwrap());
    assert_eq!((value(centre.x), value(centre.y)), (11.5, -22.5));
}

#[test]
fn a_draw_never_reaches_one_nor_the_end_of_its_range() {
    // The word after this state is the largest there is but a few.
    let top = || JuiceRng::seeded(0x5e6c_fce7);
    assert!(top().next_u32() >= 0xffff_ff80);
    assert_eq!(top().rand().bits, 0x3f7f_ffff);
    for (a, b) in [(0.6, 1.0), (0.75, 1.25), (-1.0, 1.0), (0.0, 1.0), (-2.0, 0.0), (16_777_215.0, 16_777_216.0)] {
        let v = value(top().rand_range(num(a), num(b)));
        assert!(a <= v && v < b, "{v} is not in {a}..{b}");
    }
    let mut r = JuiceRng::seeded(7);
    for _ in 0..10_000 {
        let v = value(r.rand_range(num(-3.0), num(5.5)));
        assert!((-3.0..5.5).contains(&v), "{v}");
    }
}

#[test]
fn an_ordinary_draw_is_the_nearest_fraction() {
    let mut r = JuiceRng::seeded(99);
    let mut words = JuiceRng::seeded(99);
    for _ in 0..1_000 {
        let w = words.next_u32();
        assert!(w < 0xffff_ff80);
        assert_eq!(value(r.rand()), w as f32 / 4_294_967_296.0);
    }
    assert_eq!(value(JuiceRng::seeded(1).rand_range(num(2.0), num(2.0))), 2.0);
}

#[test]
fn a_particle_born_with_no_life_is_never_up() {
    for life in [0.0, -0.0, -1.0, f32::NEG_INFINITY] {
        let mut p = ParticleSystem::new();
        let mut opts = lasting(life);
        opts.glow = true;
        let births = emit(&mut p, 1.0, 2.0, 3, &opts);
        assert_eq!(births.len(), 3, "the jitter is drawn all the same");
        assert_eq!((p.live_count(), p.glow_count()), (0, 0));
        assert!((0..MAX_PARTICLES).all(|i| p.slot(i).is_none() && p.pass_of(i).is_none()));
        emit(&mut p, 1.0, 2.0, MAX_PARTICLES + 5, &lasting(1.0));
        assert_eq!(p.live_count(), MAX_PARTICLES, "nothing leaked");
        let more = p.emit(num(0.0), num(0.0), 4, &lasting(0.0));
        assert!(more.is_empty(), "a full pool has no slot to take");
    }
    let mut p = ParticleSystem::new();
    emit(&mut p, 0.0, 0.0, 1, &lasting(f32::from_bits(1)));
    assert_eq!(p.live_count(), 1, "the least life is still some");
}

#[test]
fn what_shows_of_a_particle_is_no_more_than_all_of_it() {
    let mut p = ParticleSystem::new();
    emit(&mut p, 0.0, 0.0, 40, &lasting(0.3));
    let mut fading = lasting(0.4);
    fading.fade_in = true;
    emit(&mut p, 0.0, 0.0, 40, &fading);
    let mut counts = (p.live_count(), p.glow_count());
    for _ in 0..80 {
        for i in 0..MAX_PARTICLES {
            if let Some(s) = p.slot(i) {
                assert!((0.0..=1.0).contains(&value(s.alpha)), "{}", value(s.alpha));
            }
        }
        update(&mut p, DT, None);
        assert!(p.live_count() <= counts.0 && p.glow_count() <= counts.1);
        counts = (p.live_count(), p.glow_count());
    }
    assert_eq!(counts, (0, 0));
}

#[test]
fn more_asked_for_or_more_budget_puts_up_no_fewer() {
    let budgets = [-1.0, 0.0, 1.0e-30, 0.01, 0.1, 0.25, 0.5, 0.51, 0.9, 0.999, 1.0, 7.0];
    for counts in [0usize, 1, 2, 3, 10, 11, 100, 4096, usize::MAX - 1, usize::MAX].windows(2) {
        for b in budgets.windows(2) {
            let few = js_budget(counts[0], num(b[0]));
            assert!(few <= js_budget(counts[1], num(b[0])));
            assert!(few <= js_budget(counts[0], num(b[1])));
        }
    }
    assert_eq!(js_budget(10, num(0.25)), 3);
    assert_eq!(js_budget(10, num(0.01)), 1);
}

#[test]
fn a_cell_is_five_pixels_and_goes_down_at_its_edges() {
    for x in [0.0, 4.9, 5.0, -0.1, -5.0, -5.1, 1.0e9, 1.0e12, -1.0e12, f32::NAN, f32::INFINITY] {
        assert_eq!(cell_at(num(x)), (x / CELL).floor() as i32, "{x}");
    }
    assert_eq!(cell_at(num(-0.1)), -1);
    assert_eq!(cell_at(num(12.0)), 2);
}

#[test]
fn a_particle_that_is_gone_stays_where_it_was() {
    let mut p = ParticleSystem::new();
    emit(&mut p, 3.0, 4.0, 1, &EmitOpts { speed: num(50.0), ..lasting(0.01) });
    emit(&mut p, 7.0, 8.0, 1, &EmitOpts { speed: num(50.0), ..lasting(9.0) });
    let (gone, left) = (p.motion(0), p.motion(1));
    update(&mut p, 0.5, None);
    assert!(p.slot(0).is_none() && p.slot(1).is_some());
    assert_eq!(p.motion(0), gone);
    assert_ne!(p.motion(1), left);
    let left = p.motion(1);
    p.clear();
    assert!(p.slot(1).is_none());
    assert_eq!((p.motion(0), p.motion(1)), (gone, left));
}
