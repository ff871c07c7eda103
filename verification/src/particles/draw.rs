//! Which pass draws a particle: the sprites in the world layer, or the one additive mesh over the
//! light.

use vstd::prelude::*;

use crate::mobs::pool::MOB_GLOW_Z;
use crate::number::{Number, num};
use crate::particles::system::{
    MAX_PARTICLES, Particle, ParticleSystem, Pass, Pool, alive, count, glows, shown,
};
use crate::rounding::pixel;
use crate::shear::{Point, is_quads};
use crate::sky::mesh::{Vertex, VertexBuf};
use crate::whole::{
    is_halves, is_whole, law_half_of_a_whole_is_exact, law_nearest_is_the_pixel,
    law_sums_of_halves_are_exact, law_whole_sums_are_exact, lemma_negated, lemma_negated_halves,
    lemma_pixel_within, lemma_whole_is_halves,
};

verus! {

/// Where ordinary particles sit in depth, in hundredths: lit, over everything they are thrown by.
pub const PARTICLE_Z: u32 = 60;

/// Where luminous particles sit, in hundredths.
pub const PARTICLE_GLOW_Z: u32 = 79;

/// The depths of the light composite, in hundredths: shadow, colour, bloom, vignette and wash.
pub open spec fn light_depths() -> Seq<u32> {
    seq![70u32, 71, 72, 75, 76]
}

/// The glow pass is over the whole light composite and under the creatures', and shares its depth
/// with nothing; an ordinary particle is under all of it, and is lit.
pub proof fn law_glow_is_over_the_light(i: int)
    requires
        0 <= i < light_depths().len(),
    ensures
        PARTICLE_Z < light_depths()[i] < PARTICLE_GLOW_Z < MOB_GLOW_Z,
{
}

/// Whether a slot's own sprite is shown. One that glows is drawn by the glow pass instead.
pub fn shows_sprite(particles: &ParticleSystem, slot: usize) -> (shown: bool)
    requires
        particles.wf(),
        slot < MAX_PARTICLES,
    ensures
        shown == (alive(particles.pool().slots)[slot as int] && !glows(
            particles.pool().slots,
        )[slot as int]),
{
    match particles.pass_of(slot) {
        Some(Pass::Sprite) => true,
        _ => false,
    }
}

/// The corners of a particle's square, top-left first and then clockwise, with y running up. Its
/// top-left corner is on a whole pixel.
pub open spec fn square_of(p: Particle) -> Seq<Point> {
    let (left, top) = (p.x.nearest_whole(), p.y.nearest_whole());
    let (right, bottom) = (left.sum(p.size), top.sum(p.size));
    seq![
        Point { x: left, y: top.negated() },
        Point { x: right, y: top.negated() },
        Point { x: right, y: bottom.negated() },
        Point { x: left, y: bottom.negated() },
    ]
}

/// A particle's square in a colour.
pub open spec fn square_points<C>(p: Particle, color: C) -> Seq<Vertex<C>> {
    Seq::new(4, |i: int| Vertex { at: square_of(p)[i], color })
}

fn square<C: Copy>(p: &Particle, color: C) -> (corners: [Vertex<C>; 4])
    ensures
        corners@ == square_points(*p, color),
{
    let (left, top): (Number, Number) = (p.x.round(), p.y.round());
    let (right, bottom): (Number, Number) = (left.plus(p.size), top.plus(p.size));
    let (up, down): (Number, Number) = (top.minus_self(), bottom.minus_self());
    let corners: [Vertex<C>; 4] = [
        Vertex { at: Point { x: left, y: up }, color },
        Vertex { at: Point { x: right, y: up }, color },
        Vertex { at: Point { x: right, y: down }, color },
        Vertex { at: Point { x: left, y: down }, color },
    ];
    assert(corners@ =~= square_points(*p, color));
    corners
}

/// Push one luminous particle's square.
pub fn push_particle_glow<C: Copy>(buf: &mut VertexBuf<Vertex<C>>, p: &Particle, color: C)
    requires
        old(buf).wf(),
        is_quads(*old(buf)),
        old(buf).points().len() + 4 <= u32::MAX,
    ensures
        final(buf).wf(),
        is_quads(*final(buf)),
        final(buf).points() == old(buf).points() + square_points(*p, color),
{
    buf.quad(square(p, color));
    assert(buf.points().len() / 4 == old(buf).points().len() / 4 + 1);
}

/// Where a particle's sprite is centred, with y running up: half its side from the corner that is on
/// a whole pixel.
pub open spec fn centre_of(p: Particle) -> Point {
    let half = p.size.product(num(0x3f00_0000));
    Point { x: p.x.nearest_whole().sum(half), y: p.y.nearest_whole().sum(half).negated() }
}

/// Where a particle's sprite is centred. See [`centre_of`].
pub fn sprite_centre(p: &Particle) -> (at: Point)
    ensures
        at == centre_of(*p),
{
    let half: Number = p.size.times(num(0x3f00_0000));
    Point { x: p.x.round().plus(half), y: p.y.round().plus(half).minus_self() }
}

/// The squares of the first `n` slots that glow, in order.
pub open spec fn glow_points<C>(pool: Pool, colours: Seq<C>, n: nat) -> Seq<Vertex<C>>
    decreases n,
{
    if n == 0 {
        Seq::empty()
    } else {
        glow_points(pool, colours, (n - 1) as nat) + match shown(pool, n - 1) {
            Some(p) => if p.glow {
                square_points(p, colours[n - 1])
            } else {
                Seq::empty()
            },
            None => Seq::empty(),
        }
    }
}

proof fn lemma_glow_points<C>(pool: Pool, colours: Seq<C>, n: nat)
    ensures
        glow_points(pool, colours, n).len() <= 4 * n,
    decreases n,
{
    if n > 0 {
        lemma_glow_points(pool, colours, (n - 1) as nat);
    }
}

/// Rebuild the one mesh every luminous particle is drawn into, given the colour of each slot.
pub fn place_particle_glow<C: Copy>(
    buf: &mut VertexBuf<Vertex<C>>,
    particles: &ParticleSystem,
    colours: &Vec<C>,
)
    requires
        particles.wf(),
        colours@.len() == MAX_PARTICLES,
    ensures
        final(buf).wf(),
        is_quads(*final(buf)),
        final(buf).points() == glow_points(particles.pool(), colours@, MAX_PARTICLES as nat),
{
    buf.clear();
    let ghost pool = particles.pool();
    let mut slot: usize = 0;
    while slot < MAX_PARTICLES
        invariant
            slot <= MAX_PARTICLES,
            particles.wf(),
            colours@.len() == MAX_PARTICLES,
            pool == particles.pool(),
            buf.wf(),
            is_quads(*buf),
            buf.points() == glow_points(pool, colours@, slot as nat),
        decreases MAX_PARTICLES - slot,
    {
        proof {
            lemma_glow_points(pool, colours@, slot as nat);
            assert(buf.points() =~= buf.points() + Seq::<Vertex<C>>::empty());
        }
        if let Some(p) = particles.slot(slot) {
            if p.glow {
                push_particle_glow(buf, &p, colours[slot]);
            }
        }
        slot = slot + 1;
    }
}

/// A particle is drawn as a square: its top left corner is on the pixel that it is on, and of a size
/// in whole pixels it reaches that many to the right and that many down, with y running up. It is
/// centred halfway between its edges.
pub proof fn law_a_particle_is_a_square(p: Particle, size: int)
    requires
        p.x.magnitude() < 0x4a80_0000,
        p.y.magnitude() < 0x4a80_0000,
        is_whole(p.size, size),
        0 <= size < 0x10_0000,
    ensures
        ({
            let (x, y) = (pixel(p.x), pixel(p.y));
            let corners = square_of(p);
            &&& corners.len() == 4
            &&& is_whole(corners[0].x, x) && is_whole(corners[0].y, -y)
            &&& is_whole(corners[1].x, x + size) && is_whole(corners[1].y, -y)
            &&& is_whole(corners[2].x, x + size) && is_whole(corners[2].y, -(y + size))
            &&& is_whole(corners[3].x, x) && is_whole(corners[3].y, -(y + size))
            &&& is_halves(centre_of(p).x, 2 * x + size)
            &&& is_halves(centre_of(p).y, -(2 * y + size))
        }),
{
    let (left, top) = (p.x.nearest_whole(), p.y.nearest_whole());
    let (x, y) = (pixel(p.x), pixel(p.y));
    law_nearest_is_the_pixel(p.x);
    law_nearest_is_the_pixel(p.y);
    lemma_pixel_within(p.x);
    lemma_pixel_within(p.y);
    law_whole_sums_are_exact(left, p.size, x, size);
    law_whole_sums_are_exact(top, p.size, y, size);
    lemma_negated(top, y);
    lemma_negated(top.sum(p.size), y + size);
    let half = p.size.product(num(0x3f00_0000));
    law_half_of_a_whole_is_exact(p.size, size);
    lemma_whole_is_halves(left, x);
    lemma_whole_is_halves(top, y);
    law_sums_of_halves_are_exact(left, half, 2 * x, size);
    law_sums_of_halves_are_exact(top, half, 2 * y, size);
    lemma_negated_halves(top.sum(half), 2 * y + size);
}

/// Every particle that glows is drawn once, in its own slot's colour and in the order of the slots,
/// and no other is.
pub proof fn law_only_what_glows_is_drawn<C>(pool: Pool, colours: Seq<C>, n: nat, i: int)
    requires
        0 <= i < n,
    ensures
        glow_points(pool, colours, n).len() == 4 * count(glows(pool.slots.take(n as int))) || n
            > pool.slots.len(),
        n <= pool.slots.len() && glows(pool.slots)[i] ==> exists|at: int|
            0 <= at && at + 4 <= glow_points(pool, colours, n).len() && #[trigger] glow_points(
                pool,
                colours,
                n,
            ).subrange(at, at + 4) == square_points(shown(pool, i)->0, colours[i]),
    decreases n,
{
    if n <= pool.slots.len() {
        lemma_glow_count(pool, colours, n);
        let before = glow_points(pool, colours, (n - 1) as nat);
        let now = glow_points(pool, colours, n);
        if glows(pool.slots)[i] {
            if i == n - 1 {
                let at = before.len() as int;
                assert(now.subrange(at, at + 4) =~= square_points(shown(pool, i)->0, colours[i]));
            } else {
                law_only_what_glows_is_drawn(pool, colours, (n - 1) as nat, i);
                let at = choose|at: int|
                    0 <= at && at + 4 <= before.len() && #[trigger] before.subrange(at, at + 4)
                        == square_points(shown(pool, i)->0, colours[i]);
                assert(now.subrange(at, at + 4) =~= before.subrange(at, at + 4));
            }
        }
    }
}

proof fn lemma_glow_count<C>(pool: Pool, colours: Seq<C>, n: nat)
    requires
        n <= pool.slots.len(),
    ensures
        glow_points(pool, colours, n).len() == 4 * count(glows(pool.slots.take(n as int))),
    decreases n,
{
    let some = pool.slots.take(n as int);
    if n > 0 {
        lemma_glow_count(pool, colours, (n - 1) as nat);
        assert(some.drop_last() =~= pool.slots.take(n - 1));
        assert(glows(some).drop_last() =~= glows(pool.slots.take(n - 1)));
        assert(glows(some).last() == (pool.slots[n - 1].alive && pool.slots[n - 1].glow));
    }
}

} // verus!
