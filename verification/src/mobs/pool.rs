//! The pools: one drawn thing for every slot of the simulation, for the lifetime of the run.
//!
//! A slot that is not live is hidden, not despawned: a creature dying should not restructure the
//! scene.

use vstd::prelude::*;

use crate::number::{Number, num};
use crate::shear::Point;
use crate::sky::mesh::ViewSize;
use crate::sprite::bake::Rgb;

verus! {

/// Where the creatures sit in depth, in hundredths: under the player, over the cells.
pub const MOB_Z: u32 = 45;

/// Where shots sit: over everything that can be hit by one.
pub const SHOT_Z: u32 = 55;

/// Where a luminous creature's additive pass sits: over the whole light composite.
pub const MOB_GLOW_Z: u32 = 80;

/// A glowing shot's additive pass, immediately over the creatures'.
pub const SHOT_GLOW_Z: u32 = 81;

/// Where a burrower's tell sits: just under the creatures, so that one walking over the spot
/// covers it.
pub const TELL_Z: u32 = 44;

/// How bright the day is, from 0 to 1.
#[derive(Clone, Copy, Debug, PartialEq, Eq, Structural)]
pub struct Daylight(pub Number);

impl Default for Daylight {
    /// Full daylight: the state a world with no clock is permanently in.
    fn default() -> (day: Daylight)
        ensures
            day == Daylight(Number { bits: 0x3f80_0000 }),
    {
        Daylight(Number { bits: 0x3f80_0000 })
    }
}

/// One pooled creature sprite.
#[derive(Clone, Copy, Debug, PartialEq, Eq, Structural)]
pub struct MobSprite {
    /// Index into the creatures.
    pub slot: usize,
}

/// One pooled creature glow quad, parallel to [`MobSprite`].
#[derive(Clone, Copy, Debug, PartialEq, Eq, Structural)]
pub struct MobGlow {
    /// Index into the creatures.
    pub slot: usize,
}

/// Which of the two shot pools a [`ShotSprite`] mirrors.
#[derive(Clone, Copy, Debug, PartialEq, Eq, Structural)]
pub enum ShotPool {
    /// Thrown rocks, spat acid, ice.
    Creature,
    /// What the player's bow put up.
    Player,
}

/// One pooled shot rectangle, from either pool.
#[derive(Clone, Copy, Debug, PartialEq, Eq, Structural)]
pub struct ShotSprite {
    /// Which pool the slot indexes.
    pub pool: ShotPool,
    /// Index into that pool's live set.
    pub slot: usize,
}

/// The one mesh every glowing shot in the frame is drawn into.
#[derive(Clone, Copy, Debug, PartialEq, Eq, Structural)]
pub struct ShotGlow;

/// The one mesh every burrower's tell is drawn into.
#[derive(Clone, Copy, Debug, PartialEq, Eq, Structural)]
pub struct BreachTell;

/// One thing that is spawned, once, and drawn from then on.
#[derive(Clone, Copy, Debug, PartialEq, Eq, Structural)]
pub enum Pooled {
    Mob(MobSprite),
    Glow(MobGlow),
    Shot(ShotSprite),
    Tell(BreachTell),
    ShotGlow(ShotGlow),
}

impl Pooled {
    /// How deep it sits, in hundredths.
    #[verifier::allow_in_spec]
    pub fn depth(self) -> u32
        returns
            (match self {
                Pooled::Mob(_) => MOB_Z,
                Pooled::Glow(_) => MOB_GLOW_Z,
                Pooled::Shot(_) => SHOT_Z,
                Pooled::Tell(_) => TELL_Z,
                Pooled::ShotGlow(_) => SHOT_GLOW_Z,
            }),
    {
        match self {
            Pooled::Mob(_) => MOB_Z,
            Pooled::Glow(_) => MOB_GLOW_Z,
            Pooled::Shot(_) => SHOT_Z,
            Pooled::Tell(_) => TELL_Z,
            Pooled::ShotGlow(_) => SHOT_GLOW_Z,
        }
    }
}

/// A tell is under the creature that stands on it, a shot is over both, and the additive passes
/// are over everything in the world, the shots' last.
pub proof fn law_depths_are_in_drawing_order(
    tell: BreachTell,
    mob: MobSprite,
    shot: ShotSprite,
    glow: MobGlow,
    shot_glow: ShotGlow,
)
    ensures
        Pooled::Tell(tell).depth() < Pooled::Mob(mob).depth(),
        Pooled::Mob(mob).depth() < Pooled::Shot(shot).depth(),
        Pooled::Shot(shot).depth() < Pooled::Glow(glow).depth(),
        Pooled::Glow(glow).depth() < Pooled::ShotGlow(shot_glow).depth(),
{
}

/// A sprite and a glow quad for each of `n` creatures.
pub open spec fn mob_pairs(n: nat) -> Seq<Pooled> {
    Seq::new(
        2 * n,
        |i: int|
            if i % 2 == 0 {
                Pooled::Mob(MobSprite { slot: (i / 2) as usize })
            } else {
                Pooled::Glow(MobGlow { slot: (i / 2) as usize })
            },
    )
}

/// A rectangle for each of `n` shots of a pool.
pub open spec fn shots_of(pool: ShotPool, n: nat) -> Seq<Pooled> {
    Seq::new(n, |i: int| Pooled::Shot(ShotSprite { pool, slot: i as usize }))
}

/// Everything that is spawned for `mobs` creatures and the slots of the two shot pools.
pub open spec fn pool_plan(mobs: nat, creature_shots: nat, arrows: nat) -> Seq<Pooled> {
    mob_pairs(mobs) + shots_of(ShotPool::Creature, creature_shots) + shots_of(
        ShotPool::Player,
        arrows,
    ) + seq![Pooled::Tell(BreachTell), Pooled::ShotGlow(ShotGlow)]
}

fn push_shots(out: &mut Vec<Pooled>, pool: ShotPool, n: usize)
    ensures
        final(out)@ == old(out)@ + shots_of(pool, n as nat),
{
    let mut slot: usize = 0;
    while slot < n
        invariant
            slot <= n,
            out@ =~= old(out)@ + shots_of(pool, slot as nat),
        decreases n - slot,
    {
        out.push(Pooled::Shot(ShotSprite { pool, slot }));
        slot = slot + 1;
    }
}

/// One thing per simulation slot, and one mesh for each of the two passes that have no slots.
///
/// Sized from the pools themselves, so a pool that grows cannot leave slots undrawn.
pub fn spawn_pool(mobs: usize, creature_shots: usize, arrows: usize) -> (out: Vec<Pooled>)
    ensures
        out@ == pool_plan(mobs as nat, creature_shots as nat, arrows as nat),
{
    let mut out: Vec<Pooled> = Vec::new();
    let mut slot: usize = 0;
    while slot < mobs
        invariant
            slot <= mobs,
            out@ =~= mob_pairs(slot as nat),
        decreases mobs - slot,
    {
        out.push(Pooled::Mob(MobSprite { slot }));
        out.push(Pooled::Glow(MobGlow { slot }));
        slot = slot + 1;
    }
    push_shots(&mut out, ShotPool::Creature, creature_shots);
    push_shots(&mut out, ShotPool::Player, arrows);
    out.push(Pooled::Tell(BreachTell));
    out.push(Pooled::ShotGlow(ShotGlow));
    assert(out@ =~= pool_plan(mobs as nat, creature_shots as nat, arrows as nat));
    out
}

/// No slot is left undrawn, and none is drawn twice: the plan holds each slot's things at places
/// of their own, and nothing else but the two passes.
pub proof fn law_every_slot_is_pooled_once(
    mobs: usize,
    creature_shots: usize,
    arrows: usize,
    slot: usize,
)
    ensures
        ({
            let plan = pool_plan(mobs as nat, creature_shots as nat, arrows as nat);
            &&& plan.len() == 2 * mobs + creature_shots + arrows + 2
            &&& slot < mobs ==> plan[2 * slot] == Pooled::Mob(MobSprite { slot })
            &&& slot < mobs ==> plan[2 * slot + 1] == Pooled::Glow(MobGlow { slot })
            &&& slot < creature_shots ==> plan[2 * mobs + slot] == Pooled::Shot(
                ShotSprite { pool: ShotPool::Creature, slot },
            )
            &&& slot < arrows ==> plan[2 * mobs + creature_shots + slot] == Pooled::Shot(
                ShotSprite { pool: ShotPool::Player, slot },
            )
        }),
{
}

/// A shot in flight, at its centre.
#[derive(Clone, Copy, Debug, PartialEq, Eq, Structural)]
pub struct Shot {
    pub x: Number,
    pub y: Number,
    /// Half its edge.
    pub r_px: Number,
    pub color: Rgb,
}

/// Where a shot is drawn: its centre, with y running up, and its edge.
#[derive(Clone, Copy, Debug, PartialEq, Eq, Structural)]
pub struct PlacedShot {
    pub at: Point,
    pub side: Number,
    pub color: Rgb,
}

/// Where a shot is drawn. It is a point with a half-extent, so it is the centre that is on the pixel
/// grid.
pub open spec fn shot_placed(s: Shot) -> PlacedShot {
    PlacedShot {
        at: Point { x: s.x.nearest_whole(), y: s.y.nearest_whole().negated() },
        side: s.r_px.product(num(0x4000_0000)),
        color: s.color,
    }
}

/// The shot a slot mirrors, or `None` to hide it. A creature's slot holds `None` while it is not
/// live; the player's pool publishes its live shots and nothing else.
pub open spec fn mirrored(which: ShotSprite, creature: Seq<Option<Shot>>, live: Seq<Shot>) -> Option<
    Shot,
> {
    match which.pool {
        ShotPool::Creature => creature[which.slot as int],
        ShotPool::Player => if (which.slot as int) < live.len() {
            Some(live[which.slot as int])
        } else {
            None
        },
    }
}

/// Put a shot rectangle on its slot, from whichever pool owns it, or hide it.
pub fn place_shot(which: ShotSprite, creature: &Vec<Option<Shot>>, live: &Vec<Shot>) -> (place:
    Option<PlacedShot>)
    requires
        which.pool == ShotPool::Creature ==> which.slot < creature@.len(),
    ensures
        place == match mirrored(which, creature@, live@) {
            Some(s) => Some(shot_placed(s)),
            None => None,
        },
{
    let shot: Option<Shot> = match which.pool {
        ShotPool::Creature => creature[which.slot],
        ShotPool::Player => if which.slot < live.len() {
            Some(live[which.slot])
        } else {
            None
        },
    };
    match shot {
        Some(s) => Some(
            PlacedShot {
                at: Point { x: s.x.round(), y: s.y.round().minus_self() },
                side: s.r_px.times(num(0x4000_0000)),
                color: s.color,
            },
        ),
        None => None,
    }
}

/// Remember the view, and tell whether it changed: the creatures' spawn rectangles follow it.
pub fn follow_view(last: &mut Option<ViewSize>, view: ViewSize) -> (changed: bool)
    ensures
        *final(last) == Some(view),
        changed == (*old(last) != Some(view)),
{
    if let Some(seen) = *last {
        if seen == view {
            return false;
        }
    }
    *last = Some(view);
    true
}

} // verus!
