//! Baking the bestiary: one strip per creature, with the three poses a brain can ask for resolved
//! once.

use vstd::prelude::*;
use vstd::string::*;

use crate::number::Number;
use crate::rounding::pixel;
use crate::sprite::baked::BakedSprite;
use crate::sprite::content::{
    ContentArt, ContentSeq, FromContentOpts, SpriteAtlas, SpriteAtlases, filled, scale_of,
};
use crate::sprite::error::{SpriteFault, VARIANT_COUNT};
use crate::sprite::frames::texts;
use crate::sprite::ids::{StateId, authored, chase, duplicate_fault, id_table, resolved};
use crate::sprite::pose::{PlayMode, Pose, pose_name};
use crate::sprite::table::{
    BakeError, bake_one, bake_text, bakes_to, is_refused, law_baked_record_is_never_blank,
};
use crate::whole::{
    is_halfway, is_whole, law_a_whole_step_keeps_the_pixel, law_whole_differences_are_exact,
    law_whole_sums_are_exact,
};

verus! {

/// What a creature's brain decided it is doing.
#[derive(Clone, Copy, Debug, PartialEq, Eq, Hash, Structural)]
pub enum MobPose {
    Idle,
    Move,
    Air,
}

/// The pose a creature's own pose is drawn as.
#[verifier::allow_in_spec]
pub fn pose_of(pose: MobPose) -> Pose
    returns
        (match pose {
            MobPose::Idle => Pose::Idle,
            MobPose::Move => Pose::Move,
            MobPose::Air => Pose::Air,
        }),
{
    match pose {
        MobPose::Idle => Pose::Idle,
        MobPose::Move => Pose::Move,
        MobPose::Air => Pose::Air,
    }
}

/// How much slower than authored a creature's idle loop plays: half.
#[verifier::allow_in_spec]
pub fn idle_rate() -> Number
    returns
        (Number { bits: 0x3f00_0000 }),
{
    Number { bits: 0x3f00_0000 }
}

/// The one borrowing rule every creature gets: with no air pose it flies with its walk cycle.
pub open spec fn mob_rules() -> Seq<(Pose, Pose)> {
    seq![(Pose::Air, Pose::Move)]
}

/// The rate each pose's own is multiplied by, where it is.
pub open spec fn mob_scales() -> Seq<(Pose, Number)> {
    seq![(Pose::Idle, idle_rate())]
}

/// These are a creature's options: the borrowing rule, the idle rate, and the whole tint table.
pub open spec fn is_mob_opts(opts: FromContentOpts) -> bool {
    &&& opts.fallback@ == mob_rules()
    &&& opts.rate_scale@ == mob_scales()
    &&& opts.variants == Some(VARIANT_COUNT)
}

/// The options every creature is baked with. They are rules about how the game animates creatures,
/// and are not authored.
pub fn mob_opts() -> (opts: FromContentOpts)
    ensures
        is_mob_opts(opts),
{
    let mut fallback: Vec<(Pose, Pose)> = Vec::new();
    fallback.push((Pose::Air, Pose::Move));
    let mut rate_scale: Vec<(Pose, Number)> = Vec::new();
    rate_scale.push((Pose::Idle, idle_rate()));
    assert(fallback@ =~= mob_rules());
    assert(rate_scale@ =~= mob_scales());
    FromContentOpts { fallback, rate_scale, variants: Some(VARIANT_COUNT) }
}

/// A sequence that holds one one-texel frame in the palette's first colour.
pub open spec fn is_held_cell(seq: ContentSeq, pose: Pose) -> bool {
    &&& seq.pose == pose
    &&& seq.mode == PlayMode::Hold
    &&& seq.fps.bits == 0
    &&& seq.blink_every.bits == 0
    &&& seq.blink_for.bits == 0
    &&& texts(seq.frames@) == seq!["1"@]
}

fn held_cell(pose: Pose) -> (seq: ContentSeq)
    ensures
        is_held_cell(seq, pose),
{
    let zero: Number = Number { bits: 0 };
    let mut frames: Vec<String> = Vec::new();
    frames.push(String::from_str("1"));
    assert(texts(frames@) =~= seq!["1"@]);
    ContentSeq {
        pose,
        mode: PlayMode::Hold,
        fps: zero,
        blink_every: zero,
        blink_for: zero,
        frames,
    }
}

/// One magenta cell, held, to idle with and to walk with.
pub open spec fn is_removed(art: ContentArt) -> bool {
    &&& art.cells_w == 1
    &&& art.cells_h == 1
    &&& art.grain == 1
    &&& texts(art.pal@) == seq!["."@, "#ff00ff"@]
    &&& art.fps.bits == 0x3f80_0000
    &&& art.variants == 1
    &&& art.seq@.len() == 2
    &&& is_held_cell(art.seq@[0], Pose::Idle)
    &&& is_held_cell(art.seq@[1], Pose::Move)
}

/// The art of an id that was removed and keeps its code: one magenta cell.
///
/// It has a walk cycle as well as an idle, because the borrowing rule is applied to every creature
/// and a rule that leads to no sequence is an error.
pub fn removed_art() -> (art: ContentArt)
    ensures
        is_removed(art),
{
    let mut pal: Vec<String> = Vec::new();
    pal.push(String::from_str("."));
    pal.push(String::from_str("#ff00ff"));
    assert(texts(pal@) =~= seq!["."@, "#ff00ff"@]);
    let mut seq: Vec<ContentSeq> = Vec::new();
    seq.push(held_cell(Pose::Idle));
    seq.push(held_cell(Pose::Move));
    ContentArt {
        cells_w: 1,
        cells_h: 1,
        grain: 1,
        pal,
        fps: Number { bits: 0x3f80_0000 },
        variants: 1,
        seq,
    }
}

/// Why a creature could not be baked.
#[derive(Clone, Debug, PartialEq, Eq)]
pub enum MobArtError {
    /// Its record does not bake.
    Bake(BakeError),
    /// A pose has no sequence and nothing to borrow one from.
    NoSequence { who: String, pose: MobPose },
}

impl MobArtError {
    /// The error in words.
    pub fn message(&self) -> (out: String)
        ensures
            out@ == match *self {
                MobArtError::Bake(e) => "content/mobs: "@ + bake_text(e),
                MobArtError::NoSequence { who, pose } => "content/mobs: "@ + who@ + " has no "@
                    + pose_name(pose_of(pose))
                    + " sequence and nothing to borrow one from"@,
            },
    {
        match self {
            MobArtError::Bake(e) => {
                let mut out: String = String::from_str("content/mobs: ");
                out.append(e.message().as_str());
                out
            },
            MobArtError::NoSequence { who, pose } => {
                let mut out: String = String::from_str("content/mobs: ");
                out.append(who.as_str());
                out.append(" has no ");
                out.append(pose_of(*pose).name());
                out.append(" sequence and nothing to borrow one from");
                out
            },
        }
    }
}

/// The sequence each of a creature's poses plays.
#[derive(Clone, Copy, Debug, PartialEq, Eq, Structural)]
pub struct MobStates {
    pub idle: StateId,
    pub walk: StateId,
    pub air: StateId,
}

impl MobStates {
    /// The sequence for a pose.
    pub open spec fn of(self, pose: MobPose) -> StateId {
        match pose {
            MobPose::Idle => self.idle,
            MobPose::Move => self.walk,
            MobPose::Air => self.air,
        }
    }
}

/// The first pose of three that a sprite plays nothing for.
pub open spec fn unplayed(baked: BakedSprite) -> Option<MobPose> {
    if baked.plays(Pose::Idle) is None {
        Some(MobPose::Idle)
    } else if baked.plays(Pose::Move) is None {
        Some(MobPose::Move)
    } else if baked.plays(Pose::Air) is None {
        Some(MobPose::Air)
    } else {
        None
    }
}

fn resolve_state(baked: &BakedSprite, pose: MobPose, who: &str) -> (out: Result<
    StateId,
    MobArtError,
>)
    requires
        baked.wf(),
    ensures
        match out {
            Ok(id) => baked.plays(pose_of(pose)) == Some(id.seq()) && id.seq() < baked.seq_count(),
            Err(MobArtError::NoSequence { who: name, pose: missing }) => baked.plays(
                pose_of(pose),
            ) is None && name@ == who@ && missing == pose,
            Err(_) => false,
        },
{
    match baked.state_id(pose_of(pose)) {
        Some(id) => Ok(id),
        None => Err(MobArtError::NoSequence { who: String::from_str(who), pose }),
    }
}

/// Resolve all three poses once, or refuse to start.
///
/// A pose that resolved to nothing would be an invisible creature.
pub fn resolve_states(baked: &BakedSprite, who: &str) -> (out: Result<MobStates, MobArtError>)
    requires
        baked.wf(),
    ensures
        match out {
            Ok(states) => {
                &&& unplayed(*baked) is None
                &&& forall|pose: MobPose|
                    {
                        &&& baked.plays(pose_of(pose)) == Some((#[trigger] states.of(pose)).seq())
                        &&& states.of(pose).seq() < baked.seq_count()
                    }
            },
            Err(MobArtError::NoSequence { who: name, pose }) => unplayed(*baked) == Some(pose)
                && name@ == who@,
            Err(_) => false,
        },
{
    let idle: StateId = match resolve_state(baked, MobPose::Idle, who) {
        Ok(id) => id,
        Err(e) => {
            return Err(e);
        },
    };
    let walk: StateId = match resolve_state(baked, MobPose::Move, who) {
        Ok(id) => id,
        Err(e) => {
            return Err(e);
        },
    };
    let air: StateId = match resolve_state(baked, MobPose::Air, who) {
        Ok(id) => id,
        Err(e) => {
            return Err(e);
        },
    };
    let states: MobStates = MobStates { idle, walk, air };
    assert forall|pose: MobPose| {
        &&& baked.plays(pose_of(pose)) == Some((#[trigger] states.of(pose)).seq())
        &&& states.of(pose).seq() < baked.seq_count()
    } by {
        match pose {
            MobPose::Idle => {},
            MobPose::Move => {},
            MobPose::Air => {},
        }
    }
    Ok(states)
}

/// What a creature is baked from: its record, or the art of a removed id where it has none, with
/// the options every creature gets.
pub open spec fn is_recipe(record: Option<ContentArt>, art: ContentArt, opts: FromContentOpts) -> bool {
    &&& is_mob_opts(opts)
    &&& match record {
        Some(authored) => art == authored,
        None => is_removed(art),
    }
}

/// `c` is the creature `def`, an id and its record: baked, with each of its poses resolved to a
/// sequence that has a frame to show.
pub open spec fn is_creature(c: (BakedSprite, MobStates), def: (String, Option<ContentArt>)) -> bool {
    &&& c.0.wf()
    &&& forall|pose: MobPose|
        {
            &&& c.0.plays(pose_of(pose)) == Some((#[trigger] c.1.of(pose)).seq())
            &&& c.0.shows(c.1.of(pose))
        }
    &&& exists|art: ContentArt, opts: FromContentOpts|
        is_recipe(def.1, art, opts) && #[trigger] bakes_to(c.0, art, opts, def.0@)
}

/// The creature `def` is refused for this reason.
pub open spec fn is_refused_creature(def: (String, Option<ContentArt>), e: MobArtError) -> bool {
    match e {
        MobArtError::Bake(e) => exists|art: ContentArt, opts: FromContentOpts|
            is_recipe(def.1, art, opts) && #[trigger] is_refused(art, opts, def.0@, e),
        MobArtError::NoSequence { who, pose } => who@ == def.0@ && exists|
            art: ContentArt,
            opts: FromContentOpts,
            baked: BakedSprite,
        |
            is_recipe(def.1, art, opts) && #[trigger] bakes_to(baked, art, opts, def.0@)
                && unplayed(baked) == Some(pose),
    }
}

/// Bake one creature and resolve its poses.
pub fn bake_mob(def: &(String, Option<ContentArt>)) -> (out: Result<
    (BakedSprite, MobStates),
    MobArtError,
>)
    ensures
        match out {
            Ok(creature) => is_creature(creature, *def),
            Err(e) => is_refused_creature(*def, e),
        },
{
    let who: &str = def.0.as_str();
    let opts: FromContentOpts = mob_opts();
    let removed: ContentArt = removed_art();
    let art: &ContentArt = match &def.1 {
        Some(art) => art,
        None => &removed,
    };
    assert(is_recipe(def.1, *art, opts));
    let baked: BakedSprite = match bake_one(art, who, &opts) {
        Ok(baked) => baked,
        Err(e) => {
            return Err(MobArtError::Bake(e));
        },
    };
    let states: MobStates = match resolve_states(&baked, who) {
        Ok(states) => states,
        Err(e) => {
            return Err(e);
        },
    };
    proof {
        assert forall|pose: MobPose| {
            &&& baked.plays(pose_of(pose)) == Some((#[trigger] states.of(pose)).seq())
            &&& baked.shows(states.of(pose))
        } by {
            law_baked_record_is_never_blank(baked, *art, opts, who@, states.of(pose));
        }
        assert(bakes_to(baked, *art, opts, who@));
    }
    Ok((baked, states))
}

/// The creature bakes.
pub open spec fn is_bakeable(def: (String, Option<ContentArt>)) -> bool {
    exists|c: (BakedSprite, MobStates)| is_creature(c, def)
}

/// Bake the whole bestiary, in code order. The first creature that does not bake is reported, by
/// its code.
pub fn bake_mob_art(records: &Vec<(String, Option<ContentArt>)>) -> (out: Result<
    Vec<(BakedSprite, MobStates)>,
    (usize, MobArtError),
>)
    ensures
        match out {
            Ok(baked) => {
                &&& baked@.len() == records@.len()
                &&& forall|i: int|
                    0 <= i < records@.len() ==> is_creature(#[trigger] baked@[i], records@[i])
            },
            Err((at, e)) => {
                &&& at < records@.len()
                &&& is_refused_creature(records@[at as int], e)
                &&& forall|i: int| 0 <= i < at ==> is_bakeable(#[trigger] records@[i])
            },
        },
{
    let mut out: Vec<(BakedSprite, MobStates)> = Vec::new();
    let mut i: usize = 0;
    while i < records.len()
        invariant
            i <= records@.len(),
            out@.len() == i,
            forall|j: int| 0 <= j < i ==> is_creature(#[trigger] out@[j], records@[j]),
        decreases records@.len() - i,
    {
        match bake_mob(&records[i]) {
            Ok(creature) => {
                out.push(creature);
            },
            Err(e) => {
                assert forall|j: int| 0 <= j < i implies is_bakeable(#[trigger] records@[j]) by {
                    assert(is_creature(out@[j], records@[j]));
                }
                return Err((i, e));
            },
        }
        i = i + 1;
    }
    Ok(out)
}

/// A creature with no air pose flies with its walk cycle, and one that has its own plays that.
pub proof fn law_no_air_pose_borrows_the_walk_cycle(poses: Seq<Pose>, who: Seq<char>)
    requires
        duplicate_fault(poses, who, 0) is None,
        authored(poses).contains_key(Pose::Move),
    ensures
        id_table(poses, mob_rules(), who) == Ok::<Map<Pose, nat>, SpriteFault>(
            if authored(poses).contains_key(Pose::Air) {
                authored(poses)
            } else {
                authored(poses).insert(Pose::Air, authored(poses)[Pose::Move])
            },
        ),
{
    let ids = authored(poses);
    let rules = mob_rules();
    reveal_with_fuel(resolved, 3);
    reveal_with_fuel(chase, 2);
    assert(rules[0] == (Pose::Air, Pose::Move));
}

/// A creature's idle plays at half the rate it would have had; its other poses keep theirs.
pub proof fn law_idle_plays_at_half_rate(pose: Pose)
    ensures
        scale_of(mob_scales(), pose, 0) == (if pose == Pose::Idle {
            Some(idle_rate())
        } else {
            None
        }),
{
    reveal_with_fuel(scale_of, 3);
    assert(mob_scales()[0].0 == Pose::Idle);
}

/// One creature's art: the atlas, and its three poses resolved once.
#[derive(Clone, Debug)]
pub struct MobArt<I, L> {
    /// The strip's image, its layout, and the tile table.
    pub atlas: SpriteAtlas<I, L>,
    /// The sequence each pose plays, with borrowing applied.
    pub states: MobStates,
}

impl<I, L> MobArt<I, L> {
    /// Every pose has a sequence of the atlas to play, and the sequence has a frame to show.
    pub open spec fn wf(&self) -> bool {
        &&& self.atlas.baked.wf()
        &&& forall|pose: MobPose| self.atlas.baked.shows(#[trigger] self.states.of(pose))
    }

    /// The resolved sequence for a pose.
    pub fn state(&self, pose: MobPose) -> (id: StateId)
        ensures
            id == self.states.of(pose),
    {
        match pose {
            MobPose::Idle => self.states.idle,
            MobPose::Move => self.states.walk,
            MobPose::Air => self.states.air,
        }
    }
}

/// Every creature's art, indexed by mob code.
#[derive(Clone, Debug)]
pub struct MobAtlases<I, L> {
    by_code: SpriteAtlases<MobArt<I, L>>,
}

impl<I, L> MobAtlases<I, L> {
    /// The slots, in code order.
    pub closed spec fn slots(&self) -> Seq<Option<MobArt<I, L>>> {
        self.by_code.slots()
    }

    /// A table of these slots, in code order.
    pub fn new(by_code: Vec<Option<MobArt<I, L>>>) -> (atlases: MobAtlases<I, L>)
        ensures
            atlases.slots() == by_code@,
    {
        MobAtlases { by_code: SpriteAtlases::new(by_code) }
    }

    /// The art for a mob code, or `None` where there is none.
    pub fn by_code(&self, code: u16) -> (art: Option<&MobArt<I, L>>)
        ensures
            match art {
                Some(a) => code < self.slots().len() && self.slots()[code as int] == Some(*a),
                None => code >= self.slots().len() || self.slots()[code as int] is None,
            },
    {
        self.by_code.by_code(code)
    }

    /// How many creatures are baked.
    pub fn count(&self) -> (n: usize)
        ensures
            n == filled(self.slots(), self.slots().len()),
    {
        self.by_code.count()
    }
}

/// The art rect's top-left: the picture may be wider than the body and taller, and hangs off the
/// body's corner, with the pad across on both sides and the vertical pad all on top.
pub open spec fn art_corner(body_x: Number, body_y: Number, pad_x: Number, pad_top: Number) -> (
    Number,
    Number,
) {
    (body_x.difference(pad_x), body_y.difference(pad_top))
}

/// The art rect's top-left, from the body's own top-left and the published pad. See [`art_corner`].
pub fn art_origin(body_x: Number, body_y: Number, pad_x: Number, pad_top: Number) -> (origin: (
    Number,
    Number,
))
    ensures
        origin == art_corner(body_x, body_y, pad_x, pad_top),
{
    (body_x.minus(pad_x), body_y.minus(pad_top))
}

/// Feet stay planted and wings stay level: on whole pixels, art that is wider than its body by twice
/// the pad across and taller by the pad above ends on the body's bottom row, as far past its right
/// edge as before its left.
pub proof fn law_art_hangs_off_the_body(
    body: (Number, Number),
    at: (int, int),
    pads: (Number, Number),
    pad: (int, int),
    art: (Number, Number),
    w: int,
    h: int,
)
    requires
        is_whole(body.0, at.0),
        is_whole(body.1, at.1),
        is_whole(pads.0, pad.0),
        is_whole(pads.1, pad.1),
        is_whole(art.0, w + 2 * pad.0),
        is_whole(art.1, h + pad.1),
        -0x40_0000 < at.0 < 0x40_0000,
        -0x40_0000 < at.1 < 0x40_0000,
        0 <= pad.0 < 0x40_0000,
        0 <= pad.1 < 0x40_0000,
        0 <= w < 0x40_0000,
        0 <= h < 0x40_0000,
    ensures
        ({
            let (left, top) = art_corner(body.0, body.1, pads.0, pads.1);
            &&& is_whole(left, at.0 - pad.0)
            &&& is_whole(left.sum(art.0), at.0 + w + pad.0)
            &&& is_whole(top.sum(art.1), at.1 + h)
        }),
{
    let (left, top) = art_corner(body.0, body.1, pads.0, pads.1);
    law_whole_differences_are_exact(body.0, pads.0, at.0, pad.0);
    law_whole_differences_are_exact(body.1, pads.1, at.1, pad.1);
    law_whole_sums_are_exact(left, art.0, at.0 - pad.0, w + 2 * pad.0);
    law_whole_sums_are_exact(top, art.1, at.1 - pad.1, h + pad.1);
}

/// The pad is whole, so it does not matter whether the corner is put on the pixel grid before it is
/// taken off or after, unless a coordinate is halfway between two pixels.
pub proof fn law_the_grid_can_wait_for_the_pad(
    body: (Number, Number),
    pads: (Number, Number),
    pad: (int, int),
)
    requires
        body.0.magnitude() < 0x4a80_0000,
        body.1.magnitude() < 0x4a80_0000,
        is_whole(pads.0, pad.0),
        is_whole(pads.1, pad.1),
        -0x40_0000 < pad.0 < 0x40_0000,
        -0x40_0000 < pad.1 < 0x40_0000,
        !is_halfway(body.0),
        !is_halfway(body.1),
        !is_halfway(art_corner(body.0, body.1, pads.0, pads.1).0),
        !is_halfway(art_corner(body.0, body.1, pads.0, pads.1).1),
    ensures
        ({
            let (left, top) = art_corner(body.0, body.1, pads.0, pads.1);
            &&& pixel(left) == pixel(body.0) - pad.0
            &&& pixel(top) == pixel(body.1) - pad.1
        }),
{
    law_a_whole_step_keeps_the_pixel(body.0, pads.0, pad.0);
    law_a_whole_step_keeps_the_pixel(body.1, pads.1, pad.1);
}

/// Each of a creature's three poses plays the sequence that its art has for that pose.
pub proof fn law_each_pose_plays_its_own(
    c: (BakedSprite, MobStates),
    def: (String, Option<ContentArt>),
)
    requires
        is_creature(c, def),
    ensures
        c.0.plays(Pose::Idle) == Some(c.1.idle.seq()),
        c.0.plays(Pose::Move) == Some(c.1.walk.seq()),
        c.0.plays(Pose::Air) == Some(c.1.air.seq()),
        c.1.of(MobPose::Idle) == c.1.idle,
        c.1.of(MobPose::Move) == c.1.walk,
        c.1.of(MobPose::Air) == c.1.air,
{
    assert(c.1.of(MobPose::Idle) == c.1.idle);
    assert(c.1.of(MobPose::Move) == c.1.walk);
    assert(c.1.of(MobPose::Air) == c.1.air);
}

/// The pose a creature is refused for is one that its art plays nothing for, and one whose art plays
/// something for all three is not refused for any.
pub proof fn law_a_missing_pose_is_named(baked: BakedSprite)
    ensures
        unplayed(baked) matches Some(pose) ==> baked.plays(pose_of(pose)) is None,
        unplayed(baked) is None <==> baked.plays(Pose::Idle) is Some && baked.plays(Pose::Move) is Some
            && baked.plays(Pose::Air) is Some,
{
}

} // verus!
