//! The bridge from compiled content to a sprite, and the table of baked sprites.

use vstd::prelude::*;
use vstd::string::*;

use crate::number::{Number, num};
use crate::rounding::pixel;
use crate::shear::Point;
use crate::sprite::baked::{BakedSprite, SpriteArt};
use crate::sprite::error::{SpriteError, SpriteFault};
use crate::sprite::frames::{Frame, SeqSpec, frame_texts, frames_in, row_fault, split_frames, texts};
use crate::sprite::pose::{PlayMode, Pose, pose_name};
use crate::whole::{
    is_halves, is_whole, law_half_of_a_whole_is_exact, law_nearest_is_the_pixel,
    law_sums_of_halves_are_exact, lemma_negated_halves, lemma_pixel_within, lemma_whole_is_halves,
};

verus! {

/// One compiled sequence, whichever table printed it.
#[derive(Clone, Debug, PartialEq, Eq)]
pub struct ContentSeq {
    pub pose: Pose,
    pub mode: PlayMode,
    /// Zero means "unset": the sequence inherits the sprite-wide rate.
    pub fps: Number,
    pub blink_every: Number,
    pub blink_for: Number,
    /// The frames' rows, with a blank line between frames.
    pub frames: Vec<String>,
}

/// One compiled art record, whichever table printed it.
#[derive(Clone, Debug, PartialEq, Eq)]
pub struct ContentArt {
    pub cells_w: i32,
    pub cells_h: i32,
    /// Art pixels per world cell.
    pub grain: i32,
    pub pal: Vec<String>,
    /// The sprite-wide rate a sequence inherits.
    pub fps: Number,
    pub variants: i32,
    pub seq: Vec<ContentSeq>,
}

/// What the caller supplies that content is not allowed to.
#[derive(Clone, Debug, PartialEq, Eq)]
pub struct FromContentOpts {
    /// State borrowing. Chains are chased and validated when the sprite is baked.
    pub fallback: Vec<(Pose, Pose)>,
    /// Per-pose playback-rate scale, applied after the rate has been inherited.
    pub rate_scale: Vec<(Pose, Number)>,
    /// Override the baked variant count.
    pub variants: Option<usize>,
}

impl Default for FromContentOpts {
    fn default() -> (opts: FromContentOpts)
        ensures
            opts.fallback@.len() == 0,
            opts.rate_scale@.len() == 0,
            opts.variants is None,
    {
        FromContentOpts { fallback: Vec::new(), rate_scale: Vec::new(), variants: None }
    }
}

/// The scale of the first entry for `pose`, from `i` on.
pub open spec fn scale_of(scales: Seq<(Pose, Number)>, pose: Pose, i: nat) -> Option<Number>
    decreases scales.len() - i,
{
    if i >= scales.len() {
        None
    } else if scales[i as int].0 == pose {
        Some(scales[i as int].1)
    } else {
        scale_of(scales, pose, i + 1)
    }
}

/// The name a sequence's frames are split under.
pub open spec fn seq_name(who: Seq<char>, pose: Pose) -> Seq<char> {
    who + "."@ + pose_name(pose)
}

/// What is wrong with one sequence whose frames should have `rows` rows.
pub open spec fn content_seq_fault(seq: ContentSeq, rows: nat, who: Seq<char>) -> Option<
    SpriteFault,
> {
    let frames = frames_in(texts(seq.frames@));
    match row_fault(frames, rows, seq_name(who, seq.pose), 0) {
        Some(fault) => Some(fault),
        None => if frames.len() == 0 {
            Some(SpriteFault::EmptySequence { who, pose: seq.pose })
        } else {
            None
        },
    }
}

/// What is wrong with the sequences from `i` on.
pub open spec fn content_seqs_fault(
    seqs: Seq<ContentSeq>,
    rows: nat,
    who: Seq<char>,
    i: nat,
) -> Option<SpriteFault>
    decreases seqs.len() - i,
{
    if i >= seqs.len() {
        None
    } else {
        match content_seq_fault(seqs[i as int], rows, who) {
            Some(fault) => Some(fault),
            None => content_seqs_fault(seqs, rows, who, i + 1),
        }
    }
}

impl ContentArt {
    /// Art pixels per cell, never less than one.
    pub open spec fn grain_or_one(&self) -> nat {
        if self.grain < 1 {
            1
        } else {
            self.grain as nat
        }
    }

    /// Texel rows of a frame.
    pub open spec fn rows(&self) -> nat {
        (self.cells_h * self.grain_or_one()) as nat
    }

    /// What is wrong with the record, in the order it is found.
    pub open spec fn fault(&self, who: Seq<char>) -> Option<SpriteFault> {
        if self.cells_w <= 0 || self.cells_h <= 0 {
            Some(
                SpriteFault::Grid {
                    who,
                    cells_w: self.cells_w as int,
                    cells_h: self.cells_h as int,
                },
            )
        } else {
            match content_seqs_fault(self.seq@, self.rows(), who, 0) {
                Some(fault) => Some(fault),
                None => if self.seq@.len() == 0 {
                    Some(SpriteFault::NoSequences { who })
                } else {
                    None
                },
            }
        }
    }
}

/// A rate times what scales it, if anything does.
pub open spec fn scaled(rate: Number, scale: Option<Number>) -> Number {
    match scale {
        Some(k) => rate.product(k),
        None => rate,
    }
}

/// `spec` is what the sequence `seq` of `art` becomes: its frames split, its rate inherited when
/// it is unset and then scaled, and the rest as authored.
pub open spec fn is_seq_of(spec: SeqSpec, seq: ContentSeq, art: ContentArt, opts: FromContentOpts) -> bool {
    &&& frame_texts(spec.frames@) == frames_in(texts(seq.frames@))
    &&& spec.mode == seq.mode
    &&& spec.fps == scaled(
        if seq.fps.is_zero_spec() {
            art.fps
        } else {
            seq.fps
        },
        scale_of(opts.rate_scale@, seq.pose, 0),
    )
    &&& spec.blink_every == seq.blink_every
    &&& spec.blink_for == seq.blink_for
}

/// The variant count a sprite is baked with.
pub open spec fn variants_of(art: ContentArt, opts: FromContentOpts) -> nat {
    match opts.variants {
        Some(n) => n as nat,
        None => if art.variants < 0 {
            0
        } else {
            art.variants as nat
        },
    }
}

/// `out` is the sprite art that the record `art` becomes.
pub open spec fn is_art_of(out: SpriteArt, art: ContentArt, opts: FromContentOpts) -> bool {
    &&& out.cells_w == art.cells_w
    &&& out.cells_h == art.cells_h
    &&& out.grain == art.grain_or_one()
    &&& texts(out.pal@) == texts(art.pal@)
    &&& out.variants == variants_of(art, opts)
    &&& out.poses@.len() == art.seq@.len()
    &&& forall|i: int| 0 <= i < art.seq@.len() ==> #[trigger] out.poses@[i] == art.seq@[i].pose
    &&& out.seqs@.len() == art.seq@.len()
    &&& forall|i: int|
        0 <= i < art.seq@.len() ==> is_seq_of(#[trigger] out.seqs@[i], art.seq@[i], art, opts)
    &&& out.fallback@ == opts.fallback@
}

fn find_scale(scales: &Vec<(Pose, Number)>, pose: Pose) -> (scale: Option<Number>)
    ensures
        scale == scale_of(scales@, pose, 0),
{
    let mut i: usize = 0;
    while i < scales.len()
        invariant
            i <= scales.len(),
            scale_of(scales@, pose, 0) == scale_of(scales@, pose, i as nat),
        decreases scales.len() - i,
    {
        if scales[i].0 == pose {
            return Some(scales[i].1);
        }
        i = i + 1;
    }
    None
}

fn name_seq(who: &str, pose: Pose) -> (out: String)
    ensures
        out@ == seq_name(who@, pose),
{
    let mut out: String = String::from_str(who);
    out.append(".");
    out.append(pose.name());
    out
}

fn copy_rules(rules: &Vec<(Pose, Pose)>) -> (out: Vec<(Pose, Pose)>)
    ensures
        out@ == rules@,
{
    let mut out: Vec<(Pose, Pose)> = Vec::new();
    let mut i: usize = 0;
    while i < rules.len()
        invariant
            i <= rules.len(),
            out@ =~= rules@.take(i as int),
        decreases rules.len() - i,
    {
        out.push((rules[i].0, rules[i].1));
        i = i + 1;
    }
    assert(rules@.take(i as int) =~= rules@);
    out
}

fn copy_texts(lines: &Vec<String>) -> (out: Vec<String>)
    ensures
        texts(out@) == texts(lines@),
{
    crate::sprite::frames::copy_frame(lines)
}

/// One sequence of a record, as the sprite will play it.
fn seq_from_content(seq: &ContentSeq, art: &ContentArt, rows: u32, who: &str, opts: &FromContentOpts) -> (out:
    Result<SeqSpec, SpriteError>)
    ensures
        match out {
            Ok(spec) => {
                &&& content_seq_fault(*seq, rows as nat, who@) is None
                &&& is_seq_of(spec, *seq, *art, *opts)
            },
            Err(e) => content_seq_fault(*seq, rows as nat, who@) == Some(e@),
        },
{
    let name: String = name_seq(who, seq.pose);
    let frames: Vec<Frame> = match split_frames(&seq.frames, rows, name.as_str()) {
        Ok(frames) => frames,
        Err(e) => {
            return Err(e);
        },
    };
    assert(frame_texts(frames@).len() == frames@.len());
    if frames.len() == 0 {
        return Err(SpriteError::EmptySequence { who: String::from_str(who), pose: seq.pose });
    }
    let base: Number = if seq.fps.is_zero() {
        art.fps
    } else {
        seq.fps
    };
    let fps: Number = match find_scale(&opts.rate_scale, seq.pose) {
        Some(k) => base.times(k),
        None => base,
    };
    Ok(
        SeqSpec {
            frames,
            mode: seq.mode,
            fps,
            blink_every: seq.blink_every,
            blink_for: seq.blink_for,
        },
    )
}

/// Build a runtime [`SpriteArt`] from a compiled content record.
///
/// An unset rate inherits the sprite-wide one, and the scale then applies to whichever rate won.
/// Malformed content fails rather than degrading.
pub fn sprite_art_from_content(art: &ContentArt, who: &str, opts: &FromContentOpts) -> (out: Result<
    SpriteArt,
    SpriteError,
>)
    requires
        art.cells_w > 0 && art.cells_h > 0 && art.seq@.len() > 0 ==> art.rows() <= u32::MAX,
    ensures
        match out {
            Ok(sprite) => art.fault(who@) is None && is_art_of(sprite, *art, *opts),
            Err(e) => art.fault(who@) == Some(e@),
        },
{
    if art.cells_w <= 0 || art.cells_h <= 0 {
        return Err(
            SpriteError::Grid {
                who: String::from_str(who),
                cells_w: art.cells_w,
                cells_h: art.cells_h,
            },
        );
    }
    let grain: u32 = if art.grain < 1 {
        1
    } else {
        art.grain as u32
    };
    let mut poses: Vec<Pose> = Vec::new();
    let mut seqs: Vec<SeqSpec> = Vec::new();
    let mut i: usize = 0;
    while i < art.seq.len()
        invariant
            i <= art.seq.len(),
            art.cells_w > 0,
            art.cells_h > 0,
            grain == art.grain_or_one(),
            art.seq@.len() > 0 ==> art.rows() <= u32::MAX,
            poses@.len() == i,
            seqs@.len() == i,
            forall|j: int| 0 <= j < i ==> #[trigger] poses@[j] == art.seq@[j].pose,
            forall|j: int| 0 <= j < i ==> is_seq_of(#[trigger] seqs@[j], art.seq@[j], *art, *opts),
            content_seqs_fault(art.seq@, art.rows(), who@, 0) == content_seqs_fault(
                art.seq@,
                art.rows(),
                who@,
                i as nat,
            ),
        decreases art.seq.len() - i,
    {
        let rows: u32 = art.cells_h as u32 * grain;
        match seq_from_content(&art.seq[i], art, rows, who, opts) {
            Ok(spec) => {
                poses.push(art.seq[i].pose);
                seqs.push(spec);
            },
            Err(e) => {
                return Err(e);
            },
        }
        i = i + 1;
    }
    if seqs.len() == 0 {
        return Err(SpriteError::NoSequences { who: String::from_str(who) });
    }
    let variants: usize = match opts.variants {
        Some(n) => n,
        None => if art.variants < 0 {
            0
        } else {
            art.variants as usize
        },
    };
    Ok(
        SpriteArt {
            cells_w: art.cells_w as u32,
            cells_h: art.cells_h as u32,
            grain,
            pal: copy_texts(&art.pal),
            variants,
            poses,
            seqs,
            fallback: copy_rules(&opts.fallback),
        },
    )
}

/// The code of the first table entry with this id, from `i` on.
pub open spec fn code_in(table: Seq<(String, u16)>, id: Seq<char>, i: nat) -> Option<u16>
    decreases table.len() - i,
{
    if i >= table.len() {
        None
    } else if table[i as int].0@ == id {
        Some(table[i as int].1)
    } else {
        code_in(table, id, i + 1)
    }
}

/// Sprite code for an authoring id, or `None`.
///
/// This is the one string comparison in the system and it is meant to be done once, at load.
pub fn sprite_code_of(table: &Vec<(String, u16)>, id: &str) -> (code: Option<u16>)
    ensures
        code == code_in(table@, id@, 0),
{
    let wanted: String = String::from_str(id);
    let mut i: usize = 0;
    while i < table.len()
        invariant
            i <= table.len(),
            wanted@ == id@,
            code_in(table@, id@, 0) == code_in(table@, id@, i as nat),
        decreases table.len() - i,
    {
        if table[i].0 == wanted {
            return Some(table[i].1);
        }
        i = i + 1;
    }
    None
}

/// A baked sprite with what the renderer holds of it: an image of its strip, and the strip's
/// layout.
#[derive(Clone, Debug)]
pub struct SpriteAtlas<I, L> {
    pub image: I,
    pub layout: L,
    /// The tile tables and the cadence.
    pub baked: BakedSprite,
}

/// Every sprite in a table, indexed by code. A slot is `None` where a sprite is missing, so that
/// no code after it shifts.
#[derive(Clone, Debug)]
pub struct SpriteAtlases<A> {
    by_code: Vec<Option<A>>,
}

/// How many of the first `n` slots are filled.
pub open spec fn filled<A>(slots: Seq<Option<A>>, n: nat) -> nat
    decreases n,
{
    if n == 0 {
        0
    } else {
        filled(slots, (n - 1) as nat) + if slots[n - 1] is Some {
            1nat
        } else {
            0nat
        }
    }
}

impl<A> SpriteAtlases<A> {
    /// The slots, in code order.
    pub closed spec fn slots(&self) -> Seq<Option<A>> {
        self.by_code@
    }

    /// A table of these slots, in code order.
    pub fn new(by_code: Vec<Option<A>>) -> (atlases: SpriteAtlases<A>)
        ensures
            atlases.slots() == by_code@,
    {
        SpriteAtlases { by_code }
    }

    /// The atlas for a sprite code.
    pub fn by_code(&self, code: u16) -> (atlas: Option<&A>)
        ensures
            match atlas {
                Some(a) => code < self.slots().len() && self.slots()[code as int] == Some(*a),
                None => code >= self.slots().len() || self.slots()[code as int] is None,
            },
    {
        if (code as usize) < self.by_code.len() {
            match &self.by_code[code as usize] {
                Some(a) => Some(a),
                None => None,
            }
        } else {
            None
        }
    }

    /// The atlas for an authoring id, or `None` if the table has no such sprite.
    pub fn get(&self, table: &Vec<(String, u16)>, id: &str) -> (atlas: Option<&A>)
        ensures
            match (atlas, code_in(table@, id@, 0)) {
                (Some(a), Some(code)) => code < self.slots().len() && self.slots()[code as int]
                    == Some(*a),
                (None, Some(code)) => code >= self.slots().len() || self.slots()[code as int] is None,
                (Some(_), None) => false,
                (None, None) => true,
            },
    {
        match sprite_code_of(table, id) {
            Some(code) => self.by_code(code),
            None => None,
        }
    }

    /// How many sprites are loaded.
    pub fn count(&self) -> (n: usize)
        ensures
            n == filled(self.slots(), self.slots().len()),
    {
        let mut n: usize = 0;
        let mut i: usize = 0;
        while i < self.by_code.len()
            invariant
                i <= self.by_code.len(),
                n <= i,
                n == filled(self.by_code@, i as nat),
            decreases self.by_code.len() - i,
        {
            if self.by_code[i].is_some() {
                n = n + 1;
            }
            i = i + 1;
        }
        n
    }
}

/// The one axis flip: a rectangle's top-left corner and its extent, with y running down, to its
/// middle, with y running up.
///
/// The top-left is rounded and the half-extents are added afterwards, so an odd extent does not
/// land the edges on half pixels.
pub open spec fn world_middle(left: Number, top: Number, w: Number, h: Number) -> Point {
    let half = num(0x3f00_0000);
    Point {
        x: left.nearest_whole().sum(w.product(half)),
        y: top.nearest_whole().sum(h.product(half)).negated(),
    }
}

/// A rectangle's place in the world. See [`world_middle`].
pub fn world_translation(left: Number, top: Number, w: Number, h: Number) -> (place: Point)
    ensures
        place == world_middle(left, top, w, h),
{
    let half: Number = num(0x3f00_0000);
    Point {
        x: left.round().plus(w.times(half)),
        y: top.round().plus(h.times(half)).minus_self(),
    }
}

/// A sprite is centred on its box: with its top left on a pixel and its size in whole ones, twice its
/// middle is its two edges together, across and, with y running up, down.
pub proof fn law_a_sprite_is_centred_on_its_box(
    left: Number,
    top: Number,
    w: Number,
    h: Number,
    size: (int, int),
)
    requires
        left.magnitude() < 0x4a80_0000,
        top.magnitude() < 0x4a80_0000,
        is_whole(w, size.0),
        is_whole(h, size.1),
        -0x20_0000 < size.0 < 0x20_0000,
        -0x20_0000 < size.1 < 0x20_0000,
    ensures
        is_halves(world_middle(left, top, w, h).x, pixel(left) + (pixel(left) + size.0)),
        is_halves(world_middle(left, top, w, h).y, -(pixel(top) + (pixel(top) + size.1))),
{
    let half = num(0x3f00_0000);
    let (x, y) = (pixel(left), pixel(top));
    law_nearest_is_the_pixel(left);
    law_nearest_is_the_pixel(top);
    lemma_pixel_within(left);
    lemma_pixel_within(top);
    lemma_whole_is_halves(left.nearest_whole(), x);
    lemma_whole_is_halves(top.nearest_whole(), y);
    law_half_of_a_whole_is_exact(w, size.0);
    law_half_of_a_whole_is_exact(h, size.1);
    law_sums_of_halves_are_exact(left.nearest_whole(), w.product(half), 2 * x, size.0);
    law_sums_of_halves_are_exact(top.nearest_whole(), h.product(half), 2 * y, size.1);
    lemma_negated_halves(top.nearest_whole().sum(h.product(half)), 2 * y + size.1);
}

} // verus!
