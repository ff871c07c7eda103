//! The baked sprite: every pose of every variant rasterised once, and the tables that index it.

use vstd::prelude::*;
use vstd::string::*;

use crate::arith::{from_whole, one, whole_number};
use crate::number::{Number, num};
use crate::sprite::bake::{
    Rgb, assemble_strip, bake_frame, byte_at, frame_fault, hex_colour, is_painted,
    law_frame_bakes_when_it_fits, law_strip_holds_every_tile, lemma_byte_at, parse_hex,
    strip_pixels, texel, tile_bytes, tile_pixels, tint_of, tinted, tinted_colour, variant_tint,
};
use crate::sprite::error::{SpriteError, SpriteFault, VARIANT_COUNT};
use crate::sprite::frames::{
    Frame, SeqSpec, SpriteClock, copy_frame, frame_texts, law_frame_is_in_the_sequence, picked,
    pick_frame_index, reading_of, texts,
};
use crate::sprite::ids::{StateId, build_ids, holds_table, id_table, law_ids_follow_the_rules};
use crate::sprite::pose::{POSE_COUNT, PlayMode, Pose, pose_index, pose_name};
use crate::text::{decimal, push_decimal};

verus! {

/// World pixels to a cell, per axis.
pub const CELL_SIZE: u32 = 5;

/// A complete art table for one drawable thing: creature, player, or item icon.
///
/// Content declares geometry, palette, frames and cadence. Tint values and borrowing rules are
/// rendering decisions and are not authored alongside the art.
#[derive(Clone, Debug, PartialEq, Eq)]
pub struct SpriteArt {
    pub cells_w: u32,
    pub cells_h: u32,
    /// Art pixels per world cell, per axis. 1 everywhere except an experiment.
    pub grain: u32,
    /// `"#rrggbb"` per entry. Index 0 is the transparent slot and is never parsed.
    pub pal: Vec<String>,
    /// How many tinted copies to bake. 1 is no variation.
    pub variants: usize,
    /// Dense, in authoring order. `poses[i]` names `seqs[i]`.
    pub poses: Vec<Pose>,
    pub seqs: Vec<SeqSpec>,
    /// State borrowing, such as a creature with no air pose using its walk cycle. Not authored.
    pub fallback: Vec<(Pose, Pose)>,
}

/// The frames of each sequence, as rows of characters.
pub open spec fn seq_texts(seqs: Seq<SeqSpec>) -> Seq<Seq<Seq<Seq<char>>>> {
    Seq::new(seqs.len(), |s: int| frame_texts(seqs[s].frames@))
}

/// The name a frame is reported under.
pub open spec fn frame_name(who: Seq<char>, pose: Pose, f: nat) -> Seq<char> {
    who + "."@ + pose_name(pose) + "["@ + decimal(f) + "]"@
}

fn name_frame(who: &str, pose: Pose, f: usize) -> (out: String)
    ensures
        out@ == frame_name(who@, pose, f as nat),
{
    let mut out: String = String::from_str(who);
    out.append(".");
    out.append(pose.name());
    out.append("[");
    push_decimal(&mut out, f as u64);
    out.append("]");
    out
}

/// The first palette entry, from `i` on, that is not a colour. Entry 0 need not be one.
pub open spec fn palette_fault(pal: Seq<Seq<char>>, who: Seq<char>, i: nat) -> Option<SpriteFault>
    decreases pal.len() - i,
{
    if i >= pal.len() {
        None
    } else if i > 0 && hex_colour(pal[i as int]) is None {
        Some(SpriteFault::Palette { who, entry: pal[i as int] })
    } else {
        palette_fault(pal, who, i + 1)
    }
}

/// The colours of a palette. Entry 0 paints nothing and is black.
pub open spec fn palette(pal: Seq<Seq<char>>) -> Seq<Rgb> {
    Seq::new(
        pal.len(),
        |i: int|
            if i == 0 {
                Rgb { r: 0, g: 0, b: 0 }
            } else {
                hex_colour(pal[i])->0
            },
    )
}

/// A palette through a variant's tilt.
pub open spec fn tinted_palette(base: Seq<Rgb>, variant: int) -> Seq<Rgb> {
    Seq::new(base.len(), |i: int| tinted_colour(base[i], variant_tint(variant)))
}

/// What is wrong with the frames of a sequence, from frame `f` on.
pub open spec fn seq_fault(
    frames: Seq<Seq<Seq<char>>>,
    pose: Pose,
    colours: nat,
    w: nat,
    h: nat,
    who: Seq<char>,
    f: nat,
) -> Option<SpriteFault>
    decreases frames.len() - f,
{
    if f >= frames.len() {
        None
    } else {
        match frame_fault(frames[f as int], colours, w, h, frame_name(who, pose, f)) {
            Some(fault) => Some(fault),
            None => seq_fault(frames, pose, colours, w, h, who, f + 1),
        }
    }
}

/// What is wrong with the frames of the sequences from `s` on.
pub open spec fn bake_fault(
    seqs: Seq<Seq<Seq<Seq<char>>>>,
    poses: Seq<Pose>,
    colours: nat,
    w: nat,
    h: nat,
    who: Seq<char>,
    s: nat,
) -> Option<SpriteFault>
    decreases seqs.len() - s,
{
    if s >= seqs.len() {
        None
    } else {
        match seq_fault(seqs[s as int], poses[s as int], colours, w, h, who, 0) {
            Some(fault) => Some(fault),
            None => bake_fault(seqs, poses, colours, w, h, who, s + 1),
        }
    }
}

impl SpriteArt {
    /// Texel width of a tile.
    pub open spec fn texel_w(&self) -> nat {
        (self.cells_w * self.grain) as nat
    }

    /// Texel height of a tile.
    pub open spec fn texel_h(&self) -> nat {
        (self.cells_h * self.grain) as nat
    }

    /// What is wrong with the art before any frame is looked at.
    pub open spec fn opening_fault(&self, who: Seq<char>) -> Option<SpriteFault> {
        if self.cells_w == 0 || self.cells_h == 0 {
            Some(
                SpriteFault::Grid {
                    who,
                    cells_w: (self.cells_w as i32) as int,
                    cells_h: (self.cells_h as i32) as int,
                },
            )
        } else if self.variants < 1 || self.variants > VARIANT_COUNT {
            Some(SpriteFault::VariantCount { who, asked: self.variants as nat })
        } else {
            match id_table(self.poses@, self.fallback@, who) {
                Err(fault) => Some(fault),
                Ok(_) => palette_fault(texts(self.pal@), who, 0),
            }
        }
    }

    /// Everything that is wrong with the art, in the order it is found.
    pub open spec fn fault(&self, who: Seq<char>) -> Option<SpriteFault> {
        match self.opening_fault(who) {
            Some(fault) => Some(fault),
            None => bake_fault(
                seq_texts(self.seqs@),
                self.poses@,
                self.pal@.len(),
                self.texel_w(),
                self.texel_h(),
                who,
                0,
            ),
        }
    }

    /// The sizes a bake works with fit the integers they are kept in.
    pub open spec fn fits(&self) -> bool {
        sizes_fit(
            self.cells_w as nat,
            self.cells_h as nat,
            self.grain as nat,
            tile_keys(seq_texts(self.seqs@), self.variants as nat).len(),
        )
    }

    /// The sizes that a bake starts with fit: those of a tile, and the number of tiles.
    pub open spec fn starts(&self) -> bool {
        &&& self.texel_w() <= u32::MAX
        &&& self.texel_h() <= u32::MAX
        &&& tile_keys(seq_texts(self.seqs@), self.variants as nat).len() <= u32::MAX
    }

    /// Nothing is found wrong with the art before it turns out to be too large to bake: either a
    /// bake cannot start, or all of it is well formed and does not fit.
    pub open spec fn outgrows(&self, who: Seq<char>) -> bool {
        if self.starts() {
            self.fault(who) is None && !self.fits()
        } else {
            self.opening_fault(who) is None
        }
    }
}

impl SpriteArt {
    /// What a bake starts from: the sequence of each pose, and the palette. The opening faults are
    /// found here.
    fn open_up(&self, who: &str) -> (out: Result<(Vec<Option<StateId>>, Vec<Rgb>), SpriteError>)
        ensures
            match out {
                Ok((ids, base)) => {
                    &&& self.opening_fault(who@) is None
                    &&& id_table(self.poses@, self.fallback@, who@) is Ok
                    &&& holds_table(ids@, id_table(self.poses@, self.fallback@, who@)->Ok_0)
                    &&& self.poses@.len() <= POSE_COUNT
                    &&& base@ == palette(texts(self.pal@))
                },
                Err(e) => self.opening_fault(who@) == Some(e@),
            },
    {
        if self.cells_w == 0 || self.cells_h == 0 {
            return Err(
                SpriteError::Grid {
                    who: String::from_str(who),
                    cells_w: self.cells_w as i32,
                    cells_h: self.cells_h as i32,
                },
            );
        }
        if self.variants < 1 || self.variants > VARIANT_COUNT {
            return Err(
                SpriteError::VariantCount { who: String::from_str(who), asked: self.variants },
            );
        }
        let ids: Vec<Option<StateId>> = match build_ids(&self.poses, &self.fallback, who) {
            Ok(ids) => ids,
            Err(e) => {
                return Err(e);
            },
        };
        match parse_palette(&self.pal, who) {
            Ok(base) => Ok((ids, base)),
            Err(e) => Err(e),
        }
    }

    /// Whether every frame is well formed.
    fn frames_are_sound(&self, base: &Vec<Rgb>, w: u32, h: u32, who: &str) -> (sound: bool)
        requires
            self.poses@.len() == self.seqs@.len(),
        ensures
            sound == (bake_fault(
                seq_texts(self.seqs@),
                self.poses@,
                base@.len(),
                w as nat,
                h as nat,
                who@,
                0,
            ) is None),
    {
        let ghost seqs = seq_texts(self.seqs@);
        let ghost (cols, tw, th) = (base@.len(), w as nat, h as nat);
        let mut s: usize = 0;
        while s < self.seqs.len()
            invariant
                s <= self.seqs@.len(),
                self.poses@.len() == self.seqs@.len(),
                seqs == seq_texts(self.seqs@),
                cols == base@.len(),
                tw == w,
                th == h,
                bake_fault(seqs, self.poses@, cols, tw, th, who@, 0) == bake_fault(
                    seqs,
                    self.poses@,
                    cols,
                    tw,
                    th,
                    who@,
                    s as nat,
                ),
            decreases self.seqs@.len() - s,
        {
            let ghost frames = seqs[s as int];
            let ghost pose = self.poses@[s as int];
            assert(frames == frame_texts(self.seqs@[s as int].frames@));
            let mut f: usize = 0;
            while f < self.seqs[s].frames.len()
                invariant
                    s < self.seqs@.len(),
                    f <= self.seqs@[s as int].frames@.len(),
                    self.poses@.len() == self.seqs@.len(),
                    frames == frame_texts(self.seqs@[s as int].frames@),
                    seqs == seq_texts(self.seqs@),
                    frames == seqs[s as int],
                    pose == self.poses@[s as int],
                    cols == base@.len(),
                    tw == w,
                    th == h,
                    bake_fault(seqs, self.poses@, cols, tw, th, who@, 0) == bake_fault(
                        seqs,
                        self.poses@,
                        cols,
                        tw,
                        th,
                        who@,
                        s as nat,
                    ),
                    seq_fault(frames, pose, cols, tw, th, who@, 0) == seq_fault(
                        frames,
                        pose,
                        cols,
                        tw,
                        th,
                        who@,
                        f as nat,
                    ),
                decreases self.seqs@[s as int].frames@.len() - f,
            {
                assert(frames[f as int] == texts(self.seqs@[s as int].frames@[f as int]@));
                let name: String = name_frame(who, self.poses[s], f);
                if bake_frame(&self.seqs[s].frames[f], base, w, h, name.as_str()).is_err() {
                    return false;
                }
                f = f + 1;
            }
            s = s + 1;
        }
        true
    }

    /// Whether the art is too large to bake. See [`SpriteArt::outgrows`].
    pub fn is_too_large(&self, who: &str) -> (large: bool)
        requires
            self.poses@.len() == self.seqs@.len(),
        ensures
            large == self.outgrows(who@),
    {
        if self.has_room() {
            return false;
        }
        let base: Vec<Rgb> = match self.open_up(who) {
            Ok((_, base)) => base,
            Err(_) => {
                return false;
            },
        };
        let (cw, ch, grain): (u64, u64, u64) = (
            self.cells_w as u64,
            self.cells_h as u64,
            self.grain as u64,
        );
        assert(0 <= cw * grain <= 0xffff_ffff * 0xffff_ffff && 0 <= ch * grain <= 0xffff_ffff
            * 0xffff_ffff) by (nonlinear_arith)
            requires
                0 <= cw <= 0xffff_ffff,
                0 <= ch <= 0xffff_ffff,
                0 <= grain <= 0xffff_ffff,
        ;
        let (w, h): (u64, u64) = (cw * grain, ch * grain);
        let frames: u128 = self.count_frames() as u128;
        proof {
            law_each_variant_bakes_every_frame(seq_texts(self.seqs@), self.variants as nat);
        }
        assert(0 <= self.variants * frames <= VARIANT_COUNT * 0xffff_ffff_ffff_ffff)
            by (nonlinear_arith)
            requires
                0 <= self.variants <= VARIANT_COUNT,
                0 <= frames <= 0xffff_ffff_ffff_ffff,
        ;
        if w > u32::MAX as u64 || h > u32::MAX as u64 || self.variants as u128 * frames
            > u32::MAX as u128 {
            return true;
        }
        self.frames_are_sound(&base, w as u32, h as u32, who)
    }

    /// How many different frames the sequences hold.
    fn count_frames(&self) -> (n: usize)
        ensures
            n == tile_keys(seq_texts(self.seqs@), 1).len(),
    {
        let ghost seqs = seq_texts(self.seqs@);
        let mut found: Vec<(usize, usize)> = Vec::new();
        let mut s: usize = 0;
        proof {
            assert(keys_at(found@, seqs) =~= Seq::<TileKey>::empty());
        }
        while s < self.seqs.len()
            invariant
                s <= self.seqs.len(),
                seqs == seq_texts(self.seqs@),
                are_places(found@, seqs),
                keys_at(found@, seqs) == with_seqs(Seq::empty(), 0, seqs, s as nat),
            decreases self.seqs.len() - s,
        {
            let ghost before = keys_at(found@, seqs);
            let ghost frames = seqs[s as int];
            assert(frames == frame_texts(self.seqs@[s as int].frames@));
            let mut f: usize = 0;
            while f < self.seqs[s].frames.len()
                invariant
                    s < self.seqs.len(),
                    f <= self.seqs@[s as int].frames@.len(),
                    seqs == seq_texts(self.seqs@),
                    frames == seqs[s as int],
                    frames == frame_texts(self.seqs@[s as int].frames@),
                    are_places(found@, seqs),
                    keys_at(found@, seqs) == with_frames(before, 0, frames, f as nat),
                decreases self.seqs@[s as int].frames@.len() - f,
            {
                let ghost keys = keys_at(found@, seqs);
                assert(frames[f as int] == texts(self.seqs@[s as int].frames@[f as int]@));
                if !self.has_found(&found, s, f) {
                    found.push((s, f));
                    assert(keys_at(found@, seqs) =~= keys.push((0, frames[f as int])));
                }
                f = f + 1;
            }
            s = s + 1;
        }
        proof {
            assert(tile_keys(seqs, 0) =~= Seq::<TileKey>::empty());
            assert(tile_keys(seqs, 1) == with_seqs(tile_keys(seqs, 0), 0, seqs, seqs.len()));
        }
        found.len()
    }

    /// Whether a frame is the same as one at these places.
    fn has_found(&self, found: &Vec<(usize, usize)>, s: usize, f: usize) -> (has: bool)
        requires
            s < self.seqs@.len(),
            f < self.seqs@[s as int].frames@.len(),
            are_places(found@, seq_texts(self.seqs@)),
        ensures
            has == keys_at(found@, seq_texts(self.seqs@)).contains(
                (0, seq_texts(self.seqs@)[s as int][f as int]),
            ),
    {
        let ghost seqs = seq_texts(self.seqs@);
        let ghost keys = keys_at(found@, seqs);
        let ghost key: TileKey = (0, seqs[s as int][f as int]);
        assert(key.1 == texts(self.seqs@[s as int].frames@[f as int]@));
        let mut t: usize = 0;
        while t < found.len()
            invariant
                t <= found@.len(),
                s < self.seqs@.len(),
                f < self.seqs@[s as int].frames@.len(),
                seqs == seq_texts(self.seqs@),
                keys == keys_at(found@, seqs),
                are_places(found@, seqs),
                key == (0nat, texts(self.seqs@[s as int].frames@[f as int]@)),
                forall|j: int| 0 <= j < t ==> #[trigger] keys[j] != key,
            decreases found@.len() - t,
        {
            let (ks, kf): (usize, usize) = found[t];
            proof {
                assert(found@[t as int].0 < seqs.len());
                assert(seqs[ks as int] == frame_texts(self.seqs@[ks as int].frames@));
                assert(keys[t as int] == (
                    0nat,
                    texts(self.seqs@[ks as int].frames@[kf as int]@),
                ));
            }
            if same_frame(&self.seqs[ks].frames[kf], &self.seqs[s].frames[f]) {
                return true;
            }
            t = t + 1;
        }
        false
    }

    /// Whether the art can be baked without any size overflowing.
    pub fn has_room(&self) -> (ok: bool)
        ensures
            ok == self.fits(),
    {
        let frames: u128 = self.count_frames() as u128;
        let n: u128 = self.variants as u128;
        proof {
            law_each_variant_bakes_every_frame(seq_texts(self.seqs@), self.variants as nat);
        }
        assert(0 <= n * frames <= 0xffff_ffff_ffff_ffff * 0xffff_ffff_ffff_ffff)
            by (nonlinear_arith)
            requires
                0 <= n <= 0xffff_ffff_ffff_ffff,
                0 <= frames <= 0xffff_ffff_ffff_ffff,
        ;
        let tiles: u128 = n * frames;
        if tiles > u32::MAX as u128 {
            return false;
        }
        let (cw, ch, grain): (u128, u128, u128) = (
            self.cells_w as u128,
            self.cells_h as u128,
            self.grain as u128,
        );
        assert(0 <= cw * grain <= 0xffff_ffff * 0xffff_ffff && 0 <= ch * grain <= 0xffff_ffff
            * 0xffff_ffff) by (nonlinear_arith)
            requires
                0 <= cw <= 0xffff_ffff,
                0 <= ch <= 0xffff_ffff,
                0 <= grain <= 0xffff_ffff,
        ;
        let w: u128 = cw * grain;
        let h: u128 = ch * grain;
        assert(CELL_SIZE == 5);
        if cw * 5 > u32::MAX as u128 || ch * 5 > u32::MAX as u128 || w > u32::MAX as u128 || h > u32::MAX as u128 {
            return false;
        }
        assert(0 <= w * h <= 0xffff_ffff * 0xffff_ffff && 0 <= w * tiles <= 0xffff_ffff
            * 0xffff_ffff) by (nonlinear_arith)
            requires
                0 <= w <= 0xffff_ffff,
                0 <= h <= 0xffff_ffff,
                0 <= tiles <= 0xffff_ffff,
        ;
        let across: u128 = w * tiles;
        assert(0 <= across * h <= 0xffff_ffff * 0xffff_ffff * 0xffff_ffff) by (nonlinear_arith)
            requires
                0 <= across <= 0xffff_ffff * 0xffff_ffff,
                0 <= h <= 0xffff_ffff,
        ;
        w * h * 4 <= u32::MAX as u128 && across <= usize::MAX as u128 && across * h * 4
            <= usize::MAX as u128
    }
}

/// The sizes of a bake of `tiles` tiles fit the integers they are kept in.
pub open spec fn sizes_fit(cells_w: nat, cells_h: nat, grain: nat, tiles: nat) -> bool {
    &&& cells_w * CELL_SIZE <= u32::MAX
    &&& cells_h * CELL_SIZE <= u32::MAX
    &&& cells_w * grain <= u32::MAX
    &&& cells_h * grain <= u32::MAX
    &&& cells_w * grain * (cells_h * grain) * 4 <= u32::MAX
    &&& tiles <= u32::MAX
    &&& cells_w * grain * tiles <= usize::MAX
    &&& cells_w * grain * tiles * (cells_h * grain) * 4 <= usize::MAX
}

/// How many frames the first `n` sequences hold.
pub open spec fn frame_total(seqs: Seq<Seq<Seq<Seq<char>>>>, n: nat) -> nat
    decreases n,
{
    if n == 0 {
        0
    } else {
        frame_total(seqs, (n - 1) as nat) + seqs[n - 1].len()
    }
}

/// What a tile is baked from: which variant, and the frame's own text.
pub type TileKey = (nat, Seq<Seq<char>>);

/// The tiles once `frame` of variant `v` has one: a frame that is already there is not baked
/// again.
pub open spec fn with_frame(keys: Seq<TileKey>, v: nat, frame: Seq<Seq<char>>) -> Seq<TileKey> {
    if keys.contains((v, frame)) {
        keys
    } else {
        keys.push((v, frame))
    }
}

/// The tiles once the first `n` frames of a sequence have one each.
pub open spec fn with_frames(
    keys: Seq<TileKey>,
    v: nat,
    frames: Seq<Seq<Seq<char>>>,
    n: nat,
) -> Seq<TileKey>
    decreases n,
{
    if n == 0 {
        keys
    } else {
        with_frame(with_frames(keys, v, frames, (n - 1) as nat), v, frames[n - 1])
    }
}

/// The tiles once the first `n` sequences of variant `v` are baked.
pub open spec fn with_seqs(
    keys: Seq<TileKey>,
    v: nat,
    seqs: Seq<Seq<Seq<Seq<char>>>>,
    n: nat,
) -> Seq<TileKey>
    decreases n,
{
    if n == 0 {
        keys
    } else {
        with_frames(
            with_seqs(keys, v, seqs, (n - 1) as nat),
            v,
            seqs[n - 1],
            seqs[n - 1].len(),
        )
    }
}

/// The tiles of the first `variants` variants, in the order they are baked: one for each
/// distinct frame of each variant, numbered where it first appears.
pub open spec fn tile_keys(seqs: Seq<Seq<Seq<Seq<char>>>>, variants: nat) -> Seq<TileKey>
    decreases variants,
{
    if variants == 0 {
        Seq::empty()
    } else {
        with_seqs(
            tile_keys(seqs, (variants - 1) as nat),
            (variants - 1) as nat,
            seqs,
            seqs.len(),
        )
    }
}

/// The pixels each tile is baked to.
pub open spec fn baked_tiles(keys: Seq<TileKey>, base: Seq<Rgb>, w: nat, h: nat) -> Seq<Seq<u8>> {
    Seq::new(
        keys.len(),
        |t: int| tile_pixels(keys[t].1, tinted_palette(base, keys[t].0 as int), w, h),
    )
}

proof fn lemma_with_frames(keys: Seq<TileKey>, v: nat, frames: Seq<Seq<Seq<char>>>, n: nat)
    requires
        n <= frames.len(),
        keys.no_duplicates(),
    ensures
        with_frames(keys, v, frames, n).no_duplicates(),
        keys.is_prefix_of(with_frames(keys, v, frames, n)),
        forall|k: TileKey| #[trigger]
            with_frames(keys, v, frames, n).contains(k) <==> keys.contains(k) || (k.0 == v && exists|
                f: int,
            |
                0 <= f < n && #[trigger] frames[f] == k.1),
    decreases n,
{
    if n > 0 {
        lemma_with_frames(keys, v, frames, (n - 1) as nat);
        let before = with_frames(keys, v, frames, (n - 1) as nat);
        let now = with_frames(keys, v, frames, n);
        let added = (v, frames[n - 1]);
        assert forall|k: TileKey| #[trigger] now.contains(k) <==> before.contains(k) || k == added by {
            if before.contains(k) {
                let i = before.index_of(k);
                assert(now[i] == k);
            }
            if k == added && !before.contains(added) {
                assert(now[before.len() as int] == k);
            }
            if now.contains(k) {
                let i = now.index_of(k);
                if i < before.len() {
                    assert(before[i] == k);
                }
            }
        }
        assert forall|k: TileKey| #[trigger] now.contains(k) <==> keys.contains(k) || (k.0 == v
            && exists|f: int| 0 <= f < n && #[trigger] frames[f] == k.1) by {
            if k == added {
                assert(frames[n - 1] == k.1);
            }
        }
    }
}

proof fn lemma_with_seqs(keys: Seq<TileKey>, v: nat, seqs: Seq<Seq<Seq<Seq<char>>>>, n: nat)
    requires
        n <= seqs.len(),
        keys.no_duplicates(),
    ensures
        with_seqs(keys, v, seqs, n).no_duplicates(),
        keys.is_prefix_of(with_seqs(keys, v, seqs, n)),
        forall|k: TileKey| #[trigger]
            with_seqs(keys, v, seqs, n).contains(k) <==> keys.contains(k) || (k.0 == v && has_frame(
                seqs,
                n,
                k.1,
            )),
    decreases n,
{
    if n > 0 {
        lemma_with_seqs(keys, v, seqs, (n - 1) as nat);
        let before = with_seqs(keys, v, seqs, (n - 1) as nat);
        let frames = seqs[n - 1];
        lemma_with_frames(before, v, frames, frames.len());
        let now = with_seqs(keys, v, seqs, n);
        assert forall|k: TileKey| #[trigger] now.contains(k) <==> keys.contains(k) || (k.0 == v
            && has_frame(seqs, n, k.1)) by {
            if has_frame(seqs, (n - 1) as nat, k.1) {
                let (s, f) = choose|s: int, f: int|
                    0 <= s < n - 1 && 0 <= f < seqs[s].len() && #[trigger] seqs[s][f] == k.1;
                assert(seqs[s][f] == k.1);
            }
            if exists|f: int| 0 <= f < frames.len() && #[trigger] frames[f] == k.1 {
                let f = choose|f: int| 0 <= f < frames.len() && #[trigger] frames[f] == k.1;
                assert(seqs[n - 1][f] == k.1);
            }
            if has_frame(seqs, n, k.1) && !has_frame(seqs, (n - 1) as nat, k.1) {
                let (s, f) = choose|s: int, f: int|
                    0 <= s < n && 0 <= f < seqs[s].len() && #[trigger] seqs[s][f] == k.1;
                assert(s == n - 1);
                assert(frames[f] == k.1);
            }
        }
    }
}

/// Whether one of the first `n` sequences holds `frame`.
pub open spec fn has_frame(seqs: Seq<Seq<Seq<Seq<char>>>>, n: nat, frame: Seq<Seq<char>>) -> bool {
    exists|s: int, f: int| 0 <= s < n && 0 <= f < seqs[s].len() && #[trigger] seqs[s][f] == frame
}

/// A pose repeated across sequences bakes once, and two tints of it are two bitmaps: there is one
/// tile for each variant of each distinct frame, and no other tile.
pub proof fn law_each_frame_bakes_once(seqs: Seq<Seq<Seq<Seq<char>>>>, variants: nat)
    ensures
        tile_keys(seqs, variants).no_duplicates(),
        forall|k: TileKey| #[trigger]
            tile_keys(seqs, variants).contains(k) <==> k.0 < variants && has_frame(
                seqs,
                seqs.len(),
                k.1,
            ),
    decreases variants,
{
    if variants > 0 {
        law_each_frame_bakes_once(seqs, (variants - 1) as nat);
        let before = tile_keys(seqs, (variants - 1) as nat);
        lemma_with_seqs(before, (variants - 1) as nat, seqs, seqs.len());
    }
}

proof fn lemma_frames_len(
    keys: Seq<TileKey>,
    v: nat,
    frames: Seq<Seq<Seq<char>>>,
    n: nat,
    m: nat,
)
    requires
        n <= m,
    ensures
        with_frames(keys, v, frames, n).len() <= with_frames(keys, v, frames, m).len(),
    decreases m,
{
    if n < m {
        lemma_frames_len(keys, v, frames, n, (m - 1) as nat);
    }
}

proof fn lemma_seqs_len(
    keys: Seq<TileKey>,
    v: nat,
    seqs: Seq<Seq<Seq<Seq<char>>>>,
    n: nat,
    m: nat,
)
    requires
        n <= m,
    ensures
        with_seqs(keys, v, seqs, n).len() <= with_seqs(keys, v, seqs, m).len(),
    decreases m,
{
    if n < m {
        lemma_seqs_len(keys, v, seqs, n, (m - 1) as nat);
        lemma_frames_len(
            with_seqs(keys, v, seqs, (m - 1) as nat),
            v,
            seqs[m - 1],
            0,
            seqs[m - 1].len(),
        );
    }
}

proof fn lemma_keys_len(seqs: Seq<Seq<Seq<Seq<char>>>>, n: nat, m: nat)
    requires
        n <= m,
    ensures
        tile_keys(seqs, n).len() <= tile_keys(seqs, m).len(),
    decreases m,
{
    if n < m {
        lemma_keys_len(seqs, n, (m - 1) as nat);
        lemma_seqs_len(
            tile_keys(seqs, (m - 1) as nat),
            (m - 1) as nat,
            seqs,
            0,
            seqs.len(),
        );
    }
}

proof fn lemma_frames_bound(keys: Seq<TileKey>, v: nat, frames: Seq<Seq<Seq<char>>>, n: nat)
    ensures
        with_frames(keys, v, frames, n).len() <= keys.len() + n,
    decreases n,
{
    if n > 0 {
        lemma_frames_bound(keys, v, frames, (n - 1) as nat);
    }
}

proof fn lemma_seqs_bound(keys: Seq<TileKey>, v: nat, seqs: Seq<Seq<Seq<Seq<char>>>>, n: nat)
    ensures
        with_seqs(keys, v, seqs, n).len() <= keys.len() + frame_total(seqs, n),
    decreases n,
{
    if n > 0 {
        lemma_seqs_bound(keys, v, seqs, (n - 1) as nat);
        lemma_frames_bound(
            with_seqs(keys, v, seqs, (n - 1) as nat),
            v,
            seqs[n - 1],
            seqs[n - 1].len(),
        );
    }
}

/// There are never more tiles than frames to bake, times the variants they are baked in.
pub proof fn law_tiles_are_at_most_frames(seqs: Seq<Seq<Seq<Seq<char>>>>, variants: nat)
    ensures
        tile_keys(seqs, variants).len() <= variants * frame_total(seqs, seqs.len()),
    decreases variants,
{
    let each = frame_total(seqs, seqs.len());
    if variants > 0 {
        law_tiles_are_at_most_frames(seqs, (variants - 1) as nat);
        lemma_seqs_bound(
            tile_keys(seqs, (variants - 1) as nat),
            (variants - 1) as nat,
            seqs,
            seqs.len(),
        );
        assert(variants * each == (variants - 1) * each + each) by (nonlinear_arith);
    }
}

/// The tiles of one more variant, beside those of the first by itself.
spec fn is_beside(all: Seq<TileKey>, before: Seq<TileKey>, own: Seq<TileKey>, v: nat) -> bool {
    &&& all.len() == before.len() + own.len()
    &&& forall|j: int| 0 <= j < before.len() ==> #[trigger] all[j] == before[j]
    &&& forall|j: int|
        0 <= j < own.len() ==> (#[trigger] own[j]).0 == 0 && all[before.len() + j] == (v, own[j].1)
}

proof fn lemma_frame_beside(
    all: Seq<TileKey>,
    before: Seq<TileKey>,
    own: Seq<TileKey>,
    v: nat,
    frame: Seq<Seq<char>>,
)
    requires
        is_beside(all, before, own, v),
        forall|j: int| 0 <= j < before.len() ==> (#[trigger] before[j]).0 != v,
    ensures
        is_beside(with_frame(all, v, frame), before, with_frame(own, 0, frame), v),
{
    if all.contains((v, frame)) {
        let j = all.index_of((v, frame));
        if j < before.len() {
            assert(before[j].0 != v);
        } else {
            assert(own[j - before.len()].1 == frame);
        }
        assert(own.contains((0, frame)));
    }
    if own.contains((0, frame)) {
        let j = own.index_of((0, frame));
        assert(all[before.len() + j] == (v, own[j].1));
        assert(all.contains((v, frame)));
    }
}

proof fn lemma_frames_beside(
    all: Seq<TileKey>,
    before: Seq<TileKey>,
    own: Seq<TileKey>,
    v: nat,
    frames: Seq<Seq<Seq<char>>>,
    n: nat,
)
    requires
        is_beside(all, before, own, v),
        forall|j: int| 0 <= j < before.len() ==> (#[trigger] before[j]).0 != v,
    ensures
        is_beside(with_frames(all, v, frames, n), before, with_frames(own, 0, frames, n), v),
    decreases n,
{
    if n > 0 {
        lemma_frames_beside(all, before, own, v, frames, (n - 1) as nat);
        lemma_frame_beside(
            with_frames(all, v, frames, (n - 1) as nat),
            before,
            with_frames(own, 0, frames, (n - 1) as nat),
            v,
            frames[n - 1],
        );
    }
}

proof fn lemma_seqs_beside(before: Seq<TileKey>, v: nat, seqs: Seq<Seq<Seq<Seq<char>>>>, n: nat)
    requires
        forall|j: int| 0 <= j < before.len() ==> (#[trigger] before[j]).0 != v,
    ensures
        is_beside(
            with_seqs(before, v, seqs, n),
            before,
            with_seqs(Seq::empty(), 0, seqs, n),
            v,
        ),
    decreases n,
{
    if n > 0 {
        lemma_seqs_beside(before, v, seqs, (n - 1) as nat);
        lemma_frames_beside(
            with_seqs(before, v, seqs, (n - 1) as nat),
            before,
            with_seqs(Seq::empty(), 0, seqs, (n - 1) as nat),
            v,
            seqs[n - 1],
            seqs[n - 1].len(),
        );
    }
}

/// Every variant bakes as many tiles as the first: one for each different frame.
pub proof fn law_each_variant_bakes_every_frame(seqs: Seq<Seq<Seq<Seq<char>>>>, variants: nat)
    ensures
        tile_keys(seqs, variants).len() == variants * tile_keys(seqs, 1).len(),
    decreases variants,
{
    let each = tile_keys(seqs, 1).len();
    if variants == 0 {
        assert(0 * each == 0) by (nonlinear_arith);
    } else {
        let v = (variants - 1) as nat;
        let before = tile_keys(seqs, v);
        law_each_variant_bakes_every_frame(seqs, v);
        law_each_frame_bakes_once(seqs, v);
        assert forall|j: int| 0 <= j < before.len() implies (#[trigger] before[j]).0 != v by {
            assert(before.contains(before[j]));
        }
        lemma_seqs_beside(before, v, seqs, seqs.len());
        assert(tile_keys(seqs, 0) =~= Seq::<TileKey>::empty());
        assert(tile_keys(seqs, 1) == with_seqs(tile_keys(seqs, 0), 0, seqs, seqs.len()));
        assert(variants * each == v * each + each) by (nonlinear_arith)
            requires
                variants == v + 1,
        ;
    }
}

/// Whether these are places of frames.
spec fn are_places(found: Seq<(usize, usize)>, seqs: Seq<Seq<Seq<Seq<char>>>>) -> bool {
    forall|t: int|
        0 <= t < found.len() ==> (#[trigger] found[t]).0 < seqs.len() && found[t].1
            < seqs[found[t].0 as int].len()
}

/// The frames at these places, of the first variant.
spec fn keys_at(found: Seq<(usize, usize)>, seqs: Seq<Seq<Seq<Seq<char>>>>) -> Seq<TileKey> {
    Seq::new(found.len(), |t: int| (0nat, seqs[found[t].0 as int][found[t].1 as int]))
}

/// What is drawn is the authored art: the texel in column `x` and row `y` of a tile is the
/// character its frame has there, in the colours of its variant.
pub proof fn law_strip_shows_the_art(
    keys: Seq<TileKey>,
    base: Seq<Rgb>,
    w: nat,
    h: nat,
    t: int,
    x: int,
    y: int,
    channel: int,
)
    requires
        0 <= t < keys.len(),
        0 <= x < w,
        0 <= y < h,
        0 <= channel < 4,
    ensures
        strip_pixels(baked_tiles(keys, base, w, h), w, h)[byte_at(
            t * w + x,
            y,
            (w * keys.len()) as int,
            channel,
        )] == texel(keys[t].1[y][x], tinted_palette(base, keys[t].0 as int), channel),
{
    law_strip_holds_every_tile(baked_tiles(keys, base, w, h), w, h, t, x, y, channel);
    lemma_byte_at(x, y, w as int, h as int, channel);
}

/// Whether two frames are the same text.
fn same_frame(a: &Frame, b: &Frame) -> (same: bool)
    ensures
        same == (texts(a@) == texts(b@)),
{
    if a.len() != b.len() {
        assert(texts(a@).len() != texts(b@).len());
        return false;
    }
    let mut i: usize = 0;
    while i < a.len()
        invariant
            i <= a.len(),
            a.len() == b.len(),
            forall|j: int| 0 <= j < i ==> (#[trigger] a@[j])@ == b@[j]@,
        decreases a.len() - i,
    {
        if a[i] != b[i] {
            assert(texts(a@)[i as int] != texts(b@)[i as int]);
            return false;
        }
        i = i + 1;
    }
    assert(texts(a@) =~= texts(b@));
    true
}

/// The tiles baked so far, and where each one came from.
struct Bakery {
    /// Variant, sequence and frame of each tile's first appearance.
    keys: Vec<(usize, usize, usize)>,
    tiles: Vec<Vec<u8>>,
}

/// What stays fixed during a bake.
ghost struct Oven {
    seqs: Seq<Seq<Seq<Seq<char>>>>,
    base: Seq<Rgb>,
    w: nat,
    h: nat,
}

impl Bakery {
    /// The tiles' keys, with each frame as its text.
    spec fn view(&self, seqs: Seq<Seq<Seq<Seq<char>>>>) -> Seq<TileKey> {
        Seq::new(
            self.keys@.len(),
            |t: int|
                (
                    self.keys@[t].0 as nat,
                    seqs[self.keys@[t].1 as int][self.keys@[t].2 as int],
                ),
        )
    }

    /// Every tile holds the pixels of its key, and every key's frame fits the grid.
    spec fn wf(&self, oven: Oven) -> bool {
        let keys = self.view(oven.seqs);
        &&& self.tiles@.len() == self.keys@.len()
        &&& forall|t: int|
            0 <= t < self.keys@.len() ==> {
                &&& (#[trigger] self.keys@[t]).1 < oven.seqs.len()
                &&& self.keys@[t].2 < oven.seqs[self.keys@[t].1 as int].len()
            }
        &&& forall|t: int|
            0 <= t < keys.len() ==> {
                &&& (#[trigger] keys[t]).1.len() == oven.h
                &&& is_painted(keys[t].1, oven.base.len(), oven.w, 0)
            }
        &&& tile_bytes(self.tiles@) == baked_tiles(keys, oven.base, oven.w, oven.h)
    }

    /// The tile of a frame that has been baked for this variant.
    fn find(&self, art: &SpriteArt, v: usize, frame: &Frame, oven: Ghost<Oven>) -> (at: Option<
        usize,
    >)
        requires
            self.wf(oven@),
            oven@.seqs == seq_texts(art.seqs@),
        ensures
            match at {
                Some(t) => t < self.keys@.len() && self.view(oven@.seqs)[t as int] == (
                    v as nat,
                    texts(frame@),
                ),
                None => !self.view(oven@.seqs).contains((v as nat, texts(frame@))),
            },
    {
        let ghost keys = self.view(oven@.seqs);
        let ghost key = (v as nat, texts(frame@));
        let mut t: usize = 0;
        while t < self.keys.len()
            invariant
                t <= self.keys.len(),
                self.wf(oven@),
                oven@.seqs == seq_texts(art.seqs@),
                keys == self.view(oven@.seqs),
                key == (v as nat, texts(frame@)),
                forall|j: int| 0 <= j < t ==> #[trigger] keys[j] != key,
            decreases self.keys.len() - t,
        {
            let (kv, ks, kf): (usize, usize, usize) = self.keys[t];
            proof {
                assert(self.keys@[t as int].1 < oven@.seqs.len());
                assert(oven@.seqs[ks as int] == frame_texts(art.seqs@[ks as int].frames@));
                assert(keys[t as int] == (
                    kv as nat,
                    texts(art.seqs@[ks as int].frames@[kf as int]@),
                ));
            }
            if kv == v && same_frame(&art.seqs[ks].frames[kf], frame) {
                return Some(t);
            }
            t = t + 1;
        }
        None
    }

    /// The tile of one frame, baked now unless it already was.
    fn tile_for(
        &mut self,
        art: &SpriteArt,
        pal: &Vec<Rgb>,
        v: usize,
        s: usize,
        f: usize,
        w: u32,
        h: u32,
        who: &str,
        oven: Ghost<Oven>,
    ) -> (out: Result<u32, SpriteError>)
        requires
            old(self).wf(oven@),
            oven@.seqs == seq_texts(art.seqs@),
            oven@.w == w,
            oven@.h == h,
            art.poses@.len() == art.seqs@.len(),
            s < art.seqs@.len(),
            f < art.seqs@[s as int].frames@.len(),
            pal@ == tinted_palette(oven@.base, v as int),
            with_frame(old(self).view(oven@.seqs), v as nat, oven@.seqs[s as int][f as int]).len()
                <= u32::MAX,
        ensures
            match out {
                Ok(t) => {
                    let frame = oven@.seqs[s as int][f as int];
                    &&& final(self).wf(oven@)
                    &&& final(self).view(oven@.seqs) == with_frame(
                        old(self).view(oven@.seqs),
                        v as nat,
                        frame,
                    )
                    &&& t < final(self).view(oven@.seqs).len()
                    &&& final(self).view(oven@.seqs)[t as int] == (v as nat, frame)
                    &&& frame_fault(
                        frame,
                        oven@.base.len(),
                        w as nat,
                        h as nat,
                        frame_name(who@, art.poses@[s as int], f as nat),
                    ) is None
                },
                Err(e) => frame_fault(
                    oven@.seqs[s as int][f as int],
                    oven@.base.len(),
                    w as nat,
                    h as nat,
                    frame_name(who@, art.poses@[s as int], f as nat),
                ) == Some(e@),
            },
    {
        let ghost keys = self.view(oven@.seqs);
        let ghost frame = oven@.seqs[s as int][f as int];
        proof {
            assert(oven@.seqs[s as int] == frame_texts(art.seqs@[s as int].frames@));
            assert(frame == texts(art.seqs@[s as int].frames@[f as int]@));
        }
        if let Some(t) = self.find(art, v, &art.seqs[s].frames[f], oven) {
            proof {
                assert(keys[t as int] == (v as nat, frame));
                assert(keys.contains((v as nat, frame)));
                assert(is_painted(keys[t as int].1, oven@.base.len(), oven@.w, 0));
                law_frame_bakes_when_it_fits(
                    frame,
                    oven@.base.len(),
                    w as nat,
                    h as nat,
                    frame_name(who@, art.poses@[s as int], f as nat),
                );
            }
            return Ok(t as u32);
        }
        let name: String = name_frame(who, art.poses[s], f);
        let px: Vec<u8> = match bake_frame(&art.seqs[s].frames[f], pal, w, h, name.as_str()) {
            Ok(px) => px,
            Err(e) => {
                return Err(e);
            },
        };
        let t: u32 = self.tiles.len() as u32;
        let ghost before = *self;
        self.tiles.push(px);
        self.keys.push((v, s, f));
        proof {
            law_frame_bakes_when_it_fits(frame, oven@.base.len(), w as nat, h as nat, name@);
            let now = self.view(oven@.seqs);
            assert(now =~= keys.push((v as nat, frame)));
            assert forall|j: int| 0 <= j < now.len() implies {
                &&& (#[trigger] now[j]).1.len() == oven@.h
                &&& is_painted(now[j].1, oven@.base.len(), oven@.w, 0)
            } by {
                if j < keys.len() {
                    assert(now[j] == keys[j]);
                }
            }
            assert forall|j: int| 0 <= j < self.keys@.len() implies {
                &&& (#[trigger] self.keys@[j]).1 < oven@.seqs.len()
                &&& self.keys@[j].2 < oven@.seqs[self.keys@[j].1 as int].len()
            } by {
                if j < keys.len() {
                    assert(self.keys@[j] == before.keys@[j]);
                }
            }
            assert(tile_bytes(self.tiles@) =~= baked_tiles(now, oven@.base, oven@.w, oven@.h)) by {
                let tiles = tile_bytes(self.tiles@);
                let want = baked_tiles(now, oven@.base, oven@.w, oven@.h);
                assert forall|j: int| 0 <= j < tiles.len() implies tiles[j] == want[j] by {
                    if j < keys.len() {
                        assert(tiles[j] == tile_bytes(before.tiles@)[j]);
                        assert(want[j] == baked_tiles(keys, oven@.base, oven@.w, oven@.h)[j]);
                    }
                }
            }
        }
        Ok(t)
    }

    /// The tiles of one sequence's frames.
    fn bake_seq(
        &mut self,
        art: &SpriteArt,
        pal: &Vec<Rgb>,
        v: usize,
        s: usize,
        w: u32,
        h: u32,
        who: &str,
        oven: Ghost<Oven>,
    ) -> (out: Result<Vec<u32>, SpriteError>)
        requires
            old(self).wf(oven@),
            old(self).view(oven@.seqs).no_duplicates(),
            oven@.seqs == seq_texts(art.seqs@),
            oven@.w == w,
            oven@.h == h,
            art.poses@.len() == art.seqs@.len(),
            s < art.seqs@.len(),
            pal@ == tinted_palette(oven@.base, v as int),
            with_frames(
                old(self).view(oven@.seqs),
                v as nat,
                oven@.seqs[s as int],
                oven@.seqs[s as int].len(),
            ).len() <= u32::MAX,
        ensures
            match out {
                Ok(row) => {
                    let frames = oven@.seqs[s as int];
                    let keys = final(self).view(oven@.seqs);
                    &&& final(self).wf(oven@)
                    &&& keys == with_frames(old(self).view(oven@.seqs), v as nat, frames, frames.len())
                    &&& row@.len() == frames.len()
                    &&& forall|f: int|
                        0 <= f < frames.len() ==> (#[trigger] row@[f]) < keys.len() && keys[row@[f] as int]
                            == (v as nat, frames[f])
                    &&& seq_fault(
                        frames,
                        art.poses@[s as int],
                        oven@.base.len(),
                        w as nat,
                        h as nat,
                        who@,
                        0,
                    ) is None
                },
                Err(e) => seq_fault(
                    oven@.seqs[s as int],
                    art.poses@[s as int],
                    oven@.base.len(),
                    w as nat,
                    h as nat,
                    who@,
                    0,
                ) == Some(e@),
            },
    {
        let ghost start = self.view(oven@.seqs);
        let ghost frames = oven@.seqs[s as int];
        let ghost pose = art.poses@[s as int];
        let mut row: Vec<u32> = Vec::new();
        let mut f: usize = 0;
        proof {
            assert(frames == frame_texts(art.seqs@[s as int].frames@));
        }
        while f < art.seqs[s].frames.len()
            invariant
                f <= art.seqs@[s as int].frames@.len(),
                self.wf(oven@),
                start.no_duplicates(),
                oven@.seqs == seq_texts(art.seqs@),
                oven@.w == w,
                oven@.h == h,
                art.poses@.len() == art.seqs@.len(),
                s < art.seqs@.len(),
                pal@ == tinted_palette(oven@.base, v as int),
                frames == oven@.seqs[s as int],
                frames.len() == art.seqs@[s as int].frames@.len(),
                pose == art.poses@[s as int],
                with_frames(start, v as nat, frames, frames.len()).len() <= u32::MAX,
                self.view(oven@.seqs) == with_frames(start, v as nat, frames, f as nat),
                row@.len() == f,
                forall|j: int|
                    0 <= j < f ==> (#[trigger] row@[j]) < self.view(oven@.seqs).len() && self.view(
                        oven@.seqs,
                    )[row@[j] as int] == (v as nat, frames[j]),
                seq_fault(frames, pose, oven@.base.len(), w as nat, h as nat, who@, 0)
                    == seq_fault(frames, pose, oven@.base.len(), w as nat, h as nat, who@, f as nat),
            decreases art.seqs@[s as int].frames@.len() - f,
        {
            let ghost before = self.view(oven@.seqs);
            let ghost row_before = row@;
            proof {
                lemma_frames_len(start, v as nat, frames, f as nat + 1, frames.len());
            }
            match self.tile_for(art, pal, v, s, f, w, h, who, oven) {
                Ok(t) => {
                    row.push(t);
                },
                Err(e) => {
                    return Err(e);
                },
            }
            proof {
                let now = self.view(oven@.seqs);
                assert(now == with_frames(start, v as nat, frames, f as nat + 1));
                assert(before.is_prefix_of(now));
                assert forall|j: int| 0 <= j < f + 1 implies (#[trigger] row@[j]) < now.len()
                    && now[row@[j] as int] == (v as nat, frames[j]) by {
                    if j < f {
                        assert(row@[j] == row_before[j]);
                        assert(now[row@[j] as int] == before[row@[j] as int]);
                    }
                }
            }
            f = f + 1;
        }
        Ok(row)
    }

    /// The tiles of every sequence, through one variant's palette.
    fn bake_variant(
        &mut self,
        art: &SpriteArt,
        pal: &Vec<Rgb>,
        v: usize,
        w: u32,
        h: u32,
        who: &str,
        oven: Ghost<Oven>,
    ) -> (out: Result<Vec<Vec<u32>>, SpriteError>)
        requires
            old(self).wf(oven@),
            old(self).view(oven@.seqs).no_duplicates(),
            oven@.seqs == seq_texts(art.seqs@),
            oven@.w == w,
            oven@.h == h,
            art.poses@.len() == art.seqs@.len(),
            pal@ == tinted_palette(oven@.base, v as int),
            with_seqs(old(self).view(oven@.seqs), v as nat, oven@.seqs, oven@.seqs.len()).len()
                <= u32::MAX,
        ensures
            match out {
                Ok(grid) => {
                    let keys = final(self).view(oven@.seqs);
                    &&& final(self).wf(oven@)
                    &&& keys == with_seqs(
                        old(self).view(oven@.seqs),
                        v as nat,
                        oven@.seqs,
                        oven@.seqs.len(),
                    )
                    &&& names_tiles(grid@, keys, v as nat, oven@.seqs, oven@.seqs.len())
                    &&& bake_fault(
                        oven@.seqs,
                        art.poses@,
                        oven@.base.len(),
                        w as nat,
                        h as nat,
                        who@,
                        0,
                    ) is None
                },
                Err(e) => bake_fault(
                    oven@.seqs,
                    art.poses@,
                    oven@.base.len(),
                    w as nat,
                    h as nat,
                    who@,
                    0,
                ) == Some(e@),
            },
    {
        let ghost start = self.view(oven@.seqs);
        let ghost seqs = oven@.seqs;
        let mut grid: Vec<Vec<u32>> = Vec::new();
        let mut s: usize = 0;
        while s < art.seqs.len()
            invariant
                s <= art.seqs@.len(),
                self.wf(oven@),
                start.no_duplicates(),
                self.view(oven@.seqs).no_duplicates(),
                seqs == oven@.seqs,
                oven@.seqs == seq_texts(art.seqs@),
                oven@.w == w,
                oven@.h == h,
                art.poses@.len() == art.seqs@.len(),
                pal@ == tinted_palette(oven@.base, v as int),
                with_seqs(start, v as nat, seqs, seqs.len()).len() <= u32::MAX,
                self.view(oven@.seqs) == with_seqs(start, v as nat, seqs, s as nat),
                names_tiles(grid@, self.view(oven@.seqs), v as nat, seqs, s as nat),
                bake_fault(seqs, art.poses@, oven@.base.len(), w as nat, h as nat, who@, 0)
                    == bake_fault(
                    seqs,
                    art.poses@,
                    oven@.base.len(),
                    w as nat,
                    h as nat,
                    who@,
                    s as nat,
                ),
            decreases art.seqs@.len() - s,
        {
            let ghost before = self.view(oven@.seqs);
            let ghost grid_before = grid@;
            proof {
                lemma_seqs_len(start, v as nat, seqs, s as nat + 1, seqs.len());
                lemma_with_frames(before, v as nat, seqs[s as int], seqs[s as int].len());
            }
            match self.bake_seq(art, pal, v, s, w, h, who, oven) {
                Ok(row) => {
                    grid.push(row);
                },
                Err(e) => {
                    return Err(e);
                },
            }
            proof {
                let now = self.view(oven@.seqs);
                assert(names_tiles(grid@, now, v as nat, seqs, s as nat + 1)) by {
                    assert forall|j: int, f: int|
                        0 <= j < s + 1 && 0 <= f < seqs[j].len() implies (
                    #[trigger] grid@[j]@[f]) < now.len() && now[grid@[j]@[f] as int] == (
                        v as nat,
                        seqs[j][f],
                    ) by {
                        if j < s {
                            assert(grid@[j] == grid_before[j]);
                            assert(now[grid@[j]@[f] as int] == before[grid@[j]@[f] as int]);
                        }
                    }
                    assert forall|j: int| 0 <= j < s + 1 implies (#[trigger] grid@[j])@.len()
                        == seqs[j].len() by {
                        if j < s {
                            assert(grid@[j] == grid_before[j]);
                        }
                    }
                }
            }
            s = s + 1;
        }
        Ok(grid)
    }
}

/// Each entry of a variant's tile grid names the tile of that sequence's frame.
pub open spec fn names_tiles(
    grid: Seq<Vec<u32>>,
    keys: Seq<TileKey>,
    v: nat,
    seqs: Seq<Seq<Seq<Seq<char>>>>,
    n: nat,
) -> bool {
    &&& grid.len() == n
    &&& forall|s: int| 0 <= s < n ==> (#[trigger] grid[s])@.len() == seqs[s].len()
    &&& forall|s: int, f: int|
        0 <= s < n && 0 <= f < seqs[s].len() ==> (#[trigger] grid[s]@[f]) < keys.len()
            && keys[grid[s]@[f] as int] == (v, seqs[s][f])
}

/// One rasterised sprite: the strip's pixels, the tile index per pose and frame, and the cadence
/// that picks between them.
///
/// Constructed once. Nothing here rasterises after [`BakedSprite::new`] returns.
#[derive(Clone, Debug)]
pub struct BakedSprite {
    /// Art grid width in cells.
    pub cells_w: u32,
    /// Art grid height in cells.
    pub cells_h: u32,
    /// Art pixels per cell, per axis.
    pub grain: u32,
    /// Art rect width in world pixels. Cells and not texels: a finer grain packs more texels into
    /// the same rectangle.
    pub w_px: u32,
    /// Art rect height in world pixels.
    pub h_px: u32,
    /// How many tinted copies actually exist.
    pub variants: usize,
    /// Distinct tiles actually rasterised, and the strip's tile count.
    pub bake_count: usize,
    /// What is drawn and when.
    pub sheet: Sheet,
}

/// What a sprite shows: its strip of tiles, and the sequences that pick between them.
#[derive(Clone, Debug)]
pub struct Sheet {
    /// Four bytes to a texel, `bake_count` tiles across.
    pixels: Vec<u8>,
    /// Tile index per variant, sequence and frame.
    tiles: Vec<Vec<Vec<u32>>>,
    /// Cadence, one copy for all variants.
    specs: Vec<SeqSpec>,
    /// Dense, in authoring order.
    poses: Vec<Pose>,
    /// Pose to sequence, with borrowing already applied.
    ids: Vec<Option<StateId>>,
}

/// A tile's sub-rectangle of the strip: where it starts, and how far it runs. A mirrored one runs
/// backwards from its far edge.
#[derive(Clone, Copy, Debug, PartialEq, Eq, Structural)]
pub struct StripRect {
    pub u0: Number,
    pub v0: Number,
    pub du: Number,
    pub dv: Number,
}

/// The sub-rectangle of tile `tile` of a strip of `count`. A strip is one row, so a tile's width is
/// its share of the whole. A strip is never less than one tile wide.
pub open spec fn strip_rect(tile: nat, count: nat, flip_x: bool) -> StripRect {
    let du = one().quotient(
        whole_number(
            if count == 0 {
                1
            } else {
                count
            },
        ),
    );
    let u0 = whole_number(tile).product(du);
    if flip_x {
        StripRect { u0: u0.sum(du), v0: num(0), du: du.negated(), dv: one() }
    } else {
        StripRect { u0, v0: num(0), du, dv: one() }
    }
}

/// One tile's rectangle in the strip, in texels.
#[derive(Clone, Copy, Debug, PartialEq, Eq, Structural)]
pub struct TileRect {
    pub min_x: u32,
    pub min_y: u32,
    pub max_x: u32,
    pub max_y: u32,
}

/// The strip's layout: its size, and where each tile is.
#[derive(Clone, Debug, PartialEq, Eq)]
pub struct AtlasLayout {
    pub width: u32,
    pub height: u32,
    pub tiles: Vec<TileRect>,
}

/// `bevy::image::TextureAtlasLayout::from_grid` for one row of tiles with no padding and no
/// offset: tile `i` starts `i` tile widths across, and the grid is as wide as its tiles together.
#[verifier::external_body]
fn one_row_grid(tile_w: u32, tile_h: u32, columns: u32) -> (layout: AtlasLayout)
    requires
        tile_w * columns <= u32::MAX,
    ensures
        layout.width == tile_w * columns,
        layout.height == tile_h,
        layout.tiles@.len() == columns,
        forall|i: int|
            0 <= i < columns ==> {
                &&& (#[trigger] layout.tiles@[i]).min_x == tile_w * i
                &&& layout.tiles@[i].min_y == 0
                &&& layout.tiles@[i].max_x == tile_w * (i + 1)
                &&& layout.tiles@[i].max_y == tile_h
            },
{
    let tile = bevy::math::UVec2::new(tile_w, tile_h);
    let grid = bevy::image::TextureAtlasLayout::from_grid(tile, columns, 1, None, None);
    let rect = |r: &bevy::math::URect| TileRect {
        min_x: r.min.x,
        min_y: r.min.y,
        max_x: r.max.x,
        max_y: r.max.y,
    };
    AtlasLayout {
        width: grid.size.x,
        height: grid.size.y,
        tiles: grid.textures.iter().map(rect).collect(),
    }
}

/// The colours of a palette, or the first entry that is not one.
fn parse_palette(pal: &Vec<String>, who: &str) -> (out: Result<Vec<Rgb>, SpriteError>)
    ensures
        match out {
            Ok(base) => palette_fault(texts(pal@), who@, 0) is None && base@ == palette(
                texts(pal@),
            ),
            Err(e) => palette_fault(texts(pal@), who@, 0) == Some(e@),
        },
{
    let ghost entries = texts(pal@);
    let mut base: Vec<Rgb> = Vec::new();
    let mut i: usize = 0;
    while i < pal.len()
        invariant
            i <= pal.len(),
            entries == texts(pal@),
            base@.len() == i,
            base@ =~= palette(entries).take(i as int),
            palette_fault(entries, who@, 0) == palette_fault(entries, who@, i as nat),
        decreases pal.len() - i,
    {
        assert(entries[i as int] == pal@[i as int]@);
        if i == 0 {
            base.push(Rgb { r: 0, g: 0, b: 0 });
        } else {
            match parse_hex(pal[i].as_str(), who) {
                Ok(c) => {
                    base.push(c);
                },
                Err(e) => {
                    return Err(e);
                },
            }
        }
        i = i + 1;
    }
    assert(base@ =~= palette(entries));
    Ok(base)
}

/// A palette through a variant's tilt.
fn tint_palette(base: &Vec<Rgb>, v: usize) -> (out: Vec<Rgb>)
    requires
        v < VARIANT_COUNT,
    ensures
        out@ == tinted_palette(base@, v as int),
{
    let tint = tint_of(v);
    let mut out: Vec<Rgb> = Vec::new();
    let mut i: usize = 0;
    while i < base.len()
        invariant
            i <= base.len(),
            tint == variant_tint(v as int),
            out@.len() == i,
            out@ =~= tinted_palette(base@, v as int).take(i as int),
        decreases base.len() - i,
    {
        out.push(tinted(base[i], tint));
        i = i + 1;
    }
    assert(out@ =~= tinted_palette(base@, v as int));
    out
}

/// Two lists of sequences with the same frames and the same cadence.
pub open spec fn same_specs(a: Seq<SeqSpec>, b: Seq<SeqSpec>) -> bool {
    &&& a.len() == b.len()
    &&& seq_texts(a) == seq_texts(b)
    &&& forall|s: int|
        0 <= s < a.len() ==> {
            &&& (#[trigger] a[s]).mode == b[s].mode
            &&& a[s].fps == b[s].fps
            &&& a[s].blink_every == b[s].blink_every
            &&& a[s].blink_for == b[s].blink_for
        }
}

fn copy_frames(frames: &Vec<Frame>) -> (out: Vec<Frame>)
    ensures
        frame_texts(out@) == frame_texts(frames@),
{
    let mut out: Vec<Frame> = Vec::new();
    let mut i: usize = 0;
    while i < frames.len()
        invariant
            i <= frames.len(),
            out@.len() == i,
            frame_texts(out@) =~= frame_texts(frames@).take(i as int),
        decreases frames.len() - i,
    {
        let ghost before = out@;
        out.push(copy_frame(&frames[i]));
        assert forall|j: int| 0 <= j < i + 1 implies frame_texts(out@)[j] == frame_texts(
            frames@,
        ).take(i as int + 1)[j] by {
            if j < i {
                assert(frame_texts(before)[j] == frame_texts(frames@).take(i as int)[j]);
            }
        }
        i = i + 1;
    }
    assert(frame_texts(out@) =~= frame_texts(frames@));
    out
}

fn copy_specs(seqs: &Vec<SeqSpec>) -> (out: Vec<SeqSpec>)
    ensures
        same_specs(out@, seqs@),
{
    let mut out: Vec<SeqSpec> = Vec::new();
    let mut i: usize = 0;
    assert(seq_texts(out@) =~= seq_texts(seqs@.take(0)));
    while i < seqs.len()
        invariant
            i <= seqs.len(),
            same_specs(out@, seqs@.take(i as int)),
        decreases seqs.len() - i,
    {
        let ghost before = out@;
        let seq: &SeqSpec = &seqs[i];
        out.push(
            SeqSpec {
                frames: copy_frames(&seq.frames),
                mode: seq.mode,
                fps: seq.fps,
                blink_every: seq.blink_every,
                blink_for: seq.blink_for,
            },
        );
        proof {
            let now = seqs@.take(i as int + 1);
            assert forall|j: int| 0 <= j < i + 1 implies seq_texts(out@)[j] == seq_texts(now)[j] by {
                if j < i {
                    assert(out@[j] == before[j]);
                    assert(seq_texts(before)[j] == seq_texts(seqs@.take(i as int))[j]);
                }
            }
            assert(seq_texts(out@) =~= seq_texts(now));
            assert forall|j: int| 0 <= j < out@.len() implies {
                &&& (#[trigger] out@[j]).mode == now[j].mode
                &&& out@[j].fps == now[j].fps
                &&& out@[j].blink_every == now[j].blink_every
                &&& out@[j].blink_for == now[j].blink_for
            } by {
                if j < i {
                    assert(out@[j] == before[j]);
                    assert(seqs@.take(i as int)[j] == now[j]);
                }
            }
        }
        i = i + 1;
    }
    assert(seqs@.take(i as int) =~= seqs@);
    out
}

fn copy_poses(poses: &Vec<Pose>) -> (out: Vec<Pose>)
    ensures
        out@ == poses@,
{
    let mut out: Vec<Pose> = Vec::new();
    let mut i: usize = 0;
    while i < poses.len()
        invariant
            i <= poses.len(),
            out@ =~= poses@.take(i as int),
        decreases poses.len() - i,
    {
        out.push(poses[i]);
        i = i + 1;
    }
    assert(poses@.take(i as int) =~= poses@);
    out
}

/// What a pose plays in an id table.
pub open spec fn table_entry(table: Map<Pose, nat>, pose: Pose) -> Option<nat> {
    if table.contains_key(pose) {
        Some(table[pose])
    } else {
        None
    }
}

/// `b` is `art` rasterised: its numbers, its sequences as authored, the sequence each pose plays,
/// the strip of every distinct frame through every variant, and which tile shows which frame.
pub open spec fn is_bake_of(b: BakedSprite, art: SpriteArt, who: Seq<char>) -> bool {
    let keys = tile_keys(seq_texts(art.seqs@), art.variants as nat);
    &&& b.wf()
    &&& b.cells_w == art.cells_w
    &&& b.cells_h == art.cells_h
    &&& b.grain == art.grain
    &&& b.w_px == art.cells_w * CELL_SIZE
    &&& b.h_px == art.cells_h * CELL_SIZE
    &&& b.variants == art.variants
    &&& b.bake_count == keys.len()
    &&& same_specs(b.cadence(), art.seqs@)
    &&& b.seq_count() == art.seqs@.len()
    &&& b.frames() == seq_texts(art.seqs@)
    &&& forall|s: int| 0 <= s < art.seqs@.len() ==> #[trigger] b.mode(s) == art.seqs@[s].mode
    &&& b.authored_poses() == art.poses@
    &&& forall|p: Pose| #[trigger]
        b.plays(p) == table_entry(id_table(art.poses@, art.fallback@, who)->Ok_0, p)
    &&& b.strip() == strip_pixels(
        baked_tiles(keys, palette(texts(art.pal@)), art.texel_w(), art.texel_h()),
        art.texel_w(),
        art.texel_h(),
    )
    &&& forall|v: int, s: int, f: int|
        0 <= v < art.variants && 0 <= s < art.seqs@.len() && 0 <= f < art.seqs@[s].frames@.len()
            ==> (#[trigger] b.tile_at(v, s, f)) < keys.len() && keys[b.tile_at(v, s, f) as int] == (
            v as nat,
            seq_texts(art.seqs@)[s][f],
        )
}

impl BakedSprite {
    /// How many sequences were authored.
    pub closed spec fn seq_count(&self) -> nat {
        self.sheet.specs@.len()
    }

    /// The frames of each sequence, as rows of characters.
    pub closed spec fn frames(&self) -> Seq<Seq<Seq<Seq<char>>>> {
        seq_texts(self.sheet.specs@)
    }

    /// How a sequence advances.
    pub closed spec fn mode(&self, seq: int) -> PlayMode {
        self.sheet.specs@[seq].mode
    }

    /// The sequences and their cadence.
    pub closed spec fn cadence(&self) -> Seq<SeqSpec> {
        self.sheet.specs@
    }

    /// The frame of a sequence that a clock shows.
    pub open spec fn frame_shown(&self, seq: int, clock: SpriteClock) -> int {
        picked(
            self.frames()[seq].len() as int,
            self.mode(seq),
            reading_of(self.cadence()[seq], clock),
        )
    }

    /// The authored poses, in order.
    pub closed spec fn authored_poses(&self) -> Seq<Pose> {
        self.sheet.poses@
    }

    /// The sequence a pose plays.
    pub closed spec fn plays(&self, pose: Pose) -> Option<nat> {
        match self.sheet.ids@[pose_index(pose)] {
            Some(id) => Some(id.seq()),
            None => None,
        }
    }

    /// The tile of a frame of a sequence, through a variant.
    pub closed spec fn tile_at(&self, variant: int, seq: int, frame: int) -> nat {
        self.sheet.tiles@[variant]@[seq]@[frame] as nat
    }

    /// The strip's pixels.
    pub closed spec fn strip(&self) -> Seq<u8> {
        self.sheet.pixels@
    }

    /// The sprite is as its constructor leaves it.
    pub closed spec fn wf(&self) -> bool {
        &&& 1 <= self.variants <= VARIANT_COUNT
        &&& self.sheet.tiles@.len() == self.variants
        &&& self.sheet.poses@.len() == self.sheet.specs@.len()
        &&& self.sheet.specs@.len() <= POSE_COUNT
        &&& self.sheet.ids@.len() == POSE_COUNT
        &&& forall|p: Pose|
            (#[trigger] self.sheet.ids@[pose_index(p)]) matches Some(id) ==> id.seq() < self.sheet.specs@.len()
        &&& forall|v: int|
            0 <= v < self.variants ==> (#[trigger] self.sheet.tiles@[v])@.len() == self.sheet.specs@.len()
        &&& forall|v: int, s: int|
            0 <= v < self.variants && 0 <= s < self.sheet.specs@.len() ==> (
            #[trigger] self.sheet.tiles@[v]@[s])@.len() == self.sheet.specs@[s].frames@.len()
        &&& forall|v: int, s: int, f: int|
            0 <= v < self.variants && 0 <= s < self.sheet.specs@.len() && 0 <= f
                < self.sheet.specs@[s].frames@.len() ==> (#[trigger] self.sheet.tiles@[v]@[s]@[f])
                < self.bake_count
    }

    /// What holds of every sprite: it has a variant, each pose plays one of its sequences, and every
    /// frame of every variant is one of its tiles.
    pub proof fn law_a_sprite_keeps_its_shape(&self)
        requires
            self.wf(),
        ensures
            1 <= self.variants <= VARIANT_COUNT,
            self.seq_count() <= POSE_COUNT,
            self.authored_poses().len() == self.seq_count(),
            self.cadence().len() == self.seq_count(),
            self.frames() == seq_texts(self.cadence()),
            forall|p: Pose| (#[trigger] self.plays(p)) matches Some(s) ==> s < self.seq_count(),
            forall|v: int, s: int, f: int|
                0 <= v < self.variants && 0 <= s < self.seq_count() && 0 <= f
                    < self.frames()[s].len() ==> (#[trigger] self.tile_at(v, s, f))
                    < self.bake_count,
    {
        assert forall|p: Pose| (#[trigger] self.plays(p)) is Some implies self.plays(p)->0
            < self.seq_count() by {
            assert(self.sheet.ids@[pose_index(p)] is Some);
        }
        assert forall|v: int, s: int, f: int|
            0 <= v < self.variants && 0 <= s < self.seq_count() && 0 <= f
                < self.frames()[s].len() implies (#[trigger] self.tile_at(v, s, f))
            < self.bake_count by {
            assert(self.frames()[s].len() == self.sheet.specs@[s].frames@.len());
            assert(self.sheet.tiles@[v]@[s]@[f] < self.bake_count);
        }
    }

    /// `state` names a sequence of this sprite, and the sequence has a frame to show.
    pub open spec fn shows(&self, state: StateId) -> bool {
        state.seq() < self.seq_count() && self.frames()[state.seq() as int].len() > 0
    }

    /// Rasterise every pose of every variant, once.
    ///
    /// A pose repeated across sequences bakes once, keyed on the frame's own text and the variant.
    /// Shape and every character are checked, and anything illegal is an error.
    pub fn new(art: &SpriteArt, who: &str) -> (out: Result<BakedSprite, SpriteError>)
        requires
            art.poses@.len() == art.seqs@.len(),
            !art.outgrows(who@),
        ensures
            match out {
                Ok(b) => art.fault(who@) is None && is_bake_of(b, *art, who@),
                Err(e) => art.fault(who@) == Some(e@),
            },
    {
        let (ids, base): (Vec<Option<StateId>>, Vec<Rgb>) = match art.open_up(who) {
            Ok(opened) => opened,
            Err(e) => {
                return Err(e);
            },
        };
        let w: u32 = art.cells_w * art.grain;
        let h: u32 = art.cells_h * art.grain;
        let ghost seqs = seq_texts(art.seqs@);
        let ghost oven = Oven { seqs, base: base@, w: w as nat, h: h as nat };
        let ghost total = tile_keys(seqs, art.variants as nat);
        let mut bakery: Bakery = Bakery { keys: Vec::new(), tiles: Vec::new() };
        let mut tiles: Vec<Vec<Vec<u32>>> = Vec::new();
        let mut v: usize = 0;
        proof {
            assert(bakery.view(seqs) =~= tile_keys(seqs, 0));
            assert(tile_bytes(bakery.tiles@) =~= baked_tiles(
                bakery.view(seqs),
                base@,
                w as nat,
                h as nat,
            ));
        }
        while v < art.variants
            invariant
                v <= art.variants,
                art.variants <= VARIANT_COUNT,
                art.poses@.len() == art.seqs@.len(),
                art.opening_fault(who@) is None,
                art.starts(),
                w == art.texel_w(),
                h == art.texel_h(),
                base@ == palette(texts(art.pal@)),
                seqs == seq_texts(art.seqs@),
                oven == (Oven { seqs, base: base@, w: w as nat, h: h as nat }),
                total == tile_keys(seqs, art.variants as nat),
                bakery.wf(oven),
                bakery.view(seqs) == tile_keys(seqs, v as nat),
                tiles@.len() == v,
                forall|j: int|
                    0 <= j < v ==> names_tiles(
                        (#[trigger] tiles@[j])@,
                        bakery.view(seqs),
                        j as nat,
                        seqs,
                        seqs.len(),
                    ),
                v > 0 ==> art.fault(who@) is None,
            decreases art.variants - v,
        {
            let ghost before = bakery.view(seqs);
            let ghost tiles_before = tiles@;
            let pal: Vec<Rgb> = tint_palette(&base, v);
            proof {
                law_each_frame_bakes_once(seqs, v as nat);
                lemma_keys_len(seqs, v as nat + 1, art.variants as nat);
                lemma_with_seqs(before, v as nat, seqs, seqs.len());
            }
            match bakery.bake_variant(art, &pal, v, w, h, who, Ghost(oven)) {
                Ok(grid) => {
                    tiles.push(grid);
                },
                Err(e) => {
                    return Err(e);
                },
            }
            proof {
                let now = bakery.view(seqs);
                assert(now == tile_keys(seqs, v as nat + 1));
                assert forall|j: int| 0 <= j < v + 1 implies names_tiles(
                    (#[trigger] tiles@[j])@,
                    now,
                    j as nat,
                    seqs,
                    seqs.len(),
                ) by {
                    if j < v {
                        assert(tiles@[j] == tiles_before[j]);
                        assert(names_tiles(tiles_before[j]@, before, j as nat, seqs, seqs.len()));
                        let grid = tiles@[j]@;
                        assert forall|s: int, f: int|
                            0 <= s < seqs.len() && 0 <= f < seqs[s].len() implies (
                        #[trigger] grid[s]@[f]) < now.len() && now[grid[s]@[f] as int] == (
                            j as nat,
                            seqs[s][f],
                        ) by {
                            assert(now[grid[s]@[f] as int] == before[grid[s]@[f] as int]);
                        }
                    }
                }
            }
            v = v + 1;
        }
        let ghost keys = bakery.view(seqs);
        proof {
            assert forall|t: int| 0 <= t < bakery.tiles@.len() implies (
            #[trigger] bakery.tiles@[t])@.len() == w * h * 4 by {
                assert(tile_bytes(bakery.tiles@)[t] == baked_tiles(
                    keys,
                    base@,
                    w as nat,
                    h as nat,
                )[t]);
            }
        }
        let pixels: Vec<u8> = assemble_strip(&bakery.tiles, w, h);
        let b: BakedSprite = BakedSprite {
            cells_w: art.cells_w,
            cells_h: art.cells_h,
            grain: art.grain,
            w_px: art.cells_w * CELL_SIZE,
            h_px: art.cells_h * CELL_SIZE,
            variants: art.variants,
            bake_count: bakery.tiles.len(),
            sheet: Sheet {
                pixels,
                tiles,
                specs: copy_specs(&art.seqs),
                poses: copy_poses(&art.poses),
                ids,
            },
        };
        proof {
            law_ids_follow_the_rules(art.poses@, art.fallback@, who@);
            let table = id_table(art.poses@, art.fallback@, who@)->Ok_0;
            assert forall|p: Pose|
                #![trigger b.sheet.ids@[pose_index(p)]]
                (b.sheet.ids@[pose_index(p)] matches Some(id) ==> id.seq() < b.sheet.specs@.len()) by {
                if b.sheet.ids@[pose_index(p)] is Some {
                    assert(table.contains_key(p));
                }
            }
            assert forall|s: int| 0 <= s < b.sheet.specs@.len() implies #[trigger] b.sheet.specs@[s].frames@.len()
                == seqs[s].len() by {
                assert(seq_texts(b.sheet.specs@)[s] == seqs[s]);
                assert(frame_texts(b.sheet.specs@[s].frames@).len() == b.sheet.specs@[s].frames@.len());
            }
            assert forall|v: int, s: int| 0 <= v < b.variants && 0 <= s < b.sheet.specs@.len() implies (
            #[trigger] b.sheet.tiles@[v]@[s])@.len() == b.sheet.specs@[s].frames@.len() by {
                assert(names_tiles(tiles@[v]@, keys, v as nat, seqs, seqs.len()));
            }
            assert forall|v: int, s: int, f: int|
                0 <= v < b.variants && 0 <= s < b.sheet.specs@.len() && 0 <= f
                    < b.sheet.specs@[s].frames@.len() implies (#[trigger] b.sheet.tiles@[v]@[s]@[f])
                < b.bake_count by {
                assert(names_tiles(tiles@[v]@, keys, v as nat, seqs, seqs.len()));
            }
            assert forall|v: int| 0 <= v < b.variants implies (#[trigger] b.sheet.tiles@[v])@.len()
                == b.sheet.specs@.len() by {
                assert(names_tiles(tiles@[v]@, keys, v as nat, seqs, seqs.len()));
            }
            assert forall|v: int, s: int, f: int|
                0 <= v < art.variants && 0 <= s < art.seqs@.len() && 0 <= f
                    < art.seqs@[s].frames@.len() implies (#[trigger] b.tile_at(v, s, f))
                < keys.len() && keys[b.tile_at(v, s, f) as int] == (v as nat, seqs[s][f]) by {
                assert(names_tiles(tiles@[v]@, keys, v as nat, seqs, seqs.len()));
                assert(seqs[s].len() == art.seqs@[s].frames@.len());
                assert(b.sheet.tiles@[v]@[s]@[f] == tiles@[v]@[s]@[f]);
            }
            assert forall|p: Pose| #[trigger] b.plays(p) == table_entry(table, p) by {
                assert(b.sheet.ids@[pose_index(p)] == ids@[pose_index(p)]);
            }
        }
        Ok(b)
    }

    /// The dense sequence index for a pose, following the borrowing rules. `None` is absent.
    pub fn state_id(&self, pose: Pose) -> (id: Option<StateId>)
        requires
            self.wf(),
        ensures
            match id {
                Some(id) => self.plays(pose) == Some(id.seq()) && id.seq() < self.seq_count(),
                None => self.plays(pose) is None,
            },
    {
        let slot: usize = pose.index();
        assert(self.sheet.ids@[slot as int] == self.sheet.ids@[pose_index(pose)]);
        self.sheet.ids[slot]
    }

    /// Which frame of a sequence a clock is showing.
    pub fn frame_index(&self, state: StateId, clock: &SpriteClock) -> (f: usize)
        requires
            self.wf(),
            state.seq() < self.seq_count(),
        ensures
            f == self.frame_shown(state.seq() as int, *clock),
    {
        assert(self.frames()[state.seq() as int].len()
            == self.sheet.specs@[state.seq() as int].frames@.len());
        pick_frame_index(&self.sheet.specs[state.index()], clock)
    }

    /// The tile a clock is showing.
    pub fn tile(&self, state: StateId, variant: usize, clock: &SpriteClock) -> (t: usize)
        requires
            self.wf(),
            self.shows(state),
        ensures
            t == self.tile_at(
                variant as int % (self.variants as int),
                state.seq() as int,
                self.frame_shown(state.seq() as int, *clock),
            ),
            t < self.bake_count,
            t < usize::MAX,
            self.variants >= 1,
    {
        let f: usize = self.frame_index(state, clock);
        let v: usize = self.wrap_variant(variant);
        let s: usize = state.index();
        proof {
            let n = self.frames()[s as int].len() as int;
            assert(n == self.sheet.specs@[s as int].frames@.len());
            law_frame_is_in_the_sequence(
                n,
                self.mode(s as int),
                reading_of(self.cadence()[s as int], *clock),
            );
            assert(self.sheet.tiles@[v as int]@.len() == self.sheet.specs@.len());
            assert(self.sheet.tiles@[v as int]@[s as int]@.len() == n);
            assert(self.sheet.tiles@[v as int]@[s as int]@[f as int] < self.bake_count);
        }
        self.sheet.tiles[v][s][f] as usize
    }

    /// Frame 0 of a state, no clock: item icons in a hotbar, bestiary portraits.
    pub fn still_tile(&self, state: StateId, variant: usize) -> (t: usize)
        requires
            self.wf(),
            self.shows(state),
        ensures
            t == self.tile_at(
                variant as int % (self.variants as int),
                state.seq() as int,
                0,
            ),
            t < self.bake_count,
            self.variants >= 1,
    {
        let v: usize = self.wrap_variant(variant);
        let s: usize = state.index();
        proof {
            assert(self.frames()[s as int].len() == self.sheet.specs@[s as int].frames@.len());
            assert(self.sheet.tiles@[v as int]@.len() == self.sheet.specs@.len());
            assert(self.sheet.tiles@[v as int]@[s as int]@.len() == self.sheet.specs@[s as int].frames@.len());
            assert(self.sheet.tiles@[v as int]@[s as int]@[0] < self.bake_count);
        }
        self.sheet.tiles[v][s][0] as usize
    }

    /// How many tiles the strip has.
    pub fn count(&self) -> (n: usize)
        ensures
            n == self.bake_count,
    {
        self.bake_count
    }

    /// A tile's sub-rectangle of the strip. See [`strip_rect`].
    pub fn tile_uv(&self, tile: usize, flip_x: bool) -> (rect: StripRect)
        ensures
            rect == strip_rect(tile as nat, self.bake_count as nat, flip_x),
    {
        let of: u64 = if self.bake_count == 0 {
            1
        } else {
            self.bake_count as u64
        };
        let du: Number = one().over(from_whole(of));
        let u0: Number = from_whole(tile as u64).times(du);
        if flip_x {
            StripRect { u0: u0.plus(du), v0: num(0), du: du.minus_self(), dv: one() }
        } else {
            StripRect { u0, v0: num(0), du, dv: one() }
        }
    }

    /// The first authored sequence: what an icon with exactly one pose wants.
    pub fn first_state(&self) -> (id: StateId)
        ensures
            id.seq() == 0,
    {
        StateId::of(0)
    }

    /// The poses this sprite actually authored, dense and in authoring order.
    pub fn poses(&self) -> (poses: &Vec<Pose>)
        ensures
            poses@ == self.authored_poses(),
    {
        &self.sheet.poses
    }

    /// The cadence of a sequence.
    pub fn spec(&self, state: StateId) -> (spec: &SeqSpec)
        requires
            self.wf(),
            state.seq() < self.seq_count(),
        ensures
            *spec == self.cadence()[state.seq() as int],
    {
        &self.sheet.specs[state.index()]
    }

    /// Whether a state has a frame to show. See [`BakedSprite::shows`].
    pub fn can_show(&self, state: StateId) -> (ok: bool)
        requires
            self.wf(),
        ensures
            ok == self.shows(state),
    {
        let at: usize = state.index();
        at < self.sheet.specs.len() && self.sheet.specs[at].frames.len() > 0
    }

    /// The strip's pixels, four bytes to a texel.
    pub fn pixels(&self) -> (pixels: &Vec<u8>)
        ensures
            pixels@ == self.strip(),
    {
        &self.sheet.pixels
    }

    /// The strip's size in texels.
    pub fn atlas_size(&self) -> (size: (u32, u32))
        requires
            self.cells_w * self.grain * self.bake_count <= u32::MAX,
            self.cells_w * self.grain <= u32::MAX,
            self.cells_h * self.grain <= u32::MAX,
            self.bake_count <= u32::MAX,
        ensures
            size.0 == self.cells_w * self.grain * self.bake_count,
            size.1 == self.cells_h * self.grain,
    {
        (self.cells_w * self.grain * self.bake_count as u32, self.cells_h * self.grain)
    }

    /// The strip's layout: `bake_count` tiles across, one down.
    pub fn layout(&self) -> (layout: AtlasLayout)
        requires
            self.cells_w * self.grain * self.bake_count <= u32::MAX,
            self.cells_w * self.grain <= u32::MAX,
            self.cells_h * self.grain <= u32::MAX,
            self.bake_count <= u32::MAX,
        ensures
            layout.width == self.cells_w * self.grain * self.bake_count,
            layout.height == self.cells_h * self.grain,
            layout.tiles@.len() == self.bake_count,
            forall|i: int|
                0 <= i < self.bake_count ==> {
                    &&& (#[trigger] layout.tiles@[i]).min_x == self.cells_w
                        * self.grain * i
                    &&& layout.tiles@[i].min_y == 0
                    &&& layout.tiles@[i].max_x == self.cells_w * self.grain * (i + 1)
                    &&& layout.tiles@[i].max_y == self.cells_h * self.grain
                },
    {
        one_row_grid(
            self.cells_w * self.grain,
            self.cells_h * self.grain,
            self.bake_count as u32,
        )
    }

    /// Variants are assigned from entity ids and hashes, so wrap rather than trust.
    fn wrap_variant(&self, variant: usize) -> (v: usize)
        requires
            self.wf(),
        ensures
            v == variant as int % (self.variants as int),
            v < self.variants,
    {
        variant % self.variants
    }
}

} // verus!
