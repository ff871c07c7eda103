//! What can be wrong with a sprite, and how it is said.

use vstd::prelude::*;
use vstd::string::*;

use crate::sprite::pose::{Pose, pose_name};
use crate::text::{decimal, push_decimal, push_signed, signed_decimal};

verus! {

/// Everything that makes a sprite impossible to bake.
///
/// Malformed art is loud at load and never degraded: a frame that bakes once bakes forever, so a
/// silent skip would ship as a hole in a creature.
#[derive(Clone, Debug, PartialEq, Eq)]
pub enum SpriteError {
    /// `cells_w` or `cells_h` was zero or negative in the record.
    Grid { who: String, cells_w: i32, cells_h: i32 },
    /// A palette entry is not `#rrggbb`.
    Palette { who: String, entry: String },
    /// A frame has the wrong number of rows for the art grid.
    FrameRows { who: String, frame: usize, rows: usize, expected: u32 },
    /// A row has the wrong number of characters for the art grid.
    RowWidth { who: String, row: usize, chars: usize, expected: u32 },
    /// A frame character is neither transparent nor a legal palette index.
    PaletteIndex { who: String, row: usize, col: usize, ch: char },
    /// A sequence declared no frames at all.
    EmptySequence { who: String, pose: Pose },
    /// The record declared no sequences at all.
    NoSequences { who: String },
    /// The same pose was declared by two sequences.
    DuplicatePose { who: String, pose: Pose },
    /// `variants` is outside the tint table.
    VariantCount { who: String, asked: usize },
    /// A fallback chain closed on itself.
    FallbackCycle { who: String, from: Pose },
    /// A fallback chain ran out without reaching an authored sequence.
    FallbackDangling { who: String, from: Pose, to: Pose },
}

/// A [`SpriteError`] with its strings as sequences of characters and its numbers unbounded.
pub enum SpriteFault {
    Grid { who: Seq<char>, cells_w: int, cells_h: int },
    Palette { who: Seq<char>, entry: Seq<char> },
    FrameRows { who: Seq<char>, frame: nat, rows: nat, expected: nat },
    RowWidth { who: Seq<char>, row: nat, chars: nat, expected: nat },
    PaletteIndex { who: Seq<char>, row: nat, col: nat, ch: char },
    EmptySequence { who: Seq<char>, pose: Pose },
    NoSequences { who: Seq<char> },
    DuplicatePose { who: Seq<char>, pose: Pose },
    VariantCount { who: Seq<char>, asked: nat },
    FallbackCycle { who: Seq<char>, from: Pose },
    FallbackDangling { who: Seq<char>, from: Pose, to: Pose },
}

impl View for SpriteError {
    type V = SpriteFault;

    open spec fn view(&self) -> SpriteFault {
        match *self {
            SpriteError::Grid { who, cells_w, cells_h } => SpriteFault::Grid {
                who: who@,
                cells_w: cells_w as int,
                cells_h: cells_h as int,
            },
            SpriteError::Palette { who, entry } => SpriteFault::Palette {
                who: who@,
                entry: entry@,
            },
            SpriteError::FrameRows { who, frame, rows, expected } => SpriteFault::FrameRows {
                who: who@,
                frame: frame as nat,
                rows: rows as nat,
                expected: expected as nat,
            },
            SpriteError::RowWidth { who, row, chars, expected } => SpriteFault::RowWidth {
                who: who@,
                row: row as nat,
                chars: chars as nat,
                expected: expected as nat,
            },
            SpriteError::PaletteIndex { who, row, col, ch } => SpriteFault::PaletteIndex {
                who: who@,
                row: row as nat,
                col: col as nat,
                ch,
            },
            SpriteError::EmptySequence { who, pose } => SpriteFault::EmptySequence {
                who: who@,
                pose,
            },
            SpriteError::NoSequences { who } => SpriteFault::NoSequences { who: who@ },
            SpriteError::DuplicatePose { who, pose } => SpriteFault::DuplicatePose {
                who: who@,
                pose,
            },
            SpriteError::VariantCount { who, asked } => SpriteFault::VariantCount {
                who: who@,
                asked: asked as nat,
            },
            SpriteError::FallbackCycle { who, from } => SpriteFault::FallbackCycle {
                who: who@,
                from,
            },
            SpriteError::FallbackDangling { who, from, to } => SpriteFault::FallbackDangling {
                who: who@,
                from,
                to,
            },
        }
    }
}

/// How std's `Debug` writes a string: in double quotes, with escapes.
pub uninterp spec fn quoted_text(text: Seq<char>) -> Seq<char>;

/// How std's `Debug` writes a character: in single quotes, with escapes.
pub uninterp spec fn quoted_char(ch: char) -> Seq<char>;

/// `format!("{:?}", text)`. Which characters std escapes is left to the name [`quoted_text`].
#[verifier::external_body]
fn quote_text(text: &str) -> (out: String)
    ensures
        out@ == quoted_text(text@),
{
    format!("{:?}", text)
}

/// `format!("{:?}", ch)`. Which characters std escapes is left to the name [`quoted_char`].
#[verifier::external_body]
fn quote_char(ch: char) -> (out: String)
    ensures
        out@ == quoted_char(ch),
{
    format!("{:?}", ch)
}

/// How many tints there are to bake a variant with.
pub const VARIANT_COUNT: usize = 3;

/// The sentence a fault is reported with.
pub open spec fn fault_text(fault: SpriteFault) -> Seq<char> {
    match fault {
        SpriteFault::Grid { who, cells_w, cells_h } => who + ": art grid is "@ + signed_decimal(
            cells_w,
        ) + "x"@ + signed_decimal(cells_h) + " cells; both must be positive"@,
        SpriteFault::Palette { who, entry } => who + ": palette entry "@ + quoted_text(entry)
            + " is not #rrggbb"@,
        SpriteFault::FrameRows { who, frame, rows, expected } => who + ": frame "@ + decimal(frame)
            + " has "@ + decimal(rows) + " rows, expected cells_h="@ + decimal(expected),
        SpriteFault::RowWidth { who, row, chars, expected } => who + ": row "@ + decimal(row)
            + " has "@ + decimal(chars) + " chars, expected cells_w="@ + decimal(expected),
        SpriteFault::PaletteIndex { who, row, col, ch } => who + ": row "@ + decimal(row)
            + " col "@ + decimal(col) + ": "@ + quoted_char(ch) + " is not a palette index"@,
        SpriteFault::EmptySequence { who, pose } => who + ": sequence "@ + pose_name(pose)
            + " has no frames"@,
        SpriteFault::NoSequences { who } => who + ": sprite has no sequences"@,
        SpriteFault::DuplicatePose { who, pose } => who + ": declares state "@ + pose_name(pose)
            + " twice"@,
        SpriteFault::VariantCount { who, asked } => who + ": asks for "@ + decimal(asked)
            + " variants; the tint table has "@ + decimal(VARIANT_COUNT as nat),
        SpriteFault::FallbackCycle { who, from } => who + ": fallback for "@ + pose_name(from)
            + " is a cycle"@,
        SpriteFault::FallbackDangling { who, from, to } => who + ": fallback "@ + pose_name(from)
            + " -> "@ + pose_name(to) + " names no sequence"@,
    }
}

impl SpriteError {
    /// The sentence this error is reported with.
    pub fn message(&self) -> (out: String)
        ensures
            out@ == fault_text(self@),
    {
        let mut out: String = String::new();
        match self {
            SpriteError::Grid { who, cells_w, cells_h } => {
                out.append(who.as_str());
                out.append(": art grid is ");
                push_signed(&mut out, *cells_w);
                out.append("x");
                push_signed(&mut out, *cells_h);
                out.append(" cells; both must be positive");
            },
            SpriteError::Palette { who, entry } => {
                out.append(who.as_str());
                out.append(": palette entry ");
                out.append(quote_text(entry.as_str()).as_str());
                out.append(" is not #rrggbb");
            },
            SpriteError::FrameRows { who, frame, rows, expected } => {
                out.append(who.as_str());
                out.append(": frame ");
                push_decimal(&mut out, *frame as u64);
                out.append(" has ");
                push_decimal(&mut out, *rows as u64);
                out.append(" rows, expected cells_h=");
                push_decimal(&mut out, *expected as u64);
            },
            SpriteError::RowWidth { who, row, chars, expected } => {
                out.append(who.as_str());
                out.append(": row ");
                push_decimal(&mut out, *row as u64);
                out.append(" has ");
                push_decimal(&mut out, *chars as u64);
                out.append(" chars, expected cells_w=");
                push_decimal(&mut out, *expected as u64);
            },
            SpriteError::PaletteIndex { who, row, col, ch } => {
                out.append(who.as_str());
                out.append(": row ");
                push_decimal(&mut out, *row as u64);
                out.append(" col ");
                push_decimal(&mut out, *col as u64);
                out.append(": ");
                out.append(quote_char(*ch).as_str());
                out.append(" is not a palette index");
            },
            SpriteError::EmptySequence { who, pose } => {
                out.append(who.as_str());
                out.append(": sequence ");
                out.append(pose.name());
                out.append(" has no frames");
            },
            SpriteError::NoSequences { who } => {
                out.append(who.as_str());
                out.append(": sprite has no sequences");
            },
            SpriteError::DuplicatePose { who, pose } => {
                out.append(who.as_str());
                out.append(": declares state ");
                out.append(pose.name());
                out.append(" twice");
            },
            SpriteError::VariantCount { who, asked } => {
                out.append(who.as_str());
                out.append(": asks for ");
                push_decimal(&mut out, *asked as u64);
                out.append(" variants; the tint table has ");
                push_decimal(&mut out, VARIANT_COUNT as u64);
            },
            SpriteError::FallbackCycle { who, from } => {
                out.append(who.as_str());
                out.append(": fallback for ");
                out.append(from.name());
                out.append(" is a cycle");
            },
            SpriteError::FallbackDangling { who, from, to } => {
                out.append(who.as_str());
                out.append(": fallback ");
                out.append(from.name());
                out.append(" -> ");
                out.append(to.name());
                out.append(" names no sequence");
            },
        }
        assert(out@ =~= fault_text(self@));
        out
    }
}

} // verus!
