//! What a drawn sprite shows: its characters as texels, its colours as they were written, and its
//! frames as they were set apart.

use vstd::arithmetic::power2::*;
use vstd::prelude::*;

use crate::arith::{
    law_itself_goes_in_once, law_products_commute, law_times_one_is_itself, law_times_zero_is_zero,
    lemma_one, lemma_zero_over, one, whole_number,
};
use crate::number::{Number, num};
use crate::order::{law_quotients_keep_order, lemma_values_in_order};
use crate::pin::byte_hex;
use crate::sprite::bake::{
    Rgb, Tint, hex_colour, lemma_byte_at, texel, tile_pixels, tinted_channel, tinted_colour,
    variant_tint,
};
use crate::sprite::baked::{
    BakedSprite, SpriteArt, is_bake_of, law_strip_shows_the_art, palette, palette_fault, seq_texts,
    strip_rect, tile_keys, tinted_palette,
};
use crate::sprite::content::{
    ContentArt, ContentSeq, FromContentOpts, code_in, filled, is_art_of, is_seq_of, scale_of,
    variants_of,
};
use crate::sprite::error::SpriteFault;
use crate::sprite::frames::{SeqSpec, filmstrip, frames_in, row_fault, texts};
use crate::whole::{
    is_halves, is_whole, law_half_of_a_whole_is_exact, law_small_whole_numbers_are_exact,
};
use crate::sprite::pose::Pose;

verus! {

/// A tilt multiplies each channel by its own hundredths: as near as whole steps come, or full where
/// that is more. So a hundred leaves a channel as it is, and more of a channel is no less of it.
pub proof fn law_a_tint_tilts_each_channel(c: Rgb, more: Rgb, tint: Tint)
    ensures
        ({
            let out = tinted_colour(c, tint);
            &&& out.r < 255 ==> -50 <= c.r * tint.r - 100 * out.r < 50
            &&& out.g < 255 ==> -50 <= c.g * tint.g - 100 * out.g < 50
            &&& out.b < 255 ==> -50 <= c.b * tint.b - 100 * out.b < 50
            &&& out.r == 255 ==> c.r * tint.r >= 25450
            &&& out.g == 255 ==> c.g * tint.g >= 25450
            &&& out.b == 255 ==> c.b * tint.b >= 25450
            &&& tint.r == 100 && tint.g == 100 && tint.b == 100 ==> out == c
            &&& c.r <= more.r ==> out.r <= tinted_colour(more, tint).r
            &&& c.g <= more.g ==> out.g <= tinted_colour(more, tint).g
            &&& c.b <= more.b ==> out.b <= tinted_colour(more, tint).b
        }),
{
    lemma_tilted(c.r, more.r, tint.r);
    lemma_tilted(c.g, more.g, tint.g);
    lemma_tilted(c.b, more.b, tint.b);
}

proof fn lemma_tilted(channel: u8, more: u8, hundredths: u32)
    ensures
        ({
            let out = tinted_channel(channel, hundredths);
            &&& out < 255 ==> -50 <= channel * hundredths - 100 * out < 50
            &&& out == 255 ==> channel * hundredths >= 25450
            &&& hundredths == 100 ==> out == channel
            &&& channel <= more ==> out <= tinted_channel(more, hundredths)
        }),
{
    if channel <= more {
        assert(channel * hundredths <= more * hundredths) by (nonlinear_arith)
            requires
                0 <= channel <= more,
                0 <= hundredths,
        ;
    }
    assert(0 <= channel * hundredths) by (nonlinear_arith)
        requires
            0 <= channel,
            0 <= hundredths,
    ;
}

/// The first variant is the art as it was drawn; of a grey, the second is warmer than it was and the
/// third cooler.
pub proof fn law_variants_lean_warm_and_cool(c: Rgb)
    ensures
        tinted_colour(c, variant_tint(0)) == c,
        c.r == c.g && c.g == c.b ==> {
            let (warm, cool) = (
                tinted_colour(c, variant_tint(1)),
                tinted_colour(c, variant_tint(2)),
            );
            &&& warm.b <= warm.g && warm.g <= warm.r
            &&& warm.b <= c.b && c.r <= warm.r
            &&& cool.r <= cool.g && cool.g <= cool.b
            &&& cool.r <= c.r && c.b <= cool.b
        },
{
}

/// A colour reads back as it was written: six digits after the sign, two to a channel, red first and
/// blue last.
pub proof fn law_a_colour_reads_back(c: Rgb)
    ensures
        hex_colour(seq!['#'] + byte_hex(c.r) + byte_hex(c.g) + byte_hex(c.b)) == Some(c),
{
    let entry = seq!['#'] + byte_hex(c.r) + byte_hex(c.g) + byte_hex(c.b);
    assert(entry.len() == 7);
    assert(entry[0] == '#');
    assert(entry[1] == byte_hex(c.r)[0] && entry[2] == byte_hex(c.r)[1]);
    assert(entry[3] == byte_hex(c.g)[0] && entry[4] == byte_hex(c.g)[1]);
    assert(entry[5] == byte_hex(c.b)[0] && entry[6] == byte_hex(c.b)[1]);
}

/// A texel is its character: a dot or a nought paints nothing at all, and a digit paints the colour
/// of that place in the palette, opaque. The texel in column `x` and row `y` of a tile is that of the
/// character in column `x` of line `y`.
pub proof fn law_a_texel_is_its_character(
    rows: Seq<Seq<char>>,
    pal: Seq<Rgb>,
    w: nat,
    h: nat,
    x: int,
    y: int,
)
    requires
        0 <= x < w,
        0 <= y < h,
    ensures
        ({
            let (tile, at, ch) = (
                tile_pixels(rows, pal, w, h),
                4 * (y * w + x),
                rows[y][x],
            );
            &&& tile.len() == 4 * (w * h)
            &&& ch == '.' || ch == '0' ==> tile[at] == 0 && tile[at + 1] == 0 && tile[at + 2] == 0
                && tile[at + 3] == 0
            &&& '1' <= ch <= '9' ==> {
                let c = pal[ch as int - '0' as int];
                tile[at] == c.r && tile[at + 1] == c.g && tile[at + 2] == c.b && tile[at + 3]
                    == 255
            }
        }),
{
    lemma_byte_at(x, y, w as int, h as int, 0);
    lemma_byte_at(x, y, w as int, h as int, 1);
    lemma_byte_at(x, y, w as int, h as int, 2);
    lemma_byte_at(x, y, w as int, h as int, 3);
    assert(w * h * 4 == 4 * (w * h));
}

/// A baked sprite shows its frames: the tile of a frame, a variant and a sequence holds, in column
/// `x` and row `y`, the texel of the character that the frame has there, in the variant's tints.
pub proof fn law_a_sprite_shows_its_frames(
    b: BakedSprite,
    art: SpriteArt,
    who: Seq<char>,
    v: int,
    s: int,
    f: int,
    x: int,
    y: int,
    channel: int,
)
    requires
        is_bake_of(b, art, who),
        0 <= v < art.variants,
        0 <= s < art.seqs@.len(),
        0 <= f < art.seqs@[s].frames@.len(),
        0 <= x < art.texel_w(),
        0 <= y < art.texel_h(),
        0 <= channel < 4,
    ensures
        ({
            let tile = b.tile_at(v, s, f) as int;
            &&& tile < b.bake_count
            &&& b.strip()[((y * (art.texel_w() * b.bake_count)) + (tile * art.texel_w() + x)) * 4
                + channel] == texel(
                texts(art.seqs@[s].frames@[f]@)[y][x],
                tinted_palette(palette(texts(art.pal@)), v),
                channel,
            )
        }),
{
    let keys = tile_keys(seq_texts(art.seqs@), art.variants as nat);
    let tile = b.tile_at(v, s, f) as int;
    law_strip_shows_the_art(
        keys,
        palette(texts(art.pal@)),
        art.texel_w(),
        art.texel_h(),
        tile,
        x,
        y,
        channel,
    );
    assert(keys[tile] == (v as nat, seq_texts(art.seqs@)[s][f]));
}

/// A mirrored tile is the same part of the strip run back: it starts where the plain one ends and
/// goes as far the other way. The first tile starts at the strip's left, and the only tile of one is
/// all of it.
pub proof fn law_a_mirrored_tile_runs_back(tile: nat, count: nat)
    ensures
        ({
            let (plain, back) = (strip_rect(tile, count, false), strip_rect(tile, count, true));
            &&& back.u0 == plain.u0.sum(plain.du)
            &&& back.du == plain.du.negated()
            &&& plain.v0 == num(0) && back.v0 == num(0)
            &&& plain.dv == one() && back.dv == one()
            &&& count <= 1 ==> plain.du == one()
        }),
        0 < count < 0x100_0000 ==> strip_rect(0, count, false).u0.is_zero_spec(),
{
    law_small_whole_numbers_are_exact(1);
    law_small_whole_numbers_are_exact(0);
    if count <= 1 {
        lemma_one();
        lemma_pow2_pos(149);
        lemma_same_bits(whole_number(1), one());
        law_itself_goes_in_once(one());
    }
    if 0 < count < 0x100_0000 {
        law_small_whole_numbers_are_exact(count as int);
        lemma_pow2_pos(149);
        let all = whole_number(count);
        let unit = pow2(149) as int;
        assert(unit <= count * unit) by (nonlinear_arith)
            requires
                1 <= count,
                0 < unit,
        ;
        lemma_one();
        lemma_values_in_order(one(), all);
        law_quotients_keep_order(one(), all, all);
        law_itself_goes_in_once(all);
        law_quotients_keep_order(num(0), one(), all);
        lemma_zero_over(num(0), all);
        let du = one().quotient(all);
        assert(du.is_finite());
        assert(whole_number(0).is_zero_spec()) by {
            assert(0 * pow2(149) == 0);
            lemma_values_in_order(whole_number(0), num(0));
            lemma_values_in_order(num(0), whole_number(0));
        }
        law_products_commute(whole_number(0), du);
        law_times_zero_is_zero(du, whole_number(0));
    }
}

proof fn lemma_same_bits(a: Number, b: Number)
    requires
        is_whole(a, 1),
        is_whole(b, 1),
        !a.negative(),
        !b.negative(),
    ensures
        a == b,
{
    lemma_values_in_order(a, b);
    lemma_values_in_order(b, a);
}

/// A sequence plays as it was authored: in its own mode and with its own blink, at its own rate where
/// it has one and at the sprite's where it has none. Where its pose has a scale of a half, a whole
/// rate is halved.
pub proof fn law_a_sequence_plays_as_authored(
    spec: SeqSpec,
    seq: ContentSeq,
    art: ContentArt,
    opts: FromContentOpts,
    rate: int,
)
    requires
        is_seq_of(spec, seq, art, opts),
    ensures
        spec.mode == seq.mode,
        spec.blink_every == seq.blink_every,
        spec.blink_for == seq.blink_for,
        ({
            let scale = scale_of(opts.rate_scale@, seq.pose, 0);
            let own = if seq.fps.is_zero_spec() {
                art.fps
            } else {
                seq.fps
            };
            &&& scale is None ==> spec.fps == own
            &&& scale == Some(one()) && own.is_number() ==> spec.fps == own
            &&& scale == Some(num(0x3f00_0000)) && is_whole(own, rate) && -0x100_0000 < rate
                < 0x100_0000 ==> is_halves(spec.fps, rate)
        }),
{
    let own = if seq.fps.is_zero_spec() {
        art.fps
    } else {
        seq.fps
    };
    if own.is_number() {
        law_times_one_is_itself(own);
    }
    if is_whole(own, rate) && -0x100_0000 < rate < 0x100_0000 {
        law_half_of_a_whole_is_exact(own, rate);
    }
}

/// A record's own count of variants stands unless the caller overrides it, and is never below none.
pub proof fn law_the_caller_overrides_the_variants(art: ContentArt, opts: FromContentOpts)
    ensures
        opts.variants matches Some(n) ==> variants_of(art, opts) == n,
        opts.variants is None && art.variants >= 0 ==> variants_of(art, opts) == art.variants,
        opts.variants is None && art.variants < 0 ==> variants_of(art, opts) == 0,
{
}

proof fn lemma_filmstrip_after(before: Seq<Seq<char>>, more: Seq<Seq<char>>)
    requires
        filmstrip(before).1.len() == 0,
    ensures
        filmstrip(before + more).0 == filmstrip(before).0 + filmstrip(more).0,
        filmstrip(before + more).1 == filmstrip(more).1,
    decreases more.len(),
{
    let none = Seq::<Seq<char>>::empty();
    if more.len() == 0 {
        assert(before + more =~= before);
        assert(filmstrip(before).0 + filmstrip(more).0 =~= filmstrip(before).0);
        assert(filmstrip(before).1 =~= none);
    } else {
        let less = more.drop_last();
        lemma_filmstrip_after(before, less);
        assert((before + more).drop_last() =~= before + less);
        assert((before + more).last() == more.last());
        let (closed, open_rows) = filmstrip(less);
        if more.last().len() == 0 && open_rows.len() > 0 {
            assert((filmstrip(before).0 + closed).push(open_rows) =~= filmstrip(before).0
                + closed.push(open_rows));
        }
    }
}

/// A blank line sets frames apart and nothing else does: what stands before it and what stands after
/// it are split each by itself, and lines with none between them are one frame.
pub proof fn law_a_blank_line_sets_frames_apart(
    before: Seq<Seq<char>>,
    blank: Seq<char>,
    after: Seq<Seq<char>>,
)
    requires
        blank.len() == 0,
    ensures
        frames_in(before.push(blank) + after) == frames_in(before) + frames_in(after),
        before.len() > 0 && (forall|i: int|
            0 <= i < before.len() ==> (#[trigger] before[i]).len() > 0) ==> frames_in(before)
            == seq![before],
{
    let cut = before.push(blank);
    assert(cut.drop_last() =~= before);
    assert(cut.last() == blank);
    let (closed, open_rows) = filmstrip(before);
    assert(filmstrip(cut).0 == frames_in(before));
    assert(filmstrip(cut).1.len() == 0);
    lemma_filmstrip_after(cut, after);
    let (later, rest) = filmstrip(after);
    if rest.len() > 0 {
        assert((frames_in(before) + later).push(rest) =~= frames_in(before) + later.push(rest));
    }
    if before.len() > 0 && (forall|i: int|
        0 <= i < before.len() ==> (#[trigger] before[i]).len() > 0) {
        lemma_one_run(before);
        assert(frames_in(before) =~= seq![before]);
    }
}

proof fn lemma_one_run(lines: Seq<Seq<char>>)
    requires
        forall|i: int| 0 <= i < lines.len() ==> (#[trigger] lines[i]).len() > 0,
    ensures
        filmstrip(lines).0.len() == 0,
        filmstrip(lines).1 == lines,
    decreases lines.len(),
{
    if lines.len() > 0 {
        let less = lines.drop_last();
        assert forall|i: int| 0 <= i < less.len() implies (#[trigger] less[i]).len() > 0 by {
            assert(lines[i].len() > 0);
        }
        lemma_one_run(less);
        assert(lines.last().len() > 0) by {
            assert(lines[lines.len() - 1].len() > 0);
        }
        assert(less.push(lines.last()) =~= lines);
    } else {
        assert(filmstrip(lines).1 =~= lines);
    }
}

/// A frame is at fault for its rows when it has more or fewer than it should, and the first such one
/// is told of, by its place and how many it has.
pub proof fn law_the_first_misfit_is_told_of(
    frames: Seq<Seq<Seq<char>>>,
    cells_h: nat,
    who: Seq<char>,
    from: nat,
)
    ensures
        match row_fault(frames, cells_h, who, from) {
            None => forall|i: int|
                from <= i < frames.len() ==> (#[trigger] frames[i]).len() == cells_h,
            Some(SpriteFault::FrameRows { who: name, frame, rows, expected }) => {
                &&& name == who
                &&& from <= frame < frames.len()
                &&& rows == frames[frame as int].len()
                &&& rows != cells_h
                &&& expected == cells_h
                &&& forall|i: int|
                    from <= i < frame ==> (#[trigger] frames[i]).len() == cells_h
            },
            Some(_) => false,
        },
    decreases frames.len() - from,
{
    if from < frames.len() && frames[from as int].len() == cells_h {
        law_the_first_misfit_is_told_of(frames, cells_h, who, from + 1);
    }
}

/// An id is looked up by its first entry: what is found is the code of one that has the id, with none
/// before it, and nothing is found just where no entry has it.
pub proof fn law_an_id_is_looked_up(table: Seq<(String, u16)>, id: Seq<char>, i: nat)
    ensures
        code_in(table, id, i) matches Some(code) ==> exists|k: int|
            i <= k < table.len() && (#[trigger] table[k]).0@ == id && table[k].1 == code && forall|
                j: int,
            |
                i <= j < k ==> (#[trigger] table[j]).0@ != id,
        code_in(table, id, i) is None ==> forall|k: int|
            i <= k < table.len() ==> (#[trigger] table[k]).0@ != id,
    decreases table.len() - i,
{
    if i < table.len() {
        if table[i as int].0@ == id {
            assert(table[i as int].1 == code_in(table, id, i)->0);
        } else {
            law_an_id_is_looked_up(table, id, i + 1);
            if code_in(table, id, i) is Some {
                let code = code_in(table, id, i)->0;
                let k = choose|k: int|
                    i + 1 <= k < table.len() && (#[trigger] table[k]).0@ == id && table[k].1 == code
                        && forall|j: int| i + 1 <= j < k ==> (#[trigger] table[j]).0@ != id;
                assert(forall|j: int| i <= j < k ==> (#[trigger] table[j]).0@ != id);
                assert(table[k].0@ == id);
            }
        }
    }
}

/// A pose has the scale that is given for it: that of an entry of its own, and none just where it has
/// no entry.
pub proof fn law_a_pose_has_its_own_scale(scales: Seq<(Pose, Number)>, pose: Pose, i: nat)
    ensures
        scale_of(scales, pose, i) matches Some(scale) ==> scales.contains((pose, scale)),
        scale_of(scales, pose, i) is None ==> forall|k: int|
            i <= k < scales.len() ==> (#[trigger] scales[k]).0 != pose,
    decreases scales.len() - i,
{
    if i < scales.len() {
        if scales[i as int].0 == pose {
            assert(scales[i as int] == (pose, scales[i as int].1));
        } else {
            law_a_pose_has_its_own_scale(scales, pose, i + 1);
        }
    }
}

/// Every slot with something in it is counted once: a further slot adds one to the count if it has
/// something in it and none if not, and the count is none of none.
pub proof fn law_every_filled_slot_counts<A>(slots: Seq<Option<A>>, more: Option<A>)
    ensures
        filled(Seq::<Option<A>>::empty(), 0) == 0,
        filled(slots.push(more), slots.len() + 1) == filled(slots, slots.len()) + (if more is Some {
            1nat
        } else {
            0nat
        }),
{
    lemma_filled_before(slots, more, slots.len());
}

proof fn lemma_filled_before<A>(slots: Seq<Option<A>>, more: Option<A>, n: nat)
    requires
        n <= slots.len(),
    ensures
        filled(slots.push(more), n) == filled(slots, n),
    decreases n,
{
    if n > 0 {
        lemma_filled_before(slots, more, (n - 1) as nat);
    }
}

/// A sprite keeps the shape that its art says: as many cells across and down, five pixels to each, and
/// as many texels to a cell as its grain, each way its own.
pub proof fn law_a_sprite_has_the_shape_of_its_art(
    b: BakedSprite,
    sprite: SpriteArt,
    art: ContentArt,
    opts: FromContentOpts,
    who: Seq<char>,
)
    requires
        is_art_of(sprite, art, opts),
        is_bake_of(b, sprite, who),
    ensures
        b.cells_w == art.cells_w,
        b.cells_h == art.cells_h,
        b.w_px == 5 * art.cells_w,
        b.h_px == 5 * art.cells_h,
        sprite.texel_w() == art.cells_w * b.grain,
        sprite.texel_h() == art.cells_h * b.grain,
        art.rows() == sprite.texel_h(),
        art.grain >= 1 ==> b.grain == art.grain,
        art.grain < 1 ==> b.grain == 1,
        b.strip().len() == sprite.texel_w() * b.bake_count * sprite.texel_h() * 4,
{
}

/// A palette is refused for its first colour that cannot be read, and only for one: the entry at the
/// start stands for nothing and is not read at all.
pub proof fn law_a_bad_colour_is_told_of(pal: Seq<Seq<char>>, who: Seq<char>, i: nat)
    ensures
        palette_fault(pal, who, i) is None ==> forall|k: int|
            i <= k < pal.len() && 0 < k ==> hex_colour(#[trigger] pal[k]) is Some,
        palette_fault(pal, who, i) matches Some(fault) ==> exists|k: int|
            i <= k < pal.len() && 0 < k && hex_colour(#[trigger] pal[k]) is None && fault == (
            SpriteFault::Palette { who, entry: pal[k] }) && forall|j: int|
                i <= j < k && 0 < j ==> hex_colour(#[trigger] pal[j]) is Some,
    decreases pal.len() - i,
{
    if i < pal.len() {
        if i > 0 && hex_colour(pal[i as int]) is None {
            assert(hex_colour(pal[i as int]) is None);
        } else {
            law_a_bad_colour_is_told_of(pal, who, i + 1);
            if palette_fault(pal, who, i) is Some {
                let fault = palette_fault(pal, who, i)->0;
                let k = choose|k: int|
                    i + 1 <= k < pal.len() && 0 < k && hex_colour(#[trigger] pal[k]) is None && fault
                        == (SpriteFault::Palette { who, entry: pal[k] }) && forall|j: int|
                        i + 1 <= j < k && 0 < j ==> hex_colour(#[trigger] pal[j]) is Some;
                assert(hex_colour(pal[k]) is None);
                assert(forall|j: int|
                    i <= j < k && 0 < j ==> hex_colour(#[trigger] pal[j]) is Some);
            }
        }
    }
}

} // verus!
