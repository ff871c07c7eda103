//! Rasterising: palette entries to colours, one frame to one tile, and tiles to one strip.

use vstd::arithmetic::div_mod::*;
use vstd::prelude::*;
use vstd::string::*;

use crate::sprite::error::{SpriteError, SpriteFault, VARIANT_COUNT};
use crate::sprite::frames::{Frame, texts};
use crate::text::chars_of;

verus! {

/// A colour, eight bits to a channel.
#[derive(Clone, Copy, Debug, PartialEq, Eq, Structural)]
pub struct Rgb {
    pub r: u8,
    pub g: u8,
    pub b: u8,
}

/// A colour tilt: what each channel is multiplied by, in hundredths.
#[derive(Clone, Copy, Debug, PartialEq, Eq, Structural)]
pub struct Tint {
    pub r: u32,
    pub g: u32,
    pub b: u32,
}

/// The colour tilt of a variant.
///
/// Two of the same species standing side by side should not be pixel-identical. How much they may
/// differ is one decision for the whole game, so the tilts are a table here and not authored.
pub open spec fn variant_tint(variant: int) -> Tint {
    if variant == 0 {
        Tint { r: 100, g: 100, b: 100 }
    } else if variant == 1 {
        Tint { r: 112, g: 102, b: 90 }
    } else {
        Tint { r: 90, g: 99, b: 114 }
    }
}

/// The colour tilt of a variant. See [`variant_tint`].
pub fn tint_of(variant: usize) -> (tint: Tint)
    requires
        variant < VARIANT_COUNT,
    ensures
        tint == variant_tint(variant as int),
{
    if variant == 0 {
        Tint { r: 100, g: 100, b: 100 }
    } else if variant == 1 {
        Tint { r: 112, g: 102, b: 90 }
    } else {
        Tint { r: 90, g: 99, b: 114 }
    }
}

/// A channel through a tilt: rounded to the nearest step, and saturating rather than wrapping.
pub open spec fn tinted_channel(channel: u8, hundredths: u32) -> u8 {
    let scaled = (channel * hundredths + 50) / 100;
    if scaled > 255 {
        255
    } else {
        scaled as u8
    }
}

/// A colour through a tilt.
pub open spec fn tinted_colour(c: Rgb, tint: Tint) -> Rgb {
    Rgb {
        r: tinted_channel(c.r, tint.r),
        g: tinted_channel(c.g, tint.g),
        b: tinted_channel(c.b, tint.b),
    }
}

fn tint_channel(channel: u8, hundredths: u32) -> (out: u8)
    ensures
        out == tinted_channel(channel, hundredths),
{
    assert(0 <= channel as int * hundredths as int <= 255 * 0xffff_ffff) by (nonlinear_arith)
        requires
            0 <= channel <= 255,
            0 <= hundredths <= 0xffff_ffff,
    ;
    let scaled: u64 = (channel as u64 * hundredths as u64 + 50) / 100;
    if scaled > 255 {
        255
    } else {
        scaled as u8
    }
}

/// One palette entry through one variant tilt.
pub fn tinted(c: Rgb, tint: Tint) -> (out: Rgb)
    ensures
        out == tinted_colour(c, tint),
{
    Rgb {
        r: tint_channel(c.r, tint.r),
        g: tint_channel(c.g, tint.g),
        b: tint_channel(c.b, tint.b),
    }
}

/// What a hex digit of either case stands for.
pub open spec fn hex_digit_value(c: char) -> Option<int> {
    if '0' <= c <= '9' {
        Some(c as int - '0' as int)
    } else if 'a' <= c <= 'f' {
        Some(c as int - 'a' as int + 10)
    } else if 'A' <= c <= 'F' {
        Some(c as int - 'A' as int + 10)
    } else {
        None
    }
}

/// The byte two hex digits stand for.
pub open spec fn hex_byte(hi: char, lo: char) -> Option<u8> {
    match (hex_digit_value(hi), hex_digit_value(lo)) {
        (Some(h), Some(l)) => Some((h * 16 + l) as u8),
        _ => None,
    }
}

/// The colour a palette entry stands for: `#rrggbb` and nothing else.
pub open spec fn hex_colour(entry: Seq<char>) -> Option<Rgb> {
    if entry.len() != 7 || entry[0] != '#' {
        None
    } else {
        match (
            hex_byte(entry[1], entry[2]),
            hex_byte(entry[3], entry[4]),
            hex_byte(entry[5], entry[6]),
        ) {
            (Some(r), Some(g), Some(b)) => Some(Rgb { r, g, b }),
            _ => None,
        }
    }
}

fn digit_of(c: char) -> (v: Option<u8>)
    ensures
        match v {
            Some(n) => hex_digit_value(c) == Some(n as int) && n < 16,
            None => hex_digit_value(c) is None,
        },
{
    if '0' <= c && c <= '9' {
        Some((c as u32 - 48) as u8)
    } else if 'a' <= c && c <= 'f' {
        Some((c as u32 - 87) as u8)
    } else if 'A' <= c && c <= 'F' {
        Some((c as u32 - 55) as u8)
    } else {
        None
    }
}

fn byte_of(hi: char, lo: char) -> (v: Option<u8>)
    ensures
        v == hex_byte(hi, lo),
{
    match (digit_of(hi), digit_of(lo)) {
        (Some(h), Some(l)) => Some(h * 16 + l),
        _ => None,
    }
}

/// `#rrggbb` and nothing else.
pub fn parse_hex(entry: &str, who: &str) -> (out: Result<Rgb, SpriteError>)
    ensures
        match out {
            Ok(c) => hex_colour(entry@) == Some(c),
            Err(e) => hex_colour(entry@) is None && e@ == (SpriteFault::Palette {
                who: who@,
                entry: entry@,
            }),
        },
{
    let b: Vec<char> = chars_of(entry);
    if b.len() == 7 && b[0] == '#' {
        if let (Some(r), Some(g), Some(b)) = (
            byte_of(b[1], b[2]),
            byte_of(b[3], b[4]),
            byte_of(b[5], b[6]),
        ) {
            return Ok(Rgb { r, g, b });
        }
    }
    Err(SpriteError::Palette { who: String::from_str(who), entry: String::from_str(entry) })
}

/// Whether a frame character paints nothing.
pub open spec fn is_clear(ch: char) -> bool {
    ch == '.' || ch == '0'
}

/// The palette index a frame character names.
pub open spec fn palette_index(ch: char) -> int {
    ch as int - '0' as int
}

/// Whether a frame character is transparent or names a colour of a palette of `colours` entries.
/// Only the digits name colours, however many there are.
pub open spec fn is_legal(ch: char, colours: nat) -> bool {
    is_clear(ch) || ('1' <= ch <= '9' && palette_index(ch) < colours)
}

/// The first character of a row, from column `col` on, that is not legal.
pub open spec fn cell_fault(
    line: Seq<char>,
    colours: nat,
    who: Seq<char>,
    row: nat,
    col: nat,
) -> Option<SpriteFault>
    decreases line.len() - col,
{
    if col >= line.len() {
        None
    } else if !is_legal(line[col as int], colours) {
        Some(SpriteFault::PaletteIndex { who, row, col, ch: line[col as int] })
    } else {
        cell_fault(line, colours, who, row, col + 1)
    }
}

/// What is wrong with the rows of a frame from `row` on, reading down and then across.
pub open spec fn grid_fault(
    rows: Seq<Seq<char>>,
    colours: nat,
    w: nat,
    who: Seq<char>,
    row: nat,
) -> Option<SpriteFault>
    decreases rows.len() - row,
{
    if row >= rows.len() {
        None
    } else if rows[row as int].len() != w {
        Some(SpriteFault::RowWidth { who, row, chars: rows[row as int].len(), expected: w })
    } else {
        match cell_fault(rows[row as int], colours, who, row, 0) {
            Some(fault) => Some(fault),
            None => grid_fault(rows, colours, w, who, row + 1),
        }
    }
}

/// What is wrong with a frame that should be `w` by `h` texels of a palette of `colours` entries.
pub open spec fn frame_fault(
    rows: Seq<Seq<char>>,
    colours: nat,
    w: nat,
    h: nat,
    who: Seq<char>,
) -> Option<SpriteFault> {
    if rows.len() != h {
        Some(SpriteFault::FrameRows { who, frame: 0, rows: rows.len(), expected: h })
    } else {
        grid_fault(rows, colours, w, who, 0)
    }
}

/// Every row is `w` characters, and every character is legal.
pub open spec fn is_painted(rows: Seq<Seq<char>>, colours: nat, w: nat, from: nat) -> bool {
    &&& forall|r: int| from <= r < rows.len() ==> (#[trigger] rows[r]).len() == w
    &&& forall|r: int, c: int|
        from <= r < rows.len() && 0 <= c < rows[r].len() ==> is_legal(#[trigger] rows[r][c], colours)
}

proof fn lemma_cell_fault(line: Seq<char>, colours: nat, who: Seq<char>, row: nat, col: nat)
    ensures
        cell_fault(line, colours, who, row, col) is None <==> (forall|c: int|
            col <= c < line.len() ==> is_legal(#[trigger] line[c], colours)),
    decreases line.len() - col,
{
    if col < line.len() {
        lemma_cell_fault(line, colours, who, row, col + 1);
        if is_legal(line[col as int], colours) {
            assert(cell_fault(line, colours, who, row, col) == cell_fault(
                line,
                colours,
                who,
                row,
                col + 1,
            ));
        }
    }
}

proof fn lemma_grid_fault(rows: Seq<Seq<char>>, colours: nat, w: nat, who: Seq<char>, row: nat)
    ensures
        grid_fault(rows, colours, w, who, row) is None <==> is_painted(rows, colours, w, row),
    decreases rows.len() - row,
{
    if row < rows.len() {
        lemma_grid_fault(rows, colours, w, who, row + 1);
        lemma_cell_fault(rows[row as int], colours, who, row, 0);
        let line = rows[row as int];
        if line.len() == w && cell_fault(line, colours, who, row, 0) is None {
            if is_painted(rows, colours, w, row + 1) {
                assert(is_painted(rows, colours, w, row)) by {
                    assert forall|r: int, c: int|
                        row <= r < rows.len() && 0 <= c < rows[r].len() implies is_legal(
                        #[trigger] rows[r][c],
                        colours,
                    ) by {
                        if r == row {
                            assert(is_legal(line[c], colours));
                        }
                    }
                }
            }
        } else if is_painted(rows, colours, w, row) {
            assert(rows[row as int].len() == w);
            assert forall|c: int| 0 <= c < line.len() implies is_legal(#[trigger] line[c], colours) by {
                assert(is_legal(rows[row as int][c], colours));
            }
        }
    }
}

/// A frame bakes exactly when it has `h` rows of `w` characters and every one of them is
/// transparent or names a colour of the palette.
pub proof fn law_frame_bakes_when_it_fits(
    rows: Seq<Seq<char>>,
    colours: nat,
    w: nat,
    h: nat,
    who: Seq<char>,
)
    ensures
        frame_fault(rows, colours, w, h, who) is None <==> rows.len() == h && is_painted(
            rows,
            colours,
            w,
            0,
        ),
{
    lemma_grid_fault(rows, colours, w, who, 0);
}

/// One channel of the texel a frame character paints: red, green, blue, coverage.
pub open spec fn texel(ch: char, pal: Seq<Rgb>, channel: int) -> u8 {
    if is_clear(ch) {
        0
    } else {
        let c = pal[palette_index(ch)];
        if channel == 0 {
            c.r
        } else if channel == 1 {
            c.g
        } else if channel == 2 {
            c.b
        } else {
            255
        }
    }
}

/// A frame's texels: row by row, four bytes to a texel.
pub open spec fn tile_pixels(rows: Seq<Seq<char>>, pal: Seq<Rgb>, w: nat, h: nat) -> Seq<u8> {
    Seq::new(
        w * h * 4,
        |i: int| texel(rows[i / 4 / (w as int)][i / 4 % (w as int)], pal, i % 4),
    )
}

/// A byte's place in a picture `w` wide and `h` high is one of its texels.
pub proof fn lemma_in_picture(i: int, w: int, h: int)
    requires
        0 <= i < w * h * 4,
        0 < w,
    ensures
        0 <= i / 4 < w * h,
        0 <= i / 4 / w < h,
        0 <= i / 4 % w < w,
{
    let p = i / 4;
    lemma_fundamental_div_mod(p, w);
    lemma_mod_bound(p, w);
    lemma_div_pos_is_pos(p, w);
    let y = p / w;
    assert(y < h) by (nonlinear_arith)
        requires
            p == w * y + p % w,
            0 <= p % w,
            p < w * h,
            0 < w,
    ;
}

/// The byte of the texel in column `x` of row `y`.
pub open spec fn byte_at(x: int, y: int, w: int, channel: int) -> int {
    (y * w + x) * 4 + channel
}

/// Where [`byte_at`] stands, read back.
pub proof fn lemma_byte_at(x: int, y: int, w: int, h: int, channel: int)
    requires
        0 <= x < w,
        0 <= y < h,
        0 <= channel < 4,
    ensures
        0 <= byte_at(x, y, w, channel) < w * h * 4,
        byte_at(x, y, w, channel) % 4 == channel,
        byte_at(x, y, w, channel) / 4 == y * w + x,
        byte_at(x, y, w, channel) / 4 / w == y,
        byte_at(x, y, w, channel) / 4 % w == x,
{
    let p = y * w + x;
    assert(0 <= p < w * h) by (nonlinear_arith)
        requires
            0 <= x < w,
            0 <= y < h,
            p == y * w + x,
    ;
    lemma_fundamental_div_mod_converse(p, w, y, x);
}

fn code_of(ch: char) -> (code: u32)
    ensures
        code == ch as int,
{
    ch as u32
}

/// Rasterise one frame into a fresh tile. The dimensions arrive in texels, and a frame's text
/// must match them exactly.
pub fn bake_frame(frame: &Frame, pal: &Vec<Rgb>, w: u32, h: u32, who: &str) -> (out: Result<
    Vec<u8>,
    SpriteError,
>)
    ensures
        match out {
            Ok(px) => {
                &&& frame_fault(texts(frame@), pal@.len(), w as nat, h as nat, who@) is None
                &&& px@ == tile_pixels(texts(frame@), pal@, w as nat, h as nat)
            },
            Err(e) => frame_fault(texts(frame@), pal@.len(), w as nat, h as nat, who@) == Some(
                e@,
            ),
        },
{
    let ghost rows = texts(frame@);
    if frame.len() != h as usize {
        return Err(
            SpriteError::FrameRows {
                who: String::from_str(who),
                frame: 0,
                rows: frame.len(),
                expected: h,
            },
        );
    }
    let mut out: Vec<u8> = Vec::new();
    let mut row: usize = 0;
    assert(rows.len() * w == w * h) by (nonlinear_arith)
        requires
            rows.len() == h,
    ;
    while row < frame.len()
        invariant
            row <= frame.len(),
            frame.len() == h,
            rows == texts(frame@),
            frame_fault(rows, pal@.len(), w as nat, h as nat, who@) == grid_fault(
                rows,
                pal@.len(),
                w as nat,
                who@,
                row as nat,
            ),
            out@.len() == row * w * 4,
            forall|i: int|
                0 <= i < out@.len() ==> #[trigger] out@[i] == tile_pixels(
                    rows,
                    pal@,
                    w as nat,
                    h as nat,
                )[i],
            row * w * 4 <= w * h * 4,
        decreases frame.len() - row,
    {
        let line: Vec<char> = chars_of(frame[row].as_str());
        assert(rows[row as int] == line@);
        if line.len() != w as usize {
            return Err(
                SpriteError::RowWidth {
                    who: String::from_str(who),
                    row,
                    chars: line.len(),
                    expected: w,
                },
            );
        }
        let ghost start = out@.len();
        let mut col: usize = 0;
        while col < line.len()
            invariant
                col <= line.len(),
                line.len() == w,
                row < frame.len(),
                frame.len() == h,
                rows == texts(frame@),
                rows[row as int] == line@,
                frame_fault(rows, pal@.len(), w as nat, h as nat, who@) == grid_fault(
                    rows,
                    pal@.len(),
                    w as nat,
                    who@,
                    row as nat,
                ),
                cell_fault(line@, pal@.len(), who@, row as nat, 0) == cell_fault(
                    line@,
                    pal@.len(),
                    who@,
                    row as nat,
                    col as nat,
                ),
                out@.len() == (row * w + col) * 4,
                forall|i: int|
                    0 <= i < out@.len() ==> #[trigger] out@[i] == tile_pixels(
                        rows,
                        pal@,
                        w as nat,
                        h as nat,
                    )[i],
            decreases line.len() - col,
        {
            let ch: char = line[col];
            let mut px: (u8, u8, u8, u8) = (0, 0, 0, 0);
            if ch != '.' && ch != '0' {
                let code: u32 = code_of(ch);
                if code < 48 || code > 57 || (code - 48) as usize >= pal.len() {
                    return Err(
                        SpriteError::PaletteIndex { who: String::from_str(who), row, col, ch },
                    );
                }
                let c: Rgb = pal[(code - 48) as usize];
                px = (c.r, c.g, c.b, 255);
            }
            let ghost before = out@;
            out.push(px.0);
            out.push(px.1);
            out.push(px.2);
            out.push(px.3);
            proof {
                lemma_byte_at(col as int, row as int, w as int, h as int, 0);
                lemma_byte_at(col as int, row as int, w as int, h as int, 1);
                lemma_byte_at(col as int, row as int, w as int, h as int, 2);
                lemma_byte_at(col as int, row as int, w as int, h as int, 3);
                let tile = tile_pixels(rows, pal@, w as nat, h as nat);
                assert(tile[byte_at(col as int, row as int, w as int, 0)] == px.0);
                assert(tile[byte_at(col as int, row as int, w as int, 1)] == px.1);
                assert(tile[byte_at(col as int, row as int, w as int, 2)] == px.2);
                assert(tile[byte_at(col as int, row as int, w as int, 3)] == px.3);
                assert forall|i: int| 0 <= i < out@.len() implies #[trigger] out@[i] == tile[i] by {
                    if i < before.len() {
                        assert(out@[i] == before[i]);
                    }
                }
            }
            col = col + 1;
        }
        row = row + 1;
        assert(row * w == (row - 1) * w + w) by (nonlinear_arith);
        assert(row * w <= w * h) by (nonlinear_arith)
            requires
                row <= h,
        ;
    }
    assert(rows.len() * w * 4 == w * h * 4) by (nonlinear_arith)
        requires
            rows.len() == h,
    ;
    assert(out@ =~= tile_pixels(rows, pal@, w as nat, h as nat));
    Ok(out)
}

/// Tiles laid left to right in one picture: the byte at a column and row of the strip is the
/// byte at the tile's own column and the same row.
pub open spec fn strip_pixels(tiles: Seq<Seq<u8>>, w: nat, h: nat) -> Seq<u8> {
    let across = (w * tiles.len()) as int;
    Seq::new(
        w * tiles.len() * h * 4,
        |i: int|
            tiles[i / 4 % across / (w as int)][byte_at(
                i / 4 % across % (w as int),
                i / 4 / across,
                w as int,
                i % 4,
            )],
    )
}

/// The tiles' bytes, as a sequence of sequences.
pub open spec fn tile_bytes(tiles: Seq<Vec<u8>>) -> Seq<Seq<u8>> {
    Seq::new(tiles.len(), |i: int| tiles[i]@)
}

/// Lay the baked tiles out left to right into one strip.
pub fn assemble_strip(tiles: &Vec<Vec<u8>>, w: u32, h: u32) -> (out: Vec<u8>)
    requires
        w * h * 4 <= u32::MAX,
        w * tiles@.len() * h * 4 <= usize::MAX,
        w * tiles@.len() <= usize::MAX,
        forall|t: int| 0 <= t < tiles@.len() ==> (#[trigger] tiles@[t])@.len() == w * h * 4,
    ensures
        out@ == strip_pixels(tile_bytes(tiles@), w as nat, h as nat),
{
    let mut out: Vec<u8> = Vec::new();
    let across: usize = w as usize * tiles.len();
    assert(0 <= across * h) by (nonlinear_arith)
        requires
            0 <= across,
            0 <= h,
    ;
    let total: usize = across * h as usize * 4;
    let mut i: usize = 0;
    while i < total
        invariant
            i <= total,
            across == w * tiles@.len(),
            total == across * h * 4,
            w * h * 4 <= u32::MAX,
            forall|t: int| 0 <= t < tiles@.len() ==> (#[trigger] tiles@[t])@.len() == w * h * 4,
            out@ =~= strip_pixels(tile_bytes(tiles@), w as nat, h as nat).take(i as int),
            out@.len() == i,
        decreases total - i,
    {
        proof {
            assert(across > 0) by (nonlinear_arith)
                requires
                    i < across * h * 4,
                    0 <= i,
                    0 <= across,
            ;
            assert(w > 0) by (nonlinear_arith)
                requires
                    across > 0,
                    across == w * tiles@.len(),
                    0 <= w,
            ;
            lemma_in_picture(i as int, across as int, h as int);
            lemma_mod_bound(i as int / 4, across as int);
        }
        let x: usize = i / 4 % across;
        let y: usize = i / 4 / across;
        let t: usize = x / w as usize;
        let c: usize = x % w as usize;
        proof {
            lemma_fundamental_div_mod(x as int, w as int);
            lemma_mod_bound(x as int, w as int);
            let n = tiles@.len() as int;
            assert(t < n) by (nonlinear_arith)
                requires
                    x == w * t + c,
                    0 <= c,
                    x < w * n,
                    0 < w,
            ;
            lemma_byte_at(c as int, y as int, w as int, h as int, i as int % 4);
            assert(0 <= y * w) by (nonlinear_arith)
                requires
                    0 <= y,
                    0 <= w,
            ;
        }
        let at: usize = (y * w as usize + c) * 4 + i % 4;
        out.push(tiles[t][at]);
        i = i + 1;
    }
    assert(out@ =~= strip_pixels(tile_bytes(tiles@), w as nat, h as nat));
    out
}

/// Every texel of every tile is in the strip, at the tile's own offset and nowhere else.
pub proof fn law_strip_holds_every_tile(
    tiles: Seq<Seq<u8>>,
    w: nat,
    h: nat,
    t: int,
    x: int,
    y: int,
    channel: int,
)
    requires
        0 <= t < tiles.len(),
        0 <= x < w,
        0 <= y < h,
        0 <= channel < 4,
    ensures
        ({
            let across = w * tiles.len();
            let at = byte_at(t * w + x, y, across as int, channel);
            &&& 0 <= at < strip_pixels(tiles, w, h).len()
            &&& strip_pixels(tiles, w, h)[at] == tiles[t][byte_at(x, y, w as int, channel)]
        }),
{
    let across = (w * tiles.len()) as int;
    let n = tiles.len() as int;
    assert(0 <= t * w + x < across) by (nonlinear_arith)
        requires
            0 <= t < n,
            0 <= x < w,
            across == w * n,
    ;
    lemma_byte_at(t * w + x, y, across, h as int, channel);
    lemma_fundamental_div_mod_converse(t * w + x, w as int, t, x);
}

} // verus!
