//! The backdrop's block grid and its dither.

use vstd::arithmetic::div_mod::*;
use vstd::prelude::*;

use crate::number::Number;
use crate::sky::mesh::ViewSize;
use crate::sprite::bake::{lemma_byte_at, lemma_in_picture};

verus! {

/// View pixels across one block of backdrop.
pub const SKY_PIXEL_PX: u32 = 5;

/// The edge of a block, in view pixels.
#[verifier::allow_in_spec]
pub fn block_px() -> Number
    returns
        (Number { bits: 0x40a0_0000 }),
{
    Number { bits: 0x40a0_0000 }
}

/// Blocks across one tile of the dither.
pub const BAYER_N: usize = 4;

/// The dither's thresholds: every number from 0 to 15 once, as far from its neighbours as the
/// matrix allows.
pub open spec fn bayer(row: int, col: int) -> int {
    if row == 0 {
        if col == 0 {
            0
        } else if col == 1 {
            8
        } else if col == 2 {
            2
        } else {
            10
        }
    } else if row == 1 {
        if col == 0 {
            12
        } else if col == 1 {
            4
        } else if col == 2 {
            14
        } else {
            6
        }
    } else if row == 2 {
        if col == 0 {
            3
        } else if col == 1 {
            11
        } else if col == 2 {
            1
        } else {
            9
        }
    } else {
        if col == 0 {
            15
        } else if col == 1 {
            7
        } else if col == 2 {
            13
        } else {
            5
        }
    }
}

/// The threshold of the block at `(bx, by)`: the matrix, tiled over the whole plane.
pub open spec fn threshold(bx: int, by: int) -> int {
    bayer(by % 4, bx % 4)
}

/// Where inside its own block the block at `(bx, by)` samples, in parts of 32.
pub open spec fn sampled(bx: int, by: int) -> int {
    2 * threshold(bx, by) + 1
}

fn wrap4(v: i32) -> (r: u32)
    ensures
        r == v as int % 4,
        r < 4,
{
    let w: i64 = v as i64 + 0x8000_0000;
    ((w as u64) % 4) as u32
}

/// Where inside its own block the block at `(bx, by)` samples, in parts of 32.
///
/// This is the entire dither. A block is one flat colour; all that moves is which row of the
/// smooth function underneath it took that colour from. Block indices are signed.
pub fn block_sample(bx: i32, by: i32) -> (at: u32)
    ensures
        at == sampled(bx as int, by as int),
        0 < at < 32,
{
    let row: u32 = wrap4(by);
    let col: u32 = wrap4(bx);
    let m: u32 = if row == 0 {
        if col == 0 {
            0
        } else if col == 1 {
            8
        } else if col == 2 {
            2
        } else {
            10
        }
    } else if row == 1 {
        if col == 0 {
            12
        } else if col == 1 {
            4
        } else if col == 2 {
            14
        } else {
            6
        }
    } else if row == 2 {
        if col == 0 {
            3
        } else if col == 1 {
            11
        } else if col == 2 {
            1
        } else {
            9
        }
    } else {
        if col == 0 {
            15
        } else if col == 1 {
            7
        } else if col == 2 {
            13
        } else {
            5
        }
    };
    2 * m + 1
}

/// The dither is a real ordered dither: each threshold from 0 to 15 is in the matrix, and no two
/// places of it hold the same one.
pub proof fn law_dither_is_a_permutation(row: int, col: int, row2: int, col2: int, m: int)
    requires
        0 <= row < 4,
        0 <= col < 4,
        0 <= row2 < 4,
        0 <= col2 < 4,
        0 <= m < 16,
    ensures
        0 <= bayer(row, col) < 16,
        bayer(row, col) == bayer(row2, col2) ==> row == row2 && col == col2,
        exists|r: int, c: int| 0 <= r < 4 && 0 <= c < 4 && #[trigger] bayer(r, c) == m,
{
    assert(bayer(0, 0) == 0 && bayer(0, 1) == 8 && bayer(0, 2) == 2 && bayer(0, 3) == 10);
    assert(bayer(1, 0) == 12 && bayer(1, 1) == 4 && bayer(1, 2) == 14 && bayer(1, 3) == 6);
    assert(bayer(2, 0) == 3 && bayer(2, 1) == 11 && bayer(2, 2) == 1 && bayer(2, 3) == 9);
    assert(bayer(3, 0) == 15 && bayer(3, 1) == 7 && bayer(3, 2) == 13 && bayer(3, 3) == 5);
}

/// A block samples strictly inside itself, and a whole tile of blocks samples, on average, at the
/// centre: the sixteen samples of 32 parts add up to sixteen halves.
pub proof fn law_dither_averages_to_the_centre(bx: int, by: int)
    ensures
        0 < sampled(bx, by) < 32,
        sampled(0, 0) + sampled(1, 0) + sampled(2, 0) + sampled(3, 0) + sampled(0, 1) + sampled(1, 1)
            + sampled(2, 1) + sampled(3, 1) + sampled(0, 2) + sampled(1, 2) + sampled(2, 2)
            + sampled(3, 2) + sampled(0, 3) + sampled(1, 3) + sampled(2, 3) + sampled(3, 3) == 16
            * 16,
{
}

/// The pattern tiles: four blocks over in either direction it is the same, on both sides of zero.
pub proof fn law_dither_tiles(bx: int, by: int, i: int, j: int)
    ensures
        sampled(bx + 4 * i, by + 4 * j) == sampled(bx, by),
{
}

/// How many whole blocks cover `px` view pixels. A view is at least one pixel.
pub open spec fn blocks_over(px: u32) -> int {
    let at_least = if px == 0 {
        1int
    } else {
        px as int
    };
    (at_least + SKY_PIXEL_PX - 1) / (SKY_PIXEL_PX as int)
}

fn count_blocks(px: u32) -> (n: usize)
    ensures
        n == blocks_over(px),
        0 < n,
        n <= px as int + 1,
{
    let at_least: u64 = if px == 0 {
        1
    } else {
        px as u64
    };
    ((at_least + 4) / 5) as usize
}

/// The block grid of a view: columns, then rows.
pub fn block_grid(view: ViewSize) -> (grid: (usize, usize))
    ensures
        grid.0 == blocks_over(view.w),
        grid.1 == blocks_over(view.h),
        0 < grid.0,
        0 < grid.1,
{
    (count_blocks(view.w), count_blocks(view.h))
}

/// The grid covers the view, and overhangs it by less than one block.
pub proof fn law_grid_covers_the_view(px: u32)
    requires
        px > 0,
    ensures
        blocks_over(px) * SKY_PIXEL_PX >= px,
        blocks_over(px) * SKY_PIXEL_PX < px + SKY_PIXEL_PX,
{
}

/// One texel: red, green, blue and coverage.
pub type Texel = [u8; 4];

/// The backdrop's texels: row by row, each row one of its four dither phases per column.
pub open spec fn gradient_bytes(phases: Seq<[Texel; 4]>, cols: nat, rows: nat) -> Seq<u8> {
    Seq::new(
        cols * rows * 4,
        |i: int| phases[i / 4 / (cols as int)]@[i / 4 % (cols as int) % 4]@[i % 4],
    )
}

/// Fill a block grid from the four colours of each row.
///
/// Every colour in a block row is a function of the dither phase alone, and there are only four
/// of those, so the ramp is worked out four times a row and the row is filled by repeating them.
pub fn paint_gradient(phases: &Vec<[Texel; 4]>, cols: usize, rows: usize) -> (out: Vec<u8>)
    requires
        phases@.len() == rows,
        cols * rows * 4 <= usize::MAX,
        cols * rows <= usize::MAX,
    ensures
        out@ == gradient_bytes(phases@, cols as nat, rows as nat),
{
    let mut out: Vec<u8> = Vec::new();
    let total: usize = cols * rows * 4;
    let mut i: usize = 0;
    while i < total
        invariant
            i <= total,
            phases@.len() == rows,
            total == cols * rows * 4,
            out@.len() == i,
            out@ =~= gradient_bytes(phases@, cols as nat, rows as nat).take(i as int),
        decreases total - i,
    {
        proof {
            assert(cols > 0) by (nonlinear_arith)
                requires
                    i < cols * rows * 4,
                    0 <= i,
                    0 <= cols,
            ;
            lemma_in_picture(i as int, cols as int, rows as int);
        }
        let row: usize = i / 4 / cols;
        let col: usize = i / 4 % cols;
        out.push(phases[row][col % BAYER_N][i % 4]);
        i = i + 1;
    }
    assert(out@ =~= gradient_bytes(phases@, cols as nat, rows as nat));
    out
}

/// Each block of the backdrop is one flat colour, the one its row has for the block's column in
/// the dither.
pub proof fn law_block_is_its_phase(
    phases: Seq<[Texel; 4]>,
    cols: nat,
    rows: nat,
    col: int,
    row: int,
    channel: int,
)
    requires
        phases.len() == rows,
        0 <= col < cols,
        0 <= row < rows,
        0 <= channel < 4,
    ensures
        gradient_bytes(phases, cols, rows)[crate::sprite::bake::byte_at(
            col,
            row,
            cols as int,
            channel,
        )] == phases[row]@[col % 4]@[channel],
{
    lemma_byte_at(col, row, cols as int, rows as int, channel);
}

/// Two blocks of a pair that stand side by side are sampled half of a block apart, wherever the pair
/// is, so a gradient that runs down the sky is broken up along every row.
pub proof fn law_dither_sets_neighbours_apart(pair: int, by: int)
    ensures
        sampled(2 * pair, by) - sampled(2 * pair + 1, by) == 16 || sampled(2 * pair + 1, by)
            - sampled(2 * pair, by) == 16,
{
}

} // verus!
