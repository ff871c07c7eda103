//! Where the backdrop's pieces stand in the view: each star, block and column on its own pixels, and
//! each drawn once.

use vstd::arithmetic::div_mod::*;
use vstd::arithmetic::power2::*;
use vstd::prelude::*;

use crate::arith::{one, signed_number, whole_number};
use crate::number::{Number, num};
use crate::rounding::pixel;
use crate::shear::Point;
use crate::sky::backdrop::{
    BlockDisc, RidgeStrip, StarSpot, block_corners, column_corners, disc_points, discs_points,
    law_disc_blocks_are_on_whole_pixels, law_ridge_slides_as_a_whole, ridge_points, ridges_points,
    star_corners, star_points,
};
use crate::sky::mesh::{
    Vertex, ViewSize, is_corner, law_a_rectangle_has_its_corners_on_its_edges,
};
use crate::sky::model::block_px;
use crate::whole::{
    is_whole, law_nearest_is_the_pixel, law_small_whole_numbers_are_exact,
    law_whole_differences_are_exact, lemma_five,
};

verus! {

/// Four corners are those of a rectangle of the view in whole pixels: its left and top edge, and its
/// right and bottom one.
pub open spec fn are_corners<C>(
    c: Seq<Vertex<C>>,
    left: int,
    top: int,
    right: int,
    bottom: int,
    view: ViewSize,
    color: C,
) -> bool {
    &&& c.len() == 4
    &&& is_corner(c[0], left, top, view, color)
    &&& is_corner(c[1], right, top, view, color)
    &&& is_corner(c[2], right, bottom, view, color)
    &&& is_corner(c[3], left, bottom, view, color)
}

/// A star is one pixel of the view, the one it is on.
pub proof fn law_a_star_is_one_pixel<C>(x: Number, y: Number, view: ViewSize, color: C)
    requires
        x.magnitude() < 0x4980_0000,
        y.magnitude() < 0x4980_0000,
        view.w < 0x40_0000,
        view.h < 0x40_0000,
    ensures
        are_corners(
            star_corners(x, y, view, color),
            pixel(x),
            pixel(y),
            pixel(x) + 1,
            pixel(y) + 1,
            view,
            color,
        ),
{
    law_nearest_is_the_pixel(x);
    law_nearest_is_the_pixel(y);
    lemma_small_pixel(x);
    lemma_small_pixel(y);
    crate::arith::lemma_one();
    assert(is_whole(one(), 1));
    law_a_rectangle_has_its_corners_on_its_edges(
        x.nearest_whole(),
        y.nearest_whole(),
        one(),
        one(),
        (pixel(x), pixel(y)),
        (1, 1),
        view,
        color,
    );
}

/// A number below two to the power of 20 is on a pixel no further out.
pub proof fn lemma_small_pixel(n: Number)
    requires
        n.magnitude() < 0x4980_0000,
    ensures
        -0x10_0000 <= pixel(n) <= 0x10_0000,
{
    let most = num(0x4980_0000);
    lemma2_to64();
    lemma_pow2_adds(23, 146);
    lemma_pow2_adds(20, 149);
    lemma_pow2_unfold(150);
    lemma_pow2_pos(149);
    assert(most.size() == 0x10_0000 * pow2(149));
    crate::number::lemma_steps_increase(n.magnitude(), most.magnitude());
    let (size, one) = (crate::number::magnitude_steps(n.magnitude()), pow2(149) as int);
    assert(0 <= (2 * size + one) / (2 * one) <= 0x10_0000) by (nonlinear_arith)
        requires
            0 <= size < 0x10_0000 * one,
            one > 0,
    ;
}

/// The block of a disc in column `col` and row `row`, counted from its middle, is five pixels a side
/// and stands that many blocks right of and below the pixel that the middle is on.
pub proof fn law_a_block_stands_at_its_column_and_row<C>(
    centre: Point,
    col: int,
    row: int,
    view: ViewSize,
    color: C,
)
    requires
        centre.x.magnitude() < 0x4980_0000,
        centre.y.magnitude() < 0x4980_0000,
        -0x8000 <= col <= 0x8000,
        -0x8000 <= row <= 0x8000,
        view.w < 0x40_0000,
        view.h < 0x40_0000,
    ensures
        are_corners(
            block_corners(centre, col, row, view, color),
            pixel(centre.x) + 5 * col,
            pixel(centre.y) + 5 * row,
            pixel(centre.x) + 5 * (col + 1),
            pixel(centre.y) + 5 * (row + 1),
            view,
            color,
        ),
{
    law_disc_blocks_are_on_whole_pixels(centre.x, col);
    law_disc_blocks_are_on_whole_pixels(centre.y, row);
    lemma_small_pixel(centre.x);
    lemma_small_pixel(centre.y);
    lemma_five();
    law_a_rectangle_has_its_corners_on_its_edges(
        centre.x.nearest_whole().sum(signed_number(col).product(block_px())),
        centre.y.nearest_whole().sum(signed_number(row).product(block_px())),
        block_px(),
        block_px(),
        (pixel(centre.x) + 5 * col, pixel(centre.y) + 5 * row),
        (5, 5),
        view,
        color,
    );
}

/// Column `j` of a ridge is five pixels wide, as far left as the ridge has scrolled, and runs from
/// its top down to the bottom of the view.
pub proof fn law_a_column_runs_down_to_the_bottom<C>(
    j: int,
    top: Number,
    shift: Number,
    view: ViewSize,
    color: C,
    t: int,
    at: int,
)
    requires
        is_whole(top, t),
        is_whole(shift, at),
        -0x10_0000 < t < 0x10_0000,
        -0x10_0000 < at < 0x10_0000,
        -0x2_0000 < j < 0x2_0000,
        view.w < 0x10_0000,
        view.h < 0x10_0000,
    ensures
        are_corners(
            column_corners(j, top, shift, view, color),
            5 * j - at,
            t,
            5 * (j + 1) - at,
            view.h as int,
            view,
            color,
        ),
{
    let h = whole_number(view.h as nat);
    law_ridge_slides_as_a_whole(j, shift, at);
    law_small_whole_numbers_are_exact(view.h as int);
    law_whole_differences_are_exact(h, top, view.h as int, t);
    lemma_five();
    law_a_rectangle_has_its_corners_on_its_edges(
        signed_number(j).product(block_px()).difference(shift),
        top,
        block_px(),
        h.difference(top),
        (5 * j - at, t),
        (5, view.h - t),
        view,
        color,
    );
}

/// `part` stands somewhere in `all`.
#[verifier::opaque]
pub open spec fn holds<C>(all: Seq<Vertex<C>>, part: Seq<Vertex<C>>) -> bool {
    exists|at: int|
        0 <= at && at + part.len() <= all.len() && #[trigger] all.subrange(at, at + part.len())
            == part
}

pub proof fn lemma_holds_last<C>(before: Seq<Vertex<C>>, part: Seq<Vertex<C>>)
    ensures
        holds(before + part, part),
{
    reveal(holds);
    let (all, at) = (before + part, before.len() as int);
    assert(all.subrange(at, at + part.len()) =~= part);
}

pub proof fn lemma_holds_more<C>(before: Seq<Vertex<C>>, more: Seq<Vertex<C>>, part: Seq<Vertex<C>>)
    requires
        holds(before, part),
    ensures
        holds(before + more, part),
{
    reveal(holds);
    let all = before + more;
    let at = choose|at: int|
        0 <= at && at + part.len() <= before.len() && #[trigger] before.subrange(
            at,
            at + part.len(),
        ) == part;
    assert(all.subrange(at, at + part.len()) =~= part);
}

/// Every star is drawn, in its own place and colour.
pub proof fn law_every_star_is_drawn<C>(stars: Seq<StarSpot<C>>, view: ViewSize, n: nat, i: int)
    requires
        0 <= i < n <= stars.len(),
    ensures
        holds(
            star_points(stars, view, n),
            star_corners(stars[i].x, stars[i].y, view, stars[i].color),
        ),
        star_points(stars, view, n).len() == 4 * n,
    decreases n,
{
    let before = star_points(stars, view, (n - 1) as nat);
    let (star, last) = (stars[i], stars[n - 1]);
    let more = star_corners(last.x, last.y, view, last.color);
    if n > 1 {
        law_every_star_is_drawn(
            stars,
            view,
            (n - 1) as nat,
            if i < n - 1 {
                i
            } else {
                0
            },
        );
    }
    if i == n - 1 {
        lemma_holds_last(before, more);
    } else {
        lemma_holds_more(before, more, star_corners(star.x, star.y, view, star.color));
    }
}

/// Every block of a disc that has a colour is drawn, at its own column and row counted from the
/// disc's middle: the colours are row by row, from the top left.
pub proof fn law_every_lit_block_is_drawn<C>(
    colours: Seq<Option<C>>,
    n: int,
    centre: Point,
    view: ViewSize,
    i: nat,
    col: int,
    row: int,
)
    requires
        0 < n,
        -n <= col < n,
        -n <= row < n,
        (row + n) * (2 * n) + (col + n) < i <= colours.len(),
    ensures
        colours[(row + n) * (2 * n) + (col + n)] matches Some(color) ==> holds(
            disc_points(colours, n, centre, view, i),
            block_corners(centre, col, row, view, color),
        ),
    decreases i,
{
    let at = (row + n) * (2 * n) + (col + n);
    assert(0 <= at) by (nonlinear_arith)
        requires
            at == (row + n) * (2 * n) + (col + n),
            0 <= row + n,
            0 <= col + n,
            0 < n,
    ;
    if let Some(color) = colours[at] {
        let before = disc_points(colours, n, centre, view, (i - 1) as nat);
        let part = block_corners(centre, col, row, view, color);
        if at == i - 1 {
            lemma_fundamental_div_mod_converse(at, 2 * n, row + n, col + n);
            lemma_holds_last(before, part);
        } else {
            law_every_lit_block_is_drawn(colours, n, centre, view, (i - 1) as nat, col, row);
            if let Some(last) = colours[i - 1] {
                lemma_holds_more(
                    before,
                    block_corners(
                        centre,
                        (i - 1) % (2 * n) - n,
                        (i - 1) / (2 * n) - n,
                        view,
                        last,
                    ),
                    part,
                );
            }
        }
    }
}

/// Every column of a ridge whose top is in the view is drawn: the first of the tops belongs to the
/// first column, and each after it to the next.
pub proof fn law_every_column_in_view_is_drawn<C>(
    tops: Seq<Number>,
    first: int,
    shift: Number,
    view: ViewSize,
    color: C,
    n: nat,
    k: int,
)
    requires
        0 <= k < n <= tops.len(),
        tops[k].lt(whole_number(view.h as nat)),
    ensures
        holds(
            ridge_points(tops, first, shift, view, color, n),
            column_corners(first + k, tops[k], shift, view, color),
        ),
    decreases n,
{
    let before = ridge_points(tops, first, shift, view, color, (n - 1) as nat);
    let part = column_corners(first + k, tops[k], shift, view, color);
    if k == n - 1 {
        lemma_holds_last(before, part);
    } else {
        law_every_column_in_view_is_drawn(tops, first, shift, view, color, (n - 1) as nat, k);
        lemma_holds_more(
            before,
            column_corners(first + n - 1, tops[n - 1], shift, view, color),
            part,
        );
    }
}

/// Every disc and every ridge of a frame is drawn.
pub proof fn law_every_disc_and_ridge_is_drawn<C>(
    discs: Seq<BlockDisc<C>>,
    ridges: Seq<RidgeStrip<C>>,
    view: ViewSize,
    n: nat,
    m: nat,
    i: int,
    j: int,
)
    requires
        0 <= i < n <= discs.len(),
        0 <= j < m <= ridges.len(),
    ensures
        holds(discs_points(discs, view, n), discs[i].corners(view)),
        holds(ridges_points(ridges, view, m), ridges[j].corners(view)),
{
    lemma_disc_is_held(discs, view, n, i);
    lemma_ridge_is_held(ridges, view, m, j);
}

proof fn lemma_disc_is_held<C>(discs: Seq<BlockDisc<C>>, view: ViewSize, n: nat, i: int)
    requires
        0 <= i < n <= discs.len(),
    ensures
        holds(discs_points(discs, view, n), discs[i].corners(view)),
    decreases n,
{
    let before = discs_points(discs, view, (n - 1) as nat);
    if i == n - 1 {
        lemma_holds_last(before, discs[i].corners(view));
    } else {
        lemma_disc_is_held(discs, view, (n - 1) as nat, i);
        lemma_holds_more(before, discs[n - 1].corners(view), discs[i].corners(view));
    }
}

proof fn lemma_ridge_is_held<C>(ridges: Seq<RidgeStrip<C>>, view: ViewSize, n: nat, i: int)
    requires
        0 <= i < n <= ridges.len(),
    ensures
        holds(ridges_points(ridges, view, n), ridges[i].corners(view)),
    decreases n,
{
    let before = ridges_points(ridges, view, (n - 1) as nat);
    if i == n - 1 {
        lemma_holds_last(before, ridges[i].corners(view));
    } else {
        lemma_ridge_is_held(ridges, view, (n - 1) as nat, i);
        lemma_holds_more(before, ridges[n - 1].corners(view), ridges[i].corners(view));
    }
}

/// What cannot be seen is not drawn: a disc that is too faint has no corners, and a column that starts
/// at the bottom of the view or below it adds none.
pub proof fn law_what_cannot_be_seen_is_not_drawn<C>(
    disc: BlockDisc<C>,
    tops: Seq<Number>,
    first: int,
    shift: Number,
    view: ViewSize,
    color: C,
    n: nat,
)
    requires
        0 < n <= tops.len(),
    ensures
        disc.alpha.le(num(0x3c23_d70a)) ==> disc.corners(view).len() == 0,
        whole_number(view.h as nat).le(tops[n - 1]) ==> ridge_points(
            tops,
            first,
            shift,
            view,
            color,
            n,
        ) == ridge_points(tops, first, shift, view, color, (n - 1) as nat),
{
}

} // verus!
