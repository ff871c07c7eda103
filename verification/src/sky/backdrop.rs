//! Laying the backdrop out in blocks: stars, discs and ridges as rectangles on the view's grid.

use vstd::arithmetic::div_mod::*;
use vstd::prelude::*;

use crate::arith::{from_signed, from_whole, one, signed_number, whole_number};
use crate::number::{Number, SIGN, num};
use crate::rounding::pixel;
use crate::shear::{Point, is_quads};
use crate::sky::mesh::{Vertex, VertexBuf, ViewSize, rect_corners};
use crate::sky::model::block_px;
use crate::whole::{
    is_whole, law_nearest_is_the_pixel, law_small_whole_numbers_are_exact,
    law_whole_differences_are_exact, law_whole_products_are_exact, law_whole_sums_are_exact,
    lemma_fifths, lemma_five,
};

verus! {

/// The corners of a star: one view pixel, at a whole view pixel. A star is a point of light, and
/// one as wide as a block is a planet.
pub open spec fn star_corners<C>(x: Number, y: Number, view: ViewSize, color: C) -> Seq<Vertex<C>> {
    rect_corners(x.nearest_whole(), y.nearest_whole(), one(), one(), view, color)
}

/// Push one star. See [`star_corners`].
pub fn push_star<C: Copy>(
    buf: &mut VertexBuf<Vertex<C>>,
    x: Number,
    y: Number,
    view: ViewSize,
    color: C,
)
    requires
        old(buf).wf(),
        is_quads(*old(buf)),
        old(buf).points().len() + 4 <= u32::MAX,
    ensures
        final(buf).wf(),
        is_quads(*final(buf)),
        final(buf).points() == old(buf).points() + star_corners(x, y, view, color),
{
    buf.rect(x.round(), y.round(), one(), one(), view, color);
}

/// A whole number as far as 32 bits reach.
pub open spec fn within_32(n: int) -> int {
    if n > i32::MAX {
        i32::MAX as int
    } else if n < i32::MIN {
        i32::MIN as int
    } else {
        n
    }
}

/// The largest whole number that is not above a number, as far as 32 bits reach. What is not a
/// number is at zero.
pub open spec fn floor_of(n: Number) -> int {
    if !n.is_number() {
        0
    } else if n.is_infinite() {
        if n.negative() {
            i32::MIN as int
        } else {
            i32::MAX as int
        }
    } else {
        within_32(n.floored())
    }
}

/// The smallest whole number that is not below a number, as far as 32 bits reach. What is not a
/// number is at zero.
pub open spec fn ceiling_of(n: Number) -> int {
    if !n.is_number() {
        0
    } else if n.is_infinite() {
        if n.negative() {
            i32::MIN as int
        } else {
            i32::MAX as int
        }
    } else {
        within_32(-n.negated().floored())
    }
}

fn clipped(n: i64) -> (out: i32)
    ensures
        out == within_32(n as int),
{
    if n > i32::MAX as i64 {
        i32::MAX
    } else if n < i32::MIN as i64 {
        i32::MIN
    } else {
        n as i32
    }
}

/// The largest whole number that is not above a number. See [`floor_of`].
pub fn floor_to_i32(n: Number) -> (out: i32)
    ensures
        out == floor_of(n),
{
    if n.is_nan() {
        0
    } else if n.abs().equals(num(0x7f80_0000)) {
        if n.bits >= SIGN {
            i32::MIN
        } else {
            i32::MAX
        }
    } else {
        clipped(n.floor())
    }
}

fn ceiling_to_i32(n: Number) -> (out: i32)
    ensures
        out == ceiling_of(n),
{
    if n.is_nan() {
        0
    } else if n.abs().equals(num(0x7f80_0000)) {
        if n.bits >= SIGN {
            i32::MIN
        } else {
            i32::MAX
        }
    } else {
        let down: i64 = n.minus_self().floor();
        if down == i64::MIN {
            i32::MAX
        } else {
            clipped(-down)
        }
    }
}

/// The columns of a ridge that the view shows: from the first up to, and not including, the last.
/// The columns are the ridge's own, `shift` pixels to the left of the view's.
pub open spec fn ridge_span(shift: Number, w: u32) -> (int, int) {
    (
        floor_of(shift.quotient(block_px())),
        ceiling_of(shift.sum(whole_number(w as nat)).quotient(block_px())),
    )
}

/// How many columns there are from the first up to the last.
pub open spec fn span_len(span: (int, int)) -> nat {
    if span.1 < span.0 {
        0
    } else {
        (span.1 - span.0) as nat
    }
}

/// The columns of a ridge that the view shows. See [`ridge_span`].
pub fn ridge_columns(shift: Number, w: u32) -> (span: (i32, i32))
    ensures
        (span.0 as int, span.1 as int) == ridge_span(shift, w),
{
    (
        floor_to_i32(shift.over(block_px())),
        ceiling_to_i32(shift.plus(from_whole(w as u64)).over(block_px())),
    )
}

/// The columns leave no gap: the first starts at or before the view's left edge, the last ends at
/// or after its right, and neither overhangs by a whole block.
pub proof fn law_ridge_spans_the_view(shift: Number, at: int, w: u32)
    requires
        is_whole(shift, at),
        -0x20_0000 < at,
        at + w < 0x20_0000,
    ensures
        ({
            let (first, last) = ridge_span(shift, w);
            &&& first * 5 <= at < first * 5 + 5
            &&& last * 5 - 5 < at + w <= last * 5
        }),
{
    lemma_fifths(shift, at);
    law_small_whole_numbers_are_exact(w as int);
    law_whole_sums_are_exact(shift, whole_number(w as nat), at, w as int);
    lemma_fifths(shift.sum(whole_number(w as nat)), at + w);
}

/// Where a ridge's column starts, in the ridge's own space.
pub fn column_x(j: i32) -> (x: Number)
    ensures
        x == signed_number(j as int).product(block_px()),
{
    from_signed(j as i64).times(block_px())
}

/// The corners of a ridge's column `j`, from its top down to the bottom of the view.
pub open spec fn column_corners<C>(
    j: int,
    top: Number,
    shift: Number,
    view: ViewSize,
    color: C,
) -> Seq<Vertex<C>> {
    rect_corners(
        signed_number(j).product(block_px()).difference(shift),
        top,
        block_px(),
        whole_number(view.h as nat).difference(top),
        view,
        color,
    )
}

/// The silhouette is rigid: each column is a block wide, starts where the one before it ends, and is
/// moved by the whole pixels the ridge has scrolled and nothing else.
pub proof fn law_ridge_slides_as_a_whole(j: int, shift: Number, at: int)
    requires
        is_whole(shift, at),
        -0x80_0000 < at < 0x80_0000,
        -0x10_0000 < j < 0x10_0000,
    ensures
        ({
            let left = signed_number(j).product(block_px()).difference(shift);
            let next = signed_number(j + 1).product(block_px()).difference(shift);
            &&& is_whole(left, 5 * j - at)
            &&& is_whole(left.sum(block_px()), 5 * (j + 1) - at)
            &&& is_whole(next, 5 * (j + 1) - at)
        }),
{
    lemma_block_edge(j);
    lemma_block_edge(j + 1);
    lemma_five();
    let (x, next) = (signed_number(j).product(block_px()), signed_number(j + 1).product(block_px()));
    law_whole_differences_are_exact(x, shift, 5 * j, at);
    law_whole_differences_are_exact(next, shift, 5 * (j + 1), at);
    law_whole_sums_are_exact(x.difference(shift), block_px(), 5 * j - at, 5);
}

/// The edges of the blocks are every fifth pixel.
proof fn lemma_block_edge(j: int)
    requires
        -0x33_3333 <= j <= 0x33_3333,
    ensures
        is_whole(signed_number(j).product(block_px()), 5 * j),
{
    lemma_five();
    law_small_whole_numbers_are_exact(j);
    law_whole_products_are_exact(signed_number(j), block_px(), j, 5);
}

/// The corners of the first `n` columns of a ridge. A column whose top is below the view is left
/// out.
pub open spec fn ridge_points<C>(
    tops: Seq<Number>,
    first: int,
    shift: Number,
    view: ViewSize,
    color: C,
    n: nat,
) -> Seq<Vertex<C>>
    decreases n,
{
    if n == 0 {
        Seq::empty()
    } else {
        let before = ridge_points(tops, first, shift, view, color, (n - 1) as nat);
        let top = tops[n - 1];
        if whole_number(view.h as nat).le(top) {
            before
        } else {
            before + column_corners(first + n - 1, top, shift, view, color)
        }
    }
}

proof fn lemma_ridge_points_len<C>(
    tops: Seq<Number>,
    first: int,
    shift: Number,
    view: ViewSize,
    color: C,
    n: nat,
)
    ensures
        ridge_points(tops, first, shift, view, color, n).len() <= 4 * n,
    decreases n,
{
    if n > 0 {
        lemma_ridge_points_len(tops, first, shift, view, color, (n - 1) as nat);
    }
}

/// Push the columns of a ridge, given the top of each.
///
/// The columns are laid out in the ridge's own space, where the height of a column is a constant,
/// and the whole strip is moved onto the screen by a whole number of pixels: the silhouette is
/// rigid and slides, and no column ever changes height.
pub fn push_ridge<C: Copy>(
    buf: &mut VertexBuf<Vertex<C>>,
    tops: &Vec<Number>,
    shift: Number,
    view: ViewSize,
    color: C,
)
    requires
        old(buf).wf(),
        is_quads(*old(buf)),
        tops@.len() == span_len(ridge_span(shift, view.w)),
        old(buf).points().len() + 4 * tops@.len() <= u32::MAX,
    ensures
        final(buf).wf(),
        is_quads(*final(buf)),
        final(buf).points() == old(buf).points() + ridge_points(
            tops@,
            ridge_span(shift, view.w).0,
            shift,
            view,
            color,
            tops@.len(),
        ),
{
    let (first, _last): (i32, i32) = ridge_columns(shift, view.w);
    let h: Number = from_whole(view.h as u64);
    let ghost start = buf.points();
    let mut k: usize = 0;
    assert(start =~= start + ridge_points(tops@, first as int, shift, view, color, 0));
    while k < tops.len()
        invariant
            k <= tops@.len(),
            tops@.len() <= 0x1_0000_0000,
            h == whole_number(view.h as nat),
            buf.wf(),
            is_quads(*buf),
            start.len() + 4 * tops@.len() <= u32::MAX,
            buf.points() == start + ridge_points(tops@, first as int, shift, view, color, k as nat),
        decreases tops@.len() - k,
    {
        let top: Number = tops[k];
        proof {
            lemma_ridge_points_len(tops@, first as int, shift, view, color, k as nat);
        }
        if !h.at_most(top) {
            let ridge_x: Number = from_signed(first as i64 + k as i64).times(block_px());
            buf.rect(ridge_x.minus(shift), top, block_px(), h.minus(top), view, color);
            assert(buf.points() =~= start + ridge_points(
                tops@,
                first as int,
                shift,
                view,
                color,
                k as nat + 1,
            ));
        }
        k = k + 1;
    }
}

/// The corners of the block at column `col` and row `row` of a disc.
pub open spec fn block_corners<C>(
    centre: Point,
    col: int,
    row: int,
    view: ViewSize,
    color: C,
) -> Seq<Vertex<C>> {
    rect_corners(
        centre.x.nearest_whole().sum(signed_number(col).product(block_px())),
        centre.y.nearest_whole().sum(signed_number(row).product(block_px())),
        block_px(),
        block_px(),
        view,
        color,
    )
}

/// Every block edge of a disc is on a whole view pixel, a whole number of blocks from its centre's.
pub proof fn law_disc_blocks_are_on_whole_pixels(centre: Number, at: int)
    requires
        centre.magnitude() < 0x4b00_0000,
        -0x8000 <= at <= 0x8000,
    ensures
        is_whole(
            centre.nearest_whole().sum(signed_number(at).product(block_px())),
            pixel(centre) + 5 * at,
        ),
{
    law_nearest_is_the_pixel(centre);
    lemma_block_edge(at);
    law_whole_sums_are_exact(
        centre.nearest_whole(),
        signed_number(at).product(block_px()),
        pixel(centre),
        5 * at,
    );
}

/// The corners of a disc's first `i` blocks, row by row: the blocks run from `-n` up to `n` both
/// ways, and one with no colour is left out.
pub open spec fn disc_points<C>(
    colours: Seq<Option<C>>,
    n: int,
    centre: Point,
    view: ViewSize,
    i: nat,
) -> Seq<Vertex<C>>
    decreases i,
{
    if i == 0 {
        Seq::empty()
    } else {
        let before = disc_points(colours, n, centre, view, (i - 1) as nat);
        match colours[i - 1] {
            None => before,
            Some(color) => before + block_corners(
                centre,
                (i - 1) % (2 * n) - n,
                (i - 1) / (2 * n) - n,
                view,
                color,
            ),
        }
    }
}

proof fn lemma_disc_points_len<C>(
    colours: Seq<Option<C>>,
    n: int,
    centre: Point,
    view: ViewSize,
    i: nat,
)
    ensures
        disc_points(colours, n, centre, view, i).len() <= 4 * i,
    decreases i,
{
    if i > 0 {
        lemma_disc_points_len(colours, n, centre, view, (i - 1) as nat);
    }
}

/// One disc as a square block grid, centre outward: a block circle, not a polygon.
///
/// The centre is a block corner, so the disc comes out symmetric about it on both axes, and it is
/// put on a whole view pixel, so every block edge is too.
pub fn push_disc<C: Copy>(
    buf: &mut VertexBuf<Vertex<C>>,
    colours: &Vec<Option<C>>,
    n: u32,
    centre: Point,
    view: ViewSize,
)
    requires
        old(buf).wf(),
        is_quads(*old(buf)),
        colours@.len() == (2 * n) * (2 * n),
        old(buf).points().len() + 4 * colours@.len() <= u32::MAX,
    ensures
        final(buf).wf(),
        is_quads(*final(buf)),
        final(buf).points() == old(buf).points() + disc_points(
            colours@,
            n as int,
            centre,
            view,
            colours@.len(),
        ),
{
    let ghost start = buf.points();
    let (cx, cy): (Number, Number) = (centre.x.round(), centre.y.round());
    proof {
        assert(n < 0x8000) by (nonlinear_arith)
            requires
                4 * ((2 * n) * (2 * n)) <= u32::MAX,
        ;
    }
    let side: usize = 2 * n as usize;
    let mut i: usize = 0;
    assert(start =~= start + disc_points(colours@, n as int, centre, view, 0));
    while i < colours.len()
        invariant
            i <= colours@.len(),
            buf.wf(),
            is_quads(*buf),
            n < 0x8000,
            side == 2 * n,
            cx == centre.x.nearest_whole(),
            cy == centre.y.nearest_whole(),
            colours@.len() == side * side,
            start.len() + 4 * colours@.len() <= u32::MAX,
            buf.points() == start + disc_points(colours@, n as int, centre, view, i as nat),
        decreases colours@.len() - i,
    {
        proof {
            lemma_disc_points_len(colours@, n as int, centre, view, i as nat);
            assert(side > 0) by (nonlinear_arith)
                requires
                    i < side * side,
                    0 <= i,
                    0 <= side,
            ;
            lemma_mod_bound(i as int, side as int);
            lemma_div_pos_is_pos(i as int, side as int);
            lemma_div_is_ordered_by_denominator(i as int, 1, side as int);
        }
        if let Some(color) = colours[i] {
            let col: i64 = (i % side) as i64 - n as i64;
            let row: i64 = (i / side) as i64 - n as i64;
            let x: Number = cx.plus(from_signed(col).times(block_px()));
            let y: Number = cy.plus(from_signed(row).times(block_px()));
            buf.rect(x, y, block_px(), block_px(), view, color);
            assert(buf.points() =~= start + disc_points(
                colours@,
                n as int,
                centre,
                view,
                i as nat + 1,
            ));
        }
        i = i + 1;
    }
}

/// Below this, 0.01, the stars are not drawn, nor a disc.
#[verifier::allow_in_spec]
pub fn cutoff() -> Number
    returns
        (Number { bits: 0x3c23_d70a }),
{
    Number { bits: 0x3c23_d70a }
}

/// One star of a frame.
#[derive(Clone, Copy, Debug, PartialEq, Eq)]
pub struct StarSpot<C> {
    pub x: Number,
    pub y: Number,
    pub color: C,
}

/// The corners of the first `n` stars.
pub open spec fn star_points<C>(stars: Seq<StarSpot<C>>, view: ViewSize, n: nat) -> Seq<Vertex<C>>
    decreases n,
{
    if n == 0 {
        Seq::empty()
    } else {
        let star = stars[n - 1];
        star_points(stars, view, (n - 1) as nat) + star_corners(star.x, star.y, view, star.color)
    }
}

proof fn lemma_star_points_len<C>(stars: Seq<StarSpot<C>>, view: ViewSize, n: nat)
    ensures
        star_points(stars, view, n).len() == 4 * n,
    decreases n,
{
    if n > 0 {
        lemma_star_points_len(stars, view, (n - 1) as nat);
    }
}

/// Rebuild the starfield: every star, or none while the field is too faint to see.
pub fn place_stars<C: Copy>(
    buf: &mut VertexBuf<Vertex<C>>,
    visibility: Number,
    stars: &Vec<StarSpot<C>>,
    view: ViewSize,
)
    requires
        4 * stars@.len() <= u32::MAX,
    ensures
        final(buf).wf(),
        is_quads(*final(buf)),
        final(buf).points() == (if cutoff().lt(visibility) {
            star_points(stars@, view, stars@.len())
        } else {
            Seq::empty()
        }),
{
    buf.clear();
    if !cutoff().less(visibility) {
        return;
    }
    let mut i: usize = 0;
    while i < stars.len()
        invariant
            i <= stars@.len(),
            4 * stars@.len() <= u32::MAX,
            buf.wf(),
            is_quads(*buf),
            buf.points() == star_points(stars@, view, i as nat),
        decreases stars@.len() - i,
    {
        proof {
            lemma_star_points_len(stars@, view, i as nat);
        }
        let star: StarSpot<C> = stars[i];
        push_star(buf, star.x, star.y, view, star.color);
        i = i + 1;
    }
}

/// A disc of a frame: how strong it is, and its blocks row by row.
#[derive(Clone, Debug, PartialEq, Eq)]
pub struct BlockDisc<C> {
    pub alpha: Number,
    pub colours: Vec<Option<C>>,
    /// Half its side, in blocks.
    pub n: u32,
    /// Its middle.
    pub centre: Point,
}

impl<C> BlockDisc<C> {
    /// It has a square of blocks.
    pub open spec fn wf(&self) -> bool {
        self.colours@.len() == (2 * self.n) * (2 * self.n)
    }

    /// The corners of its blocks, or nothing while it is too faint to see.
    pub open spec fn corners(&self, view: ViewSize) -> Seq<Vertex<C>> {
        if self.alpha.le(cutoff()) {
            Seq::empty()
        } else {
            disc_points(self.colours@, self.n as int, self.centre, view, self.colours@.len())
        }
    }
}

/// The corners of the first `n` discs.
pub open spec fn discs_points<C>(discs: Seq<BlockDisc<C>>, view: ViewSize, n: nat) -> Seq<Vertex<C>>
    decreases n,
{
    if n == 0 {
        Seq::empty()
    } else {
        discs_points(discs, view, (n - 1) as nat) + discs[n - 1].corners(view)
    }
}

/// How many blocks the first `n` discs have.
pub open spec fn block_count<C>(discs: Seq<BlockDisc<C>>, n: nat) -> nat
    decreases n,
{
    if n == 0 {
        0
    } else {
        block_count(discs, (n - 1) as nat) + discs[n - 1].colours@.len()
    }
}

proof fn lemma_discs_points_len<C>(discs: Seq<BlockDisc<C>>, view: ViewSize, n: nat, m: nat)
    requires
        n <= m <= discs.len(),
    ensures
        discs_points(discs, view, n).len() <= 4 * block_count(discs, n),
        block_count(discs, n) <= block_count(discs, m),
    decreases m,
{
    if n < m {
        lemma_discs_points_len(discs, view, n, (m - 1) as nat);
    } else if n > 0 {
        let d = discs[n - 1];
        lemma_discs_points_len(discs, view, (n - 1) as nat, (n - 1) as nat);
        lemma_disc_points_len(d.colours@, d.n as int, d.centre, view, d.colours@.len());
    }
}

/// Rebuild the sun and the moon, in that order.
pub fn place_discs<C: Copy>(
    buf: &mut VertexBuf<Vertex<C>>,
    discs: &Vec<BlockDisc<C>>,
    view: ViewSize,
)
    requires
        forall|i: int| 0 <= i < discs@.len() ==> (#[trigger] discs@[i]).wf(),
        4 * block_count(discs@, discs@.len()) <= u32::MAX,
    ensures
        final(buf).wf(),
        is_quads(*final(buf)),
        final(buf).points() == discs_points(discs@, view, discs@.len()),
{
    buf.clear();
    let mut i: usize = 0;
    while i < discs.len()
        invariant
            i <= discs@.len(),
            forall|j: int| 0 <= j < discs@.len() ==> (#[trigger] discs@[j]).wf(),
            4 * block_count(discs@, discs@.len()) <= u32::MAX,
            buf.wf(),
            is_quads(*buf),
            buf.points() == discs_points(discs@, view, i as nat),
        decreases discs@.len() - i,
    {
        proof {
            lemma_discs_points_len(discs@, view, i as nat, discs@.len());
            lemma_discs_points_len(discs@, view, i as nat + 1, discs@.len());
            assert(buf.points() =~= buf.points() + Seq::<Vertex<C>>::empty());
        }
        let d: &BlockDisc<C> = &discs[i];
        if !d.alpha.at_most(cutoff()) {
            push_disc(buf, &d.colours, d.n, d.centre, view);
        }
        i = i + 1;
    }
}

/// A ridge of a frame: the top of each column the view shows, how far the strip has scrolled, and
/// its silhouette's colour.
#[derive(Clone, Debug, PartialEq, Eq)]
pub struct RidgeStrip<C> {
    pub tops: Vec<Number>,
    pub shift: Number,
    pub color: C,
}

impl<C> RidgeStrip<C> {
    /// It has a top for each column the view shows.
    pub open spec fn wf(&self, view: ViewSize) -> bool {
        self.tops@.len() == span_len(ridge_span(self.shift, view.w))
    }

    /// The corners of its columns.
    pub open spec fn corners(&self, view: ViewSize) -> Seq<Vertex<C>> {
        ridge_points(
            self.tops@,
            ridge_span(self.shift, view.w).0,
            self.shift,
            view,
            self.color,
            self.tops@.len(),
        )
    }
}

/// The corners of the first `n` ridges.
pub open spec fn ridges_points<C>(ridges: Seq<RidgeStrip<C>>, view: ViewSize, n: nat) -> Seq<
    Vertex<C>,
>
    decreases n,
{
    if n == 0 {
        Seq::empty()
    } else {
        ridges_points(ridges, view, (n - 1) as nat) + ridges[n - 1].corners(view)
    }
}

/// How many columns the first `n` ridges have.
pub open spec fn column_count<C>(ridges: Seq<RidgeStrip<C>>, n: nat) -> nat
    decreases n,
{
    if n == 0 {
        0
    } else {
        column_count(ridges, (n - 1) as nat) + ridges[n - 1].tops@.len()
    }
}

proof fn lemma_ridges_points_len<C>(ridges: Seq<RidgeStrip<C>>, view: ViewSize, n: nat, m: nat)
    requires
        n <= m <= ridges.len(),
    ensures
        ridges_points(ridges, view, n).len() <= 4 * column_count(ridges, n),
        column_count(ridges, n) <= column_count(ridges, m),
    decreases m,
{
    if n < m {
        lemma_ridges_points_len(ridges, view, n, (m - 1) as nat);
    } else if n > 0 {
        let r = ridges[n - 1];
        lemma_ridges_points_len(ridges, view, (n - 1) as nat, (n - 1) as nat);
        lemma_ridge_points_len(
            r.tops@,
            ridge_span(r.shift, view.w).0,
            r.shift,
            view,
            r.color,
            r.tops@.len(),
        );
    }
}

/// Rebuild the hill ridges, far first.
pub fn build_ridges<C: Copy>(
    buf: &mut VertexBuf<Vertex<C>>,
    ridges: &Vec<RidgeStrip<C>>,
    view: ViewSize,
)
    requires
        forall|i: int| 0 <= i < ridges@.len() ==> (#[trigger] ridges@[i]).wf(view),
        4 * column_count(ridges@, ridges@.len()) <= u32::MAX,
    ensures
        final(buf).wf(),
        is_quads(*final(buf)),
        final(buf).points() == ridges_points(ridges@, view, ridges@.len()),
{
    buf.clear();
    let mut i: usize = 0;
    while i < ridges.len()
        invariant
            i <= ridges@.len(),
            forall|j: int| 0 <= j < ridges@.len() ==> (#[trigger] ridges@[j]).wf(view),
            4 * column_count(ridges@, ridges@.len()) <= u32::MAX,
            buf.wf(),
            is_quads(*buf),
            buf.points() == ridges_points(ridges@, view, i as nat),
        decreases ridges@.len() - i,
    {
        proof {
            lemma_ridges_points_len(ridges@, view, i as nat, ridges@.len());
            lemma_ridges_points_len(ridges@, view, i as nat + 1, ridges@.len());
        }
        let r: &RidgeStrip<C> = &ridges[i];
        push_ridge(buf, &r.tops, r.shift, view, r.color);
        i = i + 1;
    }
}

/// Where the base gradient sits in depth: behind everything, the weather included.
pub const GRADIENT_Z: i32 = -100;

/// Stars, over the gradient.
pub const STARS_Z: i32 = -99;

/// Sun and moon, over the stars.
pub const DISCS_Z: i32 = -98;

/// The hill silhouettes, over everything else in the backdrop.
pub const RIDGES_Z: i32 = -97;

/// One pass of the backdrop.
#[derive(Clone, Copy, Debug, PartialEq, Eq, Structural)]
pub enum SkyPass {
    Gradient,
    Stars,
    Discs,
    Ridges,
}

impl SkyPass {
    /// How deep it sits.
    #[verifier::allow_in_spec]
    pub fn depth(self) -> i32
        returns
            (match self {
                SkyPass::Gradient => GRADIENT_Z,
                SkyPass::Stars => STARS_Z,
                SkyPass::Discs => DISCS_Z,
                SkyPass::Ridges => RIDGES_Z,
            }),
    {
        match self {
            SkyPass::Gradient => GRADIENT_Z,
            SkyPass::Stars => STARS_Z,
            SkyPass::Discs => DISCS_Z,
            SkyPass::Ridges => RIDGES_Z,
        }
    }

    /// Whether it is added to what is behind it. The light of a disc is; everything else covers.
    #[verifier::allow_in_spec]
    pub fn is_additive(self) -> bool
        returns
            self == SkyPass::Discs,
    {
        match self {
            SkyPass::Discs => true,
            _ => false,
        }
    }
}

/// The passes of the backdrop, back to front.
pub fn setup() -> (passes: Vec<SkyPass>)
    ensures
        passes@ == seq![SkyPass::Gradient, SkyPass::Stars, SkyPass::Discs, SkyPass::Ridges],
        forall|i: int, j: int|
            0 <= i < j < passes@.len() ==> (#[trigger] passes@[i]).depth() < (
            #[trigger] passes@[j]).depth(),
{
    let mut passes: Vec<SkyPass> = Vec::new();
    passes.push(SkyPass::Gradient);
    passes.push(SkyPass::Stars);
    passes.push(SkyPass::Discs);
    passes.push(SkyPass::Ridges);
    assert(passes@ =~= seq![
        SkyPass::Gradient,
        SkyPass::Stars,
        SkyPass::Discs,
        SkyPass::Ridges,
    ]);
    passes
}

} // verus!
