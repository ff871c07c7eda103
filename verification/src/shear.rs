//! Textured quads whose top and bottom edges may slide, and the strip slices they sample.

use vstd::arithmetic::power2::*;
use vstd::prelude::*;

use crate::arith::{
    from_whole, law_itself_goes_in_once, law_zero_adds_nothing, lemma_zero_goes_into, one,
    whole_number,
};
use crate::number::{Number, law_rank_orders_values, num};
use crate::order::{law_quotients_keep_order, lemma_values_in_order};
use crate::sky::mesh::{Geometry, VertexBuf, quad_index};
use crate::whole::{
    is_whole, law_small_whole_numbers_are_exact, law_whole_differences_are_exact,
    law_whole_sums_are_exact, lemma_negated,
};

verus! {

/// A point.
#[derive(Clone, Copy, Debug, PartialEq, Eq, Structural)]
pub struct Point {
    pub x: Number,
    pub y: Number,
}

impl Point {
    /// The one axis flip between y running down and y running up.
    pub open spec fn flipped(self) -> Point {
        Point { x: self.x, y: self.y.negated() }
    }

    /// The point as it lies from another.
    pub open spec fn from(self, origin: Point) -> Point {
        Point { x: self.x.difference(origin.x), y: self.y.difference(origin.y) }
    }
}

/// Where a mesh's own origin is, with y running up.
pub fn origin_translation(origin: Point) -> (at: Point)
    ensures
        at == origin.flipped(),
{
    Point { x: origin.x, y: origin.y.minus_self() }
}

/// A rectangle in world pixels with y running down, its top and bottom edges slid sideways.
///
/// A shear moves nothing up or down, so the figure keeps its height and every row stays level.
#[derive(Clone, Copy, Debug, PartialEq, Eq, Structural)]
pub struct ShearedRect {
    pub x: Number,
    pub y: Number,
    pub w: Number,
    pub h: Number,
    pub top_dx: Number,
    pub bottom_dx: Number,
}

impl ShearedRect {
    /// A rectangle with no shear on it.
    pub fn flat(x: Number, y: Number, w: Number, h: Number) -> (rect: ShearedRect)
        ensures
            rect == (ShearedRect {
                x,
                y,
                w,
                h,
                top_dx: Number { bits: 0 },
                bottom_dx: Number { bits: 0 },
            }),
    {
        ShearedRect { x, y, w, h, top_dx: Number { bits: 0 }, bottom_dx: Number { bits: 0 } }
    }

    /// The corners, top-left first and then clockwise.
    pub open spec fn points(&self) -> Seq<Point> {
        let right = self.x.sum(self.w);
        let bottom = self.y.sum(self.h);
        seq![
            Point { x: self.x.sum(self.top_dx), y: self.y },
            Point { x: right.sum(self.top_dx), y: self.y },
            Point { x: right.sum(self.bottom_dx), y: bottom },
            Point { x: self.x.sum(self.bottom_dx), y: bottom },
        ]
    }

    /// The corners, top-left first and then clockwise.
    pub fn corners(&self) -> (corners: [Point; 4])
        ensures
            corners@ == self.points(),
    {
        let right: Number = self.x.plus(self.w);
        let bottom: Number = self.y.plus(self.h);
        let corners: [Point; 4] = [
            Point { x: self.x.plus(self.top_dx), y: self.y },
            Point { x: right.plus(self.top_dx), y: self.y },
            Point { x: right.plus(self.bottom_dx), y: bottom },
            Point { x: self.x.plus(self.bottom_dx), y: bottom },
        ];
        assert(corners@ =~= self.points());
        corners
    }
}

/// Which slice of a one-row strip a quad samples, from `u0` at the quad's left edge to `u1` at its
/// right.
///
/// The strip is one tile high, so only this direction varies. Mirroring swaps the two, which
/// reflects the art about the rect's own vertical axis.
#[derive(Clone, Copy, Debug, PartialEq, Eq, Structural)]
pub struct TileUv {
    pub u0: Number,
    pub u1: Number,
}

/// Where tile `index` of a strip `count` tiles wide starts. A strip is never less than one tile wide.
pub open spec fn tile_edge(index: nat, count: nat) -> Number {
    whole_number(index).quotient(
        whole_number(
            if count == 0 {
                1
            } else {
                count
            },
        ),
    )
}

impl TileUv {
    /// The whole strip: what an untextured quad wants.
    pub fn whole() -> (uv: TileUv)
        ensures
            uv == (TileUv { u0: num(0), u1: one() }),
    {
        TileUv { u0: num(0), u1: one() }
    }

    /// Tile `index` of a strip `count` tiles wide, optionally mirrored.
    pub open spec fn slice(index: nat, count: nat, flip_x: bool) -> TileUv {
        let (left, right) = (tile_edge(index, count), tile_edge(index + 1, count));
        if flip_x {
            TileUv { u0: right, u1: left }
        } else {
            TileUv { u0: left, u1: right }
        }
    }

    /// Tile `index` of a strip `count` tiles wide, optionally mirrored. See [`tile_edge`].
    pub fn of(index: usize, count: usize, flip_x: bool) -> (uv: TileUv)
        requires
            index < usize::MAX,
        ensures
            uv == TileUv::slice(index as nat, count as nat, flip_x),
    {
        let width: Number = from_whole(
            if count == 0 {
                1
            } else {
                count as u64
            },
        );
        let left: Number = from_whole(index as u64).over(width);
        let right: Number = from_whole((index + 1) as u64).over(width);
        if flip_x {
            TileUv { u0: right, u1: left }
        } else {
            TileUv { u0: left, u1: right }
        }
    }

    /// The four texture coordinates: top-left first and then clockwise.
    pub open spec fn points(&self) -> Seq<Point> {
        seq![
            Point { x: self.u0, y: num(0) },
            Point { x: self.u1, y: num(0) },
            Point { x: self.u1, y: one() },
            Point { x: self.u0, y: one() },
        ]
    }

    /// The four texture coordinates: top-left first and then clockwise.
    pub fn corners(&self) -> (corners: [Point; 4])
        ensures
            corners@ == self.points(),
    {
        let corners: [Point; 4] = [
            Point { x: self.u0, y: num(0) },
            Point { x: self.u1, y: num(0) },
            Point { x: self.u1, y: one() },
            Point { x: self.u0, y: one() },
        ];
        assert(corners@ =~= self.points());
        corners
    }
}

/// Mirroring swaps the slot and nothing else: the figure turns where it stands, and samples its own
/// tile.
pub proof fn law_mirroring_swaps_the_slot(index: nat, count: nat)
    ensures
        TileUv::slice(index, count, true).u0 == TileUv::slice(index, count, false).u1,
        TileUv::slice(index, count, true).u1 == TileUv::slice(index, count, false).u0,
{
}

/// One corner of a quad: where it is from the mesh's origin with y running up, where it samples its
/// texture, and its tint.
#[derive(Clone, Copy, Debug, PartialEq, Eq)]
pub struct QuadVertex<C> {
    pub at: Point,
    pub uv: Point,
    pub tint: C,
}

/// A point as it lies from an origin, with y running up.
pub open spec fn local_to(p: Point, origin: Point) -> Point {
    p.flipped().from(origin.flipped())
}

/// The corners of a quad relative to an origin.
pub open spec fn quad_points<C>(rect: ShearedRect, uv: TileUv, tint: C, origin: Point) -> Seq<
    QuadVertex<C>,
> {
    Seq::new(
        4,
        |i: int|
            QuadVertex { at: local_to(rect.points()[i], origin), uv: uv.points()[i], tint },
    )
}

fn local_point(p: Point, origin: Point) -> (local: Point)
    ensures
        local == local_to(p, origin),
{
    Point { x: p.x.minus(origin.x), y: p.y.minus_self().minus(origin.y.minus_self()) }
}

/// Quads under construction, reused across frames, relative to an origin.
#[derive(Clone, Debug, PartialEq, Eq)]
pub struct QuadBuf<C> {
    origin: Point,
    buf: VertexBuf<QuadVertex<C>>,
}

/// The indices of `n` quads, one after another.
pub open spec fn quad_indices(n: nat) -> Seq<u32>
    decreases n,
{
    if n == 0 {
        Seq::empty()
    } else {
        quad_indices((n - 1) as nat) + quad_index((4 * (n - 1)) as u32)
    }
}

/// The buffer holds nothing but whole quads, one after another.
pub open spec fn is_quads<V: Copy>(buf: VertexBuf<V>) -> bool {
    &&& buf.points().len() % 4 == 0
    &&& buf.corners() == quad_indices((buf.points().len() / 4) as nat)
}

proof fn lemma_quad_indices_len(n: nat)
    ensures
        quad_indices(n).len() == 6 * n,
    decreases n,
{
    if n > 0 {
        lemma_quad_indices_len((n - 1) as nat);
    }
}

impl<C: Copy> QuadBuf<C> {
    /// What the vertices are relative to, in world pixels with y running down.
    pub closed spec fn base(&self) -> Point {
        self.origin
    }

    /// The vertices, four to a quad.
    pub closed spec fn points(&self) -> Seq<QuadVertex<C>> {
        self.buf.points()
    }

    /// How many quads have been pushed.
    pub open spec fn count(&self) -> nat {
        self.points().len() / 4
    }

    /// The buffer holds whole quads and their triangles.
    pub closed spec fn wf(&self) -> bool {
        &&& self.buf.wf()
        &&& is_quads(self.buf)
    }

    /// An empty buffer.
    pub fn new() -> (buf: QuadBuf<C>)
        ensures
            buf.wf(),
            buf.base() == (Point { x: num(0), y: num(0) }),
            buf.points() == Seq::<QuadVertex<C>>::empty(),
    {
        QuadBuf { origin: Point { x: num(0), y: num(0) }, buf: VertexBuf::new() }
    }

    /// Drop last frame's quads and set the origin this frame's are relative to.
    pub fn begin(&mut self, origin: Point)
        ensures
            final(self).wf(),
            final(self).base() == origin,
            final(self).points() == Seq::<QuadVertex<C>>::empty(),
    {
        self.origin = origin;
        self.buf.clear();
    }

    /// What the vertices are relative to.
    pub fn origin(&self) -> (origin: Point)
        ensures
            origin == self.base(),
    {
        self.origin
    }

    /// Add one quad: a rectangle in world pixels with y running down, the slice it samples, and a
    /// tint for every one of its corners.
    pub fn push(&mut self, rect: ShearedRect, uv: TileUv, tint: C)
        requires
            old(self).wf(),
            old(self).points().len() + 4 <= u32::MAX,
        ensures
            final(self).wf(),
            final(self).base() == old(self).base(),
            final(self).points() == old(self).points() + quad_points(
                rect,
                uv,
                tint,
                old(self).base(),
            ),
            final(self).count() == old(self).count() + 1,
    {
        let c: [Point; 4] = rect.corners();
        let t: [Point; 4] = uv.corners();
        let corners: [QuadVertex<C>; 4] = [
            QuadVertex { at: local_point(c[0], self.origin), uv: t[0], tint },
            QuadVertex { at: local_point(c[1], self.origin), uv: t[1], tint },
            QuadVertex { at: local_point(c[2], self.origin), uv: t[2], tint },
            QuadVertex { at: local_point(c[3], self.origin), uv: t[3], tint },
        ];
        assert(corners@ =~= quad_points(rect, uv, tint, self.origin));
        self.buf.quad(corners);
        proof {
            let n = (old(self).buf.points().len() / 4) as nat;
            assert(self.buf.points().len() / 4 == n + 1);
            assert(4 * n == old(self).buf.points().len());
        }
    }

    /// How many quads have been pushed since [`QuadBuf::begin`].
    pub fn quads(&self) -> (n: usize)
        requires
            self.wf(),
        ensures
            n == self.count(),
    {
        self.buf.len() / 4
    }

    /// Hand over what has been built, and leave the buffer empty. A degenerate triangle stands in
    /// for a buffer with no quads, so the mesh is never empty.
    pub fn write(&mut self, blank: QuadVertex<C>) -> (mesh: Geometry<QuadVertex<C>>)
        requires
            old(self).wf(),
        ensures
            final(self).wf(),
            final(self).base() == old(self).base(),
            final(self).points() == Seq::<QuadVertex<C>>::empty(),
            old(self).count() > 0 ==> mesh.vertices@ == old(self).points() && mesh.index@
                == quad_indices(old(self).count()),
            old(self).count() == 0 ==> mesh.vertices@ == seq![blank, blank, blank] && mesh.index@
                == seq![0u32, 1, 2],
    {
        let mesh: Geometry<QuadVertex<C>> = self.buf.write(blank);
        assert(old(self).count() == 0 ==> mesh.index@ =~= seq![0u32, 1, 2]);
        mesh
    }
}

/// Six indices to a quad: the triangles of `n` quads are exactly `2 n`.
pub proof fn law_two_triangles_to_a_quad(n: nat)
    ensures
        quad_indices(n).len() == 3 * (2 * n),
{
    lemma_quad_indices_len(n);
}

/// Zero displacement is not merely close to the unsheared rectangle, it is it: every corner of a
/// flat one is a corner of the plain rectangle, as long as no edge lies on the negative zero.
pub proof fn law_no_shear_is_the_plain_rectangle(rect: ShearedRect)
    requires
        rect.top_dx.is_zero_spec(),
        rect.bottom_dx.is_zero_spec(),
        rect.x.is_number(),
        rect.x.sum(rect.w).is_number(),
        !(rect.x.is_zero_spec() && rect.x.negative()),
        !(rect.x.sum(rect.w).is_zero_spec() && rect.x.sum(rect.w).negative()),
    ensures
        rect.points() == seq![
            Point { x: rect.x, y: rect.y },
            Point { x: rect.x.sum(rect.w), y: rect.y },
            Point { x: rect.x.sum(rect.w), y: rect.y.sum(rect.h) },
            Point { x: rect.x, y: rect.y.sum(rect.h) },
        ],
{
    law_zero_adds_nothing(rect.x, rect.top_dx);
    law_zero_adds_nothing(rect.x, rect.bottom_dx);
    law_zero_adds_nothing(rect.x.sum(rect.w), rect.top_dx);
    law_zero_adds_nothing(rect.x.sum(rect.w), rect.bottom_dx);
}

/// A shear moves nothing up or down: the two corners of each edge are level, and as high as they
/// would be without it.
pub proof fn law_a_shear_keeps_every_edge_level(rect: ShearedRect)
    ensures
        rect.points()[0].y == rect.y,
        rect.points()[1].y == rect.y,
        rect.points()[2].y == rect.y.sum(rect.h),
        rect.points()[3].y == rect.y.sum(rect.h),
{
}

/// A sheared rectangle in whole pixels has its top corners moved across by the lean of its top, and
/// its bottom ones by that of its bottom, with its width between the two of each and its height
/// between the edges. Seen from an origin, with y running up, each lies as far right and as far up as
/// it is from there.
pub proof fn law_a_quad_lies_where_its_rectangle_does<C>(
    rect: ShearedRect,
    uv: TileUv,
    tint: C,
    origin: Point,
    at: (int, int),
    size: (int, int),
    lean: (int, int),
    from: (int, int),
)
    requires
        is_whole(rect.x, at.0),
        is_whole(rect.y, at.1),
        is_whole(rect.w, size.0),
        is_whole(rect.h, size.1),
        is_whole(rect.top_dx, lean.0),
        is_whole(rect.bottom_dx, lean.1),
        is_whole(origin.x, from.0),
        is_whole(origin.y, from.1),
        -0x20_0000 < at.0 < 0x20_0000,
        -0x20_0000 < at.1 < 0x20_0000,
        -0x20_0000 < size.0 < 0x20_0000,
        -0x20_0000 < size.1 < 0x20_0000,
        -0x20_0000 < lean.0 < 0x20_0000,
        -0x20_0000 < lean.1 < 0x20_0000,
        -0x20_0000 < from.0 < 0x20_0000,
        -0x20_0000 < from.1 < 0x20_0000,
    ensures
        ({
            let q = quad_points(rect, uv, tint, origin);
            &&& is_whole(q[0].at.x, at.0 + lean.0 - from.0)
            &&& is_whole(q[1].at.x, at.0 + size.0 + lean.0 - from.0)
            &&& is_whole(q[2].at.x, at.0 + size.0 + lean.1 - from.0)
            &&& is_whole(q[3].at.x, at.0 + lean.1 - from.0)
            &&& is_whole(q[0].at.y, from.1 - at.1)
            &&& is_whole(q[1].at.y, from.1 - at.1)
            &&& is_whole(q[2].at.y, from.1 - (at.1 + size.1))
            &&& is_whole(q[3].at.y, from.1 - (at.1 + size.1))
        }),
{
    let (right, bottom) = (rect.x.sum(rect.w), rect.y.sum(rect.h));
    law_whole_sums_are_exact(rect.x, rect.w, at.0, size.0);
    law_whole_sums_are_exact(rect.y, rect.h, at.1, size.1);
    law_whole_sums_are_exact(rect.x, rect.top_dx, at.0, lean.0);
    law_whole_sums_are_exact(rect.x, rect.bottom_dx, at.0, lean.1);
    law_whole_sums_are_exact(right, rect.top_dx, at.0 + size.0, lean.0);
    law_whole_sums_are_exact(right, rect.bottom_dx, at.0 + size.0, lean.1);
    law_whole_differences_are_exact(rect.x.sum(rect.top_dx), origin.x, at.0 + lean.0, from.0);
    law_whole_differences_are_exact(
        right.sum(rect.top_dx),
        origin.x,
        at.0 + size.0 + lean.0,
        from.0,
    );
    law_whole_differences_are_exact(
        right.sum(rect.bottom_dx),
        origin.x,
        at.0 + size.0 + lean.1,
        from.0,
    );
    law_whole_differences_are_exact(rect.x.sum(rect.bottom_dx), origin.x, at.0 + lean.1, from.0);
    lemma_negated(rect.y, at.1);
    lemma_negated(bottom, at.1 + size.1);
    lemma_negated(origin.y, from.1);
    law_whole_differences_are_exact(rect.y.negated(), origin.y.negated(), -at.1, -from.1);
    law_whole_differences_are_exact(
        bottom.negated(),
        origin.y.negated(),
        -(at.1 + size.1),
        -from.1,
    );
}

/// A quad samples its slice upright: the corners of its left edge at the slice's start and those of
/// its right edge at its end, the top ones at the top of the strip and the bottom ones at its
/// bottom. All are in its tint.
pub proof fn law_a_quad_samples_its_slice_upright<C>(
    rect: ShearedRect,
    uv: TileUv,
    tint: C,
    origin: Point,
)
    ensures
        ({
            let q = quad_points(rect, uv, tint, origin);
            &&& q.len() == 4
            &&& q[0].uv.x == uv.u0 && q[3].uv.x == uv.u0
            &&& q[1].uv.x == uv.u1 && q[2].uv.x == uv.u1
            &&& q[0].uv.y == num(0) && q[1].uv.y == num(0)
            &&& q[2].uv.y == one() && q[3].uv.y == one()
            &&& forall|i: int| 0 <= i < 4 ==> (#[trigger] q[i]).tint == tint
        }),
{
}

/// The tiles fill their strip, each where the one before it ends: the first starts at its left, the
/// last ends at its right, and none ends before it starts.
pub proof fn law_tiles_fill_the_strip(index: nat, count: nat)
    requires
        index < count < 0x100_0000,
    ensures
        TileUv::slice(index, count, false).u1 == TileUv::slice(index + 1, count, false).u0,
        TileUv::slice(0, count, false).u0.is_zero_spec(),
        TileUv::slice((count - 1) as nat, count, false).u1 == one(),
        TileUv::slice(index, count, false).u0.le(TileUv::slice(index, count, false).u1),
        num(0).le(TileUv::slice(index, count, false).u0),
        TileUv::slice(index, count, false).u1.le(one()),
{
    let (a, b, all) = (whole_number(index), whole_number(index + 1), whole_number(count));
    law_small_whole_numbers_are_exact(index as int);
    law_small_whole_numbers_are_exact((index + 1) as int);
    law_small_whole_numbers_are_exact(count as int);
    law_small_whole_numbers_are_exact(0);
    lemma_pow2_pos(149);
    let one = pow2(149) as int;
    assert(0 <= index * one <= (index + 1) * one <= count * one && 0 < count * one)
        by (nonlinear_arith)
        requires
            0 <= index < count,
            0 < one,
    ;
    lemma_values_in_order(num(0), a);
    lemma_values_in_order(a, b);
    lemma_values_in_order(b, all);
    law_rank_orders_values(num(0), all);
    law_quotients_keep_order(a, b, all);
    law_quotients_keep_order(b, all, all);
    law_quotients_keep_order(num(0), a, all);
    law_itself_goes_in_once(all);
    lemma_zero_goes_into(count);
    crate::arith::lemma_zero_over(num(0), all);
}

} // verus!
