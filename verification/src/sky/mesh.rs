//! Triangles under construction: the one dynamic mesh the drawing passes share.

use vstd::prelude::*;

use crate::arith::{from_whole, whole_number};
use crate::number::{Number, num};
use crate::shear::Point;
use crate::whole::{
    is_halves, is_whole, law_differences_of_halves_are_exact, law_half_of_a_whole_is_exact,
    law_small_whole_numbers_are_exact, law_whole_sums_are_exact, lemma_whole_is_halves,
};

verus! {

/// A finished mesh: its vertices, and three indices into them for each triangle.
#[derive(Clone, Debug, PartialEq, Eq)]
pub struct Geometry<V> {
    pub vertices: Vec<V>,
    pub index: Vec<u32>,
}

/// Triangles under construction, reused across frames.
#[derive(Clone, Debug, PartialEq, Eq)]
pub struct VertexBuf<V> {
    vertices: Vec<V>,
    index: Vec<u32>,
}

/// The indices of a quad whose first vertex is `base`: two triangles that share the diagonal.
pub open spec fn quad_index(base: u32) -> Seq<u32> {
    seq![
        base,
        (base + 1) as u32,
        (base + 2) as u32,
        base,
        (base + 2) as u32,
        (base + 3) as u32,
    ]
}

/// Whole triangles, and every corner of them a vertex there is.
pub open spec fn is_drawable<V>(vertices: Seq<V>, index: Seq<u32>) -> bool {
    &&& index.len() % 3 == 0
    &&& forall|i: int| 0 <= i < index.len() ==> (#[trigger] index[i]) < vertices.len()
}

impl<V: Copy> VertexBuf<V> {
    /// The vertices pushed so far.
    pub closed spec fn points(&self) -> Seq<V> {
        self.vertices@
    }

    /// The triangles' indices pushed so far.
    pub closed spec fn corners(&self) -> Seq<u32> {
        self.index@
    }

    /// What has been built can be drawn.
    pub open spec fn wf(&self) -> bool {
        is_drawable(self.points(), self.corners())
    }

    /// An empty buffer.
    pub fn new() -> (buf: VertexBuf<V>)
        ensures
            buf.wf(),
            buf.points() == Seq::<V>::empty(),
            buf.corners() == Seq::<u32>::empty(),
    {
        VertexBuf { vertices: Vec::new(), index: Vec::new() }
    }

    /// Drop last frame's triangles.
    pub fn clear(&mut self)
        ensures
            final(self).wf(),
            final(self).points() == Seq::<V>::empty(),
            final(self).corners() == Seq::<u32>::empty(),
    {
        self.vertices.clear();
        self.index.clear();
    }

    /// How many vertices have been pushed.
    pub fn len(&self) -> (n: usize)
        ensures
            n == self.points().len(),
    {
        self.vertices.len()
    }

    /// Push a vertex and return its index.
    pub fn vertex(&mut self, v: V) -> (i: u32)
        requires
            old(self).points().len() <= u32::MAX,
        ensures
            i == old(self).points().len(),
            final(self).points() == old(self).points().push(v),
            final(self).corners() == old(self).corners(),
            old(self).wf() ==> final(self).wf(),
    {
        let i: u32 = self.vertices.len() as u32;
        self.vertices.push(v);
        i
    }

    /// Push a triangle from three existing vertices.
    pub fn tri(&mut self, a: u32, b: u32, c: u32)
        requires
            a < old(self).points().len(),
            b < old(self).points().len(),
            c < old(self).points().len(),
        ensures
            final(self).points() == old(self).points(),
            final(self).corners() == old(self).corners() + seq![a, b, c],
            old(self).wf() ==> final(self).wf(),
    {
        self.index.push(a);
        self.index.push(b);
        self.index.push(c);
        assert(self.index@ =~= old(self).index@ + seq![a, b, c]);
    }

    /// Push a quad from four corners, wound in order.
    pub fn quad(&mut self, corners: [V; 4])
        requires
            old(self).points().len() + 4 <= u32::MAX,
        ensures
            final(self).points() == old(self).points() + corners@,
            final(self).corners() == old(self).corners() + quad_index(
                old(self).points().len() as u32,
            ),
            old(self).wf() ==> final(self).wf(),
    {
        let a: u32 = self.vertex(corners[0]);
        let b: u32 = self.vertex(corners[1]);
        let c: u32 = self.vertex(corners[2]);
        let d: u32 = self.vertex(corners[3]);
        self.tri(a, b, c);
        self.tri(a, c, d);
        assert(self.points() =~= old(self).points() + corners@);
        assert(self.corners() =~= old(self).corners() + quad_index(
            old(self).points().len() as u32,
        ));
    }

    /// Hand over what has been built, and leave the buffer empty.
    ///
    /// A mesh with no vertices is a mesh the renderer cannot allocate. So when nothing was pushed
    /// one degenerate triangle stands in: three coincident points that paint nothing.
    pub fn write(&mut self, blank: V) -> (mesh: Geometry<V>)
        ensures
            final(self).points() == Seq::<V>::empty(),
            final(self).corners() == Seq::<u32>::empty(),
            final(self).wf(),
            old(self).wf() ==> is_drawable(mesh.vertices@, mesh.index@),
            mesh.vertices@.len() > 0,
            old(self).points().len() > 0 ==> mesh.vertices@ == old(self).points() && mesh.index@
                == old(self).corners(),
            old(self).points().len() == 0 ==> mesh.vertices@ == seq![blank, blank, blank]
                && mesh.index@ == old(self).corners() + seq![0u32, 1, 2],
    {
        let mut vertices: Vec<V> = Vec::new();
        let mut index: Vec<u32> = Vec::new();
        std::mem::swap(&mut vertices, &mut self.vertices);
        std::mem::swap(&mut index, &mut self.index);
        if vertices.len() == 0 {
            vertices.push(blank);
            vertices.push(blank);
            vertices.push(blank);
            index.push(0);
            index.push(1);
            index.push(2);
            assert(vertices@ =~= seq![blank, blank, blank]);
            assert(index@ =~= old(self).index@ + seq![0u32, 1, 2]);
        }
        Geometry { vertices, index }
    }
}

/// A quad's two triangles share exactly the diagonal from its first corner to its third, and
/// between them touch all four corners.
pub proof fn law_quad_shares_its_diagonal(base: u32)
    requires
        base + 4 <= u32::MAX,
    ensures
        quad_index(base)[0] == quad_index(base)[3] == base,
        quad_index(base)[2] == quad_index(base)[4] == base + 2,
        quad_index(base)[1] == base + 1,
        quad_index(base)[5] == base + 3,
{
}

/// A view's size in pixels.
#[derive(Clone, Copy, Debug, PartialEq, Eq, Structural)]
pub struct ViewSize {
    pub w: u32,
    pub h: u32,
}

/// Half of an extent of the view.
pub open spec fn half_of(extent: u32) -> Number {
    whole_number(extent as nat).product(num(0x3f00_0000))
}

/// View space into local space.
///
/// View space starts at the top-left with y running down. Local space starts at the centre with y
/// running up. This is the one place the backdrop flips.
pub open spec fn local(x: Number, y: Number, view: ViewSize) -> Point {
    Point { x: x.difference(half_of(view.w)), y: half_of(view.h).difference(y) }
}

/// View space into local space. See [`local`].
pub fn view_to_local(x: Number, y: Number, view: ViewSize) -> (at: Point)
    ensures
        at == local(x, y, view),
{
    let half: Number = num(0x3f00_0000);
    Point {
        x: x.minus(from_whole(view.w as u64).times(half)),
        y: from_whole(view.h as u64).times(half).minus(y),
    }
}

/// A coloured point of a flat mesh, with y running up.
#[derive(Clone, Copy, Debug, PartialEq, Eq)]
pub struct Vertex<C> {
    pub at: Point,
    pub color: C,
}

/// The corners of a flat-coloured rectangle given in view space, top-left first and then clockwise:
/// its top-left, and how far it runs right and down.
pub open spec fn rect_corners<C>(
    x: Number,
    y: Number,
    w: Number,
    h: Number,
    view: ViewSize,
    color: C,
) -> Seq<Vertex<C>> {
    let (right, bottom) = (x.sum(w), y.sum(h));
    seq![
        Vertex { at: local(x, y, view), color },
        Vertex { at: local(right, y, view), color },
        Vertex { at: local(right, bottom, view), color },
        Vertex { at: local(x, bottom, view), color },
    ]
}

impl<C: Copy> VertexBuf<Vertex<C>> {
    /// Push a flat-coloured rectangle given in view space. See [`rect_corners`].
    pub fn rect(&mut self, x: Number, y: Number, w: Number, h: Number, view: ViewSize, color: C)
        requires
            old(self).points().len() + 4 <= u32::MAX,
        ensures
            final(self).points() == old(self).points() + rect_corners(x, y, w, h, view, color),
            final(self).corners() == old(self).corners() + quad_index(
                old(self).points().len() as u32,
            ),
            old(self).wf() ==> final(self).wf(),
    {
        let (right, bottom): (Number, Number) = (x.plus(w), y.plus(h));
        let corners: [Vertex<C>; 4] = [
            Vertex { at: view_to_local(x, y, view), color },
            Vertex { at: view_to_local(right, y, view), color },
            Vertex { at: view_to_local(right, bottom, view), color },
            Vertex { at: view_to_local(x, bottom, view), color },
        ];
        self.quad(corners);
        assert(corners@ =~= rect_corners(x, y, w, h, view, color));
    }
}

/// The view is turned about its middle: a whole pixel `x` across and `y` down the view lies half the
/// view's width to the left of that, and half its height less `y` up. So further right is further
/// right, and further down is further down the y that runs up.
pub proof fn law_the_view_is_turned_about_its_middle(
    x: Number,
    y: Number,
    at: (int, int),
    view: ViewSize,
)
    requires
        is_whole(x, at.0),
        is_whole(y, at.1),
        -0x40_0000 < at.0 < 0x40_0000,
        -0x40_0000 < at.1 < 0x40_0000,
        view.w < 0x40_0000,
        view.h < 0x40_0000,
    ensures
        is_halves(local(x, y, view).x, 2 * at.0 - view.w),
        is_halves(local(x, y, view).y, view.h - 2 * at.1),
{
    law_small_whole_numbers_are_exact(view.w as int);
    law_small_whole_numbers_are_exact(view.h as int);
    law_half_of_a_whole_is_exact(whole_number(view.w as nat), view.w as int);
    law_half_of_a_whole_is_exact(whole_number(view.h as nat), view.h as int);
    lemma_whole_is_halves(x, at.0);
    lemma_whole_is_halves(y, at.1);
    law_differences_of_halves_are_exact(x, half_of(view.w), 2 * at.0, view.w as int);
    law_differences_of_halves_are_exact(half_of(view.h), y, view.h as int, 2 * at.1);
}

/// `v` is the corner of a mesh that stands at a whole pixel of the view.
pub open spec fn is_corner<C>(v: Vertex<C>, x: int, y: int, view: ViewSize, color: C) -> bool {
    &&& is_halves(v.at.x, 2 * x - view.w)
    &&& is_halves(v.at.y, view.h - 2 * y)
    &&& v.color == color
}

/// A rectangle in whole pixels has its four corners where its edges meet, the top left first and
/// then clockwise, all in its colour: it runs as far right as it is wide and as far down as it is
/// high.
pub proof fn law_a_rectangle_has_its_corners_on_its_edges<C>(
    x: Number,
    y: Number,
    w: Number,
    h: Number,
    at: (int, int),
    size: (int, int),
    view: ViewSize,
    color: C,
)
    requires
        is_whole(x, at.0),
        is_whole(y, at.1),
        is_whole(w, size.0),
        is_whole(h, size.1),
        -0x20_0000 < at.0 < 0x20_0000,
        -0x20_0000 < at.1 < 0x20_0000,
        -0x20_0000 < size.0 < 0x20_0000,
        -0x20_0000 < size.1 < 0x20_0000,
        view.w < 0x40_0000,
        view.h < 0x40_0000,
    ensures
        ({
            let c = rect_corners(x, y, w, h, view, color);
            &&& c.len() == 4
            &&& is_corner(c[0], at.0, at.1, view, color)
            &&& is_corner(c[1], at.0 + size.0, at.1, view, color)
            &&& is_corner(c[2], at.0 + size.0, at.1 + size.1, view, color)
            &&& is_corner(c[3], at.0, at.1 + size.1, view, color)
        }),
{
    let (right, bottom) = (x.sum(w), y.sum(h));
    law_whole_sums_are_exact(x, w, at.0, size.0);
    law_whole_sums_are_exact(y, h, at.1, size.1);
    law_the_view_is_turned_about_its_middle(x, y, at, view);
    law_the_view_is_turned_about_its_middle(right, bottom, (at.0 + size.0, at.1 + size.1), view);
}

} // verus!
