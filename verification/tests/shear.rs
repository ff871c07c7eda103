use yugen_render::number::Number;
use yugen_render::shear::{
    origin_translation, Point, QuadBuf, QuadVertex, ShearedRect, TileUv,
};

fn num(x: f32) -> Number {
    Number { bits: x.to_bits() }
}

fn value(n: Number) -> f32 {
    f32::from_bits(n.bits)
}

fn at(x: f32, y: f32) -> Point {
    Point { x: num(x), y: num(y) }
}

fn xy(p: Point) -> (f32, f32) {
    (value(p.x), value(p.y))
}

fn flat(x: f32, y: f32, w: f32, h: f32) -> ShearedRect {
    ShearedRect::flat(num(x), num(y), num(w), num(h))
}

/// A 10x15 rectangle at the origin: the player's own box.
fn rect() -> ShearedRect {
    flat(0.0, 0.0, 10.0, 15.0)
}

fn corners(r: &ShearedRect) -> [(f32, f32); 4] {
    r.corners().map(xy)
}

const TINT: [u8; 4] = [255; 4];

fn blank() -> QuadVertex<[u8; 4]> {
    QuadVertex { at: at(0.0, 0.0), uv: at(0.0, 0.0), tint: [0; 4] }
}

fn positions(buf: &mut QuadBuf<[u8; 4]>) -> Vec<(f32, f32)> {
    buf.write(blank()).vertices.iter().map(|v| xy(v.at)).collect()
}

fn signed_area(points: &[(f32, f32)]) -> f32 {
    (0..points.len())
        .map(|i| {
            let (a, b) = (points[i], points[(i + 1) % points.len()]);
            a.0 * b.1 - b.0 * a.1
        })
        .sum()
}

#[test]
fn a_flat_rect_has_four_axis_aligned_corners() {
    let c = corners(&rect());
    assert_eq!(c[0], (0.0, 0.0));
    assert_eq!(c[1], (10.0, 0.0));
    assert_eq!(c[2], (10.0, 15.0));
    assert_eq!(c[3], (0.0, 15.0));
    assert_eq!(c[0].1, c[1].1);
    assert_eq!(c[2].1, c[3].1);
    assert_eq!(c[0].0, c[3].0);
    assert_eq!(c[1].0, c[2].0);
}

#[test]
fn each_edge_carries_exactly_its_own_displacement() {
    let sheared = ShearedRect { top_dx: num(2.4), bottom_dx: num(-0.5), ..rect() };
    let flat = corners(&rect());
    let c = corners(&sheared);
    assert_eq!(c[0].0, flat[0].0 + 2.4, "the top-left missed the shear");
    assert_eq!(c[1].0, flat[1].0 + 2.4, "the top-right missed the shear");
    assert_eq!(c[3].0, flat[3].0 - 0.5, "the bottom-left missed the shear");
    assert_eq!(c[2].0, flat[2].0 - 0.5, "the bottom-right missed it");
    for (got, want) in c.iter().zip(flat) {
        assert_eq!(got.1, want.1, "the shear lifted a corner");
    }
    assert_eq!(c[3].1 - c[0].1, 15.0, "the figure lost height");
    assert!((c[1].0 - c[0].0 - 10.0).abs() < 1e-4, "the top edge stretched");
    assert!((c[2].0 - c[3].0 - 10.0).abs() < 1e-4, "the bottom edge stretched");
}

#[test]
fn a_zero_shear_is_bit_identical_to_no_shear() {
    let zero = ShearedRect { top_dx: num(0.0), bottom_dx: num(0.0), ..rect() };
    assert_eq!(zero.corners(), rect().corners());
    // And of a rectangle that lies on no whole pixel.
    let r = flat(12.37, -4.5, 10.0, 15.0);
    assert_eq!(corners(&r)[0], (12.37, -4.5));
    assert_eq!(corners(&r)[2], (12.37 + 10.0, -4.5 + 15.0));
}

#[test]
fn a_quad_winds_clockwise_in_bevy_space() {
    let mut buf = QuadBuf::new();
    buf.begin(at(0.0, 0.0));
    buf.push(rect(), TileUv::whole(), TINT);
    let p = positions(&mut buf);
    assert_eq!(p.len(), 4);
    assert!(signed_area(&p) < 0.0, "the quad wound anticlockwise: {p:?}");
}

#[test]
fn the_origin_is_subtracted_in_the_flipped_space() {
    let mut buf = QuadBuf::new();
    buf.begin(at(4.0, 20.0));
    buf.push(flat(4.0, 20.0, 10.0, 15.0), TileUv::whole(), TINT);
    let p = positions(&mut buf);
    assert_eq!(p[0], (0.0, 0.0));
    assert_eq!(p[1], (10.0, 0.0));
    assert_eq!(p[2], (10.0, -15.0));
    assert_eq!(p[3], (0.0, -15.0));
}

#[test]
fn the_origin_translation_and_the_vertices_compose_back_to_sim_space() {
    let origin = at(37.0, 204.0);
    assert_eq!(xy(origin_translation(origin)), (37.0, -204.0));
    let mut buf = QuadBuf::new();
    buf.begin(origin);
    buf.push(flat(42.0, 207.0, 10.0, 15.0), TileUv::whole(), TINT);
    let o = xy(origin_translation(buf.origin()));
    let p = positions(&mut buf)[0];
    assert_eq!((o.0 + p.0, o.1 + p.1), (42.0, -207.0), "the quad moved");
}

#[test]
fn a_tile_spans_exactly_one_slot_of_the_strip() {
    let uv = TileUv::of(2, 8, false);
    assert_eq!(value(uv.u0), 0.25);
    assert_eq!(value(uv.u1), 0.375);
    let c = uv.corners().map(xy);
    assert_eq!(c[0], (0.25, 0.0));
    assert_eq!(c[1], (0.375, 0.0));
    assert_eq!(c[2], (0.375, 1.0));
    assert_eq!(c[3], (0.25, 1.0));
    let third = TileUv::of(1, 3, false);
    assert_eq!((value(third.u0), value(third.u1)), (1.0 / 3.0, 2.0 / 3.0));
}

#[test]
fn mirroring_swaps_the_slot_and_nothing_else() {
    let plain = TileUv::of(2, 8, false);
    let flipped = TileUv::of(2, 8, true);
    assert_eq!(flipped.u0, plain.u1);
    assert_eq!(flipped.u1, plain.u0);
    assert_eq!(value(flipped.u0).min(value(flipped.u1)), value(plain.u0));
    assert_eq!(value(flipped.u0).max(value(flipped.u1)), value(plain.u1));
}

#[test]
fn a_single_tile_strip_is_the_whole_texture() {
    assert_eq!(TileUv::of(0, 1, false), TileUv::whole());
    let degenerate = TileUv::of(0, 0, false);
    assert!(value(degenerate.u0).is_finite() && value(degenerate.u1).is_finite());
}

#[test]
fn quads_share_their_diagonal() {
    let mut buf = QuadBuf::new();
    buf.begin(at(0.0, 0.0));
    for i in 0..3 {
        buf.push(flat(i as f32 * 10.0, 0.0, 10.0, 15.0), TileUv::whole(), TINT);
    }
    assert_eq!(buf.quads(), 3);
    let mesh = buf.write(blank());
    assert_eq!(mesh.vertices.len(), 3 * 4);
    assert_eq!(mesh.index.len(), 3 * 6);
    assert_eq!(mesh.index[..6], [0, 1, 2, 0, 2, 3]);
    assert_eq!(mesh.index[12..], [8, 9, 10, 8, 10, 11]);
}

#[test]
fn a_tint_reaches_every_corner() {
    let tint = [1.0f32, 1.0, 1.0, 0.15].map(num);
    let mut buf = QuadBuf::new();
    buf.begin(at(0.0, 0.0));
    buf.push(rect(), TileUv::whole(), tint);
    let none = QuadVertex { at: at(0.0, 0.0), uv: at(0.0, 0.0), tint: [num(0.0); 4] };
    let mesh = buf.write(none);
    assert_eq!(mesh.vertices.len(), 4);
    assert!(mesh.vertices.iter().all(|v| v.tint == tint));
    assert_eq!(xy(mesh.vertices[2].uv), (1.0, 1.0));
}

#[test]
fn an_empty_buffer_still_writes_a_drawable_mesh() {
    let mut buf = QuadBuf::new();
    buf.begin(at(0.0, 0.0));
    let mesh = buf.write(blank());
    assert_eq!(mesh.vertices.len(), 3, "the mesh came out empty");
    assert_eq!(mesh.index.len(), 3);
    assert!(mesh.vertices.iter().all(|v| *v == blank()));
}

#[test]
fn begin_drops_the_previous_frame() {
    let mut buf = QuadBuf::new();
    buf.begin(at(0.0, 0.0));
    buf.push(rect(), TileUv::whole(), TINT);
    buf.begin(at(0.0, 0.0));
    assert_eq!(buf.quads(), 0);
}
