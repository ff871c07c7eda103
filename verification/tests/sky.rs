use yugen_render::number::Number;
use yugen_render::shear::Point;
use yugen_render::sky::backdrop::{
    build_ridges, place_discs, place_stars, push_ridge, ridge_columns, setup, BlockDisc,
    RidgeStrip, SkyPass, StarSpot,
};
use yugen_render::sky::mesh::{view_to_local, Vertex, VertexBuf, ViewSize};
use yugen_render::sky::model::{
    block_grid, block_sample, paint_gradient, Texel, BAYER_N, SKY_PIXEL_PX,
};
use yugen_render::sky::stars::{hash, StarField, STAR_COUNT};
use yugen_render::sprite::baked::CELL_SIZE;

type Color = [u8; 4];

const CLEAR: Color = [0; 4];
const WHITE: Color = [255; 4];
const VIEW: ViewSize = ViewSize { w: 720, h: 450 };
const ZERO: Number = Number { bits: 0 };
const BLANK: Vertex<Color> = Vertex { at: Point { x: ZERO, y: ZERO }, color: CLEAR };

fn num(x: f32) -> Number {
    Number { bits: x.to_bits() }
}

fn at(p: Point) -> (f32, f32) {
    (value(p.x), value(p.y))
}

fn push_rect(buf: &mut VertexBuf<Vertex<Color>>, r: [f32; 4], view: ViewSize, color: Color) {
    let [x, y, w, h] = r.map(num);
    buf.rect(x, y, w, h, view, color);
}

fn empty_buffer_is_allocatable() {
    let mut buf: VertexBuf<Vertex<Color>> = VertexBuf::new();
    buf.clear();
    let mesh = buf.write(BLANK);
    assert_eq!(mesh.vertices.len(), 3, "an empty buffer must leave something allocatable");
    assert_eq!(mesh.index.len(), 3, "and the indices have to match");
    assert!(mesh.vertices.iter().all(|v| v.color[3] == 0), "the stand-in is transparent");
}

fn triangles_are_not_disturbed() {
    let mut buf: VertexBuf<Vertex<Color>> = VertexBuf::new();
    buf.clear();
    push_rect(&mut buf, [0.0, 0.0, 2.0, 2.0], ViewSize { w: 640, h: 400 }, WHITE);
    let want = buf.len();
    let mesh = buf.write(BLANK);
    assert!(want > 0, "the fixture should have produced geometry");
    assert_eq!(mesh.vertices.len(), want, "the fallback must not fire");
}

fn view_flips_once() {
    let (w, h) = (VIEW.w as f32, VIEW.h as f32);
    let local = |x: f32, y: f32| at(view_to_local(num(x), num(y), VIEW));
    assert_eq!(local(0.0, 0.0), (-w / 2.0, h / 2.0));
    assert_eq!(local(w, h), (w / 2.0, -h / 2.0));
    assert_eq!(local(w / 2.0, h / 2.0), (0.0, 0.0));
}

fn rebuilt_mesh_is_complete() {
    let mut buf: VertexBuf<Vertex<Color>> = VertexBuf::new();
    push_rect(&mut buf, [3.0, 4.0, 2.0, 2.0], VIEW, WHITE);
    let mesh = buf.write(BLANK);
    assert_eq!(mesh.vertices.len(), 4);
    assert_eq!(mesh.index.len(), 6);
    assert!(mesh.vertices.iter().all(|v| v.color == WHITE));
}

fn write_empties() {
    let mut buf: VertexBuf<Vertex<Color>> = VertexBuf::new();
    push_rect(&mut buf, [0.0, 0.0, 1.0, 1.0], VIEW, WHITE);
    assert_eq!(buf.write(BLANK).vertices.len(), 4);
    buf.clear();
    let mesh = buf.write(BLANK);
    assert_eq!(mesh.vertices.len(), 3, "the square must be gone, replaced by the stand-in");
    assert_eq!(mesh.index.len(), 3);
}

fn rect_runs_down() {
    let mut buf: VertexBuf<Vertex<Color>> = VertexBuf::new();
    push_rect(&mut buf, [0.0, 0.0, 4.0, 2.0], VIEW, CLEAR);
    let v = buf.write(BLANK).vertices;
    let (top, bottom) = (value(v[0].at.y), value(v[3].at.y));
    assert_eq!(top, VIEW.h as f32 / 2.0, "the rect starts at the top of the view");
    assert!(bottom < top, "and extends downward");
    assert_eq!(top - bottom, 2.0, "by its height");
}

#[test]
fn sky_an_empty_buffer_still_writes_an_allocatable_mesh() {
    empty_buffer_is_allocatable();
}

#[test]
fn mesh_an_empty_buffer_still_writes_an_allocatable_mesh() {
    empty_buffer_is_allocatable();
}

#[test]
fn sky_a_buffer_with_triangles_writes_exactly_those_triangles() {
    triangles_are_not_disturbed();
}

#[test]
fn mesh_a_buffer_with_triangles_writes_exactly_those_triangles() {
    triangles_are_not_disturbed();
}

#[test]
fn sky_the_view_flip_is_the_only_thing_that_moves_a_point_between_the_two_spaces() {
    view_flips_once();
}

#[test]
fn mesh_the_view_flip_is_the_only_thing_that_moves_a_point_between_the_two_spaces() {
    view_flips_once();
}

#[test]
fn sky_a_rebuilt_mesh_carries_every_attribute_the_pass_needs() {
    rebuilt_mesh_is_complete();
}

#[test]
fn mesh_a_rebuilt_mesh_carries_every_attribute_the_pass_needs() {
    rebuilt_mesh_is_complete();
}

#[test]
fn sky_a_vertex_buffer_is_emptied_by_a_write_and_reused_by_the_next_frame() {
    write_empties();
}

#[test]
fn mesh_a_vertex_buffer_is_emptied_by_a_write_and_reused_by_the_next_frame() {
    write_empties();
}

#[test]
fn sky_a_filled_rect_is_placed_from_its_top_left_with_y_running_down() {
    rect_runs_down();
}

#[test]
fn mesh_a_filled_rect_is_placed_from_its_top_left_with_y_running_down() {
    rect_runs_down();
}

// -- The stars ----------------------------------------------------------------

fn value(n: Number) -> f32 {
    f32::from_bits(n.bits)
}

/// What a star is seeded with, read off the star of a still camera whose view is one by one.
fn seed(field: &StarField, i: usize) -> (f32, f32, f32) {
    let zero = num(0.0);
    let s = field.star(i, num(1.0), (zero, zero), ViewSize { w: 1, h: 1 }, num(1.0));
    (value(s.x), value(s.y), value(s.alpha) / (0.78 + 0.22))
}

fn star_seeds_are_spread() {
    let field = StarField::new();
    for i in 0..STAR_COUNT {
        let (x, y, alpha) = seed(&field, i);
        assert!((0.0..1.0).contains(&x));
        assert!((0.0..0.7).contains(&y));
        assert!((0.25..0.80).contains(&alpha));
    }
    for i in 0..STAR_COUNT {
        for j in i + 1..STAR_COUNT {
            let (a, b) = (seed(&field, i), seed(&field, j));
            assert!(
                (a.0 - b.0).abs() > 1.0e-6 || (a.1 - b.1).abs() > 1.0e-6,
                "stars {i} and {j} are stacked"
            );
        }
    }
}

fn hash_spreads() {
    let mut buckets = [0u32; 8];
    for i in 0..4096u32 {
        let v = value(hash(i));
        assert!((0.0..1.0).contains(&v), "hash({i}) = {v} escaped [0,1)");
        buckets[(v * 8.0) as usize] += 1;
    }
    for (b, n) in buckets.iter().enumerate() {
        assert!(*n > 340 && *n < 690, "bucket {b} held {n} of 4096");
    }
}

#[test]
fn sky_the_star_seeds_are_spread_and_not_on_a_lattice() {
    star_seeds_are_spread();
}

#[test]
fn model_the_star_seeds_are_spread_and_not_on_a_lattice() {
    star_seeds_are_spread();
}

#[test]
fn sky_the_hash_spreads_over_the_whole_unit_interval() {
    hash_spreads();
}

#[test]
fn model_the_hash_spreads_over_the_whole_unit_interval() {
    hash_spreads();
}

#[test]
fn the_hash_is_the_two_multiplies() {
    for i in [0u32, 1, 2, 1000, u32::MAX] {
        let h = i.wrapping_mul(374_761_393);
        let h = (h ^ (h >> 13)).wrapping_mul(1_274_126_177);
        assert_eq!(value(hash(i)), (h & 0x00ff_ffff) as f32 / 16_777_216.0);
    }
}

// -- The dither ---------------------------------------------------------------

fn matrix_is_ordered() {
    let mut seen = [false; BAYER_N * BAYER_N];
    for row in 0..BAYER_N as i32 {
        for col in 0..BAYER_N as i32 {
            // A sample is its threshold's own middle, in parts of 32.
            let at = block_sample(col, row) as usize;
            assert_eq!(at % 2, 1);
            let m = at / 2;
            assert!(m < seen.len(), "threshold {m} is outside 0..{}", seen.len());
            assert!(!seen[m], "threshold {m} appears twice");
            seen[m] = true;
        }
    }
    assert!(seen.iter().all(|&s| s), "the matrix has a hole in it");
}

fn samples_average_to_the_centre() {
    let mut total = 0.0;
    for by in 0..BAYER_N as i32 {
        for bx in 0..BAYER_N as i32 {
            let s = block_sample(bx, by) as f32 / 32.0;
            assert!(s > 0.0 && s < 1.0, "block ({bx},{by}) sampled at {s}");
            total += s;
        }
    }
    let mean = total / (BAYER_N * BAYER_N) as f32;
    assert!((mean - 0.5).abs() < 1.0e-6, "the dither is biased: mean {mean}");
}

fn dither_tiles() {
    let n = BAYER_N as i32;
    for by in -2 * n..2 * n {
        for bx in -2 * n..2 * n {
            assert_eq!(block_sample(bx, by), block_sample(bx + n, by + n));
        }
    }
}

#[test]
fn sky_the_dither_matrix_is_a_real_ordered_dither() {
    matrix_is_ordered();
}

#[test]
fn model_the_dither_matrix_is_a_real_ordered_dither() {
    matrix_is_ordered();
}

#[test]
fn sky_a_dithered_block_samples_inside_itself_and_averages_to_its_own_centre() {
    samples_average_to_the_centre();
}

#[test]
fn model_a_dithered_block_samples_inside_itself_and_averages_to_its_own_centre() {
    samples_average_to_the_centre();
}

#[test]
fn sky_the_dither_pattern_tiles_and_takes_negative_block_indices() {
    dither_tiles();
}

#[test]
fn model_the_dither_pattern_tiles_and_takes_negative_block_indices() {
    dither_tiles();
}

#[test]
fn the_dither_is_the_standard_matrix() {
    let bayer = [[0, 8, 2, 10], [12, 4, 14, 6], [3, 11, 1, 9], [15, 7, 13, 5]];
    for (by, row) in bayer.iter().enumerate() {
        for (bx, m) in row.iter().enumerate() {
            assert_eq!(block_sample(bx as i32, by as i32), 2 * m + 1);
            assert_eq!(block_sample(bx as i32 - 8, by as i32 - 4), 2 * m + 1);
        }
    }
}

#[test]
fn the_sky_and_the_world_share_a_pixel() {
    assert_eq!(SKY_PIXEL_PX, CELL_SIZE);
}

// -- The gradient -------------------------------------------------------------

#[test]
fn a_gradient_repeats_its_four_phases_along_a_row() {
    let t = |v: u8| -> Texel { [v, v + 1, v + 2, 255] };
    let phases = vec![[t(0), t(10), t(20), t(30)], [t(40), t(50), t(60), t(70)]];
    let bytes = paint_gradient(&phases, 6, 2);
    assert_eq!(bytes.len(), 6 * 2 * 4);
    let reds: Vec<u8> = bytes.chunks(4).map(|p| p[0]).collect();
    assert_eq!(reds, vec![0, 10, 20, 30, 0, 10, 40, 50, 60, 70, 40, 50]);
    assert_eq!(bytes[4..8], [10, 11, 12, 255]);
}

#[test]
fn a_grid_covers_the_view_with_less_than_a_block_to_spare() {
    for (w, h) in [(1, 1), (5, 6), (720, 451)] {
        let (cols, rows) = block_grid(ViewSize { w, h });
        assert!(cols as u32 * 5 >= w && (cols as u32 - 1) * 5 < w);
        assert!(rows as u32 * 5 >= h && (rows as u32 - 1) * 5 < h);
    }
    assert_eq!(block_grid(ViewSize { w: 0, h: 0 }), (1, 1));
}

// -- The passes ---------------------------------------------------------------

#[test]
fn the_passes_are_spawned_back_to_front_and_only_the_discs_add() {
    let passes = setup();
    let depths: Vec<i32> = passes.iter().map(|p| p.depth()).collect();
    assert_eq!(depths, vec![-100, -99, -98, -97]);
    assert_eq!(
        passes.iter().map(|p| p.is_additive()).collect::<Vec<bool>>(),
        vec![false, false, true, false]
    );
    assert_eq!(passes[2], SkyPass::Discs);
}

fn star(x: f32, y: f32) -> StarSpot<Color> {
    StarSpot { x: num(x), y: num(y), color: WHITE }
}

#[test]
fn a_faint_starfield_is_not_drawn_at_all() {
    let stars: Vec<StarSpot<Color>> =
        vec![star(3.2, 3.5), star(9.0, 8.6)];
    let mut buf = VertexBuf::new();
    place_stars(&mut buf, num(0.01), &stars, VIEW);
    assert_eq!(buf.len(), 0);
    place_stars(&mut buf, num(0.011), &stars, VIEW);
    assert_eq!(buf.len(), 8);
    let v = buf.write(BLANK).vertices;
    assert_eq!(at(v[0].at), (3.0 - 360.0, 225.0 - 4.0));
    assert_eq!(at(v[2].at), (4.0 - 360.0, 225.0 - 5.0), "one pixel each way");
}

#[test]
fn a_ridge_is_the_same_columns_wherever_the_view_stands() {
    let height = |j: i32| 200 + j * 7 % 11;
    let strip = |shift: f32| {
        let (first, last) = ridge_columns(num(shift), VIEW.w);
        (first, (first..last).map(height).collect::<Vec<i32>>())
    };
    let (near_first, near) = strip(0.0);
    let (far_first, far) = strip(440.0);
    for (k, top) in far.iter().enumerate() {
        let j = far_first + k as i32;
        let at = (j - near_first) as usize;
        if at < near.len() {
            assert_eq!(near[at], *top, "column {j} changed height");
        }
    }
    // A shift that is no whole number of blocks leaves no gap at either edge.
    assert_eq!(ridge_columns(num(-3.0), 10), (-1, 2));
    assert_eq!(ridge_columns(num(0.0), 10), (0, 2));
    assert_eq!(ridge_columns(num(7.0), 10), (1, 4));
}

#[test]
fn the_columns_of_a_view_are_counted_as_the_machine_does() {
    let block = SKY_PIXEL_PX as f32;
    let shifts = [0.0, -0.0, 12.0, -12.0, 4.9, 1.0e6, -1.0e6, 3.0e9, -3.0e9, 1.0e30, f32::INFINITY];
    for shift in shifts.iter().copied().chain([f32::NEG_INFINITY, f32::NAN, -1.0e30]) {
        for w in [0u32, 1, 720, 721, u32::MAX] {
            let first = (shift / block).floor() as i32;
            let last = ((shift + w as f32) / block).ceil() as i32;
            assert_eq!(ridge_columns(num(shift), w), (first, last), "{shift} {w}");
        }
    }
}

#[test]
fn a_column_below_the_view_is_left_out() {
    let view = ViewSize { w: 10, h: 100 };
    let tops = |t: &[f32]| t.iter().map(|t| num(*t)).collect::<Vec<Number>>();
    let mut buf: VertexBuf<Vertex<Color>> = VertexBuf::new();
    push_ridge(&mut buf, &tops(&[60.0, 100.0]), num(0.0), view, WHITE);
    assert_eq!(buf.len(), 4);
    let v = buf.write(BLANK).vertices;
    assert_eq!(at(v[0].at), (-5.0, 50.0 - 60.0));
    assert_eq!(value(v[3].at.y), -50.0, "it reaches the bottom of the view");

    let strips = vec![
        RidgeStrip { tops: tops(&[60.0, 70.0]), shift: num(0.0), color: WHITE },
        RidgeStrip { tops: tops(&[80.0, 90.0, 95.0]), shift: num(3.0), color: CLEAR },
    ];
    let mut both = VertexBuf::new();
    build_ridges(&mut both, &strips, view);
    let v = both.write(BLANK).vertices;
    assert_eq!(v.len(), 5 * 4);
    assert_eq!(v[8].color, CLEAR, "the near ridge is drawn over the far one");
    assert_eq!(value(v[8].at.x), -3.0 - 5.0);
    assert_eq!(v[9].at.x, v[12].at.x, "a column starts where the one before it ends");
}

#[test]
fn a_disc_is_symmetric_about_its_centre() {
    let disc = |alpha: f32| BlockDisc {
        alpha: num(alpha),
        colours: vec![Some(WHITE); 16],
        n: 2,
        centre: Point { x: num(99.7), y: num(50.3) },
    };
    let mut buf = VertexBuf::new();
    place_discs(&mut buf, &vec![disc(0.5), disc(0.01)], VIEW);
    let v = buf.write(BLANK).vertices;
    assert_eq!(v.len(), 16 * 4, "a disc at the cutoff is not drawn");
    let (cx, cy) = (100.0 - VIEW.w as f32 / 2.0, VIEW.h as f32 / 2.0 - 50.0);
    let across: Vec<f32> = v.iter().map(|p| value(p.at.x) - cx).collect();
    let up: Vec<f32> = v.iter().map(|p| value(p.at.y) - cy).collect();
    for side in [across, up] {
        assert_eq!(side.iter().copied().fold(f32::MAX, f32::min), -10.0);
        assert_eq!(side.iter().copied().fold(f32::MIN, f32::max), 10.0);
        assert!(side.iter().all(|d| d % SKY_PIXEL_PX as f32 == 0.0), "on the block grid");
    }

    let mut hole = disc(1.0);
    hole.colours[0] = None;
    let mut fewer = VertexBuf::new();
    place_discs(&mut fewer, &vec![hole], VIEW);
    assert_eq!(fewer.len(), 15 * 4);
}
