//! What of a creature reaches the screen: its sprite, its glow, and the ground a buried one is
//! about to break.

use vstd::arithmetic::power2::*;
use vstd::prelude::*;

use crate::arith::{
    law_a_part_is_no_larger, law_products_commute, lemma_one, lemma_product_is_number,
    lemma_size_is_exact, lemma_sum_between, lemma_sum_goes_up, one,
};
use crate::mobs::art::{MobArt, MobPose, art_corner, art_origin};
use crate::mobs::light::{counted, pulse, pulsing, tell_over};
use crate::number::{
    INFINITY, Number, law_rank_orders_values, lemma_steps_increase, lemma_steps_nonnegative, num,
};
use crate::order::law_sums_keep_order;
use crate::rounding::{lemma_rounded_scales, pixel, rounded, spacing};
use crate::shear::{Point, is_quads};
use crate::sky::colour::clamped01;
use crate::sky::mesh::{Vertex, VertexBuf};
use crate::sprite::baked::{BakedSprite, StripRect, strip_rect};
use crate::sprite::content::{world_middle, world_translation};
use crate::sprite::frames::SpriteClock;
use crate::sprite::ids::StateId;
use crate::whole::{
    is_whole, law_nearest_is_the_pixel, law_small_whole_numbers_are_exact,
    law_whole_differences_are_exact, law_whole_sums_are_exact, lemma_cut_short_is_whole, lemma_five,
    lemma_negated,
};

verus! {

/// What the drawing passes read of a creature.
#[derive(Clone, Copy, Debug, PartialEq, Eq, Structural)]
pub struct MobLook {
    pub active: bool,
    /// Inside rock: not hittable, and not drawn.
    pub buried: bool,
    pub pose: MobPose,
    pub variant: i32,
    /// Below zero is to the left.
    pub facing: Number,
    /// The body's top-left.
    pub body_x: Number,
    pub body_y: Number,
    /// How far the art overhangs the body on each side, and above it.
    pub pad_x: Number,
    pub pad_top: Number,
    pub art_w: Number,
    pub art_h: Number,
    /// How luminous the species is.
    pub glow: Number,
}

impl MobLook {
    /// Whether there is anything of it to see.
    pub open spec fn visible(&self) -> bool {
        self.active && !self.buried
    }

    /// Whether it is mirrored.
    pub open spec fn faces_left(&self) -> bool {
        self.facing.lt(num(0))
    }

    /// The middle of its art, with y running up.
    pub open spec fn middle(&self) -> Point {
        let (left, top) = art_corner(self.body_x, self.body_y, self.pad_x, self.pad_top);
        world_middle(left, top, self.art_w, self.art_h)
    }
}

/// A creature's sprite on the screen.
#[derive(Clone, Copy, Debug, PartialEq, Eq, Structural)]
pub struct Placed {
    /// The tile of the strip.
    pub tile: usize,
    /// Mirrored about its own vertical axis.
    pub flip_x: bool,
    pub middle: Point,
    pub w: Number,
    pub h: Number,
}

/// The tile a creature shows: its pose picks the sequence, its clock the frame, its variant the
/// tint. A variant below zero is the first.
pub open spec fn tile_of(m: MobLook, baked: BakedSprite, state: StateId, clock: SpriteClock) -> nat {
    let s = state.seq() as int;
    baked.tile_at(
        (if m.variant < 0 {
            0
        } else {
            m.variant as int
        }) % (baked.variants as int),
        s,
        baked.frame_shown(s, clock),
    )
}

/// `p` is where and how a creature is drawn.
pub open spec fn is_placed(
    p: Placed,
    m: MobLook,
    baked: BakedSprite,
    state: StateId,
    clock: SpriteClock,
) -> bool {
    &&& p.tile == tile_of(m, baked, state, clock)
    &&& p.flip_x == m.faces_left()
    &&& p.middle == m.middle()
    &&& p.w == m.art_w
    &&& p.h == m.art_h
}

/// Put a creature's sprite on its art rect, or hide it.
///
/// A buried creature is hidden and not drawn dark: drawing something the player cannot touch is
/// the more misleading of the two.
pub fn place_mob<I, L>(m: &MobLook, art: Option<&MobArt<I, L>>, clock: &SpriteClock) -> (out:
    Option<Placed>)
    requires
        art matches Some(a) ==> a.wf(),
    ensures
        match out {
            Some(p) => m.visible() && (art matches Some(a) && is_placed(
                p,
                *m,
                a.atlas.baked,
                a.states.of(m.pose),
                *clock,
            ) && p.tile < a.atlas.baked.bake_count),
            None => !m.visible() || art is None,
        },
{
    if !m.active || m.buried {
        return None;
    }
    match art {
        None => None,
        Some(art) => {
            let state: StateId = art.state(m.pose);
            let variant: usize = if m.variant < 0 {
                0
            } else {
                m.variant as usize
            };
            let tile: usize = art.atlas.baked.tile(state, variant, clock);
            let (left, top): (Number, Number) = art_origin(
                m.body_x,
                m.body_y,
                m.pad_x,
                m.pad_top,
            );
            Some(
                Placed {
                    tile,
                    flip_x: m.facing.less(num(0)),
                    middle: world_translation(left, top, m.art_w, m.art_h),
                    w: m.art_w,
                    h: m.art_h,
                },
            )
        },
    }
}

/// A luminous creature's second, additive pass.
#[derive(Clone, Copy, Debug, PartialEq, Eq, Structural)]
pub struct PlacedGlow {
    pub placed: Placed,
    /// The tile's part of the strip.
    pub uv: StripRect,
    /// How strongly it is added.
    pub alpha: Number,
}

/// How strongly a luminous creature is added, from the sine of its pulse.
pub open spec fn glow_alpha(glow: Number, sine: Number) -> Number {
    glow.product(pulsing(sine))
}

/// Add a luminous creature back over the darkness: the same tile, the same rect and the same flip
/// as its sprite, or hide it. `sine` is that of its pulse.
pub fn place_mob_glow<I, L>(
    m: &MobLook,
    art: Option<&MobArt<I, L>>,
    clock: &SpriteClock,
    sine: Number,
) -> (out: Option<PlacedGlow>)
    requires
        art matches Some(a) ==> a.wf(),
    ensures
        match out {
            Some(g) => {
                &&& m.visible()
                &&& num(0).lt(m.glow)
                &&& g.alpha == glow_alpha(m.glow, sine)
                &&& g.alpha == m.glow.product(pulsing(sine))
                &&& art matches Some(a) && is_placed(
                    g.placed,
                    *m,
                    a.atlas.baked,
                    a.states.of(m.pose),
                    *clock,
                ) && g.uv == strip_rect(
                    g.placed.tile as nat,
                    a.atlas.baked.bake_count as nat,
                    m.faces_left(),
                )
            },
            None => !m.visible() || !num(0).lt(m.glow) || art is None,
        },
{
    if !num(0).less(m.glow) {
        return None;
    }
    match (art, place_mob(m, art, clock)) {
        (Some(art), Some(placed)) => {
            let uv: StripRect = art.atlas.baked.tile_uv(placed.tile, placed.flip_x);
            Some(PlacedGlow { placed, uv, alpha: m.glow.times(pulse(sine)) })
        },
        _ => None,
    }
}

/// The glow lies exactly on the sprite: two ways of drawing a creature show the same tile in the
/// same place, mirrored alike.
pub proof fn law_glow_lies_on_the_sprite(
    a: Placed,
    b: Placed,
    m: MobLook,
    baked: BakedSprite,
    state: StateId,
    clock: SpriteClock,
)
    requires
        is_placed(a, m, baked, state, clock),
        is_placed(b, m, baked, state, clock),
    ensures
        a == b,
{
}

/// The edge of a cell, in pixels.
#[verifier::allow_in_spec]
pub fn cell_px() -> Number
    returns
        (Number { bits: 0x40a0_0000 }),
{
    Number { bits: 0x40a0_0000 }
}

/// How far a cell of a row is from its left edge: a step of a cell at a time.
pub open spec fn across(c: nat) -> Number
    decreases c,
{
    if c == 0 {
        num(0)
    } else {
        across((c - 1) as nat).sum(cell_px())
    }
}

/// How far a cell of a row is from its left edge. See [`across`].
pub fn cell_across(c: usize) -> (x: Number)
    ensures
        x == across(c as nat),
{
    let mut x: Number = num(0);
    let mut i: usize = 0;
    while i < c
        invariant
            i <= c,
            x == across(i as nat),
        decreases c - i,
    {
        x = x.plus(cell_px());
        i = i + 1;
    }
    x
}

/// As long as whole numbers are exact, each step is one.
pub proof fn lemma_across(c: nat)
    requires
        5 * c < 0x100_0000,
    ensures
        is_whole(across(c), 5 * c as int),
    decreases c,
{
    if c > 0 {
        lemma_across((c - 1) as nat);
        lemma_five();
        law_whole_sums_are_exact(across((c - 1) as nat), cell_px(), 5 * (c - 1), 5);
    } else {
        law_small_whole_numbers_are_exact(0);
    }
}

/// A row over a body of this width has `n` cells: each starts within the body, and one more would
/// not.
pub open spec fn is_row(w_px: Number, n: nat) -> bool {
    &&& forall|c: nat| c < n ==> (#[trigger] across(c)).lt(w_px)
    &&& !across(n).lt(w_px)
}

/// The furthest that steps of a cell get: 2 to the 27th, from which one more is rounded back.
pub const FURTHEST: u32 = 0x4d00_0000;

proof fn lemma_furthest(c: nat)
    ensures
        across(c).is_finite(),
        across(c).le(num(FURTHEST)),
        !across(c).negative(),
    decreases c,
{
    if c > 0 {
        let (x, most) = (across((c - 1) as nat), num(FURTHEST));
        lemma_furthest((c - 1) as nat);
        lemma_step_on(x);
        law_sums_keep_order(x, most, cell_px());
        assert(most.sum(cell_px()) == most) by {
            reveal(Number::sum);
            lemma2_to64();
            lemma_pow2_adds(4, 149);
            lemma_pow2_adds(21, 128);
            lemma_pow2_pos(149);
            assert(most.size() == 0x80_0000 * pow2(153));
            assert(cell_px().size() == 0xa0_0000 * pow2(128));
            assert(0x80_0000 * pow2(153) == 0x800_0000 * pow2(149));
            let p = 0x800_0005nat;
            assert(most.size() + cell_px().size() == p * pow2(149));
            lemma_rounded_scales(p, 149);
            assert(spacing(0x80_0000) == 1);
            assert(spacing(0x100_0000) == 2);
            assert(spacing(0x200_0001) == 4);
            assert(spacing(0x400_0002) == 8);
            assert(spacing(p) == 16);
            assert(p / 16 == 0x80_0000 && p % 16 == 5);
            assert(rounded(p) == 0x800_0000);
            lemma_size_is_exact(most);
        }
    }
}

/// Where a step gets nowhere, no later one does.
proof fn lemma_stuck(n: nat, m: nat)
    requires
        n <= m,
        across(n + 1) == across(n),
    ensures
        across(m) == across(n),
    decreases m,
{
    if n < m {
        lemma_stuck(n, (m - 1) as nat);
    }
}

/// How many cells a row over a body of this width has. See [`is_row`]. `None` is a body so wide
/// that stepping across it by cells never gets to its end.
pub fn tell_cells(w_px: Number) -> (cells: Option<usize>)
    ensures
        match cells {
            Some(n) => is_row(w_px, n as nat),
            None => forall|n: nat| !is_row(w_px, n),
        },
{
    if num(FURTHEST).less(w_px) {
        proof {
            assert forall|n: nat| !is_row(w_px, n) by {
                lemma_furthest(n);
            }
        }
        return None;
    }
    let mut n: usize = 0;
    let mut x: Number = num(0);
    while x.less(w_px)
        invariant
            x == across(n as nat),
            x.is_number(),
            n <= x.rank() <= INFINITY,
            forall|c: nat| c < n ==> (#[trigger] across(c)).lt(w_px),
        decreases INFINITY - x.rank(),
    {
        let next: Number = x.plus(cell_px());
        assert(next == across(n as nat + 1));
        if !x.less(next) {
            proof {
                lemma_step_on(x);
                assert(across(n as nat + 1) == across(n as nat));
                assert forall|m: nat| !is_row(w_px, m) by {
                    if n <= m {
                        lemma_stuck(n as nat, m);
                    } else {
                        assert(across(m).lt(w_px));
                    }
                }
            }
            return None;
        }
        x = next;
        n = n + 1;
    }
    Some(n)
}

/// A step from what is not below zero does not go back.
proof fn lemma_step_on(x: Number)
    requires
        x.is_number(),
        !x.negative(),
    ensures
        x.le(x.sum(cell_px())),
        !x.sum(cell_px()).negative(),
{
    if x.is_finite() {
        lemma_sum_goes_up(x, cell_px());
    }
    reveal(Number::sum);
}

/// A burrower as its tell reads it.
#[derive(Clone, Debug, PartialEq, Eq)]
pub struct Burrower<C> {
    pub active: bool,
    pub buried: bool,
    /// Seconds until it surfaces.
    pub tell_t: Number,
    /// How many there are when its tell starts.
    pub tell_time: Number,
    /// The body's top-left.
    pub body_x: Number,
    pub body_y: Number,
    /// The width of its body, which is the ground it will break. Not of its art.
    pub w_px: Number,
    /// Which cells of the row are raised.
    pub raised: Vec<bool>,
    pub color: C,
}

impl<C: Copy> Burrower<C> {
    /// Only a buried creature tells. One that has broken the surface is drawn as itself.
    pub open spec fn tells(&self) -> bool {
        self.active && self.buried && !self.tell_t.le_zero()
    }

    /// It says of each cell of its row whether it is raised.
    pub open spec fn wf(&self) -> bool {
        is_row(self.w_px, self.raised@.len())
    }

    /// How far a raised cell is lifted: from nothing to a whole cell as the countdown empties, on
    /// whole pixels.
    pub open spec fn lift(&self) -> Number {
        counted(self.tell_t, self.tell_time).product(cell_px()).cut_short()
    }

    /// The top of a cell of its row: one cell above the body, and the lift above that where the
    /// cell is raised. It is raised by all of the lift or by none of it.
    pub open spec fn cell_top(&self, c: int) -> Number {
        self.body_y.nearest_whole().difference(cell_px()).difference(
            if self.raised@[c] {
                self.lift()
            } else {
                num(0)
            },
        )
    }

    /// One cell of the row, top-left first and then clockwise, with y running up.
    pub open spec fn cell_quad(&self, c: int) -> Seq<Vertex<C>> {
        let left = self.body_x.nearest_whole().sum(across(c as nat));
        let right = left.sum(cell_px());
        let (up, down) = (self.cell_top(c).negated(), self.cell_top(c).sum(cell_px()).negated());
        seq![
            Vertex { at: Point { x: left, y: up }, color: self.color },
            Vertex { at: Point { x: right, y: up }, color: self.color },
            Vertex { at: Point { x: right, y: down }, color: self.color },
            Vertex { at: Point { x: left, y: down }, color: self.color },
        ]
    }

    /// The first `n` cells of the row.
    pub open spec fn row(&self, n: nat) -> Seq<Vertex<C>>
        decreases n,
    {
        if n == 0 {
            Seq::empty()
        } else {
            self.row((n - 1) as nat) + self.cell_quad(n - 1)
        }
    }
}

proof fn lemma_row_len<C: Copy>(b: Burrower<C>, n: nat)
    ensures
        b.row(n).len() == 4 * n,
    decreases n,
{
    if n > 0 {
        lemma_row_len(b, (n - 1) as nat);
    }
}

/// A raised cell is lifted by a whole number of pixels, and by at most a cell.
pub proof fn lemma_lift<C: Copy>(b: Burrower<C>) -> (up: int)
    requires
        b.tell_t.quotient(b.tell_time).is_number(),
    ensures
        0 <= up <= 5,
        is_whole(b.lift(), up),
{
    let left = clamped01(b.tell_t.quotient(b.tell_time));
    let over = counted(b.tell_t, b.tell_time);
    let (none, all) = (num(0), one());
    lemma_one();
    law_rank_orders_values(all, left);
    lemma_steps_nonnegative(left.magnitude());
    lemma_sum_between(none, all, all, left.negated());
    assert(!over.negative()) by {
        reveal(Number::sum);
    }
    law_products_commute(over, cell_px());
    law_a_part_is_no_larger(cell_px(), over);
    lemma_product_is_number(cell_px(), over);
    lemma_five();
    let up = cell_px().product(over);
    if up.magnitude() < cell_px().magnitude() {
        lemma_steps_increase(up.magnitude(), cell_px().magnitude());
    }
    lemma_cut_short_is_whole(up, 5)
}

/// A tell's row covers the body: it starts at the body's left edge, each cell starts where the one
/// before it ends, and the last one ends at the body's right edge or less than a cell past it.
/// Every cell is a cell wide and high, ends no lower than the body's top and reaches no more than
/// two cells above it, on whole pixels.
pub proof fn law_tell_covers_the_body<C: Copy>(b: Burrower<C>, c: int) -> (up: int)
    requires
        b.wf(),
        0 <= c < b.raised@.len(),
        b.tell_t.quotient(b.tell_time).is_number(),
        b.body_x.magnitude() < 0x4b00_0000,
        b.body_y.magnitude() < 0x4b00_0000,
        5 * b.raised@.len() < 0x100_0000,
        pixel(b.body_x) + 5 * b.raised@.len() < 0x100_0000,
    ensures
        across(c as nat).lt(b.w_px),
        !across(b.raised@.len()).lt(b.w_px),
        0 <= up <= 5,
        is_whole(b.cell_quad(c)[0].at.x, pixel(b.body_x) + 5 * c),
        is_whole(b.cell_quad(c)[1].at.x, pixel(b.body_x) + 5 * (c + 1)),
        is_whole(b.cell_quad(c)[0].at.y, -(pixel(b.body_y) - 5 - up)),
        is_whole(b.cell_quad(c)[3].at.y, -(pixel(b.body_y) - up)),
{
    let (x, y) = (pixel(b.body_x), pixel(b.body_y));
    law_nearest_is_the_pixel(b.body_x);
    law_nearest_is_the_pixel(b.body_y);
    lemma_five();
    lemma_across(c as nat);
    law_whole_sums_are_exact(b.body_x.nearest_whole(), across(c as nat), x, 5 * c);
    let left = b.body_x.nearest_whole().sum(across(c as nat));
    law_whole_sums_are_exact(left, cell_px(), x + 5 * c, 5);
    let (up, lift) = if b.raised@[c] {
        (lemma_lift(b), b.lift())
    } else {
        (0int, num(0))
    };
    let top = b.body_y.nearest_whole().difference(cell_px());
    law_whole_differences_are_exact(b.body_y.nearest_whole(), cell_px(), y, 5);
    law_whole_differences_are_exact(top, lift, y - 5, up);
    lemma_negated(b.cell_top(c), y - 5 - up);
    law_whole_sums_are_exact(b.cell_top(c), cell_px(), y - 5 - up, 5);
    lemma_negated(b.cell_top(c).sum(cell_px()), y - up);
    up
}

/// One creature's tell, as a row of cell-sized quads.
pub fn push_breach_tell<C: Copy>(buf: &mut VertexBuf<Vertex<C>>, b: &Burrower<C>)
    requires
        old(buf).wf(),
        is_quads(*old(buf)),
        b.wf(),
        old(buf).points().len() + 4 * b.raised@.len() <= u32::MAX,
    ensures
        final(buf).wf(),
        is_quads(*final(buf)),
        final(buf).points() == old(buf).points() + b.row(b.raised@.len()),
{
    let lift: Number = tell_over(b.tell_t, b.tell_time).times(cell_px()).trunc();
    let (start, top): (Number, Number) = (b.body_x.round(), b.body_y.round().minus(cell_px()));
    let mut at: Number = num(0);
    let mut c: usize = 0;
    assert(old(buf).points() =~= old(buf).points() + b.row(0));
    while c < b.raised.len()
        invariant
            c <= b.raised@.len(),
            at == across(c as nat),
            lift == b.lift(),
            start == b.body_x.nearest_whole(),
            top == b.body_y.nearest_whole().difference(cell_px()),
            buf.wf(),
            is_quads(*buf),
            old(buf).points().len() + 4 * b.raised@.len() <= u32::MAX,
            buf.points() == old(buf).points() + b.row(c as nat),
        decreases b.raised@.len() - c,
    {
        proof {
            lemma_row_len(*b, c as nat);
        }
        let left: Number = start.plus(at);
        let right: Number = left.plus(cell_px());
        let y: Number = top.minus(
            if b.raised[c] {
                lift
            } else {
                num(0)
            },
        );
        let (up, down): (Number, Number) = (y.minus_self(), y.plus(cell_px()).minus_self());
        let corners: [Vertex<C>; 4] = [
            Vertex { at: Point { x: left, y: up }, color: b.color },
            Vertex { at: Point { x: right, y: up }, color: b.color },
            Vertex { at: Point { x: right, y: down }, color: b.color },
            Vertex { at: Point { x: left, y: down }, color: b.color },
        ];
        let ghost before = buf.points();
        buf.quad(corners);
        proof {
            assert(corners@ =~= b.cell_quad(c as int));
            assert(before.len() % 4 == 0);
            assert(buf.points() =~= old(buf).points() + b.row(c as nat + 1));
        }
        at = at.plus(cell_px());
        c = c + 1;
    }
}

/// The tells of the first `n` creatures: the row of each one that tells, in order.
pub open spec fn tells<C: Copy>(mobs: Seq<Burrower<C>>, n: nat) -> Seq<Vertex<C>>
    decreases n,
{
    if n == 0 {
        Seq::empty()
    } else {
        tells(mobs, (n - 1) as nat) + if mobs[n - 1].tells() {
            mobs[n - 1].row(mobs[n - 1].raised@.len())
        } else {
            Seq::empty()
        }
    }
}

proof fn lemma_tells_grow<C: Copy>(mobs: Seq<Burrower<C>>, n: nat, m: nat)
    requires
        n <= m <= mobs.len(),
    ensures
        tells(mobs, n).len() <= tells(mobs, m).len(),
    decreases m,
{
    if n < m {
        lemma_tells_grow(mobs, n, (m - 1) as nat);
    }
}

/// Draw the tell of every burrower about to surface, and nothing else.
pub fn place_breach_tells<C: Copy>(buf: &mut VertexBuf<Vertex<C>>, mobs: &Vec<Burrower<C>>)
    requires
        forall|i: int| 0 <= i < mobs@.len() ==> (#[trigger] mobs@[i]).wf(),
        tells(mobs@, mobs@.len()).len() <= u32::MAX,
    ensures
        final(buf).wf(),
        is_quads(*final(buf)),
        final(buf).points() == tells(mobs@, mobs@.len()),
{
    buf.clear();
    let mut i: usize = 0;
    while i < mobs.len()
        invariant
            i <= mobs@.len(),
            forall|j: int| 0 <= j < mobs@.len() ==> (#[trigger] mobs@[j]).wf(),
            tells(mobs@, mobs@.len()).len() <= u32::MAX,
            buf.wf(),
            is_quads(*buf),
            buf.points() == tells(mobs@, i as nat),
        decreases mobs@.len() - i,
    {
        let b: &Burrower<C> = &mobs[i];
        proof {
            lemma_tells_grow(mobs@, i as nat + 1, mobs@.len());
            lemma_row_len(*b, b.raised@.len());
            assert(tells(mobs@, i as nat) =~= tells(mobs@, i as nat) + Seq::<Vertex<C>>::empty());
        }
        if b.active && b.buried && !b.tell_t.is_at_most_zero() {
            push_breach_tell(buf, b);
        }
        i = i + 1;
    }
}

/// A shot as the additive pass reads it: how luminous it is, where it is, its half-extent, and the
/// colour it adds.
#[derive(Clone, Copy, Debug, PartialEq, Eq)]
pub struct GlowingShot<C> {
    pub glow: Number,
    pub x: Number,
    pub y: Number,
    pub r_px: Number,
    pub color: C,
}

/// The corners of a glowing shot's square, top-left first and then clockwise, with y running up. It
/// is a pixel larger than the shot all round; the middle is what lands on a whole pixel, and the
/// square grows either side of it.
pub open spec fn glow_square(x: Number, y: Number, r_px: Number) -> Seq<Point> {
    let r = r_px.sum(num(0x3f80_0000));
    let (left, top) = (x.nearest_whole().difference(r), y.nearest_whole().difference(r));
    let side = r.product(num(0x4000_0000));
    let (right, bottom) = (left.sum(side), top.sum(side));
    seq![
        Point { x: left, y: top.negated() },
        Point { x: right, y: top.negated() },
        Point { x: right, y: bottom.negated() },
        Point { x: left, y: bottom.negated() },
    ]
}

fn square<C: Copy>(shot: &GlowingShot<C>) -> (corners: [Vertex<C>; 4])
    ensures
        corners@ == glow_quad(*shot),
{
    let r: Number = shot.r_px.plus(num(0x3f80_0000));
    let (left, top): (Number, Number) = (shot.x.round().minus(r), shot.y.round().minus(r));
    let side: Number = r.times(num(0x4000_0000));
    let (right, bottom): (Number, Number) = (left.plus(side), top.plus(side));
    let (up, down): (Number, Number) = (top.minus_self(), bottom.minus_self());
    let corners: [Vertex<C>; 4] = [
        Vertex { at: Point { x: left, y: up }, color: shot.color },
        Vertex { at: Point { x: right, y: up }, color: shot.color },
        Vertex { at: Point { x: right, y: down }, color: shot.color },
        Vertex { at: Point { x: left, y: down }, color: shot.color },
    ];
    assert(corners@ =~= glow_quad(*shot));
    corners
}

/// A glowing shot's square in its colour.
pub open spec fn glow_quad<C>(shot: GlowingShot<C>) -> Seq<Vertex<C>> {
    Seq::new(
        4,
        |i: int|
            Vertex {
                at: glow_square(shot.x, shot.y, shot.r_px)[i],
                color: shot.color,
            },
    )
}

/// How strongly a luminous shot is added: its own glow, and never more than one.
#[verifier::allow_in_spec]
pub fn shot_alpha(glow: Number) -> Number
    returns
        (if glow.lt(Number { bits: 0x3f80_0000 }) {
            glow
        } else {
            Number { bits: 0x3f80_0000 }
        }),
{
    if glow.less(Number { bits: 0x3f80_0000 }) {
        glow
    } else {
        Number { bits: 0x3f80_0000 }
    }
}

/// What one shot adds to the pass: nothing, if it does not glow.
pub open spec fn lit<C>(shot: GlowingShot<C>) -> Seq<Vertex<C>> {
    if shot.glow.le_zero() {
        Seq::empty()
    } else {
        glow_quad(shot)
    }
}

/// One glowing shot's square. Nothing is pushed for a shot that does not glow.
pub fn push_shot_glow<C: Copy>(buf: &mut VertexBuf<Vertex<C>>, shot: &GlowingShot<C>)
    requires
        old(buf).wf(),
        is_quads(*old(buf)),
        old(buf).points().len() + 4 <= u32::MAX,
    ensures
        final(buf).wf(),
        is_quads(*final(buf)),
        final(buf).points() == old(buf).points() + lit(*shot),
{
    if shot.glow.is_at_most_zero() {
        assert(old(buf).points() =~= old(buf).points() + lit(*shot));
        return;
    }
    buf.quad(square(shot));
    assert(buf.points().len() / 4 == old(buf).points().len() / 4 + 1);
}

/// What the first `n` creatures' shots add: those that are live, in order.
pub open spec fn lit_live<C>(shots: Seq<Option<GlowingShot<C>>>, n: nat) -> Seq<Vertex<C>>
    decreases n,
{
    if n == 0 {
        Seq::empty()
    } else {
        lit_live(shots, (n - 1) as nat) + match shots[n - 1] {
            Some(shot) => lit(shot),
            None => Seq::empty(),
        }
    }
}

/// What the first `n` arrows add, in order.
pub open spec fn lit_arrows<C>(shots: Seq<GlowingShot<C>>, n: nat) -> Seq<Vertex<C>>
    decreases n,
{
    if n == 0 {
        Seq::empty()
    } else {
        lit_arrows(shots, (n - 1) as nat) + lit(shots[n - 1])
    }
}

proof fn lemma_lit_live_len<C>(shots: Seq<Option<GlowingShot<C>>>, n: nat)
    ensures
        lit_live(shots, n).len() <= 4 * n,
    decreases n,
{
    if n > 0 {
        lemma_lit_live_len(shots, (n - 1) as nat);
    }
}

proof fn lemma_lit_arrows_len<C>(shots: Seq<GlowingShot<C>>, n: nat)
    ensures
        lit_arrows(shots, n).len() <= 4 * n,
    decreases n,
{
    if n > 0 {
        lemma_lit_arrows_len(shots, (n - 1) as nat);
    }
}

/// Rebuild the one mesh every glowing shot in the frame is drawn into: the creatures' live shots
/// first and the player's arrows after them.
pub fn place_shot_glow<C: Copy>(
    buf: &mut VertexBuf<Vertex<C>>,
    creature: &Vec<Option<GlowingShot<C>>>,
    arrows: &Vec<GlowingShot<C>>,
)
    requires
        4 * (creature@.len() + arrows@.len()) <= u32::MAX,
    ensures
        final(buf).wf(),
        is_quads(*final(buf)),
        final(buf).points() == lit_live(creature@, creature@.len()) + lit_arrows(
            arrows@,
            arrows@.len(),
        ),
{
    buf.clear();
    let mut i: usize = 0;
    while i < creature.len()
        invariant
            i <= creature@.len(),
            4 * (creature@.len() + arrows@.len()) <= u32::MAX,
            buf.wf(),
            is_quads(*buf),
            buf.points() == lit_live(creature@, i as nat),
        decreases creature@.len() - i,
    {
        proof {
            lemma_lit_live_len(creature@, i as nat);
        }
        match &creature[i] {
            Some(shot) => {
                push_shot_glow(buf, shot);
            },
            None => {
                assert(buf.points() =~= buf.points() + Seq::<Vertex<C>>::empty());
            },
        }
        i = i + 1;
    }
    let ghost first = buf.points();
    let mut k: usize = 0;
    proof {
        lemma_lit_live_len(creature@, creature@.len());
    }
    assert(first =~= first + lit_arrows(arrows@, 0));
    while k < arrows.len()
        invariant
            k <= arrows@.len(),
            4 * (creature@.len() + arrows@.len()) <= u32::MAX,
            first.len() <= 4 * creature@.len(),
            buf.wf(),
            is_quads(*buf),
            buf.points() == first + lit_arrows(arrows@, k as nat),
        decreases arrows@.len() - k,
    {
        proof {
            lemma_lit_arrows_len(arrows@, k as nat);
        }
        push_shot_glow(buf, &arrows[k]);
        assert(buf.points() =~= first + lit_arrows(arrows@, k as nat + 1));
        k = k + 1;
    }
}

} // verus!
