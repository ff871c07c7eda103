//! How the backdrop fades: the twilight band only grows downward, and a disc only dims outward.

use vstd::arithmetic::power2::*;
use vstd::prelude::*;

use crate::arith::{
    bits_of, law_a_part_is_no_larger, law_itself_goes_in_once, law_less_itself_is_zero,
    law_products_commute, law_times_one_is_itself, law_times_zero_is_zero, lemma_bits_increase,
    lemma_exact_steps, lemma_product_is_number, lemma_size_is_exact, lemma_steps_are_sizes,
    lemma_sum_between, lemma_sum_goes_up, lemma_zero_over, number_of, one, ratio,
};
use crate::number::{INFINITY, Number, law_rank_orders_values, num};
use crate::order::{
    law_products_keep_order, law_quotients_keep_order, law_sums_keep_order, lemma_less,
    lemma_more_than_nothing, lemma_nothing_more, lemma_ratio_is_exact, lemma_ratio_is_near,
    lemma_rounded_is_near, lemma_sum_steps, lemma_sums_commute, lemma_values_in_order,
};
use crate::rounding::lemma_scaled_is_exact;
use crate::sky::colour::{
    Disc, HorizonGlow, Stop, Tone, along, band, law_no_glow_above_the_band, mixed, ramp_at,
    ramp_from, ring, stop_tone,
};

verus! {

/// How much of a colour shows, if any of it does.
pub open spec fn shows(colour: Option<(Tone, Number)>) -> Number {
    match colour {
        Some((_, alpha)) => alpha,
        None => num(0),
    }
}

/// Whether rings go outward, and show no more the further out they are.
pub open spec fn is_fading(rings: Seq<Stop>) -> bool {
    &&& forall|i: int|
        0 <= i < rings.len() ==> (#[trigger] rings[i]).at.is_finite() && num(0).le(rings[i].at)
            && rings[i].part.is_finite() && num(0).le(rings[i].part)
    &&& forall|i: int, j: int|
        0 <= i < j < rings.len() ==> (#[trigger] rings[i]).at.le((#[trigger] rings[j]).at)
            && rings[j].part.le(rings[i].part)
}

/// Whether the way from each ring to the next gets as far as the next, for all that rounding does.
pub open spec fn arrives(rings: Seq<Stop>) -> bool {
    forall|i: int|
        0 < i < rings.len() ==> (#[trigger] rings[i]).part.le(
            mixed(rings[i - 1].part, rings[i].part, one()),
        )
}

/// A number times the other way round is the product the other way round.
proof fn lemma_negated_product(a: Number, b: Number)
    requires
        a.is_finite(),
        b.is_finite(),
    ensures
        a.negated().product(b).rank() == -a.product(b).rank(),
        a.negated().product(b).is_number(),
        a.product(b).is_number(),
{
    reveal(Number::product);
    assert(a.negated().magnitude() == a.magnitude());
}

/// Going up from one number to another gets further the more of the way it goes.
pub proof fn lemma_up(a: Number, b: Number, s: Number, t: Number)
    requires
        a.is_finite(),
        b.is_finite(),
        num(0).le(a),
        a.le(b),
        num(0).le(s),
        s.le(t),
        t.le(one()),
    ensures
        mixed(a, b, s).le(mixed(a, b, t)),
        a.le(mixed(a, b, s)),
        a.is_zero_spec() ==> mixed(a, b, t).le(b),
{
    let way = b.difference(a);
    lemma_less(b, a);
    let (p, q) = (way.product(s), way.product(t));
    if s.negative() {
        law_times_zero_is_zero(way, s);
    } else {
        lemma_product_is_number(way, s);
    }
    law_a_part_is_no_larger(way, s);
    law_a_part_is_no_larger(way, t);
    if way.negative() {
        law_times_zero_is_zero(s, way);
        law_times_zero_is_zero(t, way);
    } else {
        law_products_keep_order(s, t, way);
        law_products_keep_order(num(0), s, way);
        law_times_zero_is_zero(way, num(0));
        law_products_commute(num(0), way);
    }
    law_products_commute(s, way);
    law_products_commute(t, way);
    assert(num(0).le(p) && p.le(q));
    law_sums_keep_order(p, q, a);
    law_sums_keep_order(num(0), p, a);
    lemma_sums_commute(p, a);
    lemma_sums_commute(q, a);
    lemma_nothing_more(a, num(0));
    if a.is_zero_spec() {
        lemma_nothing_more(b, a.negated());
        lemma_nothing_more(q, a);
    }
}

/// Going down from one number to another gets lower the more of the way it goes.
pub proof fn lemma_down(a: Number, b: Number, s: Number, t: Number)
    requires
        a.is_finite(),
        b.is_finite(),
        num(0).le(b),
        b.le(a),
        num(0).le(s),
        s.le(t),
        t.le(one()),
    ensures
        mixed(a, b, t).le(mixed(a, b, s)),
        mixed(a, b, s).le(a),
{
    let way = b.difference(a);
    lemma_less(b, a);
    let (p, q) = (way.product(s), way.product(t));
    law_a_part_is_no_larger(way, s);
    law_a_part_is_no_larger(way, t);
    law_products_commute(s, way);
    law_products_commute(t, way);
    if way.is_zero_spec() {
        law_times_zero_is_zero(s, way);
        law_times_zero_is_zero(t, way);
    } else {
        let back = way.negated();
        assert(back.magnitude() == way.magnitude());
        law_products_keep_order(s, t, back);
        law_products_keep_order(num(0), s, back);
        law_times_zero_is_zero(back, num(0));
        law_products_commute(num(0), back);
        law_products_commute(s, back);
        law_products_commute(t, back);
        lemma_negated_product(way, s);
        lemma_negated_product(way, t);
    }
    assert(q.le(p) && p.le(num(0)));
    law_sums_keep_order(q, p, a);
    law_sums_keep_order(p, num(0), a);
    lemma_sums_commute(p, a);
    lemma_sums_commute(q, a);
    lemma_nothing_more(a, num(0));
}

/// The further on, the more of the way between two places is behind.
proof fn lemma_on_the_way(lo: Number, hi: Number, u: Number, v: Number)
    requires
        lo.is_finite(),
        hi.is_finite(),
        u.is_finite(),
        v.is_finite(),
        num(0).le(lo),
        num(0).le(hi),
        num(0).le(u),
        u.le(v),
    ensures
        num(0).le(along(lo, hi, u)),
        along(lo, hi, u).le(along(lo, hi, v)),
        along(lo, hi, v).le(one()),
{
    lemma_less(hi, lo);
    lemma_less(u, lo);
    lemma_less(v, lo);
    if lo.lt(hi) {
        let span = hi.difference(lo);
        assert(num(0).lt(span)) by {
            lemma_more_than_nothing(hi, lo);
        }
        law_sums_keep_order(u, v, lo.negated());
        law_quotients_keep_order(u.difference(lo), v.difference(lo), span);
    }
}

/// What shows from a ring on is no more than shows at the ring.
proof fn lemma_from_a_ring(rings: Seq<Stop>, i: int, r: Number)
    requires
        is_fading(rings),
        0 <= i < rings.len(),
        r.is_finite(),
        num(0).le(r),
    ensures
        num(0).le(shows(ramp_from(rings, i, r))),
        shows(ramp_from(rings, i, r)).le(rings[i].part),
    decreases rings.len() - i,
{
    if i + 1 < rings.len() {
        let (lo, hi) = (rings[i], rings[i + 1]);
        if r.le(hi.at) {
            lemma_on_the_way(lo.at, hi.at, r, r);
            let t = along(lo.at, hi.at, r);
            lemma_down(lo.part, hi.part, t, t);
        } else {
            lemma_from_a_ring(rings, i + 1, r);
        }
    }
}

proof fn lemma_outward(rings: Seq<Stop>, i: int, r: Number, further: Number)
    requires
        is_fading(rings),
        arrives(rings),
        0 <= i < rings.len(),
        r.is_finite(),
        further.is_finite(),
        num(0).le(r),
        r.le(further),
    ensures
        shows(ramp_from(rings, i, further)).le(shows(ramp_from(rings, i, r))),
    decreases rings.len() - i,
{
    if i + 1 < rings.len() {
        let (lo, hi) = (rings[i], rings[i + 1]);
        lemma_on_the_way(lo.at, hi.at, r, further);
        let (s, t) = (along(lo.at, hi.at, r), along(lo.at, hi.at, further));
        if further.le(hi.at) {
            lemma_down(lo.part, hi.part, s, t);
        } else if r.le(hi.at) {
            lemma_down(lo.part, hi.part, s, one());
            lemma_from_a_ring(rings, i + 1, further);
        } else {
            lemma_outward(rings, i + 1, r, further);
        }
    }
}

/// What shows of a ramp never rises outward, where each ring is arrived at.
pub proof fn law_a_ramp_never_rises_outward(rings: Seq<Stop>, r: Number, further: Number)
    requires
        is_fading(rings),
        arrives(rings),
        r.is_finite(),
        further.is_finite(),
        num(0).le(r),
        r.le(further),
    ensures
        shows(ramp_at(rings, further)).le(shows(ramp_at(rings, r))),
{
    if rings.len() > 0 {
        lemma_outward(rings, 0, r, further);
        lemma_from_a_ring(rings, 0, r);
    }
}

/// A number of up to one, times another, is no more than the other.
proof fn lemma_scaled_down(part: Number, n: Number)
    requires
        part.magnitude() <= 0x3f80_0000,
        n.is_finite(),
    ensures
        part.product(n).is_finite(),
        !part.negative() && !n.negative() ==> num(0).le(part.product(n)),
{
    law_a_part_is_no_larger(n, part);
    law_products_commute(n, part);
    lemma_product_is_number(part, n);
}

/// A disc's rings go outward from its middle to its rim, where it shows nothing, and none shows
/// more than the one inside it.
pub proof fn law_rings_fade_outward(disc: Disc, alpha: Number)
    requires
        disc.radius.is_finite(),
        !disc.radius.negative(),
        alpha.is_finite(),
        !alpha.negative(),
    ensures
        is_fading(disc.ramp(alpha)),
        disc.ramp(alpha)[0].at.is_zero_spec(),
        disc.ramp(alpha)[3].at == disc.radius,
        disc.ramp(alpha)[3].part.is_zero_spec(),
{
    let rings = disc.ramp(alpha);
    let r = disc.radius;
    let (a, b, c, d) = (num(0), num(0x3ea3_d70a), num(0x3ed7_0a3d), num(0x3f80_0000));
    lemma_scaled_down(a, r);
    lemma_scaled_down(b, r);
    lemma_scaled_down(c, r);
    lemma_scaled_down(d, r);
    law_products_keep_order(a, b, r);
    law_products_keep_order(b, c, r);
    law_products_keep_order(c, d, r);
    law_times_zero_is_zero(r, a);
    law_times_one_is_itself(r);
    law_products_commute(r, d);
    let (e, f, g, h) = (num(0x3f73_3333), num(0x3f33_3333), num(0x3e8f_5c29), num(0));
    lemma_scaled_down(e, alpha);
    lemma_scaled_down(f, alpha);
    lemma_scaled_down(g, alpha);
    lemma_scaled_down(h, alpha);
    law_products_keep_order(h, g, alpha);
    law_products_keep_order(g, f, alpha);
    law_products_keep_order(f, e, alpha);
    law_times_zero_is_zero(alpha, h);
    assert(rings[0] == ring(0, disc.core, 0x3f73_3333, r, alpha));
    assert(rings[1] == ring(0x3ea3_d70a, disc.core, 0x3f33_3333, r, alpha));
    assert(rings[2] == ring(0x3ed7_0a3d, disc.halo, 0x3e8f_5c29, r, alpha));
    assert(rings[3] == ring(0x3f80_0000, disc.halo, 0, r, alpha));
}

/// A difference that needs no rounding is made up for by adding it again.
proof fn lemma_made_up(p: Number, q: Number, k: nat, n: nat)
    requires
        p.is_finite(),
        q.is_finite(),
        num(0).le(q),
        q.le(p),
        p.steps() - q.steps() == n * pow2(k),
        n < 0x100_0000,
    ensures
        q.le(mixed(p, q, one())),
{
    let way = q.difference(p);
    lemma_less(q, p);
    law_times_one_is_itself(way);
    lemma_values_in_order(q, p);
    lemma_values_in_order(num(0), q);
    lemma_scaled_is_exact(n, k);
    assert(p.negated().magnitude() == p.magnitude());
    assert(way.steps() == q.steps() - p.steps()) by {
        reveal(Number::sum);
        if n * pow2(k) > 0 {
            let steps = n * pow2(k);
            lemma_size_is_exact(p);
            lemma_bits_increase(steps, p.size());
            lemma_exact_steps(steps, true);
        }
    }
    lemma_sum_between(q, q, p, way);
}

/// What shows of a disc that shows in full never rises outward.
pub proof fn law_a_full_disc_never_rises_outward(disc: Disc, r: Number, further: Number)
    requires
        disc.radius.is_finite(),
        !disc.radius.negative(),
        r.is_finite(),
        further.is_finite(),
        num(0).le(r),
        r.le(further),
    ensures
        shows(ramp_at(disc.ramp(one()), further)).le(shows(ramp_at(disc.ramp(one()), r))),
{
    let rings = disc.ramp(one());
    law_rings_fade_outward(disc, one());
    let (e, f, g, h) = (num(0x3f73_3333), num(0x3f33_3333), num(0x3e8f_5c29), num(0));
    law_times_one_is_itself(e);
    law_times_one_is_itself(f);
    law_times_one_is_itself(g);
    law_times_one_is_itself(h);
    lemma_pow2_unfold(125);
    lemma_made_up(e, f, 125, 0x40_0000);
    lemma_made_up(f, g, 124, 0xd7_0a3d);
    lemma_made_up(g, h, 124, 0x8f_5c29);
    assert(arrives(rings)) by {
        assert(rings[0].part == e && rings[1].part == f && rings[2].part == g && rings[3].part
            == h);
    }
    law_a_ramp_never_rises_outward(rings, r, further);
}

/// What a stop of the band adds to a channel.
proof fn lemma_stop_channel(channel: Number, part: Number, strength: Number)
    requires
        channel.magnitude() <= 0x437f_0000,
        !channel.negative(),
        part.magnitude() <= 0x3f80_0000,
        !part.negative(),
        strength.magnitude() <= 0x3f80_0000,
        !strength.negative(),
    ensures
        channel.product(part).is_finite(),
        !channel.product(part).negative(),
        channel.product(part).product(strength).is_finite(),
        !channel.product(part).product(strength).negative(),
{
    law_a_part_is_no_larger(channel, part);
    lemma_product_is_number(channel, part);
    law_a_part_is_no_larger(channel.product(part), strength);
    lemma_product_is_number(channel.product(part), strength);
}

/// A channel of the band between two of its rows.
proof fn lemma_channel_grows(
    a: Number,
    b: Number,
    c: Number,
    strength: Number,
    u: Number,
    v: Number,
)
    requires
        a.magnitude() <= 0x437f_0000,
        b.magnitude() <= 0x437f_0000,
        c.magnitude() <= 0x437f_0000,
        !a.negative(),
        !b.negative(),
        !c.negative(),
        b.le(c),
        strength.magnitude() <= 0x3f80_0000,
        !strength.negative(),
        num(0).le(u),
        u.le(v),
        v.le(one()),
    ensures
        ({
            let (top, mid, low) = band();
            let x = a.product(top.part).product(strength);
            let y = b.product(mid.part).product(strength);
            let z = c.product(low.part).product(strength);
            let (s, t) = (along(top.at, mid.at, u), along(top.at, mid.at, v));
            let (p, q) = (along(mid.at, low.at, u), along(mid.at, low.at, v));
            &&& mixed(x, y, s).le(mixed(x, y, t))
            &&& mixed(x, y, s).le(mixed(y, z, q))
            &&& mixed(y, z, p).le(mixed(y, z, q))
        }),
{
    let (top, mid, low) = band();
    let x = a.product(top.part).product(strength);
    let y = b.product(mid.part).product(strength);
    let z = c.product(low.part).product(strength);
    lemma_stop_channel(a, top.part, strength);
    lemma_stop_channel(b, mid.part, strength);
    lemma_stop_channel(c, low.part, strength);
    lemma_stop_channel(c, mid.part, strength);
    law_times_zero_is_zero(a, num(0));
    law_times_zero_is_zero(strength, a.product(num(0)));
    law_products_keep_order(b, c, mid.part);
    law_products_keep_order(mid.part, low.part, c);
    law_products_commute(mid.part, c);
    law_products_commute(low.part, c);
    law_products_keep_order(b.product(mid.part), c.product(low.part), strength);
    let (s, t) = (along(top.at, mid.at, u), along(top.at, mid.at, v));
    let (p, q) = (along(mid.at, low.at, u), along(mid.at, low.at, v));
    lemma_on_the_way(top.at, mid.at, u, v);
    lemma_on_the_way(mid.at, low.at, u, v);
    lemma_up(x, y, s, t);
    lemma_up(x, y, s, s);
    lemma_up(y, z, p, q);
    lemma_up(y, z, q, q);
}

/// A band so tall that its span is past all finite numbers is all at its bottom: a row adds what
/// its last stop does where it is as far down as that, and is at its top otherwise.
proof fn lemma_endless_band(glow: HorizonGlow, y: Number)
    requires
        glow.top.is_finite(),
        glow.bottom.is_finite(),
        glow.top.lt(glow.bottom),
        !glow.bottom.difference(glow.top).is_finite(),
        y.is_number(),
        y.is_finite() || !y.negative(),
    ensures
        glow.bottom.difference(glow.top) == num(INFINITY),
        y.difference(glow.top).is_finite() ==> glow.down(y).is_zero_spec(),
        !y.difference(glow.top).is_finite() ==> y.difference(glow.top) == num(INFINITY)
            && glow.added(y) == stop_tone(band().2, glow.strength),
{
    let off = glow.top.negated();
    let span = glow.bottom.difference(glow.top);
    assert(off.magnitude() == glow.top.magnitude());
    lemma_more_than_nothing(glow.bottom, glow.top);
    if !glow.top.negative() {
        lemma_less(glow.bottom, glow.top);
    }
    if y.is_finite() {
        lemma_sum_goes_up(y, off);
    } else {
        reveal(Number::sum);
    }
    reveal(Number::quotient);
}

/// Further down the view is further down the band.
proof fn lemma_further_down(glow: HorizonGlow, y: Number, lower: Number)
    requires
        glow.top.is_finite(),
        glow.bottom.difference(glow.top).is_finite(),
        y.le(lower),
    ensures
        num(0).le(glow.down(y)),
        glow.down(y).le(glow.down(lower)),
        glow.down(lower).le(one()),
{
    let span = glow.bottom.difference(glow.top);
    assert(glow.top.negated().magnitude() == glow.top.magnitude());
    law_sums_keep_order(y, lower, glow.top.negated());
    if num(0).lt(span) {
        law_quotients_keep_order(y.difference(glow.top), lower.difference(glow.top), span);
    }
}

/// The glow only grows downward: no row of the view gets less of any channel than one above it.
pub proof fn law_the_glow_grows_downward(glow: HorizonGlow, y: Number, lower: Number)
    requires
        num(0).lt(glow.strength),
        glow.strength.le(one()),
        glow.top.is_finite(),
        glow.bottom.is_finite(),
        glow.top.lt(glow.bottom),
        y.is_finite() || glow.bottom.difference(glow.top).is_finite(),
        y.le(lower),
    ensures
        glow.added(y).r.le(glow.added(lower).r),
        glow.added(y).g.le(glow.added(lower).g),
        glow.added(y).b.le(glow.added(lower).b),
{
    let (a, b, c) = band();
    let (u, v) = (glow.down(y), glow.down(lower));
    if glow.bottom.difference(glow.top).is_finite() {
        lemma_further_down(glow, y, lower);
        lemma_channel_grows(a.tone.r, b.tone.r, c.tone.r, glow.strength, u, v);
        lemma_channel_grows(a.tone.g, b.tone.g, c.tone.g, glow.strength, u, v);
        lemma_channel_grows(a.tone.b, b.tone.b, c.tone.b, glow.strength, u, v);
    } else {
        lemma_endless_band(glow, y);
        lemma_endless_band(glow, lower);
        assert(glow.top.negated().magnitude() == glow.top.magnitude());
        law_sums_keep_order(y, lower, glow.top.negated());
        lemma_stop_channel(c.tone.r, c.part, glow.strength);
        lemma_stop_channel(c.tone.g, c.part, glow.strength);
        lemma_stop_channel(c.tone.b, c.part, glow.strength);
        if u.is_zero_spec() {
            law_no_glow_above_the_band(glow, y);
        }
        if v.is_zero_spec() {
            law_no_glow_above_the_band(glow, lower);
        }
    }
}

/// Nothing is added from the top of the band up.
pub proof fn law_nothing_glows_above_the_band(glow: HorizonGlow, y: Number)
    requires
        num(0).lt(glow.strength),
        glow.strength.le(one()),
        glow.top.is_finite(),
        glow.bottom.is_finite(),
        glow.top.lt(glow.bottom),
        y.is_finite() || glow.bottom.difference(glow.top).is_finite(),
        y.le(glow.top),
    ensures
        glow.added(y).r.is_zero_spec(),
        glow.added(y).g.is_zero_spec(),
        glow.added(y).b.is_zero_spec(),
{
    let span = glow.bottom.difference(glow.top);
    let down = y.difference(glow.top);
    lemma_more_than_nothing(glow.bottom, glow.top);
    assert(glow.top.negated().magnitude() == glow.top.magnitude());
    law_sums_keep_order(y, glow.top, glow.top.negated());
    law_less_itself_is_zero(glow.top);
    if span.is_finite() {
        law_quotients_keep_order(down, num(0), span);
        lemma_zero_over(num(0), span);
    } else {
        lemma_endless_band(glow, y);
    }
    law_no_glow_above_the_band(glow, y);
}

/// What is no less than the span of the band is all of it.
proof fn lemma_all_of_the_band(glow: HorizonGlow, y: Number)
    requires
        glow.top.is_finite(),
        glow.bottom.is_finite(),
        glow.bottom.difference(glow.top).is_finite(),
        glow.bottom.le(y),
    ensures
        glow.down(y) == one(),
{
    let span = glow.bottom.difference(glow.top);
    let down = y.difference(glow.top);
    if num(0).lt(span) {
        law_itself_goes_in_once(span);
        assert(glow.top.negated().magnitude() == glow.top.magnitude());
        law_sums_keep_order(glow.bottom, y, glow.top.negated());
        law_quotients_keep_order(span, down, span);
    }
}

/// Below the band everything is flooded with what it adds at its bottom.
pub proof fn law_the_glow_floods_below_the_band(glow: HorizonGlow, y: Number)
    requires
        glow.top.is_finite(),
        glow.bottom.is_finite(),
        glow.top.lt(glow.bottom),
        glow.bottom.le(y),
    ensures
        glow.added(y) == glow.added(glow.bottom),
{
    if glow.bottom.difference(glow.top).is_finite() {
        lemma_all_of_the_band(glow, y);
        lemma_all_of_the_band(glow, glow.bottom);
    } else {
        lemma_endless_band(glow, y);
        lemma_endless_band(glow, glow.bottom);
        assert(glow.top.negated().magnitude() == glow.top.magnitude());
        law_sums_keep_order(glow.bottom, y, glow.top.negated());
    }
}

/// All of the way from one number up to another is near to the other.
proof fn lemma_all_the_way(a: Number, b: Number)
    requires
        num(0).le(a),
        a.le(b),
        b.magnitude() <= 0x437f_0000,
    ensures
        mixed(a, b, one()).is_finite(),
        16 * (mixed(a, b, one()).steps() - b.steps()) <= b.steps(),
        16 * (b.steps() - mixed(a, b, one()).steps()) <= b.steps(),
{
    let way = b.difference(a);
    let most = num(0x4400_0000);
    lemma_less(b, a);
    law_times_one_is_itself(way);
    lemma_values_in_order(a, b);
    lemma_values_in_order(num(0), a);
    lemma_values_in_order(b, most);
    assert(a.negated().magnitude() == a.magnitude());
    let gap = (b.steps() - a.steps()) as nat;
    lemma_sum_steps(b, a.negated(), most);
    lemma_rounded_is_near(gap);
    let sum = (a.steps() + way.steps()) as nat;
    lemma_most(b, most);
    lemma_sum_steps(a, way, most);
    lemma_rounded_is_near(sum);
}

/// Twice 255 is less than 512.
proof fn lemma_most(b: Number, most: Number)
    requires
        b.magnitude() <= 0x437f_0000,
        most == num(0x4400_0000),
    ensures
        2 * b.size() <= most.size(),
{
    let top = num(0x4380_0000);
    lemma_pow2_unfold(135);
    assert(top.size() == 0x80_0000 * pow2(134));
    assert(most.size() == 0x80_0000 * pow2(135));
    lemma_steps_are_sizes(b);
    crate::number::lemma_steps_increase(b.magnitude(), top.magnitude());
}

/// How much of a channel the last stop of the band has, between two whole numbers.
proof fn lemma_last_stop(channel: Number, m: nat, lo: nat, hi: nat)
    requires
        channel.is_finite(),
        channel.magnitude() <= 0x437f_0000,
        !channel.negative(),
        channel.size() == m * pow2(133),
        0x40_0000 <= m <= 0xff_0000,
        0x100_0000 * (m * 0x9e_b852) - m * 0x9e_b852 >= 0x100_0000 * (lo * 0x100_0000_0000),
        0x100_0000 * (m * 0x9e_b852) + m * 0x9e_b852 <= 0x100_0000 * (hi * 0x100_0000_0000),
    ensures
        channel.product(num(0x3f1e_b852)).is_finite(),
        !channel.product(num(0x3f1e_b852)).negative(),
        lo * pow2(149) <= channel.product(num(0x3f1e_b852)).size() <= hi * pow2(149),
{
    let part = num(0x3f1e_b852);
    let d = pow2(149);
    let q = pow2(258);
    law_a_part_is_no_larger(channel, part);
    lemma_product_is_number(channel, part);
    lemma2_to64();
    lemma_pow2_pos(149);
    lemma_pow2_pos(258);
    lemma_pow2_adds(133, 125);
    lemma_pow2_adds(149, 149);
    lemma_pow2_adds(40, 258);
    lemma_pow2_adds(20, 20);
    lemma_pow2_adds(149, 109);
    lemma_pow2_pos(109);
    assert(part.size() == 0x9e_b852 * pow2(125));
    let n = channel.size() * part.size();
    let w = m * 0x9e_b852;
    assert(n == w * q) by (nonlinear_arith)
        requires
            n == (m * pow2(133)) * (0x9e_b852 * pow2(125)),
            w == m * 0x9e_b852,
            q == pow2(133) * pow2(125),
    ;
    assert(0x80_0000 * d <= n) by (nonlinear_arith)
        requires
            n == w * q,
            w == m * 0x9e_b852,
            m >= 0x40_0000,
            q == d * pow2(109),
            pow2(109) >= 1,
            d > 0,
    ;
    lemma_ratio_is_near(n, d);
    lemma_ratio_is_exact(n, d);
    let t = ratio(n, d);
    assert(number_of(t, false) == channel.product(part)) by {
        reveal(Number::product);
    }
    lemma_size_is_exact(channel);
    assert(bits_of(t) < INFINITY) by {
        reveal(Number::product);
    }
    lemma_exact_steps(t, false);
    assert(d * d == 0x100_0000_0000 * q);
    assert(lo * d <= t) by (nonlinear_arith)
        requires
            0x100_0000 * (n - t * d) <= n,
            n == w * q,
            0x100_0000 * w - w >= 0x100_0000 * (lo * 0x100_0000_0000),
            d * d == 0x100_0000_0000 * q,
            d > 0,
            q > 0,
    {
        assert(0x100_0000 * (t * d) >= (0x100_0000 * w - w) * q);
        assert((0x100_0000 * w - w) * q >= (0x100_0000 * (lo * 0x100_0000_0000)) * q);
        assert((0x100_0000 * (lo * 0x100_0000_0000)) * q == 0x100_0000 * ((lo * d) * d));
    }
    assert(t <= hi * d) by (nonlinear_arith)
        requires
            0x100_0000 * (t * d - n) <= n,
            n == w * q,
            0x100_0000 * w + w <= 0x100_0000 * (hi * 0x100_0000_0000),
            d * d == 0x100_0000_0000 * q,
            d > 0,
            q > 0,
    {
        assert(0x100_0000 * (t * d) <= (0x100_0000 * w + w) * q);
        assert((0x100_0000 * w + w) * q <= (0x100_0000 * (hi * 0x100_0000_0000)) * q);
        assert((0x100_0000 * (hi * 0x100_0000_0000)) * q == 0x100_0000 * ((hi * d) * d));
    }
}

/// What the bottom of the band adds to a channel, between two multiples of its strength.
pub proof fn lemma_bottom_channel(
    b: Number,
    c: Number,
    strength: Number,
    m: nat,
    lo: nat,
    hi: nat,
)
    requires
        b.magnitude() <= 0x437f_0000,
        c.magnitude() <= 0x437f_0000,
        !b.negative(),
        !c.negative(),
        b.le(c),
        num(0).lt(strength),
        strength.le(one()),
        c.size() == m * pow2(133),
        0x40_0000 <= m <= 0xff_0000,
        68 <= lo,
        0x100_0000 * (m * 0x9e_b852) - m * 0x9e_b852 >= 0x100_0000 * (lo * 0x100_0000_0000),
        0x100_0000 * (m * 0x9e_b852) + m * 0x9e_b852 <= 0x100_0000 * (hi * 0x100_0000_0000),
    ensures
        ({
            let (_, mid, low) = band();
            let y = b.product(mid.part).product(strength);
            let z = c.product(low.part).product(strength);
            let x = mixed(y, z, one());
            &&& x.is_finite()
            &&& 7 * (lo * strength.size()) <= 8 * x.steps() <= 9 * (hi * strength.size())
            &&& z.is_finite()
            &&& 7 * (lo * strength.size()) <= 8 * z.steps() <= 9 * (hi * strength.size())
        }),
{
    let (_, mid, low) = band();
    let y = b.product(mid.part).product(strength);
    let z = c.product(low.part).product(strength);
    let full = c.product(low.part);
    let d = pow2(149);
    let s = strength.size();
    lemma_pow2_pos(149);
    lemma_stop_channel(b, mid.part, strength);
    lemma_stop_channel(c, low.part, strength);
    lemma_stop_channel(c, mid.part, strength);
    law_products_keep_order(b, c, mid.part);
    law_products_keep_order(mid.part, low.part, c);
    law_products_commute(mid.part, c);
    law_products_commute(low.part, c);
    law_products_keep_order(b.product(mid.part), c.product(low.part), strength);
    law_a_part_is_no_larger(c, low.part);
    law_a_part_is_no_larger(full, strength);
    lemma_all_the_way(y, z);
    lemma_last_stop(c, m, lo, hi);
    assert(s >= 1) by {
        lemma_steps_are_sizes(strength);
        crate::number::lemma_steps_nonnegative(strength.magnitude());
    }
    let t = full.size();
    let n = t * s;
    assert(lo * d * s <= n <= hi * d * s) by (nonlinear_arith)
        requires
            n == t * s,
            lo * d <= t <= hi * d,
            s >= 1,
    ;
    lemma_ratio_is_near(n, d);
    lemma_ratio_is_exact(n, d);
    let r = ratio(n, d);
    assert((lo * s) * d <= n <= (hi * s) * d && 68 <= lo * s) by (nonlinear_arith)
        requires
            lo * d * s <= n <= hi * d * s,
            lo >= 68,
            s >= 1,
    ;
    assert(number_of(r, false) == z && bits_of(r) < INFINITY) by {
        reveal(Number::product);
    }
    lemma_exact_steps(r, false);
    lemma_near_multiple(n, d, r, lo * s, hi * s);
}

/// What is rounded from between two multiples is nearly between them.
proof fn lemma_near_multiple(n: nat, d: nat, r: nat, lo: nat, hi: nat)
    requires
        0 < d,
        r == ratio(n, d),
        lo * d <= n <= hi * d,
        68 <= lo,
    ensures
        67 * lo <= 68 * r,
        68 * r <= 69 * hi,
{
    lemma_ratio_is_near(n, d);
    if n < 0x80_0000 * d {
        assert(2 * lo <= 2 * r + 1 && 2 * r <= 2 * hi + 1) by (nonlinear_arith)
            requires
                2 * (n - r * d) <= d,
                2 * (r * d - n) <= d,
                lo * d <= n <= hi * d,
                d > 0,
        ;
    } else {
        assert(0xff_ffff * lo <= 0x100_0000 * r && 0x100_0000 * r <= 0x100_0001 * hi)
            by (nonlinear_arith)
            requires
                0x100_0000 * (n - r * d) <= n,
                0x100_0000 * (r * d - n) <= n,
                lo * d <= n <= hi * d,
                d > 0,
        {
            assert((0xff_ffff * lo) * d <= (0x100_0000 * r) * d);
            assert((0x100_0000 * r) * d <= (0x100_0001 * hi) * d);
        }
    }
}

/// The glow is warm: where it ends it adds to every channel, the most to red and the least to blue,
/// and to none as much as a channel holds.
pub proof fn law_the_glow_is_warm(glow: HorizonGlow)
    requires
        glow.top.is_finite(),
        glow.bottom.is_finite(),
        glow.top.lt(glow.bottom),
        num(0).lt(glow.strength),
        glow.strength.le(one()),
    ensures
        num(0).lt(glow.added(glow.bottom).b),
        glow.added(glow.bottom).b.lt(glow.added(glow.bottom).g),
        glow.added(glow.bottom).g.lt(glow.added(glow.bottom).r),
        glow.added(glow.bottom).r.lt(num(0x437f_0000)),
{
    let (_, b, c) = band();
    let s = glow.strength.size();
    if glow.bottom.difference(glow.top).is_finite() {
        lemma_all_of_the_band(glow, glow.bottom);
    } else {
        lemma_endless_band(glow, glow.bottom);
    }
    assert(along(b.at, c.at, one()) == one()) by {
        lemma_less(c.at, b.at);
        lemma_more_than_nothing(c.at, b.at);
        law_itself_goes_in_once(c.at.difference(b.at));
    }
    lemma_pow2_unfold(133);
    assert(c.tone.r.size() == 0xff_0000 * pow2(133));
    assert(c.tone.g.size() == 0xba_0000 * pow2(133));
    assert(c.tone.b.size() == 0xdc_0000 * pow2(132));
    lemma_bottom_channel(b.tone.r, c.tone.r, glow.strength, 0xff_0000, 158, 159);
    lemma_bottom_channel(b.tone.g, c.tone.g, glow.strength, 0xba_0000, 115, 116);
    lemma_bottom_channel(b.tone.b, c.tone.b, glow.strength, 0x6e_0000, 68, 69);
    let out = glow.added(glow.bottom);
    lemma_steps_are_sizes(glow.strength);
    crate::number::lemma_steps_nonnegative(glow.strength.magnitude());
    law_rank_orders_values(num(0), out.b);
    law_rank_orders_values(out.b, out.g);
    law_rank_orders_values(out.g, out.r);
    assert(s <= pow2(149)) by {
        lemma_values_in_order(glow.strength, one());
        crate::arith::lemma_one();
    }
    assert(num(0x437f_0000).size() == 0xff * pow2(149)) by {
        lemma2_to64();
        lemma_pow2_adds(16, 133);
    }
    lemma_pow2_pos(149);
    lemma_values_in_order(out.r, num(0x437f_0000));
    law_rank_orders_values(out.r, num(0x437f_0000));
}

} // verus!
