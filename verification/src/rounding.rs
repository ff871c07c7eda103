//! Binary32 numbers to whole numbers: the nearest pixel, and a whole number times a fraction.

use vstd::arithmetic::div_mod::*;
use vstd::arithmetic::mul::*;
use vstd::arithmetic::power2::*;
use vstd::prelude::*;

use crate::number::{law_rank_orders_values, magnitude_steps, INFINITY, Number};

verus! {

/// The magnitude of one.
pub const ONE: u32 = 0x3f80_0000;

/// The distance between the binary32 numbers round `p` smallest steps.
pub open spec fn spacing(p: nat) -> nat
    decreases p,
{
    if p < 0x100_0000 {
        1
    } else {
        2 * spacing(p / 2)
    }
}

/// `p` smallest steps as a binary32 number: the nearest, and of two that are equally near the
/// even one. A whole number `p` becomes a binary32 number in the same way.
pub open spec fn rounded(p: nat) -> nat {
    let unit = spacing(p);
    let q = p / unit;
    let r = p % unit;
    if 2 * r < unit || (2 * r == unit && q % 2 == 0) {
        q * unit
    } else {
        (q + 1) * unit
    }
}

/// `n` times the number of this magnitude, in smallest steps. Both `n` and the product are
/// rounded to a binary32 number.
pub open spec fn product(n: nat, magnitude: int) -> nat {
    rounded((rounded(n) * magnitude_steps(magnitude)) as nat)
}

/// Some smallest steps, cut off after the point.
pub open spec fn cut_off(steps: nat) -> nat {
    steps / pow2(149)
}

/// The whole number nearest to some smallest steps. A half goes up.
pub open spec fn nearest(steps: nat) -> nat {
    (2 * steps + pow2(149)) as nat / pow2(150)
}

/// The spacing is at least a step, and no more than the number.
pub proof fn lemma_spacing_positive(p: nat)
    ensures
        1 <= spacing(p),
        p >= 1 ==> spacing(p) <= p,
    decreases p,
{
    if p >= 0x100_0000 {
        lemma_spacing_positive(p / 2);
    }
}

/// Rounding moves a number by at most half of the spacing.
pub proof fn lemma_rounded_bound(p: nat)
    ensures
        rounded(p) <= 2 * p,
        2 * rounded(p) <= 2 * p + spacing(p),
{
    let unit = spacing(p) as int;
    lemma_spacing_positive(p);
    let q = p as int / unit;
    let r = p as int % unit;
    lemma_fundamental_div_mod(p as int, unit);
    lemma_mod_bound(p as int, unit);
    assert((q + 1) * unit == unit * q + unit) by (nonlinear_arith);
    assert(q * unit == unit * q) by (nonlinear_arith);
    if p == 0 {
        assert(q == 0 && r == 0) by (nonlinear_arith)
            requires
                0 == unit * q + r,
                0 <= r < unit,
        ;
    }
}

/// A number of up to 24 bits is already a binary32 number.
pub proof fn lemma_small_is_exact(p: nat)
    requires
        p < 0x100_0000,
    ensures
        rounded(p) == p,
{
    assert(spacing(p) == 1);
    lemma_div_basics(p as int);
    assert(p % 1 == 0);
    assert(p * 1 == p);
}

proof fn lemma_rounded_doubles(p: nat)
    requires
        p >= 0x80_0000,
    ensures
        rounded(2 * p) == 2 * rounded(p),
{
    let unit = spacing(p) as int;
    lemma_spacing_positive(p);
    assert(spacing(2 * p) == 2 * unit);
    let q = p as int / unit;
    let r = p as int % unit;
    lemma_fundamental_div_mod(p as int, unit);
    lemma_mod_bound(p as int, unit);
    assert(2 * p == (2 * unit) * q + 2 * r) by (nonlinear_arith)
        requires
            p == unit * q + r,
    ;
    lemma_fundamental_div_mod_converse(2 * p as int, 2 * unit, q, 2 * r);
    assert(q * (2 * unit) == 2 * (q * unit)) by (nonlinear_arith);
    assert((q + 1) * (2 * unit) == 2 * ((q + 1) * unit)) by (nonlinear_arith);
}

/// Rounding is the same at every scale.
pub proof fn lemma_rounded_scales(p: nat, k: nat)
    requires
        p >= 0x80_0000,
    ensures
        rounded(p * pow2(k)) == rounded(p) * pow2(k),
    decreases k,
{
    if k == 0 {
        lemma2_to64();
        assert(p * pow2(0) == p && rounded(p) * pow2(0) == rounded(p));
    } else {
        let less = (k - 1) as nat;
        lemma_rounded_scales(p, less);
        lemma_pow2_unfold(k);
        lemma_pow2_pos(less);
        let big = p * pow2(less);
        assert(big >= p) by (nonlinear_arith)
            requires
                big == p * pow2(less),
                pow2(less) >= 1,
        ;
        lemma_rounded_doubles(big);
        assert(p * pow2(k) == 2 * big) by (nonlinear_arith)
            requires
                pow2(k) == 2 * pow2(less),
                big == p * pow2(less),
        ;
        assert(rounded(p) * pow2(k) == 2 * (rounded(p) * pow2(less))) by (nonlinear_arith)
            requires
                pow2(k) == 2 * pow2(less),
        ;
    }
}

/// The distance between the binary32 numbers round `p`, and how many of them fit in it. See
/// [`spacing`].
pub(crate) fn spacing_of(p: u128) -> (out: (u128, u128))
    requires
        p < 0x1000_0000_0000_0000_0000_0000_0000,
    ensures
        out.0 == spacing(p as nat),
        out.1 == p as int / out.0 as int,
        1 <= out.0,
        out.0 <= p || out.0 == 1,
{
    let mut q: u128 = p;
    let mut unit: u128 = 1;
    assert(p as int / 1 == p);
    while q >= 0x100_0000
        invariant
            p < 0x1000_0000_0000_0000_0000_0000_0000,
            1 <= unit,
            unit <= p || unit == 1,
            q == p as int / unit as int,
            spacing(p as nat) == unit * spacing(q as nat),
        decreases q,
    {
        proof {
            lemma_div_denominator(p as int, unit as int, 2);
            lemma_fundamental_div_mod(p as int, unit as int);
            lemma_mod_bound(p as int, unit as int);
            assert(2 * unit <= p) by (nonlinear_arith)
                requires
                    p == unit * q + p as int % unit as int,
                    p as int % unit as int >= 0,
                    q >= 2,
                    unit >= 1,
            ;
            assert(unit * (2 * spacing((q / 2) as nat)) == (unit * 2) * spacing((q / 2) as nat))
                by (nonlinear_arith);
        }
        q = q / 2;
        unit = unit * 2;
    }
    proof {
        assert(spacing(q as nat) == 1);
        assert(unit == spacing(p as nat)) by (nonlinear_arith)
            requires
                spacing(p as nat) == unit * spacing(q as nat),
                spacing(q as nat) == 1,
        ;
    }
    (unit, q)
}

/// A number rounded to 24 bits. See [`rounded`].
pub(crate) fn round(p: u128) -> (r: u128)
    requires
        p < 0x1000_0000_0000_0000_0000_0000,
    ensures
        r == rounded(p as nat),
{
    let (unit, q): (u128, u128) = spacing_of(p);
    proof {
        lemma_rounded_bound(p as nat);
        lemma_mod_bound(p as int, unit as int);
    }
    let r: u128 = p % unit;
    if 2 * r < unit || (2 * r == unit && q % 2 == 0) {
        q * unit
    } else {
        (q + 1) * unit
    }
}

proof fn lemma_pow2_large(k: nat)
    requires
        k >= 91,
    ensures
        pow2(k) >= 0x800_0000_0000_0000_0000_0000,
{
    lemma2_to64_rest();
    lemma_pow2_adds(45, 46);
    if k > 91 {
        lemma_pow2_strictly_increases(91, k);
    }
}

pub(crate) fn power_of_two(k: u32) -> (d: u128)
    requires
        k < 91,
    ensures
        d == pow2(k as nat),
        1 <= d < 0x800_0000_0000_0000_0000_0000,
{
    let mut d: u128 = 1;
    let mut i: u32 = 0;
    proof {
        lemma2_to64();
        lemma2_to64_rest();
        lemma_pow2_adds(45, 46);
    }
    while i < k
        invariant
            i <= k < 91,
            1 <= d,
            d == pow2(i as nat),
            pow2(91) == 0x800_0000_0000_0000_0000_0000,
            d < pow2(91),
        decreases k - i,
    {
        proof {
            lemma_pow2_unfold((i + 1) as nat);
            lemma_pow2_strictly_increases((i + 1) as nat, 91);
        }
        d = d * 2;
        i = i + 1;
    }
    d
}

/// `n` times the number of this magnitude, as so many of the steps of which two to the power of
/// `cut` make one.
fn times(n: u64, magnitude: u32) -> (parts: (u128, u32))
    requires
        magnitude <= ONE,
    ensures
        23 <= parts.1 <= 149,
        parts.0 < 0x400_0000_0000_0000_0000_0000,
        product(n as nat, magnitude as int) == parts.0 * pow2((149 - parts.1) as nat),
        parts.0 <= 4 * n * pow2(parts.1 as nat),
{
    let e: u32 = magnitude / 0x80_0000;
    let f: u32 = magnitude % 0x80_0000;
    let c: u128 = round(n as u128);
    proof {
        lemma_rounded_bound(n as nat);
        lemma2_to64();
    }
    if e == 0 {
        assert(c * f < 0x100_0000_0000_0000_0000_0000) by (nonlinear_arith)
            requires
                c <= 0x2_0000_0000_0000_0000,
                f < 0x80_0000,
        ;
        let p: u128 = c * f as u128;
        let sig: u128 = round(p);
        proof {
            assert(magnitude_steps(magnitude as int) == f);
            assert(sig * pow2(0) == sig);
            lemma_rounded_bound(p as nat);
            lemma_pow2_large(149);
            assert(sig <= 4 * n * pow2(149)) by (nonlinear_arith)
                requires
                    sig <= 2 * p,
                    p == c * f,
                    c <= 2 * n,
                    f < 0x80_0000,
                    pow2(149) >= 0x80_0000,
            ;
        }
        return (sig, 149);
    }
    let m: u128 = 0x80_0000 + f as u128;
    assert(c * m < 0x200_0000_0000_0000_0000_0000) by (nonlinear_arith)
        requires
            c <= 0x2_0000_0000_0000_0000,
            m < 0x100_0000,
    ;
    let p: u128 = c * m;
    let sig: u128 = round(p);
    let cut: u32 = 150 - e;
    proof {
        let k = (e - 1) as nat;
        lemma_rounded_bound(p as nat);
        assert(magnitude_steps(magnitude as int) == m * pow2(k));
        assert(c * (m * pow2(k)) == p * pow2(k)) by (nonlinear_arith)
            requires
                p == c * m,
        ;
        if c == 0 {
            assert(p == 0) by (nonlinear_arith)
                requires
                    p == c * m,
                    c == 0,
            ;
            lemma_small_is_exact(0);
            assert(0 * pow2(k) == 0);
        } else {
            assert(p >= 0x80_0000) by (nonlinear_arith)
                requires
                    p == c * m,
                    c >= 1,
                    m >= 0x80_0000,
            ;
            lemma_rounded_scales(p as nat, k);
        }
        assert(m <= pow2(cut as nat)) by {
            if e == 127 {
                assert(f == 0);
            } else if cut > 24 {
                lemma_pow2_strictly_increases(24, cut as nat);
            }
        }
        assert(sig <= 4 * n * pow2(cut as nat)) by (nonlinear_arith)
            requires
                sig <= 2 * p,
                p == c * m,
                c <= 2 * n,
                m <= pow2(cut as nat),
        ;
    }
    (sig, cut)
}

/// `n` times the number of this magnitude, cut off after the point.
pub fn times_cut_off(n: u64, magnitude: u32) -> (k: u128)
    requires
        magnitude <= ONE,
    ensures
        k == cut_off(product(n as nat, magnitude as int)),
        k <= 4 * n,
{
    let (sig, cut): (u128, u32) = times(n, magnitude);
    proof {
        let up = (149 - cut) as nat;
        lemma_pow2_adds(up, cut as nat);
        lemma_pow2_pos(up);
        lemma_pow2_pos(cut as nat);
        lemma_div_multiples_vanish_quotient(pow2(up) as int, sig as int, pow2(cut as nat) as int);
        assert(sig * pow2(up) == pow2(up) * sig) by (nonlinear_arith);
        assert(sig as int / pow2(cut as nat) as int <= 4 * n) by (nonlinear_arith)
            requires
                sig <= 4 * n * pow2(cut as nat),
                pow2(cut as nat) > 0,
        ;
    }
    if cut >= 91 {
        proof {
            lemma_pow2_large(cut as nat);
            lemma_basic_div(sig as int, pow2(cut as nat) as int);
        }
        return 0;
    }
    sig / power_of_two(cut)
}

/// The nearest whole number to so many of the steps of which two to the power of `cut` make one.
proof fn lemma_nearest(sig: nat, cut: nat)
    requires
        cut <= 149,
    ensures
        nearest(sig * pow2((149 - cut) as nat)) == (2 * sig + pow2(cut)) as int / (2 * pow2(
            cut,
        )) as int,
{
    let up = (149 - cut) as nat;
    let whole = pow2(cut);
    lemma_pow2_adds(up, cut);
    lemma_pow2_unfold(150);
    lemma_pow2_pos(up);
    lemma_pow2_pos(cut);
    assert(2 * (sig * pow2(up)) + pow2(149) == pow2(up) * (2 * sig + whole)) by (nonlinear_arith)
        requires
            pow2(149) == pow2(up) * whole,
    ;
    assert(pow2(150) == pow2(up) * (2 * whole)) by (nonlinear_arith)
        requires
            pow2(150) == 2 * pow2(149),
            pow2(149) == pow2(up) * whole,
    ;
    lemma_div_multiples_vanish_quotient(
        pow2(up) as int,
        2 * sig + whole as int,
        2 * whole as int,
    );
}

/// `n` times the number of this magnitude, rounded to the nearest whole number.
pub fn times_nearest(n: u64, magnitude: u32) -> (k: u128)
    requires
        magnitude <= ONE,
    ensures
        k == nearest(product(n as nat, magnitude as int)),
{
    let (sig, cut): (u128, u32) = times(n, magnitude);
    proof {
        lemma_nearest(sig as nat, cut as nat);
    }
    if cut >= 91 {
        proof {
            lemma_pow2_large(cut as nat);
            lemma_basic_div(2 * sig + pow2(cut as nat), 2 * pow2(cut as nat) as int);
        }
        return 0;
    }
    let d: u128 = power_of_two(cut);
    (2 * sig + d) / (2 * d)
}

/// The spacing round a larger number is a multiple of the spacing round a smaller one.
pub proof fn lemma_spacing_divides(x: nat, y: nat) -> (k: nat)
    requires
        x <= y,
    ensures
        spacing(y) == spacing(x) * k,
    decreases y,
{
    if x < 0x100_0000 {
        assert(spacing(x) == 1);
        assert(1 * spacing(y) == spacing(y));
        spacing(y)
    } else {
        let k = lemma_spacing_divides(x / 2, y / 2);
        assert(2 * (spacing(x / 2) * k) == (2 * spacing(x / 2)) * k) by (nonlinear_arith);
        k
    }
}

/// A number has up to 24 bits over its spacing, and 24 where the spacing is more than a step.
pub proof fn lemma_spacing_range(p: nat)
    ensures
        p < 0x100_0000 * spacing(p),
        spacing(p) > 1 ==> 0x80_0000 * spacing(p) <= p,
    decreases p,
{
    if p >= 0x100_0000 {
        lemma_spacing_range(p / 2);
    }
}

/// Rounding does not carry a number down past a binary32 number.
pub proof fn lemma_rounded_stays_above(x: nat, y: nat)
    requires
        y <= x,
        rounded(y) == y,
    ensures
        y <= rounded(x),
{
    let unit = spacing(x) as int;
    let small = spacing(y) as int;
    let k = lemma_spacing_divides(y, x) as int;
    lemma_spacing_positive(x);
    lemma_spacing_positive(y);
    lemma_spacing_range(x);
    lemma_spacing_range(y);
    let q = x as int / unit;
    lemma_fundamental_div_mod(x as int, unit);
    lemma_mod_bound(x as int, unit);
    assert(q * unit <= (q + 1) * unit) by (nonlinear_arith)
        requires
            unit > 0,
    ;
    assert(unit == small * k);
    if k == 1 {
        let t = if rounded(y) == (y / spacing(y)) * spacing(y) {
            y as int / small
        } else {
            y as int / small + 1
        };
        assert(y == t * unit);
        assert(t <= q) by (nonlinear_arith)
            requires
                t * unit <= x,
                x == unit * q + x as int % unit,
                x as int % unit < unit,
                unit > 0,
        ;
        assert(t * unit <= q * unit) by (nonlinear_arith)
            requires
                t <= q,
                unit > 0,
        ;
    } else {
        assert(2 * small <= unit) by (nonlinear_arith)
            requires
                unit == small * k,
                k != 1,
                unit > 0,
                small > 0,
        ;
        assert(0x80_0000 <= q) by (nonlinear_arith)
            requires
                0x80_0000 * unit <= x,
                x == unit * q + x as int % unit,
                x as int % unit < unit,
                unit > 0,
        ;
        assert(0x80_0000 * unit <= q * unit) by (nonlinear_arith)
            requires
                0x80_0000 <= q,
                unit > 0,
        ;
    }
}

/// Rounding does not carry a number up past a binary32 number.
pub proof fn lemma_rounded_stays_below(x: nat, y: nat)
    requires
        x <= y,
        rounded(y) == y,
    ensures
        rounded(x) <= y,
{
    if x < y {
        let unit = spacing(x) as int;
        let big = spacing(y) as int;
        let k = lemma_spacing_divides(x, y) as int;
        lemma_spacing_positive(x);
        lemma_spacing_positive(y);
        let q = x as int / unit;
        let t = if rounded(y) == (y / spacing(y)) * spacing(y) {
            y as int / big
        } else {
            y as int / big + 1
        };
        assert(y == t * big);
        lemma_fundamental_div_mod(x as int, unit);
        lemma_mod_bound(x as int, unit);
        assert(y == (t * k) * unit) by (nonlinear_arith)
            requires
                y == t * big,
                big == unit * k,
        ;
        assert(q < t * k) by (nonlinear_arith)
            requires
                x < y,
                x == unit * q + x as int % unit,
                x as int % unit >= 0,
                y == (t * k) * unit,
                unit > 0,
        ;
        assert((q + 1) * unit <= (t * k) * unit) by (nonlinear_arith)
            requires
                q + 1 <= t * k,
                unit > 0,
        ;
        assert(q * unit <= (q + 1) * unit) by (nonlinear_arith)
            requires
                unit > 0,
        ;
    }
}

/// A number of up to 24 bits is a binary32 number at every scale.
pub proof fn lemma_scaled_is_exact(n: nat, k: nat)
    requires
        n < 0x100_0000,
    ensures
        rounded(n * pow2(k)) == n * pow2(k),
    decreases k,
{
    if k == 0 {
        lemma2_to64();
        lemma_small_is_exact(n);
    } else {
        let p = n * pow2((k - 1) as nat);
        lemma_scaled_is_exact(n, (k - 1) as nat);
        lemma_pow2_unfold(k);
        assert(n * pow2(k) == 2 * p) by (nonlinear_arith)
            requires
                pow2(k) == 2 * pow2((k - 1) as nat),
                p == n * pow2((k - 1) as nat),
        ;
        if 2 * p < 0x100_0000 {
            lemma_small_is_exact(2 * p);
        } else {
            lemma_rounded_doubles(p);
        }
    }
}

/// No number up to one makes a whole number of up to 24 bits larger, and one leaves it as it is.
pub proof fn law_scaling_does_not_grow(n: nat, magnitude: u32)
    requires
        n < 0x100_0000,
        magnitude <= ONE,
    ensures
        nearest(product(n, magnitude as int)) <= n,
        cut_off(product(n, magnitude as int)) <= n,
        magnitude == ONE ==> nearest(product(n, magnitude as int)) == n && cut_off(
            product(n, magnitude as int),
        ) == n,
{
    let steps = magnitude_steps(magnitude as int);
    let one = pow2(149) as int;
    lemma2_to64();
    lemma_pow2_adds(23, 126);
    lemma_pow2_unfold(150);
    lemma_pow2_pos(149);
    assert(magnitude_steps(ONE as int) == one) by {
        assert(ONE as int / 0x80_0000 == 127 && ONE as int % 0x80_0000 == 0);
    }
    law_rank_orders_values(Number { bits: magnitude }, Number { bits: ONE });
    law_rank_orders_values(Number { bits: ONE }, Number { bits: magnitude });
    law_rank_orders_values(Number { bits: magnitude }, Number { bits: 0 });
    assert(0 <= steps <= one);
    lemma_small_is_exact(n);
    lemma_scaled_is_exact(n, 149);
    let top = (n * one) as nat;
    assert(n * steps <= top) by (nonlinear_arith)
        requires
            steps <= one,
            top == n * one,
            n >= 0,
    ;
    assert(0 <= n * steps) by (nonlinear_arith)
        requires
            0 <= steps,
            0 <= n,
    ;
    lemma_rounded_stays_below((n * steps) as nat, top);
    let made = product(n, magnitude as int) as int;
    assert(made <= top);
    assert((2 * made + one) / (2 * one) <= n) by (nonlinear_arith)
        requires
            made <= n * one,
            one > 0,
    ;
    assert(made / one <= n) by (nonlinear_arith)
        requires
            made <= n * one,
            one > 0,
    ;
    if magnitude == ONE {
        assert((2 * (n * one) + one) / (2 * one) == n) by (nonlinear_arith)
            requires
                one > 0,
        ;
        assert((n * one) / one == n) by (nonlinear_arith)
            requires
                one > 0,
        ;
    }
}

/// Nothing of a whole number, and any part of nothing, is nothing.
pub proof fn law_nothing_stays_nothing(n: nat)
    ensures
        nearest(product(n, 0)) == 0,
        cut_off(product(n, 0)) == 0,
        forall|magnitude: int| #[trigger] product(0, magnitude) == 0,
{
    assert(magnitude_steps(0) == 0);
    assert(rounded(n) * 0 == 0);
    lemma_small_is_exact(0);
    lemma_pow2_pos(149);
    lemma_pow2_unfold(150);
    lemma_basic_div(0, pow2(149) as int);
    lemma_basic_div(pow2(149) as int, pow2(150) as int);
    assert forall|magnitude: int| #[trigger] product(0, magnitude) == 0 by {
        assert(0 * magnitude_steps(magnitude) == 0);
    }
}

/// The pixel a coordinate is on: the nearest whole number, a half going away from zero.
pub open spec fn pixel(n: Number) -> int {
    let size = nearest(magnitude_steps(n.magnitude()) as nat) as int;
    if n.negative() {
        -size
    } else {
        size
    }
}

/// The nearest whole number to a magnitude, or two to the power of 31 where it is further out.
pub(crate) fn size_of(magnitude: u32) -> (size: u32)
    requires
        magnitude <= INFINITY,
    ensures
        size <= 0x8000_0000,
        size < 0x8000_0000 ==> size == nearest(magnitude_steps(magnitude as int) as nat),
        size == 0x8000_0000 ==> nearest(magnitude_steps(magnitude as int) as nat) >= 0x8000_0000,
{
    let e: u32 = magnitude / 0x80_0000;
    let f: u32 = magnitude % 0x80_0000;
    proof {
        lemma2_to64();
        lemma2_to64_rest();
    }
    if e == 0 {
        proof {
            lemma_nearest(f as nat, 149);
            lemma_pow2_large(149);
            assert(f * pow2(0) == f);
            lemma_basic_div(2 * f + pow2(149), 2 * pow2(149) as int);
        }
        return 0;
    }
    let m: u32 = 0x80_0000 + f;
    let ghost k = (e - 1) as nat;
    assert(magnitude_steps(magnitude as int) == m * pow2(k));
    if e >= 150 {
        let ghost up = (e - 150) as nat;
        proof {
            lemma_pow2_adds(149, up);
            lemma_pow2_pos(up);
            assert(m * pow2(k) == (m * pow2(up)) * pow2(149)) by (nonlinear_arith)
                requires
                    pow2(k) == pow2(149) * pow2(up),
            ;
            assert(0 <= m * pow2(up)) by (nonlinear_arith);
            lemma_whole(m * pow2(up));
        }
        if e >= 158 {
            proof {
                if e > 158 {
                    lemma_pow2_strictly_increases(8, up);
                }
                assert(m * pow2(up) >= 0x8000_0000) by (nonlinear_arith)
                    requires
                        m >= 0x80_0000,
                        pow2(up) >= 256,
                ;
            }
            return 0x8000_0000;
        }
        proof {
            if up < 7 {
                lemma_pow2_strictly_increases(up, 7);
            }
            assert(m * pow2(up) < 0x8000_0000) by (nonlinear_arith)
                requires
                    m < 0x100_0000,
                    pow2(up) <= 128,
            ;
        }
        let d: u128 = power_of_two(e - 150);
        return (m as u128 * d) as u32;
    }
    let cut: u32 = 150 - e;
    proof {
        lemma_nearest(m as nat, cut as nat);
    }
    if cut >= 26 {
        proof {
            if cut > 26 {
                lemma_pow2_strictly_increases(26, cut as nat);
            }
            lemma_basic_div(2 * m + pow2(cut as nat), 2 * pow2(cut as nat) as int);
        }
        return 0;
    }
    let d: u128 = power_of_two(cut);
    let size: u128 = (2 * m as u128 + d) / (2 * d);
    proof {
        lemma_div_is_ordered_by_denominator(2 * m + d, 1, 2 * d as int);
        if cut < 26 {
            lemma_pow2_strictly_increases(cut as nat, 26);
        }
    }
    size as u32
}

/// Whole numbers are their own nearest.
proof fn lemma_whole(n: int)
    requires
        0 <= n,
    ensures
        nearest((n * pow2(149)) as nat) == n,
        0 <= n * pow2(149),
{
    let one = pow2(149) as int;
    lemma_pow2_pos(149);
    lemma_pow2_unfold(150);
    assert(0 <= n * one) by (nonlinear_arith)
        requires
            0 <= n,
            0 < one,
    ;
    assert((2 * (n * one) + one) / (2 * one) == n) by (nonlinear_arith)
        requires
            one > 0,
    ;
}

/// A whole number of pixels is on itself, whichever sign it has.
pub proof fn law_whole_pixels_stay(n: Number, at: int)
    requires
        n.is_finite(),
        n.steps() == at * pow2(149),
    ensures
        pixel(n) == at,
{
    let steps = magnitude_steps(n.magnitude());
    lemma_pow2_pos(149);
    law_rank_orders_values(n, Number { bits: 0 });
    law_rank_orders_values(Number { bits: 0 }, n);
    assert(magnitude_steps(0) == 0);
    let one = pow2(149) as int;
    if n.negative() {
        assert(steps == (-at) * one) by (nonlinear_arith)
            requires
                -steps == at * one,
        ;
        assert(at <= 0) by (nonlinear_arith)
            requires
                at * one <= 0,
                one > 0,
        ;
        lemma_whole(-at);
    } else {
        assert(at >= 0) by (nonlinear_arith)
            requires
                at * one >= 0,
                one > 0,
        ;
        lemma_whole(at);
    }
}

} // verus!
