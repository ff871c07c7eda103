//! Binary32 numbers as text with a fixed count of decimal places.

use vstd::arithmetic::div_mod::*;
use vstd::arithmetic::power2::*;
use vstd::prelude::*;
use vstd::string::*;

use crate::arith::{
    lemma_bits_increase, lemma_ratio_stays_above, lemma_ratio_stays_below, lemma_ratio_vanishes,
    lemma_scaled_division, lemma_size_is_exact, lemma_steps_are_sizes, number_of, ratio, split,
};
use crate::number::{
    INFINITY, Number, SIGN, law_rank_orders_values, lemma_steps_nonnegative, num,
};
use crate::rounding::power_of_two;
use crate::text::{
    decimal, digit, digits_value, is_white, law_decimal_reads_back, push_large,
};
use crate::whole::{is_whole, lemma_parts_are_exact, lemma_size_between};

verus! {

broadcast use vstd::string::group_string_axioms;

/// Ten to a power.
pub open spec fn pow10(places: nat) -> nat
    decreases places,
{
    if places == 0 {
        1
    } else {
        10 * pow10((places - 1) as nat)
    }
}

/// The whole number nearest to `n / d`, and of two that are equally near the even one.
pub open spec fn half_even(n: nat, d: nat) -> nat {
    let (q, r) = (n / d, n % d);
    if 2 * r < d || (2 * r == d && q % 2 == 0) {
        q
    } else {
        (q + 1) as nat
    }
}

/// A number's size in units of its last decimal place.
pub open spec fn in_places(n: Number, places: nat) -> nat {
    half_even(n.size() * pow10(places), pow2(149))
}

/// The last digits of a whole number, with zeros in front where it has fewer.
pub open spec fn last_digits(n: nat, places: nat) -> Seq<char>
    decreases places,
{
    if places == 0 {
        Seq::empty()
    } else {
        last_digits(n / 10, (places - 1) as nat).push(digit(n % 10))
    }
}

/// A count of units of the last decimal place, as text.
pub open spec fn point_text(units: nat, places: nat) -> Seq<char> {
    decimal(units / pow10(places)) + if places == 0 {
        Seq::empty()
    } else {
        seq!['.'] + last_digits(units, places)
    }
}

/// A number as text with so many decimal places: the nearest such decimal, and of two that are
/// equally near the even one. A number below zero has a minus sign, a negative zero too.
pub open spec fn fixed(n: Number, places: nat) -> Seq<char> {
    if !n.is_number() {
        "NaN"@
    } else {
        (if n.negative() {
            seq!['-']
        } else {
            Seq::empty()
        }) + if n.is_infinite() {
            "inf"@
        } else {
            point_text(in_places(n, places), places)
        }
    }
}

proof fn lemma_pow10(places: nat)
    requires
        places <= 9,
    ensures
        1 <= pow10(places) <= 1_000_000_000,
    decreases places,
{
    reveal_with_fuel(pow10, 11);
}

/// Only the digits that are written matter.
proof fn lemma_last_digits(n: nat, places: nat)
    ensures
        pow10(places) > 0,
        last_digits(n % pow10(places), places) == last_digits(n, places),
    decreases places,
{
    if places > 0 {
        let p = pow10((places - 1) as nat);
        lemma_last_digits(n / 10, (places - 1) as nat);
        let cut = n % (10 * p);
        lemma_breakdown(n as int, 10, p as int);
        lemma_mod_breakdown(n as int, 10, p as int);
        assert(cut == 10 * ((n / 10) % p) + n % 10);
        assert(cut / 10 == (n / 10) % p && cut % 10 == n % 10);
    }
}

/// Writes the last digits of a whole number.
fn push_digits(out: &mut String, n: u64, places: u32)
    ensures
        final(out)@ == old(out)@ + last_digits(n as nat, places as nat),
    decreases places,
{
    if places > 0 {
        push_digits(out, n / 10, places - 1);
        let d: u8 = (n % 10) as u8;
        let c: char = (48u8 + d) as char;
        assert(c == digit(n as nat % 10));
        out.push(c);
        assert(out@ =~= old(out)@ + last_digits(n as nat, places as nat));
    } else {
        assert(out@ =~= old(out)@ + last_digits(n as nat, 0));
    }
}

/// Writes a whole part and the digits behind the point.
fn push_point(out: &mut String, whole: u128, rest: u64, places: u32, units: Ghost<nat>)
    requires
        whole == units@ / pow10(places as nat),
        rest == units@ % pow10(places as nat),
    ensures
        final(out)@ == old(out)@ + point_text(units@, places as nat),
{
    push_large(out, whole);
    if places > 0 {
        out.push('.');
        push_digits(out, rest, places);
        proof {
            lemma_last_digits(units@, places as nat);
        }
    }
    assert(out@ =~= old(out)@ + point_text(units@, places as nat));
}

fn ten_to(places: u32) -> (t: u64)
    requires
        places <= 9,
    ensures
        t == pow10(places as nat),
        1 <= t <= 1_000_000_000,
{
    let mut t: u64 = 1;
    let mut i: u32 = 0;
    while i < places
        invariant
            i <= places <= 9,
            t == pow10(i as nat),
        decreases places - i,
    {
        proof {
            lemma_pow10(i as nat);
        }
        t = 10 * t;
        i = i + 1;
    }
    proof {
        lemma_pow10(places as nat);
    }
    t
}

/// A significand that is moved up by a power of two.
fn moved_up(m: u32, up: u32) -> (whole: u128)
    requires
        m < 0x100_0000,
        up <= 104,
    ensures
        whole == m * pow2(up as nat),
{
    let mut whole: u128 = m as u128;
    let mut i: u32 = 0;
    proof {
        lemma2_to64();
        assert(m * pow2(0) == m);
    }
    while i < up
        invariant
            i <= up <= 104,
            m < 0x100_0000,
            whole == m * pow2(i as nat),
        decreases up - i,
    {
        proof {
            lemma_pow2_unfold(i as nat + 1);
            lemma2_to64();
            lemma2_to64_rest();
            lemma_pow2_adds(i as nat, (103 - i) as nat);
            lemma_pow2_adds(50, 53);
            lemma_pow2_pos((103 - i) as nat);
            assert(pow2(i as nat) <= pow2(103)) by (nonlinear_arith)
                requires
                    pow2(103) == pow2(i as nat) * pow2((103 - i) as nat),
                    pow2((103 - i) as nat) >= 1,
            ;
            assert(whole <= 0xff_ffff * pow2(103)) by (nonlinear_arith)
                requires
                    whole == m * pow2(i as nat),
                    m <= 0xff_ffff,
                    pow2(i as nat) <= pow2(103),
            ;
            assert(m * (2 * pow2(i as nat)) == 2 * (m * pow2(i as nat))) by (nonlinear_arith);
        }
        whole = 2 * whole;
        i = i + 1;
    }
    whole
}

/// A common factor does not matter.
proof fn lemma_half_even_cancels(n: nat, d: nat, k: nat)
    requires
        0 < d,
        0 < k,
    ensures
        half_even(n * k, d * k) == half_even(n, d),
{
    lemma_scaled_division(n as int, d as int, k as int);
    let r = n as int % d as int;
    assert((2 * (r * k) < d * k) == (2 * r < d)) by (nonlinear_arith)
        requires
            k > 0,
    ;
    assert((2 * (r * k) == d * k) == (2 * r == d)) by (nonlinear_arith)
        requires
            k > 0,
    ;
}

/// Writes a finite number without its sign.
fn push_size(out: &mut String, n: Number, magnitude: u32, places: u32)
    requires
        n.is_finite(),
        magnitude == n.magnitude(),
        places <= 9,
    ensures
        final(out)@ == old(out)@ + point_text(in_places(n, places as nat), places as nat),
{
    let (m, k): (u32, u32) = split(magnitude);
    let t: u64 = ten_to(places);
    let ghost (one, size, units) = (
        pow2(149) as int,
        n.size() as int,
        in_places(n, places as nat),
    );
    proof {
        lemma_steps_are_sizes(n);
        lemma_pow2_pos(149);
        lemma2_to64();
        lemma2_to64_rest();
    }
    if k >= 149 {
        let whole: u128 = moved_up(m, k - 149);
        proof {
            let w = whole as int;
            lemma_pow2_adds((k - 149) as nat, 149);
            assert(size * t == ((w * t) * one)) by (nonlinear_arith)
                requires
                    size == m * pow2(k as nat),
                    pow2(k as nat) == pow2((k - 149) as nat) * one,
                    w == m * pow2((k - 149) as nat),
            ;
            assert(1 * one == one);
            lemma_half_even_cancels((w * t) as nat, 1, one as nat);
            assert((w * t) / 1 == w * t && (w * t) % 1 == 0);
            assert(units == w * t);
            lemma_div_multiples_vanish(w, t as int);
            lemma_mod_multiples_basic(w, t as int);
            assert(t * w == w * t) by (nonlinear_arith);
        }
        push_point(out, whole, 0, places, Ghost(units));
        return;
    }
    let down: u32 = 149 - k;
    assert(m * t <= 0xff_ffff * 1_000_000_000) by (nonlinear_arith)
        requires
            m <= 0xff_ffff,
            t <= 1_000_000_000,
    ;
    let n_units: u64 = m as u64 * t;
    let ghost part = pow2(down as nat);
    proof {
        lemma_pow2_adds(down as nat, k as nat);
        lemma_pow2_pos(k as nat);
        lemma_pow2_pos(down as nat);
        assert(size * t == n_units * pow2(k as nat)) by (nonlinear_arith)
            requires
                size == m * pow2(k as nat),
                n_units == m * t,
        ;
        lemma_half_even_cancels(n_units as nat, part, pow2(k as nat));
    }
    if down >= 60 {
        proof {
            if down > 60 {
                lemma_pow2_strictly_increases(60, down as nat);
            }
            lemma_basic_div(n_units as int, part as int);
            lemma_small_mod(n_units as nat, part);
            lemma_basic_div(0, t as int);
            lemma_small_mod(0, t as nat);
        }
        push_point(out, 0, 0, places, Ghost(units));
        return;
    }
    let d: u128 = power_of_two(down);
    proof {
        if down < 60 {
            lemma_pow2_strictly_increases(down as nat, 60);
        }
        lemma_div_is_ordered_by_denominator(n_units as int, 1, d as int);
        lemma_mod_bound(n_units as int, d as int);
    }
    let (q, r): (u64, u64) = ((n_units as u128 / d) as u64, (n_units as u128 % d) as u64);
    let nearest: u64 = if 2 * (r as u128) < d || (2 * (r as u128) == d && q % 2 == 0) {
        q
    } else {
        q + 1
    };
    assert(nearest == units);
    push_point(out, (nearest / t) as u128, nearest % t, places, Ghost(units));
}

/// Writes a number with so many decimal places. See [`fixed`].
pub fn push_fixed(out: &mut String, n: Number, places: u32)
    requires
        places <= 9,
    ensures
        final(out)@ == old(out)@ + fixed(n, places as nat),
{
    if n.is_nan() {
        out.append("NaN");
        return;
    }
    let magnitude: u32 = if n.bits >= SIGN {
        out.push('-');
        n.bits - SIGN
    } else {
        n.bits
    };
    let ghost before = out@;
    if magnitude == INFINITY {
        out.append("inf");
    } else {
        push_size(out, n, magnitude, places);
    }
    assert(out@ =~= old(out)@ + fixed(n, places as nat));
}

/// The digits of an unsigned decimal, and how many of them are behind the point.
pub open spec fn decimal_parts(word: Seq<char>) -> Option<(nat, nat)> {
    if word.contains('.') {
        let at = word.index_of('.');
        match digits_value(word.take(at) + word.skip(at + 1)) {
            Some(units) => Some((units, (word.len() - at - 1) as nat)),
            None => None,
        }
    } else {
        match digits_value(word) {
            Some(units) => Some((units, 0)),
            None => None,
        }
    }
}

/// The number nearest to a decimal, and of two that are equally near the even one.
pub open spec fn nearest_decimal(units: nat, places: nat) -> Number {
    number_of(ratio(units * pow2(149), pow10(places)), false)
}

/// What an unsigned decimal reads as, if it is one: the nearest number.
pub open spec fn unsigned_number(word: Seq<char>) -> Option<Number> {
    match decimal_parts(word) {
        Some((units, places)) => Some(nearest_decimal(units, places)),
        None => None,
    }
}

/// What a decimal reads as, if it is one: the nearest number, with the sign in front of it.
pub open spec fn decimal_number(word: Seq<char>) -> Option<Number> {
    if word.len() > 0 && word[0] == '-' {
        match unsigned_number(word.drop_first()) {
            Some(n) => Some(n.negated()),
            None => None,
        }
    } else if word.len() > 0 && word[0] == '+' {
        unsigned_number(word.drop_first())
    } else {
        unsigned_number(word)
    }
}

/// A decimal is digits and nothing else.
proof fn lemma_decimal_is_digits(n: nat)
    ensures
        decimal(n).len() > 0,
        forall|i: int| 0 <= i < decimal(n).len() ==> '0' <= #[trigger] decimal(n)[i] <= '9',
    decreases n,
{
    if n >= 10 {
        lemma_decimal_is_digits(n / 10);
    }
}

proof fn lemma_last_digits_are_digits(n: nat, places: nat)
    ensures
        last_digits(n, places).len() == places,
        forall|i: int|
            0 <= i < places ==> '0' <= #[trigger] last_digits(n, places)[i] <= '9',
    decreases places,
{
    if places > 0 {
        lemma_last_digits_are_digits(n / 10, (places - 1) as nat);
    }
}

/// There is no white space in a number's text, and something is.
pub proof fn lemma_fixed_has_no_white_space(n: Number, places: nat)
    ensures
        fixed(n, places).len() > 0,
        forall|i: int|
            0 <= i < fixed(n, places).len() ==> !is_white(#[trigger] fixed(n, places)[i]),
{
    reveal_strlit("NaN");
    reveal_strlit("inf");
    let units = in_places(n, places);
    lemma_decimal_is_digits(units / pow10(places));
    lemma_last_digits_are_digits(units, places);
}

/// The digits on either side of the point stand for the units together.
proof fn lemma_units_read_back(units: nat, places: nat)
    ensures
        digits_value(decimal(units / pow10(places)) + last_digits(units, places)) == Some(units),
    decreases places,
{
    if places == 0 {
        law_decimal_reads_back(units);
        assert(units / pow10(0) == units);
        assert(decimal(units) + last_digits(units, 0) =~= decimal(units));
    } else {
        let fewer = (places - 1) as nat;
        lemma_last_digits(units, fewer);
        lemma_div_denominator(units as int, 10, pow10(fewer) as int);
        lemma_units_read_back(units / 10, fewer);
        let front = decimal(units / pow10(places));
        let all = front + last_digits(units, places);
        lemma_last_digits_are_digits(units, places);
        assert(units / pow10(places) == (units / 10) / pow10(fewer));
        assert(all.drop_last() =~= front + last_digits(units / 10, fewer));
        assert(all.last() == digit(units % 10));
        lemma_decimal_is_digits(units / pow10(places));
        assert(all.len() > 1);
        assert('0' <= all.last() <= '9');
        assert(all.last() as int - '0' as int == units % 10);
    }
}

proof fn lemma_point_text_reads_back(units: nat, places: nat)
    ensures
        decimal_parts(point_text(units, places)) == Some((units, places)),
{
    let word = point_text(units, places);
    let (front, back) = (decimal(units / pow10(places)), last_digits(units, places));
    lemma_decimal_is_digits(units / pow10(places));
    lemma_last_digits_are_digits(units, places);
    lemma_units_read_back(units, places);
    if places == 0 {
        assert(word =~= front + back);
    } else {
        assert(word[front.len() as int] == '.');
        assert forall|i: int| 0 <= i < word.len() && i != front.len() implies word[i] != '.' by {
            if i < front.len() {
                assert(word[i] == front[i]);
            } else {
                assert(word[i] == back[i - front.len() - 1]);
            }
        }
        assert(word.index_of('.') == front.len());
        assert(word.take(front.len() as int) + word.skip(front.len() as int + 1) =~= front + back);
    }
}

/// The number nearest to a short decimal has that decimal's units again, and is near to it.
pub proof fn lemma_short_decimal(units: nat, places: nat)
    requires
        places <= 2,
        units < 500 * pow10(places),
    ensures
        nearest_decimal(units, places).is_finite(),
        !nearest_decimal(units, places).negative(),
        in_places(nearest_decimal(units, places), places) == units,
        ({
            let (t, one) = (pow10(places) as int, pow2(149) as int);
            let off = nearest_decimal(units, places).size() * t - units * one;
            -(t * one) <= 0x8000 * off <= t * one
        }),
{
    let (t, one) = (pow10(places) as int, pow2(149) as int);
    reveal_with_fuel(pow10, 4);
    lemma2_to64();
    lemma_pow2_adds(15, 134);
    lemma_pow2_pos(134);
    lemma_pow2_pos(149);
    let (cut, steps) = (pow2(134) as int, (units * pow2(149)) as nat);
    let a = (units * 0x8000) as int / t;
    lemma_fundamental_div_mod((units * 0x8000) as int, t);
    lemma_mod_bound((units * 0x8000) as int, t);
    assert(0 <= a < 0xff_ffff) by (nonlinear_arith)
        requires
            units * 0x8000 == t * a + (units * 0x8000) as int % t,
            0 <= (units * 0x8000) as int % t < t,
            0 <= units < 500 * t,
            1 <= t,
    ;
    let (lo, hi) = (a * cut, (a + 1) * cut);
    assert(lo * t <= steps <= hi * t && 0 <= lo) by (nonlinear_arith)
        requires
            lo == a * cut,
            hi == (a + 1) * cut,
            steps == units * one,
            one == 0x8000 * cut,
            cut > 0,
            0 <= a,
            units * 0x8000 == t * a + (units * 0x8000) as int % t,
            0 <= (units * 0x8000) as int % t < t,
    ;
    lemma_parts_are_exact(a as nat, 134);
    lemma_parts_are_exact((a + 1) as nat, 134);
    lemma_ratio_stays_above(steps, t as nat, lo as nat);
    lemma_ratio_stays_below(steps, t as nat, hi as nat);
    lemma_size_between(lo as nat, hi as nat, ratio(steps, t as nat));
    let n = nearest_decimal(units, places);
    let size = n.size() as int;
    assert(lo <= size <= hi);
    let near = size * t;
    assert(hi == lo + cut) by (nonlinear_arith)
        requires
            lo == a * cut,
            hi == (a + 1) * cut,
    ;
    assert(-one < 2 * (near - units * one) < one) by (nonlinear_arith)
        requires
            near == size * t,
            lo <= size <= hi,
            hi == lo + cut,
            lo * t <= units * one <= hi * t,
            1 <= t <= 100,
            one == 0x8000 * cut,
            cut > 0,
    ;
    assert(-(t * one) <= 0x8000 * (near - units * one) <= t * one) by (nonlinear_arith)
        requires
            near == size * t,
            lo <= size <= hi,
            hi == lo + cut,
            lo * t <= units * one <= hi * t,
            1 <= t,
            one == 0x8000 * cut,
            cut > 0,
    ;
    if near >= units * one {
        let r = near - units * one;
        assert(one * units == units * one) by (nonlinear_arith);
        lemma_fundamental_div_mod_converse(near, one, units as int, r);
    } else {
        let r = near - (units - 1) * one;
        assert(near == one * (units - 1) + r && 0 <= r < one) by (nonlinear_arith)
            requires
                r == near - (units - 1) * one,
                near < units * one,
                -one < 2 * (near - units * one),
                one > 0,
        ;
        lemma_fundamental_div_mod_converse(near, one, units - 1, r);
        assert(2 * r > one) by (nonlinear_arith)
            requires
                r == near - (units - 1) * one,
                -one < 2 * (near - units * one),
        ;
    }
}

/// A number that a short decimal stands for is written as that decimal, and reads back as itself.
pub proof fn law_short_decimals_read_back(units: nat, places: nat)
    requires
        places <= 2,
        units < 500 * pow10(places),
    ensures
        fixed(nearest_decimal(units, places), places) == point_text(units, places),
        decimal_number(fixed(nearest_decimal(units, places), places)) == Some(
            nearest_decimal(units, places),
        ),
{
    lemma_short_decimal(units, places);
    lemma_point_text_reads_back(units, places);
    lemma_decimal_is_digits(units / pow10(places));
    let n = nearest_decimal(units, places);
    assert(fixed(n, places) =~= point_text(units, places));
    assert('0' <= point_text(units, places)[0] <= '9');
}

/// What is between two whole numbers is rounded between them.
proof fn lemma_half_even_between(n: nat, d: nat, lo: nat, hi: nat)
    requires
        0 < d,
        lo * d <= n <= hi * d,
    ensures
        lo <= half_even(n, d) <= hi,
        -(d as int) <= 2 * (half_even(n, d) * d - n) <= d,
{
    let (q, r) = (n as int / d as int, n as int % d as int);
    lemma_fundamental_div_mod(n as int, d as int);
    lemma_mod_bound(n as int, d as int);
    assert(lo <= q <= hi && (r > 0 ==> q < hi)) by (nonlinear_arith)
        requires
            lo * d <= n <= hi * d,
            n == d * q + r,
            0 <= r < d,
    ;
    assert(q * d == d * q && (q + 1) * d == d * q + d) by (nonlinear_arith);
}

/// The number nearest to a decimal that is between two whole numbers is between them.
proof fn lemma_decimal_between(units: nat, places: nat, lo: Number, hi: Number, ends: (nat, nat))
    requires
        is_whole(lo, ends.0 as int),
        is_whole(hi, ends.1 as int),
        !lo.negative(),
        !hi.negative(),
        ends.0 * pow10(places) <= units <= ends.1 * pow10(places),
    ensures
        lo.le(nearest_decimal(units, places)),
        nearest_decimal(units, places).le(hi),
{
    let (t, one) = (pow10(places), pow2(149));
    lemma_last_digits(0, places);
    lemma_pow2_pos(149);
    lemma_steps_are_sizes(lo);
    lemma_steps_are_sizes(hi);
    lemma_size_is_exact(lo);
    lemma_size_is_exact(hi);
    assert(lo.size() * t <= units * one <= hi.size() * t) by (nonlinear_arith)
        requires
            lo.size() == ends.0 * one,
            hi.size() == ends.1 * one,
            ends.0 * t <= units <= ends.1 * t,
    ;
    let steps = (units * one) as nat;
    lemma_ratio_stays_above(steps, t, lo.size());
    lemma_ratio_stays_below(steps, t, hi.size());
    lemma_bits_increase(lo.size(), ratio(steps, t));
    lemma_bits_increase(ratio(steps, t), hi.size());
}

/// Two numbers are no further apart than half a unit of the last place, and a little.
pub open spec fn are_near(a: Number, b: Number, places: nat) -> bool {
    let (far, part) = (a.steps() - b.steps(), 51 * pow2(149) as int);
    -part <= 100 * pow10(places) * far <= part
}

/// What a number reads as once it has been written: the number that its text stands for.
pub open spec fn reread(n: Number, places: nat) -> Number {
    if n.negative() {
        nearest_decimal(in_places(n, places), places).negated()
    } else {
        nearest_decimal(in_places(n, places), places)
    }
}

/// A number between two whole numbers that is written and read again stays between them, moves by
/// no more than half a unit of the last place and a little, and then moves no more.
pub proof fn law_a_number_settles(
    n: Number,
    places: nat,
    lo: Number,
    hi: Number,
    ends: (nat, nat),
)
    requires
        places <= 2,
        is_whole(lo, ends.0 as int),
        is_whole(hi, ends.1 as int),
        !lo.negative(),
        !hi.negative(),
        ends.1 < 500,
        lo.le(n),
        n.le(hi),
    ensures
        decimal_number(fixed(n, places)) == Some(reread(n, places)),
        lo.le(reread(n, places)),
        reread(n, places).le(hi),
        are_near(reread(n, places), n, places),
        reread(reread(n, places), places) == reread(n, places),
{
    let (t, one) = (pow10(places) as int, pow2(149) as int);
    reveal_with_fuel(pow10, 4);
    lemma_pow2_pos(149);
    lemma_steps_are_sizes(n);
    lemma_steps_are_sizes(lo);
    lemma_steps_are_sizes(hi);
    law_rank_orders_values(n, lo);
    law_rank_orders_values(hi, n);
    lemma_steps_nonnegative(n.magnitude());
    let (size, units) = (n.size() as int, in_places(n, places));
    assert(ends.0 * one <= size <= ends.1 * one);
    assert((ends.0 * t) * one <= size * t <= (ends.1 * t) * one) by (nonlinear_arith)
        requires
            ends.0 * one <= size <= ends.1 * one,
            1 <= t,
    ;
    lemma_half_even_between(
        (size * t) as nat,
        one as nat,
        (ends.0 * t) as nat,
        (ends.1 * t) as nat,
    );
    assert(units < 500 * t) by (nonlinear_arith)
        requires
            units <= ends.1 * t,
            ends.1 < 500,
            1 <= t,
    ;
    lemma_short_decimal(units, places);
    law_short_decimals_read_back(units, places);
    lemma_decimal_between(units, places, lo, hi, ends);
    let (text, near) = (point_text(units, places), nearest_decimal(units, places));
    let got = near.size() as int;
    assert(-(51 * one) <= 100 * t * (got - size) <= 51 * one) by (nonlinear_arith)
        requires
            -one <= 2 * (units * one - size * t) <= one,
            -(t * one) <= 0x8000 * (got * t - units * one) <= t * one,
            1 <= t <= 100,
            one > 0,
    ;
    lemma_steps_are_sizes(near);
    if n.negative() {
        assert(size == 0);
        lemma_ratio_vanishes(0, t as nat);
        assert(units == 0) by {
            assert(0 * t == 0);
            lemma_basic_div(0, one);
            lemma_small_mod(0, one as nat);
        }
        assert(near == num(0));
        assert(fixed(n, places) =~= seq!['-'] + text);
        assert(fixed(n, places).drop_first() =~= text);
        lemma_point_text_reads_back(units, places);
        assert(in_places(near.negated(), places) == units);
    } else {
        assert(fixed(n, places) =~= text);
        assert(fixed(near, places) =~= text);
    }
}

} // verus!
