//! The generator behind every particle's jitter.

use vstd::arithmetic::power2::*;
use vstd::prelude::*;

use crate::arith::{
    fraction, fraction_of, law_a_part_is_no_larger, law_products_commute, lemma_bits_increase,
    lemma_one, lemma_product_is_number, lemma_size_is_exact, lemma_sum_goes_up, one,
};
use crate::number::{Number, SIGN, num};
use crate::order::{law_products_keep_order, law_sums_keep_order, lemma_sums_commute};
use crate::rounding::{
    lemma_rounded_stays_above, lemma_rounded_stays_below, lemma_scaled_is_exact, rounded,
};

verus! {

/// The state a generator starts in when no seed is given, or when the seed is zero.
pub const DEFAULT_STATE: u32 = 0x9e37_79b9;

/// One step of the 32-bit xorshift with shifts 13, 17 and 5.
pub open spec fn xorshift(x: u32) -> u32 {
    let a = x ^ (x << 13u32);
    let b = a ^ (a >> 17u32);
    b ^ (b << 5u32)
}

/// The generator's state after `n` steps from `x`.
pub open spec fn xorshift_iter(x: u32, n: nat) -> u32
    decreases n,
{
    if n == 0 {
        x
    } else {
        xorshift(xorshift_iter(x, (n - 1) as nat))
    }
}

/// A xorshift generator. Its state is never zero, the one value a xorshift never leaves.
#[derive(Clone, Copy, Debug, PartialEq, Eq)]
pub struct JuiceRng {
    state: u32,
}

impl JuiceRng {
    /// The state the next number is drawn from.
    pub closed spec fn state(&self) -> u32 {
        self.state
    }

    /// The generator can leave its state: the state is not zero.
    pub open spec fn wf(&self) -> bool {
        self.state() != 0
    }

    /// A generator in the default state.
    pub fn new() -> (rng: JuiceRng)
        ensures
            rng.state() == DEFAULT_STATE,
            rng.wf(),
    {
        JuiceRng { state: DEFAULT_STATE }
    }

    /// A generator that starts at `seed`, or in the default state when `seed` is zero.
    pub fn seeded(seed: u32) -> (rng: JuiceRng)
        ensures
            rng.state() == (if seed == 0 { DEFAULT_STATE } else { seed }),
            rng.wf(),
    {
        JuiceRng { state: if seed == 0 { DEFAULT_STATE } else { seed } }
    }

    /// Steps the generator and returns its new state.
    pub fn next_u32(&mut self) -> (drawn: u32)
        ensures
            drawn == xorshift(old(self).state()),
            final(self).state() == drawn,
            old(self).wf() ==> final(self).wf(),
    {
        let mut x: u32 = self.state;
        proof {
            law_xorshift_injective(x, 0);
            assert(xorshift(0) == 0) by (bit_vector);
        }
        x = x ^ (x << 13u32);
        x = x ^ (x >> 17u32);
        x = x ^ (x << 5u32);
        self.state = x;
        x
    }

    /// Steps the generator and returns its new state as a fraction: from 0, and below 1.
    pub fn rand(&mut self) -> (drawn: Number)
        ensures
            drawn == unit(xorshift(old(self).state())),
            num(0).le(drawn),
            drawn.lt(one()),
            final(self).state() == xorshift(old(self).state()),
            old(self).wf() ==> final(self).wf(),
    {
        proof {
            law_a_draw_is_below_one(xorshift(self.state()));
        }
        let drawn: Number = fraction_of(self.next_u32());
        if drawn.less(one()) {
            drawn
        } else {
            num(0x3f7f_ffff)
        }
    }

    /// Steps the generator and returns a number of a range: from `a`, and below `b`.
    pub fn rand_range(&mut self, a: Number, b: Number) -> (drawn: Number)
        ensures
            drawn == ranged(a, b, xorshift(old(self).state())),
            a.is_finite() && b.is_finite() && a.lt(b) && b.difference(a).is_finite() ==> a.le(drawn)
                && drawn.lt(b),
            final(self).state() == xorshift(old(self).state()),
            old(self).wf() ==> final(self).wf(),
    {
        let ghost word = xorshift(self.state());
        let part: Number = self.rand();
        let drawn: Number = a.plus(b.minus(a).times(part));
        proof {
            if a.is_finite() && b.is_finite() && a.lt(b) && b.difference(a).is_finite() {
                law_a_draw_is_in_its_range(a, b, word);
            }
        }
        if a.less(b) && b.at_most(drawn) {
            next_below(b)
        } else {
            drawn
        }
    }
}

/// A word as a fraction from 0 and below 1: the nearest one, but for the words so near to 1 that
/// only 1 is nearer than the last number below it.
pub open spec fn unit(word: u32) -> Number {
    if fraction(word).lt(one()) {
        fraction(word)
    } else {
        num(0x3f7f_ffff)
    }
}

/// The largest number below another, of which there is one below all but the least.
pub open spec fn below(n: Number) -> Number {
    Number {
        bits: if n.is_zero_spec() {
            0x8000_0001
        } else if n.negative() {
            (n.bits + 1) as u32
        } else {
            (n.bits - 1) as u32
        },
    }
}

fn next_below(n: Number) -> (out: Number)
    requires
        n.is_number(),
        n.rank() > -0x7f80_0000,
    ensures
        out == below(n),
{
    if n.is_zero() {
        Number { bits: 0x8000_0001 }
    } else if n.bits >= SIGN {
        Number { bits: n.bits + 1 }
    } else {
        Number { bits: n.bits - 1 }
    }
}

/// A word as a number from `a` and below `b`: the fraction of the way that the word is, or the last
/// number below `b` where that is rounded up to `b` or past it.
pub open spec fn ranged(a: Number, b: Number, word: u32) -> Number {
    let drawn = a.sum(b.difference(a).product(unit(word)));
    if a.lt(b) && b.le(drawn) {
        below(b)
    } else {
        drawn
    }
}

/// A draw is never negative, and never reaches one.
pub proof fn law_a_draw_is_below_one(word: u32)
    ensures
        num(0).le(unit(word)),
        unit(word).lt(one()),
{
    reveal(fraction);
}

/// A draw is as large as its word: one of the first `k` parts of 256 of all words gives no more than
/// that part of one, and one past them no less.
pub proof fn law_a_draw_is_as_large_as_its_word(word: u32, k: nat, part: Number)
    requires
        k <= 256,
        part.is_finite(),
        part.steps() == k * pow2(141),
        !part.negative(),
    ensures
        word <= k * 0x100_0000 ==> unit(word).le(part),
        k * 0x100_0000 <= word ==> part.le(unit(word)),
{
    reveal(fraction);
    let (mark, at) = (k * 0x100_0000, rounded(word as nat));
    lemma2_to64();
    lemma_pow2_adds(24, 117);
    lemma_pow2_adds(32, 117);
    lemma_pow2_pos(117);
    lemma_scaled_is_exact(k, 24);
    lemma_scaled_is_exact(256, 24);
    lemma_rounded_stays_below(word as nat, 0x1_0000_0000);
    assert(mark * pow2(117) == k * pow2(141)) by (nonlinear_arith)
        requires
            mark == k * 0x100_0000,
            pow2(141) == 0x100_0000 * pow2(117),
    ;
    lemma_size_is_exact(part);
    crate::number::lemma_steps_nonnegative(part.magnitude());
    lemma_one();
    lemma_size_is_exact(one());
    assert(at * pow2(117) <= 0x1_0000_0000 * pow2(117)) by (nonlinear_arith)
        requires
            at <= 0x1_0000_0000,
    ;
    lemma_bits_increase(at * pow2(117), pow2(149));
    if word <= mark {
        lemma_rounded_stays_below(word as nat, mark);
        assert(at * pow2(117) <= mark * pow2(117)) by (nonlinear_arith)
            requires
                at <= mark,
        ;
        lemma_bits_increase(at * pow2(117), k * pow2(141));
    }
    if mark <= word {
        lemma_rounded_stays_above(word as nat, mark);
        assert(mark * pow2(117) <= at * pow2(117)) by (nonlinear_arith)
            requires
                mark <= at,
        ;
        lemma_bits_increase(k * pow2(141), at * pow2(117));
        let last = num(0x3f7f_ffff);
        lemma_pow2_adds(6, 119);
        lemma_pow2_adds(16, 125);
        assert(k * pow2(141) <= 255 * pow2(141)) by (nonlinear_arith)
            requires
                k <= 255,
        ;
        assert(last.size() == 0xff_ffff * pow2(125));
        lemma_bits_increase(255 * pow2(141), last.size());
        lemma_size_is_exact(last);
    }
}

/// A draw of a range goes with its word too: it is no further from the start than the part of the
/// way that its word is past, and no nearer, as far as the range goes.
pub proof fn law_a_draw_goes_as_far_as_its_word(
    a: Number,
    b: Number,
    word: u32,
    k: nat,
    part: Number,
)
    requires
        a.is_finite(),
        b.is_finite(),
        a.lt(b),
        b.difference(a).is_finite(),
        k <= 256,
        part.is_finite(),
        part.steps() == k * pow2(141),
        !part.negative(),
    ensures
        word <= k * 0x100_0000 ==> ranged(a, b, word).le(a.sum(b.difference(a).product(part))),
        k * 0x100_0000 <= word && a.sum(b.difference(a).product(part)).lt(b) ==> a.sum(
            b.difference(a).product(part),
        ).le(ranged(a, b, word)),
{
    let (way, at) = (b.difference(a), unit(word));
    law_a_draw_is_as_large_as_its_word(word, k, part);
    law_a_draw_is_below_one(word);
    reveal(fraction);
    assert(!way.negative()) by {
        reveal(Number::sum);
        crate::number::law_rank_orders_values(a, b);
        assert(a.negated().magnitude() == a.magnitude());
    }
    assert(part.magnitude() <= 0x3f80_0000) by {
        lemma2_to64();
        lemma_pow2_adds(8, 141);
        lemma_one();
        lemma_size_is_exact(one());
        lemma_size_is_exact(part);
        crate::number::lemma_steps_nonnegative(part.magnitude());
        assert(k * pow2(141) <= 256 * pow2(141)) by (nonlinear_arith)
            requires
                k <= 256,
        ;
        lemma_bits_increase(k * pow2(141), pow2(149));
    }
    law_a_part_is_no_larger(way, part);
    law_a_part_is_no_larger(way, at);
    lemma_product_is_number(way, part);
    lemma_product_is_number(way, at);
    law_products_commute(way, part);
    law_products_commute(way, at);
    lemma_sums_commute(a, way.product(part));
    lemma_sums_commute(a, way.product(at));
    lemma_sum_goes_up(a, way.product(part));
    lemma_sum_goes_up(a, way.product(at));
    if at.le(part) {
        law_products_keep_order(at, part, way);
        law_sums_keep_order(way.product(at), way.product(part), a);
    }
    if part.le(at) {
        law_products_keep_order(part, at, way);
        law_sums_keep_order(way.product(part), way.product(at), a);
    }
}

/// A draw of a range is in it, and never reaches its end.
pub proof fn law_a_draw_is_in_its_range(a: Number, b: Number, word: u32)
    requires
        a.is_finite(),
        b.is_finite(),
        a.lt(b),
        b.difference(a).is_finite(),
    ensures
        a.le(ranged(a, b, word)),
        ranged(a, b, word).lt(b),
{
    let (way, part) = (b.difference(a), unit(word));
    law_a_draw_is_below_one(word);
    reveal(fraction);
    assert(!way.negative()) by {
        reveal(Number::sum);
        crate::number::law_rank_orders_values(a, b);
        assert(a.negated().magnitude() == a.magnitude());
    }
    law_a_part_is_no_larger(way, part);
    lemma_product_is_number(way, part);
    lemma_sum_goes_up(a, way.product(part));
}

impl Default for JuiceRng {
    fn default() -> (rng: JuiceRng)
        ensures
            rng.state() == DEFAULT_STATE,
    {
        JuiceRng::new()
    }
}

/// No two states step to the same one: the generator never merges two streams.
pub proof fn law_xorshift_injective(x: u32, y: u32)
    ensures
        xorshift(x) == xorshift(y) ==> x == y,
{
    assert(xorshift(x) == xorshift(y) ==> x == y) by (bit_vector);
}

/// However many numbers are drawn, a generator that starts non-zero stays non-zero.
pub proof fn law_never_zero(x: u32, n: nat)
    requires
        x != 0,
    ensures
        xorshift_iter(x, n) != 0,
    decreases n,
{
    if n > 0 {
        law_never_zero(x, (n - 1) as nat);
        law_xorshift_injective(xorshift_iter(x, (n - 1) as nat), 0);
        assert(xorshift(0) == 0) by (bit_vector);
    }
}

} // verus!
