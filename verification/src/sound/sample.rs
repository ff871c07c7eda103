//! A sample as sixteen bits: a binary32 number between minus one and one, spread over the whole
//! numbers from -32767 to 32767.

use vstd::prelude::*;

use crate::arith::one;
use crate::number::{Number, SIGN};
use crate::rounding::{
    cut_off, law_nothing_stays_nothing, law_scaling_does_not_grow, product, times_cut_off,
};

verus! {

/// What full scale is spread over. Not 32768: the smallest 16-bit number has no positive
/// counterpart, and a sample of exactly one would wrap to it.
pub const FULL_SCALE: u64 = 32767;

/// Minus one, as a binary32 number.
pub open spec fn minus_one() -> Number {
    Number { bits: 0xbf80_0000 }
}

/// The level of a sample: pulled back between minus one and one, times full scale as binary32
/// numbers multiply, and cut off after the point. What is not a number is silence.
pub open spec fn level_of(s: Number) -> int {
    if !s.is_number() {
        0
    } else {
        let c = s.clamped(minus_one(), one());
        let size = cut_off(product(FULL_SCALE as nat, c.magnitude()));
        if c.negative() {
            -(size as int)
        } else {
            size as int
        }
    }
}

/// The level of a sample. See [`level_of`].
pub fn level(s: Number) -> (out: i16)
    ensures
        out == level_of(s),
        -32767 <= out <= 32767,
{
    if s.is_nan() {
        return 0;
    }
    let c: Number = s.clamp(Number { bits: 0xbf80_0000 }, Number { bits: 0x3f80_0000 });
    if c.bits >= SIGN {
        proof {
            law_scaling_does_not_grow(FULL_SCALE as nat, (c.bits - SIGN) as u32);
        }
        let size: u128 = times_cut_off(FULL_SCALE, c.bits - SIGN);
        -(size as i16)
    } else {
        proof {
            law_scaling_does_not_grow(FULL_SCALE as nat, c.bits);
        }
        let size: u128 = times_cut_off(FULL_SCALE, c.bits);
        size as i16
    }
}

/// A full-scale sample of either sign keeps its sign and its size, and so does silence.
pub proof fn law_full_scale_does_not_wrap()
    ensures
        level_of(one()) == 32767,
        level_of(minus_one()) == -32767,
        level_of(Number { bits: 0 }) == 0,
{
    law_scaling_does_not_grow(FULL_SCALE as nat, 0x3f80_0000);
    law_nothing_stays_nothing(FULL_SCALE as nat);
}

} // verus!
