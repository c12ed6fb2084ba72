//! Single-precision numbers, read from their bit patterns.
//!
//! The samples that reach the mixer are IEEE-754 single-precision numbers.
//! Here they are carried as their 32-bit patterns and their arithmetic is
//! done on integers. This module says what a pattern stands for and what
//! the operations of the format give: the exact result, rounded to the
//! nearest number of the format, a tie going to the one whose last place is
//! even.
//!
//! Every finite number of the format is a whole multiple of 2^-149. Values
//! are counted in units of 2^-150, half of that, so that half of a number
//! of the format is still a whole count.

use crate::rounding::{lemma_canonical_rounds_to_itself, lemma_rounded_is_even};
use vstd::arithmetic::power2::{lemma2_to64, lemma_pow2_unfold, pow2};
use vstd::prelude::*;

verus! {

/// What a pattern, or the result of an operation, stands for.
pub enum Number {
    /// Not a number.
    NaN,
    /// An infinity.
    Infinite { negative: bool },
    /// A finite value, as a count of units of 2^-150. The two zeros of the
    /// format are one value here: no operation of the mixer tells them
    /// apart.
    Finite { units: int },
}

/// The absolute value of `units`.
pub open spec fn magnitude(units: int) -> nat {
    if units < 0 {
        (-units) as nat
    } else {
        units as nat
    }
}

/// The count `magnitude` with the sign that `negative` gives.
pub open spec fn signed(negative: bool, magnitude: nat) -> int {
    if negative {
        -(magnitude as int)
    } else {
        magnitude as int
    }
}

/// What the pattern `bits` stands for: the top bit is the sign, the next
/// eight the exponent, the low twenty-three the fraction. The exponent 255
/// marks infinities (fraction zero) and NaNs; the exponent zero marks the
/// numbers without a leading one.
pub open spec fn decode(bits: u32) -> Number {
    let fraction = (bits % 0x80_0000) as nat;
    let exponent = ((bits / 0x80_0000) % 0x100) as nat;
    let negative = bits >= 0x8000_0000u32;
    if exponent == 255 {
        if fraction == 0 {
            Number::Infinite { negative }
        } else {
            Number::NaN
        }
    } else if exponent == 0 {
        Number::Finite { units: signed(negative, fraction * 2) }
    } else {
        Number::Finite { units: signed(negative, (0x80_0000 + fraction) * pow2(exponent)) }
    }
}

/// The count of units that makes the number one.
pub open spec fn one() -> nat {
    pow2(150)
}

/// The count of units of a finite pattern.
pub open spec fn units_of(bits: u32) -> int
    recommends
        decode(bits) is Finite,
{
    decode(bits)->units
}

/// Whether `bits` stands for a number between minus one and one, the
/// range of audio samples.
pub open spec fn within_one(bits: u32) -> bool {
    decode(bits) is Finite && -one() <= units_of(bits) <= one()
}

/// The exponent of the spacing of the format around the magnitude `m`:
/// numbers of the format near `m` lie `pow2(spacing_exponent(m))` units
/// apart. Below 2^25 units the spacing is two units; from there on it
/// doubles with every doubling of the magnitude, which keeps twenty-four
/// significant bits.
pub open spec fn spacing_exponent(m: nat) -> nat
    decreases m,
{
    if m < 0x200_0000 {
        1
    } else {
        1 + spacing_exponent(m / 2)
    }
}

/// The multiple of `q` nearest to `z`; of two that are equally near, the
/// even multiple.
pub open spec fn nearest_even(z: nat, q: nat) -> nat {
    let below = z / q;
    let rest = z % q;
    if 2 * rest < q || (2 * rest == q && below % 2 == 0) {
        below * q
    } else {
        (below + 1) * q
    }
}

/// The number of the format that an exact result of `units` units rounds
/// to: the nearest one, ties to even, and an infinity where that reaches
/// 2^128, which lies beyond the largest finite number.
pub open spec fn rounded(units: int) -> Number {
    let m = magnitude(units);
    let nearest = nearest_even(m, pow2(spacing_exponent(m)));
    if nearest >= pow2(278) {
        Number::Infinite { negative: units < 0 }
    } else {
        Number::Finite { units: signed(units < 0, nearest) }
    }
}

/// The sum of two numbers, as the format gives it.
pub open spec fn sum(a: Number, b: Number) -> Number {
    match (a, b) {
        (Number::NaN, _) => Number::NaN,
        (_, Number::NaN) => Number::NaN,
        (Number::Infinite { negative: x }, Number::Infinite { negative: y }) => if x == y {
            a
        } else {
            Number::NaN
        },
        (Number::Infinite { .. }, Number::Finite { .. }) => a,
        (Number::Finite { .. }, Number::Infinite { .. }) => b,
        (Number::Finite { units: x }, Number::Finite { units: y }) => rounded(x + y),
    }
}

/// Half of a number, as the format gives it. A number of the format is an
/// even count of units, so its half is a whole count.
pub open spec fn half(a: Number) -> Number {
    match a {
        Number::Finite { units } => rounded(signed(units < 0, magnitude(units) / 2)),
        _ => a,
    }
}

/// The largest 16-bit sample, by which a number is scaled.
pub const PCM_SCALE: u32 = 32767;

/// A number times `PCM_SCALE`, as the format gives it.
pub open spec fn scaled(a: Number) -> Number {
    match a {
        Number::Finite { units } => rounded(units * PCM_SCALE),
        _ => a,
    }
}

/// The 16-bit sample nearest to a number: halves go away from zero, what
/// lies beyond the 16-bit range goes to its nearest end, and what is not a
/// number goes to zero.
pub open spec fn to_pcm(a: Number) -> i16 {
    match a {
        Number::NaN => 0i16,
        Number::Infinite { negative } => if negative {
            i16::MIN
        } else {
            i16::MAX
        },
        Number::Finite { units } => {
            let whole = (magnitude(units) + pow2(149)) / pow2(150);
            if units < 0 {
                if whole >= 32768 {
                    i16::MIN
                } else {
                    (-(whole as int)) as i16
                }
            } else {
                if whole >= 32767 {
                    i16::MAX
                } else {
                    whole as i16
                }
            }
        },
    }
}

/// The 16-bit sample of one single-precision sample: the sample times
/// 32767, rounded to the nearest whole number.
pub open spec fn quantized(bits: u32) -> i16 {
    to_pcm(scaled(decode(bits)))
}

/// The 16-bit sample of a left and a right single-precision sample: half
/// of their sum, times 32767, rounded to the nearest whole number.
pub open spec fn averaged(left: u32, right: u32) -> i16 {
    to_pcm(scaled(half(sum(decode(left), decode(right)))))
}

/// The model is of one piece: a finite pattern stands for a number of the
/// format, which rounding leaves as it is.
pub proof fn law_patterns_are_numbers_of_the_format(bits: u32)
    requires
        decode(bits) is Finite,
    ensures
        rounded(units_of(bits)) == decode(bits),
{
    let fraction = (bits % 0x80_0000) as nat;
    let exponent = ((bits / 0x80_0000) % 0x100) as nat;
    let negative = bits >= 0x8000_0000u32;
    lemma2_to64();
    if exponent == 0 {
        lemma_canonical_rounds_to_itself(negative, fraction, 1);
    } else {
        lemma_canonical_rounds_to_itself(negative, 0x80_0000 + fraction, exponent);
    }
}

/// Every finite number of the format is an even count of units, whether
/// it is read from a pattern or comes out of a rounding.
pub proof fn law_numbers_of_the_format_are_even(bits: u32, exact: int)
    ensures
        decode(bits) matches Number::Finite { units } ==> units % 2 == 0,
        rounded(exact) matches Number::Finite { units } ==> units % 2 == 0,
{
    let exponent = ((bits / 0x80_0000) % 0x100) as nat;
    if exponent > 0 {
        lemma_pow2_unfold(exponent);
    }
    let fraction = (bits % 0x80_0000) as nat;
    let lower = pow2((exponent - 1) as nat);
    assert(exponent > 0 ==> (0x80_0000 + fraction) * pow2(exponent) == 2 * ((0x80_0000 + fraction)
        * lower)) by (nonlinear_arith)
        requires
            exponent > 0 ==> pow2(exponent) == 2 * lower,
    ;
    lemma_rounded_is_even(exact);
}

} // verus!
