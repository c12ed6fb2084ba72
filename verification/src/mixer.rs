//! The channel mixer: folds interleaved single-precision samples down to
//! one channel of 16-bit samples.
//!
//! Samples come as the bit patterns of single-precision numbers. A mono
//! sample is scaled by 32767 and rounded to the nearest whole number; a
//! stereo pair is averaged first. Each step gives what the
//! single-precision format gives for it, so the result is the one that
//! the same steps give in hardware arithmetic. Nothing here fails: what
//! lies beyond the 16-bit range is cut off at its ends, and what is not a
//! number becomes zero.

use crate::binary32::{
    averaged, decode, half, magnitude, nearest_even, one, quantized, rounded, scaled, signed,
    spacing_exponent, sum, to_pcm, units_of, within_one, Number,
};
use crate::setup::ChannelLayout;
use crate::dyadic::{halve, pcm, plus, scale, unpack};
use crate::rounding::{lemma_pcm_in_range, lemma_rounded_within};
use vstd::arithmetic::div_mod::lemma_fundamental_div_mod_converse;
use vstd::arithmetic::power2::{
    lemma2_to64, lemma_pow2_adds, lemma_pow2_pos, lemma_pow2_unfold, pow2,
};
use vstd::prelude::*;

verus! {

/// The mono samples that the interleaved samples `samples` mix down to:
/// one per mono sample, one per stereo pair. A last stereo sample without
/// its partner is no pair and gives nothing.
pub open spec fn mixed(samples: Seq<u32>, layout: ChannelLayout) -> Seq<i16> {
    match layout {
        ChannelLayout::Mono => Seq::new(samples.len(), |i: int| quantized(samples[i])),
        ChannelLayout::Stereo => Seq::new(
            samples.len() / 2,
            |i: int| averaged(samples[2 * i], samples[2 * i + 1]),
        ),
    }
}

/// Whether `bits` is one of the two patterns of zero.
pub open spec fn is_zero(bits: u32) -> bool {
    bits == 0 || bits == 0x8000_0000u32
}

/// The pattern of the number opposite to the one of `bits`.
pub open spec fn negated(bits: u32) -> u32 {
    if bits >= 0x8000_0000u32 {
        (bits - 0x8000_0000) as u32
    } else {
        (bits + 0x8000_0000) as u32
    }
}

/// The 16-bit sample of one single-precision sample.
pub fn quantize(sample: u32) -> (mono: i16)
    ensures
        mono == quantized(sample),
{
    pcm(scale(unpack(sample)))
}

/// The 16-bit sample of a stereo pair of single-precision samples.
pub fn average(left: u32, right: u32) -> (mono: i16)
    ensures
        mono == averaged(left, right),
{
    pcm(scale(halve(plus(unpack(left), unpack(right)))))
}

/// Mixes a block of interleaved samples down to mono.
pub fn mix(samples: &[u32], layout: ChannelLayout) -> (mono: Vec<i16>)
    ensures
        mono@ == mixed(samples@, layout),
{
    let mut mono: Vec<i16> = Vec::new();
    match layout {
        ChannelLayout::Mono => {
            let mut i: usize = 0;
            while i < samples.len()
                invariant
                    i <= samples@.len(),
                    mono@.len() == i,
                    forall|j: int| 0 <= j < i ==> mono@[j] == quantized(samples@[j]),
                decreases samples@.len() - i,
            {
                mono.push(quantize(samples[i]));
                i += 1;
            }
        },
        ChannelLayout::Stereo => {
            let pairs: usize = samples.len() / 2;
            let mut i: usize = 0;
            while i < pairs
                invariant
                    i <= pairs,
                    pairs == samples@.len() / 2,
                    2 * pairs <= samples@.len() <= usize::MAX,
                    mono@.len() == i,
                    forall|j: int|
                        0 <= j < i ==> mono@[j] == averaged(samples@[2 * j], samples@[2 * j + 1]),
                decreases pairs - i,
            {
                mono.push(average(samples[2 * i], samples[2 * i + 1]));
                i += 1;
            }
        },
    }
    mono
}

/// Zero rounds to zero.
proof fn lemma_zero_rounds_to_zero()
    ensures
        rounded(0) == (Number::Finite { units: 0 }),
{
    lemma_pow2_pos(278);
    lemma_pow2_pos(1);
    assert(spacing_exponent(0) == 1);
    assert(nearest_even(0, pow2(1)) == 0) by {
        lemma_fundamental_div_mod_converse(0, pow2(1) as int, 0, 0);
    }
}

/// Zero stays zero through scaling and becomes the sample zero.
proof fn lemma_zero_is_silent()
    ensures
        to_pcm(scaled(Number::Finite { units: 0 })) == 0,
{
    lemma_zero_rounds_to_zero();
    lemma_pow2_unfold(150);
    lemma_pow2_pos(149);
    lemma_fundamental_div_mod_converse(
        pow2(149) as int,
        pow2(150) as int,
        0,
        pow2(149) as int,
    );
}

/// Both patterns of zero stand for the value zero.
proof fn lemma_zero_decodes_to_zero(bits: u32)
    requires
        is_zero(bits),
    ensures
        decode(bits) == (Number::Finite { units: 0 }),
{
}

/// The opposite pattern stands for the opposite number.
proof fn lemma_negated_decodes_opposite(bits: u32)
    ensures
        decode(bits) matches Number::Finite { units } ==> decode(negated(bits)) == (Number::Finite {
            units: -units,
        }),
{
    let fraction = (bits % 0x80_0000) as nat;
    let exponent = ((bits / 0x80_0000) % 0x100) as nat;
    lemma_pow2_pos(exponent);
    assert((0x80_0000 + fraction) * pow2(exponent) > 0) by (nonlinear_arith)
        requires
            pow2(exponent) > 0,
    ;
}

/// A sample between minus one and one is scaled and rounded: its 16-bit
/// sample is never cut off, and lies within a half and a 1024th of the
/// exact product of the sample and 32767. The half is the rounding to a
/// whole number; the 1024th is what the format may lose when it rounds
/// the product.
pub proof fn law_samples_in_range_are_scaled_and_rounded(sample: u32)
    requires
        within_one(sample),
    ensures
        -32767 <= quantized(sample) <= 32767,
        1024 * (quantized(sample) * one() - units_of(sample) * 32767) <= 513 * one(),
        1024 * (units_of(sample) * 32767 - quantized(sample) * one()) <= 513 * one(),
{
    lemma_scaled_in_range(units_of(sample));
    lemma_pcm_in_range(scaled(decode(sample))->units);
    lemma_pow2_adds(9, 141);
    lemma2_to64();
}

/// A stereo pair of samples between minus one and one is averaged, scaled
/// and rounded: its 16-bit sample is never cut off, and lies within a half
/// and a 64th of the exact product of the mean of the pair and 32767.
pub proof fn law_pairs_in_range_are_averaged_scaled_and_rounded(left: u32, right: u32)
    requires
        within_one(left),
        within_one(right),
    ensures
        -32767 <= averaged(left, right) <= 32767,
        32 * (2 * averaged(left, right) * one() - (units_of(left) + units_of(right)) * 32767) <= 33
            * one(),
        32 * ((units_of(left) + units_of(right)) * 32767 - 2 * averaged(left, right) * one()) <= 33
            * one(),
{
    let x = units_of(left);
    let y = units_of(right);
    let unit = pow2(127);
    lemma2_to64();
    lemma_pow2_pos(127);
    lemma_pow2_adds(23, 127);
    lemma_pow2_adds(24, 127);
    lemma_pow2_adds(23, 128);
    lemma_pow2_adds(14, 127);
    // The sum lies within twice the range.
    lemma_rounded_within(x + y, 0x80_0000, 128);
    let a = sum(decode(left), decode(right))->units;
    // Its half lies within the range.
    let halved = signed(a < 0, magnitude(a) / 2);
    lemma_rounded_within(halved, 0x80_0000, 127);
    let h = half(sum(decode(left), decode(right)))->units;
    // Scaled, it becomes a sample.
    lemma_scaled_in_range(h);
    let r = scaled(Number::Finite { units: h })->units;
    lemma_pcm_in_range(r);
    let p = averaged(left, right) as int;
    assert(-(4 * unit) - 1 <= 2 * h - (x + y) <= 4 * unit + 1);
    assert(32 * (2 * (p * one()) - (x + y) * 32767) <= 33 * one()) by (nonlinear_arith)
        requires
            2 * h - (x + y) <= 4 * unit + 1,
            2 * (r - h * 32767) <= 0x4000 * unit,
            2 * (p * one() - r) <= one(),
            one() == 0x80_0000 * unit,
            unit >= 1,
    ;
    assert(32 * ((x + y) * 32767 - 2 * (p * one())) <= 33 * one()) by (nonlinear_arith)
        requires
            (x + y) - 2 * h <= 4 * unit + 1,
            2 * (h * 32767 - r) <= 0x4000 * unit,
            2 * (r - p * one()) <= one(),
            one() == 0x80_0000 * unit,
            unit >= 1,
    ;
    assert(2 * averaged(left, right) * one() == 2 * (p * one())) by (nonlinear_arith)
        requires
            p == averaged(left, right) as int,
    ;
}

/// A value of at most one, scaled, stays within the 16-bit range and
/// within half a spacing of the exact product; the spacing there is at
/// most 2^141 units.
proof fn lemma_scaled_in_range(units: int)
    requires
        -one() <= units <= one(),
    ensures
        scaled(Number::Finite { units }) is Finite,
        ({
            let r = scaled(Number::Finite { units })->units;
            &&& magnitude(r) <= 32767 * one()
            &&& 2 * (r - units * 32767) <= pow2(141)
            &&& 2 * (units * 32767 - r) <= pow2(141)
        }),
{
    lemma2_to64();
    lemma_pow2_adds(9, 141);
    lemma_pow2_pos(141);
    assert(magnitude(units * 32767) <= (32767 * 512) * pow2(141)) by (nonlinear_arith)
        requires
            -one() <= units <= one(),
            one() == 512 * pow2(141),
    ;
    lemma_rounded_within(units * 32767, 32767 * 512, 141);
    assert((32767 * 512) * pow2(141) == 32767 * one()) by (nonlinear_arith)
        requires
            one() == 512 * pow2(141),
    ;
}

/// Silence stays silence: a block of zeros mixes down to zeros, one for
/// every mono sample and one for every stereo pair, whatever its length.
pub proof fn law_silence_mixes_to_silence(samples: Seq<u32>, layout: ChannelLayout)
    requires
        forall|i: int| 0 <= i < samples.len() ==> is_zero(#[trigger] samples[i]),
    ensures
        mixed(samples, layout).len() == samples.len() / layout.count(),
        forall|i: int| 0 <= i < mixed(samples, layout).len() ==> mixed(samples, layout)[i] == 0,
{
    lemma_zero_rounds_to_zero();
    lemma_zero_is_silent();
    assert forall|i: int| 0 <= i < mixed(samples, layout).len() implies mixed(samples, layout)[i]
        == 0 by {
        match layout {
            ChannelLayout::Mono => {
                lemma_zero_decodes_to_zero(samples[i]);
            },
            ChannelLayout::Stereo => {
                lemma_zero_decodes_to_zero(samples[2 * i]);
                lemma_zero_decodes_to_zero(samples[2 * i + 1]);
            },
        }
    }
}

/// Opposite channels cancel: a stereo pair of a finite sample and its
/// opposite mixes down to zero, whichever of the two is left.
pub proof fn law_opposite_channels_cancel(sample: u32)
    requires
        decode(sample) is Finite,
    ensures
        averaged(sample, negated(sample)) == 0,
        averaged(negated(sample), sample) == 0,
{
    lemma_negated_decodes_opposite(sample);
    lemma_zero_rounds_to_zero();
    lemma_zero_is_silent();
}

/// The mixer gives one sample per frame of the block: as many as the
/// block has samples per channel.
pub proof fn law_mixed_length(samples: Seq<u32>, layout: ChannelLayout)
    ensures
        mixed(samples, layout).len() == samples.len() / layout.count(),
{
}

} // verus!
