//! The operations of the single-precision format, carried out on machine
//! integers: a finite value is held as `sig * 2^exp` units with its sign.

use crate::binary32::{
    decode, half, magnitude, nearest_even, rounded, scaled, signed, spacing_exponent, sum,
    to_pcm, Number, PCM_SCALE,
};
use crate::rounding::{
    lemma_dyadic_binade, lemma_overflow, lemma_pow2_increases, lemma_round_coarse,
    lemma_round_exact, lemma_small_div_converse_zero, lemma_sum_absorbs, lemma_whole_above,
    lemma_whole_below,
};
use vstd::arithmetic::div_mod::lemma_fundamental_div_mod;
use vstd::arithmetic::mul::{
    lemma_mul_inequality, lemma_mul_is_associative, lemma_mul_strict_inequality,
};
use vstd::arithmetic::power2::{
    lemma2_to64, lemma2_to64_rest, lemma_pow2_adds, lemma_pow2_pos, lemma_pow2_unfold, pow2,
};
use vstd::bits::{lemma_u64_pow2_no_overflow, lemma_u64_shl_is_mul};
use vstd::prelude::*;

verus! {

/// A value in the course of a computation: not a number, an infinity, or
/// the finite value `sig * 2^exp` units with its sign.
#[derive(Clone, Copy)]
pub enum Value {
    NaN,
    Infinite { negative: bool },
    Finite { negative: bool, sig: u64, exp: u32 },
}

impl Value {
    /// The number that the value stands for.
    pub open spec fn number(self) -> Number {
        match self {
            Value::NaN => Number::NaN,
            Value::Infinite { negative } => Number::Infinite { negative },
            Value::Finite { negative, sig, exp } => Number::Finite {
                units: signed(negative, sig as nat * pow2(exp as nat)),
            },
        }
    }

    /// Whether the value is written as the format writes its numbers: at
    /// most twenty-four significant bits, an exponent from 1 to 254, and a
    /// full significand wherever the exponent is above the lowest.
    pub open spec fn canonical(self) -> bool {
        match self {
            Value::Finite { sig, exp, .. } => sig < 0x100_0000 && 1 <= exp <= 254 && (sig
                >= 0x80_0000 || exp == 1),
            _ => true,
        }
    }
}

/// The power of two with exponent `k`.
pub fn pow2_u64(k: u32) -> (p: u64)
    requires
        k < 64,
    ensures
        p == pow2(k as nat),
{
    proof {
        lemma_u64_pow2_no_overflow(k as nat);
        lemma_u64_shl_is_mul(1, k as u64);
    }
    1u64 << (k as u64)
}

/// The number of bits that it takes to write `x`.
pub fn bit_length(x: u64) -> (bits: u32)
    requires
        0 < x < 0x100_0000_0000_0000,
    ensures
        1 <= bits <= 56,
        pow2((bits - 1) as nat) <= x < pow2(bits as nat),
{
    let mut bits: u32 = 1;
    let mut bound: u64 = 2;
    proof {
        lemma2_to64();
        lemma2_to64_rest();
    }
    while bound <= x
        invariant
            1 <= bits <= 56,
            bound == pow2(bits as nat),
            pow2((bits - 1) as nat) <= x < 0x100_0000_0000_0000,
        decreases 56 - bits,
    {
        proof {
            lemma2_to64_rest();
            lemma_pow2_unfold((bits + 1) as nat);
            lemma_pow2_pos(bits as nat);
            if bits >= 56 {
                lemma_pow2_increases(56, bits as nat);
            }
        }
        bound = bound * 2;
        bits += 1;
    }
    bits
}

/// Rounds the exact value `sig * 2^exp` units, with its sign, to the
/// format.
pub fn round_dyadic(negative: bool, sig: u64, exp: u32) -> (value: Value)
    requires
        sig < 0x100_0000_0000_0000,
        exp <= 254,
    ensures
        value.number() == rounded(signed(negative, sig as nat * pow2(exp as nat))),
        value.canonical(),
{
    proof {
        lemma2_to64();
        lemma_pow2_pos(exp as nat);
    }
    if sig == 0 {
        proof {
            assert(sig as nat * pow2(exp as nat) == 0) by (nonlinear_arith)
                requires
                    sig == 0,
            ;
            assert(spacing_exponent(0) == 1);
            assert(nearest_even(0, 2) == 0);
            lemma_pow2_increases(0, 278);
        }
        return Value::Finite { negative, sig: 0, exp: 1 };
    }
    let bits = bit_length(sig);
    let top: u32 = bits + exp;
    let spacing: u32 = if top <= 25 {
        1
    } else {
        top - 24
    };
    let ghost m: nat = sig as nat * pow2(exp as nat);
    proof {
        lemma_dyadic_binade(sig as nat, bits as nat, exp as nat);
        assert(m > 0) by (nonlinear_arith)
            requires
                m == sig as nat * pow2(exp as nat),
                sig > 0,
                pow2(exp as nat) > 0,
        ;
        assert(magnitude(signed(negative, m)) == m);
        assert((signed(negative, m) < 0) == negative);
    }
    if spacing <= exp {
        // The value is a number of the format already; it is only written
        // with as full a significand as its exponent allows.
        let room: u32 = 24 - bits;
        let slack: u32 = exp - 1;
        let shift: u32 = if room <= slack {
            room
        } else {
            slack
        };
        let factor = pow2_u64(shift);
        proof {
            lemma_round_exact(sig as nat, bits as nat, exp as nat);
            lemma_pow2_adds(bits as nat, shift as nat);
            lemma_pow2_adds((bits - 1) as nat, shift as nat);
            lemma_pow2_increases((bits + shift) as nat, 24);
            lemma_mul_strict_inequality(sig as int, pow2(bits as nat) as int, factor as int);
            lemma_mul_inequality(pow2((bits - 1) as nat) as int, sig as int, factor as int);
            lemma_pow2_adds(shift as nat, (exp - shift) as nat);
            lemma_mul_is_associative(
                sig as int,
                factor as int,
                pow2((exp - shift) as nat) as int,
            );
            lemma_pow2_increases((bits + exp) as nat, 278);
        }
        Value::Finite { negative, sig: sig * factor, exp: exp - shift }
    } else {
        // The spacing is `2^k` times coarser than the value is written:
        // the significand loses its `k` low bits to the nearest even.
        let k: u32 = spacing - exp;
        let q = pow2_u64(k);
        let below = sig / q;
        let rest = sig % q;
        proof {
            lemma_round_coarse(sig as nat, bits as nat, exp as nat, k as nat);
            lemma_pow2_adds(k as nat, exp as nat);
            lemma_pow2_increases(k as nat, 32);
            lemma_fundamental_div_mod(sig as int, q as int);
            if spacing > 1 {
                lemma_pow2_adds(23, k as nat);
                lemma_pow2_adds(24, k as nat);
                assert(below >= 0x80_0000) by (nonlinear_arith)
                    requires
                        sig == q * below + rest,
                        0 <= rest < q,
                        sig >= 0x80_0000 * q,
                ;
                assert(below < 0x100_0000) by (nonlinear_arith)
                    requires
                        sig == q * below + rest,
                        0 <= rest < q,
                        sig < 0x100_0000 * q,
                ;
            } else {
                lemma_pow2_increases(bits as nat, 25);
            }
        }
        let up: bool = 2 * rest > q || (2 * rest == q && below % 2 == 1);
        let n: u64 = if up {
            below + 1
        } else {
            below
        };
        proof {
            assert(nearest_even(sig as nat, q as nat) == n * q);
            assert(n * q * pow2(exp as nat) == n * pow2(spacing as nat)) by (nonlinear_arith)
                requires
                    pow2(spacing as nat) == q * pow2(exp as nat),
            ;
        }
        // Rounding up may carry into a twenty-fifth bit.
        let carried: bool = n == 0x100_0000;
        let sig2: u64 = if carried {
            0x80_0000
        } else {
            n
        };
        let exp2: u32 = if carried {
            spacing + 1
        } else {
            spacing
        };
        proof {
            if carried {
                lemma_pow2_unfold((spacing + 1) as nat);
                assert(n * pow2(spacing as nat) == sig2 * pow2(exp2 as nat)) by (nonlinear_arith)
                    requires
                        n == 0x100_0000,
                        sig2 == 0x80_0000,
                        pow2(exp2 as nat) == 2 * pow2(spacing as nat),
                ;
            }
            if sig2 >= 0x80_0000 {
                lemma_overflow(sig2 as nat, exp2 as nat);
            } else {
                lemma_pow2_increases(25, 278);
                assert(sig2 * pow2(exp2 as nat) < pow2(278)) by (nonlinear_arith)
                    requires
                        sig2 < 0x80_0000,
                        pow2(exp2 as nat) == 2,
                        pow2(278) >= 0x200_0000,
                ;
            }
        }
        if exp2 >= 255 {
            Value::Infinite { negative }
        } else {
            Value::Finite { negative, sig: sig2, exp: exp2 }
        }
    }
}

/// Reads a pattern.
pub fn unpack(bits: u32) -> (value: Value)
    ensures
        value.number() == decode(bits),
        value.canonical(),
{
    let fraction: u32 = bits % 0x80_0000;
    let exponent: u32 = (bits / 0x80_0000) % 0x100;
    let negative: bool = bits >= 0x8000_0000;
    proof {
        lemma2_to64();
    }
    if exponent == 255 {
        if fraction == 0 {
            Value::Infinite { negative }
        } else {
            Value::NaN
        }
    } else if exponent == 0 {
        Value::Finite { negative, sig: fraction as u64, exp: 1 }
    } else {
        Value::Finite { negative, sig: 0x80_0000 + fraction as u64, exp: exponent }
    }
}

/// The sum of two values, as the format gives it.
pub fn plus(a: Value, b: Value) -> (value: Value)
    requires
        a.canonical(),
        b.canonical(),
    ensures
        value.number() == sum(a.number(), b.number()),
        value.canonical(),
{
    match (a, b) {
        (Value::NaN, _) => Value::NaN,
        (_, Value::NaN) => Value::NaN,
        (Value::Infinite { negative: x }, Value::Infinite { negative: y }) => if x == y {
            a
        } else {
            Value::NaN
        },
        (Value::Infinite { .. }, Value::Finite { .. }) => a,
        (Value::Finite { .. }, Value::Infinite { .. }) => b,
        (
            Value::Finite { negative: n1, sig: s1, exp: e1 },
            Value::Finite { negative: n2, sig: s2, exp: e2 },
        ) => {
            if e1 >= e2 {
                add_aligned(n1, s1, e1, n2, s2, e2)
            } else {
                add_aligned(n2, s2, e2, n1, s1, e1)
            }
        },
    }
}

/// The sum of two finite values of which the first has the exponent that
/// is no smaller.
fn add_aligned(n1: bool, s1: u64, e1: u32, n2: bool, s2: u64, e2: u32) -> (value: Value)
    requires
        (Value::Finite { negative: n1, sig: s1, exp: e1 }).canonical(),
        (Value::Finite { negative: n2, sig: s2, exp: e2 }).canonical(),
        e1 >= e2,
    ensures
        value.number() == rounded(
            signed(n1, s1 as nat * pow2(e1 as nat)) + signed(n2, s2 as nat * pow2(e2 as nat)),
        ),
        value.canonical(),
{
    let gap: u32 = e1 - e2;
    let ghost x = signed(n1, s1 as nat * pow2(e1 as nat));
    let ghost y = signed(n2, s2 as nat * pow2(e2 as nat));
    proof {
        lemma2_to64();
        lemma_pow2_pos(e2 as nat);
        lemma_pow2_adds(gap as nat, e2 as nat);
    }
    if gap > 30 {
        // The second value is less than a quarter of the last place of the
        // first and is absorbed.
        proof {
            lemma_pow2_adds(26, (e1 - 26) as nat);
            lemma_pow2_increases(e2 as nat, (e1 - 26) as nat);
            assert(4 * (s2 as nat * pow2(e2 as nat)) < pow2(e1 as nat)) by (nonlinear_arith)
                requires
                    s2 < 0x100_0000,
                    0 < pow2(e2 as nat) <= pow2((e1 - 26) as nat),
                    pow2(e1 as nat) == 0x400_0000 * pow2((e1 - 26) as nat),
            ;
            lemma_sum_absorbs(n1, s1 as nat, e1 as nat, y);
        }
        Value::Finite { negative: n1, sig: s1, exp: e1 }
    } else {
        let scale = pow2_u64(gap);
        proof {
            lemma_pow2_increases(gap as nat, 30);
            assert(s1 * scale < 0x100_0000 * 0x4000_0000) by (nonlinear_arith)
                requires
                    s1 < 0x100_0000,
                    scale <= 0x4000_0000,
            ;
        }
        let aligned: u64 = s1 * scale;
        proof {
            assert(s1 as nat * pow2(e1 as nat) == aligned as nat * pow2(e2 as nat))
                by (nonlinear_arith)
                requires
                    aligned == s1 * scale,
                    pow2(e1 as nat) == scale * pow2(e2 as nat),
            ;
        }
        let ghost unit = pow2(e2 as nat);
        if n1 == n2 {
            proof {
                assert(x + y == signed(n1, (aligned + s2) as nat * unit)) by (nonlinear_arith)
                    requires
                        x == signed(n1, aligned as nat * unit),
                        y == signed(n1, s2 as nat * unit),
                ;
            }
            round_dyadic(n1, aligned + s2, e2)
        } else if aligned >= s2 {
            proof {
                assert(x + y == signed(n1, (aligned - s2) as nat * unit)) by (nonlinear_arith)
                    requires
                        x == signed(n1, aligned as nat * unit),
                        y == signed(!n1, s2 as nat * unit),
                        aligned >= s2,
                ;
            }
            round_dyadic(n1, aligned - s2, e2)
        } else {
            proof {
                assert(x + y == signed(n2, (s2 - aligned) as nat * unit)) by (nonlinear_arith)
                    requires
                        x == signed(!n2, aligned as nat * unit),
                        y == signed(n2, s2 as nat * unit),
                        aligned < s2,
                ;
            }
            round_dyadic(n2, s2 - aligned, e2)
        }
    }
}

/// Half of a value, as the format gives it.
pub fn halve(a: Value) -> (value: Value)
    requires
        a.canonical(),
    ensures
        value.number() == half(a.number()),
        value.canonical(),
{
    match a {
        Value::Finite { negative, sig, exp } => {
            proof {
                let lower = pow2((exp - 1) as nat);
                lemma_pow2_unfold(exp as nat);
                lemma_pow2_pos((exp - 1) as nat);
                assert(sig as nat * pow2(exp as nat) == 2 * (sig as nat * lower))
                    by (nonlinear_arith)
                    requires
                        pow2(exp as nat) == 2 * lower,
                ;
                assert(sig > 0 ==> sig as nat * lower > 0) by (nonlinear_arith)
                    requires
                        lower > 0,
                ;
            }
            round_dyadic(negative, sig, exp - 1)
        },
        _ => a,
    }
}

/// A value times `PCM_SCALE`, as the format gives it.
pub fn scale(a: Value) -> (value: Value)
    requires
        a.canonical(),
    ensures
        value.number() == scaled(a.number()),
        value.canonical(),
{
    match a {
        Value::Finite { negative, sig, exp } => {
            proof {
                assert(signed(negative, sig as nat * pow2(exp as nat)) * PCM_SCALE == signed(
                    negative,
                    (sig * 32767) as nat * pow2(exp as nat),
                )) by (nonlinear_arith)
                    requires
                        PCM_SCALE == 32767,
                ;
            }
            round_dyadic(negative, sig * 32767, exp)
        },
        _ => a,
    }
}

/// The 16-bit sample nearest to a value.
pub fn pcm(a: Value) -> (sample: i16)
    requires
        a.canonical(),
    ensures
        sample == to_pcm(a.number()),
{
    match a {
        Value::NaN => 0,
        Value::Infinite { negative } => if negative {
            i16::MIN
        } else {
            i16::MAX
        },
        Value::Finite { negative, sig, exp } => {
            let ghost m: nat = sig as nat * pow2(exp as nat);
            let ghost exact: nat = (m + pow2(149)) / pow2(150);
            proof {
                lemma2_to64();
                lemma_pow2_pos(exp as nat);
                assert(sig > 0 ==> m > 0) by (nonlinear_arith)
                    requires
                        m == sig as nat * pow2(exp as nat),
                        pow2(exp as nat) > 0,
                ;
                assert(sig == 0 ==> m == 0) by (nonlinear_arith)
                    requires
                        m == sig as nat * pow2(exp as nat),
                ;
                assert(magnitude(signed(negative, m)) == m);
            }
            // The whole number nearest to the magnitude, cut off at 2^15.
            let whole: u64 = if exp >= 150 {
                proof {
                    lemma_whole_above(sig as nat, exp as nat);
                }
                if sig == 0 {
                    0
                } else if exp - 150 >= 16 {
                    proof {
                        lemma_pow2_increases(16, (exp - 150) as nat);
                        assert(exact >= 0x8000) by (nonlinear_arith)
                            requires
                                exact == sig as nat * pow2((exp - 150) as nat),
                                sig >= 1,
                                pow2((exp - 150) as nat) >= 0x1_0000,
                        ;
                    }
                    0x8000
                } else {
                    let factor = pow2_u64(exp - 150);
                    proof {
                        lemma_pow2_increases((exp - 150) as nat, 15);
                        assert(sig * factor < 0x100_0000 * 0x1_0000) by (nonlinear_arith)
                            requires
                                sig < 0x100_0000,
                                factor <= 0x8000,
                        ;
                    }
                    let product: u64 = sig * factor;
                    if product >= 0x8000 {
                        0x8000
                    } else {
                        product
                    }
                }
            } else {
                let fine: u32 = 150 - exp;
                proof {
                    lemma_whole_below(sig as nat, exp as nat);
                }
                if fine >= 26 {
                    proof {
                        lemma_pow2_unfold(fine as nat);
                        lemma_pow2_increases(25, (fine - 1) as nat);
                        lemma_small_div_converse_zero(
                            sig as nat + pow2((fine - 1) as nat),
                            pow2(fine as nat),
                        );
                    }
                    0
                } else {
                    let halfway = pow2_u64(fine - 1);
                    let divisor = pow2_u64(fine);
                    proof {
                        lemma_pow2_increases((fine - 1) as nat, 24);
                        lemma_pow2_pos(fine as nat);
                    }
                    let quotient: u64 = (sig + halfway) / divisor;
                    if quotient >= 0x8000 {
                        0x8000
                    } else {
                        quotient
                    }
                }
            };
            assert(whole == if exact >= 0x8000 {
                0x8000
            } else {
                exact
            });
            if negative {
                if whole >= 0x8000 {
                    i16::MIN
                } else {
                    -(whole as i16)
                }
            } else {
                if whole >= 0x7fff {
                    i16::MAX
                } else {
                    whole as i16
                }
            }
        },
    }
}

} // verus!
