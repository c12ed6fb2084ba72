//! Facts about the rounding of the single-precision format, on which the
//! integer arithmetic of the mixer rests.

use crate::binary32::{
    magnitude, nearest_even, rounded, signed, spacing_exponent, to_pcm, Number,
};
use vstd::arithmetic::div_mod::{
    lemma_div_multiples_vanish_quotient, lemma_fundamental_div_mod,
    lemma_fundamental_div_mod_converse, lemma_truncate_middle,
};
use vstd::arithmetic::mul::{
    lemma_mul_inequality, lemma_mul_is_associative, lemma_mul_strict_inequality,
};
use vstd::arithmetic::power2::{
    lemma2_to64, lemma_pow2_adds, lemma_pow2_pos, lemma_pow2_strictly_increases,
    lemma_pow2_unfold, pow2,
};
use vstd::prelude::*;

verus! {

/// Powers of two grow with their exponent.
pub proof fn lemma_pow2_increases(e1: nat, e2: nat)
    requires
        e1 <= e2,
    ensures
        pow2(e1) <= pow2(e2),
{
    if e1 < e2 {
        lemma_pow2_strictly_increases(e1, e2);
    }
}

/// A dividend below its divisor gives the quotient zero.
pub proof fn lemma_small_div_converse_zero(x: nat, d: nat)
    requires
        x < d,
    ensures
        x / d == 0,
{
    lemma_fundamental_div_mod_converse(x as int, d as int, 0, x as int);
}

/// Every positive significand has a number of bits.
pub proof fn lemma_bits_of(sig: nat) -> (bits: nat)
    requires
        sig > 0,
    ensures
        bits >= 1,
        pow2((bits - 1) as nat) <= sig < pow2(bits),
    decreases sig,
{
    lemma2_to64();
    if sig == 1 {
        1
    } else {
        let lower = lemma_bits_of(sig / 2);
        lemma_pow2_unfold(lower);
        lemma_pow2_unfold(lower + 1);
        lower + 1
    }
}

/// The values `sig * 2^exp` of the significands with `bits` bits fill the
/// binade that ends at `2^(bits + exp)`.
pub proof fn lemma_dyadic_binade(sig: nat, bits: nat, exp: nat)
    requires
        bits >= 1,
        pow2((bits - 1) as nat) <= sig < pow2(bits),
    ensures
        pow2((bits + exp - 1) as nat) <= sig * pow2(exp) < pow2(bits + exp),
{
    lemma_pow2_pos(exp);
    lemma_pow2_adds((bits - 1) as nat, exp);
    lemma_pow2_adds(bits, exp);
    lemma_mul_inequality(pow2((bits - 1) as nat) as int, sig as int, pow2(exp) as int);
    lemma_mul_strict_inequality(sig as int, pow2(bits) as int, pow2(exp) as int);
}

/// The exponent of the spacing of the format around a value whose
/// magnitude ends at `2^top`.
pub open spec fn spacing_at(top: nat) -> nat {
    if top <= 25 {
        1
    } else {
        (top - 24) as nat
    }
}

/// The spacing of the format in the binade that ends at `2^top`.
pub proof fn lemma_spacing_of_binade(m: nat, top: nat)
    requires
        top >= 1,
        pow2((top - 1) as nat) <= m < pow2(top),
    ensures
        spacing_exponent(m) == if top <= 25 {
            1
        } else {
            (top - 24) as nat
        },
    decreases top,
{
    lemma2_to64();
    if m < 0x200_0000 {
        if top > 25 {
            lemma_pow2_increases(25, (top - 1) as nat);
        }
    } else {
        if top <= 25 {
            lemma_pow2_increases(top, 25);
        }
        lemma_pow2_unfold(top);
        lemma_pow2_unfold((top - 1) as nat);
        lemma_spacing_of_binade(m / 2, (top - 1) as nat);
    }
}

/// Rounding to a multiple commutes with scaling: the multiple of `q * c`
/// nearest to `z * c` is `c` times the multiple of `q` nearest to `z`.
pub proof fn lemma_nearest_even_scales(z: nat, q: nat, c: nat)
    requires
        q > 0,
        c > 0,
    ensures
        nearest_even(z * c, q * c) == nearest_even(z, q) * c,
{
    lemma_div_multiples_vanish_quotient(c as int, z as int, q as int);
    lemma_truncate_middle(z as int, c as int, q as int);
    assert(z * c == c * z) by (nonlinear_arith);
    assert(q * c == c * q) by (nonlinear_arith);
    let below = z / q;
    let rest = z % q;
    assert((z * c) / (q * c) == below);
    assert((z * c) % (q * c) == c * rest);
    assert(2 * (c * rest) < q * c <==> 2 * rest < q) by (nonlinear_arith)
        requires
            c > 0,
    ;
    assert(2 * (c * rest) == q * c <==> 2 * rest == q) by (nonlinear_arith)
        requires
            c > 0,
    ;
    assert(below * (q * c) == (below * q) * c) by (nonlinear_arith);
    assert((below + 1) * (q * c) == ((below + 1) * q) * c) by (nonlinear_arith);
}

/// The nearest multiple of `q` lies within half of `q`.
pub proof fn lemma_nearest_even_is_near(z: nat, q: nat)
    requires
        q > 0,
    ensures
        2 * nearest_even(z, q) <= 2 * z + q,
        2 * z <= 2 * nearest_even(z, q) + q,
{
    let below = z / q;
    let rest = z % q;
    lemma_fundamental_div_mod(z as int, q as int);
    assert(z == q * below + rest);
    assert((below + 1) * q == q * below + q) by (nonlinear_arith);
    assert(below * q == q * below) by (nonlinear_arith);
}

/// Rounding does not pass a multiple of `q`: what lies at or below one
/// rounds to nothing above it.
pub proof fn lemma_nearest_even_stays_below(z: nat, q: nat, t: nat)
    requires
        q > 0,
        z <= t * q,
    ensures
        nearest_even(z, q) <= t * q,
{
    let below = z / q;
    let rest = z % q;
    lemma_fundamental_div_mod(z as int, q as int);
    assert(z == q * below + rest);
    if rest == 0 {
        assert(below * q == q * below) by (nonlinear_arith);
    } else {
        assert(below < t) by (nonlinear_arith)
            requires
                q * below + rest <= t * q,
                rest > 0,
                q > 0,
        ;
        assert((below + 1) * q <= t * q) by (nonlinear_arith)
            requires
                below + 1 <= t,
                q > 0,
        ;
        assert(below * q <= (below + 1) * q) by (nonlinear_arith)
            requires
                q > 0,
        ;
    }
}

/// What a rounding gives is an even count of units.
pub proof fn lemma_rounded_is_even(z: int)
    ensures
        rounded(z) matches Number::Finite { units } ==> units % 2 == 0,
{
    let m = magnitude(z);
    let se = spacing_exponent(m);
    let q = pow2(se);
    let lower = pow2((se - 1) as nat);
    lemma_pow2_unfold(se);
    let below = m / q;
    assert(below * q == 2 * (below * lower)) by (nonlinear_arith)
        requires
            q == 2 * lower,
    ;
    assert((below + 1) * q == 2 * ((below + 1) * lower)) by (nonlinear_arith)
        requires
            q == 2 * lower,
    ;
}

/// A multiple of `q` is its own nearest multiple.
pub proof fn lemma_nearest_even_of_multiple(n: nat, q: nat)
    requires
        q > 0,
    ensures
        nearest_even(n * q, q) == n * q,
{
    lemma_fundamental_div_mod_converse((n * q) as int, q as int, n as int, 0);
}

/// Where the spacing is no coarser than `2^exp`, the value `sig * 2^exp`
/// is a number of the format and rounds to itself.
pub proof fn lemma_round_exact(sig: nat, bits: nat, exp: nat)
    requires
        bits >= 1,
        pow2((bits - 1) as nat) <= sig < pow2(bits),
        spacing_at(bits + exp) <= exp,
    ensures
        nearest_even(sig * pow2(exp), pow2(spacing_exponent(sig * pow2(exp)))) == sig * pow2(exp),
{
    let m = sig * pow2(exp);
    let spacing = spacing_at(bits + exp);
    lemma_dyadic_binade(sig, bits, exp);
    lemma_spacing_of_binade(m, bits + exp);
    lemma_pow2_adds((exp - spacing) as nat, spacing);
    lemma_pow2_pos(spacing);
    lemma_mul_is_associative(sig as int, pow2((exp - spacing) as nat) as int, pow2(spacing) as int);
    lemma_nearest_even_of_multiple(sig * pow2((exp - spacing) as nat), pow2(spacing));
}

/// Where the spacing is `2^k` times coarser than `2^exp`, rounding
/// `sig * 2^exp` comes to rounding `sig` to a multiple of `2^k`.
pub proof fn lemma_round_coarse(sig: nat, bits: nat, exp: nat, k: nat)
    requires
        bits >= 1,
        pow2((bits - 1) as nat) <= sig < pow2(bits),
        spacing_at(bits + exp) == exp + k,
    ensures
        nearest_even(sig * pow2(exp), pow2(spacing_exponent(sig * pow2(exp)))) == nearest_even(
            sig,
            pow2(k),
        ) * pow2(exp),
{
    let m = sig * pow2(exp);
    lemma_dyadic_binade(sig, bits, exp);
    lemma_spacing_of_binade(m, bits + exp);
    lemma_pow2_adds(k, exp);
    lemma_pow2_pos(k);
    lemma_pow2_pos(exp);
    lemma_nearest_even_scales(sig, pow2(k), pow2(exp));
}

/// A value with a full significand is beyond the largest finite number
/// exactly when its exponent is beyond 254.
pub proof fn lemma_overflow(sig: nat, exp: nat)
    requires
        0x80_0000 <= sig < 0x100_0000,
    ensures
        sig * pow2(exp) >= pow2(278) <==> exp >= 255,
{
    lemma2_to64();
    lemma_dyadic_binade(sig, 24, exp);
    if exp >= 255 {
        lemma_pow2_increases(278, 23 + exp);
    } else {
        lemma_pow2_increases(24 + exp, 278);
    }
}

/// A value that is written as the format writes its numbers is a number
/// of the format: it rounds to itself.
pub proof fn lemma_canonical_rounds_to_itself(negative: bool, sig: nat, exp: nat)
    requires
        sig < 0x100_0000,
        1 <= exp <= 254,
        sig >= 0x80_0000 || exp == 1,
    ensures
        rounded(signed(negative, sig * pow2(exp))) == (Number::Finite {
            units: signed(negative, sig * pow2(exp)),
        }),
{
    let m = sig * pow2(exp);
    lemma2_to64();
    lemma_pow2_pos(exp);
    if sig == 0 {
        assert(m == 0) by (nonlinear_arith)
            requires
                m == sig * pow2(exp),
                sig == 0,
        ;
        assert(spacing_exponent(0) == 1);
        assert(nearest_even(0, 2) == 0);
        lemma_pow2_pos(278);
    } else {
        let bits = lemma_bits_of(sig);
        if bits > 24 {
            lemma_pow2_increases(24, (bits - 1) as nat);
        }
        if sig >= 0x80_0000 && bits < 24 {
            lemma_pow2_increases(bits, 23);
        }
        assert(m > 0) by (nonlinear_arith)
            requires
                m == sig * pow2(exp),
                sig > 0,
                pow2(exp) > 0,
        ;
        lemma_round_exact(sig, bits, exp);
        lemma_dyadic_binade(sig, bits, exp);
        lemma_pow2_increases(bits + exp, 278);
    }
}

/// A number with a full significand absorbs an addend that is less than a
/// quarter of its last place: their sum rounds back to the number.
pub proof fn lemma_sum_absorbs(negative: bool, sig: nat, exp: nat, other: int)
    requires
        0x80_0000 <= sig < 0x100_0000,
        3 <= exp <= 254,
        4 * magnitude(other) < pow2(exp),
    ensures
        rounded(signed(negative, sig * pow2(exp)) + other) == (Number::Finite {
            units: signed(negative, sig * pow2(exp)),
        }),
{
    let p = pow2(exp);
    let v = sig * p;
    let z = signed(negative, v) + other;
    let t: int = if negative {
        -other
    } else {
        other
    };
    lemma2_to64();
    lemma_pow2_pos(exp);
    lemma_pow2_unfold(exp);
    lemma_pow2_pos((exp - 1) as nat);
    lemma_dyadic_binade(sig, 24, exp);
    lemma_overflow(sig, exp);
    assert(v >= 0x80_0000 * p) by (nonlinear_arith)
        requires
            v == sig * p,
            sig >= 0x80_0000,
            p > 0,
    ;
    assert(v <= 0xff_ffff * p) by (nonlinear_arith)
        requires
            v == sig * p,
            sig <= 0xff_ffff,
            p > 0,
    ;
    let m = magnitude(z);
    assert(m == v + t);
    assert((z < 0) == negative);
    if t >= 0 {
        lemma_pow2_adds(24, exp);
        lemma_spacing_of_binade(m, 24 + exp);
        lemma_fundamental_div_mod_converse(m as int, p as int, sig as int, t);
    } else if sig > 0x80_0000 {
        assert(v >= 0x80_0001 * p) by (nonlinear_arith)
            requires
                v == sig * p,
                sig >= 0x80_0001,
                p > 0,
        ;
        lemma_pow2_adds(23, exp);
        lemma_spacing_of_binade(m, 24 + exp);
        assert(m == (sig - 1) * p + (p + t)) by (nonlinear_arith)
            requires
                m == sig * p + t,
        ;
        lemma_fundamental_div_mod_converse(m as int, p as int, sig - 1, p + t);
    } else {
        let q = pow2((exp - 1) as nat);
        lemma_pow2_adds(23, exp);
        lemma_pow2_adds(22, exp);
        assert(m >= pow2(22 + exp)) by (nonlinear_arith)
            requires
                m == 0x80_0000 * p + t,
                4 * t > -p,
                pow2(22 + exp) == 0x40_0000 * p,
                p > 0,
        ;
        lemma_spacing_of_binade(m, 23 + exp);
        assert(m == 0xff_ffff * q + (q + t)) by (nonlinear_arith)
            requires
                m == 0x80_0000 * p + t,
                p == 2 * q,
        ;
        lemma_fundamental_div_mod_converse(m as int, q as int, 0xff_ffff, q + t);
        assert((0xff_ffff + 1) * q == v) by (nonlinear_arith)
            requires
                v == 0x80_0000 * p,
                p == 2 * q,
        ;
    }
}

/// The whole number nearest to a finite value of `sig * 2^exp` units,
/// halves going up, where the value is below one: there the units of the
/// value are finer than a whole.
pub proof fn lemma_whole_below(sig: nat, exp: nat)
    requires
        exp <= 149,
    ensures
        (sig * pow2(exp) + pow2(149)) / pow2(150) == (sig + pow2((149 - exp) as nat)) / pow2(
            (150 - exp) as nat,
        ),
{
    let unit = pow2(exp);
    let a = sig + pow2((149 - exp) as nat);
    let d = pow2((150 - exp) as nat);
    lemma_pow2_pos(exp);
    lemma_pow2_pos((150 - exp) as nat);
    lemma_pow2_adds(exp, (149 - exp) as nat);
    lemma_pow2_adds(exp, (150 - exp) as nat);
    lemma_div_multiples_vanish_quotient(unit as int, a as int, d as int);
    assert(unit * a == sig * unit + pow2(149)) by (nonlinear_arith)
        requires
            a == sig + pow2((149 - exp) as nat),
            pow2(149) == unit * pow2((149 - exp) as nat),
    ;
}

/// The whole number nearest to a finite value of `sig * 2^exp` units
/// where the units of the value are wholes or coarser.
pub proof fn lemma_whole_above(sig: nat, exp: nat)
    requires
        exp >= 150,
    ensures
        (sig * pow2(exp) + pow2(149)) / pow2(150) == sig * pow2((exp - 150) as nat),
{
    let whole = sig * pow2((exp - 150) as nat);
    lemma_pow2_adds((exp - 150) as nat, 150);
    lemma_pow2_unfold(150);
    lemma_pow2_pos(149);
    lemma_mul_is_associative(sig as int, pow2((exp - 150) as nat) as int, pow2(150) as int);
    lemma_fundamental_div_mod_converse(
        (sig * pow2(exp) + pow2(149)) as int,
        pow2(150) as int,
        whole as int,
        pow2(149) as int,
    );
}

/// Rounding below a number of the format: an exact result that does not
/// pass the number `sig * 2^exp` rounds to a finite number that does not
/// pass it either, on the same side of zero, and within half of `2^exp`
/// of the exact result.
pub proof fn lemma_rounded_within(z: int, sig: nat, exp: nat)
    requires
        0x80_0000 <= sig < 0x100_0000,
        1 <= exp <= 254,
        magnitude(z) <= sig * pow2(exp),
    ensures
        rounded(z) is Finite,
        ({
            let r = rounded(z)->units;
            &&& -(sig * pow2(exp)) <= r <= sig * pow2(exp)
            &&& (z >= 0 ==> r >= 0)
            &&& (z <= 0 ==> r <= 0)
            &&& 2 * (r - z) <= pow2(exp)
            &&& 2 * (z - r) <= pow2(exp)
        }),
{
    let e = magnitude(z);
    let se = spacing_exponent(e);
    let q = pow2(se);
    lemma2_to64();
    lemma_dyadic_binade(sig, 24, exp);
    if e == 0 {
        assert(se == 1);
        lemma_fundamental_div_mod_converse(0, 2, 0, 0);
    } else {
        let bits = lemma_bits_of(e);
        if bits > 24 + exp {
            lemma_pow2_increases(24 + exp, (bits - 1) as nat);
        }
        lemma_spacing_of_binade(e, bits);
    }
    assert(1 <= se <= exp);
    lemma_pow2_pos(se);
    lemma_pow2_increases(se, exp);
    lemma_nearest_even_is_near(e, q);
    lemma_pow2_adds((exp - se) as nat, se);
    let t = sig * pow2((exp - se) as nat);
    assert(t * q == sig * pow2(exp)) by (nonlinear_arith)
        requires
            t == sig * pow2((exp - se) as nat),
            pow2(exp) == pow2((exp - se) as nat) * q,
    ;
    lemma_nearest_even_stays_below(e, q, t);
    lemma_overflow(sig, exp);
}

/// A value within the 16-bit range becomes the 16-bit sample within half
/// of it, and none is cut off.
pub proof fn lemma_pcm_in_range(r: int)
    requires
        magnitude(r) <= 32767 * pow2(150),
    ensures
        -32767 <= to_pcm(Number::Finite { units: r }) <= 32767,
        2 * (to_pcm(Number::Finite { units: r }) * pow2(150) - r) <= pow2(150),
        2 * (r - to_pcm(Number::Finite { units: r }) * pow2(150)) <= pow2(150),
{
    let m = magnitude(r);
    let d = pow2(150);
    let whole = (m + pow2(149)) / d;
    let rest = (m + pow2(149)) % d;
    lemma_pow2_unfold(150);
    lemma_pow2_pos(149);
    lemma_fundamental_div_mod((m + pow2(149)) as int, d as int);
    assert(m + pow2(149) == d * whole + rest);
    assert(whole <= 32767) by (nonlinear_arith)
        requires
            m + pow2(149) == d * whole + rest,
            0 <= rest,
            m <= 32767 * d,
            d == 2 * pow2(149),
            pow2(149) > 0,
    ;
    let p = to_pcm(Number::Finite { units: r }) as int;
    assert(p == if r < 0 {
        -(whole as int)
    } else {
        whole as int
    });
    assert(p * d == if r < 0 {
        -(d * whole)
    } else {
        (d * whole) as int
    }) by (nonlinear_arith)
        requires
            p == if r < 0 {
                -(whole as int)
            } else {
                whole as int
            },
    ;
}

} // verus!
