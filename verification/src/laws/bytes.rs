//! The bytes of vertex offsets, by how far they are from what they stand for.
use crate::offset::Displacement;
use crate::scalar::{magnitude_units, offsets_are_close, one, Scalar};
use vstd::arithmetic::div_mod::{lemma_div_is_ordered, lemma_fundamental_div_mod_converse};
use vstd::arithmetic::power2::{lemma2_to64_rest, lemma_pow2_adds, lemma_pow2_pos, pow2};
use vstd::prelude::*;

verus! {

/// The number with the given bits.
pub open spec fn number(bits: u64) -> Scalar {
    Scalar { bits }
}

/// The byte `c` stands for the number `s`, counted from `rest`, to half a lattice step.
pub open spec fn is_close(s: Scalar, c: u8, rest: int) -> bool {
    &&& 2 * (s.units() - (c - rest) * one()) <= one()
    &&& 2 * ((c - rest) * one() - s.units()) <= one()
}

/// A number is read off its digits: the lowest 52 bits are a fraction, the next 11 an exponent,
/// and the highest one a sign. One is the number with the exponent 1023 and no fraction; the
/// next exponent doubles it, and a step of the fraction counts two to the power of -52 of it.
pub proof fn numbers_are_read_off_their_digits(exponent: nat, fraction: nat)
    requires
        exponent < 0x7ff,
        fraction < 0x10_0000_0000_0000,
    ensures
        ({
            let mag = exponent * 0x10_0000_0000_0000 + fraction;
            let plus = number(mag as u64);
            let minus = number((mag + 0x8000_0000_0000_0000) as u64);
            &&& !plus.nan() && !minus.nan()
            &&& minus.units() == -plus.units()
            &&& exponent == 0 ==> plus.units() == fraction
            &&& exponent > 0 ==> plus.units() == (0x10_0000_0000_0000 + fraction) * pow2(
                (exponent - 1) as nat,
            )
        }),
        one() == pow2(1074),
        number(0x3ff0_0000_0000_0000).units() == one(),
        number(0x7ff0_0000_0000_0001).nan(),
        !number(0x7ff0_0000_0000_0000).nan(),
{
    let mag = (exponent * 0x10_0000_0000_0000 + fraction) as int;
    assert(mag / 0x10_0000_0000_0000 == exponent && mag % 0x10_0000_0000_0000 == fraction);
    lemma2_to64_rest();
    lemma_pow2_adds(1022, 52);
    let c = pow2(1022) as int;
    assert((0x10_0000_0000_0000 + 0) * c == c * 0x10_0000_0000_0000) by (nonlinear_arith);
    assert(number(0x3ff0_0000_0000_0000).units() == magnitude_units(
        0x3ff0_0000_0000_0000,
    ));
}

/// Numbers beyond the lattice get its ends, and what is no number gets the low end.
pub proof fn offsets_end_with_the_lattice(s: Scalar)
    ensures
        s.nan() ==> s.rounded_offset() == 0 && s.truncated_offset() == 0,
        !s.nan() && s.units() >= 126 * one() ==> s.rounded_offset() == 252,
        !s.nan() && s.units() <= -126 * one() ==> s.rounded_offset() == 0,
        !s.nan() && s.units() >= 252 * one() ==> s.truncated_offset() == 252,
        !s.nan() && s.units() <= 0 ==> s.truncated_offset() == 0,
        s.rounded_offset() <= 252,
        s.truncated_offset() <= 252,
{
    let u = s.units();
    let w = one();
    lemma_pow2_pos(1074);
    if !s.nan() {
        if u >= 126 * w {
            lemma_div_is_ordered(126 * (2 * w), 2 * u + w, 2 * w);
            lemma_fundamental_div_mod_converse(126 * (2 * w), 2 * w, 126, 0);
        }
        if u <= -126 * w {
            lemma_div_is_ordered(126 * (2 * w), -2 * u + w, 2 * w);
            lemma_fundamental_div_mod_converse(126 * (2 * w), 2 * w, 126, 0);
        }
        if u >= 252 * w {
            lemma_div_is_ordered(252 * w, u, w);
            lemma_fundamental_div_mod_converse(252 * w, w, 252, 0);
        }
        if u == 0 {
            lemma_fundamental_div_mod_converse(0, w, 0, 0);
        }
    }
}

/// A displacement of a half step more than `k` steps counts as `k + 1` steps, away from rest.
pub proof fn halves_are_rounded_away_from_rest(s: Scalar, k: int)
    requires
        !s.nan(),
        0 <= k < 126,
    ensures
        2 * s.units() == (2 * k + 1) * one() ==> s.rounded_offset() == 126 + k + 1,
        2 * s.units() == -((2 * k + 1) * one()) ==> s.rounded_offset() == 126 - k - 1,
{
    let w = one();
    lemma_pow2_pos(1074);
    assert((2 * k + 1) * w + w == (k + 1) * (2 * w)) by (nonlinear_arith);
    assert((2 * k + 1) * w > 0) by (nonlinear_arith)
        requires
            k >= 0,
            w > 0,
    ;
    lemma_fundamental_div_mod_converse((k + 1) * (2 * w), 2 * w, k + 1, 0);
}

/// Every component of an encoded displacement stands for its own component, to half a lattice
/// step, or to less than one step below where it counts from the low end.
pub proof fn components_are_encoded_alone(d: Displacement)
    ensures
        !d.x.nan() && -126 * one() <= d.x.units() <= 126 * one() ==> is_close(
            d.x,
            d.rounded().x,
            126,
        ),
        !d.y.nan() && -126 * one() <= d.y.units() <= 126 * one() ==> is_close(
            d.y,
            d.rounded().y,
            126,
        ),
        !d.z.nan() && -126 * one() <= d.z.units() <= 126 * one() ==> is_close(
            d.z,
            d.rounded().z,
            126,
        ),
        !d.x.nan() && 0 <= d.x.units() <= 252 * one() ==> d.truncated().x * one() <= d.x.units()
            < d.truncated().x * one() + one(),
        !d.y.nan() && 0 <= d.y.units() <= 252 * one() ==> d.truncated().y * one() <= d.y.units()
            < d.truncated().y * one() + one(),
        !d.z.nan() && 0 <= d.z.units() <= 252 * one() ==> d.truncated().z * one() <= d.z.units()
            < d.truncated().z * one() + one(),
        d.rounded().x == d.x.rounded_offset() && d.rounded().y == d.y.rounded_offset()
            && d.rounded().z == d.z.rounded_offset(),
        d.truncated().x == d.x.truncated_offset() && d.truncated().y == d.y.truncated_offset()
            && d.truncated().z == d.z.truncated_offset(),
{
    if !d.x.nan() {
        offsets_are_close(d.x);
    }
    if !d.y.nan() {
        offsets_are_close(d.y);
    }
    if !d.z.nan() {
        offsets_are_close(d.z);
    }
}

} // verus!
