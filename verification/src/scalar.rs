//! Double-precision numbers by their IEEE-754 bit patterns.
//!
//! The library orders such numbers and turns them into bytes; it does no arithmetic on them.
use vstd::arithmetic::div_mod::{
    lemma_div_multiples_vanish_quotient, lemma_div_is_ordered, lemma_multiply_divide_lt,
};
use vstd::arithmetic::power2::{
    lemma2_to64_rest, lemma_pow2_adds, lemma_pow2_pos, lemma_pow2_strictly_increases,
    lemma_pow2_unfold, pow2,
};
use vstd::bits::lemma_u64_shr_is_div;
use vstd::prelude::*;

verus! {

/// The sign bit.
pub const SIGN: u64 = 0x8000_0000_0000_0000;

/// Infinity; a larger magnitude is no number.
pub const INFINITY: u64 = 0x7ff0_0000_0000_0000;

/// The weight of one step of the exponent.
pub const EXPONENT: u64 = 0x10_0000_0000_0000;

/// The largest encoded component of a vertex offset.
pub const MAX_OFFSET: u8 = 252;

/// The encoded component of a vertex that rests on its grid corner.
pub const REST: u8 = 126;

/// A double-precision number.
#[derive(Clone, Copy, Debug, PartialEq, Eq, Structural)]
pub struct Scalar {
    pub bits: u64,
}

/// The number with magnitude bits `mag`, in units of two to the power of -1074, the smallest
/// positive number: a fraction of 52 bits, with a leading one unless the exponent is zero.
pub open spec fn magnitude_units(mag: int) -> int {
    let exponent = mag / EXPONENT as int;
    let fraction = mag % EXPONENT as int;
    if exponent == 0 {
        fraction
    } else {
        (EXPONENT + fraction) * pow2((exponent - 1) as nat)
    }
}

/// One, in the units of `Scalar::units`.
pub open spec fn one() -> int {
    pow2(1074) as int
}

/// `v` held between zero and `MAX_OFFSET`.
pub open spec fn held(v: int) -> int {
    if v < 0 {
        0
    } else if v > MAX_OFFSET {
        MAX_OFFSET as int
    } else {
        v
    }
}

impl Scalar {
    pub open spec fn negative(self) -> bool {
        self.bits >= SIGN
    }

    /// The bits without the sign.
    pub open spec fn magnitude(self) -> int {
        self.bits as int % SIGN as int
    }

    /// The bits stand for no number.
    pub open spec fn nan(self) -> bool {
        self.magnitude() > INFINITY
    }

    /// The number in units of two to the power of -1074, where it is one.
    pub open spec fn units(self) -> int {
        if self.negative() {
            -magnitude_units(self.magnitude())
        } else {
            magnitude_units(self.magnitude())
        }
    }

    /// `self < other`, which is false where one of them is no number.
    pub open spec fn below(self, other: Scalar) -> bool {
        !self.nan() && !other.nan() && self.units() < other.units()
    }

    /// `self <= other`, which is false where one of them is no number.
    pub open spec fn at_most(self, other: Scalar) -> bool {
        !self.nan() && !other.nan() && self.units() <= other.units()
    }

    /// The whole part of a number that is not negative.
    pub open spec fn whole(self) -> int {
        self.units() / one()
    }

    /// The nearest whole number; halfway cases are rounded away from zero.
    pub open spec fn nearest(self) -> int {
        if self.units() >= 0 {
            (2 * self.units() + one()) / (2 * one())
        } else {
            -((-2 * self.units() + one()) / (2 * one()))
        }
    }

    /// The byte for a component that already counts from the low end of the lattice: the number
    /// is held between zero and `MAX_OFFSET`, and its fraction is dropped.
    pub open spec fn truncated_offset(self) -> u8 {
        if self.nan() || self.units() < 0 {
            0
        } else {
            held(self.whole()) as u8
        }
    }

    /// The byte for a displacement from the grid corner: the nearest lattice step, counted from
    /// `REST` and held between zero and `MAX_OFFSET`.
    pub open spec fn rounded_offset(self) -> u8 {
        if self.nan() {
            0
        } else {
            held(REST + self.nearest()) as u8
        }
    }

    pub fn from_bits(bits: u64) -> (s: Scalar)
        ensures
            s.bits == bits,
    {
        Scalar { bits }
    }

    pub fn is_nan(self) -> (b: bool)
        ensures
            b == self.nan(),
    {
        self.bits % SIGN > INFINITY
    }

    /// `self < other`.
    pub fn lt(self, other: Scalar) -> (b: bool)
        ensures
            b == self.below(other),
    {
        if self.is_nan() || other.is_nan() {
            return false;
        }
        let a: u64 = self.bits % SIGN;
        let b: u64 = other.bits % SIGN;
        proof {
            lemma_units_ordered(a as int, b as int);
            lemma_units_ordered(b as int, a as int);
            lemma_units_ordered(0, a as int);
            lemma_units_ordered(0, b as int);
        }
        if self.bits >= SIGN {
            if other.bits >= SIGN {
                b < a
            } else {
                a > 0 || b > 0
            }
        } else if other.bits >= SIGN {
            false
        } else {
            a < b
        }
    }

    /// `self <= other`.
    pub fn le(self, other: Scalar) -> (b: bool)
        ensures
            b == self.at_most(other),
    {
        !self.is_nan() && !other.is_nan() && !other.lt(self)
    }

    /// The byte for a component that already counts from the low end of the lattice.
    pub fn truncate_offset(self) -> (r: u8)
        ensures
            r == self.truncated_offset(),
            r <= MAX_OFFSET,
    {
        if self.is_nan() {
            return 0;
        }
        let mag: u64 = self.bits % SIGN;
        proof {
            lemma_units_ordered(0, mag as int);
            lemma_pow2_pos(1074);
        }
        if self.bits >= SIGN {
            proof {
                assert(self.units() <= 0);
                if self.units() == 0 {
                    assert(0int / one() == 0) by (nonlinear_arith)
                        requires
                            one() > 0,
                    ;
                }
            }
            return 0;
        }
        if mag >= 0x406f_8000_0000_0000 {
            proof {
                lemma_landmarks();
                lemma_units_ordered(0x406f_8000_0000_0000, mag as int);
                lemma_div_is_ordered(252 * one(), self.units(), one());
                lemma_times_one(252);
            }
            return MAX_OFFSET;
        }
        let exponent: u64 = mag / EXPONENT;
        proof {
            lemma_landmarks();
            lemma_units_ordered(mag as int, 0x406f_8000_0000_0000);
            lemma_multiply_divide_lt(self.units(), one(), 252);
            assert(one() * 252 == 252 * one()) by (nonlinear_arith);
        }
        if exponent < 1023 {
            proof {
                lemma_units_ordered(mag as int, 0x3ff0_0000_0000_0000);
                lemma_small_quotient(self.units(), one());
            }
            return 0;
        }
        let digits: u64 = EXPONENT + mag % EXPONENT;
        let shift: u64 = 1075 - exponent;
        proof {
            lemma_u64_shr_is_div(digits, shift);
            lemma_split_one(exponent as nat, shift as nat);
            let p = pow2((exponent - 1) as nat) as int;
            let q = pow2(shift as nat) as int;
            lemma_pow2_pos((exponent - 1) as nat);
            lemma_pow2_pos(shift as nat);
            lemma_div_multiples_vanish_quotient(p, digits as int, q);
            assert(digits * p == p * digits) by (nonlinear_arith);
            assert(self.whole() == digits as int / q);
        }
        (digits >> shift) as u8
    }

    /// The byte for a displacement from the grid corner.
    pub fn round_offset(self) -> (r: u8)
        ensures
            r == self.rounded_offset(),
            r <= MAX_OFFSET,
    {
        if self.is_nan() {
            return 0;
        }
        let mag: u64 = self.bits % SIGN;
        let ghost u = magnitude_units(mag as int);
        let ghost whole = (2 * u + one()) / (2 * one());
        proof {
            lemma_landmarks();
            lemma_units_ordered(0, mag as int);
            lemma_pow2_pos(1074);
            assert(u >= 0);
            assert((2 * 0int + one()) / (2 * one()) == 0) by {
                lemma_small_quotient(one(), 2 * one());
            }
            assert(self.nearest() == if self.negative() { -whole } else { whole });
        }
        if mag >= 0x405f_c000_0000_0000 {
            proof {
                lemma_units_ordered(0x405f_c000_0000_0000, mag as int);
                lemma_div_is_ordered(127 * (2 * one()), 2 * u + one(), 2 * one());
                lemma_times(127, 2 * one());
            }
            return if self.bits >= SIGN {
                0
            } else {
                MAX_OFFSET
            };
        }
        let exponent: u64 = mag / EXPONENT;
        let steps: u64 = if exponent < 1022 {
            proof {
                lemma_units_ordered(mag as int, 0x3fe0_0000_0000_0000);
                lemma_small_quotient(2 * u + one(), 2 * one());
            }
            0
        } else {
            let digits: u64 = EXPONENT + mag % EXPONENT;
            let shift: u64 = 1075 - exponent;
            proof {
                lemma_units_ordered(mag as int, 0x405f_c000_0000_0000);
                lemma_split_one(exponent as nat, shift as nat);
                lemma_round_quotient(digits as int, exponent as nat, shift as nat);
                lemma_half_power(shift);
                lemma_u64_shr_is_div((digits + (1u64 << (shift - 1) as u64)) as u64, shift);
            }
            (digits + (1u64 << (shift - 1))) >> shift
        };
        proof {
            assert(steps == whole);
            lemma_units_ordered(mag as int, 0x405f_c000_0000_0000);
            lemma_multiply_divide_lt(2 * u + one(), 2 * one(), 128);
            assert(2 * one() * 128 == 256 * one()) by (nonlinear_arith);
        }
        if self.bits >= SIGN {
            if steps >= 126 {
                0
            } else {
                REST - steps as u8
            }
        } else if steps >= 126 {
            MAX_OFFSET
        } else {
            REST + steps as u8
        }
    }
}

/// A product divided by one of its factors is the other one.
proof fn lemma_times(n: int, d: int)
    requires
        n >= 0,
        d > 0,
    ensures
        (n * d) / d == n,
{
    vstd::arithmetic::div_mod::lemma_div_by_multiple(n, d);
}

proof fn lemma_times_one(n: int)
    requires
        n >= 0,
    ensures
        (n * one()) / one() == n,
{
    lemma_pow2_pos(1074);
    lemma_times(n, one());
}

proof fn lemma_small_quotient(n: int, d: int)
    requires
        0 <= n < d,
    ensures
        n / d == 0,
{
    vstd::arithmetic::div_mod::lemma_basic_div(n, d);
}

/// `one()` is the product of the weights of an exponent and of the digits behind the point.
proof fn lemma_split_one(exponent: nat, shift: nat)
    requires
        1 <= exponent,
        exponent + shift == 1075,
    ensures
        pow2((exponent - 1) as nat) * pow2(shift) == one(),
{
    lemma_pow2_adds((exponent - 1) as nat, shift);
}

proof fn lemma_half_power(shift: u64)
    requires
        46 <= shift <= 53,
    ensures
        (1u64 << ((shift - 1) as u64)) == pow2((shift - 1) as nat),
        (1u64 << ((shift - 1) as u64)) <= EXPONENT,
{
    lemma2_to64_rest();
    let s = (shift - 1) as u64;
    vstd::bits::lemma_u64_shl_is_mul(1, s);
}

/// Rounding the digits at the point gives the nearest whole number.
proof fn lemma_round_quotient(digits: int, exponent: nat, shift: nat)
    requires
        digits >= 0,
        1 <= exponent,
        1 <= shift,
        exponent + shift == 1075,
    ensures
        ({
            let u = digits * pow2((exponent - 1) as nat);
            (2 * u + one()) / (2 * one()) == (digits + pow2((shift - 1) as nat)) / (pow2(
                shift,
            ) as int)
        }),
{
    let p = pow2((exponent - 1) as nat) as int;
    let q = pow2(shift) as int;
    let h = pow2((shift - 1) as nat) as int;
    lemma_split_one(exponent, shift);
    lemma_pow2_pos((exponent - 1) as nat);
    lemma_pow2_pos(shift);
    lemma_pow2_unfold(shift);
    assert(q == 2 * h);
    assert(2 * (digits * p) + p * q == (2 * p) * (digits + h)) by (nonlinear_arith)
        requires
            q == 2 * h,
    ;
    assert(2 * (p * q) == (2 * p) * q) by (nonlinear_arith);
    lemma_div_multiples_vanish_quotient(2 * p, digits + h, q);
}

/// The numbers that bound the cases of the conversions to bytes.
proof fn lemma_landmarks()
    ensures
        magnitude_units(0x406f_8000_0000_0000) == 252 * one(),
        magnitude_units(0x405f_c000_0000_0000) == 127 * one(),
        magnitude_units(0x3ff0_0000_0000_0000) == one(),
        2 * magnitude_units(0x3fe0_0000_0000_0000) == one(),
{
    lemma2_to64_rest();
    lemma_pow2_adds(1029, 45);
    lemma_pow2_adds(1028, 46);
    lemma_pow2_adds(1022, 52);
    lemma_pow2_adds(1021, 53);
    let a = pow2(1029) as int;
    let b = pow2(1028) as int;
    let c = pow2(1022) as int;
    let d = pow2(1021) as int;
    assert((0x10_0000_0000_0000 + 0xf_8000_0000_0000) * a == 252 * (a * 0x2000_0000_0000))
        by (nonlinear_arith);
    assert((0x10_0000_0000_0000 + 0xf_c000_0000_0000) * b == 127 * (b * 0x4000_0000_0000))
        by (nonlinear_arith);
    assert((0x10_0000_0000_0000 + 0) * c == c * 0x10_0000_0000_0000) by (nonlinear_arith);
    assert(2 * ((0x10_0000_0000_0000 + 0) * d) == d * 0x20_0000_0000_0000) by (nonlinear_arith);
}

/// Magnitudes are ordered as their bits are.
proof fn lemma_units_ordered(a: int, b: int)
    requires
        0 <= a,
        0 <= b,
    ensures
        a < b ==> magnitude_units(a) < magnitude_units(b),
        a == b ==> magnitude_units(a) == magnitude_units(b),
        0 <= magnitude_units(a),
        magnitude_units(0) == 0,
{
    let (ea, fa) = (a / EXPONENT as int, a % EXPONENT as int);
    let (eb, fb) = (b / EXPONENT as int, b % EXPONENT as int);
    if ea > 0 {
        let p = pow2((ea - 1) as nat) as int;
        lemma_pow2_pos((ea - 1) as nat);
        assert(0 <= (EXPONENT + fa) * p) by (nonlinear_arith)
            requires
                0 <= EXPONENT + fa,
                0 < p,
        ;
    }
    if a < b {
        if ea == eb {
            assert(fa < fb);
            if ea > 0 {
                let p = pow2((ea - 1) as nat) as int;
                lemma_pow2_pos((ea - 1) as nat);
                assert((EXPONENT + fa) * p < (EXPONENT + fb) * p) by (nonlinear_arith)
                    requires
                        fa < fb,
                        0 < p,
                ;
            }
        } else {
            assert(ea < eb);
            let q = pow2((eb - 1) as nat) as int;
            lemma_pow2_pos((eb - 1) as nat);
            assert(EXPONENT * q <= (EXPONENT + fb) * q) by (nonlinear_arith)
                requires
                    0 <= fb,
                    0 < q,
            ;
            if ea == 0 {
                assert(EXPONENT * 1 <= EXPONENT * q) by (nonlinear_arith)
                    requires
                        1 <= q,
                ;
            } else {
                let p = pow2((ea - 1) as nat) as int;
                lemma_pow2_pos((ea - 1) as nat);
                lemma_pow2_unfold(ea as nat);
                if ea < eb - 1 {
                    lemma_pow2_strictly_increases(ea as nat, (eb - 1) as nat);
                }
                assert((EXPONENT + fa) * p < EXPONENT * q) by (nonlinear_arith)
                    requires
                        fa < EXPONENT,
                        0 < p,
                        2 * p <= q,
                ;
            }
        }
    }
}

/// Numbers are strictly ordered: `<` is transitive, no number is below itself, and of two
/// numbers one is below the other or they are equal as numbers. What is no number is neither
/// below nor above anything.
pub proof fn scalars_are_ordered(a: Scalar, b: Scalar, c: Scalar)
    ensures
        a.below(b) && b.below(c) ==> a.below(c),
        !a.below(a),
        !a.nan() && !b.nan() ==> a.below(b) || b.below(a) || a.units() == b.units(),
        a.nan() ==> !a.below(b) && !b.below(a) && !a.at_most(b) && !b.at_most(a),
{
}

/// A larger number never gets a smaller byte.
pub proof fn offsets_are_monotone(a: Scalar, b: Scalar)
    requires
        a.at_most(b),
    ensures
        a.truncated_offset() <= b.truncated_offset(),
        a.rounded_offset() <= b.rounded_offset(),
{
    lemma_pow2_pos(1074);
    if a.units() >= 0 {
        lemma_div_is_ordered(a.units(), b.units(), one());
        lemma_div_is_ordered(2 * a.units() + one(), 2 * b.units() + one(), 2 * one());
    } else if b.units() < 0 {
        lemma_div_is_ordered(-2 * b.units() + one(), -2 * a.units() + one(), 2 * one());
    } else {
        lemma_div_is_ordered(0, 2 * b.units() + one(), 2 * one());
        lemma_div_is_ordered(0, -2 * a.units() + one(), 2 * one());
        lemma_small_quotient(0, 2 * one());
    }
    assert(b.units() >= 0 ==> b.whole() >= 0) by {
        if b.units() >= 0 {
            lemma_div_is_ordered(0, b.units(), one());
            lemma_small_quotient(0, one());
        }
    }
}

/// An offset that was encoded is encoded again as it was, as long as the displacement that it
/// stands for is off by less than half a lattice step.
pub proof fn offsets_survive_small_errors(s: Scalar, c: u8)
    requires
        c <= MAX_OFFSET,
        !s.nan(),
        2 * (s.units() - (c - REST) * one()) < one(),
        2 * ((c - REST) * one() - s.units()) < one(),
    ensures
        s.rounded_offset() == c,
{
    let k = c - REST;
    let u = s.units();
    let w = one();
    lemma_pow2_pos(1074);
    if u >= 0 {
        assert(k >= 0) by (nonlinear_arith)
            requires
                u >= 0,
                2 * (u - k * w) < w,
                w > 0,
        ;
        lemma_quotient_between(2 * u + w, 2 * w, k);
    } else {
        assert(k <= 0) by (nonlinear_arith)
            requires
                u < 0,
                2 * (k * w - u) < w,
                w > 0,
        ;
        assert((-k) * w == -(k * w)) by (nonlinear_arith);
        lemma_quotient_between(-2 * u + w, 2 * w, -k);
    }
}

proof fn lemma_quotient_between(n: int, d: int, k: int)
    requires
        d > 0,
        d % 2 == 0,
        k >= 0,
        2 * (k * (d / 2)) < n,
        n < 2 * (k * (d / 2)) + d,
    ensures
        n / d == k,
{
    let h = d / 2;
    assert(2 * (k * h) == k * d) by (nonlinear_arith)
        requires
            d == 2 * h,
    ;
    vstd::arithmetic::div_mod::lemma_fundamental_div_mod_converse(n, d, k, n - k * d);
}

/// Encoding is off by half a lattice step at most, as long as the displacement is no larger than
/// the lattice reaches; a component that counts from the low end loses less than one step.
pub proof fn offsets_are_close(s: Scalar)
    requires
        !s.nan(),
    ensures
        -REST * one() <= s.units() <= REST * one() ==> {
            &&& 2 * (s.units() - (s.rounded_offset() - REST) * one()) <= one()
            &&& 2 * ((s.rounded_offset() - REST) * one() - s.units()) <= one()
        },
        0 <= s.units() <= MAX_OFFSET * one() ==> {
            &&& s.truncated_offset() * one() <= s.units()
            &&& s.units() - s.truncated_offset() * one() < one()
        },
{
    let u = s.units();
    let w = one();
    lemma_pow2_pos(1074);
    if -REST * w <= u <= REST * w {
        let a = if u >= 0 {
            u
        } else {
            -u
        };
        let q = (2 * a + w) / (2 * w);
        lemma_quotient_bounds(2 * a + w, 2 * w);
        assert(0 <= q <= 126) by (nonlinear_arith)
            requires
                0 <= a <= 126 * w,
                w > 0,
                q * (2 * w) <= 2 * a + w,
                2 * a + w < q * (2 * w) + 2 * w,
        ;
        assert(q * (2 * w) == 2 * (q * w)) by (nonlinear_arith);
        assert((-q) * w == -(q * w)) by (nonlinear_arith);
        assert(s.rounded_offset() - REST == if u >= 0 {
            q
        } else {
            -q
        });
    }
    if 0 <= u <= MAX_OFFSET * w {
        let q = u / w;
        lemma_quotient_bounds(u, w);
        assert(0 <= q <= 252) by (nonlinear_arith)
            requires
                0 <= u <= 252 * w,
                w > 0,
                q * w <= u,
                u < q * w + w,
        ;
    }
}

proof fn lemma_quotient_bounds(n: int, d: int)
    requires
        d > 0,
    ensures
        (n / d) * d <= n,
        n < (n / d) * d + d,
{
    vstd::arithmetic::div_mod::lemma_fundamental_div_mod(n, d);
    vstd::arithmetic::div_mod::lemma_mod_bound(n, d);
    let q = n / d;
    assert(d * q == q * d) by (nonlinear_arith);
}

} // verus!
