//! Floating-point coordinates, held by their IEEE 754 encoding.
//!
//! Coordinates come from image processing and from the wire as binary32 or
//! binary64 numbers. The library carries them, orders them and tells NaN from
//! a number; all of that is decided on the encoding. What an encoding stands
//! for is given by `value`, a whole number of the smallest positive steps of
//! the format, so that order and equality of coordinates are those of integers.

use vstd::arithmetic::power2::{
    lemma2_to64, lemma2_to64_rest, lemma_pow2_adds, lemma_pow2_pos, lemma_pow2_strictly_increases, lemma_pow2_unfold, pow2,
};
use vstd::prelude::*;

use crate::bits::{binary_digits, bit_length, lemma_binary_digits};

verus! {

/// The magnitude of an encoding, in units of the smallest subnormal.
///
/// `half` is the number of fraction patterns per exponent (2^23 or 2^52): the
/// encoding without its sign bit is `exponent * half + fraction`.
pub open spec fn magnitude_units(encoding: nat, half: nat) -> nat {
    let exponent = encoding / half;
    let fraction = encoding % half;
    if exponent == 0 {
        fraction
    } else {
        (half + fraction) * pow2((exponent - 1) as nat)
    }
}

/// A larger encoding (without sign) stands for a larger magnitude.
pub proof fn lemma_magnitude_increases(a: nat, b: nat, half: nat)
    requires
        half > 0,
        a < b,
    ensures
        magnitude_units(a, half) < magnitude_units(b, half),
{
    let (ea, fa) = (a / half, a % half);
    let (eb, fb) = (b / half, b % half);
    assert(a == half * ea + fa && 0 <= fa < half) by {
        vstd::arithmetic::div_mod::lemma_fundamental_div_mod(a as int, half as int);
    }
    assert(b == half * eb + fb && 0 <= fb < half) by {
        vstd::arithmetic::div_mod::lemma_fundamental_div_mod(b as int, half as int);
    }
    assert(ea <= eb) by (nonlinear_arith)
        requires
            a == half * ea + fa,
            b == half * eb + fb,
            0 <= fa,
            0 <= fb < half,
            a < b,
            half > 0,
    ;
    if ea == eb {
        assert(fa < fb);
        if ea > 0 {
            let p = pow2((ea - 1) as nat);
            lemma_pow2_pos((ea - 1) as nat);
            assert((half + fa) * p < (half + fb) * p) by (nonlinear_arith)
                requires
                    fa < fb,
                    p > 0,
            ;
        }
    } else if ea == 0 {
        let p = pow2((eb - 1) as nat);
        lemma_pow2_pos((eb - 1) as nat);
        assert(half <= (half + fb) * p) by (nonlinear_arith)
            requires
                p > 0,
                half > 0,
                fb >= 0,
        ;
    } else {
        let p = pow2((ea - 1) as nat);
        let q = pow2((eb - 1) as nat);
        lemma_pow2_pos((ea - 1) as nat);
        lemma_pow2_unfold(ea);
        assert(2 * p <= q) by {
            if ea < eb - 1 {
                lemma_pow2_strictly_increases(ea, (eb - 1) as nat);
            }
        }
        assert((half + fa) * p < (half + fb) * q) by (nonlinear_arith)
            requires
                fa < half,
                fb >= 0,
                2 * p <= q,
                p > 0,
                half > 0,
        ;
    }
}

/// A binary32 number.
#[derive(Clone, Copy, Debug, PartialEq, Eq, Structural)]
pub struct F32 {
    /// The IEEE 754 encoding: sign, 8 exponent bits, 23 fraction bits.
    pub bits: u32,
}

impl F32 {
    /// The encoding without its sign bit.
    pub open spec fn magnitude(self) -> nat {
        (self.bits % 0x8000_0000) as nat
    }

    /// Whether the encoding is one of the not-a-number patterns.
    pub open spec fn nan(self) -> bool {
        self.magnitude() > 0x7f80_0000
    }

    /// The number in units of 2^-149. Infinities lie beyond all finite numbers.
    pub open spec fn value(self) -> int {
        let units = magnitude_units(self.magnitude(), 0x80_0000) as int;
        if self.bits >= 0x8000_0000 {
            -units
        } else {
            units
        }
    }

    /// The order `<` of binary32: false as soon as one side is not a number.
    pub open spec fn below(self, other: F32) -> bool {
        !self.nan() && !other.nan() && self.value() < other.value()
    }

    /// Whether the encoding is one of the not-a-number patterns.
    pub fn is_nan(self) -> (r: bool)
        ensures
            r == self.nan(),
    {
        self.bits % 0x8000_0000 > 0x7f80_0000
    }

    /// An integer that orders numbers as their values do.
    pub fn order_key(self) -> (key: i64)
        ensures
            key == self.key(),
    {
        let magnitude: i64 = (self.bits % 0x8000_0000) as i64;
        if self.bits >= 0x8000_0000 {
            -magnitude
        } else {
            magnitude
        }
    }

    /// The signed encoding; see `lemma_key_orders`.
    pub open spec fn key(self) -> int {
        if self.bits >= 0x8000_0000 {
            -(self.magnitude() as int)
        } else {
            self.magnitude() as int
        }
    }

    /// The nearest whole number, a half rounded away from zero. A number beyond
    /// the range of the result gives the end of the range on its side, and what
    /// is not a number gives 0.
    pub open spec fn nearest(self) -> int {
        let whole = (magnitude_units(self.magnitude(), 0x80_0000) + pow2(148)) / pow2(149);
        if self.nan() {
            0
        } else if self.bits >= 0x8000_0000 {
            if whole <= 0x8000_0000 {
                -whole
            } else {
                i32::MIN as int
            }
        } else if whole <= i32::MAX {
            whole as int
        } else {
            i32::MAX as int
        }
    }

    /// The nearest whole number.
    pub fn round(self) -> (r: i32)
        ensures
            r == self.nearest(),
    {
        if self.is_nan() {
            return 0;
        }
        let magnitude: u32 = self.bits % 0x8000_0000;
        let whole: u64 = nearest_magnitude(magnitude);
        if self.bits >= 0x8000_0000 {
            (-(whole as i64)) as i32
        } else if whole < 0x8000_0000 {
            whole as i32
        } else {
            i32::MAX
        }
    }

    /// The order `<` of binary32.
    pub fn less(self, other: F32) -> (r: bool)
        ensures
            r == self.below(other),
    {
        proof {
            lemma_key_orders(self, other);
        }
        !self.is_nan() && !other.is_nan() && self.order_key() < other.order_key()
    }
}

/// The whole number nearest to a magnitude, or 2^31 if that is smaller.
fn nearest_magnitude(magnitude: u32) -> (whole: u64)
    ensures
        ({
            let exact = (magnitude_units(magnitude as nat, 0x80_0000) + pow2(148)) / pow2(149);
            whole == if exact <= 0x8000_0000 {
                exact
            } else {
                0x8000_0000
            }
        }),
{
    let exponent: u32 = magnitude / 0x80_0000;
    let fraction: u32 = magnitude % 0x80_0000;
    let significand: u64 = 0x80_0000 + fraction as u64;
    let ghost exact = (magnitude_units(magnitude as nat, 0x80_0000) + pow2(148)) / pow2(149);
    let ghost m = significand as nat;
    if exponent == 0 {
        proof {
            lemma2_to64();
            lemma_pow2_unfold(149);
            lemma_pow2_strictly_increases(23, 148);
            assert(exact == 0) by {
                vstd::arithmetic::div_mod::lemma_basic_div(fraction + pow2(148), pow2(149) as int);
            }
        }
        return 0;
    }
    if exponent < 150 {
        let shift: u64 = 150 - exponent as u64;
        proof {
            lemma_round_below_unit(m, exponent as nat, shift as nat);
            lemma2_to64();
        }
        if shift > 25 {
            proof {
                lemma_pow2_unfold(shift as nat);
                if shift > 26 {
                    lemma_pow2_strictly_increases(25, (shift - 1) as nat);
                }
                vstd::arithmetic::div_mod::lemma_basic_div(
                    (m + pow2((shift - 1) as nat)) as int,
                    pow2(shift as nat) as int,
                );
            }
            return 0;
        }
        proof {
            lemma_pow2_unfold(shift as nat);
            if shift < 25 {
                lemma_pow2_strictly_increases(shift as nat, 25);
            }
            vstd::bits::lemma_u64_shl_is_mul(1, (shift - 1) as u64);
        }
        let half: u64 = 1u64 << (shift - 1);
        let sum: u64 = significand + half;
        proof {
            vstd::bits::lemma_u64_shr_is_div(sum, shift);
            assert(exact <= sum) by (nonlinear_arith)
                requires
                    exact == sum as nat / pow2(shift as nat),
                    pow2(shift as nat) >= 1,
            ;
        }
        return sum >> shift;
    }
    let shift: u64 = exponent as u64 - 150;
    proof {
        lemma_round_above_unit(m, exponent as nat, shift as nat);
        lemma2_to64();
    }
    if shift > 7 {
        proof {
            if shift > 8 {
                lemma_pow2_strictly_increases(8, shift as nat);
            }
            assert(exact >= 0x8000_0000) by (nonlinear_arith)
                requires
                    exact == m * pow2(shift as nat),
                    m >= 0x80_0000,
                    pow2(shift as nat) >= 0x100,
            ;
        }
        return 0x8000_0000;
    }
    proof {
        if shift < 7 {
            lemma_pow2_strictly_increases(shift as nat, 7);
        }
        assert(m * pow2(shift as nat) < 0x8000_0000) by (nonlinear_arith)
            requires
                m < 0x100_0000,
                pow2(shift as nat) <= 0x80,
        ;
        vstd::bits::lemma_u64_shl_is_mul(significand, shift);
    }
    significand << shift
}

/// Rounding a magnitude whose last bit counts less than 1.
proof fn lemma_round_below_unit(m: nat, exponent: nat, shift: nat)
    requires
        1 <= exponent < 150,
        shift == 150 - exponent,
    ensures
        (m * pow2((exponent - 1) as nat) + pow2(148)) / pow2(149) == (m + pow2((shift - 1) as nat))
            / pow2(shift),
{
    let p = pow2((exponent - 1) as nat);
    lemma_pow2_pos((exponent - 1) as nat);
    lemma_pow2_pos(shift);
    lemma_pow2_adds((shift - 1) as nat, (exponent - 1) as nat);
    lemma_pow2_adds(shift, (exponent - 1) as nat);
    let half = pow2((shift - 1) as nat);
    assert(m * p + half * p == p * (m + half)) by (nonlinear_arith);
    assert(pow2(shift) * p == p * pow2(shift)) by (nonlinear_arith);
    vstd::arithmetic::div_mod::lemma_div_multiples_vanish_quotient(
        p as int,
        (m + half) as int,
        pow2(shift) as int,
    );
}

/// Rounding a magnitude that is a whole number.
proof fn lemma_round_above_unit(m: nat, exponent: nat, shift: nat)
    requires
        150 <= exponent,
        shift == exponent - 150,
    ensures
        (m * pow2((exponent - 1) as nat) + pow2(148)) / pow2(149) == m * pow2(shift),
{
    lemma_pow2_adds(shift, 149);
    lemma_pow2_unfold(149);
    lemma_pow2_pos(148);
    let p = pow2(shift);
    let unit = pow2(149);
    assert(m * (p * unit) == (m * p) * unit) by (nonlinear_arith);
    vstd::arithmetic::div_mod::lemma_fundamental_div_mod_converse(
        ((m * p) * unit + pow2(148)) as int,
        unit as int,
        (m * p) as int,
        pow2(148) as int,
    );
}

/// The largest finite binary32 number.
pub open spec fn largest_single() -> F32 {
    F32 { bits: 0x7f7f_ffff }
}

/// The smallest finite binary32 number.
pub open spec fn smallest_single() -> F32 {
    F32 { bits: 0xff7f_ffff }
}

/// The signed encoding orders any two encodings as their values do.
pub proof fn lemma_key_orders(a: F32, b: F32)
    ensures
        a.key() < b.key() <==> a.value() < b.value(),
        a.key() == b.key() <==> a.value() == b.value(),
{
    let half = 0x80_0000nat;
    let (ma, mb) = (a.magnitude(), b.magnitude());
    assert(magnitude_units(0, half) == 0);
    if ma < mb {
        lemma_magnitude_increases(ma, mb, half);
    }
    if mb < ma {
        lemma_magnitude_increases(mb, ma, half);
    }
    if ma > 0 {
        lemma_magnitude_increases(0, ma, half);
    }
    if mb > 0 {
        lemma_magnitude_increases(0, mb, half);
    }
}

/// A binary64 number.
#[derive(Clone, Copy, Debug, PartialEq, Eq, Structural)]
pub struct F64 {
    /// The IEEE 754 encoding: sign, 11 exponent bits, 52 fraction bits.
    pub bits: u64,
}

impl F64 {
    /// The encoding without its sign bit.
    pub open spec fn magnitude(self) -> nat {
        (self.bits % 0x8000_0000_0000_0000) as nat
    }

    /// Whether the encoding is one of the not-a-number patterns.
    pub open spec fn nan(self) -> bool {
        self.magnitude() > 0x7ff0_0000_0000_0000
    }

    /// The number in units of 2^-1074. Infinities lie beyond all finite numbers.
    pub open spec fn value(self) -> int {
        let units = magnitude_units(self.magnitude(), 0x10_0000_0000_0000) as int;
        if self.bits >= 0x8000_0000_0000_0000 {
            -units
        } else {
            units
        }
    }

    /// Whether the encoding is one of the not-a-number patterns.
    pub fn is_nan(self) -> (r: bool)
        ensures
            r == self.nan(),
    {
        self.bits % 0x8000_0000_0000_0000 > 0x7ff0_0000_0000_0000
    }
}

// ---- from binary64 to binary32 ----

/// The value of a binary32 encoding without its sign, in units of 2^-149. That of
/// infinity is 2^128, the number that would come next.
pub open spec fn units32(encoding: nat) -> nat {
    magnitude_units(encoding, 0x80_0000)
}

/// Whether a magnitude, in units of 2^-1074, is rounded to a binary32 encoding:
/// it is not beyond the middle between the encoding and its neighbours, and in
/// the middle only where the encoding is even.
pub open spec fn magnitude_rounds(units: nat, encoding: nat) -> bool {
    &&& encoding <= 0x7f80_0000
    &&& encoding > 0 ==> {
        let middle = (units32((encoding - 1) as nat) + units32(encoding)) * pow2(925);
        2 * units > middle || 2 * units == middle && encoding % 2 == 0
    }
    &&& encoding < 0x7f80_0000 ==> {
        let middle = (units32(encoding) + units32(encoding + 1)) * pow2(925);
        2 * units < middle || 2 * units == middle && encoding % 2 == 0
    }
}

impl F64 {
    /// The magnitude in units of 2^-1074.
    pub open spec fn units(self) -> nat {
        magnitude_units(self.magnitude(), 0x10_0000_0000_0000)
    }

    /// Whether `r` is the nearest binary32 number, of the same sign; of two that
    /// are equally near, the one with an even encoding. What is not a number
    /// stays so.
    pub open spec fn rounds_to(self, r: F32) -> bool {
        if self.nan() {
            r.nan()
        } else {
            &&& r.bits >= 0x8000_0000 <==> self.bits >= 0x8000_0000_0000_0000
            &&& magnitude_rounds(self.units(), r.magnitude())
        }
    }

    /// The nearest binary32 number.
    pub fn to_f32(self) -> (r: F32)
        ensures
            self.rounds_to(r),
    {
        if self.is_nan() {
            return F32 { bits: 0x7fc0_0000 };
        }
        let encoding: u32 = narrow(self.bits % 0x8000_0000_0000_0000);
        if self.bits >= 0x8000_0000_0000_0000 {
            F32 { bits: encoding + 0x8000_0000 }
        } else {
            F32 { bits: encoding }
        }
    }
}

/// Round a binary64 encoding, without its sign, to a binary32 encoding.
fn narrow(magnitude: u64) -> (encoding: u32)
    requires
        magnitude <= 0x7ff0_0000_0000_0000,
    ensures
        magnitude_rounds(magnitude_units(magnitude as nat, 0x10_0000_0000_0000), encoding as nat),
{
    let exponent: u64 = magnitude / 0x10_0000_0000_0000;
    let fraction: u64 = magnitude % 0x10_0000_0000_0000;
    let ghost units = magnitude_units(magnitude as nat, 0x10_0000_0000_0000);
    proof {
        lemma2_to64();
        lemma2_to64_rest();
    }
    if exponent >= 1151 {
        proof {
            lemma_beyond_range(fraction as nat, exponent as nat);
        }
        return 0x7f80_0000;
    }
    if exponent >= 897 {
        let kept: u64 = fraction / 0x2000_0000;
        let rest: u64 = fraction % 0x2000_0000;
        let low: u64 = (exponent - 896) * 0x80_0000 + kept;
        proof {
            lemma_pow2_pos((exponent - 1) as nat);
            lemma_normal_steps(exponent as nat, fraction as nat, kept as nat, rest as nat, low as nat);
            lemma_rounding(
                units,
                low as nat,
                rest as nat,
                0x2000_0000,
                pow2((exponent - 1) as nat),
            );
        }
        return rounded_encoding(low, rest, 0x1000_0000);
    }
    if exponent == 0 || exponent < 872 {
        proof {
            lemma_below_range(units, fraction as nat, exponent as nat);
        }
        return 0;
    }
    let significand: u64 = 0x10_0000_0000_0000 + fraction;
    let shift: u64 = 926 - exponent;
    proof {
        lemma_pow2_unfold(shift as nat);
        lemma_pow2_pos((shift - 1) as nat);
        lemma_pow2_strictly_increases((shift - 1) as nat, 54);
        lemma_pow2_strictly_increases(29, shift as nat);
        vstd::bits::lemma_u64_shl_is_mul(1, (shift - 1) as u64);
    }
    let half: u64 = 1u64 << (shift - 1);
    let width: u64 = 2 * half;
    let kept: u64 = significand / width;
    let rest: u64 = significand % width;
    proof {
        lemma_pow2_pos((exponent - 1) as nat);
        lemma_subnormal_steps(
            exponent as nat,
            significand as nat,
            shift as nat,
            kept as nat,
            rest as nat,
        );
        lemma_rounding(units, kept as nat, rest as nat, width as nat, pow2((exponent - 1) as nat));
    }
    rounded_encoding(kept, rest, half)
}

/// Round up past the middle, and in the middle to an even encoding.
fn rounded_encoding(low: u64, rest: u64, half: u64) -> (encoding: u32)
    requires
        low < 0x7f80_0000,
    ensures
        encoding == if rest > half || rest == half && low % 2 == 1 {
            low + 1
        } else {
            low as int
        },
{
    if rest > half || rest == half && low % 2 == 1 {
        (low + 1) as u32
    } else {
        low as u32
    }
}

/// A magnitude between two neighbouring encodings is rounded to the nearer.
proof fn lemma_rounding(units: nat, low: nat, rest: nat, width: nat, step: nat)
    requires
        low < 0x7f80_0000,
        rest < width,
        width % 2 == 0,
        step > 0,
        units == units32(low) * pow2(925) + rest * step,
        units32(low + 1) * pow2(925) == units32(low) * pow2(925) + width * step,
    ensures
        magnitude_rounds(
            units,
            if rest > width / 2 || rest == width / 2 && low % 2 == 1 {
                low + 1
            } else {
                low
            },
        ),
{
    let unit = pow2(925);
    lemma_pow2_pos(925);
    let half = width / 2;
    let a = units32(low);
    let b = units32(low + 1);
    assert((a + b) * unit == a * unit + b * unit) by (nonlinear_arith);
    assert(width * step == 2 * (half * step)) by (nonlinear_arith)
        requires
            width == 2 * half,
    ;
    assert(rest * step < width * step) by (nonlinear_arith)
        requires
            rest < width,
            step > 0,
    ;
    if rest > half || rest == half && low % 2 == 1 {
        assert(rest * step >= half * step) by (nonlinear_arith)
            requires
                rest >= half,
                step > 0,
        ;
        assert(rest > half ==> rest * step > half * step) by (nonlinear_arith)
            requires
                step > 0,
        ;
        if low + 1 < 0x7f80_0000 {
            lemma_magnitude_increases(low + 1, low + 2, 0x80_0000);
            let c = units32(low + 2);
            assert((b + c) * unit > 2 * (b * unit)) by (nonlinear_arith)
                requires
                    c > b,
                    unit > 0,
            ;
        }
    } else {
        assert(rest * step <= half * step) by (nonlinear_arith)
            requires
                rest <= half,
                step > 0,
        ;
        assert(rest < half ==> rest * step < half * step) by (nonlinear_arith)
            requires
                step > 0,
        ;
        assert(rest * step >= 0) by (nonlinear_arith)
            requires
                step > 0,
        ;
        if low > 0 {
            lemma_magnitude_increases((low - 1) as nat, low, 0x80_0000);
            let c = units32((low - 1) as nat);
            assert((c + a) * unit < 2 * (a * unit)) by (nonlinear_arith)
                requires
                    c < a,
                    unit > 0,
            ;
        }
    }
}

/// The two encodings around a magnitude in the normal range.
proof fn lemma_normal_steps(exponent: nat, fraction: nat, kept: nat, rest: nat, low: nat)
    requires
        897 <= exponent <= 1150,
        fraction < 0x10_0000_0000_0000,
        kept == fraction / 0x2000_0000,
        rest == fraction % 0x2000_0000,
        low == (exponent - 896) * 0x80_0000 + kept,
    ensures
        low < 0x7f80_0000,
        (0x10_0000_0000_0000 + fraction) * pow2((exponent - 1) as nat) == units32(low) * pow2(925)
            + rest * pow2((exponent - 1) as nat),
        units32(low + 1) * pow2(925) == units32(low) * pow2(925) + 0x2000_0000 * pow2(
            (exponent - 1) as nat,
        ),
{
    let e = (exponent - 896) as nat;
    let step = pow2((exponent - 1) as nat);
    let p = pow2((e - 1) as nat);
    lemma2_to64();
    assert(kept < 0x80_0000);
    assert(low / 0x80_0000 == e && low % 0x80_0000 == kept);
    assert(units32(low) == (0x80_0000 + kept) * p);
    lemma_pow2_adds((e - 1) as nat, 925);
    lemma_pow2_adds(29, (exponent - 1) as nat);
    assert(p * pow2(925) == 0x2000_0000 * step);
    assert(((0x80_0000 + kept) * p) * pow2(925) == (0x80_0000 + kept) * (p * pow2(925)))
        by (nonlinear_arith);
    assert((0x80_0000 + kept) * (0x2000_0000 * step) == ((0x80_0000 + kept) * 0x2000_0000) * step)
        by (nonlinear_arith);
    assert(((0x80_0000 + kept) * 0x2000_0000) * step + rest * step == ((0x80_0000 + kept)
        * 0x2000_0000 + rest) * step) by (nonlinear_arith);
    assert(0x10_0000_0000_0000 + fraction == (0x80_0000 + kept) * 0x2000_0000 + rest);
    if kept + 1 < 0x80_0000 {
        assert((low + 1) / 0x80_0000 == e && (low + 1) % 0x80_0000 == kept + 1);
        assert(units32(low + 1) == (0x80_0000 + kept + 1) * p);
    } else {
        assert((low + 1) / 0x80_0000 == e + 1 && (low + 1) % 0x80_0000 == 0);
        lemma_pow2_unfold(e);
        assert(units32(low + 1) == 0x80_0000 * pow2(e));
        assert(0x80_0000 * (2 * p) == (0x80_0000 + kept + 1) * p) by (nonlinear_arith)
            requires
                kept + 1 == 0x80_0000,
        ;
    }
    assert((0x80_0000 + kept + 1) * p == (0x80_0000 + kept) * p + p) by (nonlinear_arith);
    assert(((0x80_0000 + kept) * p + p) * pow2(925) == ((0x80_0000 + kept) * p) * pow2(925) + p
        * pow2(925)) by (nonlinear_arith);
}

/// The two encodings around a magnitude in the subnormal range.
proof fn lemma_subnormal_steps(exponent: nat, significand: nat, shift: nat, kept: nat, rest: nat)
    requires
        872 <= exponent <= 896,
        significand < 0x20_0000_0000_0000,
        shift == 926 - exponent,
        kept == significand / pow2(shift),
        rest == significand % pow2(shift),
    ensures
        kept < 0x80_0000,
        significand * pow2((exponent - 1) as nat) == units32(kept) * pow2(925) + rest * pow2(
            (exponent - 1) as nat,
        ),
        units32(kept + 1) * pow2(925) == units32(kept) * pow2(925) + pow2(shift) * pow2(
            (exponent - 1) as nat,
        ),
{
    let step = pow2((exponent - 1) as nat);
    let width = pow2(shift);
    lemma2_to64();
    lemma2_to64_rest();
    lemma_pow2_pos(shift);
    if shift > 30 {
        lemma_pow2_strictly_increases(30, shift);
    }
    lemma_pow2_adds(shift, (exponent - 1) as nat);
    assert(width * step == pow2(925));
    vstd::arithmetic::div_mod::lemma_fundamental_div_mod(significand as int, width as int);
    assert(kept < 0x80_0000) by (nonlinear_arith)
        requires
            significand == width * kept + rest,
            significand < 0x20_0000_0000_0000,
            width >= 0x4000_0000,
            rest >= 0,
    ;
    assert(units32(kept) == kept);
    assert(units32(kept + 1) == kept + 1) by {
        if kept + 1 == 0x80_0000 {
            let next = kept + 1;
            assert(next / 0x80_0000 == 1 && next % 0x80_0000 == 0);
            assert(0x80_0000 * pow2(0) == 0x80_0000) by (nonlinear_arith)
                requires
                    pow2(0) == 1,
            ;
        } else {
            let next = kept + 1;
            assert(next / 0x80_0000 == 0 && next % 0x80_0000 == next);
        }
    }
    assert((width * kept + rest) * step == kept * (width * step) + rest * step) by (nonlinear_arith);
    assert((kept + 1) * (width * step) == kept * (width * step) + width * step) by (nonlinear_arith);
}

/// Magnitudes from 2^128 on are rounded to infinity.
proof fn lemma_beyond_range(fraction: nat, exponent: nat)
    requires
        1151 <= exponent,
    ensures
        magnitude_rounds((0x10_0000_0000_0000 + fraction) * pow2((exponent - 1) as nat), 0x7f80_0000),
{
    let units = (0x10_0000_0000_0000 + fraction) * pow2((exponent - 1) as nat);
    let top = units32(0x7f80_0000);
    lemma2_to64();
    lemma2_to64_rest();
    lemma_pow2_pos(925);
    lemma_magnitude_increases(0x7f7f_ffff, 0x7f80_0000, 0x80_0000);
    assert(top == 0x80_0000 * pow2(254));
    lemma_pow2_adds(23, 254);
    lemma_pow2_adds(277, 925);
    lemma_pow2_adds(52, 1150);
    assert(top * pow2(925) == pow2(1202));
    if exponent > 1151 {
        lemma_pow2_strictly_increases(1150, (exponent - 1) as nat);
    }
    assert(units >= pow2(52) * pow2(1150)) by (nonlinear_arith)
        requires
            units == (0x10_0000_0000_0000 + fraction) * pow2((exponent - 1) as nat),
            pow2(52) == 0x10_0000_0000_0000,
            pow2((exponent - 1) as nat) >= pow2(1150),
            pow2(1150) >= 0,
    ;
    let below = units32(0x7f7f_ffff);
    assert((below + top) * pow2(925) < 2 * (top * pow2(925))) by (nonlinear_arith)
        requires
            below < top,
            pow2(925) > 0,
    ;
}

/// Magnitudes far below the smallest binary32 number are rounded to 0.
proof fn lemma_below_range(units: nat, fraction: nat, exponent: nat)
    requires
        exponent < 872,
        fraction < 0x10_0000_0000_0000,
        units == if exponent == 0 {
            fraction
        } else {
            (0x10_0000_0000_0000 + fraction) * pow2((exponent - 1) as nat)
        },
    ensures
        magnitude_rounds(units, 0),
{
    lemma2_to64();
    lemma2_to64_rest();
    assert(units32(0) == 0);
    assert(units32(1) == 1);
    lemma_pow2_unfold(925);
    lemma_pow2_unfold(924);
    lemma_pow2_adds(53, 870);
    assert((units32(0) + units32(1)) * pow2(925) == pow2(925)) by (nonlinear_arith)
        requires
            units32(0) + units32(1) == 1,
    ;
    if exponent == 0 {
        lemma_pow2_strictly_increases(52, 924);
    } else {
        lemma_pow2_pos((exponent - 1) as nat);
        if exponent < 871 {
            lemma_pow2_strictly_increases((exponent - 1) as nat, 870);
        }
        assert(units < pow2(53) * pow2(870)) by (nonlinear_arith)
            requires
                units == (0x10_0000_0000_0000 + fraction) * pow2((exponent - 1) as nat),
                fraction < 0x10_0000_0000_0000,
                pow2(53) == 0x20_0000_0000_0000,
                0 < pow2((exponent - 1) as nat) <= pow2(870),
        ;
    }
}

// ---- from whole numbers ----

/// Whether `r` is the binary32 number nearest to a whole number; of two that are
/// equally near, the one with an even encoding.
pub open spec fn whole_rounds_to(n: int, r: F32) -> bool {
    &&& r.bits >= 0x8000_0000 <==> n < 0
    &&& magnitude_rounds(
        (if n < 0 {
            -n
        } else {
            n
        }) as nat * pow2(1074),
        r.magnitude(),
    )
}

/// The binary32 number nearest to a whole number.
pub open spec fn nearest_single(n: int) -> F32 {
    choose|r: F32| whole_rounds_to(n, r)
}

impl F64 {
    /// A whole number, which binary64 holds exactly.
    pub fn from_whole(n: i32) -> (r: F64)
        ensures
            !r.nan(),
            r.bits >= 0x8000_0000_0000_0000 <==> n < 0,
            r.value() == n * pow2(1074),
    {
        if n == 0 {
            proof {
                assert(magnitude_units(0, 0x10_0000_0000_0000) == 0);
                assert(0 * pow2(1074) == 0) by (nonlinear_arith);
            }
            return F64 { bits: 0 };
        }
        let m: u64 = if n < 0 {
            (-(n as i64)) as u64
        } else {
            n as u64
        };
        let digits: u32 = bit_length(m);
        proof {
            lemma_digits_bound(m as nat, digits as nat);
        }
        let shift: u64 = 53 - digits as u64;
        proof {
            lemma_whole_significand(m as nat, digits as nat);
            lemma2_to64_rest();
            vstd::bits::lemma_u64_shl_is_mul(m, shift);
        }
        let significand: u64 = m << shift;
        let exponent: u64 = 1022 + digits as u64;
        let magnitude: u64 = exponent * 0x10_0000_0000_0000 + (significand - 0x10_0000_0000_0000);
        proof {
            vstd::arithmetic::div_mod::lemma_fundamental_div_mod_converse(
                magnitude as int,
                0x10_0000_0000_0000,
                exponent as int,
                significand - 0x10_0000_0000_0000,
            );
            assert(magnitude_units(magnitude as nat, 0x10_0000_0000_0000) == significand * pow2(
                (exponent - 1) as nat,
            ));
        }
        if n < 0 {
            assert((-(m as int)) * pow2(1074) == -(m * pow2(1074))) by (nonlinear_arith);
            F64 { bits: magnitude + 0x8000_0000_0000_0000 }
        } else {
            F64 { bits: magnitude }
        }
    }
}

impl F32 {
    /// The binary32 number nearest to a whole number.
    pub fn from_whole(n: i32) -> (r: F32)
        ensures
            r == nearest_single(n as int),
            whole_rounds_to(n as int, r),
            !r.nan(),
    {
        let wide = F64::from_whole(n);
        let r = wide.to_f32();
        proof {
            if n < 0 {
                assert(-(n * pow2(1074)) == (-n) * pow2(1074)) by (nonlinear_arith);
            }
            assert(whole_rounds_to(n as int, r));
            let s = nearest_single(n as int);
            let (a, b) = (r.magnitude(), s.magnitude());
            if a < b {
                lemma_not_both(wide.units(), a, b);
            } else if b < a {
                lemma_not_both(wide.units(), b, a);
            }
        }
        r
    }
}

/// A 32-bit number that is not 0 has 1 to 32 binary digits.
proof fn lemma_digits_bound(m: nat, digits: nat)
    requires
        0 < m <= 0x8000_0000,
        digits == binary_digits(m),
    ensures
        1 <= digits <= 32,
        pow2((digits - 1) as nat) <= m < pow2(digits),
{
    lemma2_to64();
    lemma_binary_digits(m, 32);
    lemma_binary_digits(m, 0);
    lemma_binary_digits(m, digits);
    lemma_binary_digits(m, (digits - 1) as nat);
}

/// The significand of a whole number, and what it stands for.
proof fn lemma_whole_significand(m: nat, digits: nat)
    requires
        1 <= digits <= 32,
        pow2((digits - 1) as nat) <= m < pow2(digits),
    ensures
        pow2(52) <= m * pow2((53 - digits) as nat) < pow2(53),
        (m * pow2((53 - digits) as nat)) * pow2((1021 + digits) as nat) == m * pow2(1074),
{
    let p = pow2((53 - digits) as nat);
    lemma_pow2_pos((53 - digits) as nat);
    lemma_pow2_adds((digits - 1) as nat, (53 - digits) as nat);
    lemma_pow2_adds(digits, (53 - digits) as nat);
    lemma_pow2_adds((53 - digits) as nat, (1021 + digits) as nat);
    let low = pow2((digits - 1) as nat);
    let high = pow2(digits);
    assert(low * p <= m * p < high * p) by (nonlinear_arith)
        requires
            low <= m < high,
            p > 0,
    ;
    let q = pow2((1021 + digits) as nat);
    assert((m * p) * q == m * (p * q)) by (nonlinear_arith);
}

/// A number is rounded to one number only.
pub proof fn law_rounding_unique(x: F64, r: F32, s: F32)
    requires
        !x.nan(),
        x.rounds_to(r),
        x.rounds_to(s),
    ensures
        r == s,
{
    let (a, b) = (r.magnitude(), s.magnitude());
    if a < b {
        lemma_not_both(x.units(), a, b);
    } else if b < a {
        lemma_not_both(x.units(), b, a);
    }
}

/// A magnitude is not rounded to two encodings.
proof fn lemma_not_both(units: nat, a: nat, b: nat)
    requires
        a < b,
    ensures
        !(magnitude_rounds(units, a) && magnitude_rounds(units, b)),
{
    let unit = pow2(925);
    lemma_pow2_pos(925);
    let up = (units32(a) + units32(a + 1)) * unit;
    let down = (units32((b - 1) as nat) + units32(b)) * unit;
    if a + 1 < b {
        lemma_magnitude_increases(a, (b - 1) as nat, 0x80_0000);
        lemma_magnitude_increases(a + 1, b, 0x80_0000);
        assert(up < down) by (nonlinear_arith)
            requires
                up == (units32(a) + units32(a + 1)) * unit,
                down == (units32((b - 1) as nat) + units32(b)) * unit,
                units32(a) < units32((b - 1) as nat),
                units32(a + 1) < units32(b),
                unit > 0,
        ;
    }
}

/// A number that binary32 can hold is rounded to itself.
pub proof fn law_rounding_keeps_exact(x: F64, r: F32)
    requires
        !x.nan(),
        r.magnitude() <= 0x7f80_0000,
        r.bits >= 0x8000_0000 <==> x.bits >= 0x8000_0000_0000_0000,
        x.units() == units32(r.magnitude()) * pow2(925),
    ensures
        x.rounds_to(r),
{
    let unit = pow2(925);
    lemma_pow2_pos(925);
    let e = r.magnitude();
    let a = units32(e);
    if e > 0 {
        lemma_magnitude_increases((e - 1) as nat, e, 0x80_0000);
        let b = units32((e - 1) as nat);
        assert((b + a) * unit < 2 * (a * unit)) by (nonlinear_arith)
            requires
                b < a,
                unit > 0,
        ;
    }
    if e < 0x7f80_0000 {
        lemma_magnitude_increases(e, e + 1, 0x80_0000);
        let b = units32(e + 1);
        assert((a + b) * unit > 2 * (a * unit)) by (nonlinear_arith)
            requires
                b > a,
                unit > 0,
        ;
    }
}

/// Whether a magnitude lies at or above the point from which on it is rounded up to
/// `encoding`.
spec fn reaches(units: nat, encoding: nat) -> bool {
    encoding > 0 ==> {
        let middle = (units32((encoding - 1) as nat) + units32(encoding)) * pow2(925);
        2 * units > middle || 2 * units == middle && encoding % 2 == 0
    }
}

/// Among the encodings up to a limit there is a last one that a magnitude reaches.
proof fn lemma_last_reached(units: nat, limit: nat) -> (encoding: nat)
    ensures
        encoding <= limit,
        reaches(units, encoding),
        encoding < limit ==> !reaches(units, encoding + 1),
    decreases limit,
{
    if limit == 0 || reaches(units, limit) {
        limit
    } else {
        let below = lemma_last_reached(units, (limit - 1) as nat);
        below
    }
}

/// A whole number has a nearest number, and it is the one that stands for it.
pub proof fn law_nearest_single_rounds(n: i32)
    ensures
        whole_rounds_to(n as int, nearest_single(n as int)),
{
    let units = (if n < 0 {
        -n
    } else {
        n as int
    }) as nat * pow2(1074);
    let encoding = lemma_last_reached(units, 0x7f80_0000);
    let r = F32 {
        bits: (if n < 0 {
            encoding + 0x8000_0000
        } else {
            encoding
        }) as u32,
    };
    assert(r.magnitude() == encoding);
    assert(whole_rounds_to(n as int, r));
}

/// Whole numbers below 2 to the power of 24 are held exactly.
pub proof fn law_small_wholes_are_exact(n: i32)
    requires
        -0x100_0000 < n < 0x100_0000,
    ensures
        nearest_single(n as int).value() == n * pow2(149),
        !nearest_single(n as int).nan(),
{
    law_nearest_single_rounds(n);
    let r = nearest_single(n as int);
    let m = (if n < 0 {
        -n
    } else {
        n as int
    }) as nat;
    let encoding = if m == 0 {
        0
    } else {
        lemma_small_whole(m)
    };
    lemma2_to64();
    lemma2_to64_rest();
    lemma_pow2_adds(149, 925);
    assert(m * pow2(149) * pow2(925) == m * pow2(1074)) by (nonlinear_arith)
        requires
            pow2(149) * pow2(925) == pow2(1074),
    ;
    assert(0 * pow2(149) == 0 && 0 * pow2(1074) == 0) by (nonlinear_arith);
    assert(units32(encoding) == m * pow2(149));
    lemma_exact_rounds(encoding);
    let units = m * pow2(1074);
    if r.magnitude() < encoding {
        lemma_not_both(units, r.magnitude(), encoding);
    } else if encoding < r.magnitude() {
        lemma_not_both(units, encoding, r.magnitude());
    }
    assert((-(m as int)) * pow2(149) == -(m * pow2(149))) by (nonlinear_arith);
}

/// The encoding of a small whole number.
proof fn lemma_small_whole(m: nat) -> (encoding: nat)
    requires
        0 < m < 0x100_0000,
    ensures
        encoding < 0x7f80_0000,
        units32(encoding) == m * pow2(149),
{
    let digits = binary_digits(m);
    lemma_digits_bound(m, digits);
    lemma2_to64();
    lemma_binary_digits(m, 24);
    let p = pow2((24 - digits) as nat);
    lemma_pow2_pos((24 - digits) as nat);
    lemma_pow2_adds((digits - 1) as nat, (24 - digits) as nat);
    lemma_pow2_adds(digits, (24 - digits) as nat);
    let (low, high) = (pow2((digits - 1) as nat), pow2(digits));
    assert(low * p <= m * p < high * p) by (nonlinear_arith)
        requires
            low <= m < high,
            p > 0,
    ;
    let significand = m * p;
    let exponent = 126 + digits;
    let encoding = (exponent * 0x80_0000 + (significand - 0x80_0000)) as nat;
    vstd::arithmetic::div_mod::lemma_fundamental_div_mod_converse(
        encoding as int,
        0x80_0000,
        exponent as int,
        significand - 0x80_0000,
    );
    lemma_pow2_adds((24 - digits) as nat, (125 + digits) as nat);
    let q = pow2((125 + digits) as nat);
    assert((m * p) * q == m * (p * q)) by (nonlinear_arith);
    encoding
}

/// What an encoding stands for is rounded to it.
proof fn lemma_exact_rounds(encoding: nat)
    requires
        encoding <= 0x7f80_0000,
    ensures
        magnitude_rounds(units32(encoding) * pow2(925), encoding),
{
    let unit = pow2(925);
    lemma_pow2_pos(925);
    let here = units32(encoding);
    if encoding > 0 {
        let below = units32((encoding - 1) as nat);
        lemma_magnitude_increases((encoding - 1) as nat, encoding, 0x80_0000);
        assert(2 * (here * unit) > (below + here) * unit) by (nonlinear_arith)
            requires
                below < here,
                unit > 0,
        ;
    }
    if encoding < 0x7f80_0000 {
        let above = units32(encoding + 1);
        lemma_magnitude_increases(encoding, encoding + 1, 0x80_0000);
        assert(2 * (here * unit) < (here + above) * unit) by (nonlinear_arith)
            requires
                here < above,
                unit > 0,
        ;
    }
}

/// Rounding to a pixel goes to the nearest whole number, halves away from zero, and
/// to the ends of the range beyond it; what is no number goes to 0.
pub proof fn law_pixels_are_nearest(v: F32, r: i32)
    requires
        call_ensures(F32::round, (v,), r),
    ensures
        v.nan() ==> r == 0,
        !v.nan() && 0 <= v.value() < i32::MAX * pow2(149) + pow2(148) ==> r * pow2(149) - pow2(148)
            <= v.value() < r * pow2(149) + pow2(148),
        !v.nan() && i32::MIN * pow2(149) - pow2(148) < v.value() <= 0 ==> r * pow2(149) - pow2(148)
            < v.value() <= r * pow2(149) + pow2(148),
        !v.nan() && v.value() >= i32::MAX * pow2(149) + pow2(148) ==> r == i32::MAX,
        !v.nan() && v.value() <= i32::MIN * pow2(149) - pow2(148) ==> r == i32::MIN,
{
    let units = magnitude_units(v.magnitude(), 0x80_0000) as int;
    let (unit, half) = (pow2(149) as int, pow2(148) as int);
    lemma_pow2_pos(148);
    lemma_pow2_unfold(149);
    let whole = (units + half) / unit;
    vstd::arithmetic::div_mod::lemma_fundamental_div_mod(units + half, unit);
    let rest = (units + half) % unit;
    assert(units + half == whole * unit + rest && 0 <= rest < unit) by (nonlinear_arith)
        requires
            units + half == unit * whole + (units + half) % unit,
            rest == (units + half) % unit,
            0 <= (units + half) % unit < unit,
    ;
    assert((-whole) * unit == -(whole * unit)) by (nonlinear_arith);
    vstd::arithmetic::div_mod::lemma_div_pos_is_pos(units + half, unit);
    if whole <= i32::MAX {
        assert(whole * unit <= i32::MAX * unit) by (nonlinear_arith)
            requires
                whole <= i32::MAX,
                unit > 0,
        ;
    } else {
        assert(whole * unit >= (i32::MAX + 1) * unit) by (nonlinear_arith)
            requires
                whole >= i32::MAX + 1,
                unit > 0,
        ;
    }
    if whole <= 0x8000_0000 {
        assert(whole * unit <= 0x8000_0000 * unit) by (nonlinear_arith)
            requires
                whole <= 0x8000_0000,
                unit > 0,
        ;
    } else {
        assert(whole * unit >= 0x8000_0001 * unit) by (nonlinear_arith)
            requires
                whole >= 0x8000_0001,
                unit > 0,
        ;
    }
    if units == 0 {
        assert(whole == 0) by (nonlinear_arith)
            requires
                half == whole * unit + rest,
                0 <= rest,
                0 <= whole,
                unit == 2 * half,
                half > 0,
        ;
    }
}

/// A small whole number, rounded to a pixel, is itself.
pub proof fn law_wholes_round_to_themselves(n: i32, v: F32, r: i32)
    requires
        -0x100_0000 < n < 0x100_0000,
        call_ensures(F32::from_whole, (n,), v),
        call_ensures(F32::round, (v,), r),
    ensures
        r == n,
{
    law_small_wholes_are_exact(n);
    law_pixels_are_nearest(v, r);
    let (unit, half) = (pow2(149) as int, pow2(148) as int);
    lemma_pow2_pos(148);
    lemma_pow2_unfold(149);
    assert(-0x100_0000 * unit < n * unit < 0x100_0000 * unit) by (nonlinear_arith)
        requires
            -0x100_0000 < n < 0x100_0000,
            unit > 0,
    ;
    if n >= 0 {
        assert(0 <= n * unit) by (nonlinear_arith)
            requires
                0 <= n,
                unit > 0,
        ;
    } else {
        assert(n * unit <= 0) by (nonlinear_arith)
            requires
                n <= 0,
                unit > 0,
        ;
    }
    assert(r == n) by (nonlinear_arith)
        requires
            r * unit - half <= n * unit <= r * unit + half,
            unit == 2 * half,
            half > 0,
    ;
}

/// No binary32 number lies nearer to a binary64 number than the one that it is
/// rounded to.
pub proof fn law_rounding_is_nearest(x: F64, r: F32, s: F32)
    requires
        call_ensures(F64::to_f32, (x,), r),
        !x.nan(),
        s.magnitude() < 0x7f80_0000,
    ensures
        !r.nan(),
        r.magnitude() < 0x7f80_0000 ==> {
            let unit = pow2(925);
            let miss = x.value() - r.value() * unit;
            let other = x.value() - s.value() * unit;
            -(if other < 0 {
                -other
            } else {
                other
            }) <= miss <= if other < 0 {
                -other
            } else {
                other
            }
        },
{
    if r.magnitude() < 0x7f80_0000 {
        let unit = pow2(925) as int;
        lemma_pow2_pos(925);
        let (u, ur, us) = (
            x.units() as int,
            units32(r.magnitude()) as int,
            units32(s.magnitude()) as int,
        );
        lemma_nearer(x.units(), r.magnitude(), s.magnitude());
        lemma_nearer(x.units(), r.magnitude(), 0);
        assert(units32(0) == 0);
        assert(0 * unit == 0) by (nonlinear_arith);
        assert((-ur) * unit == -(ur * unit) && (-us) * unit == -(us * unit)) by (nonlinear_arith);
        assert(0 <= us * unit) by (nonlinear_arith)
            requires
                0 <= us,
                0 < unit,
        ;
    }
}

/// Of two encodings, the one that a magnitude is rounded to is no further away.
proof fn lemma_nearer(units: nat, r: nat, s: nat)
    requires
        magnitude_rounds(units, r),
        r < 0x7f80_0000,
        s < 0x7f80_0000,
    ensures
        ({
            let (here, there) = (units32(r) * pow2(925), units32(s) * pow2(925));
            let miss = units - here;
            let other = units - there;
            -(if other < 0 {
                -other
            } else {
                other
            }) <= miss <= if other < 0 {
                -other
            } else {
                other
            }
        }),
{
    let unit = pow2(925) as int;
    lemma_pow2_pos(925);
    let (ur, us) = (units32(r) as int, units32(s) as int);
    if s < r {
        let below = units32((r - 1) as nat) as int;
        if s < r - 1 {
            lemma_magnitude_increases(s, (r - 1) as nat, 0x80_0000);
        }
        lemma_magnitude_increases(s, r, 0x80_0000);
        assert(us * unit <= below * unit && us * unit <= ur * unit && (below + ur) * unit == below * unit
            + ur * unit) by (nonlinear_arith)
            requires
                us <= below,
                us <= ur,
                unit > 0,
        ;
    } else if r < s {
        let above = units32(r + 1) as int;
        if r + 1 < s {
            lemma_magnitude_increases(r + 1, s, 0x80_0000);
        }
        lemma_magnitude_increases(r, s, 0x80_0000);
        assert(us * unit >= above * unit && us * unit >= ur * unit && (ur + above) * unit == above * unit
            + ur * unit) by (nonlinear_arith)
            requires
                us >= above,
                us >= ur,
                unit > 0,
        ;
    }
}

/// An encoding is no number exactly if all bits of its exponent are set and its
/// fraction is not 0.
pub proof fn law_not_a_number(single: F32, double: F64, r: bool, s: bool)
    requires
        call_ensures(F32::is_nan, (single,), r),
        call_ensures(F64::is_nan, (double,), s),
    ensures
        r <==> single.bits / 0x80_0000 % 0x100 == 0xff && single.bits % 0x80_0000 != 0,
        s <==> double.bits / 0x10_0000_0000_0000 % 0x800 == 0x7ff && double.bits
            % 0x10_0000_0000_0000 != 0,
{
}

/// Numbers are compared as what they stand for: whole numbers as whole numbers. What is
/// no number is neither less nor greater than anything.
pub proof fn law_less(m: i32, n: i32, a: F32, b: F32, r: bool)
    requires
        call_ensures(F32::less, (a, b), r),
    ensures
        a.nan() || b.nan() ==> !r,
        -0x100_0000 < m < 0x100_0000 && -0x100_0000 < n < 0x100_0000 && call_ensures(
            F32::from_whole,
            (m,),
            a,
        ) && call_ensures(F32::from_whole, (n,), b) ==> (r <==> m < n),
{
    if -0x100_0000 < m < 0x100_0000 && -0x100_0000 < n < 0x100_0000 && call_ensures(
        F32::from_whole,
        (m,),
        a,
    ) && call_ensures(F32::from_whole, (n,), b) {
        law_small_wholes_are_exact(m);
        law_small_wholes_are_exact(n);
        lemma_pow2_pos(149);
        let unit = pow2(149) as int;
        assert(m * unit < n * unit <==> m < n) by (nonlinear_arith)
            requires
                unit > 0,
        ;
    }
}

/// The keys of numbers are ordered as the numbers are.
pub proof fn law_keys_order(a: F32, b: F32, ka: i64, kb: i64, r: bool)
    requires
        call_ensures(F32::order_key, (a,), ka),
        call_ensures(F32::order_key, (b,), kb),
        call_ensures(F32::less, (a, b), r),
        !a.nan(),
        !b.nan(),
    ensures
        r <==> ka < kb,
{
    lemma_key_orders(a, b);
}

} // verus!
