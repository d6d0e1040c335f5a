//! Fixed-point scalar used for every sample and every piece of DSP arithmetic.
//!
//! A value is a signed 64-bit integer holding a real number scaled by `2^32`
//! (a Q32.32 representation). All operations saturate at the ends of the
//! representable range, and every operation is specified exactly over the raw
//! integer, so that the rest of the signal path is deterministic.

use vstd::prelude::*;

verus! {

/// Scale factor of the representation: one unit of the real value.
pub const FP_SCALE: i64 = 0x1_0000_0000;

/// Raw value of the constant pi, rounded to the nearest representable value.
pub const FP_PI_BITS: i64 = 13493037705;

/// Magnitude of an integer.
pub open spec fn iabs(v: int) -> int {
    if v < 0 {
        -v
    } else {
        v
    }
}

/// Clamp an unbounded integer into the representable raw range.
pub open spec fn fp_sat(v: int) -> int {
    if v > i64::MAX as int {
        i64::MAX as int
    } else if v < i64::MIN as int {
        i64::MIN as int
    } else {
        v
    }
}

/// Raw result of a saturating addition.
pub open spec fn fp_add(a: int, b: int) -> int {
    fp_sat(a + b)
}

/// Raw result of a saturating subtraction.
pub open spec fn fp_sub(a: int, b: int) -> int {
    fp_sat(a - b)
}

/// Raw result of a saturating negation.
pub open spec fn fp_neg(a: int) -> int {
    fp_sat(-a)
}

/// Raw result of a saturating absolute value.
pub open spec fn fp_abs(a: int) -> int {
    fp_sat(iabs(a))
}

/// Raw result of a saturating product: magnitudes are multiplied, rescaled
/// rounding toward zero, and the sign is applied afterwards.
pub open spec fn fp_mul(a: int, b: int) -> int {
    let m = (iabs(a) * iabs(b)) / (FP_SCALE as int);
    if (a < 0) != (b < 0) {
        fp_sat(-m)
    } else {
        fp_sat(m)
    }
}

/// Raw result of a saturating quotient, rounded toward zero.
pub open spec fn fp_div(a: int, b: int) -> int {
    let m = (iabs(a) * (FP_SCALE as int)) / iabs(b);
    if (a < 0) != (b < 0) {
        fp_sat(-m)
    } else {
        fp_sat(m)
    }
}

/// Raw value representing the integer `v`.
pub open spec fn fp_of_int(v: int) -> int {
    fp_sat(v * (FP_SCALE as int))
}

/// Raw value returned by the sine routine for a given raw argument.
pub uninterp spec fn sin_bits_of(x: int) -> int;

/// Relies on cordic::sin over a Q32.32 number of the fixed crate: the result
/// is a pure function of the argument's raw value alone.
#[verifier::external_body]
fn sin_i32f32(x: i64) -> (r: i64)
    ensures
        r as int == sin_bits_of(x as int),
{
    cordic::sin(fixed::types::I32F32::from_bits(x)).to_bits()
}

/// The fixed-point scalar. `FP` stands for a real number equal to the raw
/// value divided by `2^32`; the view of a value is its raw integer.
#[derive(Clone, Copy, Debug, PartialEq, Eq, Structural)]
pub struct FP {
    bits: i64,
}

impl View for FP {
    type V = int;

    closed spec fn view(&self) -> int {
        self.bits as int
    }
}

impl FP {
    /// Build a scalar from its raw integer value.
    pub fn from_bits(bits: i64) -> (r: FP)
        ensures
            r@ == bits as int,
    {
        FP { bits }
    }

    /// Raw integer value of the scalar.
    pub fn to_bits(self) -> (r: i64)
        ensures
            r as int == self@,
    {
        self.bits
    }

    /// The value zero.
    pub fn zero() -> (r: FP)
        ensures
            r@ == 0,
    {
        FP { bits: 0 }
    }

    /// The value one.
    pub fn one() -> (r: FP)
        ensures
            r@ == FP_SCALE as int,
    {
        FP { bits: FP_SCALE }
    }

    /// The value pi.
    pub fn pi() -> (r: FP)
        ensures
            r@ == FP_PI_BITS as int,
    {
        FP { bits: FP_PI_BITS }
    }

    /// The scalar representing a machine integer.
    pub fn from_usize(v: usize) -> (r: FP)
        ensures
            r@ == fp_of_int(v as int),
    {
        if v > 0x7fff_ffff {
            FP { bits: i64::MAX }
        } else {
            FP { bits: (v as i64) * FP_SCALE }
        }
    }

    /// Integer part of a non-negative scalar.
    pub fn to_usize(self) -> (r: usize)
        requires
            self@ >= 0,
            self@ / (FP_SCALE as int) <= usize::MAX as int,
        ensures
            r as int == self@ / (FP_SCALE as int),
    {
        ((self.bits as u64) / (FP_SCALE as u64)) as usize
    }

    /// Saturating addition.
    pub fn add(self, rhs: FP) -> (r: FP)
        ensures
            r@ == fp_add(self@, rhs@),
    {
        match self.bits.checked_add(rhs.bits) {
            Some(v) => FP { bits: v },
            None => {
                if self.bits >= 0 {
                    FP { bits: i64::MAX }
                } else {
                    FP { bits: i64::MIN }
                }
            },
        }
    }

    /// Saturating subtraction.
    pub fn sub(self, rhs: FP) -> (r: FP)
        ensures
            r@ == fp_sub(self@, rhs@),
    {
        match self.bits.checked_sub(rhs.bits) {
            Some(v) => FP { bits: v },
            None => {
                if self.bits >= 0 {
                    FP { bits: i64::MAX }
                } else {
                    FP { bits: i64::MIN }
                }
            },
        }
    }

    /// Saturating negation.
    pub fn neg(self) -> (r: FP)
        ensures
            r@ == fp_neg(self@),
    {
        if self.bits == i64::MIN {
            FP { bits: i64::MAX }
        } else {
            FP { bits: -self.bits }
        }
    }

    /// Saturating absolute value.
    pub fn abs(self) -> (r: FP)
        ensures
            r@ == fp_abs(self@),
    {
        if self.bits < 0 {
            self.neg()
        } else {
            self
        }
    }

    /// Magnitude of the raw value as an unsigned integer.
    fn mag(self) -> (r: u64)
        ensures
            r as int == iabs(self@),
    {
        if self.bits >= 0 {
            self.bits as u64
        } else if self.bits == i64::MIN {
            0x8000_0000_0000_0000u64
        } else {
            (-self.bits) as u64
        }
    }

    /// Scalar with the given magnitude, clamped from above.
    fn from_pos_mag(m: u128) -> (r: FP)
        ensures
            r@ == fp_sat(m as int),
    {
        if m > i64::MAX as u128 {
            FP { bits: i64::MAX }
        } else {
            FP { bits: m as i64 }
        }
    }

    /// Scalar with the negated magnitude, clamped from below.
    fn from_neg_mag(m: u128) -> (r: FP)
        ensures
            r@ == fp_sat(-(m as int)),
    {
        if m >= 0x8000_0000_0000_0000u128 {
            FP { bits: i64::MIN }
        } else {
            FP { bits: -(m as i64) }
        }
    }

    /// Saturating product.
    pub fn mul(self, rhs: FP) -> (r: FP)
        ensures
            r@ == fp_mul(self@, rhs@),
    {
        let ma = self.mag() as u128;
        let mb = rhs.mag() as u128;
        assert(ma * mb <= 0x8000_0000_0000_0000u128 * 0x8000_0000_0000_0000u128)
            by (nonlinear_arith)
            requires
                ma <= 0x8000_0000_0000_0000u128,
                mb <= 0x8000_0000_0000_0000u128,
        ;
        let m = (ma * mb) / (FP_SCALE as u128);
        if (self.bits < 0) != (rhs.bits < 0) {
            Self::from_neg_mag(m)
        } else {
            Self::from_pos_mag(m)
        }
    }

    /// Saturating quotient; the divisor must not be zero.
    pub fn div(self, rhs: FP) -> (r: FP)
        requires
            rhs@ != 0,
        ensures
            r@ == fp_div(self@, rhs@),
    {
        let ma = self.mag() as u128;
        let mb = rhs.mag() as u128;
        assert(ma * (FP_SCALE as u128) <= 0x8000_0000_0000_0000u128 * 0x1_0000_0000u128)
            by (nonlinear_arith)
            requires
                ma <= 0x8000_0000_0000_0000u128,
        ;
        let m = (ma * (FP_SCALE as u128)) / mb;
        if (self.bits < 0) != (rhs.bits < 0) {
            Self::from_neg_mag(m)
        } else {
            Self::from_pos_mag(m)
        }
    }

    /// Sine of the scalar, computed by the trusted fixed-point routine.
    pub fn sin(self) -> (r: FP)
        ensures
            r@ == sin_bits_of(self@),
    {
        FP { bits: sin_i32f32(self.bits) }
    }

    /// Strict order on the represented values.
    pub fn gt(self, rhs: FP) -> (r: bool)
        ensures
            r == (self@ > rhs@),
    {
        self.bits > rhs.bits
    }

    /// Strict order on the represented values.
    pub fn lt(self, rhs: FP) -> (r: bool)
        ensures
            r == (self@ < rhs@),
    {
        self.bits < rhs.bits
    }
}

/// Views of a sequence of scalars: the sequence of their raw values.
pub open spec fn fp_views(s: Seq<FP>) -> Seq<int> {
    s.map_values(|x: FP| x@)
}

} // verus!
