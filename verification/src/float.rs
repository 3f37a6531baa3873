//! Numbers of the two binary interchange formats, held as bit patterns.
//!
//! The arithmetic is that of the machine's own floating-point unit with
//! rounding to nearest.  Not-a-number has many patterns; every operation
//! that computes one yields the same quiet pattern.
use crate::arith;
use crate::arith::{Parts, Toward};
use crate::rounding::Width;
use vstd::prelude::*;

verus! {

/// A 32-bit number.
#[derive(Clone, Copy, Debug, PartialEq, Eq, Structural)]
pub struct F32 {
    /// The bit pattern.
    pub bits: u32,
}

/// A 64-bit number.
#[derive(Clone, Copy, Debug, PartialEq, Eq, Structural)]
pub struct F64 {
    /// The bit pattern.
    pub bits: u64,
}

impl F32 {
    /// The number with the given bit pattern.
    #[verifier::inline]
    pub open spec fn spec_of(bits: u32) -> F32 {
        F32 { bits }
    }

    /// The number with the given bit pattern.
    #[verifier::when_used_as_spec(spec_of)]
    pub fn of(bits: u32) -> (r: F32)
        ensures
            r == F32::of(bits),
            r.bits == bits,
    {
        F32 { bits }
    }

    /// The sign and the encoding.
    pub open spec fn parts(self) -> Parts {
        Parts { neg: self.bits >= 0x8000_0000, code: (self.bits % 0x8000_0000) as u64 }
    }

    /// The pattern of a sign and an encoding.
    pub open spec fn of_parts(p: Parts) -> F32 {
        F32 {
            bits: (if p.neg {
                p.code + 0x8000_0000
            } else {
                p.code as int
            }) as u32,
        }
    }

    /// The sign and the encoding.
    fn split(self) -> (r: Parts)
        ensures
            r == self.parts(),
    {
        Parts { neg: self.bits >= 0x8000_0000, code: (self.bits % 0x8000_0000) as u64 }
    }

    /// The pattern of a sign and an encoding.
    fn join(p: Parts) -> (r: F32)
        requires
            p.fits(Width::Single),
        ensures
            r == F32::of_parts(p),
    {
        F32 {
            bits: if p.neg {
                p.code as u32 + 0x8000_0000
            } else {
                p.code as u32
            },
        }
    }

    /// `self + other`, rounded.
    #[verifier::opaque]
    pub open spec fn spec_plus(self, other: F32) -> F32 {
        F32::of_parts(Parts::sum(Width::Single, self.parts(), other.parts()))
    }

    /// `self + other`, rounded.
    #[verifier::when_used_as_spec(spec_plus)]
    pub fn plus(self, other: F32) -> (r: F32)
        ensures
            r == self.plus(other),
    {
        proof {
            reveal(F32::spec_plus);
            arith::lemma_fits(Width::Single, self.parts(), other.parts(), Toward::Down);
        }
        F32::join(Parts::plus(Width::Single, self.split(), other.split()))
    }

    /// `self * other`, rounded.
    #[verifier::opaque]
    pub open spec fn spec_times(self, other: F32) -> F32 {
        F32::of_parts(Parts::product(Width::Single, self.parts(), other.parts()))
    }

    /// `self * other`, rounded.
    #[verifier::when_used_as_spec(spec_times)]
    pub fn times(self, other: F32) -> (r: F32)
        ensures
            r == self.times(other),
    {
        proof {
            reveal(F32::spec_times);
            arith::lemma_fits(Width::Single, self.parts(), other.parts(), Toward::Down);
        }
        F32::join(Parts::times(Width::Single, self.split(), other.split()))
    }

    /// `self / other`, rounded.
    #[verifier::opaque]
    pub open spec fn spec_over(self, other: F32) -> F32 {
        F32::of_parts(Parts::quotient(Width::Single, self.parts(), other.parts()))
    }

    /// `self / other`, rounded.
    #[verifier::when_used_as_spec(spec_over)]
    pub fn over(self, other: F32) -> (r: F32)
        ensures
            r == self.over(other),
    {
        proof {
            reveal(F32::spec_over);
            arith::lemma_fits(Width::Single, self.parts(), other.parts(), Toward::Down);
        }
        F32::join(Parts::over(Width::Single, self.split(), other.split()))
    }

    /// `self % other`: what is left of `self`, with its sign.
    #[verifier::opaque]
    pub open spec fn spec_modulo(self, other: F32) -> F32 {
        F32::of_parts(Parts::remainder(Width::Single, self.parts(), other.parts()))
    }

    /// `self % other`: what is left of `self`, with its sign.
    #[verifier::when_used_as_spec(spec_modulo)]
    pub fn modulo(self, other: F32) -> (r: F32)
        ensures
            r == self.modulo(other),
    {
        proof {
            reveal(F32::spec_modulo);
            arith::lemma_fits(Width::Single, self.parts(), other.parts(), Toward::Down);
        }
        F32::join(Parts::modulo(Width::Single, self.split(), other.split()))
    }

    /// `-self`: the sign turned.
    #[verifier::opaque]
    pub open spec fn spec_negated(self) -> F32 {
        if self.bits >= 0x8000_0000 {
            F32 { bits: (self.bits - 0x8000_0000) as u32 }
        } else {
            F32 { bits: (self.bits + 0x8000_0000) as u32 }
        }
    }

    /// `-self`: the sign turned.
    #[verifier::when_used_as_spec(spec_negated)]
    pub fn negated(self) -> (r: F32)
        ensures
            r == self.negated(),
    {
        proof {
            reveal(F32::spec_negated);
        }
        if self.bits >= 0x8000_0000 {
            F32 { bits: self.bits - 0x8000_0000 }
        } else {
            F32 { bits: self.bits + 0x8000_0000 }
        }
    }

    /// `self - other`, rounded.
    #[verifier::opaque]
    pub open spec fn spec_minus(self, other: F32) -> F32 {
        self.plus(other.negated())
    }

    /// `self - other`, rounded.
    #[verifier::when_used_as_spec(spec_minus)]
    pub fn minus(self, other: F32) -> (r: F32)
        ensures
            r == self.minus(other),
    {
        proof {
            reveal(F32::spec_minus);
        }
        self.plus(other.negated())
    }

    /// The number without its sign.
    #[verifier::opaque]
    pub open spec fn spec_magnitude(self) -> F32 {
        F32 { bits: self.bits % 0x8000_0000 }
    }

    /// The number without its sign.
    #[verifier::when_used_as_spec(spec_magnitude)]
    pub fn magnitude(self) -> (r: F32)
        ensures
            r == self.magnitude(),
    {
        proof {
            reveal(F32::spec_magnitude);
        }
        F32 { bits: self.bits % 0x8000_0000 }
    }

    /// Neither infinite nor not-a-number.
    #[verifier::opaque]
    pub open spec fn spec_is_finite(self) -> bool {
        self.parts().is_finite(Width::Single)
    }

    /// Neither infinite nor not-a-number.
    #[verifier::when_used_as_spec(spec_is_finite)]
    pub fn is_finite(self) -> (r: bool)
        ensures
            r == self.is_finite(),
    {
        proof {
            reveal(F32::spec_is_finite);
        }
        self.split().code < Width::Single.infinity_code()
    }

    /// Not a number.
    #[verifier::opaque]
    pub open spec fn spec_is_nan(self) -> bool {
        self.parts().is_nan(Width::Single)
    }

    /// Not a number.
    #[verifier::when_used_as_spec(spec_is_nan)]
    pub fn is_nan(self) -> (r: bool)
        ensures
            r == self.is_nan(),
    {
        proof {
            reveal(F32::spec_is_nan);
        }
        self.split().code > Width::Single.infinity_code()
    }

    /// `self < other`.
    #[verifier::opaque]
    pub open spec fn spec_lt(self, other: F32) -> bool {
        Parts::below(Width::Single, self.parts(), other.parts())
    }

    /// `self < other`.
    #[verifier::when_used_as_spec(spec_lt)]
    pub fn lt(self, other: F32) -> (r: bool)
        ensures
            r == self.lt(other),
    {
        proof {
            reveal(F32::spec_lt);
        }
        Parts::less(Width::Single, self.split(), other.split())
    }

    /// `self == other` as numbers: the two zeros are equal, not-a-number is
    /// equal to nothing.
    #[verifier::opaque]
    pub open spec fn spec_same(self, other: F32) -> bool {
        Parts::same(Width::Single, self.parts(), other.parts())
    }

    /// `self == other` as numbers: the two zeros are equal, not-a-number is
    /// equal to nothing.
    #[verifier::when_used_as_spec(spec_same)]
    pub fn same(self, other: F32) -> (r: bool)
        ensures
            r == self.same(other),
    {
        proof {
            reveal(F32::spec_same);
        }
        Parts::equal(Width::Single, self.split(), other.split())
    }

    /// `self <= other`.
    #[verifier::opaque]
    pub open spec fn spec_le(self, other: F32) -> bool {
        self.lt(other) || self.same(other)
    }

    /// `self <= other`.
    #[verifier::when_used_as_spec(spec_le)]
    pub fn le(self, other: F32) -> (r: bool)
        ensures
            r == self.le(other),
    {
        proof {
            reveal(F32::spec_le);
        }
        self.lt(other) || self.same(other)
    }

    /// The integer below.
    #[verifier::opaque]
    pub open spec fn spec_floor(self) -> F32 {
        F32::of_parts(Parts::integral(Width::Single, self.parts(), Toward::Down))
    }

    /// The integer below.
    #[verifier::when_used_as_spec(spec_floor)]
    pub fn floor(self) -> (r: F32)
        ensures
            r == self.floor(),
    {
        proof {
            reveal(F32::spec_floor);
            arith::lemma_fits(Width::Single, self.parts(), self.parts(), Toward::Down);
        }
        F32::join(Parts::to_integral(Width::Single, self.split(), Toward::Down))
    }

    /// The integer above.
    #[verifier::opaque]
    pub open spec fn spec_ceil(self) -> F32 {
        F32::of_parts(Parts::integral(Width::Single, self.parts(), Toward::Up))
    }

    /// The integer above.
    #[verifier::when_used_as_spec(spec_ceil)]
    pub fn ceil(self) -> (r: F32)
        ensures
            r == self.ceil(),
    {
        proof {
            reveal(F32::spec_ceil);
            arith::lemma_fits(Width::Single, self.parts(), self.parts(), Toward::Up);
        }
        F32::join(Parts::to_integral(Width::Single, self.split(), Toward::Up))
    }

    /// The nearer integer, a half away from zero.
    #[verifier::opaque]
    pub open spec fn spec_round(self) -> F32 {
        F32::of_parts(Parts::integral(Width::Single, self.parts(), Toward::Nearest))
    }

    /// The nearer integer, a half away from zero.
    #[verifier::when_used_as_spec(spec_round)]
    pub fn round(self) -> (r: F32)
        ensures
            r == self.round(),
    {
        proof {
            reveal(F32::spec_round);
            arith::lemma_fits(Width::Single, self.parts(), self.parts(), Toward::Nearest);
        }
        F32::join(Parts::to_integral(Width::Single, self.split(), Toward::Nearest))
    }

    /// The larger of two, the other one where one is not a number.
    #[verifier::opaque]
    pub open spec fn spec_max(self, other: F32) -> F32 {
        if other.lt(self) || other.is_nan() {
            self
        } else {
            other
        }
    }

    /// The larger of two, the other one where one is not a number.
    #[verifier::when_used_as_spec(spec_max)]
    pub fn max(self, other: F32) -> (r: F32)
        ensures
            r == self.max(other),
    {
        proof {
            reveal(F32::spec_max);
        }
        if other.lt(self) || other.is_nan() {
            self
        } else {
            other
        }
    }

    /// The smaller of two, the other one where one is not a number.
    #[verifier::opaque]
    pub open spec fn spec_min(self, other: F32) -> F32 {
        if self.lt(other) || other.is_nan() {
            self
        } else {
            other
        }
    }

    /// The smaller of two, the other one where one is not a number.
    #[verifier::when_used_as_spec(spec_min)]
    pub fn min(self, other: F32) -> (r: F32)
        ensures
            r == self.min(other),
    {
        proof {
            reveal(F32::spec_min);
        }
        if self.lt(other) || other.is_nan() {
            self
        } else {
            other
        }
    }

    /// The number of `low ..= high` nearest to `self`; not-a-number stays.
    #[verifier::opaque]
    pub open spec fn spec_clamp(self, low: F32, high: F32) -> F32 {
        if self.lt(low) {
            low
        } else if high.lt(self) {
            high
        } else {
            self
        }
    }

    /// The number of `low ..= high` nearest to `self`; not-a-number stays.
    #[verifier::when_used_as_spec(spec_clamp)]
    pub fn clamp(self, low: F32, high: F32) -> (r: F32)
        requires
            low.le(high),
        ensures
            r == self.clamp(low, high),
    {
        proof {
            reveal(F32::spec_clamp);
        }
        if self.lt(low) {
            low
        } else if high.lt(self) {
            high
        } else {
            self
        }
    }

    /// The remainder that is not negative, but for a negative one so small
    /// that `other` swallows it.
    #[verifier::opaque]
    pub open spec fn spec_rem_euclid(self, other: F32) -> F32 {
        let r: F32 = self.modulo(other);
        if r.lt(F32::of(0)) {
            r.plus(other.magnitude())
        } else {
            r
        }
    }

    /// The remainder that is not negative, but for a negative one so small
    /// that `other` swallows it.
    #[verifier::when_used_as_spec(spec_rem_euclid)]
    pub fn rem_euclid(self, other: F32) -> (r: F32)
        ensures
            r == self.rem_euclid(other),
    {
        proof {
            reveal(F32::spec_rem_euclid);
        }
        let r: F32 = self.modulo(other);
        if r.lt(F32::of(0)) {
            r.plus(other.magnitude())
        } else {
            r
        }
    }

    /// The number nearest to an unsigned integer.
    #[verifier::opaque]
    pub open spec fn spec_from_u64(n: u64) -> F32 {
        F32::of_parts(Parts::integer(Width::Single, false, n as int))
    }

    /// The number nearest to an unsigned integer.
    #[verifier::when_used_as_spec(spec_from_u64)]
    pub fn from_u64(n: u64) -> (r: F32)
        ensures
            r == F32::from_u64(n),
    {
        proof {
            reveal(F32::spec_from_u64);
            arith::lemma_integer_fits(Width::Single, false, n as int);
        }
        F32::join(Parts::from_integer(Width::Single, false, n))
    }

    /// The number as an unsigned integer: the fraction dropped, negative
    /// numbers and not-a-number as zero, the largest integer where the
    /// number is larger.
    #[verifier::opaque]
    pub open spec fn spec_to_u64(self) -> u64 {
        self.parts().unsigned(Width::Single, u64::MAX as int) as u64
    }

    /// The number as an unsigned integer: the fraction dropped, negative
    /// numbers and not-a-number as zero, the largest integer where the
    /// number is larger.
    #[verifier::when_used_as_spec(spec_to_u64)]
    pub fn to_u64(self) -> (r: u64)
        ensures
            r == self.to_u64(),
    {
        proof {
            reveal(F32::spec_to_u64);
        }
        Parts::to_unsigned(Width::Single, self.split(), u64::MAX)
    }

    /// The number nearest to an index.
    #[verifier::inline]
    pub open spec fn spec_from_usize(n: usize) -> F32 {
        F32::from_u64(n as u64)
    }

    /// The number nearest to an index.
    #[verifier::when_used_as_spec(spec_from_usize)]
    pub fn from_usize(n: usize) -> (r: F32)
        ensures
            r == F32::from_usize(n),
    {
        F32::from_u64(n as u64)
    }

    /// The number as an index: the fraction dropped, negative numbers and
    /// not-a-number as zero, the largest index where the number is larger.
    #[verifier::opaque]
    pub open spec fn spec_to_usize(self) -> usize {
        if self.to_u64() <= usize::MAX {
            self.to_u64() as usize
        } else {
            usize::MAX
        }
    }

    /// The number as an index: the fraction dropped, negative numbers and
    /// not-a-number as zero, the largest index where the number is larger.
    #[verifier::when_used_as_spec(spec_to_usize)]
    pub fn to_usize(self) -> (r: usize)
        ensures
            r == self.to_usize(),
    {
        proof {
            reveal(F32::spec_to_usize);
        }
        let n: u64 = self.to_u64();
        if n <= usize::MAX as u64 {
            n as usize
        } else {
            usize::MAX
        }
    }
}

impl F64 {
    /// The number with the given bit pattern.
    #[verifier::inline]
    pub open spec fn spec_of(bits: u64) -> F64 {
        F64 { bits }
    }

    /// The number with the given bit pattern.
    #[verifier::when_used_as_spec(spec_of)]
    pub fn of(bits: u64) -> (r: F64)
        ensures
            r == F64::of(bits),
            r.bits == bits,
    {
        F64 { bits }
    }

    /// The sign and the encoding.
    pub open spec fn parts(self) -> Parts {
        Parts { neg: self.bits >= 0x8000_0000_0000_0000, code: (self.bits % 0x8000_0000_0000_0000) as u64 }
    }

    /// The pattern of a sign and an encoding.
    pub open spec fn of_parts(p: Parts) -> F64 {
        F64 {
            bits: (if p.neg {
                p.code + 0x8000_0000_0000_0000
            } else {
                p.code as int
            }) as u64,
        }
    }

    /// The sign and the encoding.
    fn split(self) -> (r: Parts)
        ensures
            r == self.parts(),
    {
        Parts { neg: self.bits >= 0x8000_0000_0000_0000, code: (self.bits % 0x8000_0000_0000_0000) as u64 }
    }

    /// The pattern of a sign and an encoding.
    fn join(p: Parts) -> (r: F64)
        requires
            p.fits(Width::Double),
        ensures
            r == F64::of_parts(p),
    {
        F64 {
            bits: if p.neg {
                p.code as u64 + 0x8000_0000_0000_0000
            } else {
                p.code as u64
            },
        }
    }

    /// `self + other`, rounded.
    #[verifier::opaque]
    pub open spec fn spec_plus(self, other: F64) -> F64 {
        F64::of_parts(Parts::sum(Width::Double, self.parts(), other.parts()))
    }

    /// `self + other`, rounded.
    #[verifier::when_used_as_spec(spec_plus)]
    pub fn plus(self, other: F64) -> (r: F64)
        ensures
            r == self.plus(other),
    {
        proof {
            reveal(F64::spec_plus);
            arith::lemma_fits(Width::Double, self.parts(), other.parts(), Toward::Down);
        }
        F64::join(Parts::plus(Width::Double, self.split(), other.split()))
    }

    /// `self * other`, rounded.
    #[verifier::opaque]
    pub open spec fn spec_times(self, other: F64) -> F64 {
        F64::of_parts(Parts::product(Width::Double, self.parts(), other.parts()))
    }

    /// `self * other`, rounded.
    #[verifier::when_used_as_spec(spec_times)]
    pub fn times(self, other: F64) -> (r: F64)
        ensures
            r == self.times(other),
    {
        proof {
            reveal(F64::spec_times);
            arith::lemma_fits(Width::Double, self.parts(), other.parts(), Toward::Down);
        }
        F64::join(Parts::times(Width::Double, self.split(), other.split()))
    }

    /// `self / other`, rounded.
    #[verifier::opaque]
    pub open spec fn spec_over(self, other: F64) -> F64 {
        F64::of_parts(Parts::quotient(Width::Double, self.parts(), other.parts()))
    }

    /// `self / other`, rounded.
    #[verifier::when_used_as_spec(spec_over)]
    pub fn over(self, other: F64) -> (r: F64)
        ensures
            r == self.over(other),
    {
        proof {
            reveal(F64::spec_over);
            arith::lemma_fits(Width::Double, self.parts(), other.parts(), Toward::Down);
        }
        F64::join(Parts::over(Width::Double, self.split(), other.split()))
    }

    /// `self % other`: what is left of `self`, with its sign.
    #[verifier::opaque]
    pub open spec fn spec_modulo(self, other: F64) -> F64 {
        F64::of_parts(Parts::remainder(Width::Double, self.parts(), other.parts()))
    }

    /// `self % other`: what is left of `self`, with its sign.
    #[verifier::when_used_as_spec(spec_modulo)]
    pub fn modulo(self, other: F64) -> (r: F64)
        ensures
            r == self.modulo(other),
    {
        proof {
            reveal(F64::spec_modulo);
            arith::lemma_fits(Width::Double, self.parts(), other.parts(), Toward::Down);
        }
        F64::join(Parts::modulo(Width::Double, self.split(), other.split()))
    }

    /// `-self`: the sign turned.
    #[verifier::opaque]
    pub open spec fn spec_negated(self) -> F64 {
        if self.bits >= 0x8000_0000_0000_0000 {
            F64 { bits: (self.bits - 0x8000_0000_0000_0000) as u64 }
        } else {
            F64 { bits: (self.bits + 0x8000_0000_0000_0000) as u64 }
        }
    }

    /// `-self`: the sign turned.
    #[verifier::when_used_as_spec(spec_negated)]
    pub fn negated(self) -> (r: F64)
        ensures
            r == self.negated(),
    {
        proof {
            reveal(F64::spec_negated);
        }
        if self.bits >= 0x8000_0000_0000_0000 {
            F64 { bits: self.bits - 0x8000_0000_0000_0000 }
        } else {
            F64 { bits: self.bits + 0x8000_0000_0000_0000 }
        }
    }

    /// `self - other`, rounded.
    #[verifier::opaque]
    pub open spec fn spec_minus(self, other: F64) -> F64 {
        self.plus(other.negated())
    }

    /// `self - other`, rounded.
    #[verifier::when_used_as_spec(spec_minus)]
    pub fn minus(self, other: F64) -> (r: F64)
        ensures
            r == self.minus(other),
    {
        proof {
            reveal(F64::spec_minus);
        }
        self.plus(other.negated())
    }

    /// The number without its sign.
    #[verifier::opaque]
    pub open spec fn spec_magnitude(self) -> F64 {
        F64 { bits: self.bits % 0x8000_0000_0000_0000 }
    }

    /// The number without its sign.
    #[verifier::when_used_as_spec(spec_magnitude)]
    pub fn magnitude(self) -> (r: F64)
        ensures
            r == self.magnitude(),
    {
        proof {
            reveal(F64::spec_magnitude);
        }
        F64 { bits: self.bits % 0x8000_0000_0000_0000 }
    }

    /// Neither infinite nor not-a-number.
    #[verifier::opaque]
    pub open spec fn spec_is_finite(self) -> bool {
        self.parts().is_finite(Width::Double)
    }

    /// Neither infinite nor not-a-number.
    #[verifier::when_used_as_spec(spec_is_finite)]
    pub fn is_finite(self) -> (r: bool)
        ensures
            r == self.is_finite(),
    {
        proof {
            reveal(F64::spec_is_finite);
        }
        self.split().code < Width::Double.infinity_code()
    }

    /// Not a number.
    #[verifier::opaque]
    pub open spec fn spec_is_nan(self) -> bool {
        self.parts().is_nan(Width::Double)
    }

    /// Not a number.
    #[verifier::when_used_as_spec(spec_is_nan)]
    pub fn is_nan(self) -> (r: bool)
        ensures
            r == self.is_nan(),
    {
        proof {
            reveal(F64::spec_is_nan);
        }
        self.split().code > Width::Double.infinity_code()
    }

    /// `self < other`.
    #[verifier::opaque]
    pub open spec fn spec_lt(self, other: F64) -> bool {
        Parts::below(Width::Double, self.parts(), other.parts())
    }

    /// `self < other`.
    #[verifier::when_used_as_spec(spec_lt)]
    pub fn lt(self, other: F64) -> (r: bool)
        ensures
            r == self.lt(other),
    {
        proof {
            reveal(F64::spec_lt);
        }
        Parts::less(Width::Double, self.split(), other.split())
    }

    /// `self == other` as numbers: the two zeros are equal, not-a-number is
    /// equal to nothing.
    #[verifier::opaque]
    pub open spec fn spec_same(self, other: F64) -> bool {
        Parts::same(Width::Double, self.parts(), other.parts())
    }

    /// `self == other` as numbers: the two zeros are equal, not-a-number is
    /// equal to nothing.
    #[verifier::when_used_as_spec(spec_same)]
    pub fn same(self, other: F64) -> (r: bool)
        ensures
            r == self.same(other),
    {
        proof {
            reveal(F64::spec_same);
        }
        Parts::equal(Width::Double, self.split(), other.split())
    }

    /// `self <= other`.
    #[verifier::opaque]
    pub open spec fn spec_le(self, other: F64) -> bool {
        self.lt(other) || self.same(other)
    }

    /// `self <= other`.
    #[verifier::when_used_as_spec(spec_le)]
    pub fn le(self, other: F64) -> (r: bool)
        ensures
            r == self.le(other),
    {
        proof {
            reveal(F64::spec_le);
        }
        self.lt(other) || self.same(other)
    }

    /// The integer below.
    #[verifier::opaque]
    pub open spec fn spec_floor(self) -> F64 {
        F64::of_parts(Parts::integral(Width::Double, self.parts(), Toward::Down))
    }

    /// The integer below.
    #[verifier::when_used_as_spec(spec_floor)]
    pub fn floor(self) -> (r: F64)
        ensures
            r == self.floor(),
    {
        proof {
            reveal(F64::spec_floor);
            arith::lemma_fits(Width::Double, self.parts(), self.parts(), Toward::Down);
        }
        F64::join(Parts::to_integral(Width::Double, self.split(), Toward::Down))
    }

    /// The integer above.
    #[verifier::opaque]
    pub open spec fn spec_ceil(self) -> F64 {
        F64::of_parts(Parts::integral(Width::Double, self.parts(), Toward::Up))
    }

    /// The integer above.
    #[verifier::when_used_as_spec(spec_ceil)]
    pub fn ceil(self) -> (r: F64)
        ensures
            r == self.ceil(),
    {
        proof {
            reveal(F64::spec_ceil);
            arith::lemma_fits(Width::Double, self.parts(), self.parts(), Toward::Up);
        }
        F64::join(Parts::to_integral(Width::Double, self.split(), Toward::Up))
    }

    /// The nearer integer, a half away from zero.
    #[verifier::opaque]
    pub open spec fn spec_round(self) -> F64 {
        F64::of_parts(Parts::integral(Width::Double, self.parts(), Toward::Nearest))
    }

    /// The nearer integer, a half away from zero.
    #[verifier::when_used_as_spec(spec_round)]
    pub fn round(self) -> (r: F64)
        ensures
            r == self.round(),
    {
        proof {
            reveal(F64::spec_round);
            arith::lemma_fits(Width::Double, self.parts(), self.parts(), Toward::Nearest);
        }
        F64::join(Parts::to_integral(Width::Double, self.split(), Toward::Nearest))
    }

    /// The larger of two, the other one where one is not a number.
    #[verifier::opaque]
    pub open spec fn spec_max(self, other: F64) -> F64 {
        if other.lt(self) || other.is_nan() {
            self
        } else {
            other
        }
    }

    /// The larger of two, the other one where one is not a number.
    #[verifier::when_used_as_spec(spec_max)]
    pub fn max(self, other: F64) -> (r: F64)
        ensures
            r == self.max(other),
    {
        proof {
            reveal(F64::spec_max);
        }
        if other.lt(self) || other.is_nan() {
            self
        } else {
            other
        }
    }

    /// The smaller of two, the other one where one is not a number.
    #[verifier::opaque]
    pub open spec fn spec_min(self, other: F64) -> F64 {
        if self.lt(other) || other.is_nan() {
            self
        } else {
            other
        }
    }

    /// The smaller of two, the other one where one is not a number.
    #[verifier::when_used_as_spec(spec_min)]
    pub fn min(self, other: F64) -> (r: F64)
        ensures
            r == self.min(other),
    {
        proof {
            reveal(F64::spec_min);
        }
        if self.lt(other) || other.is_nan() {
            self
        } else {
            other
        }
    }

    /// The number of `low ..= high` nearest to `self`; not-a-number stays.
    #[verifier::opaque]
    pub open spec fn spec_clamp(self, low: F64, high: F64) -> F64 {
        if self.lt(low) {
            low
        } else if high.lt(self) {
            high
        } else {
            self
        }
    }

    /// The number of `low ..= high` nearest to `self`; not-a-number stays.
    #[verifier::when_used_as_spec(spec_clamp)]
    pub fn clamp(self, low: F64, high: F64) -> (r: F64)
        requires
            low.le(high),
        ensures
            r == self.clamp(low, high),
    {
        proof {
            reveal(F64::spec_clamp);
        }
        if self.lt(low) {
            low
        } else if high.lt(self) {
            high
        } else {
            self
        }
    }

    /// The remainder that is not negative, but for a negative one so small
    /// that `other` swallows it.
    #[verifier::opaque]
    pub open spec fn spec_rem_euclid(self, other: F64) -> F64 {
        let r: F64 = self.modulo(other);
        if r.lt(F64::of(0)) {
            r.plus(other.magnitude())
        } else {
            r
        }
    }

    /// The remainder that is not negative, but for a negative one so small
    /// that `other` swallows it.
    #[verifier::when_used_as_spec(spec_rem_euclid)]
    pub fn rem_euclid(self, other: F64) -> (r: F64)
        ensures
            r == self.rem_euclid(other),
    {
        proof {
            reveal(F64::spec_rem_euclid);
        }
        let r: F64 = self.modulo(other);
        if r.lt(F64::of(0)) {
            r.plus(other.magnitude())
        } else {
            r
        }
    }

    /// The number nearest to an unsigned integer.
    #[verifier::opaque]
    pub open spec fn spec_from_u64(n: u64) -> F64 {
        F64::of_parts(Parts::integer(Width::Double, false, n as int))
    }

    /// The number nearest to an unsigned integer.
    #[verifier::when_used_as_spec(spec_from_u64)]
    pub fn from_u64(n: u64) -> (r: F64)
        ensures
            r == F64::from_u64(n),
    {
        proof {
            reveal(F64::spec_from_u64);
            arith::lemma_integer_fits(Width::Double, false, n as int);
        }
        F64::join(Parts::from_integer(Width::Double, false, n))
    }

    /// The number as an unsigned integer: the fraction dropped, negative
    /// numbers and not-a-number as zero, the largest integer where the
    /// number is larger.
    #[verifier::opaque]
    pub open spec fn spec_to_u64(self) -> u64 {
        self.parts().unsigned(Width::Double, u64::MAX as int) as u64
    }

    /// The number as an unsigned integer: the fraction dropped, negative
    /// numbers and not-a-number as zero, the largest integer where the
    /// number is larger.
    #[verifier::when_used_as_spec(spec_to_u64)]
    pub fn to_u64(self) -> (r: u64)
        ensures
            r == self.to_u64(),
    {
        proof {
            reveal(F64::spec_to_u64);
        }
        Parts::to_unsigned(Width::Double, self.split(), u64::MAX)
    }

    /// The number nearest to an index.
    #[verifier::inline]
    pub open spec fn spec_from_usize(n: usize) -> F64 {
        F64::from_u64(n as u64)
    }

    /// The number nearest to an index.
    #[verifier::when_used_as_spec(spec_from_usize)]
    pub fn from_usize(n: usize) -> (r: F64)
        ensures
            r == F64::from_usize(n),
    {
        F64::from_u64(n as u64)
    }

    /// The number as an index: the fraction dropped, negative numbers and
    /// not-a-number as zero, the largest index where the number is larger.
    #[verifier::opaque]
    pub open spec fn spec_to_usize(self) -> usize {
        if self.to_u64() <= usize::MAX {
            self.to_u64() as usize
        } else {
            usize::MAX
        }
    }

    /// The number as an index: the fraction dropped, negative numbers and
    /// not-a-number as zero, the largest index where the number is larger.
    #[verifier::when_used_as_spec(spec_to_usize)]
    pub fn to_usize(self) -> (r: usize)
        ensures
            r == self.to_usize(),
    {
        proof {
            reveal(F64::spec_to_usize);
        }
        let n: u64 = self.to_u64();
        if n <= usize::MAX as u64 {
            n as usize
        } else {
            usize::MAX
        }
    }
}

impl F32 {
    /// The same number in the 64-bit format.
    #[verifier::opaque]
    pub open spec fn spec_widen(self) -> F64 {
        F64::of_parts(Parts::widened(self.parts()))
    }

    /// The same number in the 64-bit format.
    #[verifier::when_used_as_spec(spec_widen)]
    pub fn widen(self) -> (r: F64)
        ensures
            r == self.widen(),
    {
        proof {
            reveal(F32::spec_widen);
            arith::lemma_converted_fits(self.parts());
        }
        F64::join(Parts::widen(self.split()))
    }

    /// The number as a signed 16-bit integer: the fraction dropped,
    /// not-a-number as zero, the nearest end of the range where the number
    /// is beyond it.
    #[verifier::opaque]
    pub open spec fn spec_to_i16(self) -> i16 {
        if self.parts().neg {
            -self.magnitude().parts().unsigned(Width::Single, 0x8000) as i16
        } else {
            self.parts().unsigned(Width::Single, 0x7fff) as i16
        }
    }

    /// The number as a signed 16-bit integer: the fraction dropped,
    /// not-a-number as zero, the nearest end of the range where the number
    /// is beyond it.
    #[verifier::when_used_as_spec(spec_to_i16)]
    pub fn to_i16(self) -> (r: i16)
        ensures
            r == self.to_i16(),
    {
        proof {
            reveal(F32::spec_to_i16);
            reveal(F32::spec_magnitude);
        }
        if self.bits >= 0x8000_0000 {
            -(Parts::to_unsigned(Width::Single, self.magnitude().split(), 0x8000) as i32) as i16
        } else {
            Parts::to_unsigned(Width::Single, self.split(), 0x7fff) as i16
        }
    }
}

impl F64 {
    /// The number rounded to the 32-bit format.
    #[verifier::opaque]
    pub open spec fn spec_narrow(self) -> F32 {
        F32::of_parts(Parts::narrowed(self.parts()))
    }

    /// The number rounded to the 32-bit format.
    #[verifier::when_used_as_spec(spec_narrow)]
    pub fn narrow(self) -> (r: F32)
        ensures
            r == self.narrow(),
    {
        proof {
            reveal(F64::spec_narrow);
            arith::lemma_converted_fits(self.parts());
        }
        F32::join(Parts::narrow(self.split()))
    }
}

} // verus!
