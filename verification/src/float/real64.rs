//! Numbers of the 64-bit format.

use crate::float::arithmetic::product;
use crate::float::arithmetic::product_of;
use crate::float::arithmetic::quotient;
use crate::float::arithmetic::quotient_of;
use crate::float::arithmetic::sum;
use crate::float::arithmetic::sum_of;
use crate::float::ordering::at_most;
use crate::float::ordering::below;
use crate::float::ordering::convert;
use crate::float::ordering::converted;
use crate::float::ordering::from_whole;
use crate::float::ordering::is_at_most;
use crate::float::ordering::is_below;
use crate::float::ordering::to_whole;
use crate::float::ordering::whole;
use crate::float::ordering::whole_number;
use crate::float::real32::binary32;
use crate::float::real32::format32;
use crate::float::real32::Real32;
use crate::float::root::root;
use crate::float::root::root_of;
use crate::float::rounding::Format;
use crate::float::rounding::Number;
use vstd::arithmetic::power2::pow2;
use vstd::prelude::*;
use vstd::std_specs::cmp::PartialEqSpecImpl;

verus! {

/// The 64-bit format: 53 bits of mantissa, a unit of `2^-1074`.
pub open spec fn binary64() -> Format {
    Format { precision: 53, top: 2045, bias: 1074 }
}

/// The 64-bit format.
pub fn format64() -> (r: Format)
    ensures
        r == binary64(),
        r.wf(),
{
    Format { precision: 53, top: 2045, bias: 1074 }
}

/// A number of the 64-bit format, by its bits.
#[derive(Clone, Copy, Debug)]
pub struct Real64 {
    pub bits: u64,
}

impl PartialEq for Real64 {
    /// Whether two numbers are equal: the two zeros are, and what is not a number equals nothing.
    fn eq(&self, other: &Real64) -> (r: bool) {
        self.up_to(*other) && other.up_to(*self)
    }
}

impl PartialEqSpecImpl for Real64 {
    open spec fn obeys_eq_spec() -> bool {
        true
    }

    open spec fn eq_spec(&self, other: &Real64) -> bool {
        self.spec_up_to(*other) && other.spec_up_to(*self)
    }
}

/// The number that 64 bits stand for.
pub open spec fn number64(bits: u64) -> Number {
    let negative = bits / 0x8000_0000_0000_0000 == 1;
    let field = (bits / 0x10_0000_0000_0000) % 2048;
    let fraction = bits % 0x10_0000_0000_0000;
    if field == 2047 {
        if fraction == 0 {
            Number::Infinity { negative }
        } else {
            Number::Nan
        }
    } else if field == 0 {
        Number::Finite { negative, mantissa: fraction, exponent: 0 }
    } else {
        Number::Finite {
            negative,
            mantissa: (fraction + 0x10_0000_0000_0000) as u64,
            exponent: (field - 1) as u32,
        }
    }
}

/// The bits that stand for a number; what is not a number gets the quiet pattern.
pub open spec fn bits64(number: Number) -> u64 {
    match number {
        Number::Nan => 0x7ff8_0000_0000_0000,
        Number::Infinity { negative } => if negative {
            0xfff0_0000_0000_0000
        } else {
            0x7ff0_0000_0000_0000
        },
        Number::Finite { negative, mantissa, exponent } => {
            let sign: int = if negative {
                0x8000_0000_0000_0000
            } else {
                0
            };
            // A full mantissa adds one to the exponent field.
            (sign + exponent * 0x10_0000_0000_0000 + mantissa) as u64
        },
    }
}

/// The powers of two that bound a mantissa.
proof fn lemma_mantissa_bounds()
    ensures
        pow2(53) == 0x20_0000_0000_0000,
        pow2(52) == 0x10_0000_0000_0000,
{
    vstd::arithmetic::power2::lemma2_to64_rest();
}

impl Real64 {
    /// The number.
    pub open spec fn number(self) -> Number {
        number64(self.bits)
    }

    /// The bit pattern of a number.
    pub open spec fn of(number: Number) -> Real64 {
        Real64 { bits: bits64(number) }
    }

    /// Takes the bits apart.
    pub fn unpack(self) -> (r: Number)
        ensures
            r == self.number(),
            r.fits(binary64()),
    {
        proof {
            lemma_mantissa_bounds();
        }
        let negative: bool = self.bits / 0x8000_0000_0000_0000 == 1;
        let field: u64 = (self.bits / 0x10_0000_0000_0000) % 2048;
        let fraction: u64 = self.bits % 0x10_0000_0000_0000;
        if field == 2047 {
            if fraction == 0 {
                Number::Infinity { negative }
            } else {
                Number::Nan
            }
        } else if field == 0 {
            Number::Finite { negative, mantissa: fraction, exponent: 0 }
        } else {
            Number::Finite {
                negative,
                mantissa: fraction + 0x10_0000_0000_0000,
                exponent: (field - 1) as u32,
            }
        }
    }

    /// Puts the bits together.
    pub fn pack(number: Number) -> (r: Real64)
        requires
            number.fits(binary64()),
        ensures
            r == Real64::of(number),
            r.number() == number,
    {
        proof {
            lemma_mantissa_bounds();
        }
        match number {
            Number::Nan => Real64 { bits: 0x7ff8_0000_0000_0000 },
            Number::Infinity { negative } => if negative {
                Real64 { bits: 0xfff0_0000_0000_0000 }
            } else {
                Real64 { bits: 0x7ff0_0000_0000_0000 }
            },
            Number::Finite { negative, mantissa, exponent } => {
                let rest: u64 = exponent as u64 * 0x10_0000_0000_0000 + mantissa;
                if negative {
                    Real64 { bits: 0x8000_0000_0000_0000 + rest }
                } else {
                    Real64 { bits: rest }
                }
            },
        }
    }

    /// `self + other`, as a mathematical function.
    #[verifier::opaque]
    pub open spec fn spec_plus(self, other: Real64) -> Real64 {
        Real64::of(sum_of(self.number(), other.number(), binary64()))
    }

    /// `self + other`.
    #[verifier::when_used_as_spec(spec_plus)]
    pub fn plus(self, other: Real64) -> (r: Real64)
        ensures
            r == self.spec_plus(other),
    {
        proof {
            reveal(Real64::spec_plus);
        }
        Real64::pack(sum(self.unpack(), other.unpack(), format64()))
    }

    /// The number with the other sign, as a mathematical function.
    pub open spec fn spec_negated(self) -> Real64 {
        Real64 {
            bits: if self.bits < 0x8000_0000_0000_0000 {
                (self.bits + 0x8000_0000_0000_0000) as u64
            } else {
                (self.bits - 0x8000_0000_0000_0000) as u64
            },
        }
    }

    /// The number with the other sign.
    #[verifier::when_used_as_spec(spec_negated)]
    pub fn negated(self) -> (r: Real64)
        ensures
            r == self.spec_negated(),
    {
        if self.bits < 0x8000_0000_0000_0000 {
            Real64 { bits: self.bits + 0x8000_0000_0000_0000 }
        } else {
            Real64 { bits: self.bits - 0x8000_0000_0000_0000 }
        }
    }

    /// `self - other`, as a mathematical function.
    pub open spec fn spec_minus(self, other: Real64) -> Real64 {
        self.spec_plus(other.spec_negated())
    }

    /// `self - other`.
    #[verifier::when_used_as_spec(spec_minus)]
    pub fn minus(self, other: Real64) -> (r: Real64)
        ensures
            r == self.spec_minus(other),
    {
        self.plus(other.negated())
    }

    /// `self * other`, as a mathematical function.
    #[verifier::opaque]
    pub open spec fn spec_times(self, other: Real64) -> Real64 {
        Real64::of(product_of(self.number(), other.number(), binary64()))
    }

    /// `self * other`.
    #[verifier::when_used_as_spec(spec_times)]
    pub fn times(self, other: Real64) -> (r: Real64)
        ensures
            r == self.spec_times(other),
    {
        proof {
            reveal(Real64::spec_times);
        }
        Real64::pack(product(self.unpack(), other.unpack(), format64()))
    }

    /// `self / other`, as a mathematical function.
    #[verifier::opaque]
    pub open spec fn spec_over(self, other: Real64) -> Real64 {
        Real64::of(quotient_of(self.number(), other.number(), binary64()))
    }

    /// `self / other`.
    #[verifier::when_used_as_spec(spec_over)]
    pub fn over(self, other: Real64) -> (r: Real64)
        ensures
            r == self.spec_over(other),
    {
        proof {
            reveal(Real64::spec_over);
        }
        Real64::pack(quotient(self.unpack(), other.unpack(), format64()))
    }

    /// `self < other`, as a mathematical predicate.
    #[verifier::opaque]
    pub open spec fn spec_less(self, other: Real64) -> bool {
        below(self.number(), other.number(), binary64())
    }

    /// `self < other`.
    #[verifier::when_used_as_spec(spec_less)]
    pub fn less(self, other: Real64) -> (r: bool)
        ensures
            r == self.spec_less(other),
    {
        proof {
            reveal(Real64::spec_less);
        }
        is_below(self.unpack(), other.unpack(), format64())
    }

    /// `self <= other`, as a mathematical predicate.
    #[verifier::opaque]
    pub open spec fn spec_up_to(self, other: Real64) -> bool {
        at_most(self.number(), other.number(), binary64())
    }

    /// `self <= other`.
    #[verifier::when_used_as_spec(spec_up_to)]
    pub fn up_to(self, other: Real64) -> (r: bool)
        ensures
            r == self.spec_up_to(other),
    {
        proof {
            reveal(Real64::spec_up_to);
        }
        is_at_most(self.unpack(), other.unpack(), format64())
    }

    /// The smaller of two; the other one where one is not a number.
    pub open spec fn spec_smaller(self, other: Real64) -> Real64 {
        if self.number() is Nan || other.spec_less(self) {
            other
        } else {
            self
        }
    }

    /// The smaller of two.
    #[verifier::when_used_as_spec(spec_smaller)]
    pub fn smaller(self, other: Real64) -> (r: Real64)
        ensures
            r == self.spec_smaller(other),
    {
        if other.less(self) {
            return other;
        }
        match self.unpack() {
            Number::Nan => other,
            _ => self,
        }
    }

    /// The larger of two; the other one where one is not a number.
    pub open spec fn spec_larger(self, other: Real64) -> Real64 {
        if self.number() is Nan || self.spec_less(other) {
            other
        } else {
            self
        }
    }

    /// The larger of two.
    #[verifier::when_used_as_spec(spec_larger)]
    pub fn larger(self, other: Real64) -> (r: Real64)
        ensures
            r == self.spec_larger(other),
    {
        if self.less(other) {
            return other;
        }
        match self.unpack() {
            Number::Nan => other,
            _ => self,
        }
    }

    /// The nearest number between two bounds; what is not a number stays so.
    pub open spec fn spec_within(self, low: Real64, high: Real64) -> Real64 {
        if self.spec_less(low) {
            low
        } else if high.spec_less(self) {
            high
        } else {
            self
        }
    }

    /// The nearest number between two bounds.
    #[verifier::when_used_as_spec(spec_within)]
    pub fn within(self, low: Real64, high: Real64) -> (r: Real64)
        ensures
            r == self.spec_within(low, high),
    {
        if self.less(low) {
            low
        } else if high.less(self) {
            high
        } else {
            self
        }
    }

    /// The nearest integer, away from zero where two are equally near, brought into the range
    /// of `usize`; zero for what is not a number.
    #[verifier::opaque]
    pub open spec fn spec_to_usize(self) -> usize {
        match self.number() {
            Number::Nan => 0,
            Number::Infinity { negative } => if negative {
                0
            } else {
                usize::MAX
            },
            Number::Finite { negative, mantissa, exponent } => {
                let value = whole(mantissa as nat, exponent as nat, binary64());
                if negative {
                    0
                } else if value > usize::MAX {
                    usize::MAX
                } else {
                    value as usize
                }
            },
        }
    }

    /// The nearest integer in the range of `usize`.
    #[verifier::when_used_as_spec(spec_to_usize)]
    pub fn to_usize(self) -> (r: usize)
        ensures
            r == self.spec_to_usize(),
    {
        proof {
            reveal(Real64::spec_to_usize);
        }
        match self.unpack() {
            Number::Nan => 0,
            Number::Infinity { negative } => if negative {
                0
            } else {
                usize::MAX
            },
            Number::Finite { negative, mantissa, exponent } => {
                let value: u64 = to_whole(mantissa, exponent, usize::MAX as u64, format64());
                if negative {
                    0
                } else {
                    value as usize
                }
            },
        }
    }

    /// The square root, as a mathematical function.
    #[verifier::opaque]
    pub open spec fn spec_square_root(self) -> Real64 {
        Real64::of(root_of(self.number(), binary64()))
    }

    /// The square root.
    #[verifier::when_used_as_spec(spec_square_root)]
    pub fn square_root(self) -> (r: Real64)
        ensures
            r == self.spec_square_root(),
    {
        proof {
            reveal(Real64::spec_square_root);
        }
        Real64::pack(root(self.unpack(), format64()))
    }

    /// The nearest number in the 32-bit format, as a mathematical function.
    #[verifier::opaque]
    pub open spec fn spec_narrowed(self) -> Real32 {
        Real32::of(converted(self.number(), binary64(), binary32()))
    }

    /// The nearest number in the 32-bit format.
    #[verifier::when_used_as_spec(spec_narrowed)]
    pub fn narrowed(self) -> (r: Real32)
        ensures
            r == self.spec_narrowed(),
    {
        proof {
            reveal(Real64::spec_narrowed);
        }
        Real32::pack(convert(self.unpack(), format64(), format32()))
    }

    /// The number nearest to an integer.
    #[verifier::opaque]
    pub open spec fn spec_from_i32(value: i32) -> Real64 {
        Real64::of(
            whole_number(
                value < 0,
                if value < 0 {
                    (-(value as int)) as nat
                } else {
                    value as nat
                },
                binary64(),
            ),
        )
    }

    /// The number nearest to an integer.
    #[verifier::when_used_as_spec(spec_from_i32)]
    pub fn from_i32(value: i32) -> (r: Real64)
        ensures
            r == Real64::spec_from_i32(value),
    {
        proof {
            reveal(Real64::spec_from_i32);
        }
        let distance: u64 = if value < 0 {
            (-(value as i64)) as u64
        } else {
            value as u64
        };
        Real64::pack(from_whole(value < 0, distance, format64()))
    }
}

/// The bits of a number that fits stand for it.
pub proof fn lemma_bits_of_number(number: Number)
    requires
        number.fits(binary64()),
    ensures
        Real64::of(number).number() == number,
{
    lemma_mantissa_bounds();
}

/// What bits stand for fits.
pub proof fn lemma_number_fits(value: Real64)
    ensures
        value.number().fits(binary64()),
{
    lemma_mantissa_bounds();
}

} // verus!
