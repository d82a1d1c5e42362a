//! Numbers of the 32-bit format.

use crate::float::arithmetic::product;
use crate::float::arithmetic::product_of;
use crate::float::arithmetic::quotient;
use crate::float::arithmetic::quotient_of;
use crate::float::arithmetic::signed;
use crate::float::arithmetic::sum;
use crate::float::arithmetic::sum_of;
use crate::float::bounds::lemma_rounded_bounds;
use crate::float::ordering::at_most;
use crate::float::ordering::below;
use crate::float::ordering::convert;
use crate::float::ordering::converted;
use crate::float::ordering::from_whole;
use crate::float::ordering::is_at_most;
use crate::float::ordering::is_below;
use crate::float::ordering::lemma_whole_is_small;
use crate::float::ordering::position;
use crate::float::ordering::to_whole;
use crate::float::ordering::whole;
use crate::float::ordering::whole_number;
use crate::float::real64::binary64;
use crate::float::real64::format64;
use crate::float::real64::Real64;
use crate::float::rounding::magnitude;
use crate::float::rounding::Format;
use crate::float::rounding::Number;
use vstd::arithmetic::power2::pow2;
use vstd::prelude::*;
use vstd::std_specs::cmp::PartialEqSpecImpl;

verus! {

/// The 32-bit format: 24 bits of mantissa, a unit of `2^-149`.
pub open spec fn binary32() -> Format {
    Format { precision: 24, top: 253, bias: 149 }
}

/// The 32-bit format.
pub fn format32() -> (r: Format)
    ensures
        r == binary32(),
        r.wf(),
{
    Format { precision: 24, top: 253, bias: 149 }
}

/// A number of the 32-bit format, by its bits.
#[derive(Clone, Copy, Debug)]
pub struct Real32 {
    pub bits: u32,
}

impl PartialEq for Real32 {
    /// Whether two numbers are equal: the two zeros are, and what is not a number equals nothing.
    fn eq(&self, other: &Real32) -> (r: bool) {
        self.equals(*other)
    }
}

impl PartialEqSpecImpl for Real32 {
    open spec fn obeys_eq_spec() -> bool {
        true
    }

    open spec fn eq_spec(&self, other: &Real32) -> bool {
        self.spec_equals(*other)
    }
}

/// The number that 32 bits stand for.
pub open spec fn number32(bits: u32) -> Number {
    let negative = bits / 0x8000_0000 == 1;
    let field = (bits / 0x80_0000) % 256;
    let fraction = bits % 0x80_0000;
    if field == 255 {
        if fraction == 0 {
            Number::Infinity { negative }
        } else {
            Number::Nan
        }
    } else if field == 0 {
        Number::Finite { negative, mantissa: fraction as u64, exponent: 0 }
    } else {
        Number::Finite {
            negative,
            mantissa: (fraction + 0x80_0000) as u64,
            exponent: (field - 1) as u32,
        }
    }
}

/// The bits that stand for a number; what is not a number gets the quiet pattern.
pub open spec fn bits32(number: Number) -> u32 {
    match number {
        Number::Nan => 0x7fc0_0000,
        Number::Infinity { negative } => if negative {
            0xff80_0000
        } else {
            0x7f80_0000
        },
        Number::Finite { negative, mantissa, exponent } => {
            let sign: int = if negative {
                0x8000_0000
            } else {
                0
            };
            // A full mantissa adds one to the exponent field.
            (sign + exponent * 0x80_0000 + mantissa) as u32
        },
    }
}

/// The powers of two that bound a mantissa.
proof fn lemma_mantissa_bounds()
    ensures
        pow2(24) == 0x100_0000,
        pow2(23) == 0x80_0000,
{
    vstd::arithmetic::power2::lemma2_to64();
}

impl Real32 {
    /// The number.
    pub open spec fn number(self) -> Number {
        number32(self.bits)
    }

    /// The bit pattern of a number.
    pub open spec fn of(number: Number) -> Real32 {
        Real32 { bits: bits32(number) }
    }

    /// Takes the bits apart.
    pub fn unpack(self) -> (r: Number)
        ensures
            r == self.number(),
            r.fits(binary32()),
    {
        proof {
            lemma_mantissa_bounds();
        }
        let negative: bool = self.bits / 0x8000_0000 == 1;
        let field: u32 = (self.bits / 0x80_0000) % 256;
        let fraction: u32 = self.bits % 0x80_0000;
        if field == 255 {
            if fraction == 0 {
                Number::Infinity { negative }
            } else {
                Number::Nan
            }
        } else if field == 0 {
            Number::Finite { negative, mantissa: fraction as u64, exponent: 0 }
        } else {
            Number::Finite {
                negative,
                mantissa: (fraction + 0x80_0000) as u64,
                exponent: field - 1,
            }
        }
    }

    /// Puts the bits together.
    pub fn pack(number: Number) -> (r: Real32)
        requires
            number.fits(binary32()),
        ensures
            r == Real32::of(number),
            r.number() == number,
    {
        proof {
            lemma_mantissa_bounds();
        }
        match number {
            Number::Nan => Real32 { bits: 0x7fc0_0000 },
            Number::Infinity { negative } => if negative {
                Real32 { bits: 0xff80_0000 }
            } else {
                Real32 { bits: 0x7f80_0000 }
            },
            Number::Finite { negative, mantissa, exponent } => {
                let rest: u32 = exponent * 0x80_0000 + mantissa as u32;
                if negative {
                    Real32 { bits: 0x8000_0000 + rest }
                } else {
                    Real32 { bits: rest }
                }
            },
        }
    }

    /// `self + other`, as a mathematical function.
    #[verifier::opaque]
    pub open spec fn spec_plus(self, other: Real32) -> Real32 {
        Real32::of(sum_of(self.number(), other.number(), binary32()))
    }

    /// `self + other`.
    #[verifier::when_used_as_spec(spec_plus)]
    pub fn plus(self, other: Real32) -> (r: Real32)
        ensures
            r == self.spec_plus(other),
    {
        proof {
            reveal(Real32::spec_plus);
        }
        Real32::pack(sum(self.unpack(), other.unpack(), format32()))
    }

    /// The number with the other sign, as a mathematical function.
    pub open spec fn spec_negated(self) -> Real32 {
        Real32 {
            bits: if self.bits < 0x8000_0000 {
                (self.bits + 0x8000_0000) as u32
            } else {
                (self.bits - 0x8000_0000) as u32
            },
        }
    }

    /// The number with the other sign.
    #[verifier::when_used_as_spec(spec_negated)]
    pub fn negated(self) -> (r: Real32)
        ensures
            r == self.spec_negated(),
    {
        if self.bits < 0x8000_0000 {
            Real32 { bits: self.bits + 0x8000_0000 }
        } else {
            Real32 { bits: self.bits - 0x8000_0000 }
        }
    }

    /// `self - other`, as a mathematical function.
    pub open spec fn spec_minus(self, other: Real32) -> Real32 {
        self.spec_plus(other.spec_negated())
    }

    /// `self - other`.
    #[verifier::when_used_as_spec(spec_minus)]
    pub fn minus(self, other: Real32) -> (r: Real32)
        ensures
            r == self.spec_minus(other),
    {
        self.plus(other.negated())
    }

    /// `self * other`, as a mathematical function.
    #[verifier::opaque]
    pub open spec fn spec_times(self, other: Real32) -> Real32 {
        Real32::of(product_of(self.number(), other.number(), binary32()))
    }

    /// `self * other`.
    #[verifier::when_used_as_spec(spec_times)]
    pub fn times(self, other: Real32) -> (r: Real32)
        ensures
            r == self.spec_times(other),
    {
        proof {
            reveal(Real32::spec_times);
        }
        Real32::pack(product(self.unpack(), other.unpack(), format32()))
    }

    /// `self / other`, as a mathematical function.
    #[verifier::opaque]
    pub open spec fn spec_over(self, other: Real32) -> Real32 {
        Real32::of(quotient_of(self.number(), other.number(), binary32()))
    }

    /// `self / other`.
    #[verifier::when_used_as_spec(spec_over)]
    pub fn over(self, other: Real32) -> (r: Real32)
        ensures
            r == self.spec_over(other),
    {
        proof {
            reveal(Real32::spec_over);
        }
        Real32::pack(quotient(self.unpack(), other.unpack(), format32()))
    }

    /// The distance from zero, as a mathematical function.
    pub open spec fn spec_absolute(self) -> Real32 {
        Real32 { bits: self.bits % 0x8000_0000 }
    }

    /// The distance from zero.
    #[verifier::when_used_as_spec(spec_absolute)]
    pub fn absolute(self) -> (r: Real32)
        ensures
            r == self.spec_absolute(),
    {
        Real32 { bits: self.bits % 0x8000_0000 }
    }

    /// `self < other`, as a mathematical predicate.
    #[verifier::opaque]
    pub open spec fn spec_less(self, other: Real32) -> bool {
        below(self.number(), other.number(), binary32())
    }

    /// `self < other`.
    #[verifier::when_used_as_spec(spec_less)]
    pub fn less(self, other: Real32) -> (r: bool)
        ensures
            r == self.spec_less(other),
    {
        proof {
            reveal(Real32::spec_less);
        }
        is_below(self.unpack(), other.unpack(), format32())
    }

    /// `self <= other`, as a mathematical predicate.
    #[verifier::opaque]
    pub open spec fn spec_up_to(self, other: Real32) -> bool {
        at_most(self.number(), other.number(), binary32())
    }

    /// `self <= other`.
    #[verifier::when_used_as_spec(spec_up_to)]
    pub fn up_to(self, other: Real32) -> (r: bool)
        ensures
            r == self.spec_up_to(other),
    {
        proof {
            reveal(Real32::spec_up_to);
        }
        is_at_most(self.unpack(), other.unpack(), format32())
    }

    /// `self == other` as numbers: zero equals minus zero, and what is not a number equals
    /// nothing.
    pub open spec fn spec_equals(self, other: Real32) -> bool {
        self.spec_up_to(other) && other.spec_up_to(self)
    }

    /// `self == other` as numbers.
    #[verifier::when_used_as_spec(spec_equals)]
    pub fn equals(self, other: Real32) -> (r: bool)
        ensures
            r == self.spec_equals(other),
    {
        self.up_to(other) && other.up_to(self)
    }

    /// Whether this is neither infinite nor not a number.
    #[verifier::opaque]
    pub open spec fn spec_is_finite(self) -> bool {
        self.number() is Finite
    }

    /// Whether this is neither infinite nor not a number.
    #[verifier::when_used_as_spec(spec_is_finite)]
    pub fn is_finite(self) -> (r: bool)
        ensures
            r == self.spec_is_finite(),
    {
        proof {
            reveal(Real32::spec_is_finite);
        }
        match self.unpack() {
            Number::Finite { .. } => true,
            _ => false,
        }
    }

    /// The smaller of two; the other one where one is not a number.
    pub open spec fn spec_smaller(self, other: Real32) -> Real32 {
        if self.number() is Nan || other.spec_less(self) {
            other
        } else {
            self
        }
    }

    /// The smaller of two.
    #[verifier::when_used_as_spec(spec_smaller)]
    pub fn smaller(self, other: Real32) -> (r: Real32)
        ensures
            r == self.spec_smaller(other),
    {
        if other.less(self) {
            return other;
        }
        match self.unpack() {
            Number::Nan => other,
            _ => self,
        }
    }

    /// The larger of two; the other one where one is not a number.
    pub open spec fn spec_larger(self, other: Real32) -> Real32 {
        if self.number() is Nan || self.spec_less(other) {
            other
        } else {
            self
        }
    }

    /// The larger of two.
    #[verifier::when_used_as_spec(spec_larger)]
    pub fn larger(self, other: Real32) -> (r: Real32)
        ensures
            r == self.spec_larger(other),
    {
        if self.less(other) {
            return other;
        }
        match self.unpack() {
            Number::Nan => other,
            _ => self,
        }
    }

    /// The nearest number between two bounds; what is not a number stays so.
    pub open spec fn spec_within(self, low: Real32, high: Real32) -> Real32 {
        if self.spec_less(low) {
            low
        } else if high.spec_less(self) {
            high
        } else {
            self
        }
    }

    /// The nearest number between two bounds.
    #[verifier::when_used_as_spec(spec_within)]
    pub fn within(self, low: Real32, high: Real32) -> (r: Real32)
        ensures
            r == self.spec_within(low, high),
    {
        if self.less(low) {
            low
        } else if high.less(self) {
            high
        } else {
            self
        }
    }

    /// The nearest integer, away from zero where two are equally near, brought into the range
    /// of `i32`; zero for what is not a number.
    #[verifier::opaque]
    pub open spec fn spec_to_i32(self) -> i32 {
        match self.number() {
            Number::Nan => 0,
            Number::Infinity { negative } => if negative {
                i32::MIN
            } else {
                i32::MAX
            },
            Number::Finite { negative, mantissa, exponent } => {
                let value = signed(negative, whole(mantissa as nat, exponent as nat, binary32()));
                if value < i32::MIN {
                    i32::MIN
                } else if value > i32::MAX {
                    i32::MAX
                } else {
                    value as i32
                }
            },
        }
    }

    /// The nearest integer in the range of `i32`.
    #[verifier::when_used_as_spec(spec_to_i32)]
    pub fn to_i32(self) -> (r: i32)
        ensures
            r == self.spec_to_i32(),
    {
        proof {
            reveal(Real32::spec_to_i32);
        }
        match self.unpack() {
            Number::Nan => 0,
            Number::Infinity { negative } => if negative {
                i32::MIN
            } else {
                i32::MAX
            },
            Number::Finite { negative, mantissa, exponent } => {
                let value: u64 = to_whole(mantissa, exponent, 0x8000_0000, format32());
                if negative {
                    (-(value as i64)) as i32
                } else if value > 0x7fff_ffff {
                    i32::MAX
                } else {
                    value as i32
                }
            },
        }
    }

    /// The nearest whole number, away from zero where two are equally near. From an exponent of
    /// 149 units on every number is whole.
    #[verifier::opaque]
    pub open spec fn spec_rounded(self) -> Real32 {
        match self.number() {
            Number::Finite { negative, mantissa, exponent } => if exponent < 149 {
                Real32::of(
                    whole_number(
                        negative,
                        whole(mantissa as nat, exponent as nat, binary32()),
                        binary32(),
                    ),
                )
            } else {
                self
            },
            _ => self,
        }
    }

    /// The nearest whole number.
    #[verifier::when_used_as_spec(spec_rounded)]
    pub fn rounded(self) -> (r: Real32)
        ensures
            r == self.spec_rounded(),
    {
        proof {
            reveal(Real32::spec_rounded);
        }
        match self.unpack() {
            Number::Finite { negative, mantissa, exponent } => if exponent < 149 {
                let value: u64 = to_whole(mantissa, exponent, u64::MAX, format32());
                proof {
                    lemma_mantissa_bounds();
                    lemma_whole_is_small(mantissa as nat, exponent as nat, binary32());
                }
                Real32::pack(from_whole(negative, value, format32()))
            } else {
                self
            },
            _ => self,
        }
    }

    /// The number in the 64-bit format, as a mathematical function.
    #[verifier::opaque]
    pub open spec fn spec_widened(self) -> Real64 {
        Real64::of(converted(self.number(), binary32(), binary64()))
    }

    /// The number in the 64-bit format.
    #[verifier::when_used_as_spec(spec_widened)]
    pub fn widened(self) -> (r: Real64)
        ensures
            r == self.spec_widened(),
    {
        proof {
            reveal(Real32::spec_widened);
        }
        Real64::pack(convert(self.unpack(), format32(), format64()))
    }

    /// The number nearest to an integer.
    #[verifier::opaque]
    pub open spec fn spec_from_i32(value: i32) -> Real32 {
        Real32::of(
            whole_number(
                value < 0,
                if value < 0 {
                    (-(value as int)) as nat
                } else {
                    value as nat
                },
                binary32(),
            ),
        )
    }

    /// The number nearest to an integer.
    #[verifier::when_used_as_spec(spec_from_i32)]
    pub fn from_i32(value: i32) -> (r: Real32)
        ensures
            r == Real32::spec_from_i32(value),
    {
        proof {
            reveal(Real32::spec_from_i32);
        }
        let distance: u64 = if value < 0 {
            (-(value as i64)) as u64
        } else {
            value as u64
        };
        Real32::pack(from_whole(value < 0, distance, format32()))
    }

    /// An integer that is larger for a larger number: the bits themselves, turned round for
    /// negative numbers. Minus zero comes before zero, and what is not a number comes last on
    /// the side of its sign.
    pub open spec fn spec_order_key(self) -> int {
        if self.bits < 0x8000_0000 {
            self.bits as int
        } else {
            0x7fff_ffff - self.bits
        }
    }

    /// An integer that is larger for a larger number.
    pub fn order_key(self) -> (r: i64)
        ensures
            r == self.spec_order_key(),
    {
        if self.bits < 0x8000_0000 {
            self.bits as i64
        } else {
            0x7fff_ffff - self.bits as i64
        }
    }
}

/// A number that is brought between two bounds is between them.
pub proof fn lemma_within(value: Real32, low: Real32, high: Real32)
    requires
        value.up_to(value),
        low.up_to(high),
    ensures
        low.up_to(value.within(low, high)),
        value.within(low, high).up_to(high),
{
    reveal(Real32::spec_up_to);
    reveal(Real32::spec_less);
}

/// A finite number minus itself is zero.
pub proof fn lemma_minus_itself(value: Real32)
    requires
        value.is_finite(),
    ensures
        value.minus(value) == (Real32 { bits: 0 }),
{
    reveal(Real32::spec_plus);
    reveal(Real32::spec_is_finite);
    let negated = value.negated();
    match value.number() {
        Number::Finite { negative, mantissa, exponent } => {
            assert(negated.number() == (Number::Finite {
                negative: !negative,
                mantissa,
                exponent,
            }));
        },
        _ => {},
    }
}

/// Zero is not above a number that is not negative.
pub proof fn lemma_zero_is_least(value: Real32)
    requires
        value.bits < 0x8000_0000,
    ensures
        !value.less(Real32 { bits: 0 }),
{
    reveal(Real32::spec_less);
    let zero = Real32 { bits: 0 };
    assert(zero.number() == (Number::Finite { negative: false, mantissa: 0, exponent: 0 }));
    assert(position(zero.number(), binary32()) == 0);
    assert(value.bits / 0x8000_0000 == 0);
    assert(position(value.number(), binary32()) >= 0);
}

/// The number with the other sign has the other sign and nothing else.
proof fn lemma_negated(value: Real32)
    requires
        value.is_finite(),
    ensures
        ({
            let n = value.number();
            value.negated().number() == (Number::Finite {
                negative: !n->Finite_negative,
                mantissa: n->mantissa,
                exponent: n->exponent,
            })
        }),
{
    reveal(Real32::spec_is_finite);
}

/// The distance between two finite numbers is the same from both sides.
pub proof fn lemma_distance_is_symmetric(a: Real32, b: Real32)
    requires
        a.is_finite(),
        b.is_finite(),
    ensures
        a.minus(b).absolute() == b.minus(a).absolute(),
{
    reveal(Real32::spec_is_finite);
    reveal(Real32::spec_plus);
    lemma_negated(a);
    lemma_negated(b);
    lemma_mantissa_bounds();
    let m = a.number();
    let n = b.number();
    let exact = signed(
        m->Finite_negative,
        magnitude(m->mantissa as nat, m->exponent as nat),
    ) - signed(n->Finite_negative, magnitude(n->mantissa as nat, n->exponent as nat));
    let size = if exact < 0 {
        (-exact) as nat
    } else {
        exact as nat
    };
    if exact != 0 {
        lemma_rounded_bounds(true, size, 1, binary32());
        lemma_rounded_bounds(false, size, 1, binary32());
    }
}

/// The bits of a number that fits stand for it.
pub proof fn lemma_single_bits_of_number(number: Number)
    requires
        number.fits(binary32()),
    ensures
        Real32::of(number).number() == number,
{
    lemma_mantissa_bounds();
}

} // verus!
