//! Numbers of the 32-bit format as real numbers.

use crate::float::bounds::lemma_rounded_bounds;
use crate::float::bounds::lemma_rounded_keeps_order;
use crate::float::exact::ceiling;
use crate::float::exact::grain;
use crate::float::exact::least;
use crate::float::exact::lemma_constant_value;
use crate::float::exact::lemma_converted_is_near;
use crate::float::exact::lemma_order_is_real;
use crate::float::exact::lemma_product_is_near;
use crate::float::exact::lemma_quotient_is_near;
use crate::float::exact::lemma_sign_of_value;
use crate::float::exact::lemma_sum_is_near;
use crate::float::exact::lemma_whole_is_exact;
use crate::float::exact::lemma_whole_is_near;
use crate::float::exact::lemma_whole_number_is_near;
use crate::float::exact::most;
use crate::float::exact::near;
use crate::float::exact::reach;
use crate::float::exact::size;
use crate::float::exact::speck;
use crate::float::exact::trace;
use crate::float::exact::value_of;
use crate::float::ordering::position;
use crate::float::ordering::whole;
use crate::float::ordering::whole_number;
use crate::float::real32::binary32;
use crate::float::real64::binary64;
use crate::float::real32::lemma_single_bits_of_number;
use crate::float::rounding::lemma_pow2_monotonic;
use crate::float::rounding::magnitude;
use crate::float::rounding::Number;
use crate::float::Real32;
use vstd::arithmetic::power2::lemma2_to64;
use vstd::arithmetic::power2::lemma2_to64_rest;
use vstd::arithmetic::power2::lemma_pow2_adds;
use vstd::arithmetic::power2::lemma_pow2_pos;
use vstd::arithmetic::power2::pow2;
use vstd::prelude::*;

verus! {

/// How large a part of a number its rounding can be: one in `2^24`.
#[verifier::inline]
pub open spec fn fineness() -> real {
    1 as real / 0x100_0000 as real
}

impl Real32 {
    /// The real number that this is.
    pub open spec fn value(self) -> real {
        value_of(self.number(), binary32())
    }

    /// Whether this is a real number, and equals a given one up to the rounding of one operation.
    pub open spec fn is_rounded(self, exact: real) -> bool {
        &&& self.is_finite()
        &&& near(self.value(), exact, size(exact) * fineness() + trace())
    }
}

/// The grain, the least number and the largest numbers of the format.
proof fn lemma_scale()
    ensures
        grain(binary32()) == fineness(),
        speck(binary32()) <= trace(),
        reach() <= ceiling(binary32()),
{
    reveal(grain);
    reveal(speck);
    reveal(ceiling);
    lemma2_to64();
    lemma2_to64_rest();
    lemma_pow2_adds(64, 36);
    lemma_pow2_adds(64, 64);
    lemma_pow2_monotonic(128, 149);
    lemma_pow2_pos(149);
    let unit = pow2(149) as real;
    let k = 340282366920938463463374607431768211456int as real;
    assert(pow2(128) == 340282366920938463463374607431768211456int);
    assert(1 as real / unit <= 1 as real / k) by (nonlinear_arith)
        requires
            unit >= k,
            k > 0 as real,
    ;
    lemma_pow2_adds(149, 127);
    lemma_pow2_monotonic(100, 127);
    lemma_pow2_pos(127);
    assert(pow2(100) == 1267650600228229401496703205376int);
    let a = pow2(276) as real;
    let b = pow2(127) as real;
    assert(a == unit * b) by {
        crate::float::exact::lemma_product_is_real(pow2(149) as int, pow2(127) as int);
    }
    assert(a / unit == b) by (nonlinear_arith)
        requires
            a == unit * b,
            unit > 0 as real,
    ;
}

/// The grain, the least number and the largest numbers of the format.
pub proof fn lemma_single_scale()
    ensures
        grain(binary32()) == fineness(),
        speck(binary32()) <= trace(),
        reach() <= ceiling(binary32()),
{
    lemma_scale();
}

/// Zero, or any number that is given by its mantissa and its binary places.
pub proof fn lemma_constant(a: Real32, mantissa: u64, exponent: u32, places: nat, parts: int)
    requires
        a.number() == (Number::Finite { negative: false, mantissa, exponent }),
        exponent + places == 149,
        parts == pow2(places),
    ensures
        a.is_finite(),
        a.value() == mantissa as real / parts as real,
{
    reveal(Real32::spec_is_finite);
    lemma_constant_value(a.number(), binary32(), places);
    lemma_pow2_pos(places);
    let v = a.value();
    let m = mantissa as real;
    let k = parts as real;
    assert(v == m / k) by (nonlinear_arith)
        requires
            v * k == m,
            k > 0 as real,
    ;
}

/// Zero is zero.
pub proof fn lemma_zero()
    ensures
        (Real32 { bits: 0 }).value() == 0 as real,
        (Real32 { bits: 0 }).is_finite(),
{
    let zero = Real32 { bits: 0 };
    lemma_constant(zero, 0, 0, 149, pow2(149) as int);
    lemma_pow2_pos(149);
    let p = pow2(149) as real;
    assert(zero.value() == 0 as real) by (nonlinear_arith)
        requires
            zero.value() == 0 as real / p,
            p > 0 as real,
    ;
}

/// Finite numbers are ordered as real numbers.
pub proof fn lemma_order(a: Real32, b: Real32)
    requires
        a.is_finite(),
        b.is_finite(),
    ensures
        a.up_to(b) == (a.value() <= b.value()),
        a.less(b) == (a.value() < b.value()),
{
    reveal(Real32::spec_up_to);
    reveal(Real32::spec_less);
    reveal(Real32::spec_is_finite);
    lemma_order_is_real(a.number(), b.number(), binary32());
}

/// What is at most a finite number and at least one is a finite number.
pub proof fn lemma_between(low: Real32, a: Real32, high: Real32)
    requires
        low.up_to(a),
        a.up_to(high),
        low.is_finite(),
        high.is_finite(),
    ensures
        a.is_finite(),
        low.value() <= a.value() <= high.value(),
{
    reveal(Real32::spec_up_to);
    reveal(Real32::spec_is_finite);
    lemma_finite_is_small(low);
    lemma_finite_is_small(high);
    lemma_order(low, a);
    lemma_order(a, high);
}

/// A finite number stands nearer to zero than infinity.
proof fn lemma_finite_is_small(a: Real32)
    requires
        a.is_finite(),
    ensures
        -pow2(277) < position(a.number(), binary32()) < pow2(277),
{
    reveal(Real32::spec_is_finite);
    lemma2_to64();
    lemma2_to64_rest();
    let e = a.number()->exponent as nat;
    let m = a.number()->mantissa as nat;
    lemma_pow2_pos(e);
    lemma_pow2_adds(24, e);
    lemma_pow2_monotonic(24 + e, 277);
    assert(m < pow2(24));
    assert(m * pow2(e) < pow2(24) * pow2(e)) by (nonlinear_arith)
        requires
            m < pow2(24),
            pow2(e) > 0,
    ;
}

/// The number with the other sign.
pub proof fn lemma_negated(a: Real32)
    requires
        a.is_finite(),
    ensures
        a.negated().is_finite(),
        a.negated().value() == 0 as real - a.value(),
{
    reveal(value_of);
    reveal(Real32::spec_is_finite);
    let p = position(a.number(), binary32());
    assert(position(a.negated().number(), binary32()) == -p);
    let u = pow2(149) as real;
    lemma_pow2_pos(149);
    assert((-p) as real / u == 0 as real - p as real / u) by (nonlinear_arith)
        requires
            (-p) as real == 0 as real - p as real,
            u > 0 as real,
    ;
}

/// A sum, up to its rounding.
pub proof fn lemma_plus(a: Real32, b: Real32)
    requires
        a.is_finite(),
        b.is_finite(),
        size(a.value() + b.value()) < reach(),
    ensures
        a.plus(b).is_rounded(a.value() + b.value()),
{
    reveal(Real32::spec_plus);
    reveal(Real32::spec_is_finite);
    lemma_scale();
    lemma_sum_is_near(a.number(), b.number(), binary32());
    lemma_single_bits_of_number(
        crate::float::arithmetic::sum_of(a.number(), b.number(), binary32()),
    );
}

/// A difference, up to its rounding.
pub proof fn lemma_minus(a: Real32, b: Real32)
    requires
        a.is_finite(),
        b.is_finite(),
        size(a.value() - b.value()) < reach(),
    ensures
        a.minus(b).is_rounded(a.value() - b.value()),
{
    lemma_negated(b);
    lemma_plus(a, b.negated());
}

/// A product, up to its rounding.
pub proof fn lemma_times(a: Real32, b: Real32)
    requires
        a.is_finite(),
        b.is_finite(),
        size(a.value() * b.value()) < reach(),
    ensures
        a.times(b).is_rounded(a.value() * b.value()),
{
    reveal(Real32::spec_times);
    reveal(Real32::spec_is_finite);
    lemma_scale();
    lemma_product_is_near(a.number(), b.number(), binary32());
    lemma_single_bits_of_number(
        crate::float::arithmetic::product_of(a.number(), b.number(), binary32()),
    );
}

/// A quotient, up to its rounding.
pub proof fn lemma_over(a: Real32, b: Real32)
    requires
        a.is_finite(),
        b.is_finite(),
        b.value() != 0 as real,
        size(a.value() / b.value()) < reach(),
    ensures
        a.over(b).is_rounded(a.value() / b.value()),
{
    reveal(Real32::spec_over);
    reveal(Real32::spec_is_finite);
    lemma_scale();
    lemma_quotient_is_near(a.number(), b.number(), binary32());
    lemma_single_bits_of_number(
        crate::float::arithmetic::quotient_of(a.number(), b.number(), binary32()),
    );
}

/// The larger and the smaller of two finite numbers.
pub proof fn lemma_larger_smaller(a: Real32, b: Real32)
    requires
        a.is_finite(),
        b.is_finite(),
    ensures
        a.larger(b).is_finite(),
        a.smaller(b).is_finite(),
        a.larger(b).value() == most(a.value(), b.value()),
        a.smaller(b).value() == least(a.value(), b.value()),
{
    reveal(Real32::spec_is_finite);
    lemma_order(a, b);
    lemma_order(b, a);
}

/// A finite number between two others.
pub proof fn lemma_clamped(a: Real32, low: Real32, high: Real32)
    requires
        a.is_finite(),
        low.is_finite(),
        high.is_finite(),
        low.value() <= high.value(),
    ensures
        a.within(low, high).is_finite(),
        a.within(low, high).value() == least(most(a.value(), low.value()), high.value()),
{
    reveal(Real32::spec_is_finite);
    lemma_order(a, low);
    lemma_order(high, a);
}

/// An integer, up to its rounding.
pub proof fn lemma_from_i32(value: i32)
    ensures
        Real32::from_i32(value).is_rounded(value as real),
{
    reveal(Real32::spec_from_i32);
    reveal(Real32::spec_is_finite);
    lemma_scale();
    let distance: nat = if value < 0 {
        (-(value as int)) as nat
    } else {
        value as nat
    };
    lemma_whole_number_is_near(value < 0, distance, binary32());
    lemma_single_bits_of_number(
        crate::float::ordering::whole_number(value < 0, distance, binary32()),
    );
}

/// The distance from zero.
pub proof fn lemma_absolute(a: Real32)
    requires
        a.is_finite(),
    ensures
        a.absolute().is_finite(),
        a.absolute().value() == size(a.value()),
{
    reveal(Real32::spec_is_finite);
    lemma_zero();
    let zero = Real32 { bits: 0 };
    lemma_order(a, zero);
    reveal(Real32::spec_up_to);
    reveal(Real32::spec_less);
    lemma_order(zero, a);
    assert(position(zero.number(), binary32()) == 0) by {
        assert(magnitude(0, 0) == 0) by (nonlinear_arith);
    }
    if a.bits < 0x8000_0000 {
        assert(a.absolute() == a);
        assert(position(a.number(), binary32()) >= 0);
    } else {
        assert(a.absolute() == a.negated());
        lemma_negated(a);
        assert(position(a.number(), binary32()) <= 0);
    }
}

/// The number in the 64-bit format.
pub proof fn lemma_widened(a: Real32)
    requires
        a.is_finite(),
        size(a.value()) < reach(),
    ensures
        a.widened().is_rounded(a.value()),
{
    reveal(Real32::spec_widened);
    reveal(Real32::spec_is_finite);
    crate::float::double::lemma_double_scale();
    lemma_converted_is_near(a.number(), binary32(), binary64());
    crate::float::real64::lemma_bits_of_number(
        crate::float::ordering::converted(a.number(), binary32(), binary64()),
    );
}

/// The nearest integer is at most a half away, within the range of integers.
pub proof fn lemma_to_i32(a: Real32)
    requires
        a.is_finite(),
        size(a.value()) < 0x4000_0000 as real,
    ensures
        near(2 as real * a.to_i32() as real, 2 as real * a.value(), 1 as real),
{
    reveal(Real32::spec_to_i32);
    reveal(Real32::spec_is_finite);
    lemma_whole_is_near(a.number(), binary32());
    lemma_zero();
    let zero = Real32 { bits: 0 };
    lemma_order(a, zero);
    lemma_order(zero, a);
    reveal(Real32::spec_up_to);
    assert(position(zero.number(), binary32()) == 0) by {
        assert(magnitude(0, 0) == 0) by (nonlinear_arith);
    }
}

/// The nearest whole number of a number with binary places.
proof fn lemma_nearest_of_fraction(a: Real32)
    requires
        a.number() is Finite,
        a.number()->exponent < 149,
        size(a.value()) < 100_000 as real,
    ensures
        ({
            let n = a.number();
            let distance = whole(n->mantissa as nat, n->exponent as nat, binary32()) as real;
            &&& a.rounded().is_rounded(
                if n->Finite_negative {
                    0 as real - distance
                } else {
                    distance
                },
            )
            &&& near(2 as real * distance, 2 as real * size(a.value()), 1 as real)
        }),
{
    reveal(Real32::spec_rounded);
    reveal(Real32::spec_is_finite);
    lemma_scale();
    let n = a.number();
    let distance = whole(n->mantissa as nat, n->exponent as nat, binary32());
    lemma_whole_is_near(n, binary32());
    lemma_whole_number_is_near(n->Finite_negative, distance, binary32());
    lemma_single_bits_of_number(whole_number(n->Finite_negative, distance, binary32()));
}

/// A number without binary places is its own nearest whole number.
proof fn lemma_nearest_of_whole(a: Real32)
    requires
        a.number() is Finite,
        a.number()->exponent >= 149,
        size(a.value()) < 100_000 as real,
    ensures
        a.rounded() == a,
        a.to_i32() as real == a.value(),
{
    reveal(Real32::spec_rounded);
    reveal(Real32::spec_to_i32);
    let n = a.number();
    lemma_whole_is_exact(n, binary32());
    lemma_sign_of_value(n, binary32());
    let distance = whole(n->mantissa as nat, n->exponent as nat, binary32());
    assert(distance < 100_000);
}

/// The nearest whole number is whole, and no further than a half.
pub proof fn lemma_nearest(a: Real32)
    requires
        a.is_finite(),
        size(a.value()) < 100_000 as real,
    ensures
        a.rounded().is_finite(),
        near(2 as real * a.rounded().value(), 2 as real * a.value(), 102 as real / 100 as real),
        near(a.rounded().value(), a.rounded().to_i32() as real, 1 as real / 100 as real),
{
    assert(a.number() is Finite) by {
        reveal(Real32::spec_is_finite);
    }
    let n = a.number();
    if n->exponent < 149 {
        lemma_nearest_of_fraction(a);
        lemma_sign_of_value(n, binary32());
        let distance = whole(n->mantissa as nat, n->exponent as nat, binary32()) as int;
        let exact = if n->Finite_negative {
            0 - distance
        } else {
            distance
        };
        let found = a.rounded();
        assert(near(found.value(), exact as real, 1 as real / 100 as real));
        lemma_to_i32(found);
        let back = found.to_i32() as int;
        assert(near(2 as real * back as real, 2 as real * exact as real, 102 as real / 100 as real));
        assert(back == exact);
    } else {
        lemma_nearest_of_whole(a);
    }
}

/// A sum does not go past a number that the exact sum does not go past.
pub proof fn lemma_plus_keeps_order(a: Real32, b: Real32, c: Real32)
    requires
        a.is_finite(),
        b.is_finite(),
        c.is_finite(),
    ensures
        a.value() + b.value() <= c.value() ==> a.plus(b).up_to(c),
        a.value() + b.value() >= c.value() ==> c.up_to(a.plus(b)),
{
    reveal(Real32::spec_plus);
    reveal(Real32::spec_up_to);
    reveal(Real32::spec_is_finite);
    lemma2_to64();
    let p = position(a.number(), binary32());
    let q = position(b.number(), binary32());
    let r = position(c.number(), binary32());
    let exact = p + q;
    let sum = crate::float::arithmetic::sum_of(a.number(), b.number(), binary32());
    let m = c.number()->mantissa as nat;
    let x = c.number()->exponent as nat;
    lemma_finite_is_small(c);
    assert(magnitude(0, 0) == 0) by (nonlinear_arith);
    assert((a.value() + b.value() <= c.value()) == (exact <= r) && (a.value() + b.value()
        >= c.value()) == (exact >= r)) by {
        reveal(value_of);
        lemma_pow2_pos(149);
        let u = pow2(149) as real;
        let v = a.value();
        let w = b.value();
        let z = c.value();
        assert((v + w <= z) == (p as real + q as real <= r as real) && (v + w >= z) == (p as real
            + q as real >= r as real)) by (nonlinear_arith)
            requires
                v == p as real / u,
                w == q as real / u,
                z == r as real / u,
                u > 0 as real,
        ;
    }
    assert(magnitude(m, x) * 1 == magnitude(m, x));
    if exact > 0 {
        lemma_rounded_keeps_order(false, exact as nat, 1, binary32(), m, x);
        lemma_rounded_bounds(false, exact as nat, 1, binary32());
    } else if exact < 0 {
        lemma_rounded_keeps_order(true, (-exact) as nat, 1, binary32(), m, x);
        lemma_rounded_bounds(true, (-exact) as nat, 1, binary32());
    }
    assert(sum.fits(binary32()));
    lemma_single_bits_of_number(sum);
}

/// A difference does not go past a number that the exact difference does not go past.
pub proof fn lemma_minus_keeps_order(a: Real32, b: Real32, c: Real32)
    requires
        a.is_finite(),
        b.is_finite(),
        c.is_finite(),
    ensures
        a.value() - b.value() <= c.value() ==> a.minus(b).up_to(c),
        a.value() - b.value() >= c.value() ==> c.up_to(a.minus(b)),
{
    lemma_negated(b);
    lemma_plus_keeps_order(a, b.negated(), c);
}

/// Finite numbers that are not negative are ordered as their bits.
pub proof fn lemma_order_of_bits(a: Real32, b: Real32)
    requires
        a.is_finite(),
        b.is_finite(),
        a.bits <= b.bits < 0x8000_0000,
    ensures
        a.value() <= b.value(),
        a.bits < b.bits ==> a.value() < b.value(),
{
    reveal(Real32::spec_is_finite);
    reveal(Real32::spec_up_to);
    reveal(Real32::spec_less);
    lemma2_to64();
    lemma_order(a, b);
    let m = a.number()->mantissa as nat;
    let x = a.number()->exponent as nat;
    let n = b.number()->mantissa as nat;
    let y = b.number()->exponent as nat;
    assert(a.bits == x * 0x80_0000 + m);
    assert(b.bits == y * 0x80_0000 + n);
    if x < y {
        crate::float::ordering::lemma_exponent_orders(m, x, n, y, 24);
    } else if x == y {
        let c = pow2(x);
        lemma_pow2_pos(x);
        assert(m * c <= n * c && (m < n ==> m * c < n * c)) by (nonlinear_arith)
            requires
                m <= n,
                c > 0,
        ;
    } else {
        assert(m >= 0x80_0000);
        assert(false);
    }
}

/// A sum of at most a given size.
pub proof fn lemma_plus_bounded(a: Real32, b: Real32, bound: real)
    requires
        a.is_finite(),
        b.is_finite(),
        near(a.value() + b.value(), 0 as real, bound),
        bound < reach(),
    ensures
        a.plus(b).is_finite(),
        near(a.plus(b).value(), a.value() + b.value(), bound * fineness() + trace()),
{
    lemma_plus(a, b);
}

/// A difference of at most a given size.
pub proof fn lemma_minus_bounded(a: Real32, b: Real32, bound: real)
    requires
        a.is_finite(),
        b.is_finite(),
        near(a.value() - b.value(), 0 as real, bound),
        bound < reach(),
    ensures
        a.minus(b).is_finite(),
        near(a.minus(b).value(), a.value() - b.value(), bound * fineness() + trace()),
{
    lemma_minus(a, b);
}

/// A product of at most a given size.
pub proof fn lemma_times_bounded(a: Real32, b: Real32, bound: real)
    requires
        a.is_finite(),
        b.is_finite(),
        near(a.value() * b.value(), 0 as real, bound),
        bound < reach(),
    ensures
        a.times(b).is_finite(),
        near(a.times(b).value(), a.value() * b.value(), bound * fineness() + trace()),
{
    lemma_times(a, b);
}

/// The integer zero is zero.
pub proof fn lemma_from_zero()
    ensures
        Real32::from_i32(0).is_finite(),
        Real32::from_i32(0).value() == 0 as real,
{
    reveal(Real32::spec_from_i32);
    reveal(Real32::spec_is_finite);
    lemma2_to64();
    lemma_pow2_pos(149);
    assert(0 * pow2(149) == 0) by (nonlinear_arith);
    assert(magnitude(0, 0) == 0) by (nonlinear_arith);
    lemma_rounded_keeps_order(false, 0, 1, binary32(), 0, 0);
    lemma_rounded_bounds(false, 0, 1, binary32());
    let number = crate::float::ordering::whole_number(false, 0, binary32());
    lemma_single_bits_of_number(number);
    reveal(value_of);
    let u = pow2(149) as real;
    assert(0 as real / u == 0 as real) by (nonlinear_arith)
        requires
            u > 0 as real,
    ;
}

/// Zero divided by a number is zero.
pub proof fn lemma_zero_over(a: Real32, b: Real32)
    requires
        a.is_finite(),
        b.is_finite(),
        a.value() == 0 as real,
        b.value() != 0 as real,
    ensures
        a.over(b).is_finite(),
        a.over(b).value() == 0 as real,
{
    reveal(Real32::spec_over);
    reveal(Real32::spec_is_finite);
    lemma2_to64();
    lemma_pow2_pos(149);
    lemma_zero();
    let zero = Real32 { bits: 0 };
    lemma_order_is_real(a.number(), zero.number(), binary32());
    lemma_order_is_real(zero.number(), a.number(), binary32());
    lemma_order_is_real(b.number(), zero.number(), binary32());
    lemma_order_is_real(zero.number(), b.number(), binary32());
    assert(magnitude(0, 0) == 0) by (nonlinear_arith);
    let m = magnitude(a.number()->mantissa as nat, a.number()->exponent as nat);
    let n = magnitude(b.number()->mantissa as nat, b.number()->exponent as nat);
    assert(m == 0);
    assert(n > 0);
    if b.number()->mantissa == 0 {
        assert(0 * pow2(b.number()->exponent as nat) == 0) by (nonlinear_arith);
    }
    let s = a.number()->Finite_negative != b.number()->Finite_negative;
    assert(0 * pow2(149) == 0) by (nonlinear_arith);
    lemma_rounded_keeps_order(s, 0, n, binary32(), 0, 0);
    lemma_rounded_bounds(s, 0, n, binary32());
    let number = crate::float::arithmetic::quotient_of(a.number(), b.number(), binary32());
    lemma_single_bits_of_number(number);
    reveal(value_of);
    let u = pow2(149) as real;
    assert(0 as real / u == 0 as real) by (nonlinear_arith)
        requires
            u > 0 as real,
    ;
}

} // verus!
