//! Numbers of the 64-bit format as real numbers.

use crate::float::bounds::is_length;
use crate::float::bounds::lemma_root_bounds;
use crate::float::bounds::lemma_rounded_bounds;
use crate::float::bounds::units;
use crate::float::exact::ceiling;
use crate::float::exact::grain;
use crate::float::exact::least;
use crate::float::exact::lemma_constant_value;
use crate::float::exact::lemma_converted_is_near;
use crate::float::exact::lemma_order_is_real;
use crate::float::exact::lemma_product_is_near;
use crate::float::exact::lemma_product_is_real;
use crate::float::exact::lemma_quotient_is_near;
use crate::float::exact::lemma_sum_is_near;
use crate::float::exact::lemma_whole_is_near;
use crate::float::exact::lemma_whole_number_is_near;
use crate::float::exact::most;
use crate::float::exact::near;
use crate::float::exact::reach;
use crate::float::exact::size;
use crate::float::exact::speck;
use crate::float::exact::trace;
use crate::float::exact::value_of;
use crate::float::ordering::position;
use crate::float::ordering::whole;
use crate::float::real32::binary32;
use crate::float::real64::binary64;
use crate::float::real64::lemma_bits_of_number;
use crate::float::rounding::lemma_pow2_monotonic;
use crate::float::rounding::magnitude;
use crate::float::rounding::Number;
use crate::float::Real32;
use crate::float::Real64;
use vstd::arithmetic::power2::lemma2_to64;
use vstd::arithmetic::power2::lemma2_to64_rest;
use vstd::arithmetic::power2::lemma_pow2_adds;
use vstd::arithmetic::power2::lemma_pow2_pos;
use vstd::arithmetic::power2::pow2;
use vstd::prelude::*;

verus! {

/// How large a part of a number its rounding can be: one in `2^53`.
#[verifier::inline]
pub open spec fn fineness() -> real {
    1 as real / 0x20_0000_0000_0000 as real
}

impl Real64 {
    /// The real number that this is.
    pub open spec fn value(self) -> real {
        value_of(self.number(), binary64())
    }

    /// Whether this is a real number, and equals a given one up to the rounding of one operation.
    pub open spec fn is_rounded(self, exact: real) -> bool {
        &&& self.finite()
        &&& near(self.value(), exact, size(exact) * fineness() + trace())
    }

    /// Whether this is neither infinite nor not a number.
    pub open spec fn finite(self) -> bool {
        self.number() is Finite
    }
}

/// The grain, the least number and the largest numbers of the format.
proof fn lemma_scale()
    ensures
        grain(binary64()) == fineness(),
        speck(binary64()) <= trace(),
        reach() <= ceiling(binary64()),
{
    reveal(grain);
    reveal(speck);
    reveal(ceiling);
    lemma2_to64();
    lemma2_to64_rest();
    lemma_pow2_adds(64, 36);
    lemma_pow2_adds(64, 64);
    lemma_pow2_monotonic(128, 1074);
    lemma_pow2_pos(1074);
    let unit = pow2(1074) as real;
    let k = 340282366920938463463374607431768211456int as real;
    assert(pow2(128) == 340282366920938463463374607431768211456int);
    assert(1 as real / unit <= 1 as real / k) by (nonlinear_arith)
        requires
            unit >= k,
            k > 0 as real,
    ;
    lemma_pow2_adds(1074, 1023);
    lemma_pow2_monotonic(100, 1023);
    lemma_pow2_pos(1023);
    assert(pow2(100) == 1267650600228229401496703205376int);
    let a = pow2(2097) as real;
    let b = pow2(1023) as real;
    assert(a == unit * b) by {
        crate::float::exact::lemma_product_is_real(pow2(1074) as int, pow2(1023) as int);
    }
    assert(a / unit == b) by (nonlinear_arith)
        requires
            a == unit * b,
            unit > 0 as real,
    ;
}

/// Zero, or any number that is given by its mantissa and its binary places.
pub proof fn lemma_constant(a: Real64, mantissa: u64, exponent: u32, places: nat, parts: int)
    requires
        a.number() == (Number::Finite { negative: false, mantissa, exponent }),
        exponent + places == 1074,
        parts == pow2(places),
    ensures
        a.finite(),
        a.value() == mantissa as real / parts as real,
{
    lemma_constant_value(a.number(), binary64(), places);
    lemma_pow2_pos(places);
    let v = a.value();
    let m = mantissa as real;
    let k = parts as real;
    assert(v == m / k) by (nonlinear_arith)
        requires
            v * k == m,
            k > 0 as real,
    ;
}

/// Zero is zero.
pub proof fn lemma_zero()
    ensures
        (Real64 { bits: 0 }).value() == 0 as real,
        (Real64 { bits: 0 }).finite(),
{
    let zero = Real64 { bits: 0 };
    lemma_constant(zero, 0, 0, 1074, pow2(1074) as int);
    lemma_pow2_pos(1074);
    let p = pow2(1074) as real;
    assert(zero.value() == 0 as real) by (nonlinear_arith)
        requires
            zero.value() == 0 as real / p,
            p > 0 as real,
    ;
}

/// Finite numbers are ordered as real numbers.
pub proof fn lemma_order(a: Real64, b: Real64)
    requires
        a.finite(),
        b.finite(),
    ensures
        a.up_to(b) == (a.value() <= b.value()),
        a.less(b) == (a.value() < b.value()),
{
    reveal(Real64::spec_up_to);
    reveal(Real64::spec_less);
    lemma_order_is_real(a.number(), b.number(), binary64());
}

/// What is at most a finite number and at least one is a finite number.
pub proof fn lemma_between(low: Real64, a: Real64, high: Real64)
    requires
        low.up_to(a),
        a.up_to(high),
        low.finite(),
        high.finite(),
    ensures
        a.finite(),
        low.value() <= a.value() <= high.value(),
{
    reveal(Real64::spec_up_to);
    lemma_finite_is_small(low);
    lemma_finite_is_small(high);
    lemma_order(low, a);
    lemma_order(a, high);
}

/// A finite number stands nearer to zero than infinity.
proof fn lemma_finite_is_small(a: Real64)
    requires
        a.finite(),
    ensures
        -pow2(2098) < position(a.number(), binary64()) < pow2(2098),
{
    lemma2_to64();
    lemma2_to64_rest();
    let e = a.number()->exponent as nat;
    let m = a.number()->mantissa as nat;
    lemma_pow2_pos(e);
    lemma_pow2_adds(53, e);
    lemma_pow2_monotonic(53 + e, 2098);
    assert(m < pow2(53));
    assert(m * pow2(e) < pow2(53) * pow2(e)) by (nonlinear_arith)
        requires
            m < pow2(53),
            pow2(e) > 0,
    ;
}

/// The number with the other sign.
pub proof fn lemma_negated(a: Real64)
    requires
        a.finite(),
    ensures
        a.negated().finite(),
        a.negated().value() == 0 as real - a.value(),
{
    reveal(value_of);
    let p = position(a.number(), binary64());
    assert(position(a.negated().number(), binary64()) == -p);
    let u = pow2(1074) as real;
    lemma_pow2_pos(1074);
    assert((-p) as real / u == 0 as real - p as real / u) by (nonlinear_arith)
        requires
            (-p) as real == 0 as real - p as real,
            u > 0 as real,
    ;
}

/// A sum, up to its rounding.
pub proof fn lemma_plus(a: Real64, b: Real64)
    requires
        a.finite(),
        b.finite(),
        size(a.value() + b.value()) < reach(),
    ensures
        a.plus(b).is_rounded(a.value() + b.value()),
{
    reveal(Real64::spec_plus);
    lemma_scale();
    lemma_sum_is_near(a.number(), b.number(), binary64());
    lemma_bits_of_number(
        crate::float::arithmetic::sum_of(a.number(), b.number(), binary64()),
    );
}

/// A difference, up to its rounding.
pub proof fn lemma_minus(a: Real64, b: Real64)
    requires
        a.finite(),
        b.finite(),
        size(a.value() - b.value()) < reach(),
    ensures
        a.minus(b).is_rounded(a.value() - b.value()),
{
    lemma_negated(b);
    lemma_plus(a, b.negated());
}

/// A product, up to its rounding.
pub proof fn lemma_times(a: Real64, b: Real64)
    requires
        a.finite(),
        b.finite(),
        size(a.value() * b.value()) < reach(),
    ensures
        a.times(b).is_rounded(a.value() * b.value()),
{
    reveal(Real64::spec_times);
    lemma_scale();
    lemma_product_is_near(a.number(), b.number(), binary64());
    lemma_bits_of_number(
        crate::float::arithmetic::product_of(a.number(), b.number(), binary64()),
    );
}

/// A quotient, up to its rounding.
pub proof fn lemma_over(a: Real64, b: Real64)
    requires
        a.finite(),
        b.finite(),
        b.value() != 0 as real,
        size(a.value() / b.value()) < reach(),
    ensures
        a.over(b).is_rounded(a.value() / b.value()),
{
    reveal(Real64::spec_over);
    lemma_scale();
    lemma_quotient_is_near(a.number(), b.number(), binary64());
    lemma_bits_of_number(
        crate::float::arithmetic::quotient_of(a.number(), b.number(), binary64()),
    );
}

/// The larger and the smaller of two finite numbers.
pub proof fn lemma_larger_smaller(a: Real64, b: Real64)
    requires
        a.finite(),
        b.finite(),
    ensures
        a.larger(b).finite(),
        a.smaller(b).finite(),
        a.larger(b).value() == most(a.value(), b.value()),
        a.smaller(b).value() == least(a.value(), b.value()),
{
    lemma_order(a, b);
    lemma_order(b, a);
}

/// A finite number between two others.
pub proof fn lemma_clamped(a: Real64, low: Real64, high: Real64)
    requires
        a.finite(),
        low.finite(),
        high.finite(),
        low.value() <= high.value(),
    ensures
        a.within(low, high).finite(),
        a.within(low, high).value() == least(most(a.value(), low.value()), high.value()),
{
    lemma_order(a, low);
    lemma_order(high, a);
}

/// An integer, up to its rounding.
pub proof fn lemma_from_i32(value: i32)
    ensures
        Real64::from_i32(value).is_rounded(value as real),
{
    reveal(Real64::spec_from_i32);
    lemma_scale();
    let distance: nat = if value < 0 {
        (-(value as int)) as nat
    } else {
        value as nat
    };
    lemma_whole_number_is_near(value < 0, distance, binary64());
    lemma_bits_of_number(
        crate::float::ordering::whole_number(value < 0, distance, binary64()),
    );
}

/// The grain, the least number and the largest numbers of the format.
pub proof fn lemma_double_scale()
    ensures
        grain(binary64()) == fineness(),
        speck(binary64()) <= trace(),
        reach() <= ceiling(binary64()),
{
    lemma_scale();
}

/// The number in the 32-bit format, up to its rounding.
pub proof fn lemma_narrowed(a: Real64)
    requires
        a.finite(),
        size(a.value()) < reach(),
    ensures
        a.narrowed().is_rounded(a.value()),
{
    reveal(Real64::spec_narrowed);
    reveal(Real32::spec_is_finite);
    crate::float::single::lemma_single_scale();
    lemma_converted_is_near(a.number(), binary64(), binary32());
    crate::float::real32::lemma_single_bits_of_number(
        crate::float::ordering::converted(a.number(), binary64(), binary32()),
    );
}

/// The nearest integer is at most a half away, within the range of integers.
pub proof fn lemma_to_usize(a: Real64)
    requires
        a.finite(),
        0 as real <= a.value() < 0x4000_0000 as real,
    ensures
        near(2 as real * a.to_usize() as real, 2 as real * a.value(), 1 as real),
{
    reveal(Real64::spec_to_usize);
    lemma_whole_is_near(a.number(), binary64());
    lemma_zero();
    let zero = Real64 { bits: 0 };
    lemma_order(zero, a);
    reveal(Real64::spec_up_to);
    assert(position(zero.number(), binary64()) == 0) by {
        assert(magnitude(0, 0) == 0) by (nonlinear_arith);
    }
    lemma_order(a, zero);
    if a.number()->Finite_negative {
        assert(position(a.number(), binary64()) <= 0);
        assert(a.value() == 0 as real);
    } else {
        let n = whole(a.number()->mantissa as nat, a.number()->exponent as nat, binary64());
        assert(n as real <= 0x4000_0001 as real);
        assert(n <= 0x4000_0001);
        assert(a.to_usize() == n);
    }
}

/// A sum of at most a given size.
pub proof fn lemma_plus_bounded(a: Real64, b: Real64, bound: real)
    requires
        a.finite(),
        b.finite(),
        near(a.value() + b.value(), 0 as real, bound),
        bound < reach(),
    ensures
        a.plus(b).finite(),
        near(a.plus(b).value(), a.value() + b.value(), bound * fineness() + trace()),
{
    lemma_plus(a, b);
}

/// A difference of at most a given size.
pub proof fn lemma_minus_bounded(a: Real64, b: Real64, bound: real)
    requires
        a.finite(),
        b.finite(),
        near(a.value() - b.value(), 0 as real, bound),
        bound < reach(),
    ensures
        a.minus(b).finite(),
        near(a.minus(b).value(), a.value() - b.value(), bound * fineness() + trace()),
{
    lemma_minus(a, b);
}

/// A product of at most a given size.
pub proof fn lemma_times_bounded(a: Real64, b: Real64, bound: real)
    requires
        a.finite(),
        b.finite(),
        near(a.value() * b.value(), 0 as real, bound),
        bound < reach(),
    ensures
        a.times(b).finite(),
        near(a.times(b).value(), a.value() * b.value(), bound * fineness() + trace()),
{
    lemma_times(a, b);
}

/// A positive number in units.
proof fn lemma_value_in_units(a: Real64)
    requires
        a.finite(),
        a.value() > 0 as real,
    ensures
        is_length(a),
        units(a) > 0,
        units(a) as real == a.value() * pow2(1074) as real,
{
    lemma_zero();
    let zero = Real64 { bits: 0 };
    lemma_order_is_real(zero.number(), a.number(), binary64());
    assert(magnitude(0, 0) == 0) by (nonlinear_arith);
    assert(position(a.number(), binary64()) > 0);
    reveal(value_of);
    lemma_pow2_pos(1074);
    let p = position(a.number(), binary64()) as real;
    let u = pow2(1074) as real;
    assert((p / u) * u == p) by (nonlinear_arith)
        requires
            u > 0 as real,
    ;
}

/// The square of a root, up to rounding.
pub proof fn lemma_square_root(a: Real64)
    requires
        a.finite(),
        a.value() > 0 as real,
    ensures
        a.square_root().finite(),
        a.square_root().value() > 0 as real,
        near(
            a.square_root().value() * a.square_root().value(),
            a.value(),
            a.value() * (1 as real / 1_000_000_000 as real),
        ),
{
    lemma_value_in_units(a);
    lemma_root_bounds(a);
    lemma2_to64_rest();
    lemma_pow2_pos(1074);
    let root = a.square_root();
    let n = units(a);
    let m = units(root);
    let u = pow2(1074);
    let k = 0x20_0000_0000_0000int;
    let h = 0x10_0000_0000_0000int;
    assert(m > 0) by {
        if m == 0 {
            assert(n * u * (h * h) > 0) by (nonlinear_arith)
                requires
                    n > 0,
                    u > 0,
                    h > 0,
            ;
            assert(m * m * ((h + 1) * (h + 1)) == 0) by (nonlinear_arith)
                requires
                    m == 0,
            ;
        }
    }
    lemma_length_is_positive(root);
    lemma_value_in_units(root);
    let x = a.value();
    let s = root.value();
    let ur = u as real;
    let nu = n * u;
    let mm = m * m;
    lemma_product_is_real(n as int, u as int);
    lemma_product_is_real(m as int, m as int);
    let uu = ur * ur;
    let ss = s * s;
    assert(uu > 0 as real) by (nonlinear_arith)
        requires
            uu == ur * ur,
            ur > 0 as real,
    ;
    assert(nu as real == x * uu) by (nonlinear_arith)
        requires
            nu as real == n as real * ur,
            n as real == x * ur,
            uu == ur * ur,
    ;
    assert(mm as real == ss * uu) by (nonlinear_arith)
        requires
            mm as real == m as real * m as real,
            m as real == s * ur,
            uu == ur * ur,
            ss == s * s,
    ;
    let k1 = (k - 1) * (k - 1);
    let k2 = k * k;
    let h1 = h * h;
    let h2 = (h + 1) * (h + 1);
    assert(mm * k1 <= nu * k2);
    assert(nu * h1 <= mm * h2);
    let xu = x * uu;
    let su = ss * uu;
    assert(su * (k1 as real) <= xu * (k2 as real)) by {
        lemma_product_is_real(mm as int, k1);
        lemma_product_is_real(nu as int, k2);
    }
    assert(xu * (h1 as real) <= su * (h2 as real)) by {
        lemma_product_is_real(nu as int, h1);
        lemma_product_is_real(mm as int, h2);
    }
    let bit = 1 as real / 1_000_000_000 as real;
    assert(k1 == 81129638414606663681390495662081int && k2 == 81129638414606681695789005144064int);
    assert(h1 == 20282409603651670423947251286016int && h2 == 20282409603651679431146506027009int);
    assert(xu >= 0 as real);
    assert(su * 81129638414606663681390495662081int as real <= xu
        * 81129638414606681695789005144064int as real);
    assert(xu * 20282409603651670423947251286016int as real <= su
        * 20282409603651679431146506027009int as real);
    assert(su - xu <= xu * (1 as real / 1_000_000_000 as real));
    assert(xu - su <= xu * (1 as real / 1_000_000_000 as real));
    assert(ss - x <= x * bit) by (nonlinear_arith)
        requires
            ss * uu - x * uu <= (x * uu) * bit,
            uu > 0 as real,
    ;
    assert(x - ss <= x * bit) by (nonlinear_arith)
        requires
            x * uu - ss * uu <= (x * uu) * bit,
            uu > 0 as real,
    ;
}

/// A length of some units is positive.
proof fn lemma_length_is_positive(a: Real64)
    requires
        is_length(a),
        units(a) > 0,
    ensures
        a.finite(),
        a.value() > 0 as real,
{
    lemma_zero();
    let zero = Real64 { bits: 0 };
    assert(magnitude(0, 0) == 0) by (nonlinear_arith);
    lemma_order_is_real(zero.number(), a.number(), binary64());
}

/// A product of positive numbers is not negative.
pub proof fn lemma_positive_product(a: Real64, b: Real64)
    requires
        a.finite(),
        b.finite(),
        a.value() > 0 as real,
        b.value() > 0 as real,
        size(a.value() * b.value()) < reach(),
    ensures
        a.times(b).finite(),
        a.times(b).value() >= 0 as real,
{
    lemma_times(a, b);
    lemma_value_in_units(a);
    lemma_value_in_units(b);
    reveal(Real64::spec_times);
    lemma_pow2_pos(1074);
    lemma_rounded_bounds(false, units(a) * units(b), pow2(1074), binary64());
    lemma_bits_of_number(
        crate::float::arithmetic::product_of(a.number(), b.number(), binary64()),
    );
    lemma_zero();
    let zero = Real64 { bits: 0 };
    assert(magnitude(0, 0) == 0) by (nonlinear_arith);
    lemma_order_is_real(zero.number(), a.times(b).number(), binary64());
}

} // verus!
