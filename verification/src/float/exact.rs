//! Floating-point numbers as real numbers: what each operation gives, up to its rounding.

use crate::float::arithmetic::product_of;
use crate::float::arithmetic::quotient_of;
use crate::float::arithmetic::sum_of;
use crate::float::bounds::lemma_rounded_bounds;
use crate::float::ordering::converted;
use crate::float::ordering::position;
use crate::float::ordering::whole;
use crate::float::ordering::whole_number;
use crate::float::rounding::magnitude;
use crate::float::rounding::rounded;
use crate::float::rounding::Format;
use crate::float::rounding::Number;
use vstd::arithmetic::div_mod::lemma_fundamental_div_mod;
use vstd::arithmetic::div_mod::lemma_fundamental_div_mod_converse;
use vstd::arithmetic::div_mod::lemma_mod_bound;
use vstd::arithmetic::power2::lemma_pow2_adds;
use vstd::arithmetic::power2::lemma_pow2_pos;
use vstd::arithmetic::power2::pow2;
use vstd::prelude::*;

verus! {

/// How far a number is from zero.
pub open spec fn size(x: real) -> real {
    if x < 0 as real {
        0 as real - x
    } else {
        x
    }
}

/// Whether two numbers are no further from each other than a given distance.
pub open spec fn near(a: real, b: real, distance: real) -> bool {
    a - b <= distance && b - a <= distance
}

/// The larger of two numbers.
pub open spec fn most(a: real, b: real) -> real {
    if a < b {
        b
    } else {
        a
    }
}

/// The smaller of two numbers.
pub open spec fn least(a: real, b: real) -> real {
    if b < a {
        b
    } else {
        a
    }
}

/// A distance that is less than any that matters, `2^-128`.
#[verifier::inline]
pub open spec fn trace() -> real {
    1 as real / 340282366920938463463374607431768211456int as real
}

/// A distance that is more than any that matters, `2^100`.
#[verifier::inline]
pub open spec fn reach() -> real {
    1267650600228229401496703205376int as real
}

/// The real number that a finite number of a format is.
#[verifier::opaque]
pub open spec fn value_of(a: Number, format: Format) -> real {
    position(a, format) as real / pow2(format.bias as nat) as real
}

/// How large a part of a number its rounding can be.
#[verifier::opaque]
pub open spec fn grain(format: Format) -> real {
    1 as real / pow2(format.precision as nat) as real
}

/// The least number of a format.
#[verifier::opaque]
pub open spec fn speck(format: Format) -> real {
    1 as real / pow2(format.bias as nat) as real
}

/// Numbers from here on may be rounded to infinity.
#[verifier::opaque]
pub open spec fn ceiling(format: Format) -> real {
    pow2((format.precision + format.top - 1) as nat) as real / pow2(format.bias as nat) as real
}

/// Whether a number is a real number rounded.
pub open spec fn is_rounding(a: Number, exact: real, format: Format) -> bool {
    &&& a is Finite
    &&& near(value_of(a, format), exact, size(exact) * grain(format) + speck(format))
}

/// A quotient of two real numbers times its divisor.
proof fn lemma_ratio(a: real, b: real)
    requires
        b > 0 as real,
    ensures
        (a / b) * b == a,
{
    assert((a / b) * b == a) by (nonlinear_arith)
        requires
            b > 0 as real,
    ;
}

/// Numbers that are near each other are so after both are multiplied.
pub proof fn lemma_near_scaled(a: real, b: real, distance: real, w: real)
    requires
        near(a, b, distance),
        w >= 0 as real,
    ensures
        near(a * w, b * w, distance * w),
{
    assert((a - b) * w <= distance * w) by (nonlinear_arith)
        requires
            a - b <= distance,
            w >= 0 as real,
    ;
    assert((b - a) * w <= distance * w) by (nonlinear_arith)
        requires
            b - a <= distance,
            w >= 0 as real,
    ;
    assert((a - b) * w == a * w - b * w) by (nonlinear_arith);
    assert((b - a) * w == b * w - a * w) by (nonlinear_arith);
}

/// The size of a product with a number that is not negative.
pub proof fn lemma_size_scaled(a: real, w: real)
    requires
        w >= 0 as real,
    ensures
        size(a * w) == size(a) * w,
{
    if a < 0 as real {
        assert(a * w <= 0 as real) by (nonlinear_arith)
            requires
                a < 0 as real,
                w >= 0 as real,
        ;
        assert((0 as real - a) * w == 0 as real - a * w) by (nonlinear_arith);
    } else {
        assert(a * w >= 0 as real) by (nonlinear_arith)
            requires
                a >= 0 as real,
                w >= 0 as real,
        ;
    }
}

/// A quotient by a side times the side, and its size where the side is at least a given part.
pub proof fn lemma_quotient(a: real, w: real, part: real)
    requires
        w > 0 as real,
        w * part >= 1 as real,
        part > 0 as real,
    ensures
        (a / w) * w == a,
        size(a / w) * w == size(a),
        size(a / w) <= size(a) * part,
{
    let q = a / w;
    assert(q * w == a) by (nonlinear_arith)
        requires
            q == a / w,
            w > 0 as real,
    ;
    lemma_size_scaled(q, w);
    let n = size(q);
    assert(n <= n * (w * part)) by (nonlinear_arith)
        requires
            n >= 0 as real,
            w * part >= 1 as real,
    ;
    assert(n * (w * part) == (n * w) * part) by (nonlinear_arith);
}

/// A product of integers as a real number.
pub proof fn lemma_product_is_real(a: int, b: int)
    ensures
        (a * b) as real == a as real * b as real,
{
    assert((a * b) as real == a as real * b as real) by (nonlinear_arith);
}

/// A fraction of units that is not too large is rounded to a number near it.
proof fn lemma_rounded_is_near(
    negative: bool,
    num: nat,
    den: nat,
    format: Format,
    exact: real,
)
    requires
        den > 0,
        format.wf(),
        exact >= 0 as real,
        exact * (den as real * pow2(format.bias as nat) as real) == num as real,
        exact < ceiling(format),
    ensures
        is_rounding(
            rounded(negative, num, den, format),
            if negative {
                0 as real - exact
            } else {
                exact
            },
            format,
        ),
{
    lemma_rounded_bounds(negative, num, den, format);
    reveal(value_of);
    reveal(grain);
    reveal(speck);
    reveal(ceiling);
    let number = rounded(negative, num, den, format);
    let k = pow2(format.precision as nat);
    let u = pow2(format.bias as nat);
    let top = pow2((format.precision + format.top - 1) as nat);
    lemma_pow2_pos(format.precision as nat);
    lemma_pow2_pos(format.bias as nat);
    let dr = den as real;
    let kr = k as real;
    let ur = u as real;
    let nr = num as real;
    let tr = top as real;
    if number is Infinity {
        assert(nr >= dr * tr) by {
            assert(num >= den * top);
            lemma_product_is_real(den as int, top as int);
        }
        lemma_ratio(tr, ur);
        assert(false) by (nonlinear_arith)
            requires
                nr >= dr * tr,
                exact * (dr * ur) == nr,
                exact < tr / ur,
                (tr / ur) * ur == tr,
                dr > 0 as real,
                ur > 0 as real,
        ;
    }
    let v = magnitude(number->mantissa as nat, number->exponent as nat);
    let vr = v as real;
    assert(vr * dr * kr <= nr * (kr + 1 as real) + dr * kr && nr * kr <= vr * dr * kr + nr + dr
        * kr) by {
        lemma_product_is_real(v as int, den as int);
        lemma_product_is_real((v * den) as int, k as int);
        lemma_product_is_real(num as int, (k + 1) as int);
        lemma_product_is_real(den as int, k as int);
        lemma_product_is_real(num as int, k as int);
    }
    let x = vr / ur;
    let g = 1 as real / kr;
    let t = 1 as real / ur;
    lemma_ratio(vr, ur);
    lemma_ratio(1 as real, kr);
    lemma_ratio(1 as real, ur);
    assert(vr <= exact * ur * (1 as real + g) + 1 as real && exact * ur <= vr + exact * ur * g
        + 1 as real) by (nonlinear_arith)
        requires
            vr * dr * kr <= nr * (kr + 1 as real) + dr * kr,
            nr * kr <= vr * dr * kr + nr + dr * kr,
            exact * (dr * ur) == nr,
            g * kr == 1 as real,
            dr > 0 as real,
            kr > 0 as real,
            ur > 0 as real,
    ;
    assert(x - exact <= exact * g + t && exact - x <= exact * g + t) by (nonlinear_arith)
        requires
            vr <= exact * ur * (1 as real + g) + 1 as real,
            exact * ur <= vr + exact * ur * g + 1 as real,
            x * ur == vr,
            t * ur == 1 as real,
            ur > 0 as real,
    ;
    if negative {
        assert(position(number, format) == -(v as int));
        assert((-(v as int)) as real / ur == 0 as real - x) by (nonlinear_arith)
            requires
                (-(v as int)) as real == 0 as real - vr,
                x == vr / ur,
                ur > 0 as real,
        ;
    } else {
        assert(position(number, format) == v as int);
    }
}

/// The distance of a finite number from zero as a real number.
proof fn lemma_value_of_finite(a: Number, format: Format)
    requires
        a is Finite,
    ensures
        ({
            let m = magnitude(a->mantissa as nat, a->exponent as nat) as real;
            let u = pow2(format.bias as nat) as real;
            &&& u > 0 as real
            &&& value_of(a, format) * u == (if a->Finite_negative {
                0 as real - m
            } else {
                m
            })
            &&& size(value_of(a, format)) * u == m
        }),
{
    reveal(value_of);
    lemma_pow2_pos(format.bias as nat);
    let p = position(a, format) as real;
    let u = pow2(format.bias as nat) as real;
    lemma_ratio(p, u);
    let v = value_of(a, format);
    assert(v >= 0 as real <==> p >= 0 as real) by (nonlinear_arith)
        requires
            v * u == p,
            u > 0 as real,
    ;
    assert((0 as real - v) * u == 0 as real - p) by (nonlinear_arith)
        requires
            v * u == p,
    ;
}

/// The order of finite numbers is that of the real numbers.
pub proof fn lemma_order_is_real(a: Number, b: Number, format: Format)
    requires
        a is Finite,
        b is Finite,
    ensures
        (position(a, format) <= position(b, format)) == (value_of(a, format) <= value_of(b, format)),
        (position(a, format) < position(b, format)) == (value_of(a, format) < value_of(b, format)),
{
    reveal(value_of);
    lemma_pow2_pos(format.bias as nat);
    let p = position(a, format) as real;
    let q = position(b, format) as real;
    let u = pow2(format.bias as nat) as real;
    lemma_ratio(p, u);
    lemma_ratio(q, u);
    let x = p / u;
    let y = q / u;
    assert((p <= q) == (x <= y) && (p < q) == (x < y)) by (nonlinear_arith)
        requires
            x * u == p,
            y * u == q,
            u > 0 as real,
    ;
}

/// A sum is the sum of the real numbers, rounded.
pub proof fn lemma_sum_is_near(a: Number, b: Number, format: Format)
    requires
        format.wf(),
        a is Finite,
        b is Finite,
        size(value_of(a, format) + value_of(b, format)) < ceiling(format),
    ensures
        is_rounding(
            sum_of(a, b, format),
            value_of(a, format) + value_of(b, format),
            format,
        ),
        sum_of(a, b, format).fits(format),
{
    let exact = position(a, format) + position(b, format);
    let u = pow2(format.bias as nat) as real;
    let sum = value_of(a, format) + value_of(b, format);
    lemma_value_of_finite(a, format);
    lemma_value_of_finite(b, format);
    assert(sum * u == exact as real) by (nonlinear_arith)
        requires
            sum == value_of(a, format) + value_of(b, format),
            value_of(a, format) * u + value_of(b, format) * u == exact as real,
    ;
    assert((sum < 0 as real) == (exact < 0) && (sum == 0 as real) == (exact == 0))
        by (nonlinear_arith)
        requires
            sum * u == exact as real,
            u > 0 as real,
    ;
    let one = 1nat as real;
    if exact == 0 {
        let zero = sum_of(a, b, format);
        lemma_value_of_finite(zero, format);
        assert(magnitude(0, 0) == 0) by (nonlinear_arith);
        assert(value_of(zero, format) == 0 as real) by (nonlinear_arith)
            requires
                size(value_of(zero, format)) * u == 0 as real,
                u > 0 as real,
        ;
        reveal(speck);
        lemma_ratio(1 as real, u);
        assert(speck(format) >= 0 as real) by (nonlinear_arith)
            requires
                speck(format) * u == 1 as real,
                u > 0 as real,
        ;
        assert(size(sum) * grain(format) == 0 as real) by (nonlinear_arith)
            requires
                size(sum) == 0 as real,
        ;
        lemma_pow2_pos(format.precision as nat);
    } else if exact < 0 {
        let d = 0 as real - sum;
        assert(d * (one * u) == (-exact) as nat as real) by (nonlinear_arith)
            requires
                sum * u == exact as real,
                d == 0 as real - sum,
                (-exact) as nat as real == 0 as real - exact as real,
                one == 1 as real,
        ;
        lemma_rounded_bounds(true, (-exact) as nat, 1, format);
        lemma_rounded_is_near(true, (-exact) as nat, 1, format, d);
    } else {
        assert(sum * (one * u) == exact as nat as real) by (nonlinear_arith)
            requires
                sum * u == exact as real,
                exact as nat as real == exact as real,
                one == 1 as real,
        ;
        lemma_rounded_bounds(false, exact as nat, 1, format);
        lemma_rounded_is_near(false, exact as nat, 1, format, sum);
    }
}

/// A product is the product of the real numbers, rounded.
pub proof fn lemma_product_is_near(a: Number, b: Number, format: Format)
    requires
        format.wf(),
        a is Finite,
        b is Finite,
        size(value_of(a, format) * value_of(b, format)) < ceiling(format),
    ensures
        is_rounding(
            product_of(a, b, format),
            value_of(a, format) * value_of(b, format),
            format,
        ),
        product_of(a, b, format).fits(format),
{
    let m = magnitude(a->mantissa as nat, a->exponent as nat);
    let n = magnitude(b->mantissa as nat, b->exponent as nat);
    let u = pow2(format.bias as nat);
    lemma_value_of_finite(a, format);
    lemma_value_of_finite(b, format);
    let v = value_of(a, format);
    let w = value_of(b, format);
    let ur = u as real;
    let negative = a->Finite_negative != b->Finite_negative;
    let d = size(v) * size(w);
    assert(d == size(v * w) && (v * w == d || v * w == 0 as real - d) && d >= 0 as real)
        by (nonlinear_arith)
        requires
            d == size(v) * size(w),
            size(v) == (if v < 0 as real {
                0 as real - v
            } else {
                v
            }),
            size(w) == (if w < 0 as real {
                0 as real - w
            } else {
                w
            }),
            size(v * w) == (if v * w < 0 as real {
                0 as real - v * w
            } else {
                v * w
            }),
    ;
    lemma_product_is_real(m as int, n as int);
    assert(d * (ur * ur) == (m * n) as real) by (nonlinear_arith)
        requires
            d == size(v) * size(w),
            size(v) * ur == m as real,
            size(w) * ur == n as real,
            (m * n) as real == m as real * n as real,
    ;
    assert(v * w == (if negative {
        0 as real - d
    } else {
        d
    })) by (nonlinear_arith)
        requires
            ur > 0 as real,
            v * ur == (if a->Finite_negative {
                0 as real - m as real
            } else {
                m as real
            }),
            w * ur == (if b->Finite_negative {
                0 as real - n as real
            } else {
                n as real
            }),
            d * (ur * ur) == m as real * n as real,
            negative == (a->Finite_negative != b->Finite_negative),
    ;
    lemma_rounded_bounds(negative, m * n, u, format);
    lemma_rounded_is_near(negative, m * n, u, format, d);
}

/// A quotient is the quotient of the real numbers, rounded.
pub proof fn lemma_quotient_is_near(a: Number, b: Number, format: Format)
    requires
        format.wf(),
        a is Finite,
        b is Finite,
        value_of(b, format) != 0 as real,
        size(value_of(a, format) / value_of(b, format)) < ceiling(format),
    ensures
        is_rounding(
            quotient_of(a, b, format),
            value_of(a, format) / value_of(b, format),
            format,
        ),
        quotient_of(a, b, format).fits(format),
{
    let m = magnitude(a->mantissa as nat, a->exponent as nat);
    let n = magnitude(b->mantissa as nat, b->exponent as nat);
    let u = pow2(format.bias as nat);
    lemma_value_of_finite(a, format);
    lemma_value_of_finite(b, format);
    lemma_pow2_pos(format.bias as nat);
    let v = value_of(a, format);
    let w = value_of(b, format);
    let ur = u as real;
    let negative = a->Finite_negative != b->Finite_negative;
    let q = v / w;
    assert(q * w == v) by (nonlinear_arith)
        requires
            q == v / w,
            w != 0 as real,
    ;
    assert(n > 0) by {
        if n == 0 {
            assert(false) by (nonlinear_arith)
                requires
                    size(w) * ur == 0 as real,
                    ur > 0 as real,
                    size(w) == (if w < 0 as real {
                        0 as real - w
                    } else {
                        w
                    }),
                    w != 0 as real,
            ;
        }
    }
    assert(b->mantissa != 0) by {
        if b->mantissa == 0 {
            assert(0 * pow2(b->exponent as nat) == 0) by (nonlinear_arith);
        }
    }
    let d = size(q);
    let mr = m as real;
    let nr = n as real;
    lemma_product_is_real(m as int, u as int);
    assert(d * (nr * ur) == mr * ur) by (nonlinear_arith)
        requires
            q * w == v,
            size(v) * ur == mr,
            size(w) * ur == nr,
            d == (if q < 0 as real {
                0 as real - q
            } else {
                q
            }),
            size(v) == (if v < 0 as real {
                0 as real - v
            } else {
                v
            }),
            size(w) == (if w < 0 as real {
                0 as real - w
            } else {
                w
            }),
            ur > 0 as real,
    ;
    assert(q == (if negative {
        0 as real - d
    } else {
        d
    })) by (nonlinear_arith)
        requires
            q * w == v,
            ur > 0 as real,
            nr > 0 as real,
            mr >= 0 as real,
            v * ur == (if a->Finite_negative {
                0 as real - mr
            } else {
                mr
            }),
            w * ur == (if b->Finite_negative {
                0 as real - nr
            } else {
                nr
            }),
            d == (if q < 0 as real {
                0 as real - q
            } else {
                q
            }),
            negative == (a->Finite_negative != b->Finite_negative),
    ;
    lemma_rounded_bounds(negative, m * u, n, format);
    lemma_rounded_is_near(negative, m * u, n, format, d);
}

/// A number in another format is the same real number, rounded.
pub proof fn lemma_converted_is_near(a: Number, from: Format, to: Format)
    requires
        from.wf(),
        to.wf(),
        a is Finite,
        size(value_of(a, from)) < ceiling(to),
    ensures
        is_rounding(converted(a, from, to), value_of(a, from), to),
        converted(a, from, to).fits(to),
{
    let m = magnitude(a->mantissa as nat, a->exponent as nat);
    let u = pow2(from.bias as nat);
    let w = pow2(to.bias as nat);
    lemma_value_of_finite(a, from);
    lemma_pow2_pos(from.bias as nat);
    let d = size(value_of(a, from));
    let ur = u as real;
    let wr = w as real;
    lemma_product_is_real(m as int, w as int);
    assert(d * (ur * wr) == m as real * wr) by (nonlinear_arith)
        requires
            d * ur == m as real,
    ;
    let v = value_of(a, from);
    assert(v == (if a->Finite_negative {
        0 as real - d
    } else {
        d
    })) by (nonlinear_arith)
        requires
            v * ur == (if a->Finite_negative {
                0 as real - m as real
            } else {
                m as real
            }),
            d * ur == m as real,
            ur > 0 as real,
    ;
    lemma_rounded_bounds(a->Finite_negative, m * w, u, to);
    lemma_rounded_is_near(a->Finite_negative, m * w, u, to, d);
}

/// A whole number in a format is that number, rounded.
pub proof fn lemma_whole_number_is_near(negative: bool, value: nat, format: Format)
    requires
        format.wf(),
        (value as real) < ceiling(format),
    ensures
        is_rounding(
            whole_number(negative, value, format),
            if negative {
                0 as real - value as real
            } else {
                value as real
            },
            format,
        ),
        whole_number(negative, value, format).fits(format),
{
    let u = pow2(format.bias as nat);
    let ur = u as real;
    lemma_product_is_real(value as int, u as int);
    let d = value as real;
    let one = 1nat as real;
    assert(d * (one * ur) == (value * u) as real) by (nonlinear_arith)
        requires
            d * ur == (value * u) as real,
            one == 1 as real,
    ;
    lemma_rounded_bounds(negative, value * u, 1, format);
    lemma_rounded_is_near(negative, value * u, 1, format, d);
}

/// The nearest whole number is at most a half away.
pub proof fn lemma_whole_is_near(a: Number, format: Format)
    requires
        a is Finite,
    ensures
        near(
            2 as real * whole(a->mantissa as nat, a->exponent as nat, format) as real,
            2 as real * size(value_of(a, format)),
            1 as real,
        ),
{
    let m = magnitude(a->mantissa as nat, a->exponent as nat);
    let u = pow2(format.bias as nat);
    lemma_pow2_pos(format.bias as nat);
    lemma_value_of_finite(a, format);
    let n = whole(a->mantissa as nat, a->exponent as nat, format);
    let rest = (2 * m + u) % (2 * u);
    lemma_fundamental_div_mod((2 * m + u) as int, (2 * u) as int);
    lemma_mod_bound((2 * m + u) as int, (2 * u) as int);
    assert(2 * m + u == (2 * u) * n + rest);
    lemma_product_is_real((2 * u) as int, n as int);
    let d = size(value_of(a, format));
    let ur = u as real;
    let nr = n as real;
    let mr = m as real;
    let rr = rest as real;
    assert(2 as real * mr + ur == (2 as real * ur) * nr + rr);
    assert(2 as real * nr - 2 as real * d <= 1 as real && 2 as real * d - 2 as real * nr
        <= 1 as real) by (nonlinear_arith)
        requires
            2 as real * mr + ur == (2 as real * ur) * nr + rr,
            0 as real <= rr < 2 as real * ur,
            d * ur == mr,
            ur > 0 as real,
    ;
}

/// A number has the sign that it is written with.
pub proof fn lemma_sign_of_value(a: Number, format: Format)
    requires
        a is Finite,
    ensures
        value_of(a, format) == (if a->Finite_negative {
            0 as real - size(value_of(a, format))
        } else {
            size(value_of(a, format))
        }),
{
    lemma_value_of_finite(a, format);
    let v = value_of(a, format);
    let u = pow2(format.bias as nat) as real;
    let m = magnitude(a->mantissa as nat, a->exponent as nat) as real;
    if a->Finite_negative {
        assert(v <= 0 as real) by (nonlinear_arith)
            requires
                v * u == 0 as real - m,
                m >= 0 as real,
                u > 0 as real,
        ;
    } else {
        assert(v >= 0 as real) by (nonlinear_arith)
            requires
                v * u == m,
                m >= 0 as real,
                u > 0 as real,
        ;
    }
}

/// A number without binary places is whole already.
pub proof fn lemma_whole_is_exact(a: Number, format: Format)
    requires
        a is Finite,
        a->exponent >= format.bias,
    ensures
        whole(a->mantissa as nat, a->exponent as nat, format) as real == size(value_of(a, format)),
{
    let u = pow2(format.bias as nat) as int;
    let above = (a->exponent - format.bias) as nat;
    let q = a->mantissa as int * pow2(above) as int;
    let m = magnitude(a->mantissa as nat, a->exponent as nat) as int;
    lemma_pow2_pos(format.bias as nat);
    lemma_pow2_adds(format.bias as nat, above);
    assert(m == u * q) by (nonlinear_arith)
        requires
            m == a->mantissa as int * (u * pow2(above) as int),
            q == a->mantissa as int * pow2(above) as int,
    ;
    assert(2 * m + u == q * (2 * u) + u) by (nonlinear_arith)
        requires
            m == u * q,
    ;
    lemma_fundamental_div_mod_converse(2 * m + u, 2 * u, q, u);
    lemma_value_of_finite(a, format);
    lemma_product_is_real(u, q);
    let d = size(value_of(a, format));
    let ur = u as real;
    let qr = q as real;
    assert(d == qr) by (nonlinear_arith)
        requires
            d * ur == ur * qr,
            ur > 0 as real,
    ;
}

/// A number with a given number of binary places.
pub proof fn lemma_constant_value(a: Number, format: Format, places: nat)
    requires
        a is Finite,
        !a->Finite_negative,
        a->exponent + places == format.bias,
    ensures
        value_of(a, format) * pow2(places) as real == a->mantissa as real,
{
    lemma_value_of_finite(a, format);
    let e = a->exponent as nat;
    lemma_pow2_adds(e, places);
    lemma_pow2_pos(e);
    lemma_pow2_pos(places);
    lemma_product_is_real(pow2(e) as int, pow2(places) as int);
    lemma_product_is_real(a->mantissa as int, pow2(e) as int);
    let v = value_of(a, format);
    let p = pow2(places) as real;
    let q = pow2(e) as real;
    let m = a->mantissa as real;
    assert(v * p == m) by (nonlinear_arith)
        requires
            v * (q * p) == m * q,
            q > 0 as real,
    ;
}

} // verus!
