//! Sums, products and quotients of floating-point numbers, each the exact result rounded once.

use crate::float::rounding::bit_length;
use crate::float::rounding::dyadic_den;
use crate::float::rounding::dyadic_num;
use crate::float::rounding::least_exponent;
use crate::float::rounding::lemma_least_exponent;
use crate::float::rounding::lemma_least_exponent_bounds;
use crate::float::rounding::lemma_nearest_even_scaled;
use crate::float::rounding::lemma_pow2_bounds;
use crate::float::rounding::lemma_pow2_monotonic;
use crate::float::rounding::lemma_rounded_absorbs;
use crate::float::rounding::lemma_rounded_same_fraction;
use crate::float::rounding::magnitude;
use crate::float::rounding::nearest_even;
use crate::float::rounding::power_of_two;
use crate::float::rounding::round_dyadic;
use crate::float::rounding::rounded;
use crate::float::rounding::Format;
use crate::float::rounding::Number;
use vstd::arithmetic::div_mod::lemma_fundamental_div_mod;
use vstd::arithmetic::div_mod::lemma_fundamental_div_mod_converse;
use vstd::arithmetic::mul::lemma_mul_inequality;
use vstd::arithmetic::mul::lemma_mul_is_associative;
use vstd::arithmetic::mul::lemma_mul_is_commutative;
use vstd::arithmetic::mul::lemma_mul_strict_inequality;
use vstd::arithmetic::mul::lemma_mul_strictly_positive;
use vstd::arithmetic::power2::lemma_pow2_adds;
use vstd::arithmetic::power2::lemma_pow2_pos;
use vstd::arithmetic::power2::lemma_pow2_unfold;
use vstd::arithmetic::power2::pow2;
use vstd::prelude::*;

verus! {

/// `value` units away from zero on the side that the sign says.
pub open spec fn signed(negative: bool, value: nat) -> int {
    if negative {
        -(value as int)
    } else {
        value as int
    }
}

/// The sum: the exact sum rounded; a sum of exactly zero is negative only where both are.
pub open spec fn sum_of(a: Number, b: Number, format: Format) -> Number {
    match (a, b) {
        (Number::Nan, _) => Number::Nan,
        (_, Number::Nan) => Number::Nan,
        (Number::Infinity { negative: s }, Number::Infinity { negative: t }) => if s == t {
            a
        } else {
            Number::Nan
        },
        (Number::Infinity { .. }, _) => a,
        (_, Number::Infinity { .. }) => b,
        (
            Number::Finite { negative: s, mantissa: m, exponent: x },
            Number::Finite { negative: t, mantissa: n, exponent: y },
        ) => {
            let exact = signed(s, magnitude(m as nat, x as nat)) + signed(
                t,
                magnitude(n as nat, y as nat),
            );
            if exact == 0 {
                Number::Finite { negative: s && t, mantissa: 0, exponent: 0 }
            } else if exact < 0 {
                rounded(true, (-exact) as nat, 1, format)
            } else {
                rounded(false, exact as nat, 1, format)
            }
        },
    }
}

/// The product: the exact product rounded.
pub open spec fn product_of(a: Number, b: Number, format: Format) -> Number {
    match (a, b) {
        (Number::Nan, _) => Number::Nan,
        (_, Number::Nan) => Number::Nan,
        (Number::Infinity { negative: s }, Number::Infinity { negative: t }) => Number::Infinity {
            negative: s != t,
        },
        (
            Number::Infinity { negative: s },
            Number::Finite { negative: t, mantissa: n, exponent: _ },
        ) => if n == 0 {
            Number::Nan
        } else {
            Number::Infinity { negative: s != t }
        },
        (
            Number::Finite { negative: s, mantissa: m, exponent: _ },
            Number::Infinity { negative: t },
        ) => if m == 0 {
            Number::Nan
        } else {
            Number::Infinity { negative: s != t }
        },
        (
            Number::Finite { negative: s, mantissa: m, exponent: x },
            Number::Finite { negative: t, mantissa: n, exponent: y },
        ) => rounded(
            s != t,
            magnitude(m as nat, x as nat) * magnitude(n as nat, y as nat),
            pow2(format.bias as nat),
            format,
        ),
    }
}

/// The quotient: the exact quotient rounded.
pub open spec fn quotient_of(a: Number, b: Number, format: Format) -> Number {
    match (a, b) {
        (Number::Nan, _) => Number::Nan,
        (_, Number::Nan) => Number::Nan,
        (Number::Infinity { .. }, Number::Infinity { .. }) => Number::Nan,
        (
            Number::Infinity { negative: s },
            Number::Finite { negative: t, .. },
        ) => Number::Infinity { negative: s != t },
        (
            Number::Finite { negative: s, .. },
            Number::Infinity { negative: t },
        ) => Number::Finite { negative: s != t, mantissa: 0, exponent: 0 },
        (
            Number::Finite { negative: s, mantissa: m, exponent: x },
            Number::Finite { negative: t, mantissa: n, exponent: y },
        ) => if n == 0 {
            if m == 0 {
                Number::Nan
            } else {
                Number::Infinity { negative: s != t }
            }
        } else {
            rounded(
                s != t,
                magnitude(m as nat, x as nat) * pow2(format.bias as nat),
                magnitude(n as nat, y as nat),
                format,
            )
        },
    }
}

/// Adds two finite numbers of which the first has the larger exponent.
fn finite_sum(s: bool, m: u64, x: u32, t: bool, n: u64, y: u32, format: Format) -> (r: Number)
    requires
        format.wf(),
        x >= y,
        (Number::Finite { negative: s, mantissa: m, exponent: x }).fits(format),
        (Number::Finite { negative: t, mantissa: n, exponent: y }).fits(format),
    ensures
        r == sum_of(
            Number::Finite { negative: s, mantissa: m, exponent: x },
            Number::Finite { negative: t, mantissa: n, exponent: y },
            format,
        ),
        r.fits(format),
{
    let ghost p = format.precision as nat;
    let ghost left = magnitude(m as nat, x as nat);
    let ghost right = magnitude(n as nat, y as nat);
    proof {
        lemma_pow2_bounds();
        lemma_pow2_pos(x as nat);
        lemma_pow2_pos(y as nat);
        lemma_pow2_pos((p - 1) as nat);
        lemma_pow2_monotonic(p, 53);
    }
    let gap: u32 = x - y;
    if gap > 60 {
        proof {
            let delta = if s == t {
                right as int
            } else {
                -(right as int)
            };
            lemma_mul_strict_inequality(n as int, pow2(p) as int, pow2(y as nat) as int);
            lemma_pow2_adds(p, y as nat);
            lemma_pow2_unfold(x as nat);
            lemma_pow2_unfold((x - 1) as nat);
            lemma_pow2_monotonic(p + y as nat, (x - 2) as nat);
            assert(4 * right < pow2(x as nat));
            lemma_mul_inequality(1, m as int, pow2(x as nat) as int);
            lemma_rounded_absorbs(s, m as nat, x as nat, delta, format);
        }
        return Number::Finite { negative: s, mantissa: m, exponent: x };
    }
    let scale: u128 = power_of_two(gap);
    proof {
        lemma_pow2_pos(gap as nat);
        lemma_pow2_monotonic(gap as nat, 60);
        vstd::arithmetic::power2::lemma2_to64_rest();
        assert(m * scale < 0x20_0000_0000_0000 * 0x1000_0000_0000_0000) by (nonlinear_arith)
            requires
                m < 0x20_0000_0000_0000,
                scale <= 0x1000_0000_0000_0000,
                scale > 0,
        ;
        lemma_pow2_adds(gap as nat, y as nat);
        lemma_mul_is_associative(m as int, scale as int, pow2(y as nat) as int);
        assert(left == (m * scale) * pow2(y as nat));
    }
    let high: u128 = m as u128 * scale;
    let low: u128 = n as u128;
    let negative: bool;
    let w: u128;
    if s == t {
        negative = s;
        w = high + low;
        proof {
            assert(left + right == w * pow2(y as nat)) by (nonlinear_arith)
                requires
                    left == high * pow2(y as nat),
                    right == low * pow2(y as nat),
                    w == high + low,
            ;
        }
    } else if high >= low {
        negative = s;
        w = high - low;
        proof {
            assert(left - right == w * pow2(y as nat)) by (nonlinear_arith)
                requires
                    left == high * pow2(y as nat),
                    right == low * pow2(y as nat),
                    w == high - low,
            ;
        }
    } else {
        negative = t;
        w = low - high;
        proof {
            assert(right - left == w * pow2(y as nat)) by (nonlinear_arith)
                requires
                    left == high * pow2(y as nat),
                    right == low * pow2(y as nat),
                    w == low - high,
            ;
        }
    }
    proof {
        assert((w * pow2(y as nat) == 0) == (w == 0)) by (nonlinear_arith)
            requires
                pow2(y as nat) > 0,
                w >= 0,
        ;
        assert(w * pow2(y as nat) >= 0) by (nonlinear_arith)
            requires
                pow2(y as nat) > 0,
                w >= 0,
        ;
    }
    if w == 0 {
        return Number::Finite { negative: s && t, mantissa: 0, exponent: 0 };
    }
    round_dyadic(negative, w, y as i32, format)
}

/// `a + b`.
pub fn sum(a: Number, b: Number, format: Format) -> (r: Number)
    requires
        format.wf(),
        a.fits(format),
        b.fits(format),
    ensures
        r == sum_of(a, b, format),
        r.fits(format),
{
    match (a, b) {
        (Number::Nan, _) => Number::Nan,
        (_, Number::Nan) => Number::Nan,
        (Number::Infinity { negative: s }, Number::Infinity { negative: t }) => if s == t {
            a
        } else {
            Number::Nan
        },
        (Number::Infinity { .. }, _) => a,
        (_, Number::Infinity { .. }) => b,
        (
            Number::Finite { negative: s, mantissa: m, exponent: x },
            Number::Finite { negative: t, mantissa: n, exponent: y },
        ) => if x >= y {
            finite_sum(s, m, x, t, n, y, format)
        } else {
            finite_sum(t, n, y, s, m, x, format)
        },
    }
}

/// The fraction that `w * 2^k` is, brought to a denominator `2^bias`.
proof fn lemma_product_fraction(m: nat, x: nat, n: nat, y: nat, bias: nat)
    ensures
        magnitude(m, x) * magnitude(n, y) * dyadic_den(x + y - bias) == dyadic_num(
            m * n,
            x + y - bias,
        ) * pow2(bias),
        dyadic_den(x + y - bias) > 0,
        pow2(bias) > 0,
{
    let k = x + y - bias;
    lemma_pow2_pos(bias);
    lemma_pow2_adds(x, y);
    assert(magnitude(m, x) * magnitude(n, y) == (m * n) * pow2(x + y)) by (nonlinear_arith)
        requires
            magnitude(m, x) == m * pow2(x),
            magnitude(n, y) == n * pow2(y),
            pow2(x + y) == pow2(x) * pow2(y),
    ;
    if k >= 0 {
        lemma_pow2_adds(k as nat, bias);
        assert(k as nat + bias == x + y);
        lemma_mul_is_associative((m * n) as int, pow2(k as nat) as int, pow2(bias) as int);
    } else {
        lemma_pow2_pos((-k) as nat);
        lemma_pow2_adds(x + y, (-k) as nat);
        assert((x + y) + (-k) as nat == bias);
        lemma_mul_is_associative((m * n) as int, pow2(x + y) as int, pow2((-k) as nat) as int);
    }
}

/// `a * b`.
pub fn product(a: Number, b: Number, format: Format) -> (r: Number)
    requires
        format.wf(),
        a.fits(format),
        b.fits(format),
    ensures
        r == product_of(a, b, format),
        r.fits(format),
{
    match (a, b) {
        (Number::Nan, _) => Number::Nan,
        (_, Number::Nan) => Number::Nan,
        (Number::Infinity { negative: s }, Number::Infinity { negative: t }) => Number::Infinity {
            negative: s != t,
        },
        (
            Number::Infinity { negative: s },
            Number::Finite { negative: t, mantissa: n, exponent: _ },
        ) => if n == 0 {
            Number::Nan
        } else {
            Number::Infinity { negative: s != t }
        },
        (
            Number::Finite { negative: s, mantissa: m, exponent: _ },
            Number::Infinity { negative: t },
        ) => if m == 0 {
            Number::Nan
        } else {
            Number::Infinity { negative: s != t }
        },
        (
            Number::Finite { negative: s, mantissa: m, exponent: x },
            Number::Finite { negative: t, mantissa: n, exponent: y },
        ) => {
            proof {
                lemma_pow2_bounds();
                lemma_pow2_monotonic(format.precision as nat, 53);
                vstd::arithmetic::power2::lemma2_to64_rest();
                assert(m * n < 0x20_0000_0000_0000 * 0x20_0000_0000_0000) by (nonlinear_arith)
                    requires
                        m < 0x20_0000_0000_0000,
                        n < 0x20_0000_0000_0000,
                ;
            }
            let w: u128 = m as u128 * n as u128;
            let k: i32 = x as i32 + y as i32 - format.bias as i32;
            proof {
                lemma_product_fraction(
                    m as nat,
                    x as nat,
                    n as nat,
                    y as nat,
                    format.bias as nat,
                );
                lemma_rounded_same_fraction(
                    s != t,
                    magnitude(m as nat, x as nat) * magnitude(n as nat, y as nat),
                    pow2(format.bias as nat),
                    dyadic_num(w as nat, k as int),
                    dyadic_den(k as int),
                    format,
                );
            }
            round_dyadic(s != t, w, k, format)
        },
    }
}

/// Cutting the exact `num / den` off at an even place `d` is cutting off what is left of it
/// when everything behind the point becomes one more bit.
proof fn lemma_nearest_sticky(num: nat, den: nat, d: nat, w: nat)
    requires
        den > 0,
        d > 0,
        d % 2 == 0,
        w == 2 * (num / den) + (if num % den > 0 {
            1nat
        } else {
            0nat
        }),
    ensures
        nearest_even(num, den * d) == nearest_even(w, 2 * d),
{
    let q = (num / den) as int;
    let r = (num % den) as int;
    lemma_fundamental_div_mod(num as int, den as int);
    let hi = q / (d as int);
    let lo = q % (d as int);
    lemma_fundamental_div_mod(q, d as int);
    assert(num == hi * (den * d) + (lo * den + r)) by (nonlinear_arith)
        requires
            num == den * q + r,
            q == d * hi + lo,
    ;
    assert(0 <= lo * den + r < den * d) by (nonlinear_arith)
        requires
            0 <= lo <= d - 1,
            0 <= r < den,
            den > 0,
    ;
    lemma_fundamental_div_mod_converse(num as int, (den * d) as int, hi, lo * den + r);
    let bit = w - 2 * q;
    assert(w == hi * (2 * d) + (2 * lo + bit)) by (nonlinear_arith)
        requires
            w == 2 * q + bit,
            q == d * hi + lo,
    ;
    lemma_fundamental_div_mod_converse(w as int, (2 * d) as int, hi, 2 * lo + bit);
    let half = (d / 2) as int;
    assert(d == 2 * half);
    if lo > half || (lo == half && r > 0) {
        assert(2 * (lo * den + r) > den * d) by (nonlinear_arith)
            requires
                lo >= half + 1 || (lo == half && r > 0),
                r >= 0,
                d == 2 * half,
                den > 0,
        ;
    } else if lo == half {
        assert(2 * (lo * den + r) == den * d) by (nonlinear_arith)
            requires
                lo == half,
                r == 0,
                d == 2 * half,
        ;
    } else {
        assert(2 * (lo * den + r) < den * d) by (nonlinear_arith)
            requires
                lo <= half - 1,
                0 <= r < den,
                d == 2 * half,
                den > 0,
        ;
    }
}

/// `2^t` as a multiple of `2^j`.
pub proof fn lemma_dyadic_power(j: int, t: nat)
    requires
        j <= t,
    ensures
        dyadic_den(j) * pow2(t) == dyadic_num(1, j) * pow2((t - j) as nat),
        dyadic_num(1, j) > 0,
        dyadic_den(j) > 0,
{
    if j >= 0 {
        lemma_pow2_pos(j as nat);
        lemma_pow2_adds(j as nat, (t - j) as nat);
        assert(j as nat + (t - j) as nat == t);
        assert(dyadic_num(1, j) == pow2(j as nat));
        assert(1 * pow2(t) == pow2(t));
    } else {
        lemma_pow2_pos((-j) as nat);
        lemma_pow2_adds((-j) as nat, t);
        assert((-j) as nat + t == (t - j) as nat);
        assert(1 * pow2((t - j) as nat) == pow2((t - j) as nat));
    }
}

/// `w * 2^j` as a multiple of `2^j`.
pub proof fn lemma_dyadic_multiple(w: nat, j: int)
    ensures
        dyadic_num(w, j) == w * dyadic_num(1, j),
{
    if j >= 0 {
        assert(1 * pow2(j as nat) == pow2(j as nat));
    }
}

/// A number of more bits than are kept is cut off at least two places above its last bit.
pub proof fn lemma_cut_place(w: nat, j: int, p: nat, e: nat)
    requires
        w >= pow2(p + 2),
        dyadic_num(w, j) < dyadic_den(j) * pow2(p + e),
    ensures
        e >= j + 2,
{
    let a = dyadic_num(1, j);
    let b = dyadic_den(j);
    lemma_dyadic_multiple(w, j);
    lemma_pow2_pos((p + 2) as nat);
    if p + e < j {
        lemma_pow2_pos(p + e);
        assert(1 * pow2(p + e) == pow2(p + e));
        lemma_pow2_monotonic(p + e, j as nat);
        assert(w * a >= a) by (nonlinear_arith)
            requires
                w >= 1,
                a >= 0,
        ;
        assert(false);
    }
    lemma_dyadic_power(j, p + e);
    let top = pow2((p + e - j) as nat);
    assert(w < top) by (nonlinear_arith)
        requires
            w * a < b * pow2(p + e),
            b * pow2(p + e) == a * top,
            a > 0,
    ;
    if (p + e - j) <= p + 2 {
        lemma_pow2_monotonic((p + e - j) as nat, p + 2);
        assert(false);
    }
}

/// Rounding `(num / den) * 2^(j + 1)` units is rounding `w * 2^j` units, where `w` is the
/// quotient with one more bit for everything behind the point, as long as the quotient has
/// more bits than are kept.
proof fn lemma_rounded_sticky(
    negative: bool,
    num: nat,
    den: nat,
    w: nat,
    j: int,
    format: Format,
)
    requires
        format.wf(),
        den > 0,
        num / den >= pow2((format.precision + 1) as nat),
        w == 2 * (num / den) + (if num % den > 0 {
            1nat
        } else {
            0nat
        }),
    ensures
        rounded(negative, 2 * num * dyadic_num(1, j), den * dyadic_den(j), format) == rounded(
            negative,
            dyadic_num(w, j),
            dyadic_den(j),
            format,
        ),
{
    let p = format.precision as nat;
    let a = dyadic_num(1, j);
    let b = dyadic_den(j);
    let q = num / den;
    lemma_dyadic_multiple(w, j);
    if j < 0 {
        lemma_pow2_pos((-j) as nat);
    }
    let e = least_exponent(dyadic_num(w, j), b, p);
    lemma_least_exponent_bounds(dyadic_num(w, j), b, p);
    lemma_pow2_unfold((p + 2) as nat);
    assert(w >= pow2((p + 2) as nat));
    lemma_cut_place(w, j, p, e);
    lemma_dyadic_power(j, p + e);
    let top = pow2((p + e - j) as nat);
    assert(w < top) by (nonlinear_arith)
        requires
            w * a < b * pow2(p + e),
            b * pow2(p + e) == a * top,
            a > 0,
    ;
    // The same exponent.
    lemma_pow2_unfold((p + e - j) as nat);
    let half = pow2((p + e - j - 1) as nat);
    lemma_fundamental_div_mod(num as int, den as int);
    assert(2 * num * a < (den * b) * pow2(p + e)) by {
        assert(q < half);
        assert(num < den * half) by (nonlinear_arith)
            requires
                num == den * q + num % den,
                num % den < den,
                q + 1 <= half,
                den > 0,
        ;
        assert(2 * num * a < (den * b) * pow2(p + e)) by (nonlinear_arith)
            requires
                num < den * half,
                b * pow2(p + e) == a * (2 * half),
                a > 0,
        ;
    }
    if e > 0 {
        lemma_dyadic_power(j, (p + e - 1) as nat);
        lemma_pow2_unfold((p + e - 1 - j) as nat);
        let quarter = pow2((p + e - 2 - j) as nat);
        assert(w >= 2 * quarter) by (nonlinear_arith)
            requires
                w * a >= b * pow2((p + e - 1) as nat),
                b * pow2((p + e - 1) as nat) == a * (2 * quarter),
                a > 0,
        ;
        assert(q >= quarter);
        assert(2 * num * a >= (den * b) * pow2((p + e - 1) as nat)) by (nonlinear_arith)
            requires
                num == den * q + num % den,
                num % den >= 0,
                q >= quarter,
                b * pow2((p + e - 1) as nat) == a * (2 * quarter),
                a > 0,
                den > 0,
        ;
    }
    assert(den * b > 0) by (nonlinear_arith)
        requires
            den > 0,
            b > 0,
    ;
    lemma_least_exponent(2 * num * a, den * b, p, e);
    // The same mantissa.
    lemma_dyadic_power(j, e);
    lemma_pow2_unfold((e - j) as nat);
    lemma_pow2_unfold((e - j - 1) as nat);
    let d = pow2((e - j - 1) as nat);
    lemma_pow2_pos((e - j - 1) as nat);
    assert((den * b) * pow2(e) == (den * d) * (2 * a)) by (nonlinear_arith)
        requires
            b * pow2(e) == a * (2 * d),
    ;
    assert(2 * num * a == num * (2 * a)) by (nonlinear_arith);
    assert(den * d > 0) by (nonlinear_arith)
        requires
            den > 0,
            d > 0,
    ;
    lemma_nearest_even_scaled(num, den * d, 2 * a);
    lemma_mul_is_commutative(a as int, (2 * d) as int);
    lemma_nearest_even_scaled(w, 2 * d, a);
    lemma_nearest_sticky(num, den, d, w);
}

/// Divides two finite numbers, the second not zero.
fn finite_quotient(negative: bool, m: u64, x: u32, n: u64, y: u32, format: Format) -> (r: Number)
    requires
        format.wf(),
        (Number::Finite { negative, mantissa: m, exponent: x }).fits(format),
        (Number::Finite { negative, mantissa: n, exponent: y }).fits(format),
        n > 0,
    ensures
        r == rounded(
            negative,
            magnitude(m as nat, x as nat) * pow2(format.bias as nat),
            magnitude(n as nat, y as nat),
            format,
        ),
        r.fits(format),
{
    let ghost p = format.precision as nat;
    let ghost bias = format.bias as nat;
    proof {
        lemma_pow2_bounds();
        lemma_pow2_monotonic(p, 53);
        lemma_pow2_monotonic((p + 1) as nat, 54);
        vstd::arithmetic::power2::lemma2_to64_rest();
        lemma_pow2_pos(x as nat);
        lemma_pow2_pos(y as nat);
        lemma_pow2_pos(bias);
        lemma_mul_strictly_positive(n as int, pow2(y as nat) as int);
    }
    let bits: u32 = bit_length(m as u128);
    proof {
        if bits > 53 {
            lemma_pow2_monotonic(53, (bits - 1) as nat);
        }
    }
    let shift: u32 = 125 - bits;
    let scale: u128 = power_of_two(shift);
    proof {
        lemma_pow2_pos(shift as nat);
        lemma_pow2_adds(bits as nat, shift as nat);
        lemma_pow2_adds(62, 63);
        lemma_mul_strict_inequality(m as int, pow2(bits as nat) as int, scale as int);
        if m > 0 {
            lemma_pow2_adds((bits - 1) as nat, shift as nat);
            lemma_pow2_adds(61, 63);
            lemma_mul_inequality(pow2((bits - 1) as nat) as int, m as int, scale as int);
        }
    }
    let wide: u128 = m as u128 * scale;
    let quotient: u128 = wide / (n as u128);
    let rest: u128 = wide % (n as u128);
    let k: i32 = x as i32 - y as i32 + format.bias as i32 - shift as i32 - 1;
    proof {
        lemma_fundamental_div_mod(wide as int, n as int);
        assert(quotient <= wide) by (nonlinear_arith)
            requires
                wide == n * quotient + rest,
                n >= 1,
                rest >= 0,
                quotient >= 0,
        ;
    }
    let w: u128 = 2 * quotient + (if rest > 0 {
        1
    } else {
        0
    });
    proof {
        lemma_pow2_unfold(126);
        lemma_quotient_fraction(m as nat, x as nat, n as nat, y as nat, bias, shift as nat, k as int);
        let num = magnitude(m as nat, x as nat) * pow2(bias);
        let den = magnitude(n as nat, y as nat);
        let num1 = 2 * (wide as nat) * dyadic_num(1, k as int);
        let den1 = (n as nat) * dyadic_den(k as int);
        lemma_rounded_same_fraction(negative, num, den, num1, den1, format);
        if m > 0 {
            assert(quotient >= 0x40_0000_0000_0000) by (nonlinear_arith)
                requires
                    wide == n * quotient + rest,
                    wide >= 0x1000_0000_0000_0000_0000_0000_0000_0000,
                    rest < n,
                    n < 0x20_0000_0000_0000,
            ;
            lemma_rounded_sticky(
                negative,
                wide as nat,
                n as nat,
                w as nat,
                k as int,
                format,
            );
        } else {
            assert(wide == 0) by (nonlinear_arith)
                requires
                    wide == m * scale,
                    m == 0,
            ;
            assert(w == 0);
            assert(num1 == 0) by (nonlinear_arith)
                requires
                    num1 == 2 * (wide as nat) * dyadic_num(1, k as int),
                    wide == 0,
            ;
            lemma_dyadic_multiple(0, k as int);
            assert(dyadic_num(0, k as int) == 0);
            lemma_rounded_same_fraction(negative, num1, den1, 0, dyadic_den(k as int), format);
        }
    }
    round_dyadic(negative, w, k, format)
}

/// The exact quotient of two numbers, written with the widened dividend.
proof fn lemma_quotient_fraction(
    m: nat,
    x: nat,
    n: nat,
    y: nat,
    bias: nat,
    shift: nat,
    k: int,
)
    requires
        n > 0,
        k == x - y + bias - shift - 1,
    ensures
        (magnitude(m, x) * pow2(bias)) * (n * dyadic_den(k)) == (2 * (m * pow2(shift))
            * dyadic_num(1, k)) * magnitude(n, y),
        n * dyadic_den(k) > 0,
{
    lemma_pow2_adds(x, bias);
    lemma_pow2_unfold(shift + 1);
    if k >= 0 {
        lemma_pow2_adds(shift + 1, k as nat);
        lemma_pow2_adds(shift + 1 + k as nat, y);
        assert(shift + 1 + k as nat + y == x + bias);
        assert(1 * pow2(k as nat) == pow2(k as nat));
        assert((m * pow2(x) * pow2(bias)) * (n * 1) == (2 * (m * pow2(shift)) * pow2(k as nat))
            * (n * pow2(y))) by (nonlinear_arith)
            requires
                pow2(x) * pow2(bias) == (2 * pow2(shift)) * pow2(k as nat) * pow2(y),
        ;
    } else {
        let l = (-k) as nat;
        lemma_pow2_pos(l);
        lemma_pow2_adds(x + bias, l);
        lemma_pow2_adds(shift + 1, y);
        assert((x + bias) + l == shift + 1 + y);
        assert((m * pow2(x) * pow2(bias)) * (n * pow2(l)) == (2 * (m * pow2(shift)) * 1) * (n
            * pow2(y))) by (nonlinear_arith)
            requires
                pow2(x) * pow2(bias) * pow2(l) == (2 * pow2(shift)) * pow2(y),
        ;
        lemma_mul_strictly_positive(n as int, pow2(l) as int);
    }
}

/// `a / b`.
pub fn quotient(a: Number, b: Number, format: Format) -> (r: Number)
    requires
        format.wf(),
        a.fits(format),
        b.fits(format),
    ensures
        r == quotient_of(a, b, format),
        r.fits(format),
{
    proof {
        lemma_pow2_pos(format.precision as nat);
    }
    match (a, b) {
        (Number::Nan, _) => Number::Nan,
        (_, Number::Nan) => Number::Nan,
        (Number::Infinity { .. }, Number::Infinity { .. }) => Number::Nan,
        (
            Number::Infinity { negative: s },
            Number::Finite { negative: t, .. },
        ) => Number::Infinity { negative: s != t },
        (
            Number::Finite { negative: s, .. },
            Number::Infinity { negative: t },
        ) => Number::Finite { negative: s != t, mantissa: 0, exponent: 0 },
        (
            Number::Finite { negative: s, mantissa: m, exponent: x },
            Number::Finite { negative: t, mantissa: n, exponent: y },
        ) => if n == 0 {
            if m == 0 {
                Number::Nan
            } else {
                Number::Infinity { negative: s != t }
            }
        } else {
            finite_quotient(s != t, m, x, n, y, format)
        },
    }
}

} // verus!
