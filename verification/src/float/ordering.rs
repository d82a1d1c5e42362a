//! The order of floating-point numbers, and their conversion to integers and between formats.

use crate::float::arithmetic::signed;
use crate::float::rounding::dyadic_den;
use crate::float::rounding::dyadic_num;
use crate::float::rounding::lemma_pow2_bounds;
use crate::float::rounding::lemma_pow2_monotonic;
use crate::float::rounding::lemma_rounded_same_fraction;
use crate::float::rounding::magnitude;
use crate::float::rounding::power_of_two;
use crate::float::rounding::round_dyadic;
use crate::float::rounding::rounded;
use crate::float::rounding::Format;
use crate::float::rounding::Number;
use vstd::arithmetic::div_mod::lemma_fundamental_div_mod;
use vstd::arithmetic::div_mod::lemma_fundamental_div_mod_converse;
use vstd::arithmetic::mul::lemma_mul_inequality;
use vstd::arithmetic::mul::lemma_mul_is_associative;
use vstd::arithmetic::mul::lemma_mul_strict_inequality;
use vstd::arithmetic::power2::lemma_pow2_adds;
use vstd::arithmetic::power2::lemma_pow2_pos;
use vstd::arithmetic::power2::lemma_pow2_unfold;
use vstd::arithmetic::power2::pow2;
use vstd::prelude::*;

verus! {

/// Where a number stands on the line, in units; infinity stands beyond every finite number.
pub open spec fn position(a: Number, format: Format) -> int {
    match a {
        Number::Nan => 0,
        Number::Infinity { negative } => signed(
            negative,
            pow2((format.precision + format.top) as nat),
        ),
        Number::Finite { negative, mantissa, exponent } => signed(
            negative,
            magnitude(mantissa as nat, exponent as nat),
        ),
    }
}

/// `a < b`: false where either is not a number.
pub open spec fn below(a: Number, b: Number, format: Format) -> bool {
    a !is Nan && b !is Nan && position(a, format) < position(b, format)
}

/// `a <= b`: false where either is not a number.
pub open spec fn at_most(a: Number, b: Number, format: Format) -> bool {
    a !is Nan && b !is Nan && position(a, format) <= position(b, format)
}

/// The integer nearest to a distance from zero, the larger one of two.
pub open spec fn whole(mantissa: nat, exponent: nat, format: Format) -> nat {
    (2 * magnitude(mantissa, exponent) + pow2(format.bias as nat)) / (2 * pow2(
        format.bias as nat,
    ))
}

/// The same number in another format, rounded where that one has no room for it.
pub open spec fn converted(a: Number, from: Format, to: Format) -> Number {
    match a {
        Number::Finite { negative, mantissa, exponent } => rounded(
            negative,
            magnitude(mantissa as nat, exponent as nat) * pow2(to.bias as nat),
            pow2(from.bias as nat),
            to,
        ),
        _ => a,
    }
}

/// A whole number in a format.
pub open spec fn whole_number(negative: bool, value: nat, format: Format) -> Number {
    rounded(negative, value * pow2(format.bias as nat), 1, format)
}

/// Numbers that fit are ordered by exponent first.
pub proof fn lemma_exponent_orders(m: nat, x: nat, n: nat, y: nat, precision: nat)
    requires
        precision > 0,
        m < pow2(precision),
        n >= pow2((precision - 1) as nat),
        x < y,
    ensures
        magnitude(m, x) < magnitude(n, y),
{
    lemma_pow2_pos(x);
    lemma_pow2_pos(y);
    lemma_mul_strict_inequality(m as int, pow2(precision) as int, pow2(x) as int);
    lemma_mul_inequality(pow2((precision - 1) as nat) as int, n as int, pow2(y) as int);
    lemma_pow2_adds(precision, x);
    lemma_pow2_adds((precision - 1) as nat, y);
    lemma_pow2_monotonic(precision + x, (precision - 1) as nat + y);
}

/// A finite number is nearer to zero than infinity.
proof fn lemma_finite_below_infinity(m: nat, x: nat, format: Format)
    requires
        m < pow2(format.precision as nat),
        x <= format.top,
    ensures
        magnitude(m, x) < pow2((format.precision + format.top) as nat),
{
    lemma_pow2_pos(x);
    lemma_mul_strict_inequality(m as int, pow2(format.precision as nat) as int, pow2(x) as int);
    lemma_pow2_adds(format.precision as nat, x);
    lemma_pow2_monotonic(
        format.precision as nat + x,
        (format.precision + format.top) as nat,
    );
}

/// Whether one finite number is nearer to zero than another.
fn nearer(m: u64, x: u32, n: u64, y: u32, format: Format) -> (r: bool)
    requires
        format.wf(),
        (Number::Finite { negative: false, mantissa: m, exponent: x }).fits(format),
        (Number::Finite { negative: false, mantissa: n, exponent: y }).fits(format),
    ensures
        r == (magnitude(m as nat, x as nat) < magnitude(n as nat, y as nat)),
{
    proof {
        let p = format.precision as nat;
        if x < y {
            lemma_exponent_orders(m as nat, x as nat, n as nat, y as nat, p);
        } else if y < x {
            lemma_exponent_orders(n as nat, y as nat, m as nat, x as nat, p);
        } else {
            let c = pow2(x as nat);
            lemma_pow2_pos(x as nat);
            assert((m * c < n * c) == (m < n)) by (nonlinear_arith)
                requires
                    c > 0,
            ;
        }
    }
    x < y || (x == y && m < n)
}

/// `a < b`.
pub fn is_below(a: Number, b: Number, format: Format) -> (r: bool)
    requires
        format.wf(),
        a.fits(format),
        b.fits(format),
    ensures
        r == below(a, b, format),
{
    proof {
        lemma_pow2_pos((format.precision + format.top) as nat);
    }
    match (a, b) {
        (Number::Nan, _) => false,
        (_, Number::Nan) => false,
        (Number::Infinity { negative: s }, Number::Infinity { negative: t }) => s && !t,
        (
            Number::Infinity { negative: s },
            Number::Finite { negative: t, mantissa: n, exponent: y },
        ) => {
            proof {
                lemma_finite_below_infinity(n as nat, y as nat, format);
            }
            s
        },
        (
            Number::Finite { negative: s, mantissa: m, exponent: x },
            Number::Infinity { negative: t },
        ) => {
            proof {
                lemma_finite_below_infinity(m as nat, x as nat, format);
            }
            !t
        },
        (
            Number::Finite { negative: s, mantissa: m, exponent: x },
            Number::Finite { negative: t, mantissa: n, exponent: y },
        ) => {
            proof {
                lemma_pow2_pos(x as nat);
                lemma_pow2_pos(y as nat);
                assert((m * pow2(x as nat) == 0) == (m == 0)) by (nonlinear_arith)
                    requires
                        pow2(x as nat) > 0,
                ;
                assert((n * pow2(y as nat) == 0) == (n == 0)) by (nonlinear_arith)
                    requires
                        pow2(y as nat) > 0,
                ;
            }
            if s && t {
                nearer(n, y, m, x, format)
            } else if s {
                m != 0 || n != 0
            } else if t {
                false
            } else {
                nearer(m, x, n, y, format)
            }
        },
    }
}

/// `a <= b`.
pub fn is_at_most(a: Number, b: Number, format: Format) -> (r: bool)
    requires
        format.wf(),
        a.fits(format),
        b.fits(format),
    ensures
        r == at_most(a, b, format),
{
    match (a, b) {
        (Number::Nan, _) => false,
        (_, Number::Nan) => false,
        _ => !is_below(b, a, format),
    }
}

/// The integer nearest to a distance from zero, but at most `cap`.
pub fn to_whole(mantissa: u64, exponent: u32, cap: u64, format: Format) -> (r: u64)
    requires
        format.wf(),
        (Number::Finite { negative: false, mantissa, exponent }).fits(format),
    ensures
        r == (if whole(mantissa as nat, exponent as nat, format) > cap {
            cap as nat
        } else {
            whole(mantissa as nat, exponent as nat, format)
        }),
{
    let ghost p = format.precision as nat;
    let ghost m = mantissa as nat;
    let ghost x = exponent as nat;
    let ghost unit = pow2(format.bias as nat);
    let ghost exact = magnitude(m, x);
    proof {
        lemma_pow2_bounds();
        vstd::arithmetic::power2::lemma2_to64();
        vstd::arithmetic::power2::lemma2_to64_rest();
        lemma_pow2_monotonic(p, 53);
        lemma_pow2_pos(format.bias as nat);
        lemma_pow2_pos((p - 1) as nat);
    }
    if exponent >= format.bias {
        let k: u32 = exponent - format.bias;
        proof {
            lemma_pow2_adds(k as nat, format.bias as nat);
            assert(k as nat + format.bias as nat == x);
            lemma_mul_is_associative(m as int, pow2(k as nat) as int, unit as int);
            let v = m * pow2(k as nat);
            assert(exact == v * unit);
            assert(2 * (v * unit) + unit == v * (2 * unit) + unit) by (nonlinear_arith);
            lemma_fundamental_div_mod_converse(
                (2 * exact + unit) as int,
                (2 * unit) as int,
                v as int,
                unit as int,
            );
        }
        if mantissa == 0 {
            proof {
                vstd::arithmetic::mul::lemma_mul_basics(pow2(k as nat) as int);
            }
            return 0;
        }
        if k >= 64 {
            proof {
                lemma_pow2_monotonic(64, k as nat);
                lemma_mul_inequality(1, m as int, pow2(k as nat) as int);
            }
            return cap;
        }
        let scale: u128 = power_of_two(k);
        proof {
            lemma_pow2_monotonic(k as nat, 63);
            assert(m * scale <= 0x20_0000_0000_0000 * 0x8000_0000_0000_0000) by (nonlinear_arith)
                requires
                    m <= 0x20_0000_0000_0000,
                    scale <= 0x8000_0000_0000_0000,
            ;
        }
        let value: u128 = mantissa as u128 * scale;
        if value > cap as u128 {
            cap
        } else {
            value as u64
        }
    } else {
        let s: u32 = format.bias - exponent;
        proof {
            lemma_pow2_adds(s as nat, x);
            assert(s as nat + x == format.bias as nat);
            lemma_pow2_pos(x);
            lemma_pow2_pos(s as nat);
            lemma_pow2_unfold(s as nat);
        }
        let ghost c = pow2(s as nat);
        let ghost z = pow2(x);
        if s > 60 {
            proof {
                lemma_pow2_monotonic(61, s as nat);
                assert(2 * exact + unit < 2 * unit) by (nonlinear_arith)
                    requires
                        exact == m * z,
                        unit == c * z,
                        2 * m < c,
                        z > 0,
                ;
                lemma_fundamental_div_mod_converse(
                    (2 * exact + unit) as int,
                    (2 * unit) as int,
                    0,
                    (2 * exact + unit) as int,
                );
            }
            return 0;
        }
        let divisor: u128 = power_of_two(s);
        proof {
            lemma_pow2_monotonic(s as nat, 60);
        }
        let value: u128 = (2 * (mantissa as u128) + divisor) / (2 * divisor);
        proof {
            let q = value as int;
            let r = (2 * m + c) as int % (2 * c) as int;
            lemma_fundamental_div_mod((2 * m + c) as int, (2 * c) as int);
            assert(2 * exact + unit == q * (2 * unit) + r * z && 0 <= r * z < 2 * unit)
                by (nonlinear_arith)
                requires
                    exact == m * z,
                    unit == c * z,
                    2 * m + c == (2 * c) * q + r,
                    0 <= r < 2 * c,
                    z > 0,
            ;
            lemma_fundamental_div_mod_converse(
                (2 * exact + unit) as int,
                (2 * unit) as int,
                q,
                r * z,
            );
        }
        if value > cap as u128 {
            cap
        } else {
            value as u64
        }
    }
}

/// A number of fewer units than one has is rounded to no more than its mantissa.
pub proof fn lemma_whole_is_small(mantissa: nat, exponent: nat, format: Format)
    requires
        exponent <= format.bias,
    ensures
        whole(mantissa, exponent, format) <= mantissa,
{
    let unit = pow2(format.bias as nat);
    let exact = magnitude(mantissa, exponent);
    lemma_pow2_pos(format.bias as nat);
    lemma_pow2_monotonic(exponent, format.bias as nat);
    assert(exact <= mantissa * unit) by (nonlinear_arith)
        requires
            exact == mantissa * pow2(exponent),
            pow2(exponent) <= unit,
    ;
    let q = whole(mantissa, exponent, format) as int;
    lemma_fundamental_div_mod((2 * exact + unit) as int, (2 * unit) as int);
    assert(q <= mantissa) by (nonlinear_arith)
        requires
            2 * exact + unit >= (2 * unit) * q,
            exact <= mantissa * unit,
            unit > 0,
    ;
}

/// The same number in another format.
pub fn convert(a: Number, from: Format, to: Format) -> (r: Number)
    requires
        from.wf(),
        to.wf(),
        a.fits(from),
    ensures
        r == converted(a, from, to),
        r.fits(to),
{
    match a {
        Number::Finite { negative, mantissa, exponent } => {
            proof {
                lemma_pow2_bounds();
                vstd::arithmetic::power2::lemma2_to64_rest();
                lemma_pow2_monotonic(from.precision as nat, 53);
            }
            let k: i32 = exponent as i32 + to.bias as i32 - from.bias as i32;
            proof {
                let m = mantissa as nat;
                let x = exponent as nat;
                let b = to.bias as nat;
                let f = from.bias as nat;
                lemma_pow2_pos(f);
                lemma_pow2_adds(x, b);
                lemma_mul_is_associative(m as int, pow2(x) as int, pow2(b) as int);
                if k >= 0 {
                    lemma_pow2_adds(k as nat, f);
                    assert(k as nat + f == x + b);
                    lemma_mul_is_associative(m as int, pow2(k as nat) as int, pow2(f) as int);
                } else {
                    lemma_pow2_adds(x + b, (-k) as nat);
                    assert(x + b + (-k) as nat == f);
                    lemma_mul_is_associative(m as int, pow2(x + b) as int, pow2((-k) as nat) as int);
                    lemma_pow2_pos((-k) as nat);
                }
                lemma_rounded_same_fraction(
                    negative,
                    magnitude(m, x) * pow2(b),
                    pow2(f),
                    dyadic_num(m, k as int),
                    dyadic_den(k as int),
                    to,
                );
            }
            round_dyadic(negative, mantissa as u128, k, to)
        },
        _ => a,
    }
}

/// A whole number in a format.
pub fn from_whole(negative: bool, value: u64, format: Format) -> (r: Number)
    requires
        format.wf(),
    ensures
        r == whole_number(negative, value as nat, format),
        r.fits(format),
{
    proof {
        lemma_pow2_bounds();
    }
    round_dyadic(negative, value as u128, format.bias as i32, format)
}

} // verus!
