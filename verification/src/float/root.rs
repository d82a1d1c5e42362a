//! Square roots of floating-point numbers, rounded once.

use crate::float::rounding::bit_length;
use crate::float::rounding::dyadic_den;
use crate::float::rounding::dyadic_num;
use crate::float::rounding::least_exponent;
use crate::float::rounding::lemma_nearest_even_scaled;
use crate::float::rounding::lemma_pow2_bounds;
use crate::float::rounding::lemma_pow2_monotonic;
use crate::float::rounding::magnitude;
use crate::float::rounding::nearest_even;
use crate::float::rounding::power_of_two;
use crate::float::rounding::round_dyadic;
use crate::float::rounding::rounded;
use crate::float::rounding::Format;
use crate::float::rounding::Number;
use vstd::arithmetic::div_mod::lemma_fundamental_div_mod;
use vstd::arithmetic::div_mod::lemma_fundamental_div_mod_converse;
use vstd::arithmetic::mul::lemma_mul_inequality;
use vstd::arithmetic::mul::lemma_mul_is_associative;
use vstd::arithmetic::mul::lemma_mul_strict_inequality;
use vstd::arithmetic::power2::lemma_pow2_adds;
use vstd::arithmetic::power2::lemma_pow2_pos;
use vstd::arithmetic::power2::lemma_pow2_strictly_increases;
use vstd::arithmetic::power2::lemma_pow2_unfold;
use vstd::arithmetic::power2::pow2;
use vstd::prelude::*;

verus! {

/// The largest integer whose square is at most `n`.
pub open spec fn floor_root(n: nat) -> nat
    decreases n,
{
    if n == 0 {
        0
    } else {
        let r = floor_root((n - 1) as nat);
        if (r + 1) * (r + 1) <= n {
            r + 1
        } else {
            r
        }
    }
}

/// The least exponent at which the root has at most `precision` bits before the point.
pub open spec fn least_root_exponent(radicand: nat, precision: nat) -> nat
    decreases
            (if radicand < pow2(2 * precision) {
                0
            } else {
                1 + radicand - pow2(2 * precision)
            }),
{
    if radicand < pow2(2 * precision) {
        0
    } else {
        proof {
            lemma_pow2_strictly_increases(2 * precision, 2 * (precision + 1));
        }
        1 + least_root_exponent(radicand, precision + 1)
    }
}

/// The integer nearest to the root of `num / den`, the even one of two.
pub open spec fn nearest_root(num: nat, den: nat) -> nat {
    let floor = floor_root(num / den);
    let middle = (2 * floor + 1) * (2 * floor + 1) * den;
    if 4 * num > middle || (4 * num == middle && floor % 2 == 1) {
        floor + 1
    } else {
        floor
    }
}

/// The number of the format that is nearest to the root of `radicand`, in units.
pub open spec fn rounded_root(radicand: nat, format: Format) -> Number {
    let exponent = least_root_exponent(radicand, format.precision as nat);
    let mantissa = nearest_root(radicand, pow2(2 * exponent));
    let carried = mantissa == pow2(format.precision as nat);
    let exponent = if carried {
        exponent + 1
    } else {
        exponent
    };
    let mantissa = if carried {
        pow2((format.precision - 1) as nat)
    } else {
        mantissa
    };
    if exponent > format.top {
        Number::Infinity { negative: false }
    } else {
        Number::Finite { negative: false, mantissa: mantissa as u64, exponent: exponent as u32 }
    }
}

/// The square root: that of minus zero is minus zero, and no other negative number has one.
pub open spec fn root_of(a: Number, format: Format) -> Number {
    match a {
        Number::Nan => Number::Nan,
        Number::Infinity { negative } => if negative {
            Number::Nan
        } else {
            a
        },
        Number::Finite { negative, mantissa, exponent } => if mantissa == 0 {
            a
        } else if negative {
            Number::Nan
        } else {
            rounded_root(
                magnitude(mantissa as nat, exponent as nat) * pow2(format.bias as nat),
                format,
            )
        },
    }
}

/// The floor of a root is the only integer with this property.
pub proof fn lemma_floor_root(n: nat, r: nat)
    requires
        r * r <= n < (r + 1) * (r + 1),
    ensures
        floor_root(n) == r,
    decreases n,
{
    if n > 0 {
        let m = (n - 1) as nat;
        if r * r <= m {
            lemma_floor_root(m, r);
        } else {
            assert(r * r == n);
            assert(r > 0) by (nonlinear_arith)
                requires
                    r * r == n,
                    n > 0,
            ;
            let s = (r - 1) as nat;
            assert(s * s <= m < (s + 1) * (s + 1)) by (nonlinear_arith)
                requires
                    r == s + 1,
                    r * r == m + 1,
            ;
            lemma_floor_root(m, s);
        }
    } else {
        assert(r == 0) by (nonlinear_arith)
            requires
                r * r <= 0,
        ;
    }
}

/// The exponent is the only one that is large enough and not larger than that.
proof fn lemma_least_root_exponent(radicand: nat, precision: nat, e: nat)
    requires
        radicand < pow2(2 * (precision + e)),
        e == 0 || radicand >= pow2((2 * (precision + e - 1)) as nat),
    ensures
        least_root_exponent(radicand, precision) == e,
    decreases e,
{
    if e > 0 {
        lemma_pow2_monotonic(2 * precision, (2 * (precision + e - 1)) as nat);
        assert(precision + 1 + (e - 1) == precision + e);
        lemma_least_root_exponent(radicand, precision + 1, (e - 1) as nat);
    }
}

/// The whole root of an integer of at most 126 bits.
fn integer_root(n: u128) -> (r: u128)
    requires
        n < pow2(126),
    ensures
        r * r <= n < (r + 1) * (r + 1),
        r < pow2(63),
{
    let mut low: u128 = 0;
    let mut high: u128 = power_of_two(63);
    proof {
        lemma_pow2_bounds();
        vstd::arithmetic::power2::lemma2_to64_rest();
        lemma_pow2_adds(63, 63);
    }
    while high - low > 1
        invariant
            low < high <= pow2(63),
            pow2(63) == 0x8000_0000_0000_0000,
            low * low <= n < high * high,
        decreases high - low,
    {
        let middle: u128 = low + (high - low) / 2;
        proof {
            assert(middle * middle < 0x8000_0000_0000_0000 * 0x8000_0000_0000_0000)
                by (nonlinear_arith)
                requires
                    middle < 0x8000_0000_0000_0000,
            ;
        }
        if middle * middle <= n {
            low = middle;
        } else {
            high = middle;
        }
    }
    assert(high == low + 1);
    low
}

/// What `n`, times `4^h`, lies below.
proof fn lemma_scaled_square(n: nat, radicand: nat, h: int, t: nat)
    requires
        h <= t,
        h >= 0 ==> radicand == n * pow2((2 * h) as nat),
        h < 0 ==> n == radicand * pow2((-2 * h) as nat),
    ensures
        (radicand < pow2(2 * t)) == (n < pow2((2 * (t - h)) as nat)),
{
    if h >= 0 {
        let c = pow2((2 * h) as nat);
        lemma_pow2_pos((2 * h) as nat);
        lemma_pow2_adds((2 * (t - h)) as nat, (2 * h) as nat);
        assert((2 * (t - h)) as nat + (2 * h) as nat == 2 * t);
        let d = pow2((2 * (t - h)) as nat);
        assert((n * c < d * c) == (n < d)) by (nonlinear_arith)
            requires
                c > 0,
        ;
    } else {
        let c = pow2((-2 * h) as nat);
        lemma_pow2_pos((-2 * h) as nat);
        lemma_pow2_adds(2 * t, (-2 * h) as nat);
        assert(2 * t + (-2 * h) as nat == (2 * (t - h)) as nat);
        let d = pow2(2 * t);
        assert((radicand * c < d * c) == (radicand < d)) by (nonlinear_arith)
            requires
                c > 0,
        ;
    }
}

/// Scaling numerator and denominator alike does not change the nearest root.
proof fn lemma_nearest_root_scaled(num: nat, den: nat, c: nat)
    requires
        den > 0,
        c > 0,
    ensures
        nearest_root(num * c, den * c) == nearest_root(num, den),
{
    let q = (num / den) as int;
    let r = (num % den) as int;
    lemma_fundamental_div_mod(num as int, den as int);
    assert(num * c == q * (den * c) + r * c && 0 <= r * c < den * c) by (nonlinear_arith)
        requires
            num == den * q + r,
            0 <= r < den,
            c > 0,
    ;
    lemma_fundamental_div_mod_converse((num * c) as int, (den * c) as int, q, r * c);
    let f = floor_root(num / den);
    let odd = (2 * f + 1) * (2 * f + 1);
    assert((4 * (num * c) > odd * (den * c)) == (4 * num > odd * den)) by (nonlinear_arith)
        requires
            c > 0,
    ;
    assert((4 * (num * c) == odd * (den * c)) == (4 * num == odd * den)) by (nonlinear_arith)
        requires
            c > 0,
    ;
}

/// Cutting the root of `n` off at `2 d` is cutting off its floor with one more bit for
/// everything behind the point.
proof fn lemma_nearest_root_sticky(n: nat, q: nat, d: nat, w: nat)
    requires
        d > 0,
        q * q <= n < (q + 1) * (q + 1),
        w == 2 * q + (if q * q < n {
            1nat
        } else {
            0nat
        }),
    ensures
        nearest_root(n, (2 * d) * (2 * d)) == nearest_even(w, 2 * (2 * d)),
{
    let dd = 2 * d;
    let f = q / dd;
    let lo = q % dd;
    lemma_fundamental_div_mod(q as int, dd as int);
    let square = dd * dd;
    assert(square > 0) by (nonlinear_arith)
        requires
            square == dd * dd,
            dd > 0,
    ;
    assert((f * f) * square <= n) by (nonlinear_arith)
        requires
            q == dd * f + lo,
            lo >= 0,
            f >= 0,
            dd >= 0,
            q * q <= n,
            square == dd * dd,
    ;
    assert(n < ((f + 1) * (f + 1)) * square) by (nonlinear_arith)
        requires
            q == dd * f + lo,
            lo + 1 <= dd,
            q >= 0,
            n < (q + 1) * (q + 1),
            square == dd * dd,
    ;
    let cut = n / square;
    lemma_fundamental_div_mod(n as int, square as int);
    assert(f * f <= cut < (f + 1) * (f + 1)) by (nonlinear_arith)
        requires
            n == square * cut + n % square,
            0 <= n % square < square,
            (f * f) * square <= n,
            n < ((f + 1) * (f + 1)) * square,
    ;
    lemma_floor_root(cut, f);
    let c = (2 * f + 1) * d;
    assert((2 * f + 1) * (2 * f + 1) * square == 4 * (c * c)) by (nonlinear_arith)
        requires
            c == (2 * f + 1) * d,
            square == (2 * d) * (2 * d),
    ;
    assert(c == dd * f + d) by (nonlinear_arith)
        requires
            c == (2 * f + 1) * d,
            dd == 2 * d,
    ;
    if q > c {
        assert(n > c * c) by (nonlinear_arith)
            requires
                q >= c + 1,
                c >= 0,
                q * q <= n,
        ;
    } else if q < c {
        assert(n < c * c) by (nonlinear_arith)
            requires
                q + 1 <= c,
                q >= 0,
                n < (q + 1) * (q + 1),
        ;
    }
    let bit = (w - 2 * q) as nat;
    assert(w == f * (2 * dd) + (2 * lo + bit)) by (nonlinear_arith)
        requires
            w == 2 * q + bit,
            q == dd * f + lo,
    ;
    lemma_fundamental_div_mod_converse(
        w as int,
        (2 * dd) as int,
        f as int,
        (2 * lo + bit) as int,
    );
}

/// Rounding the root of a radicand is rounding `w * 2^(h - 1)`, where `w` is the whole root of
/// the scaled radicand with one more bit, as long as that root has more bits than are kept.
proof fn lemma_rounded_root_sticky(
    radicand: nat,
    n: nat,
    q: nat,
    w: nat,
    h: int,
    format: Format,
)
    requires
        format.wf(),
        h >= 0 ==> radicand == n * pow2((2 * h) as nat),
        h < 0 ==> n == radicand * pow2((-2 * h) as nat),
        q * q <= n < (q + 1) * (q + 1),
        q >= pow2((format.precision + 1) as nat),
        w == 2 * q + (if q * q < n {
            1nat
        } else {
            0nat
        }),
    ensures
        rounded_root(radicand, format) == rounded(
            false,
            dyadic_num(w, h - 1),
            dyadic_den(h - 1),
            format,
        ),
{
    let p = format.precision as nat;
    let j = h - 1;
    let a = dyadic_num(1, j);
    let b = dyadic_den(j);
    crate::float::arithmetic::lemma_dyadic_multiple(w, j);
    let e = least_exponent(dyadic_num(w, j), b, p);
    if j < 0 {
        lemma_pow2_pos((-j) as nat);
    }
    crate::float::rounding::lemma_least_exponent_bounds(dyadic_num(w, j), b, p);
    lemma_pow2_unfold(p + 2);
    crate::float::arithmetic::lemma_cut_place(w, j, p, e);
    let t = p + e;
    // The same exponent.
    crate::float::arithmetic::lemma_dyadic_power(j, t);
    lemma_pow2_unfold((t - j) as nat);
    let half = pow2((t - h) as nat);
    assert((t - j - 1) as nat == (t - h) as nat);
    assert(w < 2 * half) by (nonlinear_arith)
        requires
            w * a < b * pow2(t),
            b * pow2(t) == a * (2 * half),
            a > 0,
    ;
    assert(q < half);
    lemma_pow2_adds((t - h) as nat, (t - h) as nat);
    assert((2 * (t - h)) as nat == (t - h) as nat + (t - h) as nat);
    assert(n < half * half) by (nonlinear_arith)
        requires
            n < (q + 1) * (q + 1),
            q + 1 <= half,
    ;
    lemma_scaled_square(n, radicand, h, t);
    if e > 0 {
        let t1 = (t - 1) as nat;
        crate::float::arithmetic::lemma_dyadic_power(j, t1);
        lemma_pow2_unfold((t1 - j) as nat);
        let quarter = pow2((t1 - h) as nat);
        assert((t1 - j - 1) as nat == (t1 - h) as nat);
        assert(w >= 2 * quarter) by (nonlinear_arith)
            requires
                w * a >= b * pow2(t1),
                b * pow2(t1) == a * (2 * quarter),
                a > 0,
        ;
        assert(q >= quarter);
        lemma_pow2_adds((t1 - h) as nat, (t1 - h) as nat);
        assert((2 * (t1 - h)) as nat == (t1 - h) as nat + (t1 - h) as nat);
        assert(n >= quarter * quarter) by (nonlinear_arith)
            requires
                n >= q * q,
                q >= quarter,
        ;
        lemma_scaled_square(n, radicand, h, t1);
        assert((2 * (p + e - 1)) as nat == 2 * t1);
    }
    lemma_least_root_exponent(radicand, p, e);
    // The same mantissa.
    crate::float::arithmetic::lemma_dyadic_power(j, e);
    lemma_pow2_unfold((e - j) as nat);
    lemma_pow2_unfold((e - h) as nat);
    lemma_pow2_pos((e - h - 1) as nat);
    let d = pow2((e - h - 1) as nat);
    assert((e - j - 1) as nat == (e - h) as nat);
    assert(b * pow2(e) == a * (2 * (2 * d)));
    vstd::arithmetic::mul::lemma_mul_is_commutative(a as int, (2 * (2 * d)) as int);
    lemma_nearest_even_scaled(w, 2 * (2 * d), a);
    lemma_nearest_root_sticky(n, q, d, w);
    let square = (2 * d) * (2 * d);
    lemma_pow2_adds((e - h) as nat, (e - h) as nat);
    assert(square == pow2((2 * (e - h)) as nat));
    lemma_pow2_pos((2 * (e - h)) as nat);
    lemma_pow2_pos(2 * e);
    if h >= 0 {
        let c = pow2((2 * h) as nat);
        lemma_pow2_pos((2 * h) as nat);
        lemma_pow2_adds((2 * (e - h)) as nat, (2 * h) as nat);
        assert((2 * (e - h)) as nat + (2 * h) as nat == 2 * e);
        lemma_nearest_root_scaled(n, square, c);
    } else {
        let c = pow2((-2 * h) as nat);
        lemma_pow2_pos((-2 * h) as nat);
        lemma_pow2_adds(2 * e, (-2 * h) as nat);
        assert(2 * e + (-2 * h) as nat == (2 * (e - h)) as nat);
        lemma_nearest_root_scaled(radicand, pow2(2 * e), c);
    }
}

/// The square root of `a`.
pub fn root(a: Number, format: Format) -> (r: Number)
    requires
        format.wf(),
        a.fits(format),
    ensures
        r == root_of(a, format),
        r.fits(format),
{
    match a {
        Number::Nan => Number::Nan,
        Number::Infinity { negative } => if negative {
            Number::Nan
        } else {
            a
        },
        Number::Finite { negative, mantissa, exponent } => {
            if mantissa == 0 {
                return a;
            }
            if negative {
                return Number::Nan;
            }
            let ghost p = format.precision as nat;
            let ghost x = exponent as nat;
            let ghost bias = format.bias as nat;
            let ghost radicand = magnitude(mantissa as nat, x) * pow2(bias);
            proof {
                lemma_pow2_bounds();
                lemma_pow2_monotonic(p, 53);
                lemma_pow2_monotonic((p + 1) as nat, 54);
                vstd::arithmetic::power2::lemma2_to64_rest();
            }
            let bits: u32 = bit_length(mantissa as u128);
            proof {
                if bits > 53 {
                    lemma_pow2_monotonic(53, (bits - 1) as nat);
                }
            }
            let spare: u32 = 126 - bits;
            let shift: u32 = if (exponent + format.bias) % 2 == spare % 2 {
                spare
            } else {
                spare - 1
            };
            let scale: u128 = power_of_two(shift);
            proof {
                lemma_pow2_pos(shift as nat);
                lemma_pow2_adds(bits as nat, shift as nat);
                lemma_pow2_monotonic(bits as nat + shift as nat, 126);
                lemma_mul_strict_inequality(mantissa as int, pow2(bits as nat) as int, scale as int);
                lemma_pow2_adds((bits - 1) as nat, shift as nat);
                lemma_pow2_monotonic(124, (bits - 1) as nat + shift as nat);
                lemma_mul_inequality(pow2((bits - 1) as nat) as int, mantissa as int, scale as int);
            }
            let wide: u128 = mantissa as u128 * scale;
            let q: u128 = integer_root(wide);
            proof {
                lemma_pow2_adds(62, 62);
                lemma_pow2_adds(63, 63);
                if q < pow2(62) {
                    assert((q + 1) * (q + 1) <= pow2(62) * pow2(62)) by (nonlinear_arith)
                        requires
                            q + 1 <= pow2(62),
                            q >= 0,
                    ;
                    assert(false);
                }
                lemma_pow2_monotonic((p + 1) as nat, 62);
                assert(q * q < 0x8000_0000_0000_0000 * 0x8000_0000_0000_0000) by (nonlinear_arith)
                    requires
                        q < 0x8000_0000_0000_0000,
                ;
            }
            let w: u128 = 2 * q + (if q * q < wide {
                1
            } else {
                0
            });
            let twice: i32 = exponent as i32 + format.bias as i32 - shift as i32;
            let negative_twice: bool = twice < 0;
            let h: i32 = if negative_twice {
                -((-twice) / 2)
            } else {
                twice / 2
            };
            proof {
                assert(2 * h == twice);
                lemma_pow2_adds(x, bias);
                lemma_mul_is_associative(mantissa as int, pow2(x) as int, pow2(bias) as int);
                assert(radicand == mantissa * pow2(x + bias));
                if h >= 0 {
                    lemma_pow2_adds(shift as nat, (2 * h) as nat);
                    assert(shift as nat + (2 * h) as nat == x + bias);
                    lemma_mul_is_associative(
                        mantissa as int,
                        scale as int,
                        pow2((2 * h) as nat) as int,
                    );
                } else {
                    lemma_pow2_adds(x + bias, (-2 * h) as nat);
                    assert(x + bias + (-2 * h) as nat == shift as nat);
                    lemma_mul_is_associative(
                        mantissa as int,
                        pow2(x + bias) as int,
                        pow2((-2 * h) as nat) as int,
                    );
                }
                lemma_rounded_root_sticky(
                    radicand,
                    wide as nat,
                    q as nat,
                    w as nat,
                    h as int,
                    format,
                );
            }
            round_dyadic(false, w, h - 1, format)
        },
    }
}

} // verus!
