//! Correct rounding of exact rational numbers to a binary floating-point format.
//!
//! A finite number of a format is `mantissa * 2^exponent` units, where the unit is the
//! smallest positive number of the format. Everything here is stated over mathematical
//! integers: a number that has to be rounded is a fraction `num / den` of units.

use vstd::arithmetic::div_mod::lemma_fundamental_div_mod;
use vstd::arithmetic::div_mod::lemma_fundamental_div_mod_converse;
use vstd::arithmetic::mul::lemma_mul_inequality;
use vstd::arithmetic::mul::lemma_mul_is_associative;
use vstd::arithmetic::mul::lemma_mul_is_commutative;
use vstd::arithmetic::mul::lemma_mul_strict_inequality;
use vstd::arithmetic::mul::lemma_mul_strictly_positive;
use vstd::arithmetic::power2::lemma_pow2_adds;
use vstd::arithmetic::power2::lemma_pow2_pos;
use vstd::arithmetic::power2::lemma_pow2_strictly_increases;
use vstd::arithmetic::power2::lemma_pow2_unfold;
use vstd::arithmetic::power2::pow2;
use vstd::prelude::*;

verus! {

/// A binary interchange format: how many bits a mantissa has, how large an exponent can be,
/// and the power of two by which one is larger than the unit.
#[derive(Clone, Copy, Debug, PartialEq, Eq, Structural)]
pub struct Format {
    pub precision: u32,
    pub top: u32,
    pub bias: u32,
}

impl Format {
    /// The parameters are of a size for which the arithmetic below fits in 128 bits.
    pub open spec fn wf(self) -> bool {
        &&& 2 <= self.precision <= 53
        &&& self.top <= 4000
        &&& self.bias <= 2000
    }
}

/// A number of some format, taken apart.
#[derive(Clone, Copy, Debug, PartialEq, Eq, Structural)]
pub enum Number {
    Nan,
    Infinity { negative: bool },
    Finite { negative: bool, mantissa: u64, exponent: u32 },
}

impl Number {
    /// The one representation that a format has for each number: the mantissa is as large as
    /// possible unless the exponent is the least one.
    pub open spec fn fits(self, format: Format) -> bool {
        match self {
            Number::Finite { negative: _, mantissa, exponent } => {
                &&& mantissa < pow2(format.precision as nat)
                &&& exponent <= format.top
                &&& exponent > 0 ==> mantissa >= pow2((format.precision - 1) as nat)
            },
            _ => true,
        }
    }
}

/// The distance of a finite number from zero, in units.
pub open spec fn magnitude(mantissa: nat, exponent: nat) -> nat {
    mantissa * pow2(exponent)
}

/// The integer nearest to `num / den`; of two that are equally near, the even one.
pub open spec fn nearest_even(num: nat, den: nat) -> nat {
    let floor = num / den;
    let rest = num % den;
    if 2 * rest > den || (2 * rest == den && floor % 2 == 1) {
        floor + 1
    } else {
        floor
    }
}

/// The least exponent at which `num / den` has at most `precision` bits before the point.
pub open spec fn least_exponent(num: nat, den: nat, precision: nat) -> nat
    decreases
            (if num < den * pow2(precision) {
                0
            } else {
                1 + num - den * pow2(precision)
            }),
{
    if den == 0 || num < den * pow2(precision) {
        0
    } else {
        proof {
            lemma_pow2_pos(precision);
            assert(2 * den * pow2(precision) > den * pow2(precision)) by (nonlinear_arith)
                requires
                    den > 0,
                    pow2(precision) > 0,
            ;
        }
        1 + least_exponent(num, 2 * den, precision)
    }
}

/// The number of the format that is nearest to `num / den` units, the one with the even
/// mantissa where two are equally near, and infinity where the exponent would be too large.
pub open spec fn rounded(negative: bool, num: nat, den: nat, format: Format) -> Number {
    let exponent = least_exponent(num, den, format.precision as nat);
    let mantissa = nearest_even(num, den * pow2(exponent));
    let carried = mantissa == pow2(format.precision as nat);
    let exponent = if carried {
        exponent + 1
    } else {
        exponent
    };
    let mantissa = if carried {
        pow2((format.precision - 1) as nat)
    } else {
        mantissa
    };
    if exponent > format.top {
        Number::Infinity { negative }
    } else {
        Number::Finite { negative, mantissa: mantissa as u64, exponent: exponent as u32 }
    }
}

/// `w * 2^k` as a fraction: its numerator.
pub open spec fn dyadic_num(w: nat, k: int) -> nat {
    if k >= 0 {
        w * pow2(k as nat)
    } else {
        w
    }
}

/// `w * 2^k` as a fraction: its denominator.
pub open spec fn dyadic_den(k: int) -> nat {
    if k >= 0 {
        1
    } else {
        pow2((-k) as nat)
    }
}

/// The exponent is the only one with `num < den * 2^(precision + e)` that is zero or too small
/// by one for it.
pub proof fn lemma_least_exponent(num: nat, den: nat, precision: nat, e: nat)
    requires
        den > 0,
        num < den * pow2(precision + e),
        e == 0 || num >= den * pow2((precision + e - 1) as nat),
    ensures
        least_exponent(num, den, precision) == e,
    decreases e,
{
    if e > 0 {
        lemma_pow2_adds(precision, (e - 1) as nat);
        lemma_pow2_pos((e - 1) as nat);
        lemma_pow2_pos(precision);
        assert(den * pow2((precision + e - 1) as nat) >= den * pow2(precision))
            by (nonlinear_arith)
            requires
                pow2((precision + e - 1) as nat) == pow2(precision) * pow2((e - 1) as nat),
                pow2((e - 1) as nat) > 0,
                pow2(precision) > 0,
        ;
        lemma_pow2_unfold(precision + e);
        lemma_mul_is_associative(den as int, 2, pow2((precision + e - 1) as nat) as int);
        lemma_mul_is_commutative(den as int, 2);
        assert(num < 2 * den * pow2((precision + (e - 1)) as nat));
        if e > 1 {
            lemma_pow2_unfold((precision + e - 1) as nat);
            lemma_mul_is_associative(den as int, 2, pow2((precision + e - 2) as nat) as int);
        }
        lemma_least_exponent(num, 2 * den, precision, (e - 1) as nat);
    }
}

/// Powers of two that fit in 128 bits.
pub proof fn lemma_pow2_bounds()
    ensures
        pow2(0) == 1,
        pow2(1) == 2,
        pow2(126) == 0x4000_0000_0000_0000_0000_0000_0000_0000,
        pow2(127) == 0x8000_0000_0000_0000_0000_0000_0000_0000,
{
    vstd::arithmetic::power2::lemma2_to64();
    vstd::arithmetic::power2::lemma2_to64_rest();
    lemma_pow2_adds(63, 63);
    lemma_pow2_adds(63, 64);
}

/// A larger exponent does not make a power of two smaller.
pub proof fn lemma_pow2_monotonic(a: nat, b: nat)
    requires
        a <= b,
    ensures
        pow2(a) <= pow2(b),
{
    if a < b {
        lemma_pow2_strictly_increases(a, b);
    }
}

/// Scaling numerator and denominator alike changes nothing.
pub proof fn lemma_nearest_even_scaled(num: nat, den: nat, c: nat)
    requires
        den > 0,
        c > 0,
    ensures
        nearest_even(num * c, den * c) == nearest_even(num, den),
{
    let q = (num / den) as int;
    let r = (num % den) as int;
    lemma_fundamental_div_mod(num as int, den as int);
    assert(0 <= r < den);
    assert(num * c == q * (den * c) + r * c && 0 <= r * c < den * c) by (nonlinear_arith)
        requires
            num == den * q + r,
            0 <= r < den,
            c > 0,
    ;
    lemma_fundamental_div_mod_converse((num * c) as int, (den * c) as int, q, r * c);
    assert((2 * (r * c) > den * c) == (2 * r > den)) by (nonlinear_arith)
        requires
            c > 0,
    ;
    assert((2 * (r * c) == den * c) == (2 * r == den)) by (nonlinear_arith)
        requires
            c > 0,
    ;
}

/// `2^n` for an exponent that fits.
pub fn power_of_two(n: u32) -> (r: u128)
    requires
        n <= 127,
    ensures
        r == pow2(n as nat),
{
    let mut r: u128 = 1;
    let mut i: u32 = 0;
    proof {
        lemma_pow2_bounds();
    }
    while i < n
        invariant
            i <= n <= 127,
            r == pow2(i as nat),
        decreases n - i,
    {
        proof {
            lemma_pow2_bounds();
            lemma_pow2_unfold((i + 1) as nat);
            lemma_pow2_monotonic((i + 1) as nat, 127);
        }
        r = r * 2;
        i = i + 1;
    }
    r
}

/// How many bits `w` has.
pub fn bit_length(w: u128) -> (n: u32)
    requires
        w < pow2(127),
    ensures
        n <= 127,
        w < pow2(n as nat),
        n > 0 ==> pow2((n - 1) as nat) <= w,
{
    let mut n: u32 = 0;
    let mut power: u128 = 1;
    proof {
        lemma_pow2_bounds();
    }
    while power <= w
        invariant
            n <= 127,
            w < pow2(127),
            power == pow2(n as nat),
            n > 0 ==> pow2((n - 1) as nat) <= w,
        decreases 127 - n,
    {
        proof {
            lemma_pow2_bounds();
            if n == 127 {
                assert(false);
            }
            lemma_pow2_unfold((n + 1) as nat);
            lemma_pow2_monotonic((n + 1) as nat, 127);
        }
        power = power * 2;
        n = n + 1;
    }
    n
}

/// What a number of `n` bits, times `2^k`, lies below.
proof fn lemma_dyadic_below(w: nat, k: int, n: nat, t: nat)
    requires
        w < pow2(n),
        n + k <= t,
    ensures
        dyadic_num(w, k) < dyadic_den(k) * pow2(t),
{
    if k >= 0 {
        lemma_pow2_pos(k as nat);
        lemma_mul_strict_inequality(w as int, pow2(n) as int, pow2(k as nat) as int);
        lemma_pow2_adds(n, k as nat);
        lemma_pow2_monotonic(n + k as nat, t);
        assert(dyadic_den(k) * pow2(t) == pow2(t)) by (nonlinear_arith)
            requires
                dyadic_den(k) == 1,
        ;
    } else {
        lemma_pow2_adds((-k) as nat, t);
        lemma_pow2_monotonic(n, (-k) as nat + t);
    }
}

/// What a number of more than `n` bits, times `2^k`, reaches.
proof fn lemma_dyadic_reaches(w: nat, k: int, n: nat, t: nat)
    requires
        w >= pow2(n),
        n + k == t,
    ensures
        dyadic_num(w, k) >= dyadic_den(k) * pow2(t),
{
    if k >= 0 {
        lemma_pow2_pos(k as nat);
        lemma_mul_inequality(pow2(n) as int, w as int, pow2(k as nat) as int);
        lemma_pow2_adds(n, k as nat);
        assert(dyadic_den(k) * pow2(t) == pow2(t)) by (nonlinear_arith)
            requires
                dyadic_den(k) == 1,
        ;
    } else {
        lemma_pow2_adds((-k) as nat, t);
        assert((-k) as nat + t == n);
    }
}

/// Cutting `w * 2^k` off at an exponent above `k` is cutting `w` off.
proof fn lemma_dyadic_nearest(w: nat, k: int, e: nat)
    requires
        e > k,
    ensures
        nearest_even(dyadic_num(w, k), dyadic_den(k) * pow2(e)) == nearest_even(
            w,
            pow2((e - k) as nat),
        ),
{
    lemma_pow2_pos((e - k) as nat);
    if k >= 0 {
        lemma_pow2_pos(k as nat);
        lemma_pow2_adds((e - k) as nat, k as nat);
        lemma_nearest_even_scaled(w, pow2((e - k) as nat), pow2(k as nat));
        assert((e - k) as nat + k as nat == e);
        assert(dyadic_den(k) * pow2(e) == pow2(e)) by (nonlinear_arith)
            requires
                dyadic_den(k) == 1,
        ;
    } else {
        lemma_pow2_adds((-k) as nat, e);
        assert((-k) as nat + e == (e - k) as nat);
    }
}

/// An exponent up to `k` cuts nothing of `w * 2^k` off.
proof fn lemma_dyadic_exact(w: nat, k: int, e: nat)
    requires
        e <= k,
    ensures
        nearest_even(dyadic_num(w, k), dyadic_den(k) * pow2(e)) == w * pow2((k - e) as nat),
{
    lemma_pow2_pos(e);
    lemma_pow2_pos((k - e) as nat);
    lemma_pow2_adds((k - e) as nat, e);
    lemma_mul_is_associative(w as int, pow2((k - e) as nat) as int, pow2(e) as int);
    let q = (w * pow2((k - e) as nat)) as int;
    assert((k - e) as nat + e == k as nat);
    assert(dyadic_den(k) * pow2(e) == pow2(e)) by (nonlinear_arith)
        requires
            dyadic_den(k) == 1,
    ;
    lemma_fundamental_div_mod_converse(dyadic_num(w, k) as int, pow2(e) as int, q, 0);
}

/// Rounds `w * 2^k` units.
pub fn round_dyadic(negative: bool, w: u128, k: i32, format: Format) -> (r: Number)
    requires
        format.wf(),
        w < pow2(127),
        -10000 <= k <= 10000,
    ensures
        r == rounded(negative, dyadic_num(w as nat, k as int), dyadic_den(k as int), format),
        r.fits(format),
{
    let precision: i32 = format.precision as i32;
    let ghost p = format.precision as nat;
    let ghost num = dyadic_num(w as nat, k as int);
    let ghost den = dyadic_den(k as int);
    proof {
        lemma_pow2_bounds();
        lemma_pow2_pos(p);
        lemma_pow2_pos((p - 1) as nat);
        lemma_pow2_unfold(p);
        lemma_pow2_monotonic(p, 63);
        lemma_pow2_monotonic((p - 1) as nat, p);
        vstd::arithmetic::power2::lemma2_to64_rest();
        if k < 0 {
            lemma_pow2_pos((-k) as nat);
        }
    }
    if w == 0 {
        proof {
            lemma_mul_strictly_positive(den as int, pow2(p) as int);
            if k >= 0 {
                vstd::arithmetic::mul::lemma_mul_basics(pow2(k as nat) as int);
            }
            lemma_mul_strictly_positive(den as int, pow2(0) as int);
            lemma_fundamental_div_mod_converse(0, (den * pow2(0)) as int, 0, 0);
            assert(num == 0);
            lemma_least_exponent(num, den, p, 0);
        }
        return Number::Finite { negative, mantissa: 0, exponent: 0 };
    }
    let n: i32 = bit_length(w) as i32;
    let e: i32 = if k + n > precision {
        k + n - precision
    } else {
        0
    };
    proof {
        lemma_dyadic_below(w as nat, k as int, n as nat, (p + e) as nat);
        if e > 0 {
            lemma_dyadic_reaches(w as nat, k as int, (n - 1) as nat, (p + e - 1) as nat);
        }
        lemma_least_exponent(num, den, p, e as nat);
    }
    let shift: i32 = e - k;
    let mantissa: u64;
    if shift <= 0 {
        let scale: u128 = power_of_two((-shift) as u32);
        proof {
            lemma_dyadic_exact(w as nat, k as int, e as nat);
            lemma_pow2_pos((-shift) as nat);
            lemma_mul_strict_inequality(w as int, pow2(n as nat) as int, scale as int);
            lemma_pow2_adds(n as nat, (-shift) as nat);
            lemma_pow2_monotonic((n - shift) as nat, p);
            if e > 0 {
                lemma_mul_inequality(pow2((n - 1) as nat) as int, w as int, scale as int);
                lemma_pow2_adds((n - 1) as nat, (-shift) as nat);
            }
        }
        mantissa = (w * scale) as u64;
    } else if shift > n {
        proof {
            lemma_dyadic_nearest(w as nat, k as int, e as nat);
            lemma_pow2_unfold(shift as nat);
            lemma_pow2_monotonic(n as nat, (shift - 1) as nat);
            lemma_fundamental_div_mod_converse(w as int, pow2(shift as nat) as int, 0, w as int);
        }
        mantissa = 0;
    } else {
        let divisor: u128 = power_of_two(shift as u32);
        proof {
            lemma_pow2_pos(shift as nat);
        }
        let floor: u128 = w / divisor;
        let rest: u128 = w % divisor;
        proof {
            lemma_dyadic_nearest(w as nat, k as int, e as nat);
            lemma_fundamental_div_mod(w as int, divisor as int);
            lemma_pow2_adds((n - shift) as nat, shift as nat);
            lemma_pow2_monotonic((n - shift) as nat, p);
            assert(floor < pow2((n - shift) as nat)) by (nonlinear_arith)
                requires
                    w == divisor * floor + rest,
                    w < pow2(n as nat),
                    pow2(n as nat) == pow2((n - shift) as nat) * divisor,
                    rest >= 0,
                    divisor > 0,
            ;
            lemma_pow2_monotonic(shift as nat, 127);
            if e > 0 {
                lemma_pow2_adds((p - 1) as nat, shift as nat);
                assert(floor >= pow2((p - 1) as nat)) by (nonlinear_arith)
                    requires
                        w == divisor * floor + rest,
                        w >= pow2((n - 1) as nat),
                        pow2((n - 1) as nat) == pow2((p - 1) as nat) * divisor,
                        rest < divisor,
                        divisor > 0,
                ;
            }
        }
        if 2 * rest > divisor || (2 * rest == divisor && floor % 2 == 1) {
            mantissa = (floor + 1) as u64;
        } else {
            mantissa = floor as u64;
        }
    }
    let limit: u64 = power_of_two(format.precision) as u64;
    let (mantissa, e): (u64, i32) = if mantissa == limit {
        (mantissa / 2, e + 1)
    } else {
        (mantissa, e)
    };
    if e > format.top as i32 {
        Number::Infinity { negative }
    } else {
        Number::Finite { negative, mantissa, exponent: e as u32 }
    }
}

/// Scaling numerator and denominator alike does not change the rounded number.
proof fn lemma_rounded_scaled(negative: bool, num: nat, den: nat, c: nat, format: Format)
    requires
        den > 0,
        c > 0,
    ensures
        rounded(negative, num * c, den * c, format) == rounded(negative, num, den, format),
{
    let p = format.precision as nat;
    let e = least_exponent(num, den, p);
    lemma_least_exponent_bounds(num, den, p);
    lemma_pow2_pos(e);
    assert(den * c > 0) by (nonlinear_arith)
        requires
            den > 0,
            c > 0,
    ;
    let high = pow2(p + e);
    assert(num * c < (den * c) * high) by (nonlinear_arith)
        requires
            num < den * high,
            c > 0,
    ;
    if e > 0 {
        let low = pow2((p + e - 1) as nat);
        assert(num * c >= (den * c) * low) by (nonlinear_arith)
            requires
                num >= den * low,
                c > 0,
        ;
    }
    lemma_least_exponent(num * c, den * c, p, e);
    lemma_mul_strictly_positive(den as int, pow2(e) as int);
    lemma_nearest_even_scaled(num, den * pow2(e), c);
    assert((den * pow2(e)) * c == (den * c) * pow2(e)) by (nonlinear_arith);
}

/// The least exponent is large enough and not larger than that.
pub proof fn lemma_least_exponent_bounds(num: nat, den: nat, precision: nat)
    requires
        den > 0,
    ensures
        num < den * pow2(precision + least_exponent(num, den, precision)),
        least_exponent(num, den, precision) > 0 ==> num >= den * pow2(
            (precision + least_exponent(num, den, precision) - 1) as nat,
        ),
    decreases least_exponent(num, den, precision),
{
    let e = least_exponent(num, den, precision);
    if num >= den * pow2(precision) {
        lemma_least_exponent_bounds(num, 2 * den, precision);
        lemma_pow2_unfold(precision + e);
        lemma_mul_is_associative(den as int, 2, pow2((precision + e - 1) as nat) as int);
        lemma_mul_is_commutative(den as int, 2);
        if e > 1 {
            lemma_pow2_unfold((precision + e - 1) as nat);
            lemma_mul_is_associative(den as int, 2, pow2((precision + e - 2) as nat) as int);
        }
    }
}

/// Equal fractions round alike.
pub proof fn lemma_rounded_same_fraction(
    negative: bool,
    num1: nat,
    den1: nat,
    num2: nat,
    den2: nat,
    format: Format,
)
    requires
        den1 > 0,
        den2 > 0,
        num1 * den2 == num2 * den1,
    ensures
        rounded(negative, num1, den1, format) == rounded(negative, num2, den2, format),
{
    lemma_rounded_scaled(negative, num1, den1, den2, format);
    lemma_rounded_scaled(negative, num2, den2, den1, format);
    lemma_mul_is_commutative(den1 as int, den2 as int);
}

/// A number that changes by less than a quarter of its last place rounds to what it was.
pub proof fn lemma_rounded_absorbs(negative: bool, m: nat, e: nat, delta: int, format: Format)
    requires
        format.wf(),
        pow2((format.precision - 1) as nat) <= m < pow2(format.precision as nat),
        1 <= e <= format.top,
        -(pow2(e) as int) < 4 * delta < pow2(e),
        m * pow2(e) + delta >= 0,
    ensures
        rounded(negative, (m * pow2(e) + delta) as nat, 1, format) == (Number::Finite {
            negative,
            mantissa: m as u64,
            exponent: e as u32,
        }),
{
    let p = format.precision as nat;
    let num = (m * pow2(e) + delta) as nat;
    lemma_pow2_pos(e);
    lemma_pow2_pos((p - 1) as nat);
    lemma_pow2_unfold(p);
    lemma_pow2_unfold(e);
    lemma_pow2_adds(p, e);
    lemma_pow2_adds((p - 1) as nat, e);
    assert((p + e - 1) as nat == (p - 1) as nat + e);
    assert(num < pow2(p + e)) by (nonlinear_arith)
        requires
            num == m * pow2(e) + delta,
            m + 1 <= pow2(p),
            pow2(p + e) == pow2(p) * pow2(e),
            4 * delta < pow2(e),
            pow2(e) > 0,
    ;
    if delta >= 0 || m > pow2((p - 1) as nat) {
        assert(num >= pow2((p + e - 1) as nat)) by (nonlinear_arith)
            requires
                num == m * pow2(e) + delta,
                pow2((p + e - 1) as nat) == pow2((p - 1) as nat) * pow2(e),
                m >= pow2((p - 1) as nat),
                delta >= 0 || m >= pow2((p - 1) as nat) + 1,
                -(pow2(e) as int) < 4 * delta,
                pow2(e) > 0,
        ;
        lemma_least_exponent(num, 1, p, e);
        if delta >= 0 {
            lemma_mul_is_commutative(m as int, pow2(e) as int);
            lemma_fundamental_div_mod_converse(num as int, pow2(e) as int, m as int, delta);
        } else {
            assert(num == (m - 1) * pow2(e) + (pow2(e) + delta)) by (nonlinear_arith)
                requires
                    num == m * pow2(e) + delta,
            ;
            lemma_fundamental_div_mod_converse(
                num as int,
                pow2(e) as int,
                m - 1,
                pow2(e) + delta,
            );
        }
        assert(1 * pow2(e) == pow2(e));
    } else {
        let e1 = (e - 1) as nat;
        lemma_pow2_pos(e1);
        lemma_pow2_adds(p, e1);
        lemma_pow2_adds((p - 1) as nat, e1);
        lemma_pow2_unfold(p + e1);
        assert(p + e1 == (p - 1) as nat + e);
        assert(num < pow2(p + e1)) by (nonlinear_arith)
            requires
                num == m * pow2(e) + delta,
                m == pow2((p - 1) as nat),
                delta < 0,
                pow2(p + e1) == pow2((p - 1) as nat) * pow2(e),
        ;
        assert(num == (pow2(p) - 1) * pow2(e1) + (pow2(e1) + delta)) by (nonlinear_arith)
            requires
                num == m * pow2(e) + delta,
                m == pow2((p - 1) as nat),
                pow2(p) == 2 * pow2((p - 1) as nat),
                pow2(e) == 2 * pow2(e1),
        ;
        assert((p + e1 - 1) as nat == (p - 1) as nat + e1);
        assert(num >= pow2((p + e1 - 1) as nat)) by (nonlinear_arith)
            requires
                num == (pow2(p) - 1) * pow2(e1) + (pow2(e1) + delta),
                pow2((p + e1 - 1) as nat) == pow2((p - 1) as nat) * pow2(e1),
                pow2(p) == 2 * pow2((p - 1) as nat),
                pow2((p - 1) as nat) >= 1,
                pow2(e1) + delta >= 0,
                pow2(e1) > 0,
        ;
        lemma_least_exponent(num, 1, p, e1);
        lemma_fundamental_div_mod_converse(
            num as int,
            pow2(e1) as int,
            pow2(p) - 1,
            pow2(e1) + delta,
        );
        assert(1 * pow2(e1) == pow2(e1));
    }
}

} // verus!
