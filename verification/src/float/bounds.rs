//! How far rounding can take a number up or down.

use crate::float::real32::binary32;
use crate::float::real32::lemma_single_bits_of_number;
use crate::float::real64::binary64;
use crate::float::real64::lemma_bits_of_number;
use crate::float::real64::lemma_number_fits;
use crate::float::root::floor_root;
use crate::float::root::least_root_exponent;
use crate::float::root::nearest_root;
use crate::float::root::rounded_root;
use crate::float::rounding::least_exponent;
use crate::float::rounding::lemma_least_exponent_bounds;
use crate::float::rounding::lemma_pow2_monotonic;
use crate::float::rounding::magnitude;
use crate::float::rounding::nearest_even;
use crate::float::rounding::rounded;
use crate::float::rounding::Format;
use crate::float::rounding::Number;
use crate::float::Real32;
use crate::float::Real64;
use vstd::arithmetic::div_mod::lemma_fundamental_div_mod;
use vstd::arithmetic::div_mod::lemma_mod_bound;
use vstd::arithmetic::power2::lemma_pow2_adds;
use vstd::arithmetic::power2::lemma_pow2_pos;
use vstd::arithmetic::power2::lemma_pow2_unfold;
use vstd::arithmetic::power2::pow2;
use vstd::prelude::*;

verus! {

/// The nearest integer is off by at most a half.
proof fn lemma_nearest_even_bounds(num: nat, den: nat)
    requires
        den > 0,
    ensures
        2 * (nearest_even(num, den) * den) <= 2 * num + den,
        2 * num <= 2 * (nearest_even(num, den) * den) + den,
{
    let floor = num / den;
    let rest = num % den;
    lemma_fundamental_div_mod(num as int, den as int);
    lemma_mod_bound(num as int, den as int);
    assert(num == floor * den + rest) by (nonlinear_arith)
        requires
            num == den * floor + rest,
    ;
    assert((floor + 1) * den == floor * den + den) by (nonlinear_arith);
}

/// What a rounded number is in units, before a full mantissa is carried into the exponent.
proof fn lemma_rounded_value(negative: bool, num: nat, den: nat, format: Format)
    requires
        den > 0,
        format.wf(),
    ensures
        ({
            let e = least_exponent(num, den, format.precision as nat);
            let n = nearest_even(num, den * pow2(e));
            &&& n <= pow2(format.precision as nat)
            &&& rounded(negative, num, den, format).fits(format)
            &&& rounded(negative, num, den, format) matches Number::Finite {
                negative: s,
                mantissa,
                exponent,
            } ==> s == negative && magnitude(mantissa as nat, exponent as nat) == n * pow2(e)
            &&& rounded(negative, num, den, format) matches Number::Infinity { negative: s } ==> s
                == negative && (e > format.top || (e == format.top && n == pow2(
                format.precision as nat,
            )))
            &&& rounded(negative, num, den, format) !is Nan
        }),
{
    let p = format.precision as nat;
    let k = pow2(p);
    let e = least_exponent(num, den, p);
    let d = den * pow2(e);
    let n = nearest_even(num, d);
    lemma_least_exponent_bounds(num, den, p);
    lemma_pow2_adds(p, e);
    lemma_pow2_pos(e);
    lemma_pow2_pos(p);
    assert(d > 0) by (nonlinear_arith)
        requires
            d == den * pow2(e),
            den > 0,
            pow2(e) > 0,
    ;
    lemma_nearest_even_bounds(num, d);
    assert(den * pow2(p + e) == k * d) by (nonlinear_arith)
        requires
            pow2(p + e) == k * pow2(e),
            d == den * pow2(e),
    ;
    assert(n <= k) by (nonlinear_arith)
        requires
            2 * (n * d) <= 2 * num + d,
            num < k * d,
            d > 0,
    ;
    if e > 0 {
        lemma_pow2_unfold(p);
        lemma_pow2_adds((p - 1) as nat, e);
        let half = pow2((p - 1) as nat);
        assert(half <= n) by (nonlinear_arith)
            requires
                2 * num <= 2 * (n * d) + d,
                num >= den * (half * pow2(e)),
                d == den * pow2(e),
                d > 0,
        ;
    }
    vstd::arithmetic::power2::lemma2_to64();
    vstd::arithmetic::power2::lemma2_to64_rest();
    lemma_pow2_monotonic(p, 53);
    if n == k {
        lemma_pow2_unfold(p);
        lemma_pow2_unfold(e + 1);
        lemma_pow2_monotonic((p - 1) as nat, p);
        assert(pow2((p - 1) as nat) * pow2(e + 1) == k * pow2(e)) by (nonlinear_arith)
            requires
                k == 2 * pow2((p - 1) as nat),
                pow2(e + 1) == 2 * pow2(e),
        ;
    }
}

/// A rounded number is off by at most one part in `2^precision`, or by one unit where that is
/// more; and a number that is rounded to infinity is too large.
pub proof fn lemma_rounded_bounds(negative: bool, num: nat, den: nat, format: Format)
    requires
        den > 0,
        format.wf(),
    ensures
        rounded(negative, num, den, format) matches Number::Finite {
            negative: s,
            mantissa,
            exponent,
        } ==> {
            let v = magnitude(mantissa as nat, exponent as nat);
            let k = pow2(format.precision as nat);
            &&& s == negative
            &&& v * den * k <= num * (k + 1) + den * k
            &&& num * k <= v * den * k + num + den * k
        },
        rounded(negative, num, den, format) matches Number::Infinity { negative: s } ==> s
            == negative && num >= den * pow2((format.precision + format.top - 1) as nat),
        rounded(negative, num, den, format) !is Nan,
        rounded(negative, num, den, format).fits(format),
{
    let p = format.precision as nat;
    let k = pow2(p);
    let e = least_exponent(num, den, p);
    let f = pow2(e);
    let d = den * f;
    let n = nearest_even(num, d);
    lemma_rounded_value(negative, num, den, format);
    lemma_least_exponent_bounds(num, den, p);
    lemma_pow2_pos(e);
    lemma_pow2_pos(p);
    assert(d > 0) by (nonlinear_arith)
        requires
            d == den * f,
            den > 0,
            f > 0,
    ;
    lemma_nearest_even_bounds(num, d);
    let v = n * f;
    assert(v * den == n * d) by (nonlinear_arith)
        requires
            v == n * f,
            d == den * f,
    ;
    if e > 0 {
        lemma_pow2_unfold(e);
        lemma_pow2_adds(p, (e - 1) as nat);
        let half = pow2((e - 1) as nat);
        assert(d * k <= 2 * num) by (nonlinear_arith)
            requires
                d == den * f,
                f == 2 * half,
                num >= den * (k * half),
        ;
    } else {
        lemma_pow2_zero_value();
        assert(d == den) by (nonlinear_arith)
            requires
                d == den * f,
                f == 1,
        ;
    }
    assert(v * den * k <= num * (k + 1) + den * k) by (nonlinear_arith)
        requires
            2 * (v * den) <= 2 * num + d,
            d * k <= 2 * num || d == den,
            k > 0,
    ;
    assert(num * k <= v * den * k + num + den * k) by (nonlinear_arith)
        requires
            2 * num <= 2 * (v * den) + d,
            d * k <= 2 * num || d == den,
            k > 0,
    ;
    if rounded(negative, num, den, format) is Infinity {
        let top = format.top as nat;
        let limit = pow2((p + top - 1) as nat);
        if e > top {
            lemma_pow2_monotonic((p + top - 1) as nat, (p + e - 1) as nat);
            let reached = pow2((p + e - 1) as nat);
            assert(num >= den * limit) by (nonlinear_arith)
                requires
                    num >= den * reached,
                    limit <= reached,
            ;
        } else {
            lemma_pow2_unfold(p);
            lemma_pow2_adds((p - 1) as nat, top);
            let half = pow2((p - 1) as nat);
            assert(num >= den * limit) by (nonlinear_arith)
                requires
                    2 * (n * d) <= 2 * num + d,
                    n == k,
                    k == 2 * half,
                    half >= 1,
                    d == den * f,
                    limit == half * f,
                    d > 0,
            ;
        }
    }
}

/// The first power of two.
proof fn lemma_pow2_zero_value()
    ensures
        pow2(0) == 1,
{
    vstd::arithmetic::power2::lemma2_to64();
}

/// The floor of a root is the floor of the root.
proof fn lemma_floor_root_bounds(n: nat)
    ensures
        floor_root(n) * floor_root(n) <= n,
        n < (floor_root(n) + 1) * (floor_root(n) + 1),
    decreases n,
{
    if n > 0 {
        lemma_floor_root_bounds((n - 1) as nat);
        let r = floor_root((n - 1) as nat);
        let s = floor_root(n);
        if (r + 1) * (r + 1) <= n {
            assert(s == r + 1);
            assert(s * s <= n && n < (s + 1) * (s + 1)) by (nonlinear_arith)
                requires
                    s == r + 1,
                    (r + 1) * (r + 1) <= n,
                    n - 1 < (r + 1) * (r + 1),
            ;
        } else {
            assert(s == r);
        }
    } else {
        let s = floor_root(0);
        assert(s * s <= 0 && 0 < (s + 1) * (s + 1)) by (nonlinear_arith)
            requires
                s == 0,
        ;
    }
}

/// The least exponent of a root is large enough and not larger than that.
proof fn lemma_least_root_exponent_bounds(radicand: nat, precision: nat)
    ensures
        radicand < pow2(2 * (precision + least_root_exponent(radicand, precision))),
        least_root_exponent(radicand, precision) > 0 ==> radicand >= pow2(
            (2 * (precision + least_root_exponent(radicand, precision) - 1)) as nat,
        ),
    decreases least_root_exponent(radicand, precision),
{
    if radicand >= pow2(2 * precision) {
        lemma_least_root_exponent_bounds(radicand, precision + 1);
    }
}

/// The nearest integer to a root is above it by at most a half.
proof fn lemma_nearest_root_bounds(num: nat, den: nat)
    requires
        den > 0,
        nearest_root(num, den) > 0,
    ensures
        ({
            let n = nearest_root(num, den) as int;
            (2 * n - 1) * (2 * n - 1) * den <= 4 * num
        }),
        floor_root(num / den) <= nearest_root(num, den) <= floor_root(num / den) + 1,
{
    let q = num / den;
    let floor = floor_root(q);
    let n = nearest_root(num, den) as int;
    lemma_floor_root_bounds(q);
    lemma_fundamental_div_mod(num as int, den as int);
    lemma_mod_bound(num as int, den as int);
    if n == floor {
        let rest = num % den;
        assert((2 * n - 1) * (2 * n - 1) * den <= 4 * num) by (nonlinear_arith)
            requires
                n > 0,
                n * n <= q,
                num == den * q + rest,
                rest >= 0,
                den > 0,
        ;
    } else {
        assert(2 * n - 1 == 2 * floor + 1);
    }
}

/// A root that is rounded down is below the root by at most one unit of its last place.
proof fn lemma_root_from_below(
    radicand: nat,
    den: nat,
    f: nat,
    half: nat,
    n: nat,
    floor: nat,
    v: nat,
)
    requires
        den > 0,
        den == f * f,
        floor == floor_root(radicand / den),
        floor <= n,
        half <= n,
        v == n * f,
    ensures
        radicand * (half * half) <= v * v * ((half + 1) * (half + 1)),
{
    let q = radicand / den;
    let rest = radicand % den;
    lemma_floor_root_bounds(q);
    lemma_fundamental_div_mod(radicand as int, den as int);
    lemma_mod_bound(radicand as int, den as int);
    let next = floor + 1;
    let top = n + 1;
    assert(next * next <= top * top) by (nonlinear_arith)
        requires
            next <= top,
    ;
    let square = top * top;
    assert(radicand <= den * square) by (nonlinear_arith)
        requires
            radicand == den * q + rest,
            rest < den,
            q + 1 <= square,
            den > 0,
    ;
    let w = top * f;
    assert(den * square == w * w) by (nonlinear_arith)
        requires
            den == f * f,
            square == top * top,
            w == top * f,
    ;
    let a = w * half;
    let b = v * (half + 1);
    assert(a <= b) by (nonlinear_arith)
        requires
            a == w * half,
            b == v * (half + 1),
            w == (n + 1) * f,
            v == n * f,
            half <= n,
    {
        assert(w * half == n * f * half + f * half);
        assert(v * (half + 1) == n * f * half + n * f);
        assert(f * half <= n * f);
    }
    assert(a * a <= b * b) by (nonlinear_arith)
        requires
            0 <= a <= b,
    ;
    let h = half * half;
    assert(radicand * h <= (w * w) * h) by (nonlinear_arith)
        requires
            radicand <= w * w,
            h >= 0,
    ;
    assert((w * w) * h == a * a) by (nonlinear_arith)
        requires
            a == w * half,
            h == half * half,
    ;
    assert(b * b == v * v * ((half + 1) * (half + 1))) by (nonlinear_arith)
        requires
            b == v * (half + 1),
    ;
}

/// A rounded root is above the root by at most one part in `2^precision`; and a root that is
/// rounded to infinity is too large.
pub proof fn lemma_rounded_root_bounds(radicand: nat, format: Format)
    requires
        format.wf(),
        radicand >= pow2((2 * format.precision) as nat),
    ensures
        rounded_root(radicand, format) matches Number::Finite { negative, mantissa, exponent } ==> {
            let v = magnitude(mantissa as nat, exponent as nat);
            let k = pow2(format.precision as nat);
            let half = pow2((format.precision - 1) as nat);
            &&& !negative
            &&& v * v * ((k - 1) * (k - 1)) <= radicand * (k * k)
            &&& radicand * (half * half) <= v * v * ((half + 1) * (half + 1))
        },
        rounded_root(radicand, format) matches Number::Infinity { negative } ==> !negative
            && radicand >= pow2((2 * (format.precision + format.top - 1)) as nat),
        rounded_root(radicand, format) !is Nan,
        rounded_root(radicand, format).fits(format),
{
    let p = format.precision as nat;
    let k = pow2(p);
    let half = pow2((p - 1) as nat);
    let e = least_root_exponent(radicand, p);
    let f = pow2(e);
    let den = pow2(2 * e);
    let n = nearest_root(radicand, den);
    let q = radicand / den;
    let floor = floor_root(q);
    lemma_least_root_exponent_bounds(radicand, p);
    assert(e > 0) by {
        if e == 0 {
            assert(2 * (p + e) == 2 * p);
        }
    }
    lemma_pow2_pos(2 * e);
    lemma_pow2_pos(p);
    lemma_pow2_unfold(p);
    lemma_pow2_adds(e, e);
    assert(e + e == 2 * e);
    // The root before the point has its full number of bits.
    assert(half <= floor < k) by {
        lemma_floor_root_bounds(q);
        lemma_fundamental_div_mod(radicand as int, den as int);
        lemma_mod_bound(radicand as int, den as int);
        let low = pow2((2 * (p + e - 1)) as nat);
        let high = pow2(2 * (p + e));
        lemma_pow2_adds((p - 1) as nat, (p - 1) as nat);
        lemma_pow2_adds((2 * (p - 1)) as nat, 2 * e);
        lemma_pow2_adds(p, p);
        lemma_pow2_adds(2 * p, 2 * e);
        assert((p - 1) as nat + (p - 1) as nat == (2 * (p - 1)) as nat);
        assert((2 * (p - 1)) as nat + 2 * e == (2 * (p + e - 1)) as nat);
        assert(p + p == 2 * p);
        assert(2 * p + 2 * e == 2 * (p + e));
        let rest = radicand % den;
        assert(half * half <= q < k * k) by (nonlinear_arith)
            requires
                radicand == den * q + rest,
                0 <= rest < den,
                radicand >= (half * half) * den,
                radicand < (k * k) * den,
                den > 0,
        ;
        assert(half <= floor < k) by (nonlinear_arith)
            requires
                half * half <= q < k * k,
                floor * floor <= q,
                q < (floor + 1) * (floor + 1),
        ;
    }
    lemma_pow2_pos((p - 1) as nat);
    lemma_nearest_root_bounds(radicand, den);
    vstd::arithmetic::power2::lemma2_to64();
    vstd::arithmetic::power2::lemma2_to64_rest();
    lemma_pow2_monotonic(p, 53);
    let v = n * f;
    if n == k {
        lemma_pow2_unfold(e + 1);
        assert(half * pow2(e + 1) == v) by (nonlinear_arith)
            requires
                v == k * f,
                k == 2 * half,
                pow2(e + 1) == 2 * f,
        ;
    }
    let m = n as int;
    assert((2 * m) * (k - 1) <= (2 * m - 1) * k) by (nonlinear_arith)
        requires
            2 * m >= k,
    ;
    let a = (2 * m) * (k - 1);
    let b = (2 * m - 1) * k;
    assert(a * a <= b * b) by (nonlinear_arith)
        requires
            0 <= a <= b,
    ;
    assert(v * v * ((k - 1) * (k - 1)) <= radicand * (k * k)) by (nonlinear_arith)
        requires
            v == m * f,
            den == f * f,
            a == (2 * m) * (k - 1),
            b == (2 * m - 1) * k,
            a * a <= b * b,
            (2 * m - 1) * (2 * m - 1) * den <= 4 * radicand,
            den > 0,
    {
        assert(4 * (v * v * ((k - 1) * (k - 1))) == (a * a) * den);
        assert((a * a) * den <= (b * b) * den);
        assert((b * b) * den == ((2 * m - 1) * (2 * m - 1) * den) * (k * k));
        assert(((2 * m - 1) * (2 * m - 1) * den) * (k * k) <= 4 * radicand * (k * k));
    }
    lemma_root_from_below(radicand, den, f, half, n, floor, v);
    if rounded_root(radicand, format) is Infinity {
        lemma_pow2_monotonic(
            (2 * (format.precision + format.top - 1)) as nat,
            (2 * (p + e - 1)) as nat,
        );
    }
}

/// A number that is neither negative nor infinite nor not a number.
pub open spec fn is_length(value: Real64) -> bool {
    value.number() matches Number::Finite { negative, .. } && !negative
}

/// Rounding does not go past a number of the format.
pub proof fn lemma_rounded_keeps_order(
    negative: bool,
    num: nat,
    den: nat,
    format: Format,
    m: nat,
    x: nat,
)
    requires
        den > 0,
        format.wf(),
        m < pow2(format.precision as nat),
        x <= format.top,
    ensures
        num <= magnitude(m, x) * den ==> (rounded(
            negative,
            num,
            den,
            format,
        ) matches Number::Finite { mantissa, exponent, .. } && magnitude(
            mantissa as nat,
            exponent as nat,
        ) <= magnitude(m, x)),
        num >= magnitude(m, x) * den ==> (rounded(
            negative,
            num,
            den,
            format,
        ) matches Number::Finite { mantissa, exponent, .. } ==> magnitude(
            mantissa as nat,
            exponent as nat,
        ) >= magnitude(m, x)),
{
    let p = format.precision as nat;
    let k = pow2(p);
    let e = least_exponent(num, den, p);
    let f = pow2(e);
    let d = den * f;
    let n = nearest_even(num, d);
    let limit = magnitude(m, x);
    lemma_rounded_value(negative, num, den, format);
    lemma_least_exponent_bounds(num, den, p);
    lemma_pow2_pos(e);
    lemma_pow2_pos(x);
    lemma_pow2_pos(p);
    lemma_pow2_adds(p, x);
    assert(d > 0) by (nonlinear_arith)
        requires
            d == den * f,
            den > 0,
            f > 0,
    ;
    lemma_nearest_even_bounds(num, d);
    assert(limit < pow2(p + x)) by (nonlinear_arith)
        requires
            limit == m * pow2(x),
            m < k,
            pow2(p + x) == k * pow2(x),
            pow2(x) > 0,
    ;
    if x >= e {
        let j = m * pow2((x - e) as nat);
        lemma_pow2_adds((x - e) as nat, e);
        assert(limit == j * f) by (nonlinear_arith)
            requires
                limit == m * pow2(x),
                j == m * pow2((x - e) as nat),
                pow2(x) == pow2((x - e) as nat) * f,
        ;
        assert(limit * den == j * d) by (nonlinear_arith)
            requires
                limit == j * f,
                d == den * f,
        ;
        if num <= limit * den {
            assert(n <= j) by (nonlinear_arith)
                requires
                    2 * (n * d) <= 2 * num + d,
                    num <= j * d,
                    d > 0,
            ;
            assert(n * f <= j * f) by (nonlinear_arith)
                requires
                    n <= j,
            ;
        }
        if num >= limit * den {
            assert(j <= n) by (nonlinear_arith)
                requires
                    2 * num <= 2 * (n * d) + d,
                    num >= j * d,
                    d > 0,
            ;
            assert(j * f <= n * f) by (nonlinear_arith)
                requires
                    j <= n,
            ;
        }
    } else {
        let top = pow2((p + e - 1) as nat);
        lemma_pow2_monotonic(p + x, (p + e - 1) as nat);
        assert(limit * den < num) by (nonlinear_arith)
            requires
                limit < top,
                num >= den * top,
                den > 0,
        ;
        lemma_pow2_adds((p - 1) as nat, e);
        let half = pow2((p - 1) as nat);
        assert(half <= n) by (nonlinear_arith)
            requires
                2 * num <= 2 * (n * d) + d,
                num >= den * (half * f),
                d == den * f,
                d > 0,
        ;
        assert(n * f >= top) by (nonlinear_arith)
            requires
                half <= n,
                top == half * f,
        ;
    }
    if num <= limit * den && rounded(negative, num, den, format) is Infinity {
        lemma_pow2_monotonic(p + x, p + e);
        lemma_pow2_adds(p, e);
    }
}

/// How many units a number is away from zero.
pub open spec fn units(value: Real64) -> nat {
    match value.number() {
        Number::Finite { mantissa, exponent, .. } => magnitude(mantissa as nat, exponent as nat),
        _ => 0,
    }
}

/// A number has fewer units than infinity.
pub proof fn lemma_units_bound(value: Real64)
    ensures
        units(value) < pow2(2098),
{
    lemma_number_fits(value);
    match value.number() {
        Number::Finite { mantissa, exponent, .. } => {
            let m = mantissa as nat;
            let x = exponent as nat;
            lemma_pow2_adds(53, x);
            lemma_pow2_monotonic(53 + x, 2098);
            lemma_pow2_pos(x);
            assert(m * pow2(x) < pow2(53) * pow2(x)) by (nonlinear_arith)
                requires
                    m < pow2(53),
                    pow2(x) > 0,
            ;
        },
        _ => {
            lemma_pow2_pos(2098);
        },
    }
}

/// How far off a quotient is.
pub proof fn lemma_over_bounds(a: Real64, b: Real64)
    requires
        is_length(a),
        is_length(b),
        units(b) > 0,
    ensures
        is_length(a.over(b)) ==> units(a.over(b)) * units(b) * pow2(53) <= units(a) * pow2(1074) * (
        pow2(53) + 1) + units(b) * pow2(53),
        !is_length(a.over(b)) ==> a.over(b).number() == (Number::Infinity { negative: false })
            && units(a) * pow2(1074) >= units(b) * pow2(2097),
{
    reveal(Real64::spec_over);
    let num = units(a) * pow2(1074);
    assert(b.number()->mantissa != 0) by {
        if b.number()->mantissa == 0 {
            assert(0 * pow2(b.number()->exponent as nat) == 0) by (nonlinear_arith);
        }
    }
    lemma_rounded_bounds(false, num, units(b), binary64());
    lemma_bits_of_number(rounded(false, num, units(b), binary64()));
}

/// How far off a product is.
pub proof fn lemma_times_bounds(a: Real64, b: Real64)
    requires
        is_length(a),
        is_length(b),
    ensures
        is_length(a.times(b)) ==> {
            &&& units(a.times(b)) * pow2(1074) * pow2(53) <= units(a) * units(b) * (pow2(53) + 1)
                + pow2(1074) * pow2(53)
            &&& units(a) * units(b) * pow2(53) <= units(a.times(b)) * pow2(1074) * pow2(53) + units(
                a,
            ) * units(b) + pow2(1074) * pow2(53)
        },
        !is_length(a.times(b)) ==> a.times(b).number() == (Number::Infinity { negative: false })
            && units(a) * units(b) >= pow2(1074) * pow2(2097),
{
    reveal(Real64::spec_times);
    lemma_pow2_pos(1074);
    let num = units(a) * units(b);
    lemma_rounded_bounds(false, num, pow2(1074), binary64());
    lemma_bits_of_number(rounded(false, num, pow2(1074), binary64()));
}

/// How far above a root is.
pub proof fn lemma_root_bounds(a: Real64)
    requires
        is_length(a),
    ensures
        is_length(a.square_root()),
        units(a.square_root()) * units(a.square_root()) * ((pow2(53) - 1) * (pow2(53) - 1)) <= units(
            a,
        ) * pow2(1074) * (pow2(53) * pow2(53)),
        units(a) > 0 ==> units(a) * pow2(1074) * (pow2(52) * pow2(52)) <= units(a.square_root())
            * units(a.square_root()) * ((pow2(52) + 1) * (pow2(52) + 1)),
{
    reveal(Real64::spec_square_root);
    let radicand = units(a) * pow2(1074);
    let k = pow2(53);
    lemma_pow2_pos(1074);
    lemma_pow2_pos(a.number()->exponent as nat);
    if a.number()->mantissa == 0 {
        let x = a.number()->exponent as nat;
        assert(0 * pow2(x) == 0) by (nonlinear_arith);
        lemma_number_fits(a);
        lemma_bits_of_number(a.number());
        let v = units(a.square_root());
        assert(v * v * ((k - 1) * (k - 1)) <= units(a) * pow2(1074) * (k * k)) by (nonlinear_arith)
            requires
                v == 0,
                units(a) == 0,
        ;
    } else {
        let m = a.number()->mantissa as nat;
        let x = a.number()->exponent as nat;
        assert(m * pow2(x) >= 1) by (nonlinear_arith)
            requires
                m >= 1,
                pow2(x) >= 1,
        ;
        lemma_pow2_monotonic(106, 1074);
        assert(radicand >= pow2(1074)) by (nonlinear_arith)
            requires
                radicand == units(a) * pow2(1074),
                units(a) >= 1,
        ;
        lemma_rounded_root_bounds(radicand, binary64());
        lemma_units_bound(a);
        lemma_pow2_adds(2098, 1074);
        lemma_pow2_monotonic(3172, 4194);
        assert(radicand < pow2(4194)) by (nonlinear_arith)
            requires
                radicand == units(a) * pow2(1074),
                units(a) < pow2(2098),
                pow2(2098) * pow2(1074) <= pow2(4194),
                pow2(1074) > 0,
        ;
        lemma_bits_of_number(rounded_root(radicand, binary64()));
    }
}

/// A number between a quarter and four that is multiplied by a number between one and two and
/// divided by it again is off by less than one part in `2^22`.
pub proof fn lemma_scaled_and_back(factor: Real32, value: Real32)
    requires
        factor.number() matches Number::Finite { negative, mantissa, exponent } && !negative
            && pow2(149) <= magnitude(mantissa as nat, exponent as nat) <= 2 * pow2(149),
        value.number() matches Number::Finite { negative, mantissa, exponent } && !negative
            && pow2(147) <= magnitude(mantissa as nat, exponent as nat) <= 4 * pow2(149),
    ensures
        factor.times(value).over(factor).number() matches Number::Finite {
            negative,
            mantissa,
            exponent,
        } && ({
            let before = magnitude(value.number()->mantissa as nat, value.number()->exponent as nat);
            let after = magnitude(mantissa as nat, exponent as nat);
            &&& !negative
            &&& (after - before) * 0x40_0000 <= before
            &&& (before - after) * 0x40_0000 <= before
        }),
{
    reveal(Real32::spec_times);
    reveal(Real32::spec_over);
    vstd::arithmetic::power2::lemma2_to64();
    vstd::arithmetic::power2::lemma2_to64_rest();
    lemma_pow2_monotonic(64, 147);
    lemma_pow2_monotonic(64, 149);
    lemma_pow2_adds(149, 8);
    lemma_pow2_monotonic(157, 276);
    let u = pow2(149);
    let c = magnitude(factor.number()->mantissa as nat, factor.number()->exponent as nat);
    let z = magnitude(value.number()->mantissa as nat, value.number()->exponent as nat);
    let limit = pow2(276);
    let a = c * z;
    assert(a <= 8 * (u * u)) by (nonlinear_arith)
        requires
            a == c * z,
            c <= 2 * u,
            z <= 4 * u,
    ;
    let product = rounded(false, a, u, binary32());
    lemma_rounded_bounds(false, a, u, binary32());
    lemma_single_bits_of_number(product);
    if product is Infinity {
        assert(false) by (nonlinear_arith)
            requires
                a >= u * limit,
                limit >= u * 256,
                a <= 8 * (u * u),
                u > 0,
        ;
    }
    assert(factor.times(value).number() == product);
    let p = magnitude(product->mantissa as nat, product->exponent as nat);
    let b = p * u;
    assert(b * 0x100_0000 <= a * 0x100_0001 + u * 0x100_0000);
    assert(a * 0x100_0000 <= b * 0x100_0000 + a + u * 0x100_0000);
    assert(factor.number()->mantissa != 0) by {
        if factor.number()->mantissa == 0 {
            assert(0 * pow2(factor.number()->exponent as nat) == 0) by (nonlinear_arith);
        }
    }
    let quotient = rounded(false, b, c, binary32());
    lemma_rounded_bounds(false, b, c, binary32());
    lemma_single_bits_of_number(quotient);
    assert(u * 16777216 <= u * u) by (nonlinear_arith)
        requires
            u >= 16777216,
    ;
    if quotient is Infinity {
        assert(b <= 16 * (u * u));
        assert(false) by (nonlinear_arith)
            requires
                b >= c * limit,
                c >= u,
                limit >= u * 256,
                b <= 16 * (u * u),
                u > 0,
        ;
    }
    let v = magnitude(quotient->mantissa as nat, quotient->exponent as nat);
    let d = v * c;
    assert(d * 0x100_0000 <= b * 0x100_0001 + c * 0x100_0000);
    assert(b * 0x100_0000 <= d * 0x100_0000 + b + c * 0x100_0000);
    assert(c * 0x1000_0000_0000 <= a) by (nonlinear_arith)
        requires
            a == c * z,
            z >= 0x1000_0000_0000,
    ;
    assert((d - a) * 0x40_0000 <= a && (a - d) * 0x40_0000 <= a) by (nonlinear_arith)
        requires
            b * 0x100_0000 <= a * 0x100_0001 + u * 0x100_0000,
            a * 0x100_0000 <= b * 0x100_0000 + a + u * 0x100_0000,
            d * 0x100_0000 <= b * 0x100_0001 + c * 0x100_0000,
            b * 0x100_0000 <= d * 0x100_0000 + b + c * 0x100_0000,
            u <= c,
            c * 0x1000_0000_0000 <= a,
    ;
    assert((v - z) * 0x40_0000 <= z && (z - v) * 0x40_0000 <= z) by (nonlinear_arith)
        requires
            (d - a) * 0x40_0000 <= a,
            (a - d) * 0x40_0000 <= a,
            d == v * c,
            a == c * z,
            c > 0,
    ;
}

} // verus!
