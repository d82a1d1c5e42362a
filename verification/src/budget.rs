//! Pictures of pages are never larger than they may be.

use crate::float::bounds::is_length;
use crate::float::bounds::lemma_over_bounds;
use crate::float::bounds::lemma_root_bounds;
use crate::float::bounds::lemma_times_bounds;
use crate::float::bounds::lemma_units_bound;
use crate::float::bounds::units;
use crate::float::ordering::whole;
use crate::float::real64::binary64;
use crate::float::real64::lemma_bits_of_number;
use crate::float::rounding::lemma_pow2_monotonic;
use crate::float::rounding::magnitude;
use crate::float::rounding::Number;
use crate::float::Real32;
use crate::float::Real64;
use crate::geometry::key_for;
use crate::geometry::pixels;
use crate::geometry::shrinking;
use crate::geometry::Vector;
use crate::geometry::MAX_RENDER_PIXELS;
use crate::geometry::MAX_TEXTURE_SIDE;
use vstd::arithmetic::div_mod::lemma_fundamental_div_mod;
use vstd::arithmetic::div_mod::lemma_mod_bound;
use vstd::arithmetic::power2::lemma_pow2_adds;
use vstd::arithmetic::power2::lemma_pow2_pos;
use vstd::arithmetic::power2::pow2;
use vstd::prelude::*;

verus! {

/// One.
spec fn one() -> Real64 {
    Real64 { bits: 0x3ff0_0000_0000_0000 }
}

/// The longest side.
spec fn side() -> Real64 {
    Real64 { bits: MAX_TEXTURE_SIDE }
}

/// The largest number of pixels.
spec fn budget() -> Real64 {
    Real64 { bits: MAX_RENDER_PIXELS }
}

/// The limits in units.
proof fn lemma_limits()
    ensures
        pow2(53) == 9007199254740992,
        pow2(1074) >= 0x1_0000_0000_0000_0000,
        pow2(1074) * pow2(1074) == pow2(2148),
        pow2(2148) == pow2(2098) * 0x4_0000_0000_0000,
        is_length(one()) && units(one()) == pow2(1074),
        is_length(side()) && units(side()) == 8192 * pow2(1074),
        is_length(budget()) && units(budget()) == 24_000_000 * pow2(1074),
{
    vstd::arithmetic::power2::lemma2_to64();
    vstd::arithmetic::power2::lemma2_to64_rest();
    lemma_pow2_monotonic(64, 1074);
    lemma_pow2_adds(1074, 1074);
    lemma_pow2_adds(2098, 50);
    lemma_pow2_adds(52, 1022);
    lemma_pow2_adds(52, 1035);
    lemma_pow2_adds(13, 1074);
    lemma_pow2_adds(28, 1046);
    assert(one().number() == (Number::Finite {
        negative: false,
        mantissa: 0x10_0000_0000_0000,
        exponent: 1022,
    }));
    assert(side().number() == (Number::Finite {
        negative: false,
        mantissa: 0x10_0000_0000_0000,
        exponent: 1035,
    }));
    assert(budget().number() == (Number::Finite {
        negative: false,
        mantissa: 6442450944000000,
        exponent: 1046,
    }));
    assert(6442450944000000 * pow2(1046) == 24_000_000 * (0x1000_0000 * pow2(1046)))
        by (nonlinear_arith);
}

/// The smaller of two lengths is one of them.
proof fn lemma_smaller_length(a: Real64, b: Real64)
    requires
        is_length(a),
        is_length(b),
    ensures
        is_length(a.smaller(b)),
        units(a.smaller(b)) <= units(a),
        units(a.smaller(b)) <= units(b),
{
    reveal(Real64::spec_less);
}

/// The longest side over a length of at least one is a length.
proof fn lemma_side_over(width: Real64)
    requires
        is_length(width),
        units(width) >= pow2(1074),
    ensures
        is_length(side().over(width)),
        units(side().over(width)) * units(width) * pow2(53) <= 8192 * pow2(1074) * pow2(1074) * (
        pow2(53) + 1) + units(width) * pow2(53),
{
    lemma_limits();
    lemma_pow2_pos(1074);
    lemma_over_bounds(side(), width);
    if !is_length(side().over(width)) {
        let u = pow2(1074);
        let w = units(width);
        vstd::arithmetic::power2::lemma2_to64();
        lemma_pow2_adds(1074, 14);
        lemma_pow2_monotonic(1088, 2097);
        assert(false) by (nonlinear_arith)
            requires
                8192 * u * u >= w * pow2(2097),
                w >= u,
                pow2(2097) >= u * 16384,
                u > 0,
        ;
    }
}

/// A length times a factor that brings it to at most the longest side.
proof fn lemma_shrunk_side(length: Real64, factor: Real64)
    requires
        is_length(length),
        is_length(factor),
        units(length) >= pow2(1074),
        units(factor) <= units(side().over(length)),
    ensures
        is_length(length.times(factor)),
        length.times(factor).to_usize() <= 8192,
        length.times(factor).to_usize() == whole(
            length.times(factor).number()->mantissa as nat,
            length.times(factor).number()->exponent as nat,
            binary64(),
        ),
        units(factor) * units(length) <= 8193 * (pow2(1074) * pow2(1074)),
{
    reveal(Real64::spec_to_usize);
    lemma_limits();
    lemma_side_over(length);
    lemma_units_bound(length);
    lemma_times_bounds(length, factor);
    let u = pow2(1074);
    let q = u * u;
    let w = units(length);
    let s = units(factor);
    let a = s * w;
    let limit = units(side().over(length));
    assert(a <= limit * w) by (nonlinear_arith)
        requires
            a == s * w,
            s <= limit,
    ;
    assert(a * 9007199254740992 <= 8192 * q * 9007199254740993 + w * 9007199254740992)
        by (nonlinear_arith)
        requires
            a <= limit * w,
            limit * w * 9007199254740992 <= 8192 * u * u * 9007199254740993 + w * 9007199254740992,
            q == u * u,
    ;
    assert(w * 0x4_0000_0000_0000 <= q);
    assert(u * 0x4_0000_0000_0000 <= q) by (nonlinear_arith)
        requires
            q == u * u,
            u >= 0x4_0000_0000_0000,
    ;
    assert(a * 0x4000_0000 <= q * 8796093022209) by (nonlinear_arith)
        requires
            a * 9007199254740992 <= 8192 * q * 9007199254740993 + w * 9007199254740992,
            w * 0x4_0000_0000_0000 <= q,
    ;
    assert(w * s == a) by (nonlinear_arith)
        requires
            a == s * w,
    ;
    let product = length.times(factor);
    if !is_length(product) {
        vstd::arithmetic::power2::lemma2_to64();
        lemma_pow2_adds(1074, 14);
        lemma_pow2_monotonic(1088, 2097);
        assert(false) by (nonlinear_arith)
            requires
                a >= u * pow2(2097),
                pow2(2097) >= u * 16384,
                a * 0x4000_0000 <= q * 8796093022209,
                q == u * u,
                u > 0,
        ;
    }
    let v = units(product);
    let b = v * u;
    assert(b * 9007199254740992 <= a * 9007199254740993 + u * 9007199254740992)
        by (nonlinear_arith)
        requires
            v * u * 9007199254740992 <= w * s * 9007199254740993 + u * 9007199254740992,
            w * s == a,
            b == v * u,
    ;
    assert(2 * b < 16385 * q);
    assert(2 * v < 16385 * u) by (nonlinear_arith)
        requires
            2 * (v * u) < 16385 * (u * u),
            u > 0,
    ;
    let m = product.number()->mantissa as nat;
    let x = product.number()->exponent as nat;
    let n = whole(m, x, binary64());
    lemma_fundamental_div_mod((2 * v + u) as int, (2 * u) as int);
    lemma_mod_bound((2 * v + u) as int, (2 * u) as int);
    let rest = (2 * v + u) as int % (2 * u) as int;
    assert(n <= 8192) by (nonlinear_arith)
        requires
            2 * v + u == (2 * u) * n + rest,
            rest >= 0,
            2 * v < 16385 * u,
            u > 0,
    ;
}

/// The product of two lengths of at least one is not much smaller than it should be.
proof fn lemma_area_lower(width: Real64, height: Real64)
    requires
        is_length(width),
        is_length(height),
        units(width) >= pow2(1074),
        units(height) >= pow2(1074),
        is_length(width.times(height)),
    ensures
        2 * units(width.times(height)) >= pow2(1074),
        units(width) * units(height) * 9007199254740991 <= units(width.times(height)) * pow2(1074)
            * 9007199254740992 + pow2(1074) * 9007199254740992,
{
    lemma_limits();
    lemma_times_bounds(width, height);
    let u = pow2(1074);
    let area = units(width) * units(height);
    let p = units(width.times(height));
    assert(area >= u * u) by (nonlinear_arith)
        requires
            area == units(width) * units(height),
            units(width) >= u,
            units(height) >= u,
    ;
    assert(2 * p >= u) by (nonlinear_arith)
        requires
            area * 9007199254740992 <= p * u * 9007199254740992 + area + u * 9007199254740992,
            area >= u * u,
            u >= 0x1_0000_0000_0000_0000,
    ;
}

/// The factor by which the number of pixels is brought down to the budget is not much larger
/// than it should be, where the number of pixels is not infinite.
proof fn lemma_finite_pixel_factor(width: Real64, height: Real64)
    requires
        is_length(width),
        is_length(height),
        units(width) >= pow2(1074),
        units(height) >= pow2(1074),
        is_length(width.times(height)),
    ensures
        is_length(budget().over(width.times(height)).square_root()),
        ({
            let r = units(budget().over(width.times(height)).square_root());
            let q = pow2(1074) * pow2(1074);
            r * r * (units(width) * units(height)) * 0x10_0000 <= q * q * 25165824000001
        }),
{
    lemma_limits();
    let u = pow2(1074);
    let q = u * u;
    let area = units(width) * units(height);
    let product = width.times(height);
    let share = budget().over(product);
    let root = share.square_root();
    let r = units(root);
    lemma_area_lower(width, height);
    lemma_units_bound(product);
    lemma_over_bounds(budget(), product);
    let p = units(product);
    if !is_length(share) {
        vstd::arithmetic::power2::lemma2_to64();
        lemma_pow2_adds(1074, 26);
        lemma_pow2_monotonic(1100, 2097);
        assert(false) by (nonlinear_arith)
            requires
                24_000_000 * u * u >= p * pow2(2097),
                2 * p >= u,
                pow2(2097) >= u * 67108864,
                u > 0,
        ;
    }
    lemma_root_bounds(share);
    let t = units(share);
    let d = t * p;
    // The share times the product is the budget.
    assert(d * 9007199254740992 <= 24_000_000 * q * 9007199254740993 + p * 9007199254740992)
        by (nonlinear_arith)
        requires
            t * p * 9007199254740992 <= 24_000_000 * u * u * 9007199254740993 + p
                * 9007199254740992,
            d == t * p,
            q == u * u,
    ;
    assert(p * 0x4_0000_0000_0000 <= q);
    assert(t * 0x1000_0000_0000_0000 <= d) by (nonlinear_arith)
        requires
            d == t * p,
            2 * p >= u,
            u >= 0x1_0000_0000_0000_0000,
    ;
    let e = d + t;
    assert(e * 0x40_0000 <= q * 100663296000001) by (nonlinear_arith)
        requires
            e == d + t,
            t * 0x1000_0000_0000_0000 <= d,
            d * 9007199254740992 <= 24_000_000 * q * 9007199254740993 + p * 9007199254740992,
            p * 0x4_0000_0000_0000 <= q,
    ;
    // The root times the root is the share.
    let k: int = 9007199254740992;
    let c = r * r;
    assert(c * ((k - 1) * (k - 1)) <= t * u * (k * k));
    assert(area * (k - 1) <= u * ((p + 1) * k)) by (nonlinear_arith)
        requires
            area * 9007199254740991 <= p * u * 9007199254740992 + u * 9007199254740992,
            k == 9007199254740992,
    ;
    let f = c * area;
    assert(f * ((k - 1) * (k - 1) * (k - 1)) <= q * e * (k * k * k)) by {
        let left = c * ((k - 1) * (k - 1));
        let right = t * u * (k * k);
        let left2 = area * (k - 1);
        let right2 = u * ((p + 1) * k);
        assert(left * left2 <= right * right2) by (nonlinear_arith)
            requires
                0 <= left <= right,
                0 <= left2 <= right2,
        ;
        assert(left * left2 == f * ((k - 1) * (k - 1) * (k - 1))) by (nonlinear_arith)
            requires
                left == c * ((k - 1) * (k - 1)),
                left2 == area * (k - 1),
                f == c * area,
        ;
        assert(right * right2 == q * e * (k * k * k)) by (nonlinear_arith)
            requires
                right == t * u * (k * k),
                right2 == u * ((p + 1) * k),
                q == u * u,
                e == d + t,
                d == t * p,
        ;
    }
    let g = q * e;
    assert(g * 0x40_0000 <= q * q * 100663296000001) by (nonlinear_arith)
        requires
            g == q * e,
            e * 0x40_0000 <= q * 100663296000001,
            q >= 0,
    ;
    assert(f * 0x10_0000 <= q * q * 25165824000001) by (nonlinear_arith)
        requires
            k == 9007199254740992,
            f * ((k - 1) * (k - 1) * (k - 1)) <= g * (k * k * k),
            g * 0x40_0000 <= q * q * 100663296000001,
            f >= 0,
            g >= 0,
            q * q >= 0,
    ;
    assert(r * r * area == f);
}

/// The factor by which the number of pixels is brought down to the budget is not much larger
/// than it should be.
proof fn lemma_pixel_factor(width: Real64, height: Real64)
    requires
        is_length(width),
        is_length(height),
        units(width) >= pow2(1074),
        units(height) >= pow2(1074),
    ensures
        is_length(budget().over(width.times(height)).square_root()),
        ({
            let r = units(budget().over(width.times(height)).square_root());
            let q = pow2(1074) * pow2(1074);
            r * r * (units(width) * units(height)) * 0x10_0000 <= q * q * 25165824000001
        }),
{
    let product = width.times(height);
    if is_length(product) {
        lemma_finite_pixel_factor(width, height);
    } else {
        let q = pow2(1074) * pow2(1074);
        let area = units(width) * units(height);
        let r = units(budget().over(product).square_root());
        lemma_times_bounds(width, height);
        lemma_infinite_pixel_factor(product);
        assert(r * r * area * 0x10_0000 <= q * q * 25165824000001) by (nonlinear_arith)
            requires
                r == 0,
        ;
    }
}

/// Where the number of pixels is infinite, the factor is zero.
proof fn lemma_infinite_pixel_factor(product: Real64)
    requires
        product.number() == (Number::Infinity { negative: false }),
    ensures
        is_length(budget().over(product).square_root()),
        units(budget().over(product).square_root()) == 0,
{
    lemma_limits();
    let share = budget().over(product);
    let u = pow2(1074);
    assert(share.number() == (Number::Finite { negative: false, mantissa: 0, exponent: 0 })) by {
        reveal(Real64::spec_over);
        vstd::arithmetic::power2::lemma2_to64_rest();
        lemma_bits_of_number(Number::Finite { negative: false, mantissa: 0, exponent: 0 });
    }
    assert(units(share) == 0) by {
        assert(0 * pow2(0) == 0) by (nonlinear_arith);
    }
    lemma_root_bounds(share);
    let r = units(share.square_root());
    assert(r == 0) by (nonlinear_arith)
        requires
            r * r * (9007199254740991 * 9007199254740991) <= 0 * u * (9007199254740992
                * 9007199254740992),
    ;
}

/// A picture that was made smaller by the factor for its number of pixels has not many more
/// pixels than it may have.
proof fn lemma_shrunk_area(width: Real64, height: Real64, factor: Real64)
    requires
        is_length(width),
        is_length(height),
        is_length(factor),
        units(width) >= pow2(1074),
        units(height) >= pow2(1074),
        units(factor) <= units(side().over(width)),
        units(factor) <= units(side().over(height)),
        units(factor) <= units(budget().over(width.times(height)).square_root()),
    ensures
        width.times(factor).to_usize() * height.times(factor).to_usize() <= 24_008_193,
{
    lemma_limits();
    lemma_pixel_factor(width, height);
    lemma_shrunk_side(width, factor);
    lemma_shrunk_side(height, factor);
    lemma_times_bounds(width, factor);
    lemma_times_bounds(height, factor);
    let u = pow2(1074);
    let q = u * u;
    let s = units(factor);
    let r = units(budget().over(width.times(height)).square_root());
    let x = units(width);
    let y = units(height);
    let a = s * x;
    let b = s * y;
    let f = a * b;
    assert(f * 0x10_0000 <= q * q * 25165824000001) by {
        let c = r * r;
        let d = s * s;
        let area = x * y;
        assert(d <= c) by (nonlinear_arith)
            requires
                d == s * s,
                c == r * r,
                s <= r,
        ;
        assert(f == d * area) by (nonlinear_arith)
            requires
                f == a * b,
                a == s * x,
                b == s * y,
                d == s * s,
                area == x * y,
        ;
        assert(f <= c * area) by (nonlinear_arith)
            requires
                f == d * area,
                d <= c,
                area >= 0,
        ;
    }
    let v = units(width.times(factor));
    let w = units(height.times(factor));
    let vu = v * u;
    let wu = w * u;
    let k: int = 9007199254740992;
    assert(vu * k <= a * (k + 1) + u * k) by (nonlinear_arith)
        requires
            v * u * k <= x * s * (k + 1) + u * k,
            a == s * x,
            vu == v * u,
    ;
    assert(wu * k <= b * (k + 1) + u * k) by (nonlinear_arith)
        requires
            w * u * k <= y * s * (k + 1) + u * k,
            b == s * y,
            wu == w * u,
    ;
    assert(u * 0x4_0000_0000_0000 <= q) by (nonlinear_arith)
        requires
            q == u * u,
            u >= 0x4_0000_0000_0000,
    ;
    let z = vu * wu;
    let ab = (a + b) * u;
    assert(z * (k * k) <= f * ((k + 1) * (k + 1)) + ab * (k * (k + 1)) + q * (k * k))
        by (nonlinear_arith)
        requires
            z == vu * wu,
            0 <= vu * k <= a * (k + 1) + u * k,
            0 <= wu * k <= b * (k + 1) + u * k,
            f == a * b,
            ab == (a + b) * u,
            q == u * u,
    {
        let left = a * (k + 1) + u * k;
        let right = b * (k + 1) + u * k;
        assert((vu * k) * (wu * k) <= left * right);
        assert((vu * k) * (wu * k) == z * (k * k));
        assert(left * right == f * ((k + 1) * (k + 1)) + ab * (k * (k + 1)) + q * (k * k));
    }
    let qq = q * q;
    assert(ab * 0x1_0000_0000 <= qq) by (nonlinear_arith)
        requires
            ab == (a + b) * u,
            a <= 8193 * q,
            b <= 8193 * q,
            u * 0x4_0000_0000_0000 <= q,
            qq == q * q,
    ;
    assert(q * 0x1_0000_0000 <= qq) by (nonlinear_arith)
        requires
            qq == q * q,
            u * 0x4_0000_0000_0000 <= q,
            u >= 1,
    ;
    assert(z <= qq * 24_000_001) by (nonlinear_arith)
        requires
            k == 9007199254740992,
            z * (k * k) <= f * ((k + 1) * (k + 1)) + ab * (k * (k + 1)) + q * (k * k),
            f * 0x10_0000 <= qq * 25165824000001,
            ab * 0x1_0000_0000 <= qq,
            q * 0x1_0000_0000 <= qq,
            qq >= 0,
    ;
    let area = v * w;
    assert(area <= q * 24_000_001) by (nonlinear_arith)
        requires
            z <= qq * 24_000_001,
            z == vu * wu,
            vu == v * u,
            wu == w * u,
            area == v * w,
            q == u * u,
            qq == q * q,
            u > 0,
    {
        assert(z == area * q);
    }
    lemma_whole_bound(width.times(factor));
    lemma_whole_bound(height.times(factor));
    let m = width.times(factor).to_usize() as int;
    let n = height.times(factor).to_usize() as int;
    assert(m * n <= 24_008_193) by {
        if m > 0 && n > 0 {
            let i = 2 * m - 1;
            let j = 2 * n - 1;
            assert((i * j) * q <= 4 * area) by (nonlinear_arith)
                requires
                    0 <= i * u <= 2 * v,
                    0 <= j * u <= 2 * w,
                    area == v * w,
                    q == u * u,
            {
                assert((i * u) * (j * u) <= (2 * v) * (2 * w));
                assert((i * u) * (j * u) == (i * j) * q);
            }
            assert(i * j <= 96_000_004) by (nonlinear_arith)
                requires
                    (i * j) * q <= 4 * area,
                    area <= q * 24_000_001,
                    q > 0,
            ;
            assert(i * j == 4 * (m * n) - 2 * m - 2 * n + 1) by (nonlinear_arith)
                requires
                    i == 2 * m - 1,
                    j == 2 * n - 1,
            ;
        } else {
            assert(m * n == 0) by (nonlinear_arith)
                requires
                    m == 0 || n == 0,
            ;
        }
    }
}

/// A rounded length is longer than the length by at most a half.
proof fn lemma_whole_bound(length: Real64)
    requires
        is_length(length),
        length.to_usize() == whole(
            length.number()->mantissa as nat,
            length.number()->exponent as nat,
            binary64(),
        ),
    ensures
        (2 * length.to_usize() - 1) * pow2(1074) <= 2 * units(length),
{
    lemma_pow2_pos(1074);
    let u = pow2(1074) as int;
    let v = units(length) as int;
    let n = length.to_usize() as int;
    lemma_fundamental_div_mod(2 * v + u, 2 * u);
    lemma_mod_bound(2 * v + u, 2 * u);
    let rest = (2 * v + u) % (2 * u);
    assert((2 * n - 1) * u <= 2 * v) by (nonlinear_arith)
        requires
            2 * v + u == (2 * u) * n + rest,
            rest >= 0,
    ;
}

/// A length in pixels is at least one, and may be infinite.
proof fn lemma_pixels(length: Real32, pixels_per_point: Real32)
    ensures
        ({
            let count = pixels(length, pixels_per_point);
            ||| count.number() == (Number::Infinity { negative: false })
            ||| is_length(count) && units(count) >= pow2(1074)
        }),
{
    lemma_limits();
    reveal(Real64::spec_less);
    lemma_pow2_pos(2098);
    let exact = length.times(pixels_per_point).widened();
    match exact.number() {
        Number::Finite { negative, mantissa, exponent } => {
            assert(magnitude(mantissa as nat, exponent as nat) >= 0);
        },
        _ => {},
    }
}

/// Where a side is infinite, the picture has no pixels.
proof fn lemma_infinite_side(width: Real64, height: Real64)
    requires
        width.number() == (Number::Infinity { negative: false }) || (is_length(width) && units(width)
            >= pow2(1074)),
        height.number() == (Number::Infinity { negative: false }) || (is_length(height) && units(
            height,
        ) >= pow2(1074)),
        !is_length(width) || !is_length(height),
    ensures
        is_length(shrinking(width, height)),
        units(shrinking(width, height)) == 0,
{
    lemma_limits();
    let zero = Number::Finite { negative: false, mantissa: 0, exponent: 0 };
    vstd::arithmetic::power2::lemma2_to64_rest();
    lemma_bits_of_number(zero);
    assert(0 * pow2(0) == 0) by (nonlinear_arith);
    assert(!is_length(width) ==> side().over(width).number() == zero) by {
        reveal(Real64::spec_over);
    }
    assert(!is_length(height) ==> side().over(height).number() == zero) by {
        reveal(Real64::spec_over);
    }
    if is_length(width) {
        lemma_side_over(width);
    }
    if is_length(height) {
        lemma_side_over(height);
    }
    let product = width.times(height);
    assert(product.number() == (Number::Infinity { negative: false })) by {
        reveal(Real64::spec_times);
        lemma_bits_of_number(Number::Infinity { negative: false });
        assert(is_length(width) ==> width.number()->mantissa != 0) by {
            if is_length(width) && width.number()->mantissa == 0 {
                assert(0 * pow2(width.number()->exponent as nat) == 0) by (nonlinear_arith);
            }
        }
        assert(is_length(height) ==> height.number()->mantissa != 0) by {
            if is_length(height) && height.number()->mantissa == 0 {
                assert(0 * pow2(height.number()->exponent as nat) == 0) by (nonlinear_arith);
            }
        }
    }
    lemma_infinite_pixel_factor(product);
    let root = budget().over(product).square_root();
    lemma_smaller_length(side().over(width), side().over(height));
    lemma_smaller_length(side().over(width).smaller(side().over(height)), one());
    lemma_smaller_length(root, one());
    lemma_smaller_length(
        side().over(width).smaller(side().over(height)).smaller(one()),
        root.smaller(one()),
    );
}

/// What is not a number, or infinite times nothing, is no pixels.
proof fn lemma_infinite_times_nothing(length: Real64, factor: Real64)
    requires
        length.number() == (Number::Infinity { negative: false }),
        is_length(factor),
        units(factor) == 0,
    ensures
        length.times(factor).to_usize() == 0,
{
    reveal(Real64::spec_times);
    reveal(Real64::spec_to_usize);
    lemma_bits_of_number(Number::Nan);
    let m = factor.number()->mantissa as nat;
    let x = factor.number()->exponent as nat;
    lemma_pow2_pos(x);
    assert(m == 0) by (nonlinear_arith)
        requires
            m * pow2(x) == 0,
            pow2(x) > 0,
    ;
}

/// However large a page is on the screen, a side of its picture has at most 8192 pixels, and the
/// picture has at most 24 million, and 8193 more for what is rounded up.
pub proof fn law_pictures_fit_the_budget(
    generation: u64,
    page_index: usize,
    display_size: Vector,
    pixels_per_point: Real32,
)
    ensures
        ({
            let size = key_for(generation, page_index, display_size, pixels_per_point).pixel_size;
            &&& size[0] <= 8192
            &&& size[1] <= 8192
            &&& size[0] * size[1] <= 24_008_193
        }),
{
    let width = pixels(display_size.x, pixels_per_point);
    let height = pixels(display_size.y, pixels_per_point);
    let factor = shrinking(width, height);
    lemma_limits();
    lemma_pixels(display_size.x, pixels_per_point);
    lemma_pixels(display_size.y, pixels_per_point);
    let size = key_for(generation, page_index, display_size, pixels_per_point).pixel_size;
    assert(size[0] == width.times(factor).to_usize());
    assert(size[1] == height.times(factor).to_usize());
    if is_length(width) && is_length(height) {
        let root = budget().over(width.times(height)).square_root();
        lemma_side_over(width);
        lemma_side_over(height);
        lemma_pixel_factor(width, height);
        lemma_smaller_length(side().over(width), side().over(height));
        lemma_smaller_length(side().over(width).smaller(side().over(height)), one());
        lemma_smaller_length(root, one());
        lemma_smaller_length(
            side().over(width).smaller(side().over(height)).smaller(one()),
            root.smaller(one()),
        );
        lemma_shrunk_side(width, factor);
        lemma_shrunk_side(height, factor);
        lemma_shrunk_area(width, height, factor);
    } else {
        lemma_infinite_side(width, height);
        if is_length(width) {
            lemma_side_over(width);
            lemma_shrunk_side(width, factor);
        } else {
            lemma_infinite_times_nothing(width, factor);
        }
        if is_length(height) {
            lemma_side_over(height);
            lemma_shrunk_side(height, factor);
        } else {
            lemma_infinite_times_nothing(height, factor);
        }
        assert(size[0] * size[1] == 0) by (nonlinear_arith)
            requires
                size[0] == 0 || size[1] == 0,
        ;
    }
}

} // verus!
