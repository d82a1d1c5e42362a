//! What holds of pictures and selections of pages, in real numbers.

use crate::annotations::NormalizedRect;
use crate::float::double;
use crate::float::exact::least;
use crate::float::exact::lemma_near_scaled;
use crate::float::exact::lemma_quotient;
use crate::float::exact::lemma_size_scaled;
use crate::float::exact::most;
use crate::float::exact::near;
use crate::float::exact::size;
use crate::float::exact::trace;
use crate::float::single;
use crate::float::Real32;
use crate::float::Real64;
use crate::geometry::laws::sliver;
use crate::pdf::Destination;
use crate::render::area_of;
use crate::render::close_up_plan;
use crate::render::fraction_of;
use crate::render::full_page_plan;
use crate::render::has_area;
use crate::render::overview_plan;
use crate::render::preview_plan;
use crate::render::preview_side;
use crate::render::region_rects;
use crate::render::surface_byte;
use crate::render::ByteOrder;
use crate::render::PointRect;
use vstd::arithmetic::power2::lemma2_to64;
use vstd::arithmetic::power2::lemma2_to64_rest;
use vstd::prelude::*;

verus! {

/// Whether a number is a fraction of a page or of a few pages.
pub open spec fn is_fraction(a: Real32) -> bool {
    a.is_finite() && size(a.value()) <= 4 as real
}

/// Whether a number is the length of a side of a page: positive, and between `2^-40` and `2^40`.
pub open spec fn is_page_side(a: Real64) -> bool {
    a.finite() && 1 as real <= a.value() * 0x100_0000_0000 as real && a.value()
        <= 0x100_0000_0000 as real
}

/// A fraction of a side of the page in points.
proof fn lemma_fraction_in_points(part: Real32, side: Real64, exact: real)
    requires
        part.is_finite(),
        near(exact, 0 as real, 12 as real),
        near(part.value(), exact, 1 as real / 1_050_000 as real),
        is_page_side(side),
    ensures
        part.widened().times(side).finite(),
        near(part.widened().times(side).value(), exact * side.value(), side.value() * sliver()),
{
    single::lemma_widened(part);
    let wide = part.widened();
    let w = side.value();
    let v = wide.value();
    let p = v * w;
    let e = 1 as real / 1_020_000 as real;
    assert(near(v, exact, e));
    assert(p - exact * w <= w * e && exact * w - p <= w * e && p <= 13 as real * w && 0 as real - p
        <= 13 as real * w) by (nonlinear_arith)
        requires
            p == v * w,
            v - exact <= e,
            exact - v <= e,
            v <= 13 as real,
            0 as real - v <= 13 as real,
            w > 0 as real,
    ;
    double::lemma_times_bounded(wide, side, 13 as real * w);
}

/// The area of a selection in points: it begins as many points from the left as its fraction of the
/// width of the page, and is as wide as its fraction of that width; its lower and upper edge are as
/// far from the lower edge of the page as their fractions of its height.
pub proof fn law_selections_cover_their_area(selection: NormalizedRect, page_size: [Real64; 2])
    requires
        is_fraction(selection.x) && is_fraction(selection.y),
        is_fraction(selection.width) && is_fraction(selection.height),
        is_page_side(page_size[0]) && is_page_side(page_size[1]),
    ensures
        ({
            let area = area_of(selection, page_size);
            let wide = page_size[0].value();
            let high = page_size[1].value();
            let x = selection.x.value();
            let y = selection.y.value();
            let width = selection.width.value();
            let height = selection.height.value();
            &&& area.x1.finite() && area.x2.finite() && area.y1.finite() && area.y2.finite()
            &&& near(area.x1.value(), x * wide, wide * sliver())
            &&& near(area.x2.value(), (x + width) * wide, wide * sliver())
            &&& near(area.y1.value(), (1 as real - y - height) * high, high * sliver())
            &&& near(area.y2.value(), (1 as real - y) * high, high * sliver())
            &&& near(area.x2.value() - area.x1.value(), width * wide, 2 as real * wide * sliver())
            &&& near(area.y2.value() - area.y1.value(), height * high, 2 as real * high * sliver())
        }),
{
    lemma2_to64();
    let one = Real32 { bits: 0x3f80_0000 };
    single::lemma_constant(one, 0x80_0000, 126, 23, 0x80_0000);
    let x = selection.x.value();
    let y = selection.y.value();
    let width = selection.width.value();
    let height = selection.height.value();
    let wide = page_size[0].value();
    let high = page_size[1].value();
    single::lemma_plus_bounded(selection.x, selection.width, 8 as real);
    single::lemma_minus_bounded(one, selection.y, 5 as real);
    let above = one.minus(selection.y);
    single::lemma_minus_bounded(above, selection.height, 10 as real);
    lemma_fraction_in_points(selection.x, page_size[0], x);
    lemma_fraction_in_points(selection.x.plus(selection.width), page_size[0], x + width);
    lemma_fraction_in_points(above.minus(selection.height), page_size[1], 1 as real - y - height);
    lemma_fraction_in_points(above, page_size[1], 1 as real - y);
    assert((x + width) * wide - x * wide == width * wide) by (nonlinear_arith);
    assert((1 as real - y) * high - (1 as real - y - height) * high == height * high)
        by (nonlinear_arith);
}

/// A selection that is wider and begins at the same place ends further to the right, and begins at
/// the same place of the page; one that is higher ends further below.
pub proof fn law_larger_selections_cover_more(
    a: NormalizedRect,
    b: NormalizedRect,
    page_size: [Real64; 2],
)
    requires
        is_fraction(a.x) && is_fraction(a.y) && is_fraction(a.width) && is_fraction(a.height),
        is_fraction(b.width) && is_fraction(b.height),
        a.x == b.x && a.y == b.y,
        is_page_side(page_size[0]) && is_page_side(page_size[1]),
    ensures
        ({
            let less = area_of(a, page_size);
            let more = area_of(b, page_size);
            &&& less.x1 == more.x1 && less.y2 == more.y2
            &&& b.width.value() - a.width.value() > 2 as real * sliver() ==> less.x2.value()
                < more.x2.value()
            &&& b.height.value() - a.height.value() > 2 as real * sliver() ==> more.y1.value()
                < less.y1.value()
        }),
{
    law_selections_cover_their_area(a, page_size);
    law_selections_cover_their_area(b, page_size);
    let x = a.x.value();
    let y = a.y.value();
    let wide = page_size[0].value();
    let high = page_size[1].value();
    if b.width.value() - a.width.value() > 2 as real * sliver() {
        let v = a.width.value();
        let w = b.width.value();
        assert((x + w) * wide - (x + v) * wide > 2 as real * (wide * sliver())) by (nonlinear_arith)
            requires
                w - v > 2 as real * sliver(),
                wide > 0 as real,
        ;
    }
    if b.height.value() - a.height.value() > 2 as real * sliver() {
        let v = a.height.value();
        let w = b.height.value();
        assert((1 as real - y - v) * high - (1 as real - y - w) * high > 2 as real * (high
            * sliver())) by (nonlinear_arith)
            requires
                w - v > 2 as real * sliver(),
                high > 0 as real,
        ;
    }
}

/// A picture has as many pixels as are asked for, but at least one.
pub proof fn law_pictures_have_their_size(page_size: [Real64; 2], pixel_size: [usize; 2])
    ensures
        ({
            let plan = full_page_plan(page_size, pixel_size);
            &&& plan.width >= 1 && plan.height >= 1
            &&& 1 <= pixel_size[0] <= i32::MAX ==> plan.width == pixel_size[0]
            &&& 1 <= pixel_size[1] <= i32::MAX ==> plan.height == pixel_size[1]
            &&& pixel_size[0] > i32::MAX ==> plan.width == i32::MAX
            &&& pixel_size[1] > i32::MAX ==> plan.height == i32::MAX
        }),
{
}

/// A number of pixels divided by a length, times that length.
proof fn lemma_pixels_per_length(pixels: i32, length: Real64)
    requires
        1 <= pixels,
        is_page_side(length),
    ensures
        ({
            let scale = Real64::from_i32(pixels).over(length);
            &&& scale.finite()
            &&& scale.value() > 0 as real
            &&& near(
                scale.value() * length.value(),
                pixels as real,
                pixels as real * (1 as real / 1_000_000_000 as real),
            )
        }),
{
    double::lemma_from_i32(pixels);
    let number = Real64::from_i32(pixels);
    let a = number.value();
    let w = length.value();
    let q = a / w;
    let bit = 1 as real / 4_000_000_000 as real;
    let n = pixels as real;
    assert(near(a, n, n * bit));
    lemma_quotient(a, w, 0x100_0000_0000 as real);
    double::lemma_over(number, length);
    let s = number.over(length).value();
    let t = trace();
    let d = size(q) * bit + t;
    assert(near(s, q, d));
    lemma_near_scaled(s, q, d, w);
    assert((size(q) * bit + t) * w == (size(q) * w) * bit + t
        * w) by (nonlinear_arith);
    let tw = t * w;
    assert(tw <= bit) by (nonlinear_arith)
        requires
            tw == t * w,
            w <= 0x100_0000_0000 as real,
            t * 0x100_0000_0000 as real <= bit,
            t > 0 as real,
    ;
    assert(s > 0 as real) by (nonlinear_arith)
        requires
            s * w > 0 as real,
            w > 0 as real,
    ;
}

/// A whole page fills its picture: at its scale each side of the page is as long as that of the
/// picture, and nothing is moved.
pub proof fn law_pages_fill_their_pictures(page_size: [Real64; 2], pixel_size: [usize; 2])
    requires
        is_page_side(page_size[0]) && is_page_side(page_size[1]),
    ensures
        ({
            let plan = full_page_plan(page_size, pixel_size);
            let wide = plan.width as real;
            let high = plan.height as real;
            &&& plan.scale_x.finite() && plan.scale_y.finite()
            &&& near(plan.scale_x.value() * page_size[0].value(), wide, wide * sliver())
            &&& near(plan.scale_y.value() * page_size[1].value(), high, high * sliver())
            &&& plan.shift_x.value() == 0 as real && plan.shift_y.value() == 0 as real
        }),
{
    double::lemma_zero();
    let plan = full_page_plan(page_size, pixel_size);
    lemma_pixels_per_length(plan.width, page_size[0]);
    lemma_pixels_per_length(plan.height, page_size[1]);
}

/// A side of the picture of a destination has as many pixels as points times the pixels per point
/// of the screen, which counts as one where it is less and as two where it is more.
pub proof fn law_preview_sides(points: i32, pixels_per_point: Real32)
    requires
        0 <= points <= 1000,
        pixels_per_point.is_finite(),
    ensures
        ({
            let density = least(most(pixels_per_point.value(), 1 as real), 2 as real);
            near(
                preview_side(points, pixels_per_point) as real,
                points as real * density,
                51 as real / 100 as real,
            )
        }),
{
    lemma2_to64();
    let one = Real32 { bits: 0x3f80_0000 };
    let two = Real32 { bits: 0x4000_0000 };
    single::lemma_constant(one, 0x80_0000, 126, 23, 0x80_0000);
    single::lemma_constant(two, 0x80_0000, 127, 22, 0x40_0000);
    single::lemma_clamped(pixels_per_point, one, two);
    let density = pixels_per_point.within(one, two);
    single::lemma_from_i32(points);
    let number = Real32::from_i32(points);
    let n = points as real;
    let a = number.value();
    let d = density.value();
    let e = 1 as real / 10_000 as real;
    assert(near(a, n, e));
    lemma_near_scaled(a, n, e, d);
    assert(n * d <= 2000 as real && n * d >= 0 as real && e * d <= 2 as real * e) by (nonlinear_arith)
        requires
            n <= 1000 as real,
            n >= 0 as real,
            d <= 2 as real,
            d >= 1 as real,
            e > 0 as real,
    ;
    single::lemma_times_bounded(number, density, 2001 as real);
    single::lemma_to_i32(number.times(density));
}

/// The whole page is in the middle of the picture of a destination that names no place: neither
/// side is longer than that of the picture, one is as long, and what is left is on both sides alike.
pub proof fn law_overviews_show_the_page(page_size: [Real64; 2], width: i32, height: i32)
    requires
        is_page_side(page_size[0]) && is_page_side(page_size[1]),
        1 <= width <= 0x10_0000,
        1 <= height <= 0x10_0000,
    ensures
        ({
            let plan = overview_plan(page_size, width, height);
            let wide = plan.scale_x.value() * page_size[0].value();
            let high = plan.scale_y.value() * page_size[1].value();
            &&& plan.width == width && plan.height == height
            &&& plan.scale_x == plan.scale_y
            &&& plan.shift_first
            &&& wide <= width as real + width as real * sliver()
            &&& high <= height as real + height as real * sliver()
            &&& near(wide, width as real, width as real * sliver()) || near(
                high,
                height as real,
                height as real * sliver(),
            )
            &&& near(2 as real * plan.shift_x.value() + wide, width as real, width as real * sliver())
            &&& near(
                2 as real * plan.shift_y.value() + high,
                height as real,
                height as real * sliver(),
            )
            &&& plan.scale_x.finite() && plan.shift_x.finite() && plan.shift_y.finite()
        }),
{
    lemma_pixels_per_length(width, page_size[0]);
    lemma_pixels_per_length(height, page_size[1]);
    let across = Real64::from_i32(width).over(page_size[0]);
    let down = Real64::from_i32(height).over(page_size[1]);
    double::lemma_larger_smaller(across, down);
    let scale = across.smaller(down);
    let s = scale.value();
    let w = page_size[0].value();
    let h = page_size[1].value();
    lemma_no_longer(s, across.value(), w);
    lemma_no_longer(s, down.value(), h);
    lemma_centred_side(width, page_size[0], scale);
    lemma_centred_side(height, page_size[1], scale);
}

/// A smaller scale makes a side no longer.
proof fn lemma_no_longer(s: real, t: real, w: real)
    requires
        s <= t,
        s > 0 as real,
        w > 0 as real,
    ensures
        s * w <= t * w,
        s * w > 0 as real,
{
    assert(s * w <= t * w) by (nonlinear_arith)
        requires
            s <= t,
            w > 0 as real,
    ;
    assert(s * w > 0 as real) by (nonlinear_arith)
        requires
            s > 0 as real,
            w > 0 as real,
    ;
}

/// One side of a page in the middle of a picture.
proof fn lemma_centred_side(pixels: i32, side: Real64, scale: Real64)
    requires
        1 <= pixels <= 0x10_0000,
        is_page_side(side),
        scale.finite(),
        scale.value() * side.value() > 0 as real,
        scale.value() * side.value() <= pixels as real + pixels as real / 1000 as real,
    ensures
        ({
            let shift = Real64::from_i32(pixels).minus(side.times(scale)).times(
                Real64 { bits: 0x3fe0_0000_0000_0000 },
            );
            &&& shift.finite()
            &&& near(
                2 as real * shift.value() + scale.value() * side.value(),
                pixels as real,
                pixels as real * sliver(),
            )
        }),
{
    lemma2_to64();
    lemma2_to64_rest();
    let half = Real64 { bits: 0x3fe0_0000_0000_0000 };
    double::lemma_constant(half, 0x10_0000_0000_0000, 1021, 53, 0x20_0000_0000_0000);
    let n = pixels as real;
    let w = side.value();
    let s = scale.value();
    assert(w * s == s * w) by (nonlinear_arith);
    double::lemma_times_bounded(side, scale, 2 as real * n);
    double::lemma_from_i32(pixels);
    let number = Real64::from_i32(pixels);
    let shown = side.times(scale);
    double::lemma_minus_bounded(number, shown, 4 as real * n);
    let rest = number.minus(shown);
    let r = rest.value();
    assert(r * half.value() == r / 2 as real) by (nonlinear_arith)
        requires
            half.value() == 1 as real / 2 as real,
    ;
    double::lemma_times_bounded(rest, half, 4 as real * n);
}

/// The bytes of a number.
proof fn lemma_bytes_of_word(a: u8, b: u8, c: u8, d: u8)
    ensures
        ({
            let word = a + 0x100 * b + 0x1_0000 * c + 0x100_0000 * d;
            &&& word % 0x100 == a
            &&& (word / 0x100) % 0x100 == b
            &&& (word / 0x1_0000) % 0x100 == c
            &&& word / 0x100_0000 == d
        }),
{
    let word = a + 0x100 * b + 0x1_0000 * c + 0x100_0000 * d;
    assert(word / 0x100 == b + 0x100 * c + 0x1_0000 * d);
    assert(word / 0x1_0000 == c + 0x100 * d);
}

/// The bytes of a pixel are one number of the machine with alpha, red, green and blue from the
/// highest byte down, and the picture has red, green, blue and alpha of it in this order.
pub proof fn law_colours_are_kept(data: Seq<u8>, stride: int, x: int, y: int)
    ensures
        ({
            let at = y * stride + x * 4;
            let word = data[at] + 0x100 * data[at + 1] + 0x1_0000 * data[at + 2] + 0x100_0000
                * data[at + 3];
            &&& surface_byte(data, stride, ByteOrder::Little, x, y, 0) == (word / 0x1_0000) % 0x100
            &&& surface_byte(data, stride, ByteOrder::Little, x, y, 1) == (word / 0x100) % 0x100
            &&& surface_byte(data, stride, ByteOrder::Little, x, y, 2) == word % 0x100
            &&& surface_byte(data, stride, ByteOrder::Little, x, y, 3) == word / 0x100_0000
        }),
        ({
            let at = y * stride + x * 4;
            let word = data[at + 3] + 0x100 * data[at + 2] + 0x1_0000 * data[at + 1] + 0x100_0000
                * data[at];
            &&& surface_byte(data, stride, ByteOrder::Big, x, y, 0) == (word / 0x1_0000) % 0x100
            &&& surface_byte(data, stride, ByteOrder::Big, x, y, 1) == (word / 0x100) % 0x100
            &&& surface_byte(data, stride, ByteOrder::Big, x, y, 2) == word % 0x100
            &&& surface_byte(data, stride, ByteOrder::Big, x, y, 3) == word / 0x100_0000
        }),
{
    let at = y * stride + x * 4;
    lemma_bytes_of_word(data[at], data[at + 1], data[at + 2], data[at + 3]);
    lemma_bytes_of_word(data[at + 3], data[at + 2], data[at + 1], data[at]);
}

/// A number of points as a fraction of a side.
proof fn lemma_points_in_fractions(points: i32, side: Real64)
    requires
        is_page_side(side),
    ensures
        ({
            let part = Real32::from_i32(points).over(side.narrowed());
            let n = points as real;
            &&& part.is_finite()
            &&& near(part.value() * side.value(), n, (size(n) + side.value()) * sliver())
            &&& (points > 0) == (part.value() > 0 as real)
        }),
{
    single::lemma_from_i32(points);
    double::lemma_narrowed(side);
    let number = Real32::from_i32(points);
    let narrow = side.narrowed();
    let a = number.value();
    let w = narrow.value();
    let v = side.value();
    let n = points as real;
    let e = 1 as real / 10_000_000 as real;
    let t = trace();
    assert(near(w, v, v * e));
    assert(near(a, n, size(n) * e + t));
    assert(w > 0 as real && w * (2 as real * 0x100_0000_0000 as real) >= 1 as real);
    let q = a / w;
    lemma_quotient(a, w, 2 as real * 0x100_0000_0000 as real);
    if points == 0 {
        single::lemma_from_zero();
        single::lemma_zero_over(number, narrow);
    } else {
        single::lemma_over(number, narrow);
    }
    let f = number.over(narrow).value();
    let m = size(q);
    assert(near(f, q, m * e + t)) by {
        if points == 0 {
            assert(q == 0 as real) by (nonlinear_arith)
                requires
                    q * w == 0 as real,
                    w > 0 as real,
            ;
        }
    }
    lemma_near_scaled(f, q, m * e + t, v);
    lemma_near_scaled(w, v, v * e, m);
    lemma_size_scaled(q, v);
    let mv = m * v;
    let mw = m * w;
    assert(w * m == mw && v * m == mv && (v * e) * m == mv * e && (m * e + t) * v == mv * e + t * v)
        by (nonlinear_arith)
        requires
            mw == m * w,
            mv == m * v,
    ;
    let tv = t * v;
    assert(tv <= v * e) by (nonlinear_arith)
        requires
            tv == t * v,
            t <= e,
            v > 0 as real,
    ;
    lemma_sign_of_quotient(a, w, q);
    let qv = q * v;
    assert(mw == size(a));
    assert(size(qv) == mv);
    assert((qv >= 0 as real) == (q >= 0 as real)) by (nonlinear_arith)
        requires
            qv == q * v,
            v > 0 as real,
    ;
    assert(near(qv, a, mv * e)) ;
    if points != 0 {
        assert(size(a) >= 1 as real / 2 as real);
        lemma_size_scaled(q, w);
        assert(m >= 1 as real / (8 as real * 0x100_0000_0000 as real)) by (nonlinear_arith)
            requires
                m * w >= 1 as real / 2 as real,
                w <= 2 as real * 0x100_0000_0000 as real,
                w > 0 as real,
                m >= 0 as real,
        ;
    }
}

/// A quotient by a positive number has the sign of what is divided.
proof fn lemma_sign_of_quotient(a: real, w: real, q: real)
    requires
        q * w == a,
        w > 0 as real,
    ensures
        (a > 0 as real) == (q > 0 as real),
        (a < 0 as real) == (q < 0 as real),
{
    assert((a > 0 as real) == (q > 0 as real)) by (nonlinear_arith)
        requires
            q * w == a,
            w > 0 as real,
    ;
    assert((a < 0 as real) == (q < 0 as real)) by (nonlinear_arith)
        requires
            q * w == a,
            w > 0 as real,
    ;
}

/// A rectangle of points is where it is on the page: each of its numbers is the fraction that the
/// points are of the side of the page. It has an area exactly if it is wide and high.
pub proof fn law_found_text_keeps_its_place(rect: PointRect, page_size: [Real64; 2])
    requires
        is_page_side(page_size[0]) && is_page_side(page_size[1]),
    ensures
        ({
            let part = fraction_of(rect, page_size);
            let wide = page_size[0].value();
            let high = page_size[1].value();
            &&& near(
                part.x.value() * wide,
                rect.x as real,
                (size(rect.x as real) + wide) * sliver(),
            )
            &&& near(
                part.y.value() * high,
                rect.y as real,
                (size(rect.y as real) + high) * sliver(),
            )
            &&& near(
                part.width.value() * wide,
                rect.width as real,
                (size(rect.width as real) + wide) * sliver(),
            )
            &&& near(
                part.height.value() * high,
                rect.height as real,
                (size(rect.height as real) + high) * sliver(),
            )
            &&& has_area(part) == (rect.width > 0 && rect.height > 0)
        }),
{
    lemma_points_in_fractions(rect.x, page_size[0]);
    lemma_points_in_fractions(rect.y, page_size[1]);
    lemma_points_in_fractions(rect.width, page_size[0]);
    lemma_points_in_fractions(rect.height, page_size[1]);
    let part = fraction_of(rect, page_size);
    single::lemma_zero();
    single::lemma_order(Real32 { bits: 0 }, part.width);
    single::lemma_order(Real32 { bits: 0 }, part.height);
}

/// How many of the first rectangles are wide and high.
pub open spec fn with_area(region: Seq<PointRect>, count: int) -> int
    decreases count,
{
    if count <= 0 {
        0
    } else {
        with_area(region, count - 1) + (if region[count - 1].width > 0 && region[count - 1].height
            > 0 {
            1int
        } else {
            0int
        })
    }
}

/// Every rectangle of found text that is wide and high is kept, and no other, in their order.
pub proof fn law_found_text_is_kept(region: Seq<PointRect>, page_size: [Real64; 2])
    requires
        is_page_side(page_size[0]) && is_page_side(page_size[1]),
    ensures
        region_rects(region, page_size).len() == with_area(region, region.len() as int),
        forall|i: int|
            0 <= i < region.len() && (#[trigger] region[i]).width > 0 && region[i].height > 0 ==> {
                let k = with_area(region, i);
                let rects = region_rects(region, page_size);
                &&& 0 <= k < rects.len()
                &&& rects[k] == fraction_of(region[i], page_size)
            },
    decreases region.len(),
{
    if region.len() > 0 {
        let n = region.len() as int;
        let rest = region.drop_last();
        law_found_text_is_kept(rest, page_size);
        law_found_text_keeps_its_place(region.last(), page_size);
        assert forall|c: int| 0 <= c <= n - 1 implies #[trigger] with_area(region, c) == with_area(
            rest,
            c,
        ) by {
            lemma_same_area(region, rest, c);
        }
        assert(with_area(region, n - 1) == with_area(rest, n - 1));
        let before = region_rects(rest, page_size);
        let rects = region_rects(region, page_size);
        assert forall|i: int|
            0 <= i < n && (#[trigger] region[i]).width > 0 && region[i].height > 0 implies {
            let k = with_area(region, i);
            &&& 0 <= k < rects.len()
            &&& rects[k] == fraction_of(region[i], page_size)
        } by {
            if i < n - 1 {
                assert(rest[i] == region[i]);
                assert(rects[with_area(region, i)] == before[with_area(rest, i)]);
            } else {
                assert(with_area(region, n - 1) == with_area(rest, n - 1));
            }
        }
    }
}

/// Counting looks at the first rectangles only.
proof fn lemma_same_area(a: Seq<PointRect>, b: Seq<PointRect>, count: int)
    requires
        count <= a.len(),
        count <= b.len(),
        forall|i: int| 0 <= i < count ==> a[i] == b[i],
    ensures
        with_area(a, count) == with_area(b, count),
    decreases count,
{
    if count > 0 {
        lemma_same_area(a, b, count - 1);
    }
}

/// The width of the part of a page that a close-up shows: 62 hundredths of the page, but from 250
/// to 380 points.
pub open spec fn shown_width(page_width: real) -> real {
    least(most(62 as real * page_width / 100 as real, 250 as real), 380 as real)
}

/// Where a part of a page begins that shows a place with so much before it, and stays on the page.
pub open spec fn shown_from(at: real, before: real, side: real, length: real) -> real {
    least(most(at - before, 0 as real), most(side - length, 0 as real))
}

/// The constants of close-ups.
proof fn lemma_close_up_constants()
    ensures
        (Real64 { bits: 0x3fe3_d70a_3d70_a3d7 }).finite(),
        near(
            100 as real * (Real64 { bits: 0x3fe3_d70a_3d70_a3d7 }).value(),
            62 as real,
            1 as real / 1_000_000_000_000 as real,
        ),
        (Real64 { bits: 0x406f_4000_0000_0000 }).finite(),
        (Real64 { bits: 0x406f_4000_0000_0000 }).value() == 250 as real,
        (Real64 { bits: 0x4077_c000_0000_0000 }).finite(),
        (Real64 { bits: 0x4077_c000_0000_0000 }).value() == 380 as real,
        (Real64 { bits: 0x3fe0_0000_0000_0000 }).finite(),
        (Real64 { bits: 0x3fe0_0000_0000_0000 }).value() == 1 as real / 2 as real,
        (Real64 { bits: 0x3fd3_3333_3333_3333 }).finite(),
        near(
            10 as real * (Real64 { bits: 0x3fd3_3333_3333_3333 }).value(),
            3 as real,
            1 as real / 1_000_000_000_000 as real,
        ),
{
    lemma2_to64();
    lemma2_to64_rest();
    double::lemma_constant(
        Real64 { bits: 0x3fe3_d70a_3d70_a3d7 },
        0x13_d70a_3d70_a3d7,
        1021,
        53,
        0x20_0000_0000_0000,
    );
    double::lemma_constant(
        Real64 { bits: 0x406f_4000_0000_0000 },
        0x1f_4000_0000_0000,
        1029,
        45,
        0x2000_0000_0000,
    );
    double::lemma_constant(
        Real64 { bits: 0x4077_c000_0000_0000 },
        0x17_c000_0000_0000,
        1030,
        44,
        0x1000_0000_0000,
    );
    double::lemma_constant(
        Real64 { bits: 0x3fe0_0000_0000_0000 },
        0x10_0000_0000_0000,
        1021,
        53,
        0x20_0000_0000_0000,
    );
    double::lemma_constant(
        Real64 { bits: 0x3fd3_3333_3333_3333 },
        0x13_3333_3333_3333,
        1020,
        54,
        0x40_0000_0000_0000,
    );
}

/// The width of the part that is shown.
proof fn lemma_shown_width(side: Real64)
    requires
        is_page_side(side),
    ensures
        ({
            let crop = side.times(Real64 { bits: 0x3fe3_d70a_3d70_a3d7 }).within(
                Real64 { bits: 0x406f_4000_0000_0000 },
                Real64 { bits: 0x4077_c000_0000_0000 },
            );
            &&& crop.finite()
            &&& 250 as real <= crop.value() <= 380 as real
            &&& near(
                crop.value(),
                shown_width(side.value()),
                1 as real / 1_000_000_000 as real,
            )
        }),
{
    lemma_close_up_constants();
    let c = Real64 { bits: 0x3fe3_d70a_3d70_a3d7 };
    let w = side.value();
    let k = c.value();
    let p = w * k;
    let bit = 1 as real / 1_000_000_000_000 as real;
    lemma_near_scaled(100 as real * k, 62 as real, bit, w);
    assert((100 as real * k) * w == 100 as real * p && 62 as real * w == w * 62 as real)
        by (nonlinear_arith)
        requires
            p == w * k,
    ;
    let bw = bit * w;
    assert(bw == w * bit) by (nonlinear_arith)
        requires
            bw == bit * w,
    ;
    double::lemma_times(side, c);
    let product = side.times(c);
    double::lemma_clamped(
        product,
        Real64 { bits: 0x406f_4000_0000_0000 },
        Real64 { bits: 0x4077_c000_0000_0000 },
    );
    assert(near(product.value(), 62 as real * w / 100 as real, w * bit * 2 as real));
}

/// Where the part of a page that is shown begins.
proof fn lemma_shown_from(at: Real64, side: Real64, crop: Real64, before: Real64, m: real)
    requires
        at.finite() && side.finite() && crop.finite() && before.finite(),
        near(at.value() - before.value(), 0 as real, m),
        near(side.value() - crop.value(), 0 as real, m),
        1 as real <= m,
        m <= 0x1000_0000_0000 as real,
    ensures
        ({
            let zero = Real64 { bits: 0 };
            let start = at.minus(before).within(zero, side.minus(crop).larger(zero));
            &&& start.finite()
            &&& near(
                start.value(),
                shown_from(at.value(), before.value(), side.value(), crop.value()),
                m * (1 as real / 1_000_000_000 as real),
            )
        }),
{
    double::lemma_zero();
    let zero = Real64 { bits: 0 };
    double::lemma_minus_bounded(at, before, m);
    double::lemma_minus_bounded(side, crop, m);
    double::lemma_larger_smaller(side.minus(crop), zero);
    double::lemma_clamped(at.minus(before), zero, side.minus(crop).larger(zero));
}

/// The height of the part that is shown: it has the shape of the picture.
proof fn lemma_shown_height(crop: Real64, width: i32, height: i32)
    requires
        crop.finite(),
        250 as real <= crop.value() <= 380 as real,
        1 <= width <= 0x1_0000,
        1 <= height <= 0x1_0000,
    ensures
        ({
            let high = crop.times(Real64::from_i32(height)).over(Real64::from_i32(width));
            let exact = crop.value() * height as real / width as real;
            &&& high.finite()
            &&& high.value() > 0 as real
            &&& exact > 0 as real
            &&& exact <= 380 as real * 0x1_0000 as real
            &&& exact * width as real == crop.value() * height as real
            &&& exact * 0x1_0000 as real >= 250 as real
            &&& near(high.value(), exact, exact * (1 as real / 1_000_000_000 as real))
        }),
{
    double::lemma_from_i32(width);
    double::lemma_from_i32(height);
    let wide = Real64::from_i32(width);
    let tall = Real64::from_i32(height);
    let n = width as real;
    let m = height as real;
    let a = wide.value();
    let b = tall.value();
    let c = crop.value();
    let bit = 1 as real / 100_000_000_000 as real;
    assert(near(a, n, n * bit));
    assert(near(b, m, m * bit));
    let cm = c * m;
    let cb = c * b;
    lemma_near_scaled(b, m, m * bit, c);
    assert(b * c == cb && m * c == cm && (m * bit) * c == cm * bit) by (nonlinear_arith)
        requires
            cb == c * b,
            cm == c * m,
    ;
    assert(cm >= 250 as real && cm <= 380 as real * 0x1_0000 as real) by (nonlinear_arith)
        requires
            cm == c * m,
            c >= 250 as real,
            c <= 380 as real,
            m >= 1 as real,
            m <= 0x1_0000 as real,
    ;
    double::lemma_times_bounded(crop, tall, 2 as real * cm);
    let product = crop.times(tall);
    let p = product.value();
    assert(near(p, cm, cm * (2 as real * bit)));
    let exact = cm / n;
    lemma_quotient(cm, n, 1 as real);
    lemma_quotient(p, a, 2 as real);
    double::lemma_over(product, wide);
    let q = p / a;
    lemma_quotient_is_close(cm, n, exact, p, a, q);
    assert(exact * 0x1_0000 as real >= 250 as real) by (nonlinear_arith)
        requires
            exact * n == cm,
            cm >= 250 as real,
            n <= 0x1_0000 as real,
            n >= 1 as real,
            exact > 0 as real,
    ;
    assert(c * m / n == exact);
}

/// Quotients of numbers that are close are close.
proof fn lemma_quotient_is_close(c: real, n: real, exact: real, p: real, a: real, q: real)
    requires
        c > 0 as real,
        n > 0 as real,
        exact * n == c,
        q * a == p,
        near(p, c, c * (1 as real / 50_000_000_000 as real)),
        near(a, n, n * (1 as real / 100_000_000_000 as real)),
    ensures
        exact > 0 as real,
        q > 0 as real,
        near(q, exact, exact * (1 as real / 10_000_000_000 as real)),
{
    let bit = 1 as real / 100_000_000_000 as real;
    assert(exact > 0 as real) by (nonlinear_arith)
        requires
            exact * n == c,
            c > 0 as real,
            n > 0 as real,
    ;
    assert(q > 0 as real) by (nonlinear_arith)
        requires
            q * a == p,
            p > 0 as real,
            a > 0 as real,
    ;
    lemma_near_scaled(a, n, n * bit, q);
    let qn = q * n;
    assert(a * q == p && n * q == qn && (n * bit) * q == qn * bit) by (nonlinear_arith)
        requires
            q * a == p,
            qn == q * n,
    ;
    let d = 8 as real * bit;
    assert(near(qn, c, c * d));
    assert(q - exact <= exact * d) by (nonlinear_arith)
        requires
            q * n - exact * n <= (exact * n) * d,
            n > 0 as real,
    ;
    assert(exact - q <= exact * d) by (nonlinear_arith)
        requires
            exact * n - q * n <= (exact * n) * d,
            n > 0 as real,
    ;
}

/// The scale of a close-up makes the part that is shown as wide as the picture.
proof fn lemma_close_up_scale(crop: Real64, high: Real64, width: i32, height: i32, exact: real)
    requires
        crop.finite(),
        250 as real <= crop.value() <= 380 as real,
        1 <= width <= 0x1_0000,
        1 <= height <= 0x1_0000,
        high.finite(),
        exact > 0 as real,
        exact <= 380 as real * 0x1_0000 as real,
        exact * 0x1_0000 as real >= 250 as real,
        exact * width as real == crop.value() * height as real,
        near(high.value(), exact, exact * (1 as real / 1_000_000_000 as real)),
    ensures
        ({
            let scale = Real64::from_i32(width).over(crop).smaller(
                Real64::from_i32(height).over(high),
            );
            &&& scale.finite()
            &&& scale.value() > 0 as real
            &&& near(
                scale.value() * crop.value(),
                width as real,
                width as real * (1 as real / 100_000_000 as real),
            )
        }),
{
    lemma_pixels_per_length(width, crop);
    lemma_pixels_per_length(height, high);
    let across = Real64::from_i32(width).over(crop);
    let down = Real64::from_i32(height).over(high);
    double::lemma_larger_smaller(across, down);
    let n = width as real;
    let m = height as real;
    let c = crop.value();
    let h = high.value();
    let d = down.value();
    let bit = 1 as real / 1_000_000_000 as real;
    lemma_near_scaled(h, exact, exact * bit, d);
    let dh = d * h;
    let de = d * exact;
    assert(h * d == dh && exact * d == de && (exact * bit) * d == de * bit) by (nonlinear_arith)
        requires
            dh == d * h,
            de == d * exact,
    ;
    assert(near(de, m, m * (4 as real * bit)));
    let dc = d * c;
    assert(de * n == dc * m) by (nonlinear_arith)
        requires
            de == d * exact,
            dc == d * c,
            exact * n == c * m,
    ;
    lemma_near_scaled(de, m, m * (4 as real * bit), n);
    assert((m * (4 as real * bit)) * n == (n * (4 as real * bit)) * m && m * n == n * m)
        by (nonlinear_arith);
    let z = n * (4 as real * bit);
    assert(dc - n <= z) by (nonlinear_arith)
        requires
            dc * m - n * m <= z * m,
            m > 0 as real,
    ;
    assert(n - dc <= z) by (nonlinear_arith)
        requires
            n * m - dc * m <= z * m,
            m > 0 as real,
    ;
}

/// A close-up shows the part of the page around the place that a destination names: 62 hundredths of
/// the page's width, but from 250 to 380 points, in the shape of the picture and as wide as it, with
/// the place in the middle and at three tenths of the height, and moved to stay on the page. A place
/// on the page is in the picture.
pub proof fn law_close_ups_show_the_place(
    x: Real32,
    y: Real32,
    page_size: [Real64; 2],
    width: i32,
    height: i32,
)
    requires
        x.is_finite() && size(x.value()) <= 0x100_0000_0000 as real,
        y.is_finite() && size(y.value()) <= 0x100_0000_0000 as real,
        is_page_side(page_size[0]) && is_page_side(page_size[1]),
        1 <= width <= 0x1_0000,
        1 <= height <= 0x1_0000,
    ensures
        ({
            let plan = close_up_plan(x, y, page_size, width, height);
            let w = page_size[0].value();
            let h = page_size[1].value();
            let wide = shown_width(w);
            let left = 0 as real - plan.shift_x.value();
            let top = 0 as real - plan.shift_y.value();
            let across = (size(x.value()) + w + 1000 as real) * sliver();
            &&& plan.width == width && plan.height == height
            &&& plan.scale_x == plan.scale_y
            &&& !plan.shift_first
            &&& plan.scale_x.finite() && plan.shift_x.finite() && plan.shift_y.finite()
            &&& near(plan.scale_x.value() * wide, width as real, width as real * sliver())
            &&& near(left, shown_from(x.value(), wide / 2 as real, w, wide), across)
            &&& 0 as real <= x.value() <= w ==> left <= x.value() + across && x.value() <= left
                + wide + across
            &&& exists|high: real|
                {
                    let down = (size(y.value()) + h + high + 1000 as real) * sliver();
                    &&& #[trigger] near(
                        high * width as real,
                        wide * height as real,
                        wide * height as real * sliver(),
                    )
                    &&& near(top, shown_from(y.value(), 3 as real * high / 10 as real, h, high), down)
                }
        }),
{
    lemma_close_up_constants();
    let half = Real64 { bits: 0x3fe0_0000_0000_0000 };
    let third = Real64 { bits: 0x3fd3_3333_3333_3333 };
    lemma_shown_width(page_size[0]);
    let crop = page_size[0].times(Real64 { bits: 0x3fe3_d70a_3d70_a3d7 }).within(
        Real64 { bits: 0x406f_4000_0000_0000 },
        Real64 { bits: 0x4077_c000_0000_0000 },
    );
    let c = crop.value();
    let w = page_size[0].value();
    let h = page_size[1].value();
    let wide = shown_width(w);
    lemma_shown_height(crop, width, height);
    let high = crop.times(Real64::from_i32(height)).over(Real64::from_i32(width));
    let exact = c * height as real / width as real;
    lemma_close_up_scale(crop, high, width, height, exact);
    single::lemma_widened(x);
    single::lemma_widened(y);
    let px = x.widened();
    let py = y.widened();
    assert(c * half.value() == c / 2 as real) by (nonlinear_arith)
        requires
            half.value() == 1 as real / 2 as real,
    ;
    double::lemma_times_bounded(crop, half, 200 as real);
    let before = crop.times(half);
    let m = size(x.value()) + w + 1000 as real;
    lemma_shown_from(px, page_size[0], crop, before, m);
    let start = px.minus(before).within(
        Real64 { bits: 0 },
        page_size[0].minus(crop).larger(Real64 { bits: 0 }),
    );
    double::lemma_negated(start);
    assert(near(
        shown_from(px.value(), before.value(), w, c),
        shown_from(x.value(), wide / 2 as real, w, wide),
        m * (1 as real / 100_000_000 as real),
    ));
    lemma_close_up_down(py, page_size[1], high, exact, y.value(), third);
    let s = Real64::from_i32(width).over(crop).smaller(Real64::from_i32(height).over(high)).value();
    lemma_scale_of_shown_width(s, c, wide, width as real);
    let n = width as real;
    let k = height as real;
    lemma_near_scaled(c, wide, 1 as real / 1_000_000_000 as real, k);
    let wk = wide * k;
    assert(1 as real / 1_000_000_000 as real * k <= wk * sliver()) by (nonlinear_arith)
        requires
            wk == wide * k,
            wide >= 250 as real,
            k >= 1 as real,
    ;
    assert(near(exact * n, wide * k, wide * k * sliver()));
}

/// The scale makes the exact width as wide as the picture too.
proof fn lemma_scale_of_shown_width(s: real, c: real, wide: real, n: real)
    requires
        s > 0 as real,
        n >= 1 as real,
        250 as real <= c <= 380 as real,
        near(c, wide, 1 as real / 1_000_000_000 as real),
        near(s * c, n, n * (1 as real / 100_000_000 as real)),
    ensures
        near(s * wide, n, n * sliver()),
{
    let bit = 1 as real / 1_000_000_000 as real;
    lemma_near_scaled(c, wide, bit, s);
    assert(c * s == s * c && wide * s == s * wide) by (nonlinear_arith);
    assert(bit * s <= bit * (s * c)) by (nonlinear_arith)
        requires
            s > 0 as real,
            c >= 1 as real,
            bit > 0 as real,
    ;
    let sc = s * c;
    assert(bit * sc <= 2 as real * (bit * n)) by (nonlinear_arith)
        requires
            sc <= 2 as real * n,
            bit > 0 as real,
    ;
    assert(bit * n == n * bit) by (nonlinear_arith);
}

/// Where a close-up begins from above.
proof fn lemma_close_up_down(
    at: Real64,
    side: Real64,
    high: Real64,
    exact: real,
    y: real,
    third: Real64,
)
    requires
        at.finite(),
        size(y) <= 0x100_0000_0000 as real,
        near(at.value(), y, size(y) * (1 as real / 1_000_000_000_000 as real) + trace()),
        is_page_side(side),
        high.finite(),
        exact > 0 as real,
        exact <= 380 as real * 0x1_0000 as real,
        exact * 0x1_0000 as real >= 250 as real,
        near(high.value(), exact, exact * (1 as real / 1_000_000_000 as real)),
        third.finite(),
        near(10 as real * third.value(), 3 as real, 1 as real / 1_000_000_000_000 as real),
    ensures
        ({
            let zero = Real64 { bits: 0 };
            let start = at.minus(high.times(third)).within(zero, side.minus(high).larger(zero));
            let m = size(y) + side.value() + exact + 1000 as real;
            &&& start.finite()
            &&& start.negated().finite()
            &&& near(
                0 as real - start.negated().value(),
                shown_from(y, 3 as real * exact / 10 as real, side.value(), exact),
                m * sliver(),
            )
        }),
{
    let k = third.value();
    let h = high.value();
    let bit = 1 as real / 1_000_000_000_000 as real;
    lemma_near_scaled(10 as real * k, 3 as real, bit, h);
    let hk = h * k;
    assert((10 as real * k) * h == 10 as real * hk && bit * h == h * bit) by (nonlinear_arith)
        requires
            hk == h * k,
    ;
    double::lemma_times_bounded(high, third, exact);
    let before = high.times(third);
    let m = size(y) + side.value() + exact + 1000 as real;
    lemma_shown_from(at, side, high, before, m);
    let zero = Real64 { bits: 0 };
    let start = at.minus(before).within(zero, side.minus(high).larger(zero));
    double::lemma_negated(start);
    assert(near(before.value(), 3 as real * exact / 10 as real, exact * (1 as real
        / 500_000_000 as real)));
    assert(near(
        shown_from(at.value(), before.value(), side.value(), h),
        shown_from(y, 3 as real * exact / 10 as real, side.value(), exact),
        m * (1 as real / 100_000_000 as real),
    ));
}

/// The picture of a destination is 420 points wide and 260 high. It is a close-up where the
/// destination names a place, and else shows the whole page.
pub proof fn law_previews_show_what_is_named(
    destination: Destination,
    page_size: [Real64; 2],
    pixels_per_point: Real32,
)
    ensures
        ({
            let plan = preview_plan(destination, page_size, pixels_per_point);
            let width = preview_side(420, pixels_per_point);
            let height = preview_side(260, pixels_per_point);
            &&& plan.width == width && plan.height == height
            &&& plan.shift_first == (destination.x is None || destination.y_from_top is None)
            &&& destination.x is Some && destination.y_from_top is Some ==> plan == close_up_plan(
                destination.x.unwrap(),
                destination.y_from_top.unwrap(),
                page_size,
                width,
                height,
            )
            &&& destination.x is None || destination.y_from_top is None ==> plan == overview_plan(
                page_size,
                width,
                height,
            )
        }),
{
}

} // verus!
