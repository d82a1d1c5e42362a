//! What holds of where pages and what is on them stand on the screen, in real numbers.

use crate::annotations::NormalizedRect;
use crate::float::double;
use crate::float::exact::least;
use crate::float::exact::lemma_near_scaled;
use crate::float::exact::lemma_quotient;
use crate::float::exact::most;
use crate::float::exact::near;
use crate::float::exact::reach;
use crate::float::exact::size;
use crate::float::exact::trace;
use crate::float::single::fineness;
use crate::float::single::lemma_absolute;
use crate::float::single::lemma_clamped;
use crate::float::single::lemma_constant;
use crate::float::single::lemma_larger_smaller;
use crate::float::single::lemma_minus;
use crate::float::single::lemma_order_of_bits;
use crate::float::single::lemma_over;
use crate::float::single::lemma_minus_bounded;
use crate::float::single::lemma_minus_keeps_order;
use crate::float::single::lemma_order;
use crate::float::single::lemma_plus;
use crate::float::single::lemma_plus_bounded;
use crate::float::single::lemma_plus_keeps_order;
use crate::float::single::lemma_times;
use crate::float::single::lemma_times_bounded;
use crate::float::single::lemma_zero;
use crate::float::Real32;
use crate::float::Real64;
use crate::geometry::centring;
use crate::geometry::column_canvas_rect;
use crate::geometry::column_of;
use crate::geometry::column_page_near;
use crate::geometry::column_page_rect;
use crate::geometry::destination_target;
use crate::geometry::fitting_scale;
use crate::geometry::is_page_read;
use crate::geometry::key_for;
use crate::geometry::on_page;
use crate::geometry::on_screen;
use crate::geometry::or_zero;
use crate::geometry::page_top;
use crate::geometry::page_target;
use crate::geometry::pages_drawn;
use crate::geometry::pixels;
use crate::geometry::reading_distance;
use crate::geometry::reading_position;
use crate::geometry::scroll_targets;
use crate::geometry::scroll_to;
use crate::geometry::shrinking;
use crate::geometry::single_placement;
use crate::geometry::size_of_page;
use crate::geometry::targets_on_page;
use crate::geometry::widest;
use crate::geometry::Alignment;
use crate::geometry::ColumnView;
use crate::geometry::ScreenRect;
use crate::geometry::ScrollTarget;
use crate::geometry::Vector;
use crate::geometry::ZoomMode;
use crate::geometry::LEAST_ROOM;
use crate::geometry::LEAST_SCALE;
use crate::geometry::MAX_RENDER_PIXELS;
use crate::geometry::MAX_TEXTURE_SIDE;
use crate::geometry::PAGE_GAP;
use crate::geometry::PAGE_MARGIN;
use crate::geometry::PAGE_MARGINS;
use crate::geometry::PDF_POINT_TO_LOGICAL;
use crate::pdf::Destination;
use vstd::arithmetic::power2::lemma2_to64;
use vstd::arithmetic::power2::lemma2_to64_rest;
use vstd::prelude::*;

verus! {

/// A part in a million, more than a few roundings together are off by.
#[verifier::inline]
pub open spec fn sliver() -> real {
    1 as real / 1_000_000 as real
}

/// Whether a number is a distance of a size that screens and pages have: at most `2^40`.
pub open spec fn is_distance(a: Real32) -> bool {
    a.is_finite() && size(a.value()) <= 0x100_0000_0000 as real
}

/// Whether a number is the length of a side: positive, and between `2^-40` and `2^40`.
pub open spec fn is_side(a: Real32) -> bool {
    a.is_finite() && 1 as real <= a.value() * 0x100_0000_0000 as real && a.value()
        <= 0x100_0000_0000 as real
}

/// The room that a side of a page is fitted to: what the margins leave of the window, but at least
/// 40.
pub open spec fn room_in(window: real) -> real {
    most(window - 48 as real, 40 as real)
}

/// The constants that pages are fitted by.
proof fn lemma_fitting_constants()
    ensures
        (Real32 { bits: PAGE_MARGINS }).is_finite(),
        (Real32 { bits: PAGE_MARGINS }).value() == 48 as real,
        (Real32 { bits: LEAST_ROOM }).is_finite(),
        (Real32 { bits: LEAST_ROOM }).value() == 40 as real,
        (Real32 { bits: LEAST_SCALE }).is_finite(),
        near(
            50 as real * (Real32 { bits: LEAST_SCALE }).value(),
            1 as real,
            1 as real / 10_000_000 as real,
        ),
        (Real32 { bits: PDF_POINT_TO_LOGICAL }).is_finite(),
        near(
            3 as real * (Real32 { bits: PDF_POINT_TO_LOGICAL }).value(),
            4 as real,
            1 as real / 1_000_000 as real,
        ),
{
    lemma2_to64();
    lemma_constant(Real32 { bits: PAGE_MARGINS }, 0xc0_0000, 131, 18, 0x4_0000);
    lemma_constant(Real32 { bits: LEAST_ROOM }, 0xa0_0000, 131, 18, 0x4_0000);
    lemma_constant(Real32 { bits: LEAST_SCALE }, 0xa3_d70a, 120, 29, 0x2000_0000);
    lemma_constant(Real32 { bits: PDF_POINT_TO_LOGICAL }, 0xaa_aaab, 126, 23, 0x80_0000);
}

/// A length that is divided by a side and multiplied by it again is the length, up to rounding.
proof fn lemma_divided_and_multiplied(r: real, w: real, s: real)
    requires
        r > 0 as real,
        w > 0 as real,
        near(s, r / w, size(r / w) * fineness() + trace()),
    ensures
        near(s * w, r, r * fineness() + trace() * w),
        r / w > 0 as real,
{
    let q = r / w;
    assert(q * w == r && q > 0 as real) by (nonlinear_arith)
        requires
            q == r / w,
            r > 0 as real,
            w > 0 as real,
    ;
    let e = fineness();
    let t = trace();
    assert(s * w - r <= r * e + t * w && r - s * w <= r * e + t * w) by (nonlinear_arith)
        requires
            q * w == r,
            s - q <= q * e + t,
            q - s <= q * e + t,
            w > 0 as real,
    ;
}

/// The scale at which a side is fitted makes it as long as its room.
proof fn lemma_fitted(window: Real32, side: Real32)
    requires
        is_distance(window),
        is_side(side),
    ensures
        fitting_scale(window, side).is_finite(),
        fitting_scale(window, side).value() > 0 as real,
        near(
            fitting_scale(window, side).value() * side.value(),
            room_in(window.value()),
            room_in(window.value()) * (1 as real / 4_000_000 as real),
        ),
{
    lemma_fitting_constants();
    let margins = Real32 { bits: PAGE_MARGINS };
    let floor = Real32 { bits: LEAST_ROOM };
    lemma_minus(window, margins);
    let rest = window.minus(margins);
    lemma_larger_smaller(rest, floor);
    let room = rest.larger(floor);
    let r = room.value();
    let w = side.value();
    let q = r / w;
    let big = 0x100_0000_0000 as real;
    assert(q > 0 as real && q <= 2 as real * big * big) by (nonlinear_arith)
        requires
            q == r / w,
            r > 0 as real,
            r <= 2 as real * big,
            1 as real <= w * big,
            big > 0 as real,
    ;
    lemma_over(room, side);
    let s = room.over(side).value();
    lemma_divided_and_multiplied(r, w, s);
    let sw = s * w;
    let tw = trace() * w;
    assert(tw <= 1 as real / 1_000_000_000 as real) by (nonlinear_arith)
        requires
            tw == trace() * w,
            w <= big,
            trace() * big <= 1 as real / 1_000_000_000 as real,
            trace() > 0 as real,
    ;
    assert(near(r, room_in(window.value()), room_in(window.value()) * fineness() * 2 as real));
    assert(s > 0 as real) by (nonlinear_arith)
        requires
            sw == s * w,
            sw > 0 as real,
            w > 0 as real,
    ;
}

/// A side at a scale, up to its rounding.
proof fn lemma_scaled(side: Real32, scale: Real32)
    requires
        is_side(side),
        scale.is_finite(),
        scale.value() > 0 as real,
        scale.value() * side.value() <= 0x4000_0000_0000_0000_0000_0000int as real,
    ensures
        side.times(scale).is_rounded(scale.value() * side.value()),
{
    let w = side.value();
    let s = scale.value();
    let p = w * s;
    assert(p == s * w && p > 0 as real) by (nonlinear_arith)
        requires
            p == w * s,
            w > 0 as real,
            s > 0 as real,
    ;
    lemma_times(side, scale);
}

/// The larger of two scales makes a side as long as the larger of two lengths.
proof fn lemma_most_of_scales(a: real, b: real, w: real)
    requires
        w > 0 as real,
    ensures
        most(a, b) * w == most(a * w, b * w),
        least(a, b) * w == least(a * w, b * w),
{
    assert((a < b) == (a * w < b * w) && (b < a) == (b * w < a * w)) by (nonlinear_arith)
        requires
            w > 0 as real,
    ;
}

/// The least scale makes a side a fiftieth part as long.
proof fn lemma_least_scale(side: Real32)
    requires
        is_side(side),
    ensures
        near(
            (Real32 { bits: LEAST_SCALE }).value() * side.value(),
            side.value() * (1 as real / 50 as real),
            side.value() * (1 as real / 400_000_000 as real),
        ),
{
    lemma_fitting_constants();
    let c = (Real32 { bits: LEAST_SCALE }).value();
    let w = side.value();
    assert(c * w - w * (1 as real / 50 as real) <= w * (1 as real / 400_000_000 as real) && w * (
    1 as real / 50 as real) - c * w <= w * (1 as real / 400_000_000 as real)) by (nonlinear_arith)
        requires
            50 as real * c - 1 as real <= 1 as real / 10_000_000 as real,
            1 as real - 50 as real * c <= 1 as real / 10_000_000 as real,
            w > 0 as real,
    ;
}

/// At fit width the page is as wide as the window without its margins: its width on the screen and
/// both margins together are the width of the window. It is never fitted to less than 40 pixels,
/// nor made smaller than a fiftieth of its width in points.
pub proof fn law_fit_width(page_size: [Real32; 2], viewport: Vector)
    requires
        is_side(page_size[0]),
        is_side(page_size[1]),
        is_distance(viewport.x),
    ensures
        ({
            let shown = size_of_page(ZoomMode::FitWidth, page_size, viewport);
            let points = page_size[0].value();
            let window = viewport.x.value();
            let width = most(room_in(window), points * (1 as real / 50 as real));
            &&& shown.x.is_finite()
            &&& near(shown.x.value(), width, width * sliver())
            &&& window >= 88 as real && points <= 50 as real * (window - 48 as real) ==> near(
                shown.x.value() + 48 as real,
                window,
                window * sliver(),
            )
        }),
{
    let side = page_size[0];
    let fitted = fitting_scale(viewport.x, side);
    let floor = Real32 { bits: LEAST_SCALE };
    lemma_fitted(viewport.x, side);
    lemma_fitting_constants();
    lemma_least_scale(side);
    lemma_larger_smaller(fitted, floor);
    lemma_most_of_scales(fitted.value(), floor.value(), side.value());
    lemma_scaled(side, fitted.larger(floor));
}

/// At fit page the whole page is in the window without its margins: neither side is longer than its
/// room, and one of them is as long. Where that would make it smaller than a fiftieth of its size
/// in points, it has that size.
pub proof fn law_fit_page(page_size: [Real32; 2], viewport: Vector)
    requires
        is_side(page_size[0]),
        is_side(page_size[1]),
        is_distance(viewport.x),
        is_distance(viewport.y),
    ensures
        ({
            let shown = size_of_page(ZoomMode::FitPage, page_size, viewport);
            let w = page_size[0].value();
            let h = page_size[1].value();
            let wide = room_in(viewport.x.value());
            let high = room_in(viewport.y.value());
            let part = 1 as real / 50 as real;
            &&& shown.x.is_finite()
            &&& shown.y.is_finite()
            &&& w * part <= wide && h * part <= high ==> {
                &&& shown.x.value() <= wide + wide * sliver()
                &&& shown.y.value() <= high + high * sliver()
                &&& shown.x.value() >= wide - wide * sliver() || shown.y.value() >= high - high
                    * sliver()
            }
            &&& w * part > wide || h * part > high ==> {
                &&& near(shown.x.value(), w * part, w * sliver())
                &&& near(shown.y.value(), h * part, h * sliver())
            }
        }),
{
    let across = fitting_scale(viewport.x, page_size[0]);
    let down = fitting_scale(viewport.y, page_size[1]);
    let floor = Real32 { bits: LEAST_SCALE };
    lemma_fitted(viewport.x, page_size[0]);
    lemma_fitted(viewport.y, page_size[1]);
    lemma_fitting_constants();
    lemma_least_scale(page_size[0]);
    lemma_least_scale(page_size[1]);
    lemma_larger_smaller(across, down);
    let both = across.smaller(down);
    lemma_larger_smaller(both, floor);
    let scale = both.larger(floor);
    let w = page_size[0].value();
    let h = page_size[1].value();
    let a = across.value();
    let b = down.value();
    let c = floor.value();
    let s = scale.value();
    lemma_most_of_scales(a, b, w);
    lemma_most_of_scales(a, b, h);
    lemma_most_of_scales(both.value(), c, w);
    lemma_most_of_scales(both.value(), c, h);
    let wide = room_in(viewport.x.value());
    let high = room_in(viewport.y.value());
    let part = 1 as real / 50 as real;
    let bit = 1 as real / 4_000_000 as real;
    if w * part > wide {
        assert(a <= part + part * bit) by (nonlinear_arith)
            requires
                a * w <= wide + wide * bit,
                wide < w * part,
                bit > 0 as real,
                w > 0 as real,
        ;
    }
    if h * part > high {
        assert(b <= part + part * bit) by (nonlinear_arith)
            requires
                b * h <= high + high * bit,
                high < h * part,
                bit > 0 as real,
                h > 0 as real,
        ;
    }
    if w * part > wide || h * part > high {
        assert(c <= s && s <= part + part * bit);
        assert(s * w <= w * part + w * (part * bit) && c * w <= s * w && s * h <= h * part + h * (
        part * bit) && c * h <= s * h) by (nonlinear_arith)
            requires
                c <= s,
                s <= part + part * bit,
                w > 0 as real,
                h > 0 as real,
        ;
    }
    lemma_scaled(page_size[0], scale);
    lemma_scaled(page_size[1], scale);
}

/// At a zoom by hand a point of the page is four thirds of a pixel times the zoom: at full size 96
/// pixels are 72 points.
pub proof fn law_zoom_by_hand(factor: Real32, page_size: [Real32; 2], viewport: Vector)
    requires
        is_side(factor),
        is_side(page_size[0]),
        is_side(page_size[1]),
    ensures
        ({
            let shown = size_of_page(ZoomMode::Manual(factor), page_size, viewport);
            let width = factor.value() * page_size[0].value();
            let height = factor.value() * page_size[1].value();
            &&& shown.x.is_finite()
            &&& shown.y.is_finite()
            &&& near(72 as real * shown.x.value(), 96 as real * width, 96 as real * width * sliver())
            &&& near(
                72 as real * shown.y.value(),
                96 as real * height,
                96 as real * height * sliver(),
            )
        }),
{
    lemma_fitting_constants();
    lemma_by_hand(factor, page_size[0]);
    lemma_by_hand(factor, page_size[1]);
}

/// One side at a zoom by hand.
proof fn lemma_by_hand(factor: Real32, side: Real32)
    requires
        is_side(factor),
        is_side(side),
    ensures
        ({
            let shown = side.times((Real32 { bits: PDF_POINT_TO_LOGICAL }).times(factor));
            let length = factor.value() * side.value();
            &&& shown.is_finite()
            &&& near(72 as real * shown.value(), 96 as real * length, 96 as real * length * sliver())
        }),
{
    lemma_fitting_constants();
    let c = Real32 { bits: PDF_POINT_TO_LOGICAL };
    let scale = c.times(factor);
    let f = factor.value();
    let w = side.value();
    let k = c.value();
    let big = 0x100_0000_0000 as real;
    assert(k * f <= 2 as real * big && k * f > 0 as real) by (nonlinear_arith)
        requires
            k <= 2 as real,
            k >= 1 as real,
            f <= big,
            f > 0 as real,
    ;
    lemma_times(c, factor);
    let s = scale.value();
    let fw = f * w;
    let bit = 1 as real / 2_000_000 as real;
    let kf = k * f;
    assert(3 as real * kf - 4 as real * f <= f * (1 as real / 1_000_000 as real) && 4 as real * f
        - 3 as real * kf <= f * (1 as real / 1_000_000 as real)) by (nonlinear_arith)
        requires
            kf == k * f,
            3 as real * k - 4 as real <= 1 as real / 1_000_000 as real,
            4 as real - 3 as real * k <= 1 as real / 1_000_000 as real,
            f > 0 as real,
    ;
    assert(3 as real * s - 4 as real * f <= 4 as real * f * bit);
    assert(4 as real * f - 3 as real * s <= 4 as real * f * bit);
    assert(3 as real * (s * w) - 4 as real * fw <= 4 as real * fw * bit && 4 as real * fw
        - 3 as real * (s * w) <= 4 as real * fw * bit && fw <= big * big && fw * big * big
        >= 1 as real && fw > 0 as real) by (nonlinear_arith)
        requires
            3 as real * s - 4 as real * f <= 4 as real * f * bit,
            4 as real * f - 3 as real * s <= 4 as real * f * bit,
            fw == f * w,
            w > 0 as real,
            f > 0 as real,
            f <= big,
            w <= big,
            f * big >= 1 as real,
            w * big >= 1 as real,
            big > 0 as real,
    ;
    lemma_scaled(side, scale);
}

/// A number with zero added or taken away is ordered as it was.
proof fn lemma_zero_changes_nothing(a: Real32, b: Real32)
    requires
        b.is_finite(),
    ensures
        a.up_to(b.plus(Real32 { bits: 0 })) == a.up_to(b),
        b.minus(Real32 { bits: 0 }).up_to(a) == b.up_to(a),
{
    let zero = Real32 { bits: 0 };
    lemma_zero();
    lemma_plus_keeps_order(b, zero, b);
    lemma_minus_keeps_order(b, zero, b);
    reveal(Real32::spec_up_to);
}

/// The first pages that are drawn are those that are near, each once, in order, at their places.
proof fn lemma_near_pages_are_drawn(
    column: ColumnView,
    origin: Vector,
    viewport: ScreenRect,
    count: nat,
)
    requires
        count <= usize::MAX,
    ensures
        ({
            let pages = pages_drawn(column, origin, viewport, count);
            &&& forall|k: int|
                0 <= k < pages.len() ==> {
                    let page = #[trigger] pages[k];
                    &&& page.page_index < count
                    &&& column_page_near(column, page.page_index as int, origin, viewport)
                    &&& page.rect == column_page_rect(column, page.page_index as int, origin)
                }
            &&& forall|j: int, k: int|
                0 <= j < k < pages.len() ==> (#[trigger] pages[j]).page_index < (
                #[trigger] pages[k]).page_index
            &&& forall|i: int|
                0 <= i < count && #[trigger] column_page_near(column, i, origin, viewport)
                    ==> exists|k: int| 0 <= k < pages.len() && (#[trigger] pages[k]).page_index == i
        }),
    decreases count,
{
    if count > 0 {
        let before = pages_drawn(column, origin, viewport, (count - 1) as nat);
        let pages = pages_drawn(column, origin, viewport, count);
        lemma_near_pages_are_drawn(column, origin, viewport, (count - 1) as nat);
        assert(forall|k: int| 0 <= k < before.len() ==> pages[k] == before[k]);
        assert forall|i: int|
            0 <= i < count && #[trigger] column_page_near(
                column,
                i,
                origin,
                viewport,
            ) implies exists|k: int|
            0 <= k < pages.len() && (#[trigger] pages[k]).page_index == i by {
            if i < count - 1 {
                let k = choose|k: int|
                    0 <= k < before.len() && (#[trigger] before[k]).page_index == i;
                assert(pages[k].page_index == i);
            } else {
                assert(pages[pages.len() - 1].page_index == i);
            }
        }
    }
}

/// A page of the column is drawn exactly if a part of it lies in the window or in the strips above
/// and below that are as high as the window: its upper edge is at most the lower edge of the lower
/// strip, its lower edge is at least the upper edge of the upper strip, and across it lies in the
/// window. It is drawn once, at its place, and the pages are drawn in their order.
pub proof fn law_pages_near_the_window_are_drawn(
    column: ColumnView,
    origin: Vector,
    viewport: ScreenRect,
    i: int,
)
    requires
        column.wf(),
        column.page_sizes.len() <= usize::MAX,
        0 <= i < column.page_sizes.len(),
        viewport.min.x.is_finite() && viewport.max.x.is_finite(),
    ensures
        ({
            let pages = pages_drawn(column, origin, viewport, column.page_sizes.len());
            let place = column_page_rect(column, i, origin);
            let top = column.page_tops[i];
            let bottom = top.plus(column.display_sizes[i].y);
            let left = place.min.x.minus(origin.x);
            let right = left.plus(column.display_sizes[i].x);
            let strip = viewport.max.y.minus(viewport.min.y);
            let is_near = {
                &&& top.up_to(viewport.max.y.plus(strip))
                &&& viewport.min.y.minus(strip).up_to(bottom)
                &&& left.up_to(viewport.max.x)
                &&& viewport.min.x.up_to(right)
            };
            &&& is_near <==> exists|k: int|
                0 <= k < pages.len() && (#[trigger] pages[k]).page_index == i
            &&& forall|k: int|
                0 <= k < pages.len() && (#[trigger] pages[k]).page_index == i ==> pages[k].rect
                    == place
            &&& forall|j: int, k: int|
                0 <= j < k < pages.len() ==> (#[trigger] pages[j]).page_index < (
                #[trigger] pages[k]).page_index
        }),
{
    lemma_near_pages_are_drawn(column, origin, viewport, column.page_sizes.len());
    let place = column_page_rect(column, i, origin);
    let left = place.min.x.minus(origin.x);
    let right = left.plus(column.display_sizes[i].x);
    lemma_zero_changes_nothing(left, viewport.max.x);
    lemma_zero_changes_nothing(right, viewport.min.x);
    assert(column_canvas_rect(column, i, origin).min.x == left);
    let top = column.page_tops[i];
    let bottom = top.plus(column.display_sizes[i].y);
    let strip = viewport.max.y.minus(viewport.min.y);
    assert(column_page_near(column, i, origin, viewport) == {
        &&& top.up_to(viewport.max.y.plus(strip))
        &&& viewport.min.y.minus(strip).up_to(bottom)
        &&& left.up_to(viewport.max.x)
        &&& viewport.min.x.up_to(right)
    });
}

/// Every page of the column of which something is seen in the window is drawn.
pub proof fn law_seen_pages_are_drawn(
    column: ColumnView,
    origin: Vector,
    viewport: ScreenRect,
    i: int,
)
    requires
        column.wf(),
        column.page_sizes.len() <= usize::MAX,
        0 <= i < column.page_sizes.len(),
        viewport.min.x.is_finite() && viewport.max.x.is_finite(),
        viewport.min.y.is_finite() && viewport.max.y.is_finite(),
        column.page_tops[i].is_finite(),
        column.display_sizes[i].x.is_finite() && column.display_sizes[i].y.is_finite(),
        column_page_rect(column, i, origin).min.x.minus(origin.x).is_finite(),
        ({
            let top = column.page_tops[i].value();
            let bottom = top + column.display_sizes[i].y.value();
            let left = column_page_rect(column, i, origin).min.x.minus(origin.x).value();
            let right = left + column.display_sizes[i].x.value();
            &&& viewport.min.y.value() <= viewport.max.y.value()
            &&& top <= viewport.max.y.value()
            &&& bottom >= viewport.min.y.value()
            &&& left <= viewport.max.x.value()
            &&& right >= viewport.min.x.value()
        }),
        size(viewport.min.y.value()) + size(viewport.max.y.value()) < reach() / 4 as real,
    ensures
        ({
            let pages = pages_drawn(column, origin, viewport, column.page_sizes.len());
            exists|k: int|
                0 <= k < pages.len() && (#[trigger] pages[k]).page_index == i && pages[k].rect
                    == column_page_rect(column, i, origin)
        }),
{
    let low = viewport.min.y;
    let high = viewport.max.y;
    let strip = high.minus(low);
    let zero = Real32 { bits: 0 };
    let top = column.page_tops[i];
    let left = column_page_rect(column, i, origin).min.x.minus(origin.x);
    law_pages_near_the_window_are_drawn(column, origin, viewport, i);
    lemma_zero();
    lemma_minus(high, low);
    lemma_minus_keeps_order(high, low, zero);
    lemma_order(zero, strip);
    lemma_plus_keeps_order(high, strip, top);
    lemma_plus_keeps_order(top, column.display_sizes[i].y, low);
    lemma_plus(high, strip);
    lemma_minus(low, strip);
    lemma_minus_keeps_order(low, strip, low);
    lemma_plus_keeps_order(left, column.display_sizes[i].x, viewport.min.x);
    lemma_order(left, viewport.max.x);
    reveal(Real32::spec_up_to);
}

/// The constants that pages are placed by.
proof fn lemma_placing_constants()
    ensures
        (Real32 { bits: PAGE_MARGIN }).is_finite(),
        (Real32 { bits: PAGE_MARGIN }).value() == 24 as real,
        (Real32 { bits: PAGE_GAP }).is_finite(),
        (Real32 { bits: PAGE_GAP }).value() == 18 as real,
        (Real32 { bits: 0x3f00_0000 }).is_finite(),
        (Real32 { bits: 0x3f00_0000 }).value() == 1 as real / 2 as real,
        (Real32 { bits: 0x3f80_0000 }).is_finite(),
        (Real32 { bits: 0x3f80_0000 }).value() == 1 as real,
        (Real32 { bits: 0x4210_0000 }).is_finite(),
        (Real32 { bits: 0x4210_0000 }).value() == 36 as real,
        (Real32 { bits: 0x3eb3_3333 }).is_finite(),
        near(
            100 as real * (Real32 { bits: 0x3eb3_3333 }).value(),
            35 as real,
            1 as real / 100_000 as real,
        ),
{
    lemma2_to64();
    lemma_constant(Real32 { bits: PAGE_MARGIN }, 0xc0_0000, 130, 19, 0x8_0000);
    lemma_constant(Real32 { bits: PAGE_GAP }, 0x90_0000, 130, 19, 0x8_0000);
    lemma_constant(Real32 { bits: 0x3f00_0000 }, 0x80_0000, 125, 24, 0x100_0000);
    lemma_constant(Real32 { bits: 0x3f80_0000 }, 0x80_0000, 126, 23, 0x80_0000);
    lemma_constant(Real32 { bits: 0x4210_0000 }, 0x90_0000, 131, 18, 0x4_0000);
    lemma_constant(Real32 { bits: 0x3eb3_3333 }, 0xb3_3333, 124, 25, 0x200_0000);
}

/// A page is centred in its room: what is left of the room is on both sides of it alike, and at
/// least the margin of 24 is before it.
proof fn lemma_centred(room: Real32, length: Real32)
    requires
        room.is_finite() && size(room.value()) <= 0x400_0000_0000 as real,
        length.is_finite() && size(length.value()) <= 0x400_0000_0000 as real,
    ensures
        centring(room, length).is_finite(),
        near(
            centring(room, length).value(),
            most((room.value() - length.value()) / 2 as real, 24 as real),
            (size(room.value()) + size(length.value())) * (1 as real / 4_000_000 as real),
        ),
{
    lemma_placing_constants();
    let half = Real32 { bits: 0x3f00_0000 };
    lemma_minus(room, length);
    let rest = room.minus(length);
    let r = rest.value();
    assert(r * half.value() == r / 2 as real) by (nonlinear_arith)
        requires
            half.value() == 1 as real / 2 as real,
    ;
    lemma_times(rest, half);
    lemma_larger_smaller(rest.times(half), Real32 { bits: PAGE_MARGIN });
}

/// A rectangle of a size at a place.
proof fn lemma_placed(min: Vector, extent: Vector)
    requires
        min.x.is_finite() && size(min.x.value()) <= 0x1000_0000_0000 as real,
        min.y.is_finite() && size(min.y.value()) <= 0x1000_0000_0000 as real,
        extent.x.is_finite() && size(extent.x.value()) <= 0x1000_0000_0000 as real,
        extent.y.is_finite() && size(extent.y.value()) <= 0x1000_0000_0000 as real,
    ensures
        ({
            let rect = ScreenRect::placed(min, extent);
            &&& rect.min == min
            &&& rect.max.x.is_rounded(min.x.value() + extent.x.value())
            &&& rect.max.y.is_rounded(min.y.value() + extent.y.value())
        }),
{
    lemma_plus(min.x, extent.x);
    lemma_plus(min.y, extent.y);
}

/// A page of a column stands in the middle of the canvas, with at least the margin on its left, at
/// its height in the column, and has its size.
pub proof fn law_column_pages_have_their_places(column: ColumnView, i: int, origin: Vector)
    requires
        column.wf(),
        0 <= i < column.page_sizes.len(),
        is_distance(origin.x) && is_distance(origin.y),
        is_distance(column.page_tops[i]),
        is_distance(column.display_sizes[i].x) && is_distance(column.display_sizes[i].y),
        is_distance(column.canvas_size.x),
    ensures
        ({
            let place = column_page_rect(column, i, origin);
            let width = column.display_sizes[i].x.value();
            let height = column.display_sizes[i].y.value();
            let canvas = column.canvas_size.x.value();
            let left = origin.x.value() + most((canvas - width) / 2 as real, 24 as real);
            let top = origin.y.value() + column.page_tops[i].value();
            let across = (size(origin.x.value()) + size(width) + size(canvas) + 24 as real)
                * sliver();
            let down = (size(origin.y.value()) + size(column.page_tops[i].value()) + size(height)
                + 1 as real) * sliver();
            &&& place.min.x.is_finite() && place.max.x.is_finite()
            &&& place.min.y.is_finite() && place.max.y.is_finite()
            &&& near(place.min.x.value(), left, across)
            &&& near(place.max.x.value(), left + width, across)
            &&& near(place.min.y.value(), top, down)
            &&& near(place.max.y.value(), top + height, down)
        }),
{
    lemma_placing_constants();
    let extent = column.display_sizes[i];
    lemma_centred(column.canvas_size.x, extent.x);
    let offset = centring(column.canvas_size.x, extent.x);
    lemma_plus(origin.x, offset);
    lemma_plus(origin.y, column.page_tops[i]);
    lemma_placed(column_page_rect(column, i, origin).min, extent);
}

/// The pages of a column stand one below the other: the first begins 24 pixels below the upper edge
/// of the canvas, and each of the others 18 pixels below the end of the one before it. Each has the
/// size that it has by the zoom.
pub proof fn law_column_pages_follow_each_other(
    zoom: ZoomMode,
    page_sizes: Seq<[Real32; 2]>,
    viewport: Vector,
    i: int,
)
    requires
        0 <= i < page_sizes.len(),
    ensures
        ({
            let column = column_of(zoom, page_sizes, viewport);
            let top = column.page_tops[i];
            let height = column.display_sizes[i].y;
            let sum = top.value() + height.value() + 18 as real;
            let slack = (size(top.value()) + size(height.value()) + 18 as real) * sliver();
            &&& column.page_tops[0].value() == 24 as real
            &&& column.display_sizes[i] == size_of_page(zoom, page_sizes[i], viewport)
            &&& is_distance(top) && is_distance(height) && i + 1 < page_sizes.len() ==> {
                &&& column.page_tops[i + 1].is_finite()
                &&& near(column.page_tops[i + 1].value(), sum, slack)
            }
            &&& is_distance(top) && is_distance(height) && is_distance(viewport.y) && i + 1
                == page_sizes.len() ==> {
                &&& column.canvas_size.y.is_finite()
                &&& near(
                    column.canvas_size.y.value(),
                    most(top.value() + height.value() + 24 as real, viewport.y.value()),
                    slack,
                )
            }
        }),
{
    lemma_placing_constants();
    let column = column_of(zoom, page_sizes, viewport);
    let top = column.page_tops[i];
    let height = column.display_sizes[i].y;
    let gap = Real32 { bits: PAGE_GAP };
    let margin = Real32 { bits: PAGE_MARGIN };
    assert(column.page_tops[0] == margin);
    if is_distance(top) && is_distance(height) {
        lemma_plus(height, gap);
        lemma_plus(top, height.plus(gap));
        let next = top.plus(height.plus(gap));
        assert(next == page_top(column.display_sizes, (i + 1) as nat));
        if i + 1 == page_sizes.len() && is_distance(viewport.y) {
            lemma_minus(next, gap);
            lemma_plus(next.minus(gap), margin);
            lemma_larger_smaller(next.minus(gap).plus(margin), viewport.y);
        }
    }
}

/// The width of the widest page is that of one of the pages, and no page is wider.
proof fn lemma_widest(display_sizes: Seq<Vector>)
    requires
        forall|i: int| 0 <= i < display_sizes.len() ==> (#[trigger] display_sizes[i]).x.is_finite(),
    ensures
        widest(display_sizes).is_finite(),
        widest(display_sizes).value() >= 0 as real,
        forall|i: int|
            0 <= i < display_sizes.len() ==> (#[trigger] display_sizes[i]).x.value() <= widest(
                display_sizes,
            ).value(),
        widest(display_sizes).value() == 0 as real || exists|i: int|
            0 <= i < display_sizes.len() && (#[trigger] display_sizes[i]).x.value() == widest(
                display_sizes,
            ).value(),
    decreases display_sizes.len(),
{
    if display_sizes.len() == 0 {
        lemma_zero();
    } else {
        let rest = display_sizes.drop_last();
        assert forall|i: int| 0 <= i < rest.len() implies (#[trigger] rest[i]).x.is_finite() by {
            assert(rest[i] == display_sizes[i]);
        }
        lemma_widest(rest);
        let last = display_sizes[display_sizes.len() - 1];
        lemma_larger_smaller(widest(rest), last.x);
        assert forall|i: int| 0 <= i < display_sizes.len() implies (
        #[trigger] display_sizes[i]).x.value() <= widest(display_sizes).value() by {
            if i < rest.len() {
                assert(rest[i] == display_sizes[i]);
            }
        }
        if widest(display_sizes).value() != 0 as real && widest(rest).value() >= last.x.value() {
            let i = choose|i: int|
                0 <= i < rest.len() && (#[trigger] rest[i]).x.value() == widest(rest).value();
            assert(display_sizes[i] == rest[i]);
        }
    }
}

/// The canvas of a column has room for the widest page and the margins on both sides of it, and is
/// not narrower than the window; it is not wider than that.
pub proof fn law_column_canvas_holds_the_pages(
    zoom: ZoomMode,
    page_sizes: Seq<[Real32; 2]>,
    viewport: Vector,
)
    requires
        is_distance(viewport.x),
        forall|i: int|
            0 <= i < page_sizes.len() ==> is_distance(
                size_of_page(zoom, #[trigger] page_sizes[i], viewport).x,
            ),
    ensures
        ({
            let column = column_of(zoom, page_sizes, viewport);
            let canvas = column.canvas_size.x.value();
            &&& column.canvas_size.x.is_finite()
            &&& canvas >= viewport.x.value()
            &&& forall|i: int|
                0 <= i < page_sizes.len() ==> (#[trigger] column.display_sizes[i]).x.value()
                    + 48 as real <= canvas + canvas * sliver()
            &&& canvas == viewport.x.value() || near(canvas, 48 as real, 48 as real * sliver())
                || exists|i: int|
                0 <= i < page_sizes.len() && near(
                    canvas,
                    (#[trigger] column.display_sizes[i]).x.value() + 48 as real,
                    canvas * sliver(),
                )
        }),
{
    let column = column_of(zoom, page_sizes, viewport);
    let sizes = column.display_sizes;
    lemma_fitting_constants();
    assert forall|i: int| 0 <= i < sizes.len() implies is_distance((#[trigger] sizes[i]).x) by {
        assert(sizes[i] == size_of_page(zoom, page_sizes[i], viewport));
    }
    lemma_widest(sizes);
    let margins = Real32 { bits: PAGE_MARGINS };
    let wide = widest(sizes);
    assert(wide.value() <= 0x100_0000_0000 as real);
    lemma_plus(wide, margins);
    lemma_larger_smaller(wide.plus(margins), viewport.x);
    let canvas = column.canvas_size.x.value();
    if canvas != viewport.x.value() && wide.value() != 0 as real {
        let i = choose|i: int|
            0 <= i < sizes.len() && (#[trigger] sizes[i]).x.value() == wide.value();
        assert(near(canvas, column.display_sizes[i].x.value() + 48 as real, canvas * sliver()));
    }
}

/// The distance between the middle of a page and a height.
proof fn lemma_reading_distance(column: ColumnView, i: int, position: Real32)
    requires
        is_distance(column.page_tops[i]),
        is_distance(column.display_sizes[i].y),
        position.is_finite(),
        size(position.value()) <= 0x400_0000_0000 as real,
    ensures
        ({
            let middle = column.page_tops[i].value() + column.display_sizes[i].y.value()
                / 2 as real;
            let distance = reading_distance(column, i, position);
            &&& distance.is_finite()
            &&& near(
                distance.value(),
                size(middle - position.value()),
                (size(column.page_tops[i].value()) + size(column.display_sizes[i].y.value()) + size(
                    position.value(),
                ) + 1 as real) * (1 as real / 4_000_000 as real),
            )
        }),
{
    lemma_placing_constants();
    let half = Real32 { bits: 0x3f00_0000 };
    let height = column.display_sizes[i].y;
    let h = height.value();
    assert(h * half.value() == h / 2 as real) by (nonlinear_arith)
        requires
            half.value() == 1 as real / 2 as real,
    ;
    lemma_times(height, half);
    let below = height.times(half);
    lemma_plus(column.page_tops[i], below);
    let middle = column.page_tops[i].plus(below);
    lemma_minus(middle, position);
    lemma_absolute(middle.minus(position));
}

/// Where a column is read is 35 hundredths of the window below its upper edge.
proof fn lemma_reading_position(scroll: Vector, viewport: Vector)
    requires
        is_distance(scroll.y) && is_distance(viewport.y),
    ensures
        ({
            let position = reading_position(scroll, viewport);
            &&& position.is_finite()
            &&& near(
                position.value(),
                scroll.y.value() + 35 as real * viewport.y.value() / 100 as real,
                (size(scroll.y.value()) + size(viewport.y.value()) + 1 as real) * (1 as real
                    / 4_000_000 as real),
            )
            &&& size(position.value()) <= 0x400_0000_0000 as real
        }),
{
    lemma_placing_constants();
    let share = Real32 { bits: 0x3eb3_3333 };
    let v = viewport.y.value();
    let c = share.value();
    let p = v * c;
    let n = size(v);
    assert(100 as real * p - 35 as real * v <= n / 100_000 as real && 35 as real * v - 100 as real
        * p <= n / 100_000 as real) by (nonlinear_arith)
        requires
            p == v * c,
            100 as real * c - 35 as real <= 1 as real / 100_000 as real,
            35 as real - 100 as real * c <= 1 as real / 100_000 as real,
            n == (if v < 0 as real {
                0 as real - v
            } else {
                v
            }),
    ;
    lemma_times(viewport.y, share);
    lemma_plus(scroll.y, viewport.y.times(share));
}

/// The page that is read is the one whose middle is nearest to where the eye is, 35 hundredths of
/// the window below its upper edge; of pages that are equally near it is the first.
pub proof fn law_nearest_page_is_read(
    column: ColumnView,
    scroll: Vector,
    viewport: Vector,
    i: int,
    k: int,
)
    requires
        column.wf(),
        is_page_read(column, i, reading_position(scroll, viewport)),
        0 <= k < column.page_sizes.len(),
        is_distance(scroll.y) && is_distance(viewport.y),
        is_distance(column.page_tops[i]) && is_distance(column.display_sizes[i].y),
        is_distance(column.page_tops[k]) && is_distance(column.display_sizes[k].y),
    ensures
        ({
            let eye = scroll.y.value() + 35 as real * viewport.y.value() / 100 as real;
            let read = column.page_tops[i].value() + column.display_sizes[i].y.value() / 2 as real;
            let other = column.page_tops[k].value() + column.display_sizes[k].y.value() / 2 as real;
            let slack = (size(scroll.y.value()) + size(viewport.y.value()) + size(
                column.page_tops[i].value(),
            ) + size(column.display_sizes[i].y.value()) + size(column.page_tops[k].value()) + size(
                column.display_sizes[k].y.value(),
            ) + 1 as real) * sliver();
            &&& size(read - eye) <= size(other - eye) + slack
            &&& column.page_tops[i] == column.page_tops[k] && column.display_sizes[i]
                == column.display_sizes[k] ==> i <= k
        }),
{
    let position = reading_position(scroll, viewport);
    lemma_reading_position(scroll, viewport);
    lemma_reading_distance(column, i, position);
    lemma_reading_distance(column, k, position);
    let a = reading_distance(column, i, position);
    let b = reading_distance(column, k, position);
    assert(a.spec_order_key() <= b.spec_order_key());
    lemma_order_of_bits(a, b);
    let at = position.value();
    let eye = scroll.y.value() + 35 as real * viewport.y.value() / 100 as real;
    let read = column.page_tops[i].value() + column.display_sizes[i].y.value() / 2 as real;
    let other = column.page_tops[k].value() + column.display_sizes[k].y.value() / 2 as real;
    let off = (size(scroll.y.value()) + size(viewport.y.value()) + 1 as real) * (1 as real
        / 4_000_000 as real);
    assert(near(size(read - at), size(read - eye), off));
    assert(near(size(other - at), size(other - eye), off));
    assert(size(at) <= 2 as real * size(scroll.y.value()) + size(viewport.y.value()) + 1 as real);
}

/// How many of two places are in the column.
pub open spec fn places_in(page: Option<usize>, place: Option<Destination>, count: nat) -> nat {
    (if page is Some && page.unwrap() < count {
        1nat
    } else {
        0nat
    }) + (if place is Some && place.unwrap().page_index < count {
        1nat
    } else {
        0nat
    })
}

/// What the first pages are scrolled to for.
proof fn lemma_scroll_targets(
    column: ColumnView,
    page: Option<usize>,
    destination: Option<Destination>,
    origin: Vector,
    count: nat,
)
    requires
        count <= usize::MAX,
    ensures
        ({
            let targets = scroll_targets(column, page, destination, origin, count);
            &&& targets.len() == places_in(page, destination, count)
            &&& page is Some && page.unwrap() < count ==> targets.contains(
                page_target(column, page.unwrap() as int, origin),
            )
            &&& destination is Some && destination.unwrap().page_index < count ==> targets.contains(
                destination_target(column, destination.unwrap(), origin),
            )
        }),
    decreases count,
{
    if count > 0 {
        let before = scroll_targets(column, page, destination, origin, (count - 1) as nat);
        let now = targets_on_page(column, page, destination, origin, count - 1);
        let targets = scroll_targets(column, page, destination, origin, count);
        lemma_scroll_targets(column, page, destination, origin, (count - 1) as nat);
        assert(targets == before + now);
        assert forall|t: ScrollTarget| before.contains(t) || now.contains(t) implies #[trigger] targets.contains(
        t) by {
            if before.contains(t) {
                let k = choose|k: int| 0 <= k < before.len() && before[k] == t;
                assert(targets[k] == t);
            } else {
                let k = choose|k: int| 0 <= k < now.len() && now[k] == t;
                assert(targets[before.len() + k] == t);
            }
        }
        if page == Some((count - 1) as usize) {
            assert(now[0] == page_target(column, count - 1, origin));
            assert(now.contains(page_target(column, count - 1, origin)));
        }
        if destination is Some && destination.unwrap().page_index == count - 1 {
            let t = destination_target(column, destination.unwrap(), origin);
            assert(now[now.len() - 1] == t);
            assert(now.contains(t));
        }
        assert(targets.contains(page_target(column, page.unwrap() as int, origin)) || !(page is Some
            && page.unwrap() < count));
    }
}

/// A page of the column that is to be shown is scrolled to with its upper edge at the start of the
/// window, and nothing else is scrolled to on its account.
pub proof fn law_pages_are_scrolled_to(column: ColumnView, page: usize, origin: Vector)
    requires
        column.wf(),
        column.page_sizes.len() <= usize::MAX,
        page < column.page_sizes.len(),
    ensures
        ({
            let targets = scroll_targets(
                column,
                Some(page),
                None,
                origin,
                column.page_sizes.len(),
            );
            let edge = column_page_rect(column, page as int, origin).min.y;
            &&& targets.len() == 1
            &&& targets[0].alignment == Alignment::Start
            &&& targets[0].rect.min == (Vector { x: origin.x, y: edge })
            &&& targets[0].rect.max == (Vector {
                x: origin.x.plus(column.canvas_size.x),
                y: edge.plus(Real32 { bits: 0x3f80_0000 }),
            })
        }),
{
    lemma_scroll_targets(column, Some(page), None, origin, column.page_sizes.len());
}

/// A destination in the column is scrolled to with its height in the middle of the window: as far
/// below the upper edge of its page as the page is magnified. Without a height it is the upper edge
/// of the page.
pub proof fn law_destinations_are_scrolled_to(
    column: ColumnView,
    destination: Destination,
    origin: Vector,
)
    requires
        column.wf(),
        column.page_sizes.len() <= usize::MAX,
        destination.page_index < column.page_sizes.len(),
        ({
            let i = destination.page_index as int;
            let edge = column_page_rect(column, i, origin).min.y;
            &&& is_side(column.page_sizes[i][0])
            &&& is_side(column.display_sizes[i].x)
            &&& column.display_sizes[i].x.value() <= 1_000_000 as real
                * column.page_sizes[i][0].value()
            &&& edge.is_finite() && size(edge.value()) <= 0x400_0000_0000 as real
            &&& destination.y_from_top is Some ==> is_distance(destination.y_from_top.unwrap())
        }),
    ensures
        ({
            let targets = scroll_targets(
                column,
                None,
                Some(destination),
                origin,
                column.page_sizes.len(),
            );
            let i = destination.page_index as int;
            let edge = column_page_rect(column, i, origin).min.y.value();
            let below = match destination.y_from_top {
                Some(y) => y.value(),
                None => 0 as real,
            };
            let magnified = below * (column.display_sizes[i].x.value()
                / column.page_sizes[i][0].value());
            &&& targets.len() == 1
            &&& targets[0].alignment == Alignment::Middle
            &&& targets[0].rect.min.x == origin.x
            &&& targets[0].rect.min.y.is_finite()
            &&& near(
                targets[0].rect.min.y.value(),
                edge + magnified,
                (size(edge) + size(magnified) + 1 as real) * sliver(),
            )
        }),
{
    lemma_zero();
    lemma_scroll_targets(column, None, Some(destination), origin, column.page_sizes.len());
    let i = destination.page_index as int;
    let wide = column.display_sizes[i].x;
    let points = column.page_sizes[i][0];
    let y = or_zero(destination.y_from_top);
    let edge = column_page_rect(column, i, origin).min.y;
    let d = wide.value();
    let w = points.value();
    let q = d / w;
    assert(q > 0 as real && q <= 1_000_000 as real) by (nonlinear_arith)
        requires
            q == d / w,
            d > 0 as real,
            w > 0 as real,
            d <= 1_000_000 as real * w,
    ;
    lemma_over(wide, points);
    let scale = wide.over(points);
    let s = scale.value();
    let b = y.value();
    lemma_approximate_product(b, s, q);
    lemma_times(y, scale);
    lemma_plus(edge, y.times(scale));
}

/// A number times another that is off a bit.
proof fn lemma_approximate_product(b: real, s: real, q: real)
    requires
        q > 0 as real,
        q <= 1_000_000 as real,
        size(b) <= 0x400_0000_0000 as real,
        near(s, q, q * fineness() + trace()),
    ensures
        near(b * s, b * q, size(b * q) * fineness() + 1 as real / 1_000_000_000 as real),
        size(b * q) <= 0x400_0000_0000 as real * 1_000_000 as real,
        size(b * s) <= 0x800_0000_0000 as real * 1_000_000 as real,
{
    let e = fineness();
    let t = trace();
    let n = size(b);
    let tiny = 1 as real / 1_000_000_000 as real;
    assert(size(b * q) == n * q) by (nonlinear_arith)
        requires
            n == (if b < 0 as real {
                0 as real - b
            } else {
                b
            }),
            q > 0 as real,
            size(b * q) == (if b * q < 0 as real {
                0 as real - b * q
            } else {
                b * q
            }),
    ;
    assert(n * t <= tiny) by (nonlinear_arith)
        requires
            n <= 0x400_0000_0000 as real,
            n >= 0 as real,
            t * 0x400_0000_0000 as real <= tiny,
            t > 0 as real,
    ;
    assert(n * q <= 0x400_0000_0000 as real * 1_000_000 as real) by (nonlinear_arith)
        requires
            n <= 0x400_0000_0000 as real,
            n >= 0 as real,
            q <= 1_000_000 as real,
            q > 0 as real,
    ;
    assert(b * s - b * q <= (n * q) * e + n * t && b * q - b * s <= (n * q) * e + n * t)
        by (nonlinear_arith)
        requires
            s - q <= q * e + t,
            q - s <= q * e + t,
            n == (if b < 0 as real {
                0 as real - b
            } else {
                b
            }),
    ;
}

/// A page is centred in its room, for lengths of at most a given size.
proof fn lemma_centred_bounded(room: Real32, length: Real32, bound: real)
    requires
        room.is_finite() && near(room.value(), 0 as real, bound),
        length.is_finite() && near(length.value(), 0 as real, bound),
        1 as real <= bound,
        bound <= 0x1000_0000_0000 as real,
    ensures
        centring(room, length).is_finite(),
        near(
            centring(room, length).value(),
            most((room.value() - length.value()) / 2 as real, 24 as real),
            bound * (1 as real / 7_000_000 as real),
        ),
{
    lemma_placing_constants();
    let half = Real32 { bits: 0x3f00_0000 };
    lemma_minus_bounded(room, length, 2 as real * bound);
    let rest = room.minus(length);
    let r = rest.value();
    assert(r * half.value() == r / 2 as real) by (nonlinear_arith)
        requires
            half.value() == 1 as real / 2 as real,
    ;
    lemma_times_bounded(rest, half, bound + bound / 1000 as real);
    lemma_larger_smaller(rest.times(half), Real32 { bits: PAGE_MARGIN });
}

/// One coordinate of a page that is shown alone.
proof fn lemma_single_placement(start: Real32, from: Real32, to: Real32, length: Real32)
    requires
        is_distance(start) && is_distance(from) && is_distance(to) && is_distance(length),
    ensures
        ({
            let seen = to.minus(from);
            let begin = start.plus(centring(seen, length));
            let end = begin.plus(length);
            let canvas = length.larger(seen).plus(Real32 { bits: PAGE_MARGINS });
            let room = to.value() - from.value();
            let place = start.value() + most((room - length.value()) / 2 as real, 24 as real);
            let slack = (size(start.value()) + size(from.value()) + size(to.value()) + size(
                length.value(),
            ) + 48 as real) * sliver();
            &&& canvas.is_finite() && begin.is_finite() && end.is_finite()
            &&& near(canvas.value(), most(length.value(), room) + 48 as real, slack)
            &&& near(begin.value(), place, slack)
            &&& near(end.value(), place + length.value(), slack)
        }),
{
    lemma_fitting_constants();
    let m = size(start.value()) + size(from.value()) + size(to.value()) + size(length.value())
        + 48 as real;
    assert(near(start.value(), 0 as real, m) && near(length.value(), 0 as real, m));
    assert(near(to.value() - from.value(), 0 as real, m));
    lemma_single_placement_bounded(start, from, to, length, m);
}

/// One coordinate of a page that is shown alone, for lengths of at most a given size.
proof fn lemma_single_placement_bounded(
    start: Real32,
    from: Real32,
    to: Real32,
    length: Real32,
    m: real,
)
    requires
        start.is_finite() && from.is_finite() && to.is_finite() && length.is_finite(),
        near(start.value(), 0 as real, m),
        near(length.value(), 0 as real, m),
        near(to.value() - from.value(), 0 as real, m),
        48 as real <= m,
        m <= 0x800_0000_0000 as real,
    ensures
        ({
            let seen = to.minus(from);
            let begin = start.plus(centring(seen, length));
            let end = begin.plus(length);
            let canvas = length.larger(seen).plus(Real32 { bits: PAGE_MARGINS });
            let room = to.value() - from.value();
            let place = start.value() + most((room - length.value()) / 2 as real, 24 as real);
            &&& canvas.is_finite() && begin.is_finite() && end.is_finite()
            &&& near(canvas.value(), most(length.value(), room) + 48 as real, m * sliver())
            &&& near(begin.value(), place, m * sliver())
            &&& near(end.value(), place + length.value(), m * sliver())
        }),
{
    lemma_fitting_constants();
    lemma_minus_bounded(to, from, m);
    let seen = to.minus(from);
    let wide = m + m / 1000 as real;
    lemma_centred_bounded(seen, length, wide);
    let offset = centring(seen, length);
    lemma_plus_bounded(start, offset, 3 as real * m);
    let begin = start.plus(offset);
    lemma_plus_bounded(begin, length, 3 as real * m);
    lemma_larger_smaller(length, seen);
    lemma_plus_bounded(length.larger(seen), Real32 { bits: PAGE_MARGINS }, 3 as real * m);
}

/// A page that is shown alone is centred in the window, with at least the margin of 24 above it and
/// on its left, and has its size. The canvas has room for the page or the window, whichever is
/// larger, and for both margins.
pub proof fn law_single_pages_are_centred(
    origin: Vector,
    viewport: ScreenRect,
    display_size: Vector,
)
    requires
        is_distance(origin.x) && is_distance(origin.y),
        is_distance(viewport.min.x) && is_distance(viewport.max.x),
        is_distance(viewport.min.y) && is_distance(viewport.max.y),
        is_distance(display_size.x) && is_distance(display_size.y),
    ensures
        ({
            let placed = single_placement(origin, viewport, display_size);
            let wide = viewport.max.x.value() - viewport.min.x.value();
            let high = viewport.max.y.value() - viewport.min.y.value();
            let width = display_size.x.value();
            let height = display_size.y.value();
            let left = origin.x.value() + most((wide - width) / 2 as real, 24 as real);
            let top = origin.y.value() + most((high - height) / 2 as real, 24 as real);
            let across = (size(origin.x.value()) + size(viewport.min.x.value()) + size(
                viewport.max.x.value(),
            ) + size(width) + 48 as real) * sliver();
            let down = (size(origin.y.value()) + size(viewport.min.y.value()) + size(
                viewport.max.y.value(),
            ) + size(height) + 48 as real) * sliver();
            &&& near(placed.canvas_size.x.value(), most(width, wide) + 48 as real, across)
            &&& near(placed.canvas_size.y.value(), most(height, high) + 48 as real, down)
            &&& near(placed.page_rect.min.x.value(), left, across)
            &&& near(placed.page_rect.max.x.value(), left + width, across)
            &&& near(placed.page_rect.min.y.value(), top, down)
            &&& near(placed.page_rect.max.y.value(), top + height, down)
            &&& placed.page_rect.min.x.is_finite() && placed.page_rect.max.x.is_finite()
            &&& placed.page_rect.min.y.is_finite() && placed.page_rect.max.y.is_finite()
            &&& placed.canvas_size.x.is_finite() && placed.canvas_size.y.is_finite()
        }),
{
    lemma_single_placement(origin.x, viewport.min.x, viewport.max.x, display_size.x);
    lemma_single_placement(origin.y, viewport.min.y, viewport.max.y, display_size.y);
}

/// Where a coordinate of a destination ends up on the canvas of a page that is shown alone, and how
/// far that is scrolled for it.
proof fn lemma_destination_place(
    coordinate: Real32,
    scale: Real32,
    room: Real32,
    length: Real32,
    before: Real32,
    m: real,
)
    requires
        coordinate.is_finite() && scale.is_finite() && room.is_finite() && length.is_finite()
            && before.is_finite(),
        near(coordinate.value() * scale.value(), 0 as real, m),
        near(room.value(), 0 as real, m),
        near(length.value(), 0 as real, m),
        near(before.value(), 0 as real, m),
        48 as real <= m,
        m <= 0x800_0000_0000 as real,
    ensures
        ({
            let scroll = coordinate.times(scale).plus(centring(room, length)).minus(before).larger(
                Real32 { bits: 0 },
            );
            let exact = coordinate.value() * scale.value() + most(
                (room.value() - length.value()) / 2 as real,
                24 as real,
            ) - before.value();
            &&& scroll.is_finite()
            &&& near(scroll.value(), most(exact, 0 as real), m * (1 as real / 1_500_000 as real))
        }),
{
    lemma_zero();
    lemma_times_bounded(coordinate, scale, m);
    lemma_centred_bounded(room, length, m);
    let place = coordinate.times(scale);
    let offset = centring(room, length);
    lemma_plus_bounded(place, offset, 3 as real * m);
    lemma_minus_bounded(place.plus(offset), before, 4 as real * m);
    lemma_larger_smaller(place.plus(offset).minus(before), Real32 { bits: 0 });
}

/// A page that is shown alone is scrolled so that a destination on it stands 36 pixels below the
/// upper edge of the window and 35 hundredths of the window from its left edge, as far as the page
/// can be scrolled: it is not scrolled beyond its beginning.
pub proof fn law_destinations_are_in_sight(
    destination: Destination,
    scale: Real32,
    viewport: Vector,
    display_size: Vector,
)
    requires
        destination.x is Some ==> destination.x.unwrap().is_finite(),
        destination.y_from_top is Some ==> destination.y_from_top.unwrap().is_finite(),
        scale.is_finite(),
        destination.x is Some ==> size(destination.x.unwrap().value() * scale.value())
            <= 0x100_0000_0000 as real,
        destination.y_from_top is Some ==> size(
            destination.y_from_top.unwrap().value() * scale.value(),
        ) <= 0x100_0000_0000 as real,
        is_distance(viewport.x) && is_distance(viewport.y),
        is_distance(display_size.x) && is_distance(display_size.y),
    ensures
        ({
            let scroll = scroll_to(destination, scale, viewport, display_size);
            let x = match destination.x {
                Some(x) => x.value() * scale.value(),
                None => 0 as real,
            };
            let y = match destination.y_from_top {
                Some(y) => y.value() * scale.value(),
                None => 0 as real,
            };
            let left = most((viewport.x.value() - display_size.x.value()) / 2 as real, 24 as real);
            let top = most((viewport.y.value() - display_size.y.value()) / 2 as real, 24 as real);
            &&& scroll.x.is_finite() && scroll.y.is_finite()
            &&& near(
                scroll.x.value(),
                most(x + left - 35 as real * viewport.x.value() / 100 as real, 0 as real),
                (size(x) + size(viewport.x.value()) + size(display_size.x.value()) + 48 as real)
                    * sliver(),
            )
            &&& near(
                scroll.y.value(),
                most(y + top - 36 as real, 0 as real),
                (size(y) + size(viewport.y.value()) + size(display_size.y.value()) + 48 as real)
                    * sliver(),
            )
        }),
{
    lemma_zero();
    lemma_placing_constants();
    let zero = Real32 { bits: 0 };
    let share = Real32 { bits: 0x3eb3_3333 };
    let down = Real32 { bits: 0x4210_0000 };
    let x = or_zero(destination.x);
    let y = or_zero(destination.y_from_top);
    if destination.x is None {
        assert(zero.value() * scale.value() == 0 as real) by (nonlinear_arith)
            requires
                zero.value() == 0 as real,
        ;
    }
    if destination.y_from_top is None {
        assert(zero.value() * scale.value() == 0 as real) by (nonlinear_arith)
            requires
                zero.value() == 0 as real,
        ;
    }
    let part = viewport.x.times(share);
    lemma_share_of_window(viewport.x);
    let m = size(x.value() * scale.value()) + size(viewport.x.value()) + size(
        display_size.x.value(),
    ) + 48 as real;
    let n = size(y.value() * scale.value()) + size(viewport.y.value()) + size(
        display_size.y.value(),
    ) + 48 as real;
    assert(near(part.value(), 0 as real, m));
    assert(near(x.value() * scale.value(), 0 as real, m) && near(viewport.x.value(), 0 as real, m)
        && near(display_size.x.value(), 0 as real, m));
    assert(near(y.value() * scale.value(), 0 as real, n) && near(viewport.y.value(), 0 as real, n)
        && near(display_size.y.value(), 0 as real, n));
    lemma_destination_place(x, scale, viewport.x, display_size.x, part, m);
    lemma_destination_place(y, scale, viewport.y, display_size.y, down, n);
    let left = most((viewport.x.value() - display_size.x.value()) / 2 as real, 24 as real);
    let shift = 35 as real * viewport.x.value() / 100 as real;
    let exact = x.value() * scale.value() + left;
    assert(near(
        most(exact - part.value(), 0 as real),
        most(exact - shift, 0 as real),
        m * (1 as real / 5_000_000 as real),
    ));
}

/// 35 hundredths of a length.
proof fn lemma_share_of_window(length: Real32)
    requires
        is_distance(length),
    ensures
        ({
            let part = length.times(Real32 { bits: 0x3eb3_3333 });
            &&& part.is_finite()
            &&& near(
                part.value(),
                35 as real * length.value() / 100 as real,
                (size(length.value()) + 1 as real) * (1 as real / 5_000_000 as real),
            )
        }),
{
    lemma_placing_constants();
    let share = Real32 { bits: 0x3eb3_3333 };
    let v = length.value();
    let c = share.value();
    let p = v * c;
    let n = size(v);
    assert(100 as real * p - 35 as real * v <= n / 100_000 as real && 35 as real * v - 100 as real
        * p <= n / 100_000 as real) by (nonlinear_arith)
        requires
            p == v * c,
            100 as real * c - 35 as real <= 1 as real / 100_000 as real,
            35 as real - 100 as real * c <= 1 as real / 100_000 as real,
            n == (if v < 0 as real {
                0 as real - v
            } else {
                v
            }),
    ;
    lemma_times(length, share);
}

/// A part of a length, up to rounding.
pub proof fn lemma_part_of_length(part: Real32, from: Real32, to: Real32)
    requires
        part.is_finite() && size(part.value()) <= 4 as real,
        is_distance(from) && is_distance(to),
    ensures
        ({
            let length = to.minus(from);
            let exact = part.value() * (to.value() - from.value());
            &&& part.times(length).is_finite()
            &&& near(
                part.times(length).value(),
                exact,
                (size(from.value()) + size(to.value()) + 1 as real) * (1 as real / 1_800_000 as real),
            )
            &&& size(exact) <= 4 as real * (size(from.value()) + size(to.value()))
        }),
{
    lemma_minus(to, from);
    let length = to.minus(from);
    let p = part.value();
    let n = length.value();
    let d = to.value() - from.value();
    let e = size(d) * fineness() + trace();
    let m = size(from.value()) + size(to.value());
    assert(p * n - p * d <= 4 as real * e && p * d - p * n <= 4 as real * e && size(p * d)
        <= 4 as real * m && size(p * n) <= 4 as real * (m + e)) by (nonlinear_arith)
        requires
            n - d <= e,
            d - n <= e,
            e >= 0 as real,
            m >= 0 as real,
            0 as real - m <= d,
            d <= m,
            0 as real - 4 as real <= p,
            p <= 4 as real,
            size(p * d) == (if p * d < 0 as real {
                0 as real - p * d
            } else {
                p * d
            }),
            size(p * n) == (if p * n < 0 as real {
                0 as real - p * n
            } else {
                p * n
            }),
    ;
    lemma_times(part, length);
}

/// A rectangle in fractions of a page stands on the screen where the fractions of the page are:
/// each of its edges as far from that of the page as its fraction of the page's side.
pub proof fn law_rectangles_scale_with_the_page(rect: NormalizedRect, page_rect: ScreenRect)
    requires
        rect.x.is_finite() && size(rect.x.value()) <= 4 as real,
        rect.y.is_finite() && size(rect.y.value()) <= 4 as real,
        rect.width.is_finite() && size(rect.width.value()) <= 4 as real,
        rect.height.is_finite() && size(rect.height.value()) <= 4 as real,
        is_distance(page_rect.min.x) && is_distance(page_rect.max.x),
        is_distance(page_rect.min.y) && is_distance(page_rect.max.y),
    ensures
        ({
            let shown = on_screen(rect, page_rect);
            let wide = page_rect.max.x.value() - page_rect.min.x.value();
            let high = page_rect.max.y.value() - page_rect.min.y.value();
            let left = page_rect.min.x.value() + rect.x.value() * wide;
            let top = page_rect.min.y.value() + rect.y.value() * high;
            let across = 3 as real * (size(page_rect.min.x.value()) + size(page_rect.max.x.value())
                + 1 as real) * sliver();
            let down = 3 as real * (size(page_rect.min.y.value()) + size(page_rect.max.y.value())
                + 1 as real) * sliver();
            &&& shown.min.x.is_finite() && shown.max.x.is_finite()
            &&& shown.min.y.is_finite() && shown.max.y.is_finite()
            &&& near(shown.min.x.value(), left, across)
            &&& near(shown.max.x.value(), left + rect.width.value() * wide, across)
            &&& near(shown.min.y.value(), top, down)
            &&& near(shown.max.y.value(), top + rect.height.value() * high, down)
        }),
{
    lemma_part_of_length(rect.x, page_rect.min.x, page_rect.max.x);
    lemma_part_of_length(rect.width, page_rect.min.x, page_rect.max.x);
    lemma_part_of_length(rect.y, page_rect.min.y, page_rect.max.y);
    lemma_part_of_length(rect.height, page_rect.min.y, page_rect.max.y);
    let x = rect.x.times(page_rect.width());
    let y = rect.y.times(page_rect.height());
    lemma_plus(page_rect.min.x, x);
    lemma_plus(page_rect.min.y, y);
    lemma_plus(page_rect.min.x.plus(x), rect.width.times(page_rect.width()));
    lemma_plus(page_rect.min.y.plus(y), rect.height.times(page_rect.height()));
}

/// One coordinate of a place as a fraction of a page.
proof fn lemma_fraction_of_page(at: Real32, from: Real32, to: Real32)
    requires
        is_distance(at) && is_distance(from) && is_distance(to),
        1 as real <= (to.value() - from.value()) * 0x100_0000_0000 as real,
    ensures
        ({
            let part = at.minus(from).over(to.minus(from)).within(
                Real32 { bits: 0 },
                Real32 { bits: 0x3f80_0000 },
            );
            let length = to.value() - from.value();
            &&& part.is_finite()
            &&& near(
                part.value() * length,
                least(most(at.value() - from.value(), 0 as real), length),
                length * sliver(),
            )
        }),
{
    lemma_zero();
    lemma_placing_constants();
    let zero = Real32 { bits: 0 };
    let one = Real32 { bits: 0x3f80_0000 };
    lemma_minus(at, from);
    lemma_minus(to, from);
    let above = at.minus(from);
    let below = to.minus(from);
    let a = above.value();
    let b = below.value();
    let p = at.value() - from.value();
    let length = to.value() - from.value();
    let big = 0x100_0000_0000 as real;
    let e = 1 as real / 10_000_000 as real;
    assert(near(b, length, length * e));
    assert(near(a, p, size(p) * e + trace()));
    assert(b > 0 as real && b * big * 2 as real >= 1 as real);
    let q = a / b;
    assert(q * b == a) by (nonlinear_arith)
        requires
            q == a / b,
            b > 0 as real,
    ;
    assert(size(q) <= 16 as real * big * big) by (nonlinear_arith)
        requires
            q * b == a,
            b * big * 2 as real >= 1 as real,
            a <= 4 as real * big,
            0 as real - 4 as real * big <= a,
            big > 0 as real,
            b > 0 as real,
            size(q) == (if q < 0 as real {
                0 as real - q
            } else {
                q
            }),
    ;
    lemma_over(above, below);
    let ratio = above.over(below);
    lemma_clamped(ratio, zero, one);
    let f = ratio.value();
    let part = least(most(f, 0 as real), 1 as real);
    lemma_clamped_part(p, length, a, b, q, f);
}

/// A clamped quotient times its divisor.
proof fn lemma_clamped_part(p: real, length: real, a: real, b: real, q: real, f: real)
    requires
        length > 0 as real,
        length * 0x100_0000_0000 as real >= 1 as real,
        near(b, length, length * (1 as real / 10_000_000 as real)),
        near(a, p, size(p) * (1 as real / 10_000_000 as real) + trace()),
        q * b == a,
        near(f, q, size(q) * fineness() + trace()),
    ensures
        near(
            least(most(f, 0 as real), 1 as real) * length,
            least(most(p, 0 as real), length),
            length * sliver(),
        ),
{
    let e = 1 as real / 10_000_000 as real;
    let t = trace();
    let x = f * length;
    let y = q * length;
    assert(near(y, a, size(a) * (2 as real * e))) by {
        assert(y - a <= size(a) * (2 as real * e) && a - y <= size(a) * (2 as real * e))
            by (nonlinear_arith)
            requires
                y == q * length,
                q * b == a,
                b - length <= length * e,
                length - b <= length * e,
                e == 1 as real / 10_000_000 as real,
                length > 0 as real,
                size(a) == (if a < 0 as real {
                    0 as real - a
                } else {
                    a
                }),
        ;
    }
    assert(near(x, y, size(y) * fineness() + t * length)) by {
        assert(x - y <= size(y) * fineness() + t * length && y - x <= size(y) * fineness() + t
            * length) by (nonlinear_arith)
            requires
                x == f * length,
                y == q * length,
                f - q <= size(q) * fineness() + t,
                q - f <= size(q) * fineness() + t,
                length > 0 as real,
                size(y) == (if y < 0 as real {
                    0 as real - y
                } else {
                    y
                }),
                size(q) == (if q < 0 as real {
                    0 as real - q
                } else {
                    q
                }),
        ;
    }
    let tl = t * length;
    assert(tl <= length * e) by (nonlinear_arith)
        requires
            tl == t * length,
            t <= e,
            length > 0 as real,
    ;
    assert(t <= length * e);
    assert(near(x, p, size(p) * (6 as real * e) + 3 as real * (length * e)));
    assert((f < 0 as real) == (x < 0 as real) && (f > 1 as real) == (x > length)) by (nonlinear_arith)
        requires
            x == f * length,
            length > 0 as real,
    ;
    assert(0 as real * length == 0 as real && 1 as real * length == length);
    let z = least(most(f, 0 as real), 1 as real) * length;
    assert(z == least(most(x, 0 as real), length));
}

/// A place on the screen in fractions of a page: the fraction of the page's side that it is away
/// from the page's edge, and the nearest place of the page where it is beside it.
pub proof fn law_places_are_fractions_of_the_page(point: Vector, page_rect: ScreenRect)
    requires
        is_distance(point.x) && is_distance(point.y),
        is_distance(page_rect.min.x) && is_distance(page_rect.max.x),
        is_distance(page_rect.min.y) && is_distance(page_rect.max.y),
        1 as real <= (page_rect.max.x.value() - page_rect.min.x.value()) * 0x100_0000_0000 as real,
        1 as real <= (page_rect.max.y.value() - page_rect.min.y.value()) * 0x100_0000_0000 as real,
    ensures
        ({
            let place = on_page(point, page_rect);
            let wide = page_rect.max.x.value() - page_rect.min.x.value();
            let high = page_rect.max.y.value() - page_rect.min.y.value();
            &&& place[0].is_finite() && place[1].is_finite()
            &&& near(
                place[0].value() * wide,
                least(most(point.x.value() - page_rect.min.x.value(), 0 as real), wide),
                wide * sliver(),
            )
            &&& near(
                place[1].value() * high,
                least(most(point.y.value() - page_rect.min.y.value(), 0 as real), high),
                high * sliver(),
            )
        }),
{
    lemma_fraction_of_page(point.x, page_rect.min.x, page_rect.max.x);
    lemma_fraction_of_page(point.y, page_rect.min.y, page_rect.max.y);
}

/// Whether a number is a length or a density that screens have: between `2^-20` and `2^20`.
pub open spec fn is_on_screen(a: Real32) -> bool {
    a.is_finite() && 1 as real <= a.value() * 0x10_0000 as real && a.value() <= 0x10_0000 as real
}

/// The limits of a picture.
proof fn lemma_picture_limits()
    ensures
        (Real64 { bits: 0x3ff0_0000_0000_0000 }).finite(),
        (Real64 { bits: 0x3ff0_0000_0000_0000 }).value() == 1 as real,
        (Real64 { bits: MAX_TEXTURE_SIDE }).finite(),
        (Real64 { bits: MAX_TEXTURE_SIDE }).value() == 8192 as real,
        (Real64 { bits: MAX_RENDER_PIXELS }).finite(),
        (Real64 { bits: MAX_RENDER_PIXELS }).value() == 24_000_000 as real,
{
    lemma2_to64();
    lemma2_to64_rest();
    double::lemma_constant(
        Real64 { bits: 0x3ff0_0000_0000_0000 },
        0x10_0000_0000_0000,
        1022,
        52,
        0x10_0000_0000_0000,
    );
    double::lemma_constant(
        Real64 { bits: MAX_TEXTURE_SIDE },
        0x10_0000_0000_0000,
        1035,
        39,
        0x80_0000_0000,
    );
    double::lemma_constant(
        Real64 { bits: MAX_RENDER_PIXELS },
        0x16_e360_0000_0000,
        1046,
        28,
        0x1000_0000,
    );
}

/// A length in pixels.
proof fn lemma_pixels_of_length(length: Real32, density: Real32)
    requires
        is_on_screen(length),
        is_on_screen(density),
    ensures
        ({
            let count = pixels(length, density);
            let exact = most(length.value() * density.value(), 1 as real);
            &&& count.finite()
            &&& near(count.value(), exact, exact * (1 as real / 10_000_000 as real))
            &&& 1 as real <= exact <= 0x100_0000_0000 as real
            &&& count.value() >= 1 as real
        }),
{
    lemma_picture_limits();
    let a = length.value();
    let b = density.value();
    let p = a * b;
    assert(p > 0 as real && p <= 0x100_0000_0000 as real) by (nonlinear_arith)
        requires
            p == a * b,
            a > 0 as real,
            b > 0 as real,
            a <= 0x10_0000 as real,
            b <= 0x10_0000 as real,
    ;
    lemma_times(length, density);
    let product = length.times(density);
    crate::float::single::lemma_widened(product);
    double::lemma_larger_smaller(product.widened(), Real64 { bits: 0x3ff0_0000_0000_0000 });
}

/// The factor at which a side is as long as the longest side of a picture.
proof fn lemma_side_factor(count: Real64)
    requires
        count.finite(),
        1 as real <= count.value() <= 0x200_0000_0000 as real,
    ensures
        ({
            let factor = (Real64 { bits: MAX_TEXTURE_SIDE }).over(count);
            &&& factor.finite()
            &&& factor.value() > 0 as real
            &&& near(factor.value() * count.value(), 8192 as real, 1 as real / 1_000_000 as real)
        }),
{
    lemma_picture_limits();
    let w = count.value();
    let q = 8192 as real / w;
    lemma_quotient(8192 as real, w, 1 as real);
    double::lemma_over(Real64 { bits: MAX_TEXTURE_SIDE }, count);
    let f = (Real64 { bits: MAX_TEXTURE_SIDE }).over(count).value();
    let bit = 1 as real / 1_000_000_000_000 as real;
    let t = trace();
    assert(near(f, q, size(q) * bit + t));
    lemma_near_scaled(f, q, size(q) * bit + t, w);
    let tw = t * w;
    assert((size(q) * bit + t) * w == (size(q) * w) * bit + tw) by (nonlinear_arith)
        requires
            tw == t * w,
    ;
    assert(tw <= 1 as real / 1_000_000_000 as real) by (nonlinear_arith)
        requires
            tw == t * w,
            w <= 0x200_0000_0000 as real,
            t * 0x200_0000_0000 as real <= 1 as real / 1_000_000_000 as real,
            t > 0 as real,
    ;
    assert(f > 0 as real) by (nonlinear_arith)
        requires
            f * w > 0 as real,
            w > 0 as real,
    ;
}

/// The factor at which a picture has as many pixels as it may have.
proof fn lemma_area_factor(width: Real64, height: Real64)
    requires
        width.finite() && height.finite(),
        1 as real <= width.value() <= 0x200_0000_0000 as real,
        1 as real <= height.value() <= 0x200_0000_0000 as real,
    ensures
        ({
            let factor = (Real64 { bits: MAX_RENDER_PIXELS }).over(width.times(height)).square_root();
            let area = width.value() * height.value();
            &&& factor.finite()
            &&& factor.value() > 0 as real
            &&& near((factor.value() * factor.value()) * area, 24_000_000 as real, 1 as real)
        }),
{
    lemma_picture_limits();
    let a = width.value();
    let b = height.value();
    let p = a * b;
    assert(p >= 1 as real && p <= 0x200_0000_0000 as real * 0x200_0000_0000 as real)
        by (nonlinear_arith)
        requires
            p == a * b,
            a >= 1 as real,
            b >= 1 as real,
            a <= 0x200_0000_0000 as real,
            b <= 0x200_0000_0000 as real,
    ;
    double::lemma_times(width, height);
    let product = width.times(height);
    let w = product.value();
    let bit = 1 as real / 1_000_000_000_000 as real;
    assert(near(w, p, p * bit));
    let q = 24_000_000 as real / w;
    lemma_quotient(24_000_000 as real, w, 2 as real);
    double::lemma_over(Real64 { bits: MAX_RENDER_PIXELS }, product);
    let ratio = (Real64 { bits: MAX_RENDER_PIXELS }).over(product);
    let r = ratio.value();
    let t = trace();
    assert(near(r, q, size(q) * bit + t));
    lemma_near_scaled(r, q, size(q) * bit + t, w);
    let tw = t * w;
    assert((size(q) * bit + t) * w == (size(q) * w) * bit + tw) by (nonlinear_arith)
        requires
            tw == t * w,
    ;
    assert(tw <= 1 as real / 1_000 as real) by (nonlinear_arith)
        requires
            tw == t * w,
            w <= 2 as real * 0x200_0000_0000 as real * 0x200_0000_0000 as real,
            t * (2 as real * 0x200_0000_0000 as real * 0x200_0000_0000 as real) <= 1 as real
                / 1_000 as real,
            t > 0 as real,
    ;
    let rw = r * w;
    assert(r > 0 as real) by (nonlinear_arith)
        requires
            r * w > 0 as real,
            w > 0 as real,
    ;
    double::lemma_square_root(ratio);
    let s = ratio.square_root().value();
    let ss = s * s;
    lemma_near_scaled(ss, r, r * (1 as real / 1_000_000_000 as real), w);
    assert((r * (1 as real / 1_000_000_000 as real)) * w == rw * (1 as real / 1_000_000_000 as real))
        by (nonlinear_arith)
        requires
            rw == r * w,
    ;
    lemma_near_scaled(w, p, p * bit, ss);
    let sw = ss * w;
    let sp = ss * p;
    assert(w * ss == sw && p * ss == sp && (p * bit) * ss == sp * bit) by (nonlinear_arith)
        requires
            sw == ss * w,
            sp == ss * p,
    ;
    assert(sp >= 0 as real) by (nonlinear_arith)
        requires
            sp == ss * p,
            ss == s * s,
            p > 0 as real,
            s > 0 as real,
    ;
}

/// One side of a picture at a factor.
proof fn lemma_side_of_picture(count: Real64, factor: Real64, exact: real)
    requires
        count.finite(),
        1 as real <= count.value() <= 0x200_0000_0000 as real,
        factor.finite(),
        factor.value() > 0 as real,
        factor.value() * count.value() <= 8193 as real,
        near(count.value(), exact, exact * (1 as real / 10_000_000 as real)),
        exact >= 1 as real,
    ensures
        near(
            count.times(factor).to_usize() as real,
            factor.value() * exact,
            51 as real / 100 as real,
        ),
        near(
            factor.value() * exact,
            factor.value() * count.value(),
            1 as real / 1000 as real,
        ),
{
    let w = count.value();
    let f = factor.value();
    let p = w * f;
    assert(p == f * w && p > 0 as real) by (nonlinear_arith)
        requires
            p == w * f,
            w > 0 as real,
            f > 0 as real,
    ;
    double::lemma_times_bounded(count, factor, 8193 as real);
    let product = count.times(factor);
    double::lemma_zero();
    lemma_near_scaled(w, exact, exact * (1 as real / 10_000_000 as real), f);
    let fe = f * exact;
    assert(w * f == p && exact * f == fe && (exact * (1 as real / 10_000_000 as real)) * f == fe * (
    1 as real / 10_000_000 as real)) by (nonlinear_arith)
        requires
            p == w * f,
            fe == f * exact,
    ;
    assert(fe > 0 as real) by (nonlinear_arith)
        requires
            fe == f * exact,
            f > 0 as real,
            exact > 0 as real,
    ;
    double::lemma_positive_product(count, factor);
    double::lemma_to_usize(product);
}

/// The picture of a page has the pixels that the page has on the screen, at least one on each side.
/// Where a side would be longer than 8192 pixels or the picture would have more than 24 million, both
/// sides are made shorter alike, and no more than is needed: a side is 8192 pixels long then, or the
/// picture has 24 million.
pub proof fn law_pictures_are_as_sharp_as_they_may_be(
    generation: u64,
    page_index: usize,
    display_size: Vector,
    pixels_per_point: Real32,
)
    requires
        is_on_screen(display_size.x) && is_on_screen(display_size.y),
        is_on_screen(pixels_per_point),
    ensures
        ({
            let key = key_for(generation, page_index, display_size, pixels_per_point);
            let across = most(display_size.x.value() * pixels_per_point.value(), 1 as real);
            let down = most(display_size.y.value() * pixels_per_point.value(), 1 as real);
            let half = 51 as real / 100 as real;
            &&& key.generation == generation && key.page_index == page_index
            &&& across <= 8192 as real && down <= 8192 as real && across * down
                <= 24_000_000 as real ==> near(key.pixel_size[0] as real, across, half + half)
                && near(key.pixel_size[1] as real, down, half + half)
            &&& exists|factor: real|
                {
                    &&& #[trigger] near(key.pixel_size[0] as real, factor * across, half)
                    &&& near(key.pixel_size[1] as real, factor * down, half)
                    &&& factor > 0 as real && factor <= 1 as real
                    &&& {
                        ||| factor == 1 as real
                        ||| near(factor * across, 8192 as real, half)
                        ||| near(factor * down, 8192 as real, half)
                        ||| near((factor * across) * (factor * down), 24_000_000 as real, 100 as real)
                    }
                }
        }),
{
    lemma_picture_limits();
    let width = pixels(display_size.x, pixels_per_point);
    let height = pixels(display_size.y, pixels_per_point);
    lemma_pixels_of_length(display_size.x, pixels_per_point);
    lemma_pixels_of_length(display_size.y, pixels_per_point);
    let one = Real64 { bits: 0x3ff0_0000_0000_0000 };
    let side = Real64 { bits: MAX_TEXTURE_SIDE };
    lemma_side_factor(width);
    lemma_side_factor(height);
    lemma_area_factor(width, height);
    let a = side.over(width);
    let b = side.over(height);
    let root = (Real64 { bits: MAX_RENDER_PIXELS }).over(width.times(height)).square_root();
    double::lemma_larger_smaller(a, b);
    double::lemma_larger_smaller(a.smaller(b), one);
    double::lemma_larger_smaller(root, one);
    double::lemma_larger_smaller(a.smaller(b).smaller(one), root.smaller(one));
    let factor = shrinking(width, height);
    let f = factor.value();
    let w = width.value();
    let h = height.value();
    let across = most(display_size.x.value() * pixels_per_point.value(), 1 as real);
    let down = most(display_size.y.value() * pixels_per_point.value(), 1 as real);
    assert(f == least(
        least(least(a.value(), b.value()), 1 as real),
        least(root.value(), 1 as real),
    ));
    lemma_smaller_factor(f, a.value(), w);
    lemma_smaller_factor(f, b.value(), h);
    lemma_side_of_picture(width, factor, across);
    lemma_side_of_picture(height, factor, down);
    let key = key_for(generation, page_index, display_size, pixels_per_point);
    assert(near(key.pixel_size[0] as real, f * across, 51 as real / 100 as real));
    lemma_area_at_factor(f, w, h, across, down);
    if across <= 8192 as real && down <= 8192 as real && across * down <= 24_000_000 as real {
        lemma_factor_is_nearly_one(f, a.value(), b.value(), root.value(), w, h, across, down);
        lemma_near_scaled(f, 1 as real, 1 as real / 100_000 as real, across);
        lemma_near_scaled(f, 1 as real, 1 as real / 100_000 as real, down);
    }
}

/// A smaller factor makes a side no longer.
proof fn lemma_smaller_factor(f: real, a: real, w: real)
    requires
        f <= a,
        f > 0 as real,
        w > 0 as real,
    ensures
        f * w <= a * w,
{
    assert(f * w <= a * w) by (nonlinear_arith)
        requires
            f <= a,
            w > 0 as real,
    ;
}

/// The area at a factor, for sides that are off a bit.
proof fn lemma_area_at_factor(f: real, w: real, h: real, across: real, down: real)
    requires
        f > 0 as real,
        w >= 1 as real && h >= 1 as real,
        near(f * across, f * w, 1 as real / 1000 as real),
        near(f * down, f * h, 1 as real / 1000 as real),
        f * w <= 8193 as real,
        f * h <= 8193 as real,
    ensures
        near((f * across) * (f * down), (f * f) * (w * h), 20 as real),
{
    let x = f * across;
    let y = f * down;
    let p = f * w;
    let q = f * h;
    assert(p >= 0 as real && q >= 0 as real) by (nonlinear_arith)
        requires
            p == f * w,
            q == f * h,
            f > 0 as real,
            w > 0 as real,
            h > 0 as real,
    ;
    assert((f * f) * (w * h) == p * q) by (nonlinear_arith)
        requires
            p == f * w,
            q == f * h,
    ;
    let e = 1 as real / 1000 as real;
    lemma_near_scaled(x, p, e, q);
    assert(e * q <= 9 as real);
    let dy = y - q;
    let xd = x * dy;
    assert(x * y == x * q + xd) by (nonlinear_arith)
        requires
            xd == x * (y - q),
    ;
    assert(xd <= 9 as real && 0 as real - xd <= 9 as real) by (nonlinear_arith)
        requires
            xd == x * dy,
            x <= 8194 as real,
            0 as real - 1 as real <= x,
            dy <= e,
            0 as real - e <= dy,
            e == 1 as real / 1000 as real,
    ;
}

/// Where the page on the screen is not too large, the factor is one, up to rounding.
proof fn lemma_factor_is_nearly_one(
    f: real,
    a: real,
    b: real,
    root: real,
    w: real,
    h: real,
    across: real,
    down: real,
)
    requires
        f == least(least(least(a, b), 1 as real), least(root, 1 as real)),
        a > 0 as real && b > 0 as real && root > 0 as real,
        w >= 1 as real && h >= 1 as real,
        near(a * w, 8192 as real, 1 as real / 1_000_000 as real),
        near(b * h, 8192 as real, 1 as real / 1_000_000 as real),
        near((root * root) * (w * h), 24_000_000 as real, 1 as real),
        near(w, across, across * (1 as real / 10_000_000 as real)),
        near(h, down, down * (1 as real / 10_000_000 as real)),
        1 as real <= across <= 8192 as real,
        1 as real <= down <= 8192 as real,
        across * down <= 24_000_000 as real,
    ensures
        near(f, 1 as real, 1 as real / 100_000 as real),
{
    let e = 1 as real / 1_000_000 as real;
    assert(a >= 1 as real - e) by (nonlinear_arith)
        requires
            a * w >= 8192 as real - 1 as real / 1_000_000 as real,
            w <= 8192 as real + 8192 as real / 10_000_000 as real,
            w > 0 as real,
            a > 0 as real,
            e == 1 as real / 1_000_000 as real,
    ;
    assert(b >= 1 as real - e) by (nonlinear_arith)
        requires
            b * h >= 8192 as real - 1 as real / 1_000_000 as real,
            h <= 8192 as real + 8192 as real / 10_000_000 as real,
            h > 0 as real,
            b > 0 as real,
            e == 1 as real / 1_000_000 as real,
    ;
    let wh = w * h;
    lemma_near_scaled(w, across, across * (1 as real / 10_000_000 as real), h);
    let ah = across * h;
    let ad = across * down;
    assert((across * (1 as real / 10_000_000 as real)) * h == ah * (1 as real / 10_000_000 as real))
        by (nonlinear_arith)
        requires
            ah == across * h,
    ;
    lemma_near_scaled(h, down, down * (1 as real / 10_000_000 as real), across);
    assert(h * across == ah && down * across == ad && (down * (1 as real / 10_000_000 as real))
        * across == ad * (1 as real / 10_000_000 as real)) by (nonlinear_arith)
        requires
            ah == across * h,
            ad == across * down,
    ;
    assert(wh <= 24_000_010 as real);
    assert(wh > 0 as real) by (nonlinear_arith)
        requires
            wh == w * h,
            w > 0 as real,
            h > 0 as real,
    ;
    let rr = root * root;
    assert(rr >= 1 as real - e) by (nonlinear_arith)
        requires
            rr * wh >= 23_999_999 as real,
            wh <= 24_000_010 as real,
            wh > 0 as real,
            e == 1 as real / 1_000_000 as real,
    ;
    assert(root >= 1 as real - e) by (nonlinear_arith)
        requires
            rr == root * root,
            rr >= 1 as real - e,
            root > 0 as real,
            e == 1 as real / 1_000_000 as real,
    ;
}

} // verus!
