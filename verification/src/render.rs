//! Pictures of pages: their size, what of the page they show, and their pixels.

pub mod laws;

use crate::annotations::NormalizedRect;
use crate::float::Real32;
use crate::float::Real64;
use crate::pdf::Destination;
use crate::pdf::RenderedImage;
use crate::text::trim_text;
use crate::text::trimmed;
use vstd::prelude::*;

verus! {

/// The width of the picture of a destination, at one pixel per point.
pub const PREVIEW_WIDTH: i32 = 420;

/// The height of the picture of a destination, at one pixel per point.
pub const PREVIEW_HEIGHT: i32 = 260;

/// The side of a picture in pixels: at least one, and as many as fit in `i32`.
pub open spec fn surface_side(pixels: usize) -> i32 {
    if pixels < 1 {
        1
    } else if pixels > i32::MAX {
        i32::MAX
    } else {
        pixels as i32
    }
}

/// The side of a picture in pixels.
fn side(pixels: usize) -> (r: i32)
    ensures
        r == surface_side(pixels),
{
    if pixels < 1 {
        1
    } else if pixels > i32::MAX as usize {
        i32::MAX
    } else {
        pixels as i32
    }
}

/// How a page is drawn: the size of the picture, and how the page is moved and scaled onto it,
/// where the shift is in pixels if it comes first and else in points of the page.
#[derive(Clone, Copy, Debug, PartialEq)]
pub struct DrawPlan {
    pub width: i32,
    pub height: i32,
    pub scale_x: Real64,
    pub scale_y: Real64,
    pub shift_x: Real64,
    pub shift_y: Real64,
    pub shift_first: bool,
}

/// A whole page on a picture of a given size.
pub open spec fn full_page_plan(page_size: [Real64; 2], pixel_size: [usize; 2]) -> DrawPlan {
    let width = surface_side(pixel_size[0]);
    let height = surface_side(pixel_size[1]);
    DrawPlan {
        width,
        height,
        scale_x: Real64::from_i32(width).over(page_size[0]),
        scale_y: Real64::from_i32(height).over(page_size[1]),
        shift_x: Real64 { bits: 0 },
        shift_y: Real64 { bits: 0 },
        shift_first: false,
    }
}

/// A whole page on a picture of a given size.
pub fn render_full_page(page_size: [Real64; 2], pixel_size: [usize; 2]) -> (r: DrawPlan)
    ensures
        r == full_page_plan(page_size, pixel_size),
{
    let width: i32 = side(pixel_size[0]);
    let height: i32 = side(pixel_size[1]);
    DrawPlan {
        width,
        height,
        scale_x: Real64::from_i32(width).over(page_size[0]),
        scale_y: Real64::from_i32(height).over(page_size[1]),
        shift_x: Real64 { bits: 0 },
        shift_y: Real64 { bits: 0 },
        shift_first: false,
    }
}

/// A side of the picture of a destination on a screen: between one and two pixels per point.
pub open spec fn preview_side(points: i32, pixels_per_point: Real32) -> i32 {
    let one = Real32 { bits: 0x3f80_0000 };
    let two = Real32 { bits: 0x4000_0000 };
    Real32::from_i32(points).times(pixels_per_point.within(one, two)).to_i32()
}

/// A side of the picture of a destination on a screen.
fn preview_pixels(points: i32, pixels_per_point: Real32) -> (r: i32)
    ensures
        r == preview_side(points, pixels_per_point),
{
    let one: Real32 = Real32 { bits: 0x3f80_0000 };
    let two: Real32 = Real32 { bits: 0x4000_0000 };
    Real32::from_i32(points).times(pixels_per_point.within(one, two)).to_i32()
}

/// The part of a page around a point: 62 percent of the width, but from 250 to 380 points, with
/// the point in the middle and at three tenths of the height, and moved to stay on the page.
pub open spec fn close_up_plan(
    x: Real32,
    y: Real32,
    page_size: [Real64; 2],
    width: i32,
    height: i32,
) -> DrawPlan {
    let zero = Real64 { bits: 0 };
    let crop_width = page_size[0].times(Real64 { bits: 0x3fe3_d70a_3d70_a3d7 }).within(
        Real64 { bits: 0x406f_4000_0000_0000 },
        Real64 { bits: 0x4077_c000_0000_0000 },
    );
    let crop_height = crop_width.times(Real64::from_i32(height)).over(Real64::from_i32(width));
    let crop_x = x.widened().minus(crop_width.times(Real64 { bits: 0x3fe0_0000_0000_0000 })).within(
        zero,
        page_size[0].minus(crop_width).larger(zero),
    );
    let crop_y = y.widened().minus(
        crop_height.times(Real64 { bits: 0x3fd3_3333_3333_3333 }),
    ).within(zero, page_size[1].minus(crop_height).larger(zero));
    let scale = Real64::from_i32(width).over(crop_width).smaller(
        Real64::from_i32(height).over(crop_height),
    );
    DrawPlan {
        width,
        height,
        scale_x: scale,
        scale_y: scale,
        shift_x: crop_x.negated(),
        shift_y: crop_y.negated(),
        shift_first: false,
    }
}

/// The whole page in the middle of the picture.
pub open spec fn overview_plan(page_size: [Real64; 2], width: i32, height: i32) -> DrawPlan {
    let half = Real64 { bits: 0x3fe0_0000_0000_0000 };
    let scale = Real64::from_i32(width).over(page_size[0]).smaller(
        Real64::from_i32(height).over(page_size[1]),
    );
    DrawPlan {
        width,
        height,
        scale_x: scale,
        scale_y: scale,
        shift_x: Real64::from_i32(width).minus(page_size[0].times(scale)).times(half),
        shift_y: Real64::from_i32(height).minus(page_size[1].times(scale)).times(half),
        shift_first: true,
    }
}

/// The picture of a destination: close to the point where it names one, else the whole page.
pub open spec fn preview_plan(
    destination: Destination,
    page_size: [Real64; 2],
    pixels_per_point: Real32,
) -> DrawPlan {
    let width = preview_side(PREVIEW_WIDTH, pixels_per_point);
    let height = preview_side(PREVIEW_HEIGHT, pixels_per_point);
    match (destination.x, destination.y_from_top) {
        (Some(x), Some(y)) => close_up_plan(x, y, page_size, width, height),
        _ => overview_plan(page_size, width, height),
    }
}

/// The picture of a destination.
pub fn render_preview(
    destination: &Destination,
    page_size: [Real64; 2],
    pixels_per_point: Real32,
) -> (r: DrawPlan)
    ensures
        r == preview_plan(*destination, page_size, pixels_per_point),
{
    let zero: Real64 = Real64 { bits: 0 };
    let half: Real64 = Real64 { bits: 0x3fe0_0000_0000_0000 };
    let width: i32 = preview_pixels(PREVIEW_WIDTH, pixels_per_point);
    let height: i32 = preview_pixels(PREVIEW_HEIGHT, pixels_per_point);
    let wide: Real64 = Real64::from_i32(width);
    let high: Real64 = Real64::from_i32(height);
    match (destination.x, destination.y_from_top) {
        (Some(x), Some(y)) => {
            let crop_width: Real64 = page_size[0].times(
                Real64 { bits: 0x3fe3_d70a_3d70_a3d7 },
            ).within(
                Real64 { bits: 0x406f_4000_0000_0000 },
                Real64 { bits: 0x4077_c000_0000_0000 },
            );
            let crop_height: Real64 = crop_width.times(high).over(wide);
            let crop_x: Real64 = x.widened().minus(crop_width.times(half)).within(
                zero,
                page_size[0].minus(crop_width).larger(zero),
            );
            let crop_y: Real64 = y.widened().minus(
                crop_height.times(Real64 { bits: 0x3fd3_3333_3333_3333 }),
            ).within(zero, page_size[1].minus(crop_height).larger(zero));
            let scale: Real64 = wide.over(crop_width).smaller(high.over(crop_height));
            DrawPlan {
                width,
                height,
                scale_x: scale,
                scale_y: scale,
                shift_x: crop_x.negated(),
                shift_y: crop_y.negated(),
                shift_first: false,
            }
        },
        _ => {
            let scale: Real64 = wide.over(page_size[0]).smaller(high.over(page_size[1]));
            DrawPlan {
                width,
                height,
                scale_x: scale,
                scale_y: scale,
                shift_x: wide.minus(page_size[0].times(scale)).times(half),
                shift_y: high.minus(page_size[1].times(scale)).times(half),
                shift_first: true,
            }
        },
    }
}

/// How a pixel lies in memory: alpha, red, green and blue as one number of the machine.
#[derive(Clone, Copy, Debug, PartialEq, Eq, Structural)]
pub enum ByteOrder {
    Little,
    Big,
}

/// Where red, green, blue and alpha are among the four bytes of a pixel.
pub open spec fn channel(order: ByteOrder, k: int) -> int {
    match order {
        ByteOrder::Little => if k == 0 {
            2
        } else if k == 1 {
            1
        } else if k == 2 {
            0
        } else {
            3
        },
        ByteOrder::Big => if k == 3 {
            0
        } else {
            k + 1
        },
    }
}

/// The byte of the surface that becomes a byte of the picture: byte `k` of pixel `x` in row `y`.
pub open spec fn surface_byte(
    data: Seq<u8>,
    stride: int,
    order: ByteOrder,
    x: int,
    y: int,
    k: int,
) -> u8 {
    data[y * stride + x * 4 + channel(order, k)]
}

/// The picture that a surface with rows of `stride` bytes holds: red, green, blue and alpha of
/// each pixel, row after row without gaps.
pub fn convert_surface(
    data: &[u8],
    stride: usize,
    width: usize,
    height: usize,
    order: ByteOrder,
) -> (r: RenderedImage)
    requires
        width * 4 <= stride,
        height * stride <= data@.len(),
    ensures
        r.width == width,
        r.height == height,
        r.wf(),
        forall|x: int, y: int, k: int|
            0 <= x < width && 0 <= y < height && 0 <= k < 4 ==> #[trigger] r.rgba@[(y * width + x)
                * 4 + k] == surface_byte(data@, stride as int, order, x, y, k),
{
    let size: usize = data.len();
    let mut rgba: Vec<u8> = Vec::new();
    let mut y: usize = 0;
    proof {
        assert(0 * width == 0) by (nonlinear_arith);
    }
    while y < height
        invariant
            y <= height,
            size == data@.len(),
            width * 4 <= stride,
            height * stride <= data@.len(),
            rgba@.len() == (y * width) * 4,
            forall|a: int, b: int, k: int|
                0 <= a < width && 0 <= b < y && 0 <= k < 4 ==> #[trigger] rgba@[(b * width + a) * 4
                    + k] == surface_byte(data@, stride as int, order, a, b, k),
        decreases height - y,
    {
        proof {
            assert(y * stride + stride <= height * stride) by (nonlinear_arith)
                requires
                    y + 1 <= height,
            ;
            assert(0 <= y * stride) by (nonlinear_arith);
        }
        let row: usize = y * stride;
        let mut x: usize = 0;
        while x < width
            invariant
                x <= width,
                y < height,
                size == data@.len(),
                width * 4 <= stride,
                row == y * stride,
                row + stride <= data@.len(),
                rgba@.len() == (y * width + x) * 4,
                forall|a: int, b: int, k: int|
                    0 <= a < width && 0 <= b < y && 0 <= k < 4 ==> #[trigger] rgba@[(b * width + a)
                        * 4 + k] == surface_byte(data@, stride as int, order, a, b, k),
                forall|a: int, k: int|
                    0 <= a < x && 0 <= k < 4 ==> #[trigger] rgba@[(y * width + a) * 4 + k]
                        == surface_byte(data@, stride as int, order, a, y as int, k),
            decreases width - x,
        {
            let source: usize = row + x * 4;
            let ghost before = rgba@;
            match order {
                ByteOrder::Little => {
                    rgba.push(data[source + 2]);
                    rgba.push(data[source + 1]);
                    rgba.push(data[source]);
                    rgba.push(data[source + 3]);
                },
                ByteOrder::Big => {
                    rgba.push(data[source + 1]);
                    rgba.push(data[source + 2]);
                    rgba.push(data[source + 3]);
                    rgba.push(data[source]);
                },
            }
            proof {
                assert forall|a: int, b: int, k: int|
                    0 <= a < width && 0 <= b < y && 0 <= k < 4 implies #[trigger] rgba@[(b * width
                    + a) * 4 + k] == surface_byte(data@, stride as int, order, a, b, k) by {
                    assert(b * width + width <= y * width) by (nonlinear_arith)
                        requires
                            b + 1 <= y,
                    ;
                    assert(0 <= b * width) by (nonlinear_arith)
                        requires
                            0 <= b,
                            0 <= width,
                    ;
                    assert(rgba@[(b * width + a) * 4 + k] == before[(b * width + a) * 4 + k]);
                }
                assert forall|a: int, k: int| 0 <= a < x + 1 && 0 <= k < 4 implies #[trigger] rgba@[(
                y * width + a) * 4 + k] == surface_byte(
                    data@,
                    stride as int,
                    order,
                    a,
                    y as int,
                    k,
                ) by {
                    assert(0 <= y * width) by (nonlinear_arith)
                        requires
                            0 <= y,
                            0 <= width,
                    ;
                    if a < x {
                        assert(rgba@[(y * width + a) * 4 + k] == before[(y * width + a) * 4 + k]);
                    }
                }
            }
            x = x + 1;
        }
        proof {
            assert((y + 1) * width == y * width + width) by (nonlinear_arith);
            assert forall|a: int, b: int, k: int|
                0 <= a < width && 0 <= b < y + 1 && 0 <= k < 4 implies #[trigger] rgba@[(b * width
                + a) * 4 + k] == surface_byte(data@, stride as int, order, a, b, k) by {
                if b == y {
                    assert(rgba@[(y * width + a) * 4 + k] == surface_byte(
                        data@,
                        stride as int,
                        order,
                        a,
                        y as int,
                        k,
                    ));
                }
            }
        }
        y = y + 1;
    }
    proof {
        assert(height * width == width * height) by (nonlinear_arith);
    }
    RenderedImage { width, height, rgba }
}

/// A selected area in points of the page, heights from below.
#[derive(Clone, Copy, Debug, PartialEq)]
pub struct SelectionArea {
    pub x1: Real64,
    pub x2: Real64,
    pub y1: Real64,
    pub y2: Real64,
}

/// The area of the page that a selection covers.
pub open spec fn area_of(selection: NormalizedRect, page_size: [Real64; 2]) -> SelectionArea {
    let one = Real32 { bits: 0x3f80_0000 };
    SelectionArea {
        x1: selection.x.widened().times(page_size[0]),
        x2: selection.x.plus(selection.width).widened().times(page_size[0]),
        y1: one.minus(selection.y).minus(selection.height).widened().times(page_size[1]),
        y2: one.minus(selection.y).widened().times(page_size[1]),
    }
}

/// The area of the page that a selection covers.
pub fn selection_area(selection: NormalizedRect, page_size: [Real64; 2]) -> (r: SelectionArea)
    ensures
        r == area_of(selection, page_size),
{
    let one: Real32 = Real32 { bits: 0x3f80_0000 };
    SelectionArea {
        x1: selection.x.widened().times(page_size[0]),
        x2: selection.x.plus(selection.width).widened().times(page_size[0]),
        y1: one.minus(selection.y).minus(selection.height).widened().times(page_size[1]),
        y2: one.minus(selection.y).widened().times(page_size[1]),
    }
}

/// A rectangle of whole points from the upper left corner of the page.
#[derive(Clone, Copy, Debug, PartialEq, Eq, Structural)]
pub struct PointRect {
    pub x: i32,
    pub y: i32,
    pub width: i32,
    pub height: i32,
}

/// A rectangle of points in fractions of the page.
pub open spec fn fraction_of(rect: PointRect, page_size: [Real64; 2]) -> NormalizedRect {
    let page_width = page_size[0].narrowed();
    let page_height = page_size[1].narrowed();
    NormalizedRect {
        x: Real32::from_i32(rect.x).over(page_width),
        y: Real32::from_i32(rect.y).over(page_height),
        width: Real32::from_i32(rect.width).over(page_width),
        height: Real32::from_i32(rect.height).over(page_height),
    }
}

/// Whether a rectangle has an area.
pub open spec fn has_area(rect: NormalizedRect) -> bool {
    let zero = Real32 { bits: 0 };
    zero.less(rect.width) && zero.less(rect.height)
}

/// The rectangles of selected text that have an area, in fractions of the page.
pub open spec fn region_rects(region: Seq<PointRect>, page_size: [Real64; 2]) -> Seq<
    NormalizedRect,
>
    decreases region.len(),
{
    if region.len() == 0 {
        Seq::empty()
    } else {
        let before = region_rects(region.drop_last(), page_size);
        let rect = fraction_of(region.last(), page_size);
        if has_area(rect) {
            before.push(rect)
        } else {
            before
        }
    }
}

/// The rectangles of selected text that have an area, in fractions of the page.
fn selection_rects(region: &Vec<PointRect>, page_size: [Real64; 2]) -> (r: Vec<NormalizedRect>)
    ensures
        r@ == region_rects(region@, page_size),
{
    let zero: Real32 = Real32 { bits: 0 };
    let page_width: Real32 = page_size[0].narrowed();
    let page_height: Real32 = page_size[1].narrowed();
    let mut rects: Vec<NormalizedRect> = Vec::new();
    let mut i: usize = 0;
    while i < region.len()
        invariant
            i <= region@.len(),
            zero == (Real32 { bits: 0 }),
            page_width == page_size[0].narrowed(),
            page_height == page_size[1].narrowed(),
            rects@ == region_rects(region@.take(i as int), page_size),
        decreases region@.len() - i,
    {
        proof {
            assert(region@.take(i + 1).drop_last() =~= region@.take(i as int));
        }
        let rect: NormalizedRect = NormalizedRect {
            x: Real32::from_i32(region[i].x).over(page_width),
            y: Real32::from_i32(region[i].y).over(page_height),
            width: Real32::from_i32(region[i].width).over(page_width),
            height: Real32::from_i32(region[i].height).over(page_height),
        };
        if zero.less(rect.width) && zero.less(rect.height) {
            rects.push(rect);
        }
        i = i + 1;
    }
    assert(region@.take(i as int) =~= region@);
    rects
}

/// The selected text without the white space around it, and where it is on the page; there is
/// none where the page has no text.
pub fn resolve_selection(
    text: Option<&str>,
    region: Option<&Vec<PointRect>>,
    page_size: [Real64; 2],
) -> (r: (String, Vec<NormalizedRect>))
    ensures
        r.0@ == (match text {
            Some(text) => trimmed(text@),
            None => Seq::empty(),
        }),
        r.1@ == (match region {
            Some(region) => region_rects(region@, page_size),
            None => Seq::empty(),
        }),
{
    let selected: String = match text {
        Some(text) => trim_text(text),
        None => String::new(),
    };
    let rects: Vec<NormalizedRect> = match region {
        Some(region) => selection_rects(region, page_size),
        None => Vec::new(),
    };
    (selected, rects)
}

} // verus!
