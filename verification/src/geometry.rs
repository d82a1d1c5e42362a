//! Where pages and what is on them stand on the screen.

pub mod laws;

use crate::annotations::NormalizedRect;
use crate::float::real32::lemma_within;
use crate::float::Real32;
use crate::float::Real64;
use crate::pdf::Destination;
use vstd::prelude::*;
use vstd::std_specs::cmp::PartialEqSpecImpl;

verus! {

/// 96/72, the bits of how many logical pixels a point of a page is at full size.
pub const PDF_POINT_TO_LOGICAL: u32 = 0x3faa_aaab;

/// 24.0, the bits of the space around a page.
pub const PAGE_MARGIN: u32 = 0x41c0_0000;

/// 48.0, the bits of the space on both sides of a page.
pub const PAGE_MARGINS: u32 = 0x4240_0000;

/// 18.0, the bits of the space between two pages.
pub const PAGE_GAP: u32 = 0x4190_0000;

/// 40.0, the bits of the least room that a page is fitted to.
pub const LEAST_ROOM: u32 = 0x4220_0000;

/// 0.02, the bits of the least scale that a page is fitted at.
pub const LEAST_SCALE: u32 = 0x3ca3_d70a;

/// 24 million, the bits of how many pixels a picture of a page may have.
pub const MAX_RENDER_PIXELS: u64 = 0x4176_e360_0000_0000;

/// 8192.0, the bits of how many pixels a side of a picture of a page may have.
pub const MAX_TEXTURE_SIDE: u64 = 0x40c0_0000_0000_0000;

/// A place or a distance on the screen.
#[derive(Clone, Copy, Debug, PartialEq)]
pub struct Vector {
    pub x: Real32,
    pub y: Real32,
}

impl Vector {
    /// The corner, or no distance.
    pub open spec fn spec_zero() -> Vector {
        Vector { x: Real32 { bits: 0 }, y: Real32 { bits: 0 } }
    }

    /// The corner, or no distance.
    #[verifier::when_used_as_spec(spec_zero)]
    pub fn zero() -> (r: Vector)
        ensures
            r == Vector::spec_zero(),
    {
        Vector { x: Real32 { bits: 0 }, y: Real32 { bits: 0 } }
    }

    /// A place by its distance from another.
    pub open spec fn spec_moved(self, distance: Vector) -> Vector {
        Vector { x: self.x.plus(distance.x), y: self.y.plus(distance.y) }
    }

    /// A place by its distance from another.
    #[verifier::when_used_as_spec(spec_moved)]
    pub fn moved(self, distance: Vector) -> (r: Vector)
        ensures
            r == self.spec_moved(distance),
    {
        Vector { x: self.x.plus(distance.x), y: self.y.plus(distance.y) }
    }
}

/// A rectangle on the screen, by two corners.
#[derive(Clone, Copy, Debug, PartialEq)]
pub struct ScreenRect {
    pub min: Vector,
    pub max: Vector,
}

impl ScreenRect {
    /// The rectangle of a size at a place.
    pub open spec fn spec_placed(min: Vector, size: Vector) -> ScreenRect {
        ScreenRect { min, max: min.moved(size) }
    }

    /// The rectangle of a size at a place.
    #[verifier::when_used_as_spec(spec_placed)]
    pub fn placed(min: Vector, size: Vector) -> (r: ScreenRect)
        ensures
            r == ScreenRect::spec_placed(min, size),
    {
        ScreenRect { min, max: min.moved(size) }
    }

    /// How wide the rectangle is.
    pub open spec fn spec_width(self) -> Real32 {
        self.max.x.minus(self.min.x)
    }

    /// How wide the rectangle is.
    #[verifier::when_used_as_spec(spec_width)]
    pub fn width(self) -> (r: Real32)
        ensures
            r == self.spec_width(),
    {
        self.max.x.minus(self.min.x)
    }

    /// How high the rectangle is.
    pub open spec fn spec_height(self) -> Real32 {
        self.max.y.minus(self.min.y)
    }

    /// How high the rectangle is.
    #[verifier::when_used_as_spec(spec_height)]
    pub fn height(self) -> (r: Real32)
        ensures
            r == self.spec_height(),
    {
        self.max.y.minus(self.min.y)
    }

    /// Whether two rectangles have a point in common.
    pub open spec fn spec_intersects(self, other: ScreenRect) -> bool {
        &&& self.min.x.up_to(other.max.x)
        &&& other.min.x.up_to(self.max.x)
        &&& self.min.y.up_to(other.max.y)
        &&& other.min.y.up_to(self.max.y)
    }

    /// Whether two rectangles have a point in common.
    #[verifier::when_used_as_spec(spec_intersects)]
    pub fn intersects(self, other: ScreenRect) -> (r: bool)
        ensures
            r == self.spec_intersects(other),
    {
        self.min.x.up_to(other.max.x) && other.min.x.up_to(self.max.x) && self.min.y.up_to(
            other.max.y,
        ) && other.min.y.up_to(self.max.y)
    }

    /// The rectangle with its own height added above and below.
    pub open spec fn spec_tripled(self) -> ScreenRect {
        let zero = Real32 { bits: 0 };
        ScreenRect {
            min: Vector { x: self.min.x.minus(zero), y: self.min.y.minus(self.height()) },
            max: Vector { x: self.max.x.plus(zero), y: self.max.y.plus(self.height()) },
        }
    }

    /// The rectangle with its own height added above and below.
    #[verifier::when_used_as_spec(spec_tripled)]
    pub fn tripled(self) -> (r: ScreenRect)
        ensures
            r == self.spec_tripled(),
    {
        let zero: Real32 = Real32 { bits: 0 };
        let height: Real32 = self.height();
        ScreenRect {
            min: Vector { x: self.min.x.minus(zero), y: self.min.y.minus(height) },
            max: Vector { x: self.max.x.plus(zero), y: self.max.y.plus(height) },
        }
    }
}

/// How the size of a page on the screen is chosen.
#[derive(Clone, Copy, Debug)]
pub enum ZoomMode {
    /// By hand; full size is one.
    Manual(Real32),
    /// By the width of the window.
    FitWidth,
    /// So that all of the page is in the window.
    FitPage,
}

impl PartialEq for ZoomMode {
    /// Whether two ways are the same one; by hand, with equal numbers.
    fn eq(&self, other: &ZoomMode) -> (r: bool) {
        match (*self, *other) {
            (ZoomMode::Manual(a), ZoomMode::Manual(b)) => a.equals(b),
            (ZoomMode::FitWidth, ZoomMode::FitWidth) => true,
            (ZoomMode::FitPage, ZoomMode::FitPage) => true,
            _ => false,
        }
    }
}

impl PartialEqSpecImpl for ZoomMode {
    open spec fn obeys_eq_spec() -> bool {
        true
    }

    open spec fn eq_spec(&self, other: &ZoomMode) -> bool {
        match (*self, *other) {
            (ZoomMode::Manual(a), ZoomMode::Manual(b)) => a.equals(b),
            (ZoomMode::FitWidth, ZoomMode::FitWidth) => true,
            (ZoomMode::FitPage, ZoomMode::FitPage) => true,
            _ => false,
        }
    }
}

/// The scale at which a length is fitted to a room.
pub open spec fn fitting_scale(room: Real32, length: Real32) -> Real32 {
    room.minus(Real32 { bits: PAGE_MARGINS }).larger(Real32 { bits: LEAST_ROOM }).over(length)
}

/// The scale at which a length is fitted to a room.
fn fit(room: Real32, length: Real32) -> (r: Real32)
    ensures
        r == fitting_scale(room, length),
{
    room.minus(Real32 { bits: PAGE_MARGINS }).larger(Real32 { bits: LEAST_ROOM }).over(length)
}

/// How many logical pixels a point of a page is on the screen.
pub open spec fn scale_of(zoom: ZoomMode, page_size: [Real32; 2], viewport: Vector) -> Real32 {
    match zoom {
        ZoomMode::Manual(factor) => (Real32 { bits: PDF_POINT_TO_LOGICAL }).times(factor),
        ZoomMode::FitWidth => fitting_scale(viewport.x, page_size[0]).larger(
            Real32 { bits: LEAST_SCALE },
        ),
        ZoomMode::FitPage => fitting_scale(viewport.x, page_size[0]).smaller(
            fitting_scale(viewport.y, page_size[1]),
        ).larger(Real32 { bits: LEAST_SCALE }),
    }
}

/// How many logical pixels a point of a page is on the screen.
pub fn display_scale(zoom: ZoomMode, page_size: [Real32; 2], viewport: Vector) -> (r: Real32)
    ensures
        r == scale_of(zoom, page_size, viewport),
{
    match zoom {
        ZoomMode::Manual(factor) => (Real32 { bits: PDF_POINT_TO_LOGICAL }).times(factor),
        ZoomMode::FitWidth => fit(viewport.x, page_size[0]).larger(Real32 { bits: LEAST_SCALE }),
        ZoomMode::FitPage => fit(viewport.x, page_size[0]).smaller(
            fit(viewport.y, page_size[1]),
        ).larger(Real32 { bits: LEAST_SCALE }),
    }
}

/// The size of a page on the screen.
pub open spec fn size_of_page(zoom: ZoomMode, page_size: [Real32; 2], viewport: Vector) -> Vector {
    let scale = scale_of(zoom, page_size, viewport);
    Vector { x: page_size[0].times(scale), y: page_size[1].times(scale) }
}

/// The size of a page on the screen.
pub fn display_size(zoom: ZoomMode, page_size: [Real32; 2], viewport: Vector) -> (r: Vector)
    ensures
        r == size_of_page(zoom, page_size, viewport),
{
    let scale: Real32 = display_scale(zoom, page_size, viewport);
    Vector { x: page_size[0].times(scale), y: page_size[1].times(scale) }
}

/// What the picture of a page is kept under: which document, which page, and its size.
#[derive(Clone, Copy, Debug, Eq, Hash, PartialEq)]
pub struct RenderKey {
    pub generation: u64,
    pub page_index: usize,
    pub pixel_size: [usize; 2],
}

impl RenderKey {
    /// Whether two keys are the same.
    pub fn same(self, other: RenderKey) -> (r: bool)
        ensures
            r == (self == other),
    {
        let r: bool = self.generation == other.generation && self.page_index == other.page_index
            && self.pixel_size[0] == other.pixel_size[0] && self.pixel_size[1]
            == other.pixel_size[1];
        proof {
            if r {
                assert(self.pixel_size =~= other.pixel_size);
            }
        }
        r
    }

    /// Whether a key is for a page of a document, at whatever size.
    pub open spec fn spec_shows(self, generation: u64, page_index: usize) -> bool {
        self.generation == generation && self.page_index == page_index
    }

    /// Whether a key is for a page of a document, at whatever size.
    #[verifier::when_used_as_spec(spec_shows)]
    pub fn shows(self, generation: u64, page_index: usize) -> (r: bool)
        ensures
            r == self.spec_shows(generation, page_index),
    {
        self.generation == generation && self.page_index == page_index
    }
}

/// A length on the screen in pixels, at least one.
pub open spec fn pixels(length: Real32, pixels_per_point: Real32) -> Real64 {
    length.times(pixels_per_point).widened().larger(Real64 { bits: 0x3ff0_0000_0000_0000 })
}

/// The factor by which a picture is made smaller so that neither its sides nor all of it are too
/// large.
pub open spec fn shrinking(width: Real64, height: Real64) -> Real64 {
    let one = Real64 { bits: 0x3ff0_0000_0000_0000 };
    let side = Real64 { bits: MAX_TEXTURE_SIDE };
    let side_scale = side.over(width).smaller(side.over(height)).smaller(one);
    let pixel_scale = (Real64 { bits: MAX_RENDER_PIXELS }).over(
        width.times(height),
    ).square_root().smaller(one);
    side_scale.smaller(pixel_scale)
}

/// The picture of a page that is wanted for its size on the screen.
pub open spec fn key_for(
    generation: u64,
    page_index: usize,
    display_size: Vector,
    pixels_per_point: Real32,
) -> RenderKey {
    let width = pixels(display_size.x, pixels_per_point);
    let height = pixels(display_size.y, pixels_per_point);
    let scale = shrinking(width, height);
    RenderKey {
        generation,
        page_index,
        pixel_size: [width.times(scale).to_usize(), height.times(scale).to_usize()],
    }
}

/// The picture of a page that is wanted for its size on the screen.
pub fn render_key(
    generation: u64,
    page_index: usize,
    display_size: Vector,
    pixels_per_point: Real32,
) -> (r: RenderKey)
    ensures
        r == key_for(generation, page_index, display_size, pixels_per_point),
{
    let one: Real64 = Real64 { bits: 0x3ff0_0000_0000_0000 };
    let side: Real64 = Real64 { bits: MAX_TEXTURE_SIDE };
    let width: Real64 = display_size.x.times(pixels_per_point).widened().larger(one);
    let height: Real64 = display_size.y.times(pixels_per_point).widened().larger(one);
    let side_scale: Real64 = side.over(width).smaller(side.over(height)).smaller(one);
    let pixel_scale: Real64 = (Real64 { bits: MAX_RENDER_PIXELS }).over(
        width.times(height),
    ).square_root().smaller(one);
    let scale: Real64 = side_scale.smaller(pixel_scale);
    RenderKey {
        generation,
        page_index,
        pixel_size: [width.times(scale).to_usize(), height.times(scale).to_usize()],
    }
}

/// Where a rectangle of a page is on the screen.
pub open spec fn on_screen(rect: NormalizedRect, page_rect: ScreenRect) -> ScreenRect {
    ScreenRect::placed(
        Vector {
            x: page_rect.min.x.plus(rect.x.times(page_rect.width())),
            y: page_rect.min.y.plus(rect.y.times(page_rect.height())),
        },
        Vector {
            x: rect.width.times(page_rect.width()),
            y: rect.height.times(page_rect.height()),
        },
    )
}

/// Where a rectangle of a page is on the screen.
pub fn rect_to_screen(rect: NormalizedRect, page_rect: ScreenRect) -> (r: ScreenRect)
    ensures
        r == on_screen(rect, page_rect),
{
    let width: Real32 = page_rect.width();
    let height: Real32 = page_rect.height();
    ScreenRect::placed(
        Vector {
            x: page_rect.min.x.plus(rect.x.times(width)),
            y: page_rect.min.y.plus(rect.y.times(height)),
        },
        Vector { x: rect.width.times(width), y: rect.height.times(height) },
    )
}

/// A place on the screen in fractions of the page; places beside the page become places on its
/// edge.
pub open spec fn on_page(point: Vector, page_rect: ScreenRect) -> [Real32; 2] {
    let zero = Real32 { bits: 0 };
    let one = Real32 { bits: 0x3f80_0000 };
    [
        point.x.minus(page_rect.min.x).over(page_rect.width()).within(zero, one),
        point.y.minus(page_rect.min.y).over(page_rect.height()).within(zero, one),
    ]
}

/// A place on the screen in fractions of the page.
pub fn point_to_normalized(point: Vector, page_rect: ScreenRect) -> (r: [Real32; 2])
    ensures
        r == on_page(point, page_rect),
{
    let zero: Real32 = Real32 { bits: 0 };
    let one: Real32 = Real32 { bits: 0x3f80_0000 };
    [
        point.x.minus(page_rect.min.x).over(page_rect.width()).within(zero, one),
        point.y.minus(page_rect.min.y).over(page_rect.height()).within(zero, one),
    ]
}

/// How far a page is from the corner of a room that it is centred in; at least the margin.
pub open spec fn centring(room: Real32, length: Real32) -> Real32 {
    room.minus(length).times(Real32 { bits: 0x3f00_0000 }).larger(Real32 { bits: PAGE_MARGIN })
}

/// How far a page is from the corner of a room that it is centred in.
fn centre(room: Real32, length: Real32) -> (r: Real32)
    ensures
        r == centring(room, length),
{
    room.minus(length).times(Real32 { bits: 0x3f00_0000 }).larger(Real32 { bits: PAGE_MARGIN })
}

/// Where a single page is, and how large the canvas that it is on.
#[derive(Clone, Copy, Debug, PartialEq)]
pub struct SinglePlacement {
    pub canvas_size: Vector,
    pub page_rect: ScreenRect,
}

/// Where a single page is in the part of the canvas that is seen.
pub open spec fn single_placement(
    origin: Vector,
    viewport: ScreenRect,
    display_size: Vector,
) -> SinglePlacement {
    let margins = Real32 { bits: PAGE_MARGINS };
    SinglePlacement {
        canvas_size: Vector {
            x: display_size.x.larger(viewport.width()).plus(margins),
            y: display_size.y.larger(viewport.height()).plus(margins),
        },
        page_rect: ScreenRect::placed(
            origin.moved(
                Vector {
                    x: centring(viewport.width(), display_size.x),
                    y: centring(viewport.height(), display_size.y),
                },
            ),
            display_size,
        ),
    }
}

/// Where a single page is in the part of the canvas that is seen.
pub fn place_single_page(
    origin: Vector,
    viewport: ScreenRect,
    display_size: Vector,
) -> (r: SinglePlacement)
    ensures
        r == single_placement(origin, viewport, display_size),
{
    let margins: Real32 = Real32 { bits: PAGE_MARGINS };
    let width: Real32 = viewport.width();
    let height: Real32 = viewport.height();
    SinglePlacement {
        canvas_size: Vector {
            x: display_size.x.larger(width).plus(margins),
            y: display_size.y.larger(height).plus(margins),
        },
        page_rect: ScreenRect::placed(
            origin.moved(
                Vector { x: centre(width, display_size.x), y: centre(height, display_size.y) },
            ),
            display_size,
        ),
    }
}

/// A coordinate, or zero where there is none.
pub open spec fn or_zero(coordinate: Option<Real32>) -> Real32 {
    match coordinate {
        Some(value) => value,
        None => Real32 { bits: 0 },
    }
}

/// A coordinate, or zero where there is none.
fn coordinate_or_zero(coordinate: Option<Real32>) -> (r: Real32)
    ensures
        r == or_zero(coordinate),
{
    match coordinate {
        Some(value) => value,
        None => Real32 { bits: 0 },
    }
}

/// How far a single page is scrolled to show a destination: 36 pixels below the upper edge and
/// a bit more than a third from the left.
pub open spec fn scroll_to(
    destination: Destination,
    scale: Real32,
    viewport: Vector,
    display_size: Vector,
) -> Vector {
    let zero = Real32 { bits: 0 };
    Vector {
        x: or_zero(destination.x).times(scale).plus(centring(viewport.x, display_size.x)).minus(
            viewport.x.times(Real32 { bits: 0x3eb3_3333 }),
        ).larger(zero),
        y: or_zero(destination.y_from_top).times(scale).plus(
            centring(viewport.y, display_size.y),
        ).minus(Real32 { bits: 0x4210_0000 }).larger(zero),
    }
}

/// How far a single page is scrolled to show a destination.
pub fn destination_offset(
    destination: &Destination,
    scale: Real32,
    viewport: Vector,
    display_size: Vector,
) -> (r: Vector)
    ensures
        r == scroll_to(*destination, scale, viewport, display_size),
{
    let zero: Real32 = Real32 { bits: 0 };
    Vector {
        x: coordinate_or_zero(destination.x).times(scale).plus(
            centre(viewport.x, display_size.x),
        ).minus(viewport.x.times(Real32 { bits: 0x3eb3_3333 })).larger(zero),
        y: coordinate_or_zero(destination.y_from_top).times(scale).plus(
            centre(viewport.y, display_size.y),
        ).minus(Real32 { bits: 0x4210_0000 }).larger(zero),
    }
}

/// The sizes of all pages on the screen.
pub open spec fn sizes_of_pages(
    zoom: ZoomMode,
    page_sizes: Seq<[Real32; 2]>,
    viewport: Vector,
) -> Seq<Vector> {
    page_sizes.map_values(|page_size: [Real32; 2]| size_of_page(zoom, page_size, viewport))
}

/// Where a page begins below the upper edge of the canvas, with the pages one below the other;
/// for the number of pages, where a page after the last would begin.
pub open spec fn page_top(display_sizes: Seq<Vector>, i: nat) -> Real32
    decreases i,
{
    if i == 0 {
        Real32 { bits: PAGE_MARGIN }
    } else {
        page_top(display_sizes, (i - 1) as nat).plus(
            display_sizes[i - 1].y.plus(Real32 { bits: PAGE_GAP }),
        )
    }
}

/// The width of the widest page.
pub open spec fn widest(display_sizes: Seq<Vector>) -> Real32
    decreases display_sizes.len(),
{
    if display_sizes.len() == 0 {
        Real32 { bits: 0 }
    } else {
        widest(display_sizes.drop_last()).larger(display_sizes.last().x)
    }
}

/// All pages one below the other.
#[derive(Debug)]
pub struct Column {
    pub page_sizes: Vec<[Real32; 2]>,
    pub display_sizes: Vec<Vector>,
    pub page_tops: Vec<Real32>,
    pub canvas_size: Vector,
}

/// What a column of pages is like.
#[verifier::ext_equal]
pub struct ColumnView {
    pub page_sizes: Seq<[Real32; 2]>,
    pub display_sizes: Seq<Vector>,
    pub page_tops: Seq<Real32>,
    pub canvas_size: Vector,
}

impl View for Column {
    type V = ColumnView;

    open spec fn view(&self) -> ColumnView {
        ColumnView {
            page_sizes: self.page_sizes@,
            display_sizes: self.display_sizes@,
            page_tops: self.page_tops@,
            canvas_size: self.canvas_size,
        }
    }
}

impl ColumnView {
    /// There is a size and a place for each page.
    pub open spec fn wf(self) -> bool {
        &&& self.display_sizes.len() == self.page_sizes.len()
        &&& self.page_tops.len() == self.page_sizes.len()
    }
}

/// The column of the pages of a document.
pub open spec fn column_of(
    zoom: ZoomMode,
    page_sizes: Seq<[Real32; 2]>,
    viewport: Vector,
) -> ColumnView {
    let display_sizes = sizes_of_pages(zoom, page_sizes, viewport);
    ColumnView {
        page_sizes,
        display_sizes,
        page_tops: Seq::new(page_sizes.len(), |i: int| page_top(display_sizes, i as nat)),
        canvas_size: Vector {
            x: widest(display_sizes).plus(Real32 { bits: PAGE_MARGINS }).larger(viewport.x),
            y: page_top(display_sizes, page_sizes.len()).minus(Real32 { bits: PAGE_GAP }).plus(
                Real32 { bits: PAGE_MARGIN },
            ).larger(viewport.y),
        },
    }
}

/// The column of the pages of a document.
pub fn lay_out_column(
    zoom: ZoomMode,
    page_sizes: &Vec<[Real32; 2]>,
    viewport: Vector,
) -> (r: Column)
    ensures
        r@ == column_of(zoom, page_sizes@, viewport),
        r@.wf(),
{
    let ghost all_sizes = sizes_of_pages(zoom, page_sizes@, viewport);
    let mut copied: Vec<[Real32; 2]> = Vec::new();
    let mut display_sizes: Vec<Vector> = Vec::new();
    let mut page_tops: Vec<Real32> = Vec::new();
    let mut next_top: Real32 = Real32 { bits: PAGE_MARGIN };
    let mut width: Real32 = Real32 { bits: 0 };
    let mut i: usize = 0;
    while i < page_sizes.len()
        invariant
            i <= page_sizes@.len(),
            all_sizes == sizes_of_pages(zoom, page_sizes@, viewport),
            copied@ == page_sizes@.take(i as int),
            display_sizes@ == all_sizes.take(i as int),
            page_tops@ == Seq::new(i as nat, |k: int| page_top(all_sizes, k as nat)),
            next_top == page_top(all_sizes, i as nat),
            width == widest(all_sizes.take(i as int)),
        decreases page_sizes@.len() - i,
    {
        let size: Vector = display_size(zoom, page_sizes[i], viewport);
        proof {
            assert(all_sizes[i as int] == size);
            assert(all_sizes.take(i + 1) =~= all_sizes.take(i as int).push(size));
            assert(all_sizes.take(i + 1).drop_last() =~= all_sizes.take(i as int));
            assert(page_sizes@.take(i + 1) =~= page_sizes@.take(i as int).push(
                page_sizes@[i as int],
            ));
        }
        copied.push(page_sizes[i]);
        page_tops.push(next_top);
        assert(page_tops@ =~= Seq::new((i + 1) as nat, |k: int| page_top(all_sizes, k as nat)));
        next_top = next_top.plus(size.y.plus(Real32 { bits: PAGE_GAP }));
        width = width.larger(size.x);
        display_sizes.push(size);
        i = i + 1;
    }
    assert(all_sizes.take(i as int) =~= all_sizes);
    assert(page_sizes@.take(i as int) =~= page_sizes@);
    let canvas_size: Vector = Vector {
        x: width.plus(Real32 { bits: PAGE_MARGINS }).larger(viewport.x),
        y: next_top.minus(Real32 { bits: PAGE_GAP }).plus(Real32 { bits: PAGE_MARGIN }).larger(
            viewport.y,
        ),
    };
    let column: Column = Column { page_sizes: copied, display_sizes, page_tops, canvas_size };
    assert(column@ =~= column_of(zoom, page_sizes@, viewport));
    column
}

/// How far into the canvas a page of a column begins.
pub open spec fn column_offset(column: ColumnView, i: int) -> Vector {
    Vector {
        x: centring(column.canvas_size.x, column.display_sizes[i].x),
        y: column.page_tops[i],
    }
}

/// Where a page of a column is on the screen.
pub open spec fn column_page_rect(column: ColumnView, i: int, origin: Vector) -> ScreenRect {
    ScreenRect::placed(origin.moved(column_offset(column, i)), column.display_sizes[i])
}

/// Where a page of a column is on the canvas.
pub open spec fn column_canvas_rect(column: ColumnView, i: int, origin: Vector) -> ScreenRect {
    ScreenRect::placed(
        Vector {
            x: origin.moved(column_offset(column, i)).x.minus(origin.x),
            y: column.page_tops[i],
        },
        column.display_sizes[i],
    )
}

/// Whether a page of a column is seen, or is so near that it is drawn ahead: at most the height
/// of the window above or below it.
pub open spec fn column_page_near(
    column: ColumnView,
    i: int,
    origin: Vector,
    viewport: ScreenRect,
) -> bool {
    column_canvas_rect(column, i, origin).intersects(viewport.tripled())
}

/// Where the part of the screen that is scrolled to ends up.
#[derive(Clone, Copy, Debug, PartialEq, Eq, Structural)]
pub enum Alignment {
    Start,
    Middle,
}

/// A part of the screen that is scrolled to.
#[derive(Clone, Copy, Debug, PartialEq)]
pub struct ScrollTarget {
    pub rect: ScreenRect,
    pub alignment: Alignment,
}

/// A line across the canvas.
pub open spec fn canvas_line(column: ColumnView, origin: Vector, y: Real32) -> ScreenRect {
    ScreenRect::placed(
        Vector { x: origin.x, y },
        Vector { x: column.canvas_size.x, y: Real32 { bits: 0x3f80_0000 } },
    )
}

/// The upper edge of a page, to be scrolled to.
pub open spec fn page_target(column: ColumnView, i: int, origin: Vector) -> ScrollTarget {
    ScrollTarget {
        rect: canvas_line(column, origin, column_page_rect(column, i, origin).min.y),
        alignment: Alignment::Start,
    }
}

/// The height of a destination, to be scrolled to.
pub open spec fn destination_target(
    column: ColumnView,
    destination: Destination,
    origin: Vector,
) -> ScrollTarget {
    let i = destination.page_index as int;
    let scale = column.display_sizes[i].x.over(column.page_sizes[i][0]);
    ScrollTarget {
        rect: canvas_line(
            column,
            origin,
            column_page_rect(column, i, origin).min.y.plus(
                or_zero(destination.y_from_top).times(scale),
            ),
        ),
        alignment: Alignment::Middle,
    }
}

/// What is scrolled to on account of one page: the page itself, then a destination on it.
pub open spec fn targets_on_page(
    column: ColumnView,
    page: Option<usize>,
    destination: Option<Destination>,
    origin: Vector,
    i: int,
) -> Seq<ScrollTarget> {
    (if page == Some(i as usize) {
        seq![page_target(column, i, origin)]
    } else {
        Seq::empty()
    }) + (match destination {
        Some(place) => if place.page_index == i {
            seq![destination_target(column, place, origin)]
        } else {
            Seq::empty()
        },
        None => Seq::empty(),
    })
}

/// What is scrolled to on account of the first pages, in the order of the pages.
pub open spec fn scroll_targets(
    column: ColumnView,
    page: Option<usize>,
    destination: Option<Destination>,
    origin: Vector,
    count: nat,
) -> Seq<ScrollTarget>
    decreases count,
{
    if count == 0 {
        Seq::empty()
    } else {
        scroll_targets(column, page, destination, origin, (count - 1) as nat) + targets_on_page(
            column,
            page,
            destination,
            origin,
            count - 1,
        )
    }
}

/// A page of a column that is drawn, and where.
#[derive(Clone, Copy, Debug, PartialEq)]
pub struct ColumnPage {
    pub page_index: usize,
    pub rect: ScreenRect,
}

/// The pages among the first ones that are drawn, and where.
pub open spec fn pages_drawn(
    column: ColumnView,
    origin: Vector,
    viewport: ScreenRect,
    count: nat,
) -> Seq<ColumnPage>
    decreases count,
{
    if count == 0 {
        Seq::empty()
    } else {
        let before = pages_drawn(column, origin, viewport, (count - 1) as nat);
        if column_page_near(column, count - 1, origin, viewport) {
            before.push(
                ColumnPage {
                    page_index: (count - 1) as usize,
                    rect: column_page_rect(column, count - 1, origin),
                },
            )
        } else {
            before
        }
    }
}

/// Every page that is drawn is a page of the column.
pub proof fn lemma_pages_drawn(column: ColumnView, origin: Vector, viewport: ScreenRect, count: nat)
    requires
        count <= usize::MAX,
    ensures
        forall|k: int|
            0 <= k < pages_drawn(column, origin, viewport, count).len() ==> (
            #[trigger] pages_drawn(column, origin, viewport, count)[k]).page_index < count,
    decreases count,
{
    if count > 0 {
        let before = pages_drawn(column, origin, viewport, (count - 1) as nat);
        let all = pages_drawn(column, origin, viewport, count);
        lemma_pages_drawn(column, origin, viewport, (count - 1) as nat);
        assert forall|k: int| 0 <= k < all.len() implies (#[trigger] all[k]).page_index < count by {
            if k < before.len() {
                assert(all[k] == before[k]);
            }
        }
    }
}

/// What is drawn of a column and what is scrolled to.
#[derive(Debug)]
pub struct ColumnScene {
    pub pages: Vec<ColumnPage>,
    pub targets: Vec<ScrollTarget>,
}

/// What is drawn of a column and what is scrolled to, with the corner of the canvas at `origin`
/// and the part of it that is seen.
pub fn place_column(
    column: &Column,
    page: Option<usize>,
    destination: Option<Destination>,
    origin: Vector,
    viewport: ScreenRect,
) -> (r: ColumnScene)
    requires
        column@.wf(),
    ensures
        r.pages@ == pages_drawn(column@, origin, viewport, column@.page_sizes.len()),
        r.targets@ == scroll_targets(column@, page, destination, origin, column@.page_sizes.len()),
        forall|k: int|
            0 <= k < r.pages@.len() ==> (#[trigger] r.pages@[k]).page_index
                < column@.page_sizes.len(),
{
    let near: ScreenRect = viewport.tripled();
    let line: Vector = Vector { x: column.canvas_size.x, y: Real32 { bits: 0x3f80_0000 } };
    let mut pages: Vec<ColumnPage> = Vec::new();
    let mut targets: Vec<ScrollTarget> = Vec::new();
    let mut i: usize = 0;
    while i < column.page_sizes.len()
        invariant
            column@.wf(),
            i <= column@.page_sizes.len(),
            near == viewport.tripled(),
            line == (Vector { x: column@.canvas_size.x, y: Real32 { bits: 0x3f80_0000 } }),
            pages@ == pages_drawn(column@, origin, viewport, i as nat),
            targets@ == scroll_targets(column@, page, destination, origin, i as nat),
        decreases column@.page_sizes.len() - i,
    {
        let size: Vector = column.display_sizes[i];
        let offset: Vector = Vector {
            x: centre(column.canvas_size.x, size.x),
            y: column.page_tops[i],
        };
        let page_min: Vector = origin.moved(offset);
        let rect: ScreenRect = ScreenRect::placed(page_min, size);
        let canvas_rect: ScreenRect = ScreenRect::placed(
            Vector { x: page_min.x.minus(origin.x), y: column.page_tops[i] },
            size,
        );
        let ghost before = targets@;
        if page == Some(i) {
            let target: ScreenRect = ScreenRect::placed(
                Vector { x: origin.x, y: rect.min.y },
                line,
            );
            targets.push(ScrollTarget { rect: target, alignment: Alignment::Start });
        }
        if let Some(place) = destination {
            if place.page_index == i {
                let scale: Real32 = size.x.over(column.page_sizes[i][0]);
                let y: Real32 = rect.min.y.plus(
                    coordinate_or_zero(place.y_from_top).times(scale),
                );
                let target: ScreenRect = ScreenRect::placed(Vector { x: origin.x, y }, line);
                targets.push(ScrollTarget { rect: target, alignment: Alignment::Middle });
            }
        }
        assert(targets@ =~= before + targets_on_page(column@, page, destination, origin, i as int));
        if canvas_rect.intersects(near) {
            pages.push(ColumnPage { page_index: i, rect });
        }
        i = i + 1;
    }
    proof {
        lemma_pages_drawn(column@, origin, viewport, i as nat);
    }
    ColumnScene { pages, targets }
}

/// How far the middle of a page of a column is from where it is read.
pub open spec fn reading_distance(column: ColumnView, i: int, position: Real32) -> Real32 {
    column.page_tops[i].plus(column.display_sizes[i].y.times(Real32 { bits: 0x3f00_0000 })).minus(
        position,
    ).absolute()
}

/// Where a column is read: a bit more than a third below the upper edge of the window.
pub open spec fn reading_position(scroll: Vector, viewport: Vector) -> Real32 {
    scroll.y.plus(viewport.y.times(Real32 { bits: 0x3eb3_3333 }))
}

/// Whether a page is the first of those that are nearest to where the column is read.
pub open spec fn is_page_read(column: ColumnView, i: int, position: Real32) -> bool {
    &&& 0 <= i < column.page_sizes.len()
    &&& forall|k: int|
        0 <= k < column.page_sizes.len() ==> reading_distance(column, i, position).spec_order_key()
            <= #[trigger] reading_distance(column, k, position).spec_order_key()
    &&& forall|k: int|
        0 <= k < i ==> reading_distance(column, i, position).spec_order_key()
            < #[trigger] reading_distance(column, k, position).spec_order_key()
}

/// The page that is read, if there are pages.
pub open spec fn page_read(column: ColumnView, position: Real32) -> Option<usize> {
    if column.page_sizes.len() == 0 {
        None
    } else {
        Some((choose|i: int| is_page_read(column, i, position)) as usize)
    }
}

/// There is only one page that is read.
pub proof fn lemma_page_read(column: ColumnView, i: int, position: Real32)
    requires
        is_page_read(column, i, position),
        column.page_sizes.len() <= usize::MAX,
    ensures
        page_read(column, position) == Some(i as usize),
{
    let chosen = choose|k: int| is_page_read(column, k, position);
    assert(is_page_read(column, chosen, position));
    if chosen < i {
        assert(reading_distance(column, i, position).spec_order_key() < reading_distance(
            column,
            chosen,
            position,
        ).spec_order_key());
        assert(reading_distance(column, chosen, position).spec_order_key() <= reading_distance(
            column,
            i,
            position,
        ).spec_order_key());
    } else if i < chosen {
        assert(reading_distance(column, chosen, position).spec_order_key() < reading_distance(
            column,
            i,
            position,
        ).spec_order_key());
        assert(reading_distance(column, i, position).spec_order_key() <= reading_distance(
            column,
            chosen,
            position,
        ).spec_order_key());
    }
}

/// The page that is read, if there are pages.
pub fn find_page_read(column: &Column, scroll: Vector, viewport: Vector) -> (r: Option<usize>)
    requires
        column@.wf(),
    ensures
        r == page_read(column@, reading_position(scroll, viewport)),
        r matches Some(i) ==> is_page_read(
            column@,
            i as int,
            reading_position(scroll, viewport),
        ),
        r is None <==> column@.page_sizes.len() == 0,
{
    let half: Real32 = Real32 { bits: 0x3f00_0000 };
    let position: Real32 = scroll.y.plus(viewport.y.times(Real32 { bits: 0x3eb3_3333 }));
    if column.page_sizes.len() == 0 {
        return None;
    }
    let mut best: usize = 0;
    let mut least: i64 = column.page_tops[0].plus(column.display_sizes[0].y.times(half)).minus(
        position,
    ).absolute().order_key();
    let mut i: usize = 1;
    while i < column.page_sizes.len()
        invariant
            column@.wf(),
            0 < i <= column@.page_sizes.len(),
            half == (Real32 { bits: 0x3f00_0000 }),
            best < i,
            least == reading_distance(column@, best as int, position).spec_order_key(),
            forall|k: int|
                0 <= k < i ==> least <= #[trigger] reading_distance(
                    column@,
                    k,
                    position,
                ).spec_order_key(),
            forall|k: int|
                0 <= k < best ==> least < #[trigger] reading_distance(
                    column@,
                    k,
                    position,
                ).spec_order_key(),
        decreases column@.page_sizes.len() - i,
    {
        let distance: i64 = column.page_tops[i].plus(
            column.display_sizes[i].y.times(half),
        ).minus(position).absolute().order_key();
        assert(distance == reading_distance(column@, i as int, position).spec_order_key());
        if distance < least {
            best = i;
            least = distance;
        }
        i = i + 1;
    }
    proof {
        assert(is_page_read(column@, best as int, position));
        lemma_page_read(column@, best as int, position);
    }
    Some(best)
}

/// A place on the screen becomes a place on the page, between its edges, unless the page has no
/// size that can be divided by.
pub proof fn law_points_are_on_the_page(point: Vector, page_rect: ScreenRect)
    requires
        ({
            let x = point.x.minus(page_rect.min.x).over(page_rect.width());
            let y = point.y.minus(page_rect.min.y).over(page_rect.height());
            x.up_to(x) && y.up_to(y)
        }),
    ensures
        ({
            let zero = Real32 { bits: 0 };
            let one = Real32 { bits: 0x3f80_0000 };
            let place = on_page(point, page_rect);
            &&& zero.up_to(place[0]) && place[0].up_to(one)
            &&& zero.up_to(place[1]) && place[1].up_to(one)
        }),
{
    let zero = Real32 { bits: 0 };
    let one = Real32 { bits: 0x3f80_0000 };
    assert(zero.up_to(one)) by {
        reveal(Real32::spec_up_to);
    }
    lemma_within(point.x.minus(page_rect.min.x).over(page_rect.width()), zero, one);
    lemma_within(point.y.minus(page_rect.min.y).over(page_rect.height()), zero, one);
}

} // verus!
