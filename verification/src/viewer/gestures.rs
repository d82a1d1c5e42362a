//! What keys, the toolbar and the pointer do to the viewer.

use crate::annotations::AnnotationView;
use crate::annotations::NormalizedRect;
use crate::float::exact::least;
use crate::float::exact::most;
use crate::float::exact::near;
use crate::float::exact::size;
use crate::float::real32::lemma_minus_itself;
use crate::float::real32::lemma_zero_is_least;
use crate::float::single::lemma_absolute;
use crate::float::single::lemma_clamped;
use crate::float::single::lemma_constant;
use crate::float::single::lemma_larger_smaller;
use crate::float::single::lemma_minus_bounded;
use crate::float::single::lemma_order;
use crate::float::single::lemma_over;
use crate::float::single::lemma_plus_bounded;
use crate::float::single::lemma_times_bounded;
use crate::float::single::lemma_zero;
use crate::float::Real32;
use crate::geometry::laws::is_distance;
use crate::geometry::laws::sliver;
use crate::geometry::on_page;
use crate::geometry::ScreenRect;
use crate::geometry::Vector;
use crate::geometry::ZoomMode;
use crate::pdf::LinkRegion;
use crate::pdf::LinkTarget;
use crate::pdf::PdfCommand;
use crate::text::typed_number;
use crate::viewer::controls::last_page;
use crate::viewer::controls::page_after;
use crate::viewer::controls::page_before;
use crate::viewer::controls::ShortcutInput;
use crate::viewer::controls::ToolbarEvent;
use crate::viewer::controls::SCROLL_STEP;
use crate::viewer::controls::ZOOM_TREMBLE;
use crate::viewer::hover::hover_position;
use crate::viewer::hover::hover_size;
use crate::viewer::interaction::annotation_at;
use crate::viewer::interaction::annotation_covers;
use crate::viewer::interaction::first_annotation;
use crate::viewer::interaction::first_link;
use crate::viewer::interaction::link_at;
use crate::viewer::interaction::PageInput;
use crate::viewer::navigation::page_label;
use crate::viewer::navigation::MAX_ZOOM;
use crate::viewer::navigation::MIN_ZOOM;
use crate::viewer::navigation::ZOOM_STEP;
use crate::viewer::LayoutMode;
use crate::viewer::SelectionAction;
use crate::viewer::ViewerView;
use vstd::arithmetic::power2::lemma2_to64;
use vstd::arithmetic::power2::lemma2_to64_rest;
use vstd::prelude::*;

verus! {

/// Whether no key is pressed.
pub open spec fn no_keys(input: ShortcutInput) -> bool {
    &&& !input.back && !input.forward
    &&& !input.zoom_in && !input.zoom_out && !input.zoom_reset
    &&& !input.typing && !input.control
    &&& !input.page_up && !input.page_down && !input.home && !input.end
    &&& !input.left && !input.right && !input.up && !input.down
}

/// The zoom that is nearest to another and not too small or large.
pub open spec fn nearest_zoom(zoom: real) -> real {
    least(most(zoom, 1 as real / 4 as real), 4 as real)
}

/// The constants of the controls.
proof fn lemma_control_constants()
    ensures
        (Real32 { bits: MIN_ZOOM }).is_finite(),
        (Real32 { bits: MIN_ZOOM }).value() == 1 as real / 4 as real,
        (Real32 { bits: MAX_ZOOM }).is_finite(),
        (Real32 { bits: MAX_ZOOM }).value() == 4 as real,
        (Real32 { bits: ZOOM_STEP }).is_finite(),
        near(10 as real * (Real32 { bits: ZOOM_STEP }).value(), 1 as real, sliver()),
        (Real32 { bits: SCROLL_STEP }).is_finite(),
        (Real32 { bits: SCROLL_STEP }).value() == 60 as real,
        (Real32 { bits: 0x3f80_0000 }).is_finite(),
        (Real32 { bits: 0x3f80_0000 }).value() == 1 as real,
        (Real32 { bits: 0x42c8_0000 }).is_finite(),
        (Real32 { bits: 0x42c8_0000 }).value() == 100 as real,
        (Real32 { bits: ZOOM_TREMBLE }).is_finite(),
        near(1000 as real * (Real32 { bits: ZOOM_TREMBLE }).value(), 1 as real, sliver()),
{
    lemma2_to64();
    lemma2_to64_rest();
    lemma_constant(Real32 { bits: MIN_ZOOM }, 0x80_0000, 124, 25, 0x200_0000);
    lemma_constant(Real32 { bits: MAX_ZOOM }, 0x80_0000, 128, 21, 0x20_0000);
    lemma_constant(Real32 { bits: ZOOM_STEP }, 0xcc_cccd, 122, 27, 0x800_0000);
    lemma_constant(Real32 { bits: SCROLL_STEP }, 0xf0_0000, 131, 18, 0x4_0000);
    lemma_constant(Real32 { bits: 0x3f80_0000 }, 0x80_0000, 126, 23, 0x80_0000);
    lemma_constant(Real32 { bits: 0x42c8_0000 }, 0xc8_0000, 132, 17, 0x2_0000);
    lemma_constant(Real32 { bits: ZOOM_TREMBLE }, 0x83_126f, 116, 33, 0x2_0000_0000);
}

/// Without control nothing is zoomed.
proof fn lemma_no_wheel<T>(viewer: ViewerView<T>, input: ShortcutInput, now: u64)
    requires
        !input.control,
    ensures
        viewer.after_zoom(input, now) == viewer,
{
    let one = Real32 { bits: 0x3f80_0000 };
    lemma_control_constants();
    lemma_minus_itself(one);
    lemma_zero_is_least(Real32 { bits: ZOOM_TREMBLE });
}

/// Page down and the right arrow go to the next page, page up and the left arrow to the one before,
/// home to the first and end to the last. At the first and the last page they stay. A page is shown
/// from its top, in the zoom and the layout as they are.
pub proof fn law_keys_turn_pages<T>(viewer: ViewerView<T>, input: ShortcutInput, now: u64)
    requires
        viewer.wf(),
        viewer.document is Some,
        viewer.pages() <= usize::MAX,
        no_keys(input),
    ensures
        ({
            let next = if viewer.current_page + 1 < viewer.pages() {
                viewer.current_page + 1
            } else {
                viewer.current_page as int
            };
            let previous = if viewer.current_page > 0 {
                viewer.current_page - 1
            } else {
                0
            };
            let last = viewer.pages() - 1;
            let page_down = viewer.after_shortcuts(ShortcutInput { page_down: true, ..input }, now);
            let right = viewer.after_shortcuts(ShortcutInput { right: true, ..input }, now);
            let page_up = viewer.after_shortcuts(ShortcutInput { page_up: true, ..input }, now);
            let left = viewer.after_shortcuts(ShortcutInput { left: true, ..input }, now);
            let home = viewer.after_shortcuts(ShortcutInput { home: true, ..input }, now);
            let end = viewer.after_shortcuts(ShortcutInput { end: true, ..input }, now);
            &&& page_down.current_page == next && right.current_page == next
            &&& page_up.current_page == previous && left.current_page == previous
            &&& home.current_page == 0
            &&& end.current_page == last
            &&& shows_from_top(page_down, viewer) && shows_from_top(right, viewer)
            &&& shows_from_top(page_up, viewer) && shows_from_top(left, viewer)
            &&& shows_from_top(home, viewer) && shows_from_top(end, viewer)
        }),
{
    lemma_zero();
    let next = viewer.on_page(page_after(viewer.current_page), now);
    let previous = viewer.on_page(page_before(viewer.current_page), now);
    let first = viewer.on_page(0, now);
    let last = viewer.on_page(last_page(viewer.pages()), now);
    lemma_no_wheel(next, ShortcutInput { page_down: true, ..input }, now);
    lemma_no_wheel(next, ShortcutInput { right: true, ..input }, now);
    lemma_no_wheel(previous, ShortcutInput { page_up: true, ..input }, now);
    lemma_no_wheel(previous, ShortcutInput { left: true, ..input }, now);
    lemma_no_wheel(first, ShortcutInput { home: true, ..input }, now);
    lemma_no_wheel(last, ShortcutInput { end: true, ..input }, now);
}

/// Whether a page is shown from its top, in the zoom and layout of before, and with nothing else of
/// it marked.
pub open spec fn shows_from_top<T>(after: ViewerView<T>, before: ViewerView<T>) -> bool {
    &&& after.zoom == before.zoom
    &&& after.layout == before.layout
    &&& after.document == before.document
    &&& after.back_history == before.back_history
    &&& after.page_input == page_label(after.current_page)
    &&& after.pending_destination is None
    &&& after.selection_draft is None && after.selected_annotation is None
    &&& before.layout == LayoutMode::SinglePage ==> {
        &&& after.pending_scroll matches Some(scroll) && scroll.x.value() == 0 as real
            && scroll.y.value() == 0 as real
        &&& after.pending_page_scroll is None
    }
    &&& before.layout == LayoutMode::Continuous ==> after.pending_page_scroll == Some(
        after.current_page,
    ) && after.pending_scroll is None
}

/// The arrow keys scroll by 60 pixels, down without bound and up to the beginning, and change
/// nothing else.
pub proof fn law_arrows_scroll<T>(viewer: ViewerView<T>, input: ShortcutInput, now: u64)
    requires
        viewer.document is Some,
        no_keys(input),
        is_distance(viewer.current_scroll.y),
    ensures
        ({
            let down = viewer.after_shortcuts(ShortcutInput { down: true, ..input }, now);
            let up = viewer.after_shortcuts(ShortcutInput { up: true, ..input }, now);
            let y = viewer.current_scroll.y.value();
            let slack = (size(y) + 60 as real) * sliver();
            &&& down == (ViewerView { pending_scroll: down.pending_scroll, ..viewer })
            &&& up == (ViewerView { pending_scroll: up.pending_scroll, ..viewer })
            &&& down.pending_scroll is Some && up.pending_scroll is Some
            &&& down.pending_scroll.unwrap().x == viewer.current_scroll.x
            &&& up.pending_scroll.unwrap().x == viewer.current_scroll.x
            &&& near(down.pending_scroll.unwrap().y.value(), y + 60 as real, slack)
            &&& near(
                up.pending_scroll.unwrap().y.value(),
                most(y - 60 as real, 0 as real),
                slack,
            )
        }),
{
    lemma_control_constants();
    lemma_zero();
    let step = Real32 { bits: SCROLL_STEP };
    let y = viewer.current_scroll.y;
    let m = size(y.value()) + 60 as real;
    lemma_plus_bounded(y, step, m);
    lemma_minus_bounded(y, step, m);
    lemma_larger_smaller(y.minus(step), Real32 { bits: 0 });
    lemma_no_wheel(viewer.scrolled(true), input, now);
    lemma_no_wheel(viewer.scrolled(false), input, now);
}

/// A zoom that is chosen is taken over, brought between a quarter and four, and nothing else changes
/// but when the page is drawn anew, which is after 110 milliseconds.
proof fn lemma_zoomed<T>(viewer: ViewerView<T>, zoom: Real32, now: u64, exact: real, error: real)
    requires
        zoom.is_finite(),
        near(zoom.value(), exact, error),
    ensures
        is_zoomed(viewer.zoomed(zoom, now), viewer, exact, error),
        viewer.zoomed(zoom, now).render_due == now + 110_000_000,
{
    lemma_control_constants();
    lemma_clamped(zoom, Real32 { bits: MIN_ZOOM }, Real32 { bits: MAX_ZOOM });
}

/// Whether a viewer has a zoom by hand that is near to a given one, and is else as before.
pub open spec fn is_zoomed<T>(
    after: ViewerView<T>,
    before: ViewerView<T>,
    zoom: real,
    error: real,
) -> bool {
    &&& after.zoom matches ZoomMode::Manual(chosen) && chosen.is_finite() && near(
        chosen.value(),
        nearest_zoom(zoom),
        error,
    )
    &&& after == (ViewerView {
        zoom: after.zoom,
        desired_render: None,
        render_due: after.render_due,
        ..before
    })
}

/// Control with plus and minus, and the buttons of the toolbar, make the zoom that is shown larger
/// and smaller by a tenth of full size; control with zero makes it full size.
pub proof fn law_zoom_goes_in_steps<T>(viewer: ViewerView<T>, input: ShortcutInput, now: u64)
    requires
        viewer.document is Some,
        no_keys(input),
        viewer.shown_zoom().is_finite(),
        size(viewer.shown_zoom().value()) <= 1000 as real,
    ensures
        ({
            let zoom = viewer.shown_zoom().value();
            let step = 1 as real / 10 as real;
            let error = 1 as real / 1000 as real;
            let larger = viewer.after_shortcuts(ShortcutInput { zoom_in: true, ..input }, now);
            let smaller = viewer.after_shortcuts(ShortcutInput { zoom_out: true, ..input }, now);
            let full = viewer.after_shortcuts(ShortcutInput { zoom_reset: true, ..input }, now);
            &&& is_zoomed(larger, viewer, zoom + step, error)
            &&& is_zoomed(smaller, viewer, zoom - step, error)
            &&& is_zoomed(full, viewer, 1 as real, 0 as real)
            &&& viewer.after_toolbar(ToolbarEvent::ZoomIn, now) == larger
            &&& viewer.after_toolbar(ToolbarEvent::ZoomOut, now) == smaller
        }),
{
    lemma_control_constants();
    let step = Real32 { bits: ZOOM_STEP };
    let zoom = viewer.shown_zoom();
    lemma_plus_bounded(zoom, step, 1001 as real);
    lemma_minus_bounded(zoom, step, 1001 as real);
    let tenth = 1 as real / 10 as real;
    let error = 1 as real / 1000 as real;
    lemma_zoomed(viewer, zoom.plus(step), now, zoom.value() + tenth, error);
    lemma_zoomed(viewer, zoom.minus(step), now, zoom.value() - tenth, error);
    lemma_zoomed(viewer, Real32 { bits: 0x3f80_0000 }, now, 1 as real, 0 as real);
    lemma_no_wheel(viewer.zoomed(zoom.plus(step), now), input, now);
    lemma_no_wheel(viewer.zoomed(zoom.minus(step), now), input, now);
    lemma_no_wheel(viewer.zoomed(Real32 { bits: 0x3f80_0000 }, now), input, now);
}

/// A zoom in percent that is typed is a hundredth of the number.
pub proof fn law_percent_is_a_hundredth<T>(viewer: ViewerView<T>, percent: Real32, now: u64)
    requires
        percent.is_finite(),
        size(percent.value()) <= 1_000_000 as real,
    ensures
        is_zoomed(
            viewer.after_toolbar(ToolbarEvent::SetPercent(percent), now),
            viewer,
            percent.value() / 100 as real,
            1 as real / 1000 as real,
        ),
{
    lemma_control_constants();
    let hundred = Real32 { bits: 0x42c8_0000 };
    let p = percent.value();
    assert(p / hundred.value() == p / 100 as real);
    lemma_over(percent, hundred);
    lemma_zoomed(
        viewer,
        percent.over(hundred),
        now,
        p / 100 as real,
        1 as real / 1000 as real,
    );
}

/// Zooming with the wheel or two fingers multiplies the zoom that is shown by the factor. It is done
/// only while control is held, and a factor that differs from one by less than a thousandth is
/// passed over.
pub proof fn law_wheel_zooms<T>(viewer: ViewerView<T>, input: ShortcutInput, now: u64)
    requires
        no_keys(ShortcutInput { control: false, ..input }),
        input.zoom_delta.is_finite(),
        size(input.zoom_delta.value()) <= 1000 as real,
        viewer.shown_zoom().is_finite(),
        size(viewer.shown_zoom().value()) <= 1000 as real,
    ensures
        ({
            let after = viewer.after_shortcuts(input, now);
            let factor = input.zoom_delta.value();
            let off = size(factor - 1 as real);
            &&& !input.control ==> after == viewer
            &&& input.control && off > 1001 as real / 1_000_000 as real ==> is_zoomed(
                after,
                viewer,
                viewer.shown_zoom().value() * factor,
                1 as real / 10 as real,
            )
            &&& input.control && off < 999 as real / 1_000_000 as real ==> after == viewer
        }),
{
    if !input.control {
        lemma_no_wheel(viewer, input, now);
    } else {
        lemma_control_constants();
        let one = Real32 { bits: 0x3f80_0000 };
        let factor = input.zoom_delta;
        let zoom = viewer.shown_zoom();
        lemma_minus_near_one(factor);
        let off = factor.minus(one).absolute();
        lemma_order(Real32 { bits: ZOOM_TREMBLE }, off);
        let z = zoom.value();
        let f = factor.value();
        assert(z * f <= 1_000_000 as real && 0 as real - 1_000_000 as real <= z * f)
            by (nonlinear_arith)
            requires
                z <= 1000 as real,
                0 as real - 1000 as real <= z,
                f <= 1000 as real,
                0 as real - 1000 as real <= f,
        ;
        lemma_times_bounded(zoom, factor, 1_000_000 as real);
        lemma_zoomed(viewer, zoom.times(factor), now, z * f, 1 as real / 10 as real);
    }
}

/// The distance of a factor from one.
proof fn lemma_minus_near_one(factor: Real32)
    requires
        factor.is_finite(),
        size(factor.value()) <= 1000 as real,
    ensures
        ({
            let off = factor.minus(Real32 { bits: 0x3f80_0000 }).absolute();
            let exact = size(factor.value() - 1 as real);
            &&& off.is_finite()
            &&& near(off.value(), exact, exact * (1 as real / 10_000_000 as real) + 1 as real
                / 10_000_000 as real)
        }),
{
    lemma_control_constants();
    let one = Real32 { bits: 0x3f80_0000 };
    crate::float::single::lemma_minus(factor, one);
    lemma_absolute(factor.minus(one));
}

/// Another layout keeps the page, the zoom and what can be gone back to. All pages are scrolled to
/// the page that was shown; a single page is shown from its top.
pub proof fn law_layouts_keep_the_page<T>(viewer: ViewerView<T>, layout: LayoutMode, now: u64)
    ensures
        ({
            let after = viewer.after_toolbar(ToolbarEvent::SetLayout(layout), now);
            &&& after.layout == layout
            &&& after.current_page == viewer.current_page
            &&& after.zoom == viewer.zoom
            &&& after.document == viewer.document
            &&& after.back_history == viewer.back_history
            &&& after.forward_history == viewer.forward_history
            &&& layout == viewer.layout ==> after == viewer
            &&& layout == LayoutMode::Continuous && layout != viewer.layout
                ==> after.pending_page_scroll == Some(viewer.current_page) && after.pending_scroll
                is None
            &&& layout == LayoutMode::SinglePage && layout != viewer.layout
                ==> after.pending_page_scroll is None && (after.pending_scroll matches Some(scroll)
                && scroll.x.value() == 0 as real && scroll.y.value() == 0 as real)
        }),
{
    lemma_zero();
}

/// The buttons of the toolbar: back and forward are those of the keys, fit width and fit page choose
/// how the page is fitted and keep the page, and the panel of notes is opened and closed.
pub proof fn law_toolbar_buttons<T>(viewer: ViewerView<T>, input: ShortcutInput, now: u64)
    requires
        no_keys(input),
    ensures
        viewer.after_toolbar(ToolbarEvent::Back, now) == viewer.after_shortcuts(
            ShortcutInput { back: true, ..input },
            now,
        ),
        viewer.after_toolbar(ToolbarEvent::Forward, now) == viewer.after_shortcuts(
            ShortcutInput { forward: true, ..input },
            now,
        ),
        ({
            let wide = viewer.after_toolbar(ToolbarEvent::FitWidth, now);
            let whole = viewer.after_toolbar(ToolbarEvent::FitPage, now);
            &&& wide.zoom == ZoomMode::FitWidth && whole.zoom == ZoomMode::FitPage
            &&& wide.current_page == viewer.current_page && whole.current_page
                == viewer.current_page
            &&& wide.layout == viewer.layout && whole.layout == viewer.layout
            &&& wide.back_history == viewer.back_history && whole.back_history
                == viewer.back_history
        }),
        viewer.after_toolbar(ToolbarEvent::ToggleNotes, now) == (ViewerView {
            show_notes: !viewer.show_notes,
            ..viewer
        }),
{
    lemma_no_wheel(viewer.gone_back(now), input, now);
    lemma_no_wheel(viewer.gone_forward(now), input, now);
}

/// What is typed for a page and is no number changes nothing, and the number of the page that is
/// shown stands there again. A number beyond the last page shows the last, and zero the first.
pub proof fn law_typed_text_that_is_no_page<T>(viewer: ViewerView<T>, now: u64)
    requires
        viewer.wf(),
        viewer.document is Some,
    ensures
        ({
            let after = viewer.after_toolbar(ToolbarEvent::EnterPage, now);
            &&& typed_number(viewer.page_input) is None ==> after == (ViewerView {
                page_input: page_label(viewer.current_page),
                ..viewer
            })
            &&& typed_number(viewer.page_input) matches Some(number) ==> {
                &&& number > viewer.pages() ==> after.current_page == viewer.pages() - 1
                &&& number == 0 ==> after.current_page == 0
                &&& 1 <= number <= viewer.pages() ==> after.current_page == number - 1
                &&& shows_from_top(after, viewer)
            }
        }),
{
    lemma_zero();
}

/// The first link over a point is before all others over it.
proof fn lemma_first_link_over(links: Seq<LinkRegion>, point: [Real32; 2])
    ensures
        ({
            let k = first_link(links, point);
            &&& 0 <= k <= links.len()
            &&& k < links.len() ==> links[k].rect.covers(point)
            &&& forall|i: int| 0 <= i < k ==> !(#[trigger] links[i]).rect.covers(point)
        }),
    decreases links.len(),
{
    if links.len() > 0 && !links.first().rect.covers(point) {
        let rest = links.drop_first();
        lemma_first_link_over(rest, point);
        let k = first_link(links, point);
        if k < links.len() {
            assert(links[k] == rest[k - 1]);
        }
        assert forall|i: int| 0 <= i < k implies !(#[trigger] links[i]).rect.covers(point) by {
            if i > 0 {
                assert(links[i] == rest[i - 1]);
            }
        }
    }
}

/// The link under the pointer is the first of those that the point lies in; there is none exactly if
/// it lies in none.
pub proof fn law_links_are_found_under_the_pointer(links: Seq<LinkRegion>, point: [Real32; 2])
    ensures
        link_at(links, None) is None,
        link_at(links, Some(point)) is None <==> forall|i: int|
            0 <= i < links.len() ==> !(#[trigger] links[i]).rect.covers(point),
        forall|i: int|
            0 <= i < links.len() && (#[trigger] links[i]).rect.covers(point) && (forall|j: int|
                0 <= j < i ==> !(#[trigger] links[j]).rect.covers(point)) ==> link_at(
                links,
                Some(point),
            ) == Some(links[i]),
{
    lemma_first_link_over(links, point);
    let k = first_link(links, point);
    assert forall|i: int|
        0 <= i < links.len() && (#[trigger] links[i]).rect.covers(point) && (forall|j: int|
            0 <= j < i ==> !(#[trigger] links[j]).rect.covers(point)) implies link_at(
        links,
        Some(point),
    ) == Some(links[i]) by {
        if k < i {
            assert(!links[k].rect.covers(point));
        }
    }
}

/// The first annotation over a point is before all others over it.
proof fn lemma_first_annotation_over(annotations: Seq<AnnotationView>, point: [Real32; 2])
    ensures
        ({
            let k = first_annotation(annotations, point);
            &&& 0 <= k <= annotations.len()
            &&& k < annotations.len() ==> annotation_covers(annotations[k], point)
            &&& forall|i: int| 0 <= i < k ==> !annotation_covers(#[trigger] annotations[i], point)
        }),
    decreases annotations.len(),
{
    if annotations.len() > 0 && !annotation_covers(annotations.first(), point) {
        let rest = annotations.drop_first();
        lemma_first_annotation_over(rest, point);
        let k = first_annotation(annotations, point);
        if k < annotations.len() {
            assert(annotations[k] == rest[k - 1]);
        }
        assert forall|i: int| 0 <= i < k implies !annotation_covers(
            #[trigger] annotations[i],
            point,
        ) by {
            if i > 0 {
                assert(annotations[i] == rest[i - 1]);
            }
        }
    }
}

/// The highlight under the pointer is the first one with a rectangle that the point lies in; there
/// is none exactly if it lies in no rectangle of any.
pub proof fn law_highlights_are_found_under_the_pointer(
    annotations: Seq<AnnotationView>,
    point: [Real32; 2],
    i: int,
    k: int,
)
    requires
        0 <= i < annotations.len(),
        0 <= k < annotations[i].rects.len(),
        annotations[i].rects[k].covers(point),
    ensures
        annotation_at(annotations, point) is Some,
        (forall|j: int, m: int|
            0 <= j < i && 0 <= m < annotations[j].rects.len() ==> !(
            #[trigger] annotations[j].rects[m]).covers(point)) ==> annotation_at(
            annotations,
            point,
        ) == Some(annotations[i].id),
{
    lemma_first_annotation_over(annotations, point);
    assert(annotation_covers(annotations[i], point));
    let f = first_annotation(annotations, point);
    assert(f <= i);
    if forall|j: int, m: int|
        0 <= j < i && 0 <= m < annotations[j].rects.len() ==> !(
        #[trigger] annotations[j].rects[m]).covers(point) {
        if f < i {
            assert(annotation_covers(annotations[f], point));
            let m = choose|m: int|
                0 <= m < annotations[f].rects.len() && (#[trigger] annotations[f].rects[m]).covers(
                    point,
                );
            assert(!annotations[f].rects[m].covers(point));
        }
    }
}

/// Where no rectangle of a highlight is under the pointer, no highlight is.
pub proof fn law_no_highlight_under_the_pointer(
    annotations: Seq<AnnotationView>,
    point: [Real32; 2],
)
    requires
        forall|j: int, m: int|
            0 <= j < annotations.len() && 0 <= m < annotations[j].rects.len() ==> !(
            #[trigger] annotations[j].rects[m]).covers(point),
    ensures
        annotation_at(annotations, point) is None,
{
    lemma_first_annotation_over(annotations, point);
    let f = first_annotation(annotations, point);
    if f < annotations.len() {
        let m = choose|m: int|
            0 <= m < annotations[f].rects.len() && (#[trigger] annotations[f].rects[m]).covers(
                point,
            );
        assert(!annotations[f].rects[m].covers(point));
    }
}

/// A click on a link to a place of the document goes there, and what was seen can be gone back to. A
/// click on a link to an address changes nothing that is shown. A click on a highlight beside links
/// selects it, on its page, and opens the panel of notes; a click on neither selects nothing.
pub proof fn law_clicks_do_what_is_under_the_pointer<T>(
    viewer: ViewerView<T>,
    page_index: usize,
    input: PageInput,
    page_rect: ScreenRect,
    links: Seq<LinkRegion>,
    annotations: Seq<AnnotationView>,
    pointer: Vector,
    now: u64,
)
    requires
        input.clicked && input.hovered,
        !input.drag_started && !input.dragged && !input.drag_stopped,
        input.hover_pos == Some(pointer),
    ensures
        ({
            let point = on_page(pointer, page_rect);
            let link = link_at(links, Some(point));
            let highlight = annotation_at(annotations, point);
            let after = viewer.after_pointer(
                page_index,
                input,
                page_rect,
                links,
                annotations,
                now,
            );
            &&& link is Some ==> match link.unwrap().target {
                LinkTarget::Internal(destination) => {
                    &&& after.current_page == destination.page_index
                    &&& after.pending_destination == Some(destination)
                    &&& after.back_history == viewer.back_history.push(viewer.location())
                    &&& after.forward_history.len() == 0
                    &&& after.zoom == viewer.zoom && after.layout == viewer.layout
                },
                LinkTarget::Uri(_) => after == (ViewerView { hover: after.hover, ..viewer }),
            }
            &&& link is None && highlight is Some ==> {
                &&& after.selected_annotation == highlight
                &&& after.current_page == page_index
                &&& after.page_input == page_label(page_index)
                &&& after.show_notes
                &&& after.document == viewer.document
                &&& after.back_history == viewer.back_history
            }
            &&& link is None && highlight is None ==> after == (ViewerView {
                selected_annotation: None,
                hover: None,
                ..viewer
            })
        }),
{
}

/// The link that the pointer comes to rest on is noted with the time; while it stays on the same
/// link, the time stays. Away from links, and while the pointer is dragged, none is noted.
pub proof fn law_resting_is_timed<T>(
    viewer: ViewerView<T>,
    input: PageInput,
    link: Option<LinkRegion>,
    now: u64,
)
    ensures
        ({
            let after = viewer.after_rest(input, link, now);
            &&& input.dragged ==> after.hover is None
            &&& !input.dragged && link is Some ==> {
                let target = link.unwrap().target;
                let stays = viewer.hover is Some && viewer.hover.unwrap().target.same(target);
                &&& stays ==> after.hover == viewer.hover
                &&& !stays ==> after.hover is Some && after.hover.unwrap().target == target
                    && after.hover.unwrap().started == now
            }
            &&& !input.dragged && link is None && input.hovered ==> after.hover is None
            &&& after == (ViewerView { hover: after.hover, ..viewer })
        }),
{
}

/// The pointer over a page while it is dragged from one place to another, and then let go.
pub open spec fn dragged_over<T>(
    viewer: ViewerView<T>,
    page_index: usize,
    page_rect: ScreenRect,
    begin: PageInput,
    drag: PageInput,
) -> ViewerView<T> {
    viewer.after_drag(page_index, begin, page_rect).after_drag(page_index, drag, page_rect)
}

/// Dragging over a page selects the text between where the pointer was pressed and where it was let
/// go, in fractions of the page, if that is more than three pixels wide or high; it is asked for
/// under a new number. Less than three pixels both ways ask for nothing. Then nothing is dragged.
pub proof fn law_dragging_selects<T>(
    viewer: ViewerView<T>,
    page_index: usize,
    page_rect: ScreenRect,
    begin: PageInput,
    drag: PageInput,
    end: PageInput,
    p: Vector,
    q: Vector,
)
    requires
        viewer.document is Some,
        viewer.selection_request < u64::MAX,
        begin.drag_started && !begin.dragged && !begin.drag_stopped && begin.pointer == Some(p),
        !drag.drag_started && drag.dragged && !drag.drag_stopped && drag.pointer == Some(q),
        !end.drag_started && !end.dragged && end.drag_stopped,
        is_distance(page_rect.min.x) && is_distance(page_rect.max.x),
        is_distance(page_rect.min.y) && is_distance(page_rect.max.y),
        size(page_rect.min.x.value()) + size(page_rect.max.x.value()) <= 10_000 as real,
        size(page_rect.min.y.value()) + size(page_rect.max.y.value()) <= 10_000 as real,
        ({
            let area = NormalizedRect::spanned(on_page(p, page_rect), on_page(q, page_rect));
            &&& area.width.is_finite() && size(area.width.value()) <= 4 as real
            &&& area.height.is_finite() && size(area.height.value()) <= 4 as real
        }),
    ensures
        ({
            let held = dragged_over(viewer, page_index, page_rect, begin, drag);
            let area = NormalizedRect::spanned(on_page(p, page_rect), on_page(q, page_rect));
            let wide = area.width.value() * (page_rect.max.x.value() - page_rect.min.x.value());
            let high = area.height.value() * (page_rect.max.y.value() - page_rect.min.y.value());
            let command = held.selection_command(page_index, end, page_rect);
            let after = held.after_drag(page_index, end, page_rect);
            let bit = 1 as real / 100 as real;
            &&& held.dragged_rect() == Some(area)
            &&& held.drag_page == Some(page_index)
            &&& wide > 3 as real + bit || high > 3 as real + bit ==> {
                &&& command == Some(
                    PdfCommand::ResolveSelection {
                        generation: viewer.document.unwrap().generation,
                        request_id: (viewer.selection_request + 1) as u64,
                        page_index,
                        selection: area,
                    },
                )
                &&& after.selection_waiting == Some((viewer.selection_request + 1) as u64)
                &&& after.selection_request == viewer.selection_request + 1
            }
            &&& wide < 3 as real - bit && high < 3 as real - bit ==> command is None
                && after.selection_waiting == viewer.selection_waiting
            &&& after.drag_page is None && after.dragged_rect() is None
            &&& after.selection_draft is None
        }),
{
    lemma2_to64();
    let threshold = Real32 { bits: 0x4040_0000 };
    lemma_constant(threshold, 0xc0_0000, 127, 22, 0x40_0000);
    let area = NormalizedRect::spanned(on_page(p, page_rect), on_page(q, page_rect));
    crate::geometry::laws::lemma_part_of_length(area.width, page_rect.min.x, page_rect.max.x);
    crate::geometry::laws::lemma_part_of_length(area.height, page_rect.min.y, page_rect.max.y);
    lemma_order(threshold, area.width.times(page_rect.width()));
    lemma_order(threshold, area.height.times(page_rect.height()));
    assert(crate::viewer::interaction::DRAG_THRESHOLD == 0x4040_0000u32);
}

/// What is done with selected text: clearing forgets it, copying keeps it, and highlighting adds an
/// annotation and forgets it. Where nothing is selected, nothing is added.
pub proof fn law_selected_text_is_used<T>(viewer: ViewerView<T>, now: u64)
    ensures
        viewer.after_selection(None, now) == viewer,
        viewer.after_selection(Some(SelectionAction::Clear), now) == (ViewerView {
            selection_draft: None,
            ..viewer
        }),
        viewer.after_selection(Some(SelectionAction::Copy), now) == (ViewerView {
            status: viewer.after_selection(Some(SelectionAction::Copy), now).status,
            ..viewer
        }),
        ({
            let marked = viewer.after_selection(Some(SelectionAction::Highlight), now);
            let noted = viewer.after_selection(Some(SelectionAction::AddNote), now);
            &&& marked.selection_draft is None && noted.selection_draft is None
            &&& viewer.selection_draft is None ==> marked.notes() == viewer.notes()
                && noted.notes() == viewer.notes()
            &&& viewer.selection_draft is Some && viewer.document is Some ==> {
                &&& marked.notes().len() == viewer.notes().len() + 1
                &&& noted.notes() == marked.notes()
                &&& marked.notes().drop_last() =~= viewer.notes()
                &&& marked.notes().last().selected_text == viewer.selection_draft.unwrap().text
                &&& marked.notes().last().rects == viewer.selection_draft.unwrap().rects
                &&& marked.notes().last().page_index == viewer.selection_draft.unwrap().page_index
                &&& marked.notes().last().note.len() == 0
                &&& marked.unsaved() && noted.unsaved()
                &&& marked.current_page == viewer.current_page
                &&& noted.selected_annotation == Some(marked.notes().last().id)
                &&& noted.current_page == viewer.selection_draft.unwrap().page_index
                &&& noted.show_notes
            }
        }),
{
}

/// Where an explanation of a link stands, in one direction.
proof fn lemma_hover_constants()
    ensures
        (Real32 { bits: 0x4100_0000 }).is_finite(),
        (Real32 { bits: 0x4100_0000 }).value() == 8 as real,
        (Real32 { bits: 0x4140_0000 }).is_finite(),
        (Real32 { bits: 0x4140_0000 }).value() == 12 as real,
        (Real32 { bits: 0x4180_0000 }).is_finite(),
        (Real32 { bits: 0x4180_0000 }).value() == 16 as real,
        (Real32 { bits: 0x4190_0000 }).is_finite(),
        (Real32 { bits: 0x4190_0000 }).value() == 18 as real,
        (Real32 { bits: 0x43db_0000 }).is_finite(),
        (Real32 { bits: 0x43db_0000 }).value() == 438 as real,
        (Real32 { bits: 0x4393_0000 }).is_finite(),
        (Real32 { bits: 0x4393_0000 }).value() == 294 as real,
        (Real32 { bits: 0x43b4_0000 }).is_finite(),
        (Real32 { bits: 0x43b4_0000 }).value() == 360 as real,
        (Real32 { bits: 0x4260_0000 }).is_finite(),
        (Real32 { bits: 0x4260_0000 }).value() == 56 as real,
{
    lemma2_to64();
    lemma_constant(Real32 { bits: 0x4100_0000 }, 0x80_0000, 129, 20, 0x10_0000);
    lemma_constant(Real32 { bits: 0x4140_0000 }, 0xc0_0000, 129, 20, 0x10_0000);
    lemma_constant(Real32 { bits: 0x4180_0000 }, 0x80_0000, 130, 19, 0x8_0000);
    lemma_constant(Real32 { bits: 0x4190_0000 }, 0x90_0000, 130, 19, 0x8_0000);
    lemma_constant(Real32 { bits: 0x43db_0000 }, 0xdb_0000, 134, 15, 0x8000);
    lemma_constant(Real32 { bits: 0x4393_0000 }, 0x93_0000, 134, 15, 0x8000);
    lemma_constant(Real32 { bits: 0x43b4_0000 }, 0xb4_0000, 134, 15, 0x8000);
    lemma_constant(Real32 { bits: 0x4260_0000 }, 0xe0_0000, 131, 18, 0x4_0000);
}

/// A link is explained right below the pointer, 16 pixels to its right and 18 below it, where there
/// is room for the explanation on the screen. Else it stands on the left of the pointer, 12 pixels
/// away, or higher up, 8 pixels above the end of the screen but not above its beginning.
pub proof fn law_links_are_explained_on_the_screen(
    target: LinkTarget,
    pointer: Vector,
    screen: ScreenRect,
)
    requires
        pointer.x.is_finite() && size(pointer.x.value()) <= 100_000 as real,
        pointer.y.is_finite() && size(pointer.y.value()) <= 100_000 as real,
        screen.max.x.is_finite() && size(screen.max.x.value()) <= 100_000 as real,
        screen.min.y.is_finite() && size(screen.min.y.value()) <= 100_000 as real,
        screen.max.y.is_finite() && size(screen.max.y.value()) <= 100_000 as real,
    ensures
        ({
            let place = hover_position(hover_size(target), pointer, screen);
            let wide = if target is Internal {
                438 as real
            } else {
                360 as real
            };
            let high = if target is Internal {
                294 as real
            } else {
                56 as real
            };
            let x = pointer.x.value();
            let y = pointer.y.value();
            let bit = 1 as real / 10 as real;
            let across = screen.max.x.value() - (x + 16 as real + wide);
            let down = screen.max.y.value() - (y + 18 as real + high);
            &&& across > bit ==> near(place.x.value(), x + 16 as real, bit)
            &&& across < 0 as real - bit ==> near(place.x.value(), x - wide - 12 as real, bit)
            &&& down > bit ==> near(place.y.value(), y + 18 as real, bit)
            &&& down < 0 as real - bit ==> near(
                place.y.value(),
                most(
                    screen.max.y.value() - high - 8 as real,
                    screen.min.y.value() + 8 as real,
                ),
                bit,
            )
        }),
{
    lemma_hover_constants();
    let room = hover_size(target);
    let m = 200_000 as real;
    let right = pointer.x.plus(Real32 { bits: 0x4180_0000 });
    let below = pointer.y.plus(Real32 { bits: 0x4190_0000 });
    lemma_plus_bounded(pointer.x, Real32 { bits: 0x4180_0000 }, m);
    lemma_plus_bounded(pointer.y, Real32 { bits: 0x4190_0000 }, m);
    lemma_plus_bounded(right, room.x, m);
    lemma_plus_bounded(below, room.y, m);
    lemma_order(screen.max.x, right.plus(room.x));
    lemma_order(screen.max.y, below.plus(room.y));
    lemma_minus_bounded(pointer.x, room.x, m);
    lemma_minus_bounded(pointer.x.minus(room.x), Real32 { bits: 0x4140_0000 }, m);
    let eight = Real32 { bits: 0x4100_0000 };
    lemma_minus_bounded(screen.max.y, room.y, m);
    lemma_minus_bounded(screen.max.y.minus(room.y), eight, m);
    lemma_plus_bounded(screen.min.y, eight, m);
    lemma_larger_smaller(screen.max.y.minus(room.y).minus(eight), screen.min.y.plus(eight));
}

} // verus!
