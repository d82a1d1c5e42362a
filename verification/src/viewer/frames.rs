//! What is seen of the document, and what the window says of it.

use crate::annotations::lemma_first_with_id;
use crate::annotations::load_outcome;
use crate::annotations::AnnotationView;
use crate::annotations::NormalizedRect;
use crate::annotations::Sidecar;
use crate::float::exact::near;
use crate::float::exact::size;
use crate::float::single::lemma_constant;
use crate::float::single::lemma_nearest;
use crate::float::single::lemma_over;
use crate::float::single::lemma_times;
use crate::float::single::lemma_zero;
use crate::float::Real32;
use crate::geometry::key_for;
use crate::geometry::laws::sliver;
use crate::geometry::on_page;
use crate::geometry::scale_of;
use crate::geometry::scroll_to;
use crate::geometry::size_of_page;
use crate::geometry::RenderKey;
use crate::geometry::ScreenRect;
use crate::geometry::Vector;
use crate::geometry::PDF_POINT_TO_LOGICAL;
use crate::geometry::ZoomMode;
use crate::path::final_component;
use crate::path::laws::is_name;
use crate::path::laws::law_files_go_by_their_names;
use crate::path::lossy_text;
use crate::path::names_pdf;
use crate::pdf::Destination;
use crate::pdf::LinkRegion;
use crate::pdf::LinkTarget;
use crate::pdf::PdfCommand;
use crate::pdf::PdfResponse;
use crate::pdf::PreviewKey;
use crate::pdf::RenderedImage;
use crate::text::joined;
use crate::text::laws::all_white;
use crate::text::laws::law_white_space_around_is_taken_away;
use crate::text::trimmed;
use crate::text::white_space;
use crate::text::words;
use crate::viewer::backend::window_title;
use crate::viewer::backend::LoadedDocument;
use crate::viewer::controls::ToolbarEvent;
use crate::viewer::drawing::PageContent;
use crate::viewer::exchange::law_pages_have_their_annotations;
use crate::viewer::exchange::law_pages_show_their_pictures;
use crate::viewer::exchange::lemma_preview_found;
use crate::viewer::hover::HoverContent;
use crate::viewer::interaction::PageCursor;
use crate::viewer::interaction::PageInput;
use crate::viewer::navigation::page_label;
use crate::viewer::notes::summary_of;
use crate::viewer::fresh_viewer;
use crate::viewer::LayoutMode;
use crate::viewer::ViewerView;
use vstd::arithmetic::power2::lemma2_to64;
use vstd::prelude::*;

verus! {

/// Being scrolled to a place happens once: when the page was drawn there, no place is left to be
/// scrolled to.
pub proof fn law_scrolling_to_a_place_happens_once<T>(
    viewer: ViewerView<T>,
    pixels_per_point: Real32,
    now: u64,
)
    requires
        viewer.document is Some,
    ensures
        viewer.drawn_single(pixels_per_point, now).single_offset() is None,
        viewer.drawn_continuous().pending_scroll is None,
        viewer.drawn_continuous().pending_page_scroll is None,
        viewer.drawn_continuous().pending_destination is None,
        viewer.drawn_continuous().current_page == viewer.current_page,
        viewer.drawn_single(pixels_per_point, now).current_page == viewer.current_page,
        viewer.drawn_single(pixels_per_point, now).zoom == viewer.zoom,
        viewer.drawn_single(pixels_per_point, now).desired_render matches Some(key)
            && key.page_index == viewer.current_page,
{
}

/// A single page is shown where it was asked for: from its top after it was turned to, at the place
/// that a link leads to after the link was followed, and where it was left after going back.
pub proof fn law_single_pages_are_shown_where_asked<T>(
    viewer: ViewerView<T>,
    page_index: usize,
    destination: Destination,
    now: u64,
)
    requires
        viewer.document is Some,
        viewer.layout == LayoutMode::SinglePage,
        viewer.current_page < viewer.pages(),
        destination.page_index < viewer.pages(),
    ensures
        viewer.on_page(page_index, now).single_offset() matches Some(offset) && offset.x.value()
            == 0 as real && offset.y.value() == 0 as real,
        ({
            let page_size = viewer.document.unwrap().page_sizes[destination.page_index as int];
            viewer.at_destination(destination, now).single_offset() == Some(
                scroll_to(
                    destination,
                    scale_of(viewer.zoom, page_size, viewer.last_viewport),
                    viewer.last_viewport,
                    size_of_page(viewer.zoom, page_size, viewer.last_viewport),
                ),
            )
        }),
        viewer.at_destination(destination, now).gone_back(now).single_offset() == Some(
            viewer.current_scroll,
        ),
{
    lemma_zero();
}

/// A page is drawn with the annotations that are on it and with the links of the picture that is
/// shown for it; before there is a picture, it has no links.
pub proof fn law_drawn_pages_have_their_links<T>(
    viewer: ViewerView<T>,
    content: PageContent,
    key: RenderKey,
)
    requires
        viewer.document is Some,
        viewer.draws(content, key),
    ensures
        content.picture matches Some(k) ==> {
            &&& k < viewer.page_cache.len()
            &&& viewer.page_cache[k as int].key.page_index == key.page_index
            &&& viewer.page_cache[k as int].key.generation == key.generation
            &&& content.links@ == viewer.page_cache[k as int].links
        },
        content.picture is None ==> content.links@.len() == 0,
        content.picture is None <==> (forall|j: int|
            0 <= j < viewer.page_cache.len() ==> !((#[trigger] viewer.page_cache[j]).key.generation
                == key.generation && viewer.page_cache[j].key.page_index == key.page_index)),
        forall|i: int|
            0 <= i < content.annotations@.len() ==> (#[trigger] content.annotations@[i]).page_index
                == key.page_index,
{
    law_pages_show_their_pictures(viewer.page_cache, key);
    let notes = viewer.document.unwrap().annotations.annotations;
    law_pages_have_their_annotations(notes, key.page_index);
    let views = crate::annotations::annotation_views(content.annotations@);
    assert forall|i: int| 0 <= i < content.annotations@.len() implies (
    #[trigger] content.annotations@[i]).page_index == key.page_index by {
        assert(views[i] == content.annotations@[i]@);
        assert(views[i].page_index == key.page_index);
    }
}

/// Text that was found is marked on its page in the areas that were found.
pub proof fn law_selected_text_is_marked<T>(
    viewer: ViewerView<T>,
    request_id: u64,
    page_index: usize,
    text: String,
    rects: Vec<NormalizedRect>,
    now: u64,
)
    requires
        viewer.document is Some,
        viewer.selection_waiting == Some(request_id),
        text@.len() > 0,
        rects@.len() > 0,
    ensures
        ({
            let after = viewer.answered(
                PdfResponse::SelectionResolved {
                    generation: viewer.document.unwrap().generation,
                    request_id,
                    page_index,
                    text,
                    rects,
                },
                now,
            );
            &&& after.drafted_page() == Some(page_index)
            &&& after.drafted_rects() == rects@
        }),
        viewer.selection_draft is None ==> viewer.drafted_page() is None
            && viewer.drafted_rects().len() == 0,
{
}

/// A document is opened so that its first page is seen as a whole, from its top. The user is told of
/// an error exactly if the notes on it could not be used.
pub proof fn law_opened_documents_are_seen_whole<T>(
    viewer: ViewerView<T>,
    document: LoadedDocument,
    sidecar: Sidecar,
    now: u64,
)
    ensures
        ({
            let after = viewer.showing(document, sidecar, now);
            let (store, warning) = load_outcome(
                document.path@,
                document.fingerprint@,
                document.page_sizes@.len(),
                sidecar,
            );
            &&& after.zoom == ZoomMode::FitPage
            &&& after.pending_scroll matches Some(scroll) && scroll.x.value() == 0 as real
                && scroll.y.value() == 0 as real
            &&& after.current_scroll.y.value() == 0 as real
            &&& after.pending_destination is None && after.pending_page_scroll is None
            &&& after.document matches Some(shown) && shown.page_sizes == document.page_sizes@
                && shown.annotations == store
            &&& after.status matches Some(status) && status.is_error == (warning is Some)
                && status.created == now
            &&& after.layout == viewer.layout && after.show_notes == viewer.show_notes
            &&& after.desired_render is None && after.render_due == now
            &&& sidecar is Missing ==> warning is None
        }),
{
    lemma_zero();
}

/// A text with a character in it that is no white space is not blank.
proof fn lemma_not_blank(text: Seq<char>, i: int)
    requires
        0 <= i < text.len(),
        !white_space(text[i]),
    ensures
        trimmed(text).len() > 0,
    decreases text.len(),
{
    if white_space(text.last()) {
        assert(text.drop_last()[i] == text[i]);
        lemma_not_blank(text.drop_last(), i);
    } else if white_space(text.first()) {
        assert(text.drop_first()[i - 1] == text[i]);
        lemma_not_blank(text.drop_first(), i - 1);
    }
}

/// The window is called by the title of the document; where it has none, or a blank one, by the name
/// of its file.
pub proof fn law_windows_are_called_by_their_documents(
    title: Seq<char>,
    folder: Seq<u8>,
    name: Seq<u8>,
    path: Seq<u8>,
)
    requires
        is_name(name),
    ensures
        !all_white(title) ==> window_title(Some(title), path) == title + " — Simple PDF Viewer"@,
        all_white(title) ==> window_title(Some(title), path) == window_title(None, path),
        window_title(None, folder.push(47) + name) == lossy_text(name) + " — Simple PDF Viewer"@,
        final_component(path) is None ==> window_title(None, path) == "PDF"@
            + " — Simple PDF Viewer"@,
{
    if all_white(title) {
        law_white_space_around_is_taken_away(title, Seq::empty(), Seq::empty());
    } else {
        let i = choose|i: int| 0 <= i < title.len() && !white_space(#[trigger] title[i]);
        lemma_not_blank(title, i);
    }
    law_files_go_by_their_names(folder, name, path);
}

/// Of what could not be done for the open document the user is told, by what it was and why.
pub proof fn law_failures_are_told<T>(
    viewer: ViewerView<T>,
    operation: &'static str,
    error: String,
    now: u64,
)
    requires
        viewer.document is Some,
    ensures
        ({
            let after = viewer.answered(
                PdfResponse::OperationFailed {
                    generation: viewer.document.unwrap().generation,
                    operation,
                    error,
                },
                now,
            );
            &&& after.status matches Some(status) && status.is_error && status.created == now
                && status.text == "Could not "@ + operation@ + ": "@ + error@
            &&& after == (ViewerView { status: after.status, ..viewer })
        }),
{
}

/// The picture of a destination is no longer waited for when it comes.
pub proof fn law_previews_are_taken<T>(
    viewer: ViewerView<T>,
    generation: u64,
    key: PreviewKey,
    image: RenderedImage,
    now: u64,
)
    ensures
        ({
            let after = viewer.answered(
                PdfResponse::PreviewRendered { generation, key, image },
                now,
            );
            &&& !after.pending_previews.contains(key)
            &&& forall|other: PreviewKey|
                other != key ==> (#[trigger] after.pending_previews.contains(other)
                    == viewer.pending_previews.contains(other))
            &&& after == (ViewerView { pending_previews: after.pending_previews, ..viewer })
        }),
{
}

/// What the toolbar offers has an effect, and what it does not offer has none: going back and forward
/// use up what is remembered, and the page is turned where there is one to turn to.
pub proof fn law_offers_have_an_effect<T>(viewer: ViewerView<T>, now: u64)
    requires
        viewer.wf(),
        viewer.pages() <= usize::MAX,
    ensures
        viewer.offers(ToolbarEvent::Back) ==> viewer.after_toolbar(
            ToolbarEvent::Back,
            now,
        ).back_history.len() < viewer.back_history.len(),
        !viewer.offers(ToolbarEvent::Back) ==> viewer.after_toolbar(ToolbarEvent::Back, now)
            == viewer,
        viewer.offers(ToolbarEvent::Forward) ==> viewer.after_toolbar(
            ToolbarEvent::Forward,
            now,
        ).forward_history.len() < viewer.forward_history.len(),
        !viewer.offers(ToolbarEvent::Forward) ==> viewer.after_toolbar(ToolbarEvent::Forward, now)
            == viewer,
        viewer.offers(ToolbarEvent::NextPage) <==> viewer.document is Some
            && viewer.after_toolbar(ToolbarEvent::NextPage, now).current_page
            > viewer.current_page,
        viewer.offers(ToolbarEvent::PreviousPage) <==> viewer.document is Some
            && viewer.after_toolbar(ToolbarEvent::PreviousPage, now).current_page
            < viewer.current_page,
        viewer.document is None ==> !viewer.offers(ToolbarEvent::ZoomIn) && !viewer.offers(
            ToolbarEvent::ZoomOut,
        ) && !viewer.offers(ToolbarEvent::EnterPage) && !viewer.offers(ToolbarEvent::FitWidth)
            && !viewer.offers(ToolbarEvent::FitPage) && !viewer.offers(ToolbarEvent::ToggleNotes),
        viewer.document is Some ==> viewer.offers(ToolbarEvent::ZoomIn) && viewer.offers(
            ToolbarEvent::ZoomOut,
        ) && viewer.offers(ToolbarEvent::EnterPage) && viewer.offers(ToolbarEvent::FitWidth)
            && viewer.offers(ToolbarEvent::FitPage) && viewer.offers(ToolbarEvent::ToggleNotes),
{
}

/// The zoom is shown in percent, as a whole number.
pub proof fn law_zoom_is_shown_in_whole_percent<T>(viewer: ViewerView<T>)
    requires
        viewer.shown_zoom().is_finite(),
        size(viewer.shown_zoom().value()) <= 100 as real,
    ensures
        near(
            viewer.shown_percent().value(),
            viewer.shown_percent().to_i32() as real,
            1 as real / 100 as real,
        ),
        near(
            viewer.shown_percent().value(),
            100 as real * viewer.shown_zoom().value(),
            52 as real / 100 as real,
        ),
{
    lemma2_to64();
    let hundred = Real32 { bits: 0x42c8_0000 };
    lemma_constant(hundred, 0xc8_0000, 132, 17, 0x2_0000);
    let zoom = viewer.shown_zoom();
    assert(zoom.value() * hundred.value() == 100 as real * zoom.value()) by (nonlinear_arith)
        requires
            hundred.value() == 100 as real,
    ;
    lemma_times(zoom, hundred);
    lemma_nearest(zoom.times(hundred));
}

/// When the pointer begins to be dragged, the area that is dragged over begins where the pointer is,
/// on the page that it is on; what was selected before is not any more. When it is dragged on, the
/// area reaches to where it is then.
pub proof fn law_dragging_follows_the_pointer<T>(
    viewer: ViewerView<T>,
    page_index: usize,
    input: PageInput,
    next: PageInput,
    page_rect: ScreenRect,
    links: Seq<LinkRegion>,
    annotations: Seq<AnnotationView>,
    now: u64,
)
    requires
        input.drag_started && !input.drag_stopped && !input.clicked,
        input.pointer is Some,
        next.dragged && !next.drag_started && !next.drag_stopped && !next.clicked,
        next.pointer is Some,
    ensures
        ({
            let begun = viewer.after_pointer(page_index, input, page_rect, links, annotations, now);
            let from = on_page(input.pointer.unwrap(), page_rect);
            let to = on_page(next.pointer.unwrap(), page_rect);
            let after = begun.after_pointer(page_index, next, page_rect, links, annotations, now);
            &&& begun.dragged_rect() == Some(NormalizedRect::spanned(from, from))
            &&& begun.drag_page == Some(page_index)
            &&& begun.selection_draft is None
            &&& after.dragged_rect() == Some(NormalizedRect::spanned(from, to))
            &&& after.drag_page == Some(page_index)
        }),
{
}

/// The picture that is wanted of a page is one of that page of the open document, for the size that
/// the page itself has on the screen.
pub proof fn law_wanted_pictures_are_of_their_pages<T>(
    viewer: ViewerView<T>,
    page_index: usize,
    pixels_per_point: Real32,
)
    requires
        viewer.document is Some,
        page_index < viewer.pages(),
    ensures
        ({
            let document = viewer.document.unwrap();
            let shown = size_of_page(
                viewer.zoom,
                document.page_sizes[page_index as int],
                viewer.last_viewport,
            );
            &&& viewer.shown_size(page_index as int) == shown
            &&& viewer.wanted_key(page_index, pixels_per_point) == key_for(
                document.generation,
                page_index,
                shown,
                pixels_per_point,
            )
        }),
{
}

/// A window of another size is taken note of, and nothing else changes.
pub proof fn law_windows_change_their_size<T>(viewer: ViewerView<T>, window: Vector, other: Vector)
    ensures
        viewer.in_window(window).last_viewport == window,
        viewer.in_window(window).in_window(other) == viewer.in_window(other),
        viewer.in_window(window) == (ViewerView { last_viewport: window, ..viewer }),
{
}

/// The zoom that is shown is that of the page that is shown: at full size 72 points of it are 96
/// pixels on the screen.
pub proof fn law_zoom_is_that_of_the_page<T>(viewer: ViewerView<T>)
    requires
        viewer.document is Some,
        viewer.current_page < viewer.pages(),
        ({
            let scale = scale_of(
                viewer.zoom,
                viewer.document.unwrap().page_sizes[viewer.current_page as int],
                viewer.last_viewport,
            );
            scale.is_finite() && 1 as real / 1000 as real <= scale.value() <= 1_000_000 as real
        }),
    ensures
        ({
            let scale = scale_of(
                viewer.zoom,
                viewer.document.unwrap().page_sizes[viewer.current_page as int],
                viewer.last_viewport,
            ).value();
            near(96 as real * viewer.shown_zoom().value(), 72 as real * scale, scale * sliver() * 100 as real)
        }),
{
    lemma2_to64();
    let unit = Real32 { bits: PDF_POINT_TO_LOGICAL };
    lemma_constant(unit, 0xaa_aaab, 126, 23, 0x80_0000);
    let scale = scale_of(
        viewer.zoom,
        viewer.document.unwrap().page_sizes[viewer.current_page as int],
        viewer.last_viewport,
    );
    let s = scale.value();
    let u = unit.value();
    let q = s / u;
    assert(q * 0xaa_aaab as real == s * 0x80_0000 as real) by (nonlinear_arith)
        requires
            q == s / u,
            u == 0xaa_aaab as real / 0x80_0000 as real,
    ;
    lemma_over(scale, unit);
}

/// At the beginning no document is open and nothing is waited for, kept or told; pages are shown one
/// by one and as a whole with the panel of notes, and the first document that is asked for is asked for as number one.
pub proof fn law_viewers_begin_empty<T>(now: u64, path: Seq<u8>)
    requires
        names_pdf(path),
    ensures
        ({
            let viewer = fresh_viewer::<T>(now);
            &&& viewer.wf()
            &&& viewer.document is None && viewer.loading is None
            &&& viewer.layout == LayoutMode::SinglePage && viewer.zoom == ZoomMode::FitPage
            &&& !viewer.waiting() && !viewer.unsaved()
            &&& viewer.page_cache.len() == 0 && viewer.preview_cache.len() == 0
            &&& viewer.back_history.len() == 0 && viewer.forward_history.len() == 0
            &&& viewer.status is None && viewer.hover is None && viewer.selection_draft is None
            &&& viewer.current_page == 0 && viewer.show_notes
            &&& viewer.opening(path, now).waits_for(1)
        }),
{
}

/// In another layout nothing is selected or being selected.
pub proof fn law_layouts_drop_the_selection<T>(
    viewer: ViewerView<T>,
    layout: LayoutMode,
    now: u64,
)
    requires
        layout != viewer.layout,
    ensures
        ({
            let after = viewer.after_toolbar(ToolbarEvent::SetLayout(layout), now);
            &&& after.selection_draft is None
            &&& after.drag_page is None
            &&& after.desired_render is None && after.render_due == now
        }),
{
}

/// The pointer looks like a hand on a link and like a text mark beside it; it keeps its look while it
/// is dragged or is not on the page.
pub proof fn law_pointer_shows_links<T>(
    viewer: ViewerView<T>,
    input: PageInput,
    link: Option<LinkRegion>,
)
    ensures
        viewer.cursor(input, link) == PageCursor::PointingHand <==> !input.dragged && link is Some,
        viewer.cursor(input, link) == PageCursor::Text <==> !input.dragged && link is None
            && input.hovered,
{
}

/// A highlight with a note is listed with a mark before its text, and one without a note, or with a
/// blank one, without the mark.
pub proof fn law_notes_are_marked_in_the_list(
    annotation: AnnotationView,
    note: Seq<char>,
    selected: Option<u64>,
)
    requires
        !all_white(note),
        all_white(annotation.note),
        joined(words(annotation.selected_text)).len() <= 70,
    ensures
        summary_of(annotation, selected).label == joined(words(annotation.selected_text)),
        summary_of(AnnotationView { note, ..annotation }, selected).label == "📝 "@ + summary_of(
            annotation,
            selected,
        ).label,
{
    law_white_space_around_is_taken_away(annotation.note, Seq::empty(), Seq::empty());
    let i = choose|i: int| 0 <= i < note.len() && !white_space(#[trigger] note[i]);
    lemma_not_blank(note, i);
}

/// The note that is open is that of the selected highlight, where the highlight is on the page that
/// is shown; else none is.
pub proof fn law_open_note_is_on_the_page<T>(viewer: ViewerView<T>, i: int)
    requires
        0 <= i < viewer.notes().len(),
        viewer.selected_annotation == Some(viewer.notes()[i].id),
        forall|j: int|
            0 <= j < viewer.notes().len() && j != i ==> (#[trigger] viewer.notes()[j]).id
                != viewer.notes()[i].id,
    ensures
        viewer.notes()[i].page_index == viewer.current_page ==> viewer.selected_here() == Some(
            viewer.notes()[i].id,
        ),
        viewer.notes()[i].page_index != viewer.current_page ==> viewer.selected_here() is None,
{
    lemma_first_with_id(viewer.notes(), viewer.notes()[i].id, i);
}

/// Something is waited for while a document, a picture or the text of a selection is on its way, and
/// only then.
pub proof fn law_waiting_has_a_reason<T>(viewer: ViewerView<T>)
    requires
        viewer.pending_renders.finite(),
        viewer.pending_previews.finite(),
    ensures
        viewer.loading is Some ==> viewer.waiting(),
        viewer.selection_waiting is Some ==> viewer.waiting(),
        forall|key: RenderKey| #[trigger] viewer.pending_renders.contains(key) ==> viewer.waiting(),
        forall|key: PreviewKey|
            #[trigger] viewer.pending_previews.contains(key) ==> viewer.waiting(),
        viewer.waiting() ==> viewer.loading is Some || viewer.selection_waiting is Some
            || viewer.pending_renders != Set::<RenderKey>::empty() || viewer.pending_previews
            != Set::<PreviewKey>::empty(),
{
    assert forall|key: RenderKey| #[trigger] viewer.pending_renders.contains(key) implies viewer.waiting() by {
        vstd::set_lib::lemma_set_empty_equivalency_len(viewer.pending_renders);
    }
    assert forall|key: PreviewKey| #[trigger] viewer.pending_previews.contains(key) implies viewer.waiting() by {
        vstd::set_lib::lemma_set_empty_equivalency_len(viewer.pending_previews);
    }
}

/// A link is explained by the page that it leads to, counted from one, and by the picture of the
/// place where there is one; a link out of the document by its address.
pub proof fn law_links_are_explained_by_where_they_lead<T>(
    viewer: ViewerView<T>,
    target: LinkTarget,
    content: HoverContent,
)
    requires
        viewer.explains(target, content),
    ensures
        target matches LinkTarget::Internal(destination) ==> {
            &&& content matches HoverContent::Place { heading, picture } && heading@ == "Page "@
                + page_label(destination.page_index) && match picture {
                Some(i) => i < viewer.preview_cache.len() && viewer.preview_cache[i as int].key
                    == PreviewKey::key_of(destination),
                None => forall|i: int|
                    0 <= i < viewer.preview_cache.len() ==> (
                    #[trigger] viewer.preview_cache[i]).key != PreviewKey::key_of(destination),
            }
        },
        target matches LinkTarget::Uri(uri) ==> (joined(words(uri@)).len() <= 80 ==> (content
            matches HoverContent::Address(text) && text@ == joined(words(uri@)))),
{
    if let LinkTarget::Internal(destination) = target {
        lemma_preview_found(viewer.preview_cache, PreviewKey::key_of(destination));
    }
}

/// The picture of a place is asked for by the place itself and for the screen that it is shown on,
/// where it is neither there nor on the way.
pub proof fn law_previews_are_asked_for_by_place<T>(
    viewer: ViewerView<T>,
    destination: Destination,
    pixels_per_point: Real32,
)
    requires
        viewer.document is Some,
        !viewer.pending_previews.contains(PreviewKey::key_of(destination)),
        viewer.preview_cache.len() == 0,
    ensures
        viewer.preview_command(LinkTarget::Internal(destination), pixels_per_point) == Some(
            PdfCommand::RenderPreview {
                generation: viewer.document.unwrap().generation,
                destination,
                key: PreviewKey::key_of(destination),
                pixels_per_point,
            },
        ),
{
}

} // verus!
