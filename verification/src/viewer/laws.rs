//! What holds of the viewer as a whole.

use crate::annotations::ids_sound;
use crate::annotations::law_new_ids_are_fresh;
use crate::annotations::without_id;
use crate::annotations::AnnotationView;
use crate::annotations::SaveActionView;
use crate::annotations::SaveEvent;
use crate::annotations::Sidecar;
use crate::float::bounds::lemma_scaled_and_back;
use crate::float::ordering::position;
use crate::float::real32::binary32;
use crate::float::real32::lemma_minus_itself;
use crate::float::real32::lemma_within;
use crate::float::real32::lemma_zero_is_least;
use crate::float::rounding::Number;
use crate::float::Real32;
use crate::float::Real64;
use crate::geometry::RenderKey;
use crate::geometry::ScreenRect;
use crate::geometry::Vector;
use crate::geometry::ZoomMode;
use crate::geometry::PDF_POINT_TO_LOGICAL;
use crate::links::law_links_come_from_the_page;
use crate::links::leads_inside;
use crate::links::page_links;
use crate::links::LinkMapping;
use crate::pdf::Destination;
use crate::pdf::PdfResponse;
use crate::text::law_written_numbers_are_read_back;
use crate::viewer::backend::BackendStep;
use crate::viewer::backend::LoadedDocument;
use crate::viewer::controls::ShortcutInput;
use crate::viewer::controls::ToolbarEvent;
use crate::viewer::controls::ZOOM_TREMBLE;
use crate::viewer::drawing::exactly;
use crate::viewer::drawing::first_picture;
use crate::viewer::drawing::has_picture;
use crate::viewer::drawing::picture_for;
use crate::viewer::drawing::MAX_REQUESTS;
use crate::viewer::interaction::PageInput;
use crate::viewer::links_inside;
use crate::viewer::navigation::page_label;
use crate::viewer::navigation::MAX_ZOOM;
use crate::viewer::navigation::MIN_ZOOM;
use crate::viewer::CachedPageView;
use crate::viewer::DraftView;
use crate::viewer::LayoutMode;
use crate::viewer::ViewerView;
use crate::viewer::CONTINUOUS_CACHE;
use crate::viewer::SINGLE_CACHE;
use vstd::arithmetic::power2::lemma2_to64;
use vstd::arithmetic::power2::lemma_pow2_adds;
use vstd::arithmetic::power2::lemma_pow2_pos;
use vstd::arithmetic::power2::lemma_pow2_strictly_increases;
use vstd::arithmetic::power2::pow2;
use vstd::prelude::*;

verus! {

/// Following a link remembers what was seen, behind everything that was remembered before.
pub proof fn law_links_remember_where_they_were<T>(
    viewer: ViewerView<T>,
    destination: Destination,
    now: u64,
)
    ensures
        viewer.at_destination(destination, now).back_history == viewer.back_history.push(
            viewer.location(),
        ),
        viewer.at_destination(destination, now).current_page == destination.page_index,
        viewer.at_destination(destination, now).zoom == viewer.zoom,
        viewer.at_destination(destination, now).layout == viewer.layout,
{
}

/// Going back shows the page from which a link was followed, at the scroll position, in the zoom
/// and in the layout that it had, whatever was done in between. What was left can be gone forward
/// to.
pub proof fn law_back_returns<T>(before: ViewerView<T>, after: ViewerView<T>, now: u64)
    requires
        before.wf(),
        before.document is Some,
        after.pages() == before.pages(),
        after.back_history == before.back_history.push(before.location()),
    ensures
        after.gone_back(now).current_page == before.current_page,
        after.gone_back(now).page_input == page_label(before.current_page),
        after.gone_back(now).zoom == before.zoom,
        after.gone_back(now).layout == before.layout,
        after.gone_back(now).back_history == before.back_history,
        after.gone_back(now).pending_scroll == Some(before.current_scroll),
        after.gone_back(now).pending_page_scroll is None,
        after.gone_back(now).pending_destination is None,
        after.gone_back(now).forward_history == after.forward_history.push(after.location()),
{
    assert(after.back_history.drop_last() =~= before.back_history);
}

/// Going forward after going back shows the page that was left, at its scroll position, in its zoom
/// and in its layout. What can be gone back and forward to is as it was, once the window has been
/// scrolled to what was gone back to.
pub proof fn law_forward_undoes_back<T>(
    viewer: ViewerView<T>,
    scroll: Vector,
    then: u64,
    now: u64,
)
    requires
        viewer.wf(),
        viewer.document is Some,
        viewer.back_history.len() > 0,
        viewer.back_history.last().page_index < viewer.pages(),
    ensures
        ({
            let shown = ViewerView { current_scroll: scroll, ..viewer.gone_back(then) };
            let after = shown.gone_forward(now);
            &&& after.current_page == viewer.current_page
            &&& after.page_input == page_label(viewer.current_page)
            &&& after.zoom == viewer.zoom
            &&& after.layout == viewer.layout
            &&& after.pending_scroll == Some(viewer.current_scroll)
            &&& after.pending_page_scroll is None
            &&& after.pending_destination is None
            &&& after.forward_history == viewer.forward_history
            &&& after.back_history.drop_last() == viewer.back_history.drop_last()
            &&& scroll == viewer.back_history.last().scroll ==> after.back_history
                == viewer.back_history
        }),
{
    let shown = ViewerView { current_scroll: scroll, ..viewer.gone_back(then) };
    let after = shown.gone_forward(now);
    assert(shown.forward_history.drop_last() =~= viewer.forward_history);
    assert(after.back_history.drop_last() =~= viewer.back_history.drop_last());
    assert(viewer.back_history =~= viewer.back_history.drop_last().push(
        viewer.back_history.last(),
    ));
}

/// After a link is followed or a page is gone to, there is nothing to go forward to.
pub proof fn law_new_ways_forget_old_ones<T>(
    viewer: ViewerView<T>,
    destination: Destination,
    page_index: usize,
    now: u64,
)
    ensures
        viewer.at_destination(destination, now).forward_history.len() == 0,
        viewer.document is Some && viewer.pages() > 0 ==> viewer.on_page(
            page_index,
            now,
        ).forward_history.len() == 0,
        viewer.on_page(page_index, now).back_history == viewer.back_history,
{
}

/// Going to a page shows that page where the document has it, and else the last one.
pub proof fn law_pages_are_reached<T>(viewer: ViewerView<T>, page_index: usize, now: u64)
    requires
        viewer.wf(),
        viewer.document is Some,
    ensures
        page_index < viewer.pages() ==> viewer.on_page(page_index, now).current_page == page_index,
        page_index >= viewer.pages() ==> viewer.on_page(page_index, now).current_page
            == viewer.pages() - 1,
        viewer.on_page(page_index, now).page_input == page_label(
            viewer.on_page(page_index, now).current_page,
        ),
{
}

/// The page after a page and the page before that is the page again, unless it is the last one.
pub proof fn law_next_and_previous<T>(viewer: ViewerView<T>, then: u64, now: u64)
    requires
        viewer.wf(),
        viewer.document is Some,
        viewer.pages() <= usize::MAX,
        viewer.current_page + 1 < viewer.pages(),
    ensures
        viewer.after_toolbar(ToolbarEvent::NextPage, then).current_page == viewer.current_page + 1,
        viewer.after_toolbar(ToolbarEvent::NextPage, then).after_toolbar(
            ToolbarEvent::PreviousPage,
            now,
        ).current_page == viewer.current_page,
{
}

/// Typing the number of a page that the document has shows that page.
pub proof fn law_typed_pages_are_shown<T>(viewer: ViewerView<T>, page_index: usize, now: u64)
    requires
        viewer.wf(),
        viewer.document is Some,
        viewer.pages() <= usize::MAX,
        page_index < viewer.pages(),
        viewer.page_input == page_label(page_index),
    ensures
        viewer.after_toolbar(ToolbarEvent::EnterPage, now).current_page == page_index,
{
    law_written_numbers_are_read_back((page_index + 1) as usize);
}

/// A zoom that was chosen by hand is between a quarter and four, unless what was chosen is not
/// a number.
pub proof fn law_zoom_is_bounded<T>(viewer: ViewerView<T>, zoom: Real32, now: u64)
    requires
        zoom.up_to(zoom),
    ensures
        viewer.zoomed(zoom, now).zoom matches ZoomMode::Manual(chosen) && (Real32 {
            bits: MIN_ZOOM,
        }).up_to(chosen) && chosen.up_to(Real32 { bits: MAX_ZOOM }),
{
    let low = Real32 { bits: MIN_ZOOM };
    let high = Real32 { bits: MAX_ZOOM };
    assert(low.up_to(high)) by {
        reveal(Real32::spec_up_to);
        lemma_pow2_strictly_increases(124, 128);
        assert(low.number() == (Number::Finite {
            negative: false,
            mantissa: 0x80_0000,
            exponent: 124,
        }));
        assert(high.number() == (Number::Finite {
            negative: false,
            mantissa: 0x80_0000,
            exponent: 128,
        }));
    }
    lemma_within(zoom, low, high);
}

/// The zoom that is shown is the one that was chosen by hand, brought between the bounds, up to one
/// part in four million, whatever the window and the page are. Choosing it keeps the page, the
/// layout and what can be gone back and forward to.
pub proof fn law_chosen_zoom_is_shown<T>(
    viewer: ViewerView<T>,
    later: ViewerView<T>,
    zoom: Real32,
    now: u64,
)
    requires
        zoom.up_to(zoom),
        later.zoom == viewer.zoomed(zoom, now).zoom,
        later.document is Some,
    ensures
        ({
            let chosen = zoom.within(Real32 { bits: MIN_ZOOM }, Real32 { bits: MAX_ZOOM });
            let exact = position(chosen.number(), binary32());
            let shown = position(later.shown_zoom().number(), binary32());
            &&& later.zoom == ZoomMode::Manual(chosen)
            &&& later.shown_zoom().is_finite()
            &&& exact > 0
            &&& (shown - exact) * 0x40_0000 <= exact
            &&& (exact - shown) * 0x40_0000 <= exact
        }),
        viewer.zoomed(zoom, now).current_page == viewer.current_page,
        viewer.zoomed(zoom, now).layout == viewer.layout,
        viewer.zoomed(zoom, now).back_history == viewer.back_history,
        viewer.zoomed(zoom, now).forward_history == viewer.forward_history,
{
    let low = Real32 { bits: MIN_ZOOM };
    let high = Real32 { bits: MAX_ZOOM };
    let chosen = zoom.within(low, high);
    let factor = Real32 { bits: PDF_POINT_TO_LOGICAL };
    law_zoom_is_bounded(viewer, zoom, now);
    lemma2_to64();
    lemma_pow2_adds(23, 124);
    lemma_pow2_adds(23, 126);
    lemma_pow2_adds(23, 128);
    lemma_pow2_adds(2, 149);
    lemma_pow2_strictly_increases(151, 277);
    assert(low.number() == (Number::Finite {
        negative: false,
        mantissa: 0x80_0000,
        exponent: 124,
    }));
    assert(high.number() == (Number::Finite {
        negative: false,
        mantissa: 0x80_0000,
        exponent: 128,
    }));
    assert(factor.number() == (Number::Finite {
        negative: false,
        mantissa: 0xaa_aaab,
        exponent: 126,
    }));
    assert(position(low.number(), binary32()) == pow2(147));
    assert(position(high.number(), binary32()) == pow2(151));
    reveal(Real32::spec_up_to);
    reveal(Real32::spec_is_finite);
    lemma_pow2_pos(147);
    assert(pow2(147) <= position(chosen.number(), binary32()) <= pow2(151));
    lemma_scaled_and_back(factor, chosen);
}

/// The document that an answer is about; the key of a picture says it for a page.
pub open spec fn answer_subject(response: PdfResponse) -> u64 {
    match response {
        PdfResponse::Loaded { generation, .. } => generation,
        PdfResponse::LoadFailed { generation, .. } => generation,
        PdfResponse::PageRendered { generation, .. } => generation,
        PdfResponse::PreviewRendered { generation, .. } => generation,
        PdfResponse::SelectionResolved { generation, .. } => generation,
        PdfResponse::OperationFailed { generation, .. } => generation,
    }
}

/// An answer about a document that is neither open nor being opened changes nothing but what is
/// waited for, and leaves nothing to be done.
pub proof fn law_stale_answers_are_ignored<T>(
    viewer: ViewerView<T>,
    response: PdfResponse,
    step: BackendStep,
    now: u64,
)
    requires
        viewer.generation() != Some(answer_subject(response)),
        !viewer.waits_for(answer_subject(response)),
        viewer.leaves(response, step),
    ensures
        step is Settled,
        viewer.answered(response, now) == (ViewerView {
            pending_renders: viewer.answered(response, now).pending_renders,
            pending_previews: viewer.answered(response, now).pending_previews,
            ..viewer
        }),
        viewer.answered(response, now).pending_renders.subset_of(viewer.pending_renders),
        viewer.answered(response, now).pending_previews.subset_of(viewer.pending_previews),
{
}

/// Where a document cannot be opened, the one that is open stays as it is.
pub proof fn law_failed_opening_keeps_the_document<T>(
    viewer: ViewerView<T>,
    generation: u64,
    path: Vec<u8>,
    error: String,
    now: u64,
)
    ensures
        ({
            let after = viewer.answered(PdfResponse::LoadFailed { generation, path, error }, now);
            &&& after.document == viewer.document
            &&& after.location() == viewer.location()
            &&& after.page_cache == viewer.page_cache
            &&& after.back_history == viewer.back_history
            &&& after.forward_history == viewer.forward_history
        }),
{
}

/// A file that is not named like a document changes nothing but the message to the user.
pub proof fn law_other_files_are_refused<T>(viewer: ViewerView<T>, path: Seq<u8>, now: u64)
    requires
        !crate::path::names_pdf(path),
    ensures
        viewer.opening(path, now) == (ViewerView {
            status: viewer.opening(path, now).status,
            ..viewer
        }),
        viewer.opening(path, now).status matches Some(status) && status.is_error,
{
}

/// A new document begins on its first page, with nothing of the one before it.
pub proof fn law_new_documents_begin_anew<T>(
    viewer: ViewerView<T>,
    document: LoadedDocument,
    sidecar: Sidecar,
    now: u64,
)
    requires
        document.page_sizes@.len() > 0,
    ensures
        ({
            let after = viewer.showing(document, sidecar, now);
            &&& after.generation() == Some(document.generation)
            &&& after.pages() == document.page_sizes@.len()
            &&& after.current_page == 0
            &&& after.page_cache.len() == 0 && after.preview_cache.len() == 0
            &&& after.pending_renders.len() == 0 && after.pending_previews.len() == 0
            &&& after.back_history.len() == 0 && after.forward_history.len() == 0
            &&& after.selection_draft is None && after.selected_annotation is None
            &&& after.loading is None
        }),
{
}

/// A picture that was just kept is the one that is shown, and no more are kept than there is
/// room for.
pub proof fn law_kept_pictures_are_shown<T>(viewer: ViewerView<T>, entry: CachedPageView<T>)
    ensures
        picture_for(viewer.with_page(entry).page_cache, entry.key) == Some(0int),
        viewer.with_page(entry).page_cache[0] == entry,
        viewer.with_page(entry).page_cache.len() <= (if viewer.layout == LayoutMode::Continuous {
            CONTINUOUS_CACHE
        } else {
            SINGLE_CACHE
        }),
{
    let cache = viewer.with_page(entry).page_cache;
    assert(cache[0] == entry);
    assert(exactly(entry.key)(cache.first().key));
    assert(first_picture(cache, exactly(entry.key)) == 0);
}

/// A picture that is on the way or there is not asked for again.
pub proof fn law_pictures_are_asked_for_once<T>(viewer: ViewerView<T>, key: RenderKey, now: u64)
    requires
        viewer.pending_renders.contains(key) || has_picture(viewer.page_cache, key),
    ensures
        !viewer.lacks(key),
        viewer.due_picture(now) != Some(key),
{
}

/// Asking ahead never makes more pictures be waited for than are allowed, unless there were
/// more before.
pub proof fn law_requests_are_bounded<T>(viewer: ViewerView<T>, keys: Seq<RenderKey>)
    requires
        viewer.pending_renders.finite(),
    ensures
        viewer.prefetching(keys).pending_renders.finite(),
        viewer.prefetching(keys).pending_renders.len() <= (if viewer.pending_renders.len()
            > MAX_REQUESTS {
            viewer.pending_renders.len()
        } else {
            MAX_REQUESTS as nat
        }),
        viewer.prefetching(keys) == (ViewerView {
            pending_renders: viewer.prefetching(keys).pending_renders,
            ..viewer
        }),
        viewer.pending_renders.subset_of(viewer.prefetching(keys).pending_renders),
    decreases keys.len(),
{
    if keys.len() > 0 {
        law_requests_are_bounded(viewer, keys.drop_last());
    }
}

/// The picture of a destination is asked for once: while it is on the way, it is not asked for
/// again.
pub proof fn law_previews_are_asked_for_once<T>(
    viewer: ViewerView<T>,
    destination: Destination,
    started: u64,
    now: u64,
)
    requires
        viewer.hover matches Some(hover) && hover.started == started && hover.target
            == crate::pdf::LinkTarget::Internal(destination),
        crate::viewer::hover::elapsed(started, now) >= crate::viewer::HOVER_DELAY,
        viewer.document is Some,
    ensures
        !viewer.explaining(now).lacks_preview(destination),
{
}

/// Of several areas that were dragged over, only the text of the last one is taken.
pub proof fn law_only_the_last_selection_counts<T>(
    viewer: ViewerView<T>,
    generation: u64,
    request_id: u64,
    draft: DraftView,
    page_index: usize,
    input: PageInput,
    page_rect: ScreenRect,
    now: u64,
)
    requires
        viewer.selection_request < u64::MAX,
        request_id <= viewer.selection_request,
        viewer.drag_ends(page_index, input),
        viewer.area_selected(page_rect) is Some,
    ensures
        viewer.drag_ended(page_index, input, page_rect).with_selection(
            generation,
            request_id,
            draft,
            now,
        ) == viewer.drag_ended(page_index, input, page_rect),
{
}

/// Highlighting adds one annotation behind the others, on the page and over the text that was
/// selected, under an identifier that no other one has, and nothing stays selected.
pub proof fn law_highlights_are_added<T>(viewer: ViewerView<T>, add_note: bool, now: u64)
    requires
        viewer.document matches Some(document) && ids_sound(document.annotations)
            && document.annotations.next_id < u64::MAX,
        viewer.selection_draft is Some,
    ensures
        ({
            let draft = viewer.selection_draft.unwrap();
            let after = viewer.highlighted(add_note, now);
            let added = AnnotationView {
                id: viewer.document.unwrap().annotations.next_id,
                page_index: draft.page_index,
                rects: draft.rects,
                selected_text: draft.text,
                note: Seq::empty(),
            };
            &&& after.notes() == viewer.notes().push(added)
            &&& forall|k: int|
                0 <= k < viewer.notes().len() ==> (#[trigger] viewer.notes()[k]).id != added.id
            &&& after.selection_draft is None
            &&& after.unsaved()
            &&& add_note ==> after.selected_here() == Some(added.id)
        }),
{
    let store = viewer.document.unwrap().annotations;
    let draft = viewer.selection_draft.unwrap();
    let added = AnnotationView {
        id: store.next_id,
        page_index: draft.page_index,
        rects: draft.rects,
        selected_text: draft.text,
        note: Seq::empty(),
    };
    law_new_ids_are_fresh(store, added);
    let all = viewer.highlighted(add_note, now).notes();
    assert forall|k: int| 0 <= k < store.annotations.len() implies (#[trigger] all[k]).id
        != added.id by {
        assert(all[k] == store.annotations[k]);
    }
    crate::annotations::lemma_first_with_id(all, added.id, store.annotations.len() as int);
}

/// Deleting a highlight that was just made leaves the annotations that were there before.
pub proof fn law_deleting_undoes_highlighting<T>(
    viewer: ViewerView<T>,
    add_note: bool,
    then: u64,
    now: u64,
)
    requires
        viewer.document matches Some(document) && ids_sound(document.annotations)
            && document.annotations.next_id < u64::MAX,
        viewer.selection_draft is Some,
    ensures
        viewer.highlighted(add_note, then).unhighlighted(
            viewer.document.unwrap().annotations.next_id,
            now,
        ).notes() == viewer.notes(),
{
    let store = viewer.document.unwrap().annotations;
    let id = store.next_id;
    law_highlights_are_added(viewer, add_note, then);
    let all = viewer.highlighted(add_note, then).notes();
    assert(all[store.annotations.len() as int].id == id);
    assert(all.drop_last() =~= store.annotations);
    lemma_without_absent(store.annotations, id);
    reveal(Seq::filter);
}

/// Taking out an identifier that is not there changes nothing.
proof fn lemma_without_absent(annotations: Seq<AnnotationView>, id: u64)
    requires
        forall|k: int| 0 <= k < annotations.len() ==> (#[trigger] annotations[k]).id != id,
    ensures
        without_id(annotations, id) == annotations,
    decreases annotations.len(),
{
    reveal(Seq::filter);
    if annotations.len() > 0 {
        let rest = annotations.drop_last();
        assert forall|k: int| 0 <= k < rest.len() implies (#[trigger] rest[k]).id != id by {
            assert(rest[k] == annotations[k]);
        }
        lemma_without_absent(rest, id);
        assert(annotations =~= rest.push(annotations.last()));
    }
}

/// Changes are unsaved until the last step of a save has been done or they are given up: no other
/// event of a save makes room for another document. A save that begins does not end at once, it
/// writes every annotation, and what it writes takes the place of the sidecar file only when it is
/// written.
pub proof fn law_changes_are_saved_before_they_are_replaced<T>(
    viewer: ViewerView<T>,
    event: SaveEvent,
)
    requires
        viewer.unsaved(),
    ensures
        viewer.saving(event).0.unsaved() == (event != SaveEvent::Renamed),
        viewer.saving(event).0.notes() == viewer.notes(),
        viewer.saving(event).1 is Finish <==> event == SaveEvent::Renamed,
        viewer.saving(event).1 is Rename <==> event == SaveEvent::Written,
        viewer.saving(event).1 matches SaveActionView::Write { file, .. } ==> file.annotations
            == viewer.notes(),
        viewer.saving(event).1 matches SaveActionView::Rename { to, .. } ==> to
            == viewer.document.unwrap().annotations.path,
        !viewer.given_up().unsaved(),
        viewer.given_up().notes() == viewer.notes(),
{
}

/// When the last step of a save has been done, nothing is left to be saved.
pub proof fn law_saved_is_saved<T>(viewer: ViewerView<T>, now: u64)
    requires
        viewer.document is Some,
    ensures
        !viewer.saving(SaveEvent::Renamed).0.unsaved(),
        !viewer.saving(SaveEvent::Renamed).0.save_due(now),
        viewer.saving(SaveEvent::Renamed).0.notes() == viewer.notes(),
{
}

/// Keys without control or alt do nothing while a text is typed.
pub proof fn law_typing_does_not_turn_pages<T>(
    viewer: ViewerView<T>,
    input: ShortcutInput,
    now: u64,
)
    requires
        input.typing,
        !input.back && !input.forward && !input.zoom_in && !input.zoom_out && !input.zoom_reset,
        !input.control,
    ensures
        viewer.after_shortcuts(input, now) == viewer,
{
    let one = Real32 { bits: 0x3f80_0000 };
    assert(one.is_finite()) by {
        reveal(Real32::spec_is_finite);
    }
    lemma_minus_itself(one);
    lemma_zero_is_least(Real32 { bits: ZOOM_TREMBLE });
}

/// Where each link on a page leads out of the document or to one of its pages, so do the links
/// that are handed on with the picture of the page: the viewer takes them.
pub proof fn law_links_of_pages_are_taken<T>(
    viewer: ViewerView<T>,
    mappings: Seq<LinkMapping>,
    page_size: [Real64; 2],
    response: PdfResponse,
)
    requires
        forall|k: int|
            0 <= k < mappings.len() ==> ((#[trigger] mappings[k]).target matches Some(target)
                ==> leads_inside(target, viewer.pages())),
        response matches PdfResponse::PageRendered { links, .. } && links@ == page_links(
            mappings,
            page_size,
        ),
    ensures
        viewer.can_be_answered(response),
{
    let links = page_links(mappings, page_size);
    assert forall|i: int| 0 <= i < links.len() implies leads_inside(
        (#[trigger] links[i]).target,
        viewer.pages(),
    ) by {
        law_links_come_from_the_page(mappings, page_size, i);
        let k = choose|k: int|
            0 <= k < mappings.len() && (#[trigger] mappings[k]).target == Some(links[i].target)
                && links[i].rect == crate::links::link_rect(mappings[k], page_size);
        assert(mappings[k].target == Some(links[i].target));
    }
    assert(links_inside(links, viewer.pages()));
}

} // verus!
