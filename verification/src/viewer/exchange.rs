//! What answers, pictures, notes and the passing of time do to the viewer.

use crate::annotations::AnnotationView;
use crate::annotations::NormalizedRect;
use crate::geometry::page_read;
use crate::geometry::reading_position;
use crate::geometry::ColumnView;
use crate::geometry::RenderKey;
use crate::geometry::Vector;
use crate::pdf::Destination;
use crate::pdf::LinkRegion;
use crate::pdf::LinkTarget;
use crate::pdf::PdfCommand;
use crate::pdf::PdfResponse;
use crate::pdf::PreviewKey;
use crate::pdf::RenderedImage;
use crate::text::joined;
use crate::text::words;
use crate::viewer::backend::BackendStep;
use crate::viewer::drawing::annotations_on;
use crate::viewer::drawing::exactly;
use crate::viewer::drawing::first_picture;
use crate::viewer::drawing::has_page;
use crate::viewer::drawing::has_picture;
use crate::viewer::drawing::of_page;
use crate::viewer::drawing::picture_for;
use crate::viewer::drawing::render_command;
use crate::viewer::hover::first_preview;
use crate::viewer::navigation::page_label;
use crate::viewer::notes::summaries_of;
use crate::viewer::CachedPageView;
use crate::viewer::CachedPreview;
use crate::viewer::LayoutMode;
use crate::viewer::ViewerView;
use vstd::prelude::*;

verus! {

/// How many of the first items of a list are of a kind.
pub open spec fn kept_before<A>(list: Seq<A>, kind: spec_fn(A) -> bool, count: int) -> int
    decreases count,
{
    if count <= 0 {
        0
    } else {
        kept_before(list, kind, count - 1) + (if kind(list[count - 1]) {
            1int
        } else {
            0int
        })
    }
}

/// The items of a kind are all of them, and no others, in the order of the list.
proof fn lemma_filtered<A>(list: Seq<A>, kind: spec_fn(A) -> bool)
    ensures
        ({
            let kept = list.filter(kind);
            &&& kept.len() == kept_before(list, kind, list.len() as int)
            &&& forall|i: int|
                0 <= i < list.len() && kind(#[trigger] list[i]) ==> 0 <= kept_before(list, kind, i)
                    < kept.len() && kept[kept_before(list, kind, i)] == list[i]
            &&& forall|k: int| 0 <= k < kept.len() ==> kind(#[trigger] kept[k])
            &&& forall|k: int| 0 <= k < kept.len() ==> list.contains(#[trigger] kept[k])
        }),
    decreases list.len(),
{
    reveal(Seq::filter);
    if list.len() > 0 {
        let n = list.len() as int;
        let rest = list.drop_last();
        lemma_filtered(rest, kind);
        assert forall|c: int| 0 <= c <= n - 1 implies #[trigger] kept_before(list, kind, c)
            == kept_before(rest, kind, c) by {
            lemma_same_kept(list, rest, kind, c);
        }
        assert(kept_before(list, kind, n - 1) == kept_before(rest, kind, n - 1));
        let before = rest.filter(kind);
        let kept = list.filter(kind);
        assert forall|i: int| 0 <= i < n && kind(#[trigger] list[i]) implies 0 <= kept_before(
            list,
            kind,
            i,
        ) < kept.len() && kept[kept_before(list, kind, i)] == list[i] by {
            if i < n - 1 {
                assert(rest[i] == list[i]);
                assert(kept[kept_before(list, kind, i)] == before[kept_before(rest, kind, i)]);
            }
        }
        assert forall|k: int| 0 <= k < kept.len() implies list.contains(#[trigger] kept[k]) by {
            if k < before.len() {
                assert(kept[k] == before[k]);
                let j = choose|j: int| 0 <= j < rest.len() && rest[j] == before[k];
                assert(list[j] == kept[k]);
            } else {
                assert(list[n - 1] == kept[k]);
            }
        }
    }
}

/// Counting looks at the first items only.
proof fn lemma_same_kept<A>(a: Seq<A>, b: Seq<A>, kind: spec_fn(A) -> bool, count: int)
    requires
        count <= a.len(),
        count <= b.len(),
        forall|i: int| 0 <= i < count ==> a[i] == b[i],
    ensures
        kept_before(a, kind, count) == kept_before(b, kind, count),
    decreases count,
{
    if count > 0 {
        lemma_same_kept(a, b, kind, count - 1);
    }
}

/// The annotations of a page are all that stand on it, and no others, in their order.
pub proof fn law_pages_have_their_annotations(annotations: Seq<AnnotationView>, page_index: usize)
    ensures
        ({
            let here = |annotation: AnnotationView| annotation.page_index == page_index;
            let shown = annotations_on(annotations, page_index);
            &&& shown.len() == kept_before(annotations, here, annotations.len() as int)
            &&& forall|i: int|
                0 <= i < annotations.len() && (#[trigger] annotations[i]).page_index == page_index
                    ==> shown[kept_before(annotations, here, i)] == annotations[i]
            &&& forall|k: int|
                0 <= k < shown.len() ==> (#[trigger] shown[k]).page_index == page_index
        }),
{
    lemma_filtered(annotations, |annotation: AnnotationView| annotation.page_index == page_index);
}

/// Deleting a highlight takes it away and leaves all others as they are, in their order; then there
/// are changes to be saved, and nothing is selected.
pub proof fn law_deleting_takes_one_highlight<T>(viewer: ViewerView<T>, id: u64, now: u64)
    requires
        viewer.document is Some,
    ensures
        ({
            let others = |annotation: AnnotationView| annotation.id != id;
            let notes = viewer.notes();
            let after = viewer.unhighlighted(id, now);
            &&& after.notes().len() == kept_before(notes, others, notes.len() as int)
            &&& forall|i: int|
                0 <= i < notes.len() && (#[trigger] notes[i]).id != id ==> after.notes()[kept_before(
                    notes,
                    others,
                    i,
                )] == notes[i]
            &&& forall|k: int| 0 <= k < after.notes().len() ==> (#[trigger] after.notes()[k]).id != id
            &&& after.selected_annotation is None
            &&& (exists|i: int| 0 <= i < notes.len() && (#[trigger] notes[i]).id == id)
                ==> after.unsaved()
            &&& after.current_page == viewer.current_page
        }),
{
    let notes = viewer.notes();
    let others = |annotation: AnnotationView| annotation.id != id;
    lemma_filtered(notes, others);
    if !(exists|i: int| 0 <= i < notes.len() && (#[trigger] notes[i]).id == id) {
        lemma_all_kept(notes, others, notes.len() as int);
        assert forall|i: int| 0 <= i < notes.len() && (#[trigger] notes[i]).id != id implies notes[
            kept_before(notes, others, i)
        ] == notes[i] by {
            lemma_all_kept(notes, others, i);
        }
    }
}

/// Where every item is of a kind, as many are as there are.
proof fn lemma_all_kept<A>(list: Seq<A>, kind: spec_fn(A) -> bool, count: int)
    requires
        0 <= count <= list.len(),
        forall|i: int| 0 <= i < list.len() ==> kind(#[trigger] list[i]),
    ensures
        kept_before(list, kind, count) == count,
    decreases count,
{
    if count > 0 {
        lemma_all_kept(list, kind, count - 1);
    }
}

/// Changing a note changes the note of one highlight with the identifier and nothing else of it or
/// of the others; then there are changes to be saved, since that moment.
pub proof fn law_notes_are_changed<T>(viewer: ViewerView<T>, id: u64, note: Seq<char>, now: u64)
    requires
        viewer.document is Some,
        exists|i: int| 0 <= i < viewer.notes().len() && (#[trigger] viewer.notes()[i]).id == id,
        forall|i: int, j: int|
            0 <= i < j < viewer.notes().len() ==> (#[trigger] viewer.notes()[i]).id != (
            #[trigger] viewer.notes()[j]).id,
    ensures
        ({
            let after = viewer.noted(id, note, now);
            &&& after.notes().len() == viewer.notes().len()
            &&& forall|i: int|
                0 <= i < viewer.notes().len() ==> (#[trigger] after.notes()[i]) == (if viewer.notes()[
                i].id == id {
                    AnnotationView { note, ..viewer.notes()[i] }
                } else {
                    viewer.notes()[i]
                })
            &&& after.document.unwrap().annotations.dirty_since == Some(now)
            &&& after.current_page == viewer.current_page
            &&& after.selected_annotation == viewer.selected_annotation
        }),
{
    let notes = viewer.notes();
    let k = choose|i: int| 0 <= i < notes.len() && (#[trigger] notes[i]).id == id;
    assert forall|i: int| 0 <= i < k implies (#[trigger] notes[i]).id != id by {
        assert(notes[i].id != notes[k].id);
    }
    crate::annotations::lemma_first_with_id(notes, id, k);
    assert forall|i: int| 0 <= i < notes.len() && i != k implies (#[trigger] notes[i]).id != id by {
        if i < k {
            assert(notes[i].id != notes[k].id);
        } else {
            assert(notes[k].id != notes[i].id);
        }
    }
}

/// Annotations are saved 450 milliseconds after the last change, and not before.
pub proof fn law_saving_waits_for_a_pause<T>(viewer: ViewerView<T>, since: u64, now: u64)
    requires
        viewer.document is Some,
        viewer.document.unwrap().annotations.dirty_since == Some(since),
    ensures
        viewer.save_due(now) <==> now >= since + 450_000_000,
{
}

/// A message is shown for seven seconds.
pub proof fn law_messages_last<T>(
    viewer: ViewerView<T>,
    text: Seq<char>,
    is_error: bool,
    then: u64,
    now: u64,
)
    requires
        then <= now,
    ensures
        viewer.told(text, is_error, then).status_old(now) <==> now - then > 7_000_000_000,
        viewer.told(text, is_error, then).status.unwrap().text == text,
        viewer.told(text, is_error, then).status.unwrap().is_error == is_error,
        viewer.told(text, is_error, then) == (ViewerView {
            status: viewer.told(text, is_error, then).status,
            ..viewer
        }),
{
}

/// A document that is to be opened is waited for under a number of its own, and the open one stays
/// until it is there.
pub proof fn law_opening_waits_for_the_document<T>(viewer: ViewerView<T>, path: Seq<u8>, now: u64)
    requires
        crate::path::names_pdf(path),
        viewer.next_generation < u64::MAX,
    ensures
        ({
            let after = viewer.opening(path, now);
            &&& after.waits_for(viewer.next_generation)
            &&& after.loading.unwrap().1 == path
            &&& after.next_generation == viewer.next_generation + 1
            &&& after == (ViewerView {
                loading: after.loading,
                next_generation: after.next_generation,
                ..viewer
            })
        }),
{
}

/// The document that is waited for is shown as it was opened.
pub proof fn law_awaited_documents_are_shown<T>(
    viewer: ViewerView<T>,
    generation: u64,
    path: Vec<u8>,
    title: Option<String>,
    fingerprint: String,
    page_sizes: Vec<[crate::float::Real32; 2]>,
    step: BackendStep,
)
    requires
        viewer.waits_for(generation),
        viewer.leaves(
            PdfResponse::Loaded { generation, path, title, fingerprint, page_sizes },
            step,
        ),
    ensures
        step matches BackendStep::ShowDocument(document) && document.generation == generation
            && document.path == path && document.title == title && document.fingerprint
            == fingerprint && document.page_sizes == page_sizes,
{
}

/// The picture of a page of the open document is no longer waited for when it comes, and is kept
/// under its page and size with the links of the page.
pub proof fn law_pictures_are_taken<T>(
    viewer: ViewerView<T>,
    page_index: usize,
    pixel_size: [usize; 2],
    image: RenderedImage,
    links: Vec<LinkRegion>,
    step: BackendStep,
    now: u64,
)
    requires
        viewer.document is Some,
        viewer.leaves(
            PdfResponse::PageRendered {
                generation: viewer.document.unwrap().generation,
                page_index,
                pixel_size,
                image,
                links,
            },
            step,
        ),
    ensures
        ({
            let generation = viewer.document.unwrap().generation;
            let key = RenderKey { generation, page_index, pixel_size };
            let after = viewer.answered(
                PdfResponse::PageRendered { generation, page_index, pixel_size, image, links },
                now,
            );
            &&& !after.pending_renders.contains(key)
            &&& forall|other: RenderKey|
                other != key ==> (#[trigger] after.pending_renders.contains(other)
                    == viewer.pending_renders.contains(other))
            &&& after == (ViewerView { pending_renders: after.pending_renders, ..viewer })
        }),
        step matches BackendStep::KeepPage { key, links: l, image: i, .. } && key.page_index
            == page_index && key.pixel_size == pixel_size && l == links && i == image,
{
}

/// The text of the selection that is waited for becomes the selection; where none was found, the
/// user is told so and nothing is selected.
pub proof fn law_selected_text_is_taken<T>(
    viewer: ViewerView<T>,
    request_id: u64,
    page_index: usize,
    text: String,
    rects: Vec<NormalizedRect>,
    now: u64,
)
    requires
        viewer.document is Some,
        viewer.selection_waiting == Some(request_id),
    ensures
        ({
            let after = viewer.answered(
                PdfResponse::SelectionResolved {
                    generation: viewer.document.unwrap().generation,
                    request_id,
                    page_index,
                    text,
                    rects,
                },
                now,
            );
            &&& after.selection_waiting is None
            &&& text@.len() > 0 && rects@.len() > 0 ==> {
                &&& after.selection_draft is Some
                &&& after.selection_draft.unwrap().page_index == page_index
                &&& after.selection_draft.unwrap().text == text@
                &&& after.selection_draft.unwrap().rects == rects@
                &&& !after.status.unwrap().is_error
            }
            &&& text@.len() == 0 || rects@.len() == 0 ==> after.selection_draft
                == viewer.selection_draft && after.status.unwrap().is_error
            &&& after.document == viewer.document && after.current_page == viewer.current_page
        }),
{
}

/// A picture that is kept comes before the others, which stay behind it without an older one of the
/// same page and size; no more than twelve are kept where all pages are shown, and three where one
/// is, and the oldest go first.
pub proof fn law_newest_pictures_are_kept<T>(viewer: ViewerView<T>, entry: CachedPageView<T>)
    ensures
        ({
            let cache = viewer.with_page(entry).page_cache;
            let old = viewer.page_cache;
            let others = |other: CachedPageView<T>| other.key != entry.key;
            let limit = if viewer.layout == LayoutMode::Continuous {
                12
            } else {
                3
            };
            let count = 1 + kept_before(old, others, old.len() as int);
            &&& cache.len() == (if count < limit {
                count
            } else {
                limit
            })
            &&& cache[0] == entry
            &&& forall|i: int|
                0 <= i < old.len() && (#[trigger] old[i]).key != entry.key && kept_before(
                    old,
                    others,
                    i,
                ) + 1 < limit ==> cache[kept_before(old, others, i) + 1] == old[i]
            &&& viewer.with_page(entry) == (ViewerView { page_cache: cache, ..viewer })
        }),
{
    let others = |other: CachedPageView<T>| other.key != entry.key;
    lemma_filtered(viewer.page_cache, others);
    let all = seq![entry] + viewer.page_cache.filter(others);
    assert forall|i: int|
        0 <= i < viewer.page_cache.len() && (#[trigger] viewer.page_cache[i]).key
            != entry.key implies all[kept_before(viewer.page_cache, others, i) + 1]
        == viewer.page_cache[i] by {
        assert(others(viewer.page_cache[i]));
    }
}

/// The first picture of a kind is before all others of the kind.
proof fn lemma_first_of_kind<T>(
    cache: Seq<CachedPageView<T>>,
    wanted: spec_fn(RenderKey) -> bool,
)
    ensures
        ({
            let k = first_picture(cache, wanted);
            &&& 0 <= k <= cache.len()
            &&& k < cache.len() ==> wanted(cache[k].key)
            &&& forall|i: int| 0 <= i < k ==> !wanted((#[trigger] cache[i]).key)
        }),
    decreases cache.len(),
{
    if cache.len() > 0 && !wanted(cache.first().key) {
        let rest = cache.drop_first();
        lemma_first_of_kind(rest, wanted);
        let k = first_picture(cache, wanted);
        if k < cache.len() {
            assert(cache[k] == rest[k - 1]);
        }
        assert forall|i: int| 0 <= i < k implies !wanted((#[trigger] cache[i]).key) by {
            if i > 0 {
                assert(cache[i] == rest[i - 1]);
            }
        }
    }
}

/// For a page the picture of the wanted size is shown if there is one, else one of the page in
/// another size, and none exactly if there is no picture of the page. A picture of another page or
/// document is never shown for it.
pub proof fn law_pages_show_their_pictures<T>(cache: Seq<CachedPageView<T>>, key: RenderKey)
    ensures
        match picture_for(cache, key) {
            Some(i) => {
                &&& 0 <= i < cache.len()
                &&& cache[i].key.generation == key.generation
                &&& cache[i].key.page_index == key.page_index
                &&& (exists|j: int| 0 <= j < cache.len() && (#[trigger] cache[j]).key == key)
                    ==> cache[i].key == key
            },
            None => forall|j: int|
                0 <= j < cache.len() ==> !((#[trigger] cache[j]).key.generation == key.generation
                    && cache[j].key.page_index == key.page_index),
        },
{
    lemma_first_of_kind(cache, exactly(key));
    lemma_first_of_kind(cache, of_page(key));
    assert forall|j: int| 0 <= j < cache.len() && (#[trigger] cache[j]).key == key implies exactly(
        key,
    )(cache[j].key) by {}
    assert forall|j: int|
        0 <= j < cache.len() && (#[trigger] cache[j]).key.generation == key.generation
            && cache[j].key.page_index == key.page_index implies of_page(key)(cache[j].key) by {}
}

/// Whether one of the pictures is of a page of a document in a size.
pub open spec fn is_there<T>(cache: Seq<CachedPageView<T>>, key: RenderKey) -> bool {
    cache.map_values(|picture: CachedPageView<T>| picture.key).contains(key)
}

/// Being there is having a place in the list.
proof fn lemma_is_there<T>(cache: Seq<CachedPageView<T>>, key: RenderKey)
    ensures
        is_there(cache, key) == has_picture(cache, key),
{
    let keys = cache.map_values(|picture: CachedPageView<T>| picture.key);
    if has_picture(cache, key) {
        let i = choose|i: int| 0 <= i < cache.len() && (#[trigger] cache[i]).key == key;
        assert(keys[i] == key);
    }
    if is_there(cache, key) {
        let i = choose|i: int| 0 <= i < keys.len() && keys[i] == key;
        assert(cache[i].key == key);
    }
}

/// Of the pictures that are drawn each one is there, or is asked for unless four are on the way
/// already; each is asked for by its page and size, none is asked for twice, and nothing else is.
pub proof fn law_missing_pictures_are_asked_for<T>(viewer: ViewerView<T>, keys: Seq<RenderKey>)
    requires
        viewer.pending_renders.finite(),
    ensures
        ({
            let after = viewer.prefetching(keys);
            let commands = viewer.prefetches(keys);
            &&& after.pending_renders.finite()
            &&& viewer.pending_renders.subset_of(after.pending_renders)
            &&& after.pending_renders.len() == viewer.pending_renders.len() + commands.len()
            &&& after == (ViewerView { pending_renders: after.pending_renders, ..viewer })
            &&& forall|k: int|
                0 <= k < keys.len() ==> is_there(viewer.page_cache, #[trigger] keys[k])
                    || after.pending_renders.contains(keys[k]) || after.pending_renders.len() >= 4
            &&& viewer.pending_renders.len() <= 4 ==> after.pending_renders.len() <= 4
            &&& forall|key: RenderKey|
                (#[trigger] after.pending_renders.contains(key)) && !viewer.pending_renders.contains(
                    key,
                ) ==> keys.contains(key) && !is_there(viewer.page_cache, key) && commands.contains(
                    PdfCommand::RenderPage {
                        generation: key.generation,
                        page_index: key.page_index,
                        pixel_size: key.pixel_size,
                    },
                )
        }),
    decreases keys.len(),
{
    if keys.len() > 0 {
        let rest = keys.drop_last();
        let last = keys.last();
        law_missing_pictures_are_asked_for(viewer, rest);
        lemma_is_there(viewer.page_cache, last);
        let before = viewer.prefetching(rest);
        let after = viewer.prefetching(keys);
        let asked = viewer.prefetches(rest);
        let all = viewer.prefetches(keys);
        assert forall|c: PdfCommand| asked.contains(c) implies #[trigger] all.contains(c) by {
            let j = choose|j: int| 0 <= j < asked.len() && asked[j] == c;
            assert(all[j] == c);
        }
        assert forall|key: RenderKey| rest.contains(key) implies #[trigger] keys.contains(key) by {
            let j = choose|j: int| 0 <= j < rest.len() && rest[j] == key;
            assert(keys[j] == key);
        }
        if before.lacks(last) {
            assert(all[all.len() - 1] == render_command(last));
            assert(all.contains(render_command(last)));
            assert(keys[keys.len() - 1] == last);
        }
        assert forall|k: int| 0 <= k < keys.len() implies is_there(
            viewer.page_cache,
            #[trigger] keys[k],
        ) || after.pending_renders.contains(keys[k]) || after.pending_renders.len() >= 4 by {
            if k < rest.len() {
                assert(rest[k] == keys[k]);
            }
        }
        assert forall|key: RenderKey|
            (#[trigger] after.pending_renders.contains(key)) && !viewer.pending_renders.contains(
                key,
            ) implies keys.contains(key) && !is_there(viewer.page_cache, key) && all.contains(
            PdfCommand::RenderPage {
                generation: key.generation,
                page_index: key.page_index,
                pixel_size: key.pixel_size,
            },
        ) by {
            if before.pending_renders.contains(key) {
                assert(rest.contains(key));
                assert(asked.contains(render_command(key)));
            } else {
                assert(key == last);
            }
        }
    }
}

/// The picture that is wanted is asked for at once where nothing of the page can be shown, and 110
/// milliseconds after it was first wanted where another size of it can; it is not asked for before,
/// nor where it is there or on the way.
pub proof fn law_wanted_pictures_are_asked_for<T>(
    viewer: ViewerView<T>,
    key: RenderKey,
    then: u64,
    now: u64,
)
    requires
        viewer.desired_render != Some(key),
        viewer.layout == LayoutMode::SinglePage,
        then <= u64::MAX - 110_000_000,
    ensures
        ({
            let wanting = viewer.wanting(key, then);
            let cache = viewer.page_cache;
            let other_size = exists|i: int|
                0 <= i < cache.len() && (#[trigger] cache[i]).key.generation == key.generation
                    && cache[i].key.page_index == key.page_index;
            let missing = !is_there(cache, key) && !viewer.pending_renders.contains(key);
            &&& wanting.frame_picture(now) == (if missing && now >= then + (if other_size {
                110_000_000int
            } else {
                0int
            }) {
                Some(key)
            } else {
                None
            })
            &&& wanting.wanting(key, now) == wanting
        }),
{
    lemma_is_there(viewer.page_cache, key);
    let cache = viewer.page_cache;
    if has_page(cache, key.generation, key.page_index) {
        let i = choose|i: int|
            0 <= i < cache.len() && (#[trigger] cache[i]).key.shows(key.generation, key.page_index);
        assert(cache[i].key.page_index == key.page_index);
    }
    if exists|i: int|
        0 <= i < cache.len() && (#[trigger] cache[i]).key.generation == key.generation
            && cache[i].key.page_index == key.page_index {
        let i = choose|i: int|
            0 <= i < cache.len() && (#[trigger] cache[i]).key.generation == key.generation
                && cache[i].key.page_index == key.page_index;
        assert(cache[i].key.shows(key.generation, key.page_index));
    }
}

/// While all pages are shown, the page that is read is the one whose number is shown, and what was
/// selected on another page is no longer.
pub proof fn law_scrolling_follows_the_page<T>(
    viewer: ViewerView<T>,
    column: ColumnView,
    scroll: Vector,
    page: usize,
)
    requires
        page_read(column, reading_position(scroll, viewer.last_viewport)) == Some(page),
    ensures
        ({
            let after = viewer.settled(column, scroll);
            &&& after.current_page == page
            &&& after.current_scroll == scroll
            &&& page != viewer.current_page ==> after.page_input == page_label(page)
                && after.selected_annotation is None
            &&& page == viewer.current_page ==> after == (ViewerView {
                current_scroll: scroll,
                ..viewer
            })
            &&& after.zoom == viewer.zoom && after.layout == viewer.layout
            &&& after.back_history == viewer.back_history
        }),
{
}

/// The picture of a destination is kept before the others, which stay behind it in their order
/// without an older one of the same place; no more than twelve are kept.
pub proof fn law_newest_previews_are_kept<T>(viewer: ViewerView<T>, entry: CachedPreview<T>)
    ensures
        ({
            let cache = viewer.with_preview(entry).preview_cache;
            let old = viewer.preview_cache;
            let others = |other: CachedPreview<T>| other.key != entry.key;
            let count = 1 + kept_before(old, others, old.len() as int);
            &&& cache.len() == (if count < 12 {
                count
            } else {
                12
            })
            &&& cache[0] == entry
            &&& forall|i: int|
                0 <= i < old.len() && (#[trigger] old[i]).key != entry.key && kept_before(
                    old,
                    others,
                    i,
                ) + 1 < 12 ==> cache[kept_before(old, others, i) + 1] == old[i]
            &&& viewer.with_preview(entry) == (ViewerView { preview_cache: cache, ..viewer })
        }),
{
    let others = |other: CachedPreview<T>| other.key != entry.key;
    lemma_filtered(viewer.preview_cache, others);
    let all = seq![entry] + viewer.preview_cache.filter(others);
    assert forall|i: int|
        0 <= i < viewer.preview_cache.len() && (#[trigger] viewer.preview_cache[i]).key
            != entry.key implies all[kept_before(viewer.preview_cache, others, i) + 1]
        == viewer.preview_cache[i] by {
        assert(others(viewer.preview_cache[i]));
    }
}

/// The first picture of a destination is before all others of it.
pub proof fn lemma_preview_found<T>(cache: Seq<CachedPreview<T>>, key: PreviewKey)
    ensures
        ({
            let k = first_preview(cache, key);
            &&& 0 <= k <= cache.len()
            &&& k < cache.len() ==> cache[k].key == key
            &&& forall|i: int| 0 <= i < k ==> (#[trigger] cache[i]).key != key
        }),
    decreases cache.len(),
{
    if cache.len() > 0 && cache.first().key != key {
        let rest = cache.drop_first();
        lemma_preview_found(rest, key);
        let k = first_preview(cache, key);
        if k < cache.len() {
            assert(cache[k] == rest[k - 1]);
        }
        assert forall|i: int| 0 <= i < k implies (#[trigger] cache[i]).key != key by {
            if i > 0 {
                assert(cache[i] == rest[i - 1]);
            }
        }
    }
}

/// The picture of a link's destination is asked for after the pointer has rested on the link for
/// 300 milliseconds, where it is not there yet; and not before.
pub proof fn law_previews_wait_for_rest<T>(
    viewer: ViewerView<T>,
    destination: Destination,
    started: u64,
    now: u64,
)
    requires
        viewer.hover is Some,
        viewer.hover.unwrap().started == started,
        viewer.hover.unwrap().target == LinkTarget::Internal(destination),
        viewer.document is Some,
        started <= now,
    ensures
        ({
            let key = PreviewKey::key_of(destination);
            let cache = viewer.preview_cache;
            let there = exists|i: int| 0 <= i < cache.len() && (#[trigger] cache[i]).key == key;
            let after = viewer.explaining(now);
            &&& after.pending_previews == (if now - started >= 300_000_000 && !there {
                viewer.pending_previews.insert(key)
            } else {
                viewer.pending_previews
            })
            &&& after == (ViewerView { pending_previews: after.pending_previews, ..viewer })
        }),
{
    lemma_preview_found(viewer.preview_cache, PreviewKey::key_of(destination));
    if viewer.pending_previews.contains(PreviewKey::key_of(destination)) {
        assert(viewer.pending_previews.insert(PreviewKey::key_of(destination))
            =~= viewer.pending_previews);
    }
}

/// The list of highlights has one line for each highlight of the page, in their order, with the
/// highlight's own text where that is short, and says which one is selected.
pub proof fn law_every_highlight_is_listed(
    annotations: Seq<AnnotationView>,
    selected: Option<u64>,
)
    ensures
        ({
            let lines = summaries_of(annotations, selected);
            &&& lines.len() == annotations.len()
            &&& forall|i: int|
                0 <= i < lines.len() ==> (#[trigger] lines[i]).id == annotations[i].id
                    && lines[i].selected == (selected == Some(annotations[i].id))
            &&& forall|i: int|
                0 <= i < lines.len() && joined(words(annotations[i].selected_text)).len() <= 70
                    && annotations[i].note.len() == 0 ==> (#[trigger] lines[i]).label == joined(
                    words(annotations[i].selected_text),
                )
        }),
{
}

} // verus!
