//! What the viewer does with the answers of the page renderer.

use crate::annotations::load_outcome;
use crate::annotations::warning_text;
use crate::annotations::AnnotationStore;
use crate::annotations::LoadWarning;
use crate::annotations::Sidecar;
use crate::float::Real32;
use crate::geometry::RenderKey;
use crate::geometry::Vector;
use crate::geometry::ZoomMode;
use crate::links::leads_inside;
use crate::path::final_component;
use crate::path::final_name;
use crate::path::lossy_text;
use crate::path::path_text;
use crate::pdf::cache_hash;
use crate::pdf::render_cache_hash;
use crate::pdf::LinkRegion;
use crate::pdf::LinkTarget;
use crate::pdf::PdfResponse;
use crate::pdf::PreviewKey;
use crate::pdf::RenderedImage;
use crate::text::decimal;
use crate::text::decimal_digits;
use crate::text::is_blank;
use crate::text::signed_decimal;
use crate::text::signed_digits;
use crate::text::trimmed;
use crate::viewer::cache_sound;
use crate::viewer::cache_view;
use crate::viewer::links_inside;
use crate::viewer::previews_distinct;
use crate::viewer::CachedPage;
use crate::viewer::CachedPageView;
use crate::viewer::CachedPreview;
use crate::viewer::DocumentState;
use crate::viewer::DocumentView;
use crate::viewer::DraftView;
use crate::viewer::LayoutMode;
use crate::viewer::PdfViewerApp;
use crate::viewer::SelectionDraft;
use crate::viewer::ViewerView;
use crate::viewer::CONTINUOUS_CACHE;
use crate::viewer::PREVIEW_CACHE;
use crate::viewer::SINGLE_CACHE;
use std::collections::VecDeque;
use vstd::prelude::*;

verus! {

/// A document that was opened and is not shown yet.
#[derive(Debug)]
pub struct LoadedDocument {
    pub generation: u64,
    pub path: Vec<u8>,
    pub title: Option<String>,
    pub fingerprint: String,
    pub page_sizes: Vec<[Real32; 2]>,
}

/// What is left to do about an answer of the page renderer.
#[derive(Debug)]
pub enum BackendStep {
    /// Nothing.
    Settled,
    /// Save what is unsaved of the document that is open, look for the sidecar file of the new
    /// one, and show the new one with it.
    ShowDocument(LoadedDocument),
    /// Hand the picture of a page to the screen, and keep it.
    KeepPage { key: RenderKey, links: Vec<LinkRegion>, name: String, image: RenderedImage },
    /// Hand the picture of a destination to the screen, and keep it.
    KeepPreview { preview: PreviewKey, name: String, image: RenderedImage },
}

/// What the picture of a page is called, on a machine that puts the lowest byte first or last.
pub open spec fn page_picture_name(key: RenderKey, lowest_first: bool) -> Seq<char> {
    "page-"@ + decimal_digits(key.generation as nat) + "-"@ + decimal_digits(
        cache_hash(key.page_index, key.pixel_size, lowest_first) as nat,
    )
}

/// What the picture of a destination is called.
pub open spec fn preview_picture_name(generation: u64, key: PreviewKey) -> Seq<char> {
    "preview-"@ + decimal_digits(generation as nat) + "-PreviewKey { page_index: "@
        + decimal_digits(key.page_index as nat) + ", x_bucket: "@ + signed_digits(
        key.x_bucket as int,
    ) + ", y_bucket: "@ + signed_digits(key.y_bucket as int) + " }"@
}

/// What the window of a document is called: by the title of the document where it has one, and
/// else by its file.
pub open spec fn window_title(title: Option<Seq<char>>, path: Seq<u8>) -> Seq<char> {
    let name = if title is Some && trimmed(title.unwrap()).len() > 0 {
        title.unwrap()
    } else {
        match final_component(path) {
            Some(component) => lossy_text(component),
            None => "PDF"@,
        }
    };
    name + " — Simple PDF Viewer"@
}

/// The first pictures of a list.
pub open spec fn newest<A>(list: Seq<A>, limit: nat) -> Seq<A> {
    if list.len() > limit {
        list.take(limit as int)
    } else {
        list
    }
}

/// The title of a document as text.
pub open spec fn title_view(title: Option<String>) -> Option<Seq<char>> {
    match title {
        Some(text) => Some(text@),
        None => None,
    }
}

impl<T> ViewerView<T> {
    /// Whether an answer can come from the page renderer: a document has pages, and what is said
    /// of the open document is said of pages that it has.
    pub open spec fn can_be_answered(self, response: PdfResponse) -> bool {
        match response {
            PdfResponse::Loaded { page_sizes, .. } => page_sizes@.len() > 0,
            PdfResponse::PageRendered { generation, links, .. } => self.generation() == Some(
                generation,
            ) ==> links_inside(links@, self.pages()),
            PdfResponse::SelectionResolved { generation, page_index, .. } => self.generation()
                == Some(generation) ==> page_index < self.pages(),
            _ => true,
        }
    }

    /// Whether a document is the one that is being opened.
    pub open spec fn waits_for(self, generation: u64) -> bool {
        self.loading matches Some((expected, _)) && expected == generation
    }

    /// The viewer with a new document, on its first page.
    pub open spec fn showing(
        self,
        document: LoadedDocument,
        sidecar: Sidecar,
        now: u64,
    ) -> ViewerView<T> {
        let (annotations, warning) = load_outcome(
            document.path@,
            document.fingerprint@,
            document.page_sizes@.len(),
            sidecar,
        );
        let shown = ViewerView {
            document: Some(
                DocumentView {
                    generation: document.generation,
                    page_sizes: document.page_sizes@,
                    annotations,
                },
            ),
            loading: None,
            current_page: 0,
            page_input: "1"@,
            zoom: ZoomMode::FitPage,
            current_scroll: Vector::zero(),
            pending_scroll: Some(Vector::zero()),
            pending_page_scroll: None,
            pending_destination: None,
            back_history: Seq::empty(),
            forward_history: Seq::empty(),
            page_cache: Seq::empty(),
            preview_cache: Seq::empty(),
            pending_renders: Set::empty(),
            pending_previews: Set::empty(),
            desired_render: None,
            selection_draft: None,
            selected_annotation: None,
            render_due: now as u128,
            ..self
        };
        match warning {
            Some(reason) => shown.told(warning_text(reason), true, now),
            None => shown.told("Opened "@ + lossy_text(document.path@), false, now),
        }
    }

    /// The viewer with the picture of a page, which is kept before all others.
    pub open spec fn with_page(self, entry: CachedPageView<T>) -> ViewerView<T> {
        let others = self.page_cache.filter(|other: CachedPageView<T>| other.key != entry.key);
        ViewerView {
            page_cache: newest(
                seq![entry] + others,
                if self.layout == LayoutMode::Continuous {
                    CONTINUOUS_CACHE as nat
                } else {
                    SINGLE_CACHE as nat
                },
            ),
            ..self
        }
    }

    /// The viewer with the picture of a destination, which is kept before all others.
    pub open spec fn with_preview(self, entry: CachedPreview<T>) -> ViewerView<T> {
        let others = self.preview_cache.filter(|other: CachedPreview<T>| other.key != entry.key);
        ViewerView { preview_cache: newest(seq![entry] + others, PREVIEW_CACHE as nat), ..self }
    }

    /// The viewer after text in an area was looked for.
    pub open spec fn with_selection(
        self,
        generation: u64,
        request_id: u64,
        draft: DraftView,
        now: u64,
    ) -> ViewerView<T> {
        if self.generation() != Some(generation) || self.selection_waiting != Some(request_id) {
            self
        } else if draft.text.len() == 0 || draft.rects.len() == 0 {
            ViewerView { selection_waiting: None, ..self }.told(
                "No selectable text was found in that area."@,
                true,
                now,
            )
        } else {
            ViewerView { selection_waiting: None, selection_draft: Some(draft), ..self }.told(
                "Text selected — right-click it for Copy, Highlight, or Add note."@,
                false,
                now,
            )
        }
    }

    /// The viewer after an answer of the page renderer, as far as nothing is left to be done.
    pub open spec fn answered(self, response: PdfResponse, now: u64) -> ViewerView<T> {
        match response {
            PdfResponse::Loaded { .. } => self,
            PdfResponse::LoadFailed { generation, path, error } => if self.waits_for(generation) {
                ViewerView { loading: None, ..self }.told(
                    "Could not open "@ + lossy_text(path@) + ": "@ + error@,
                    true,
                    now,
                )
            } else {
                self
            },
            PdfResponse::PageRendered { generation, page_index, pixel_size, .. } => ViewerView {
                pending_renders: self.pending_renders.remove(
                    RenderKey { generation, page_index, pixel_size },
                ),
                ..self
            },
            PdfResponse::PreviewRendered { key, .. } => ViewerView {
                pending_previews: self.pending_previews.remove(key),
                ..self
            },
            PdfResponse::SelectionResolved { generation, request_id, page_index, text, rects } =>
                self.with_selection(
                generation,
                request_id,
                DraftView { page_index, text: text@, rects: rects@ },
                now,
            ),
            PdfResponse::OperationFailed { generation, operation, error } =>
                if self.generation() == Some(generation) {
                self.told("Could not "@ + operation@ + ": "@ + error@, true, now)
            } else {
                self
            },
        }
    }

    /// Whether this is what is left to do about an answer of the page renderer.
    pub open spec fn leaves(self, response: PdfResponse, step: BackendStep) -> bool {
        match response {
            PdfResponse::Loaded { generation, path, title, fingerprint, page_sizes } =>
                if self.waits_for(generation) {
                step == BackendStep::ShowDocument(
                    LoadedDocument { generation, path, title, fingerprint, page_sizes },
                )
            } else {
                step is Settled
            },
            PdfResponse::PageRendered { generation, page_index, pixel_size, image, links } =>
                if self.generation() == Some(generation) {
                &&& step matches BackendStep::KeepPage { key, links: l, name, image: i }
                &&& key == (RenderKey { generation, page_index, pixel_size })
                &&& l == links
                &&& i == image
                &&& name@ == page_picture_name(key, true) || name@ == page_picture_name(key, false)
            } else {
                step is Settled
            },
            PdfResponse::PreviewRendered { generation, key, image } => if self.generation()
                == Some(generation) {
                &&& step matches BackendStep::KeepPreview { preview, name, image: i }
                &&& preview == key
                &&& i == image
                &&& name@ == preview_picture_name(generation, key)
            } else {
                step is Settled
            },
            _ => step is Settled,
        }
    }
}

/// Taking one of distinct items out of a list takes it out of their set.
proof fn lemma_take_out<A>(list: Seq<A>, i: int)
    requires
        0 <= i < list.len(),
        list.no_duplicates(),
    ensures
        list.remove(i).no_duplicates(),
        list.remove(i).to_set() == list.to_set().remove(list[i]),
{
    let rest = list.remove(i);
    assert forall|a: A| rest.to_set().contains(a) == list.to_set().remove(list[i]).contains(a) by {
        if rest.contains(a) {
            let k = choose|k: int| 0 <= k < rest.len() && rest[k] == a;
            let j = if k < i {
                k
            } else {
                k + 1
            };
            assert(list[j] == a);
        }
        if list.contains(a) && a != list[i] {
            let j = choose|j: int| 0 <= j < list.len() && list[j] == a;
            let k = if j < i {
                j
            } else {
                j - 1
            };
            assert(rest[k] == a);
        }
    }
    assert(rest.to_set() =~= list.to_set().remove(list[i]));
}

/// Takes a key out of those that are waited for.
fn forget_render(keys: &mut Vec<RenderKey>, key: RenderKey)
    requires
        old(keys)@.no_duplicates(),
    ensures
        final(keys)@.no_duplicates(),
        final(keys)@.to_set() == old(keys)@.to_set().remove(key),
{
    let mut i: usize = 0;
    while i < keys.len()
        invariant
            i <= keys@.len(),
            keys@ == old(keys)@,
            keys@.no_duplicates(),
            forall|k: int| 0 <= k < i ==> keys@[k] != key,
        decreases keys@.len() - i,
    {
        if keys[i].same(key) {
            proof {
                lemma_take_out(keys@, i as int);
            }
            keys.remove(i);
            return;
        }
        i = i + 1;
    }
    assert(!keys@.contains(key));
    assert(keys@.to_set() =~= keys@.to_set().remove(key));
}

/// Takes a key out of those that are waited for.
fn forget_preview(keys: &mut Vec<PreviewKey>, key: PreviewKey)
    requires
        old(keys)@.no_duplicates(),
    ensures
        final(keys)@.no_duplicates(),
        final(keys)@.to_set() == old(keys)@.to_set().remove(key),
{
    let mut i: usize = 0;
    while i < keys.len()
        invariant
            i <= keys@.len(),
            keys@ == old(keys)@,
            keys@.no_duplicates(),
            forall|k: int| 0 <= k < i ==> keys@[k] != key,
        decreases keys@.len() - i,
    {
        if keys[i] == key {
            proof {
                lemma_take_out(keys@, i as int);
            }
            keys.remove(i);
            return;
        }
        i = i + 1;
    }
    assert(!keys@.contains(key));
    assert(keys@.to_set() =~= keys@.to_set().remove(key));
}

/// What a filter keeps was there before and passes it.
proof fn lemma_filter_keeps<A>(list: Seq<A>, keep: spec_fn(A) -> bool, i: int) -> (j: int)
    requires
        0 <= i < list.filter(keep).len(),
    ensures
        0 <= j < list.len(),
        i <= j,
        list.filter(keep)[i] == list[j],
        keep(list[j]),
    decreases list.len(),
{
    reveal(Seq::filter);
    let rest = list.drop_last();
    if i < rest.filter(keep).len() {
        lemma_filter_keeps(rest, keep, i)
    } else {
        lemma_filter_is_shorter(rest, keep);
        list.len() - 1
    }
}

/// A filter makes a list no longer.
proof fn lemma_filter_is_shorter<A>(list: Seq<A>, keep: spec_fn(A) -> bool)
    ensures
        list.filter(keep).len() <= list.len(),
    decreases list.len(),
{
    reveal(Seq::filter);
    if list.len() > 0 {
        lemma_filter_is_shorter(list.drop_last(), keep);
    }
}

/// A filter keeps the pictures of pages apart that were apart.
proof fn lemma_filter_apart<T>(cache: Seq<CachedPageView<T>>, key: RenderKey, i: int, j: int)
    requires
        forall|a: int, b: int|
            0 <= a < b < cache.len() ==> (#[trigger] cache[a]).key != (#[trigger] cache[b]).key,
        0 <= i < j < cache.filter(|other: CachedPageView<T>| other.key != key).len(),
    ensures
        cache.filter(|other: CachedPageView<T>| other.key != key)[i].key != cache.filter(
            |other: CachedPageView<T>| other.key != key,
        )[j].key,
    decreases cache.len(),
{
    reveal(Seq::filter);
    let keep = |other: CachedPageView<T>| other.key != key;
    let rest = cache.drop_last();
    if j < rest.filter(keep).len() {
        lemma_filter_apart(rest, key, i, j);
    } else {
        let k = lemma_filter_keeps(rest, keep, i);
        assert(cache[k] == rest[k]);
    }
}

/// A filter keeps the pictures of destinations apart that were apart.
proof fn lemma_filter_previews_apart<T>(
    cache: Seq<CachedPreview<T>>,
    key: PreviewKey,
    i: int,
    j: int,
)
    requires
        previews_distinct(cache),
        0 <= i < j < cache.filter(|other: CachedPreview<T>| other.key != key).len(),
    ensures
        cache.filter(|other: CachedPreview<T>| other.key != key)[i].key != cache.filter(
            |other: CachedPreview<T>| other.key != key,
        )[j].key,
    decreases cache.len(),
{
    reveal(Seq::filter);
    let keep = |other: CachedPreview<T>| other.key != key;
    let rest = cache.drop_last();
    if j < rest.filter(keep).len() {
        lemma_filter_previews_apart(rest, key, i, j);
    } else {
        let k = lemma_filter_keeps(rest, keep, i);
        assert(cache[k] == rest[k]);
    }
}

/// Keeping a picture of a page of the open document keeps the viewer sound.
proof fn lemma_with_page_sound<T>(viewer: ViewerView<T>, entry: CachedPageView<T>)
    requires
        viewer.wf(),
        viewer.generation() == Some(entry.key.generation),
        links_inside(entry.links, viewer.pages()),
    ensures
        viewer.with_page(entry).wf(),
{
    let keep = |other: CachedPageView<T>| other.key != entry.key;
    let others = viewer.page_cache.filter(keep);
    let all = seq![entry] + others;
    let after = viewer.with_page(entry).page_cache;
    let generation = entry.key.generation;
    assert forall|i: int| 0 <= i < after.len() implies (#[trigger] after[i]).key.generation
        == generation && links_inside(after[i].links, viewer.pages()) && (i > 0 ==> after[i].key
        != entry.key) by {
        if i > 0 {
            assert(after[i] == others[i - 1]);
            let k = lemma_filter_keeps(viewer.page_cache, keep, i - 1);
        }
    }
    assert forall|i: int, j: int| 0 <= i < j < after.len() implies (#[trigger] after[i]).key != (
    #[trigger] after[j]).key by {
        if i > 0 {
            lemma_filter_apart(viewer.page_cache, entry.key, i - 1, j - 1);
        }
    }
    assert(cache_sound(after, generation, viewer.pages()));
}

/// Keeping a picture of a destination keeps the viewer sound.
proof fn lemma_with_preview_sound<T>(viewer: ViewerView<T>, entry: CachedPreview<T>)
    requires
        viewer.wf(),
    ensures
        viewer.with_preview(entry).wf(),
{
    let keep = |other: CachedPreview<T>| other.key != entry.key;
    let others = viewer.preview_cache.filter(keep);
    let after = viewer.with_preview(entry).preview_cache;
    assert forall|i: int, j: int| 0 <= i < j < after.len() implies (#[trigger] after[i]).key != (
    #[trigger] after[j]).key by {
        assert(after[j] == others[j - 1]);
        if i > 0 {
            lemma_filter_previews_apart(viewer.preview_cache, entry.key, i - 1, j - 1);
        } else {
            let k = lemma_filter_keeps(viewer.preview_cache, keep, j - 1);
        }
    }
}

/// Drops the picture of a page.
fn drop_page<T>(cache: &mut VecDeque<CachedPage<T>>, key: RenderKey)
    ensures
        cache_view(final(cache)@) == cache_view(old(cache)@).filter(
            |other: CachedPageView<T>| other.key != key,
        ),
{
    let ghost before = cache_view(cache@);
    let ghost keep = |other: CachedPageView<T>| other.key != key;
    let ghost mut seen: int = 0;
    let mut i: usize = 0;
    assert(before.take(0).filter(keep) =~= Seq::empty()) by {
        reveal(Seq::filter);
    }
    assert(cache_view(cache@) =~= before.take(0).filter(keep) + before.skip(0));
    while i < cache.len()
        invariant
            0 <= seen <= before.len(),
            i <= cache@.len(),
            keep == (|other: CachedPageView<T>| other.key != key),
            i == before.take(seen).filter(keep).len(),
            cache_view(cache@) == before.take(seen).filter(keep) + before.skip(seen),
        decreases cache@.len() - i,
    {
        let ghost list = cache_view(cache@);
        proof {
            reveal(Seq::filter);
            assert(list[i as int] == cache@[i as int]@);
            assert(list[i as int] == before[seen]);
            assert(before.take(seen + 1).drop_last() =~= before.take(seen));
        }
        if cache[i].key.same(key) {
            cache.remove(i);
            assert(cache_view(cache@) =~= list.remove(i as int));
            assert(list.remove(i as int) =~= before.take(seen).filter(keep) + before.skip(seen + 1));
        } else {
            assert(cache_view(cache@) =~= before.take(seen + 1).filter(keep) + before.skip(seen + 1));
            i = i + 1;
        }
        proof {
            seen = seen + 1;
        }
    }
    proof {
        assert(before.skip(seen).len() == 0);
        assert(before.take(seen) =~= before);
        assert(cache_view(cache@) =~= before.filter(keep));
    }
}

/// Drops the picture of a destination.
fn drop_preview<T>(cache: &mut VecDeque<CachedPreview<T>>, key: PreviewKey)
    ensures
        final(cache)@ == old(cache)@.filter(|other: CachedPreview<T>| other.key != key),
{
    let ghost before = cache@;
    let ghost keep = |other: CachedPreview<T>| other.key != key;
    let ghost mut seen: int = 0;
    let mut i: usize = 0;
    assert(before.take(0).filter(keep) =~= Seq::empty()) by {
        reveal(Seq::filter);
    }
    assert(cache@ =~= before.take(0).filter(keep) + before.skip(0));
    while i < cache.len()
        invariant
            0 <= seen <= before.len(),
            i <= cache@.len(),
            keep == (|other: CachedPreview<T>| other.key != key),
            i == before.take(seen).filter(keep).len(),
            cache@ == before.take(seen).filter(keep) + before.skip(seen),
        decreases cache@.len() - i,
    {
        let ghost list = cache@;
        proof {
            reveal(Seq::filter);
            assert(list[i as int] == before[seen]);
            assert(before.take(seen + 1).drop_last() =~= before.take(seen));
        }
        if cache[i].key == key {
            cache.remove(i);
            assert(list.remove(i as int) =~= before.take(seen).filter(keep) + before.skip(seen + 1));
        } else {
            assert(cache@ =~= before.take(seen + 1).filter(keep) + before.skip(seen + 1));
            i = i + 1;
        }
        proof {
            seen = seen + 1;
        }
    }
    proof {
        assert(before.skip(seen).len() == 0);
        assert(before.take(seen) =~= before);
        assert(cache@ =~= before.filter(keep));
    }
}

/// Whether all links lead out of the document or to one of its pages.
pub fn links_lead_inside(links: &Vec<LinkRegion>, page_count: usize) -> (r: bool)
    ensures
        r == links_inside(links@, page_count as nat),
{
    let mut i: usize = 0;
    while i < links.len()
        invariant
            i <= links@.len(),
            forall|k: int|
                0 <= k < i ==> leads_inside((#[trigger] links@[k]).target, page_count as nat),
        decreases links@.len() - i,
    {
        if let LinkTarget::Internal(destination) = &links[i].target {
            if destination.page_index >= page_count {
                assert(!leads_inside(links@[i as int].target, page_count as nat));
                return false;
            }
        }
        i = i + 1;
    }
    true
}

/// What the picture of a page is called.
fn name_page(key: RenderKey) -> (r: String)
    ensures
        r@ == page_picture_name(key, true) || r@ == page_picture_name(key, false),
{
    "page-".to_owned().concat(decimal(key.generation).as_str()).concat("-").concat(
        decimal(render_cache_hash(key.page_index, key.pixel_size)).as_str(),
    )
}

/// What the picture of a destination is called.
fn name_preview(generation: u64, key: PreviewKey) -> (r: String)
    ensures
        r@ == preview_picture_name(generation, key),
{
    "preview-".to_owned().concat(decimal(generation).as_str()).concat(
        "-PreviewKey { page_index: ",
    ).concat(decimal(key.page_index as u64).as_str()).concat(", x_bucket: ").concat(
        signed_decimal(key.x_bucket).as_str(),
    ).concat(", y_bucket: ").concat(signed_decimal(key.y_bucket).as_str()).concat(" }")
}

/// What the window of a document is called.
fn name_window(title: Option<String>, path: &[u8]) -> (r: String)
    ensures
        r@ == window_title(title_view(title), path@),
{
    if let Some(text) = title {
        if !is_blank(text.as_str()) {
            return text.concat(" — Simple PDF Viewer");
        }
    }
    match final_name(path) {
        Some(name) => name.concat(" — Simple PDF Viewer"),
        None => "PDF".to_owned().concat(" — Simple PDF Viewer"),
    }
}

impl<T> PdfViewerApp<T> {
    /// Whether an answer can come from the page renderer.
    pub fn is_answer(&self, response: &PdfResponse) -> (r: bool)
        ensures
            r == self@.can_be_answered(*response),
    {
        match response {
            PdfResponse::Loaded { page_sizes, .. } => page_sizes.len() > 0,
            PdfResponse::PageRendered { generation, links, .. } => self.active_generation()
                != Some(*generation) || links_lead_inside(links, self.page_count()),
            PdfResponse::SelectionResolved { generation, page_index, .. } =>
                self.active_generation() != Some(*generation) || *page_index < self.page_count(),
            _ => true,
        }
    }

    /// Whether a document is the one that is being opened.
    fn is_awaited(&self, generation: u64) -> (r: bool)
        ensures
            r == self@.waits_for(generation),
    {
        match &self.loading {
            Some((expected, _)) => *expected == generation,
            None => false,
        }
    }

    /// Takes an answer of the page renderer, and says what is left to do about it. Answers about
    /// documents that are no longer the one that is open or being opened are passed over.
    pub fn process_backend(&mut self, response: PdfResponse, now: u64) -> (r: BackendStep)
        requires
            old(self).wf(),
            old(self)@.can_be_answered(response),
        ensures
            final(self).wf(),
            final(self)@ == old(self)@.answered(response, now),
            old(self)@.leaves(response, r),
    {
        match response {
            PdfResponse::Loaded { generation, path, title, fingerprint, page_sizes } => {
                if self.is_awaited(generation) {
                    BackendStep::ShowDocument(
                        LoadedDocument { generation, path, title, fingerprint, page_sizes },
                    )
                } else {
                    BackendStep::Settled
                }
            },
            PdfResponse::LoadFailed { generation, path, error } => {
                if self.is_awaited(generation) {
                    self.loading = None;
                    self.set_status(
                        "Could not open ".to_owned().concat(
                            path_text(path.as_slice()).as_str(),
                        ).concat(": ").concat(error.as_str()),
                        true,
                        now,
                    );
                }
                BackendStep::Settled
            },
            PdfResponse::PageRendered { generation, page_index, pixel_size, image, links } => {
                let key: RenderKey = RenderKey { generation, page_index, pixel_size };
                forget_render(&mut self.pending_renders, key);
                if self.active_generation() == Some(generation) {
                    BackendStep::KeepPage { key, links, name: name_page(key), image }
                } else {
                    BackendStep::Settled
                }
            },
            PdfResponse::PreviewRendered { generation, key, image } => {
                forget_preview(&mut self.pending_previews, key);
                if self.active_generation() == Some(generation) {
                    BackendStep::KeepPreview {
                        preview: key,
                        name: name_preview(generation, key),
                        image,
                    }
                } else {
                    BackendStep::Settled
                }
            },
            PdfResponse::SelectionResolved { generation, request_id, page_index, text, rects } => {
                if self.active_generation() == Some(generation) && self.selection_waiting == Some(
                    request_id,
                ) {
                    self.selection_waiting = None;
                    if text.as_str().is_empty() || rects.len() == 0 {
                        self.set_status(
                            "No selectable text was found in that area.".to_owned(),
                            true,
                            now,
                        );
                    } else {
                        self.selection_draft = Some(SelectionDraft { page_index, text, rects });
                        self.set_status(
                            "Text selected — right-click it for Copy, Highlight, or Add note.".to_owned(),
                            false,
                            now,
                        );
                    }
                }
                BackendStep::Settled
            },
            PdfResponse::OperationFailed { generation, operation, error } => {
                if self.active_generation() == Some(generation) {
                    self.set_status(
                        "Could not ".to_owned().concat(operation).concat(": ").concat(
                            error.as_str(),
                        ),
                        true,
                        now,
                    );
                }
                BackendStep::Settled
            },
        }
    }

    /// Shows a document with what was found where its sidecar file should be, and says what its
    /// window is called. Changes to the annotations of the document before it have been saved by
    /// then, or were given up because they could not be.
    pub fn show_document(
        &mut self,
        document: LoadedDocument,
        sidecar: Sidecar,
        now: u64,
    ) -> (r: String)
        requires
            old(self).wf(),
            document.page_sizes@.len() > 0,
            !old(self)@.unsaved(),
        ensures
            final(self).wf(),
            final(self)@ == old(self)@.showing(document, sidecar, now),
            r@ == window_title(title_view(document.title), document.path@),
    {
        let page_count: usize = document.page_sizes.len();
        let (annotations, warning): (AnnotationStore, Option<LoadWarning>) = AnnotationStore::load(
            document.path.as_slice(),
            document.fingerprint,
            page_count,
            sidecar,
        );
        self.document = Some(
            DocumentState {
                generation: document.generation,
                page_sizes: document.page_sizes,
                annotations,
            },
        );
        self.loading = None;
        self.current_page = 0;
        self.page_input = "1".to_owned();
        self.zoom = ZoomMode::FitPage;
        self.current_scroll = Vector::zero();
        self.pending_scroll = Some(Vector::zero());
        self.pending_page_scroll = None;
        self.pending_destination = None;
        self.back_history.clear();
        self.forward_history.clear();
        self.page_cache.clear();
        self.preview_cache.clear();
        self.pending_renders.clear();
        self.pending_previews.clear();
        self.desired_render = None;
        self.selection_draft = None;
        self.selected_annotation = None;
        self.render_due = now as u128;
        assert(cache_view(self.page_cache@) =~= Seq::empty());
        assert(self.pending_renders@.to_set() =~= Set::empty());
        assert(self.pending_previews@.to_set() =~= Set::empty());
        match warning {
            Some(reason) => self.set_status(reason.message(), true, now),
            None => self.set_status(
                "Opened ".to_owned().concat(path_text(document.path.as_slice()).as_str()),
                false,
                now,
            ),
        }
        name_window(document.title, document.path.as_slice())
    }

    /// Keeps the picture of a page, and as many of the others as there is room for.
    pub fn keep_page(&mut self, key: RenderKey, links: Vec<LinkRegion>, texture: T)
        requires
            old(self).wf(),
            old(self)@.generation() == Some(key.generation),
            links_inside(links@, old(self)@.pages()),
        ensures
            final(self).wf(),
            final(self)@ == old(self)@.with_page(
                CachedPageView { key, texture, links: links@ },
            ),
    {
        let ghost before = self@;
        let ghost entry = CachedPageView { key, texture, links: links@ };
        drop_page(&mut self.page_cache, key);
        let ghost others = self.page_cache@;
        self.page_cache.push_front(CachedPage { key, texture, links });
        assert(cache_view(self.page_cache@) =~= seq![entry] + cache_view(others));
        let ghost all = self.page_cache@;
        let limit: usize = if self.layout == LayoutMode::Continuous {
            CONTINUOUS_CACHE
        } else {
            SINGLE_CACHE
        };
        self.page_cache.truncate(limit);
        proof {
            assert(cache_view(self.page_cache@) =~= newest(cache_view(all), limit as nat));
            lemma_with_page_sound(before, entry);
            assert(self@ =~= before.with_page(entry));
        }
    }

    /// Keeps the picture of a destination, and as many of the others as there is room for.
    pub fn keep_preview(&mut self, key: PreviewKey, texture: T)
        requires
            old(self).wf(),
        ensures
            final(self).wf(),
            final(self)@ == old(self)@.with_preview(CachedPreview { key, texture }),
    {
        let ghost before = self@;
        let ghost entry = CachedPreview { key, texture };
        drop_preview(&mut self.preview_cache, key);
        self.preview_cache.push_front(CachedPreview { key, texture });
        self.preview_cache.truncate(PREVIEW_CACHE);
        proof {
            assert(self.preview_cache@ =~= before.with_preview(entry).preview_cache);
            lemma_with_preview_sound(before, entry);
            assert(self@ =~= before.with_preview(entry));
        }
    }
}

} // verus!
