//! The viewer: what it shows, what it waits for, and how it answers what the user does.
//!
//! The viewer does no work of its own outside of memory. What has to be done (a command to the
//! page renderer, a file to be read, a texture to be made) is returned to the caller, who does
//! it and reports back. Times are nanoseconds on one clock.

use crate::annotations::successor;
use crate::annotations::AnnotationStore;
use crate::annotations::NormalizedRect;
use crate::annotations::StoreView;
use crate::float::Real32;
use crate::geometry::RenderKey;
use crate::geometry::Vector;
use crate::geometry::ZoomMode;
use crate::links::leads_inside;
use crate::path::has_pdf_extension;
use crate::path::names_pdf;
use crate::pdf::Destination;
use crate::pdf::LinkRegion;
use crate::pdf::LinkTarget;
use crate::pdf::PdfCommand;
use crate::pdf::PreviewKey;
use std::collections::VecDeque;
use vstd::prelude::*;

pub mod backend;
pub mod controls;
pub mod drawing;
pub mod exchange;
pub mod frames;
pub mod gestures;
pub mod hover;
pub mod interaction;
pub mod laws;
pub mod navigation;
pub mod notes;
pub mod upkeep;

verus! {

/// How long a change of size has to last before a page is drawn anew: 110 milliseconds.
pub const RENDER_DEBOUNCE: u64 = 110_000_000;

/// How long the pointer rests on a link before the link is explained: 300 milliseconds.
pub const HOVER_DELAY: u64 = 300_000_000;

/// How long after a change the annotations are written: 450 milliseconds.
pub const SAVE_DELAY: u64 = 450_000_000;

/// How long a message is shown: seven seconds.
pub const STATUS_LIFETIME: u64 = 7_000_000_000;

/// How many pictures of pages are kept while all pages are shown.
pub const CONTINUOUS_CACHE: usize = 12;

/// How many pictures of pages are kept while one page is shown.
pub const SINGLE_CACHE: usize = 3;

/// How many pictures of destinations are kept.
pub const PREVIEW_CACHE: usize = 12;

/// Whether one page is shown, or all of them one below the other.
#[derive(Clone, Copy, Debug, PartialEq, Eq, Structural)]
pub enum LayoutMode {
    SinglePage,
    Continuous,
}

impl Default for LayoutMode {
    /// One page at a time.
    fn default() -> (r: Self)
        ensures
            r == LayoutMode::SinglePage,
    {
        LayoutMode::SinglePage
    }
}

/// What part of the document is seen, and how.
#[derive(Clone, Copy, Debug)]
pub struct ViewLocation {
    pub page_index: usize,
    pub scroll: Vector,
    pub zoom: ZoomMode,
    pub layout: LayoutMode,
}

/// The picture of a page, with the links on the page.
pub struct CachedPage<T> {
    pub key: RenderKey,
    pub texture: T,
    pub links: Vec<LinkRegion>,
}

/// What is kept of a page.
#[verifier::ext_equal]
pub struct CachedPageView<T> {
    pub key: RenderKey,
    pub texture: T,
    pub links: Seq<LinkRegion>,
}

impl<T> View for CachedPage<T> {
    type V = CachedPageView<T>;

    open spec fn view(&self) -> CachedPageView<T> {
        CachedPageView { key: self.key, texture: self.texture, links: self.links@ }
    }
}

/// The picture of a destination.
pub struct CachedPreview<T> {
    pub key: PreviewKey,
    pub texture: T,
}

/// The open document.
pub struct DocumentState {
    pub generation: u64,
    pub page_sizes: Vec<[Real32; 2]>,
    pub annotations: AnnotationStore,
}

/// What is known of the open document.
#[verifier::ext_equal]
pub struct DocumentView {
    pub generation: u64,
    pub page_sizes: Seq<[Real32; 2]>,
    pub annotations: StoreView,
}

impl View for DocumentState {
    type V = DocumentView;

    open spec fn view(&self) -> DocumentView {
        DocumentView {
            generation: self.generation,
            page_sizes: self.page_sizes@,
            annotations: self.annotations@,
        }
    }
}

/// Text that is selected, and where.
pub struct SelectionDraft {
    pub page_index: usize,
    pub text: String,
    pub rects: Vec<NormalizedRect>,
}

/// What is selected.
#[verifier::ext_equal]
pub struct DraftView {
    pub page_index: usize,
    pub text: Seq<char>,
    pub rects: Seq<NormalizedRect>,
}

impl View for SelectionDraft {
    type V = DraftView;

    open spec fn view(&self) -> DraftView {
        DraftView { page_index: self.page_index, text: self.text@, rects: self.rects@ }
    }
}

/// What is done with selected text.
#[derive(Clone, Copy, Debug, PartialEq, Eq, Structural)]
pub enum SelectionAction {
    Copy,
    Highlight,
    AddNote,
    Clear,
}

/// The link that the pointer rests on, and since when.
pub struct HoverState {
    pub target: LinkTarget,
    pub started: u64,
}

/// A message to the user.
pub struct StatusMessage {
    pub text: String,
    pub is_error: bool,
    pub created: u64,
}

/// What the user is told.
#[verifier::ext_equal]
pub struct StatusView {
    pub text: Seq<char>,
    pub is_error: bool,
    pub created: u64,
}

impl View for StatusMessage {
    type V = StatusView;

    open spec fn view(&self) -> StatusView {
        StatusView { text: self.text@, is_error: self.is_error, created: self.created }
    }
}

/// The viewer. A picture that was handed to the screen is a `T`.
pub struct PdfViewerApp<T> {
    pub document: Option<DocumentState>,
    pub next_generation: u64,
    pub loading: Option<(u64, Vec<u8>)>,
    pub current_page: usize,
    pub page_input: String,
    pub zoom: ZoomMode,
    pub layout: LayoutMode,
    pub last_viewport: Vector,
    pub current_scroll: Vector,
    pub pending_scroll: Option<Vector>,
    pub pending_page_scroll: Option<usize>,
    pub pending_destination: Option<Destination>,
    pub back_history: Vec<ViewLocation>,
    pub forward_history: Vec<ViewLocation>,
    pub page_cache: VecDeque<CachedPage<T>>,
    pub pending_renders: Vec<RenderKey>,
    pub desired_render: Option<RenderKey>,
    /// When the picture that is wanted is asked for, which may be after the clock has ended.
    pub render_due: u128,
    pub preview_cache: VecDeque<CachedPreview<T>>,
    pub pending_previews: Vec<PreviewKey>,
    pub hover: Option<HoverState>,
    pub drag_start: Option<[Real32; 2]>,
    pub drag_current: Option<[Real32; 2]>,
    pub drag_page: Option<usize>,
    pub selection_request: u64,
    pub selection_waiting: Option<u64>,
    pub selection_draft: Option<SelectionDraft>,
    pub show_notes: bool,
    pub selected_annotation: Option<u64>,
    pub status: Option<StatusMessage>,
}

/// The state of the viewer.
#[verifier::ext_equal]
pub struct ViewerView<T> {
    pub document: Option<DocumentView>,
    pub next_generation: u64,
    pub loading: Option<(u64, Seq<u8>)>,
    pub current_page: usize,
    pub page_input: Seq<char>,
    pub zoom: ZoomMode,
    pub layout: LayoutMode,
    pub last_viewport: Vector,
    pub current_scroll: Vector,
    pub pending_scroll: Option<Vector>,
    pub pending_page_scroll: Option<usize>,
    pub pending_destination: Option<Destination>,
    pub back_history: Seq<ViewLocation>,
    pub forward_history: Seq<ViewLocation>,
    pub page_cache: Seq<CachedPageView<T>>,
    pub pending_renders: Set<RenderKey>,
    pub desired_render: Option<RenderKey>,
    pub render_due: u128,
    pub preview_cache: Seq<CachedPreview<T>>,
    pub pending_previews: Set<PreviewKey>,
    pub hover: Option<HoverState>,
    pub drag_start: Option<[Real32; 2]>,
    pub drag_current: Option<[Real32; 2]>,
    pub drag_page: Option<usize>,
    pub selection_request: u64,
    pub selection_waiting: Option<u64>,
    pub selection_draft: Option<DraftView>,
    pub show_notes: bool,
    pub selected_annotation: Option<u64>,
    pub status: Option<StatusView>,
}

/// What is known of a document, if there is one.
pub open spec fn document_view(document: Option<DocumentState>) -> Option<DocumentView> {
    match document {
        Some(state) => Some(state@),
        None => None,
    }
}

/// What is being opened, if anything is.
pub open spec fn loading_view(loading: Option<(u64, Vec<u8>)>) -> Option<(u64, Seq<u8>)> {
    match loading {
        Some((generation, path)) => Some((generation, path@)),
        None => None,
    }
}

/// What is selected, if anything is.
pub open spec fn draft_view(draft: Option<SelectionDraft>) -> Option<DraftView> {
    match draft {
        Some(selection) => Some(selection@),
        None => None,
    }
}

/// What the user is told, if anything.
pub open spec fn status_view(status: Option<StatusMessage>) -> Option<StatusView> {
    match status {
        Some(message) => Some(message@),
        None => None,
    }
}

/// What is kept of some pages.
pub open spec fn cache_view<T>(cache: Seq<CachedPage<T>>) -> Seq<CachedPageView<T>> {
    cache.map_values(|entry: CachedPage<T>| entry@)
}

impl<T> View for PdfViewerApp<T> {
    type V = ViewerView<T>;

    open spec fn view(&self) -> ViewerView<T> {
        ViewerView {
            document: document_view(self.document),
            next_generation: self.next_generation,
            loading: loading_view(self.loading),
            current_page: self.current_page,
            page_input: self.page_input@,
            zoom: self.zoom,
            layout: self.layout,
            last_viewport: self.last_viewport,
            current_scroll: self.current_scroll,
            pending_scroll: self.pending_scroll,
            pending_page_scroll: self.pending_page_scroll,
            pending_destination: self.pending_destination,
            back_history: self.back_history@,
            forward_history: self.forward_history@,
            page_cache: cache_view(self.page_cache@),
            pending_renders: self.pending_renders@.to_set(),
            desired_render: self.desired_render,
            render_due: self.render_due,
            preview_cache: self.preview_cache@,
            pending_previews: self.pending_previews@.to_set(),
            hover: self.hover,
            drag_start: self.drag_start,
            drag_current: self.drag_current,
            drag_page: self.drag_page,
            selection_request: self.selection_request,
            selection_waiting: self.selection_waiting,
            selection_draft: draft_view(self.selection_draft),
            show_notes: self.show_notes,
            selected_annotation: self.selected_annotation,
            status: status_view(self.status),
        }
    }
}

/// Whether all links lead out of the document or to one of its pages.
pub open spec fn links_inside(links: Seq<LinkRegion>, page_count: nat) -> bool {
    forall|k: int| 0 <= k < links.len() ==> leads_inside((#[trigger] links[k]).target, page_count)
}

/// Whether pictures of pages are of one document, are each there once, and have links that
/// lead to pages of the document.
pub open spec fn cache_sound<T>(
    cache: Seq<CachedPageView<T>>,
    generation: u64,
    page_count: nat,
) -> bool {
    &&& forall|i: int| 0 <= i < cache.len() ==> (#[trigger] cache[i]).key.generation == generation
    &&& forall|i: int|
        0 <= i < cache.len() ==> links_inside((#[trigger] cache[i]).links, page_count)
    &&& forall|i: int, j: int|
        0 <= i < j < cache.len() ==> (#[trigger] cache[i]).key != (#[trigger] cache[j]).key
}

/// Whether pictures of destinations are each there once.
pub open spec fn previews_distinct<T>(cache: Seq<CachedPreview<T>>) -> bool {
    forall|i: int, j: int|
        0 <= i < j < cache.len() ==> (#[trigger] cache[i]).key != (#[trigger] cache[j]).key
}

impl<T> ViewerView<T> {
    /// Which document is open.
    pub open spec fn generation(self) -> Option<u64> {
        match self.document {
            Some(document) => Some(document.generation),
            None => None,
        }
    }

    /// How many pages the open document has.
    pub open spec fn pages(self) -> nat {
        match self.document {
            Some(document) => document.page_sizes.len(),
            None => 0,
        }
    }

    /// The open document has the page that is shown and the page that text is selected on, and
    /// what is kept of it is sound.
    pub open spec fn wf(self) -> bool {
        &&& self.document is Some ==> self.current_page < self.pages()
        &&& self.document is None ==> self.page_cache.len() == 0
        &&& self.document matches Some(document) ==> cache_sound(
            self.page_cache,
            document.generation,
            self.pages(),
        )
        &&& self.selection_draft matches Some(draft) ==> draft.page_index < self.pages()
        &&& self.hover matches Some(hover) ==> leads_inside(hover.target, usize::MAX as nat)
        &&& self.page_cache.len() <= CONTINUOUS_CACHE
        &&& self.preview_cache.len() <= PREVIEW_CACHE
        &&& previews_distinct(self.preview_cache)
    }

    /// The viewer with another message.
    pub open spec fn told(self, text: Seq<char>, is_error: bool, now: u64) -> ViewerView<T> {
        ViewerView { status: Some(StatusView { text, is_error, created: now }), ..self }
    }

    /// The viewer when a document is to be opened: a file that is not named like one is refused.
    pub open spec fn opening(self, path: Seq<u8>, now: u64) -> ViewerView<T> {
        if names_pdf(path) {
            ViewerView {
                next_generation: successor(self.next_generation),
                loading: Some((self.next_generation, path)),
                ..self
            }
        } else {
            self.told("Please choose a PDF file."@, true, now)
        }
    }
}

/// The viewer before anything was opened.
pub open spec fn fresh_viewer<T>(now: u64) -> ViewerView<T> {
    ViewerView {
        document: None,
        next_generation: 1,
        loading: None,
        current_page: 0,
        page_input: "1"@,
        zoom: ZoomMode::FitPage,
        layout: LayoutMode::SinglePage,
        last_viewport: Vector {
            x: Real32 { bits: 0x4461_0000 },
            y: Real32 { bits: 0x442f_0000 },
        },
        current_scroll: Vector::zero(),
        pending_scroll: None,
        pending_page_scroll: None,
        pending_destination: None,
        back_history: Seq::empty(),
        forward_history: Seq::empty(),
        page_cache: Seq::empty(),
        pending_renders: Set::empty(),
        desired_render: None,
        render_due: now as u128,
        preview_cache: Seq::empty(),
        pending_previews: Set::empty(),
        hover: None,
        drag_start: None,
        drag_current: None,
        drag_page: None,
        selection_request: 0,
        selection_waiting: None,
        selection_draft: None,
        show_notes: true,
        selected_annotation: None,
        status: None,
    }
}

/// Whether a command is to open a document.
pub open spec fn is_load(command: Option<PdfCommand>, generation: u64, path: Seq<u8>) -> bool {
    command matches Some(PdfCommand::Load { generation: g, path: p }) && g == generation && p@
        == path
}

impl<T> PdfViewerApp<T> {
    /// The state is sound, and nothing is waited for twice.
    pub open spec fn wf(self) -> bool {
        &&& self@.wf()
        &&& self.pending_renders@.no_duplicates()
        &&& self.pending_previews@.no_duplicates()
    }

    /// Pages are counted by `usize`.
    pub proof fn lemma_pages_fit(self)
        ensures
            self@.pages() <= usize::MAX,
    {
        match self.document {
            Some(document) => {
                assert(document.page_sizes.len() <= usize::MAX);
            },
            None => {},
        }
    }

    /// A viewer, and the command to open a document that it was started with.
    pub fn new(initial_path: Option<Vec<u8>>, now: u64) -> (r: (Self, Option<PdfCommand>))
        ensures
            r.0.wf(),
            match initial_path {
                Some(path) => {
                    &&& r.0@ == fresh_viewer::<T>(now).opening(path@, now)
                    &&& names_pdf(path@) ==> is_load(r.1, 1, path@)
                    &&& !names_pdf(path@) ==> r.1 is None
                },
                None => r.0@ == fresh_viewer::<T>(now) && r.1 is None,
            },
    {
        let mut app: PdfViewerApp<T> = PdfViewerApp {
            document: None,
            next_generation: 1,
            loading: None,
            current_page: 0,
            page_input: "1".to_owned(),
            zoom: ZoomMode::FitPage,
            layout: LayoutMode::SinglePage,
            last_viewport: Vector {
                x: Real32 { bits: 0x4461_0000 },
                y: Real32 { bits: 0x442f_0000 },
            },
            current_scroll: Vector::zero(),
            pending_scroll: None,
            pending_page_scroll: None,
            pending_destination: None,
            back_history: Vec::new(),
            forward_history: Vec::new(),
            page_cache: VecDeque::new(),
            pending_renders: Vec::new(),
            desired_render: None,
            render_due: now as u128,
            preview_cache: VecDeque::new(),
            pending_previews: Vec::new(),
            hover: None,
            drag_start: None,
            drag_current: None,
            drag_page: None,
            selection_request: 0,
            selection_waiting: None,
            selection_draft: None,
            show_notes: true,
            selected_annotation: None,
            status: None,
        };
        assert(app@ =~= fresh_viewer::<T>(now));
        let command: Option<PdfCommand> = match initial_path {
            Some(path) => app.open_path(path, now),
            None => None,
        };
        (app, command)
    }

    /// Asks for a document to be opened.
    pub fn open_path(&mut self, path: Vec<u8>, now: u64) -> (r: Option<PdfCommand>)
        requires
            old(self).wf(),
        ensures
            final(self).wf(),
            final(self)@ == old(self)@.opening(path@, now),
            names_pdf(path@) ==> is_load(r, old(self)@.next_generation, path@),
            !names_pdf(path@) ==> r is None,
    {
        if !has_pdf_extension(path.as_slice()) {
            self.set_status("Please choose a PDF file.".to_owned(), true, now);
            return None;
        }
        let generation: u64 = self.next_generation;
        self.next_generation = self.next_generation.saturating_add(1);
        let copy: Vec<u8> = path.clone();
        assert(copy@ =~= path@);
        self.loading = Some((generation, copy));
        Some(PdfCommand::Load { generation, path })
    }

    /// Tells the user something.
    pub fn set_status(&mut self, text: String, is_error: bool, now: u64)
        requires
            old(self).wf(),
        ensures
            final(self).wf(),
            final(self)@ == old(self)@.told(text@, is_error, now),
    {
        self.status = Some(StatusMessage { text, is_error, created: now });
    }

    /// Which document is open.
    pub fn active_generation(&self) -> (r: Option<u64>)
        ensures
            r == self@.generation(),
    {
        match &self.document {
            Some(document) => Some(document.generation),
            None => None,
        }
    }

    /// How many pages the open document has.
    pub fn page_count(&self) -> (r: usize)
        ensures
            r == self@.pages(),
    {
        match &self.document {
            Some(document) => document.page_sizes.len(),
            None => 0,
        }
    }
}

} // verus!
