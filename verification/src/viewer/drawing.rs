//! What is drawn of the document, and which pictures of pages are asked for.

use crate::annotations::annotation_views;
use crate::annotations::copy_rects;
use crate::annotations::Annotation;
use crate::annotations::AnnotationView;
use crate::annotations::NormalizedRect;
use crate::float::Real32;
use crate::geometry::column_of;
use crate::geometry::destination_offset;
use crate::geometry::display_scale;
use crate::geometry::display_size;
use crate::geometry::find_page_read;
use crate::geometry::key_for;
use crate::geometry::lay_out_column;
use crate::geometry::page_read;
use crate::geometry::reading_position;
use crate::geometry::render_key;
use crate::geometry::scale_of;
use crate::geometry::scroll_to;
use crate::geometry::size_of_page;
use crate::geometry::Column;
use crate::geometry::ColumnView;
use crate::geometry::RenderKey;
use crate::geometry::Vector;
use crate::pdf::copy_links;
use crate::pdf::Destination;
use crate::pdf::LinkRegion;
use crate::pdf::PdfCommand;
use crate::text::decimal;
use crate::viewer::links_inside;
use crate::viewer::navigation::page_label;
use crate::viewer::CachedPageView;
use crate::viewer::DocumentState;
use crate::viewer::LayoutMode;
use crate::viewer::PdfViewerApp;
use crate::viewer::ViewerView;
use crate::viewer::RENDER_DEBOUNCE;
use vstd::prelude::*;

verus! {

/// How many pictures of pages are waited for before no more are asked for ahead.
pub const MAX_REQUESTS: usize = 4;

/// What the middle of the window shows.
#[derive(Clone, Copy, Debug, PartialEq, Eq, Structural)]
pub enum CentralContent {
    Welcome,
    SinglePage,
    Continuous,
}

/// Where the first picture with a key that is wanted stands, or how many pictures there are.
pub open spec fn first_picture<T>(
    cache: Seq<CachedPageView<T>>,
    wanted: spec_fn(RenderKey) -> bool,
) -> int
    decreases cache.len(),
{
    if cache.len() == 0 || wanted(cache.first().key) {
        0
    } else {
        1 + first_picture(cache.drop_first(), wanted)
    }
}

/// The first picture is at a place where none is before.
proof fn lemma_first_picture<T>(
    cache: Seq<CachedPageView<T>>,
    wanted: spec_fn(RenderKey) -> bool,
    k: int,
)
    requires
        0 <= k <= cache.len(),
        forall|i: int| 0 <= i < k ==> !wanted((#[trigger] cache[i]).key),
        k < cache.len() ==> wanted(cache[k].key),
    ensures
        first_picture(cache, wanted) == k,
    decreases cache.len(),
{
    if k > 0 {
        assert(!wanted(cache[0].key));
        let rest = cache.drop_first();
        assert forall|i: int| 0 <= i < k - 1 implies !wanted((#[trigger] rest[i]).key) by {
            assert(rest[i] == cache[i + 1]);
        }
        if k < cache.len() {
            assert(rest[k - 1] == cache[k]);
        }
        lemma_first_picture(rest, wanted, k - 1);
    }
}

/// Being a key.
pub open spec fn exactly(key: RenderKey) -> spec_fn(RenderKey) -> bool {
    |other: RenderKey| other == key
}

/// Being a key for the same page of the same document.
pub open spec fn of_page(key: RenderKey) -> spec_fn(RenderKey) -> bool {
    |other: RenderKey| other.shows(key.generation, key.page_index)
}

/// The picture that is shown for a key: one of exactly that size if there is one, and else any
/// of the page.
pub open spec fn picture_for<T>(cache: Seq<CachedPageView<T>>, key: RenderKey) -> Option<int> {
    let exact = first_picture(cache, exactly(key));
    let other_size = first_picture(cache, of_page(key));
    if exact < cache.len() {
        Some(exact)
    } else if other_size < cache.len() {
        Some(other_size)
    } else {
        None
    }
}

/// Whether there is a picture of exactly a key.
pub open spec fn has_picture<T>(cache: Seq<CachedPageView<T>>, key: RenderKey) -> bool {
    exists|i: int| 0 <= i < cache.len() && (#[trigger] cache[i]).key == key
}

/// Whether there is a picture of a page, of whatever size.
pub open spec fn has_page<T>(
    cache: Seq<CachedPageView<T>>,
    generation: u64,
    page_index: usize,
) -> bool {
    exists|i: int|
        0 <= i < cache.len() && (#[trigger] cache[i]).key.shows(generation, page_index)
}

/// The annotations on one page, in their order.
pub open spec fn annotations_on(annotations: Seq<AnnotationView>, page_index: usize) -> Seq<
    AnnotationView,
> {
    annotations.filter(|annotation: AnnotationView| annotation.page_index == page_index)
}

/// Copies of the annotations on one page.
fn copy_annotations_on(annotations: &[Annotation], page_index: usize) -> (r: Vec<Annotation>)
    ensures
        annotation_views(r@) == annotations_on(annotation_views(annotations@), page_index),
{
    let ghost views = annotation_views(annotations@);
    let ghost keep = |annotation: AnnotationView| annotation.page_index == page_index;
    let mut kept: Vec<Annotation> = Vec::new();
    let mut i: usize = 0;
    assert(views.take(0).filter(keep) =~= Seq::empty()) by {
        reveal(Seq::filter);
    }
    while i < annotations.len()
        invariant
            i <= annotations@.len(),
            views == annotation_views(annotations@),
            keep == (|annotation: AnnotationView| annotation.page_index == page_index),
            annotation_views(kept@) == views.take(i as int).filter(keep),
        decreases annotations@.len() - i,
    {
        let ghost before = annotation_views(kept@);
        proof {
            reveal(Seq::filter);
            assert(views[i as int] == annotations@[i as int]@);
            assert(views.take(i + 1).drop_last() =~= views.take(i as int));
        }
        if annotations[i].page_index == page_index {
            kept.push(annotations[i].clone());
            assert(annotation_views(kept@) =~= before.push(views[i as int]));
        }
        i = i + 1;
    }
    assert(views.take(i as int) =~= views);
    kept
}

/// What is drawn of a page: which picture is asked for, which one there is, and what is on it.
#[derive(Debug)]
pub struct PageContent {
    pub key: RenderKey,
    pub picture: Option<usize>,
    pub links: Vec<LinkRegion>,
    pub annotations: Vec<Annotation>,
}

/// What is drawn of the page that is shown alone.
#[derive(Debug)]
pub struct SingleFrame {
    pub display_size: Vector,
    pub content: PageContent,
    pub drag_rect: Option<NormalizedRect>,
    pub selected_rects: Vec<NormalizedRect>,
    /// Where the page is scrolled to, if it is.
    pub offset: Option<Vector>,
}

/// What is drawn of all pages.
#[derive(Debug)]
pub struct ContinuousFrame {
    pub column: Column,
    pub drag_page: Option<usize>,
    pub drag_rect: Option<NormalizedRect>,
    pub selected_page: Option<usize>,
    pub selected_rects: Vec<NormalizedRect>,
    /// Where the pages are scrolled to, if they are.
    pub offset: Option<Vector>,
    /// The page that is scrolled to, if one is.
    pub page: Option<usize>,
    /// The place that is scrolled to, if one is.
    pub destination: Option<Destination>,
}

/// What the pointer has marked on a page.
#[derive(Debug)]
pub struct PageMarks {
    pub drag_rect: Option<NormalizedRect>,
    pub selected_rects: Vec<NormalizedRect>,
}

impl ContinuousFrame {
    /// What the pointer has marked on one of the pages.
    pub fn marks_on(&self, page_index: usize) -> (r: PageMarks)
        ensures
            r.drag_rect == (if self.drag_page == Some(page_index) {
                self.drag_rect
            } else {
                None
            }),
            r.selected_rects@ == (if self.selected_page == Some(page_index) {
                self.selected_rects@
            } else {
                Seq::empty()
            }),
    {
        PageMarks {
            drag_rect: if self.drag_page == Some(page_index) {
                self.drag_rect
            } else {
                None
            },
            selected_rects: if self.selected_page == Some(page_index) {
                copy_rects(&self.selected_rects)
            } else {
                Vec::new()
            },
        }
    }
}

impl<T> ViewerView<T> {
    /// The viewer in a window of another size.
    pub open spec fn in_window(self, viewport: Vector) -> ViewerView<T> {
        ViewerView { last_viewport: viewport, ..self }
    }

    /// The viewer when a picture is wanted: at once where nothing of the page can be shown.
    pub open spec fn wanting(self, key: RenderKey, now: u64) -> ViewerView<T> {
        if self.desired_render == Some(key) {
            self
        } else {
            ViewerView {
                desired_render: Some(key),
                render_due: if has_page(self.page_cache, key.generation, key.page_index) {
                    (now + RENDER_DEBOUNCE) as u128
                } else {
                    now as u128
                },
                ..self
            }
        }
    }

    /// The size of a page on the screen.
    pub open spec fn shown_size(self, page_index: int) -> Vector {
        size_of_page(self.zoom, self.document.unwrap().page_sizes[page_index], self.last_viewport)
    }

    /// The picture of a page that is wanted.
    pub open spec fn wanted_key(self, page_index: usize, pixels_per_point: Real32) -> RenderKey {
        key_for(
            self.document.unwrap().generation,
            page_index,
            self.shown_size(page_index as int),
            pixels_per_point,
        )
    }

    /// Whether this is what is drawn of a page.
    pub open spec fn draws(self, content: PageContent, key: RenderKey) -> bool {
        &&& content.key == key
        &&& match picture_for(self.page_cache, key) {
            Some(i) => content.picture matches Some(k) && k == i && content.links@
                == self.page_cache[i].links,
            None => content.picture is None && content.links@.len() == 0,
        }
        &&& annotation_views(content.annotations@) == annotations_on(
            self.document.unwrap().annotations.annotations,
            key.page_index,
        )
    }

    /// The area that is being dragged over, if one is.
    pub open spec fn dragged_rect(self) -> Option<NormalizedRect> {
        match (self.drag_start, self.drag_current) {
            (Some(start), Some(current)) => Some(NormalizedRect::spanned(start, current)),
            _ => None,
        }
    }

    /// The areas of the selected text.
    pub open spec fn drafted_rects(self) -> Seq<NormalizedRect> {
        match self.selection_draft {
            Some(draft) => draft.rects,
            None => Seq::empty(),
        }
    }

    /// The page of the selected text.
    pub open spec fn drafted_page(self) -> Option<usize> {
        match self.selection_draft {
            Some(draft) => Some(draft.page_index),
            None => None,
        }
    }

    /// Where the page that is shown alone is scrolled to, if it is.
    pub open spec fn single_offset(self) -> Option<Vector> {
        match self.pending_destination {
            Some(destination) => if destination.page_index == self.current_page {
                Some(
                    scroll_to(
                        destination,
                        scale_of(
                            self.zoom,
                            self.document.unwrap().page_sizes[self.current_page as int],
                            self.last_viewport,
                        ),
                        self.last_viewport,
                        self.shown_size(self.current_page as int),
                    ),
                )
            } else {
                self.pending_scroll
            },
            None => self.pending_scroll,
        }
    }

    /// The viewer after the page that is shown alone was drawn.
    pub open spec fn drawn_single(self, pixels_per_point: Real32, now: u64) -> ViewerView<T> {
        ViewerView {
            pending_scroll: None,
            pending_destination: None,
            ..self.wanting(self.wanted_key(self.current_page, pixels_per_point), now)
        }
    }

    /// The viewer after all pages were drawn.
    pub open spec fn drawn_continuous(self) -> ViewerView<T> {
        ViewerView {
            pending_scroll: None,
            pending_page_scroll: None,
            pending_destination: None,
            ..self
        }
    }

    /// The viewer after all pages were scrolled: the page that is read is the one that is shown.
    pub open spec fn settled(self, column: ColumnView, scroll: Vector) -> ViewerView<T> {
        let moved = ViewerView { current_scroll: scroll, ..self };
        match page_read(column, reading_position(scroll, self.last_viewport)) {
            Some(page) => if page != self.current_page {
                ViewerView {
                    current_page: page,
                    page_input: page_label(page),
                    selected_annotation: None,
                    ..moved
                }
            } else {
                moved
            },
            None => moved,
        }
    }

    /// Whether a picture is asked for ahead: it is neither there nor on the way, and not too
    /// many are.
    pub open spec fn lacks(self, key: RenderKey) -> bool {
        &&& !has_picture(self.page_cache, key)
        &&& !self.pending_renders.contains(key)
        &&& self.pending_renders.len() < MAX_REQUESTS
    }

    /// The viewer when a picture is on the way.
    pub open spec fn awaiting(self, key: RenderKey) -> ViewerView<T> {
        ViewerView { pending_renders: self.pending_renders.insert(key), ..self }
    }

    /// The viewer after pictures were asked for ahead, one after the other.
    pub open spec fn prefetching(self, keys: Seq<RenderKey>) -> ViewerView<T>
        decreases keys.len(),
    {
        if keys.len() == 0 {
            self
        } else {
            let before = self.prefetching(keys.drop_last());
            if before.lacks(keys.last()) {
                before.awaiting(keys.last())
            } else {
                before
            }
        }
    }

    /// The commands by which pictures are asked for ahead.
    pub open spec fn prefetches(self, keys: Seq<RenderKey>) -> Seq<PdfCommand>
        decreases keys.len(),
    {
        if keys.len() == 0 {
            Seq::empty()
        } else {
            let before = self.prefetches(keys.drop_last());
            if self.prefetching(keys.drop_last()).lacks(keys.last()) {
                before.push(render_command(keys.last()))
            } else {
                before
            }
        }
    }

    /// The picture that is asked for now, if one is: the one that is wanted, when it is due and
    /// neither there nor on the way.
    pub open spec fn due_picture(self, now: u64) -> Option<RenderKey> {
        match self.desired_render {
            Some(key) => if !has_picture(self.page_cache, key) && !self.pending_renders.contains(
                key,
            ) && now >= self.render_due {
                Some(key)
            } else {
                None
            },
            None => None,
        }
    }

    /// The picture that is asked for at the end of a frame, if one is. Only the page that is shown
    /// alone waits for its turn; where all pages are shown, theirs are asked for as they are drawn.
    pub open spec fn frame_picture(self, now: u64) -> Option<RenderKey> {
        if self.layout == LayoutMode::SinglePage {
            self.due_picture(now)
        } else {
            None
        }
    }
}

/// The command for a picture of a page.
pub open spec fn render_command(key: RenderKey) -> PdfCommand {
    PdfCommand::RenderPage {
        generation: key.generation,
        page_index: key.page_index,
        pixel_size: key.pixel_size,
    }
}

/// Adding an item to a list that does not have it adds it to their set.
pub proof fn lemma_put_in<A>(list: Seq<A>, item: A)
    requires
        list.no_duplicates(),
        !list.contains(item),
    ensures
        list.push(item).no_duplicates(),
        list.push(item).to_set() == list.to_set().insert(item),
{
    let longer = list.push(item);
    assert forall|a: A| longer.to_set().contains(a) == list.to_set().insert(item).contains(a) by {
        if list.contains(a) {
            let k = choose|k: int| 0 <= k < list.len() && list[k] == a;
            assert(longer[k] == a);
        }
        assert(longer[list.len() as int] == item);
    }
    assert(longer.to_set() =~= list.to_set().insert(item));
}

impl<T> PdfViewerApp<T> {
    /// Takes the size of the window, and says what is shown in it.
    pub fn central_panel(&mut self, viewport: Vector) -> (r: CentralContent)
        requires
            old(self).wf(),
        ensures
            final(self).wf(),
            final(self)@ == old(self)@.in_window(viewport),
            r == (if old(self)@.document is None {
                CentralContent::Welcome
            } else if old(self)@.layout == LayoutMode::Continuous {
                CentralContent::Continuous
            } else {
                CentralContent::SinglePage
            }),
    {
        self.last_viewport = viewport;
        if self.document.is_none() {
            CentralContent::Welcome
        } else if self.layout == LayoutMode::Continuous {
            CentralContent::Continuous
        } else {
            CentralContent::SinglePage
        }
    }

    /// Whether there is a picture of exactly a key.
    fn is_cached(&self, key: RenderKey) -> (r: bool)
        ensures
            r == has_picture(self@.page_cache, key),
    {
        let mut i: usize = 0;
        while i < self.page_cache.len()
            invariant
                i <= self.page_cache@.len(),
                forall|k: int| 0 <= k < i ==> (#[trigger] self@.page_cache[k]).key != key,
            decreases self.page_cache@.len() - i,
        {
            assert(self@.page_cache[i as int] == self.page_cache@[i as int]@);
            if self.page_cache[i].key.same(key) {
                return true;
            }
            i = i + 1;
        }
        false
    }

    /// Whether there is a picture of a page, of whatever size.
    fn is_page_cached(&self, generation: u64, page_index: usize) -> (r: bool)
        ensures
            r == has_page(self@.page_cache, generation, page_index),
    {
        let mut i: usize = 0;
        while i < self.page_cache.len()
            invariant
                i <= self.page_cache@.len(),
                forall|k: int|
                    0 <= k < i ==> !(#[trigger] self@.page_cache[k]).key.shows(
                        generation,
                        page_index,
                    ),
            decreases self.page_cache@.len() - i,
        {
            assert(self@.page_cache[i as int] == self.page_cache@[i as int]@);
            if self.page_cache[i].key.shows(generation, page_index) {
                return true;
            }
            i = i + 1;
        }
        false
    }

    /// Whether a picture is on the way.
    fn is_pending(&self, key: RenderKey) -> (r: bool)
        ensures
            r == self@.pending_renders.contains(key),
    {
        let mut i: usize = 0;
        while i < self.pending_renders.len()
            invariant
                i <= self.pending_renders@.len(),
                forall|k: int| 0 <= k < i ==> self.pending_renders@[k] != key,
            decreases self.pending_renders@.len() - i,
        {
            if self.pending_renders[i].same(key) {
                assert(self.pending_renders@.contains(key));
                return true;
            }
            i = i + 1;
        }
        assert(!self.pending_renders@.contains(key));
        false
    }

    /// The picture that is shown for a key.
    fn find_picture(&self, key: RenderKey) -> (r: Option<usize>)
        ensures
            match picture_for(self@.page_cache, key) {
                Some(i) => r matches Some(k) && k == i && k < self@.page_cache.len(),
                None => r is None,
            },
    {
        let ghost cache = self@.page_cache;
        let mut i: usize = 0;
        while i < self.page_cache.len()
            invariant
                i <= self.page_cache@.len(),
                cache == self@.page_cache,
                forall|k: int| 0 <= k < i ==> !exactly(key)((#[trigger] cache[k]).key),
            decreases self.page_cache@.len() - i,
        {
            assert(cache[i as int] == self.page_cache@[i as int]@);
            if self.page_cache[i].key.same(key) {
                proof {
                    lemma_first_picture(cache, exactly(key), i as int);
                }
                return Some(i);
            }
            i = i + 1;
        }
        proof {
            lemma_first_picture(cache, exactly(key), i as int);
        }
        i = 0;
        while i < self.page_cache.len()
            invariant
                i <= self.page_cache@.len(),
                cache == self@.page_cache,
                first_picture(cache, exactly(key)) == cache.len(),
                forall|k: int| 0 <= k < i ==> !of_page(key)((#[trigger] cache[k]).key),
            decreases self.page_cache@.len() - i,
        {
            assert(cache[i as int] == self.page_cache@[i as int]@);
            if self.page_cache[i].key.shows(key.generation, key.page_index) {
                proof {
                    lemma_first_picture(cache, of_page(key), i as int);
                }
                return Some(i);
            }
            i = i + 1;
        }
        proof {
            lemma_first_picture(cache, of_page(key), i as int);
        }
        None
    }

    /// What is drawn of a page.
    pub fn page_content(&self, page_index: usize, pixels_per_point: Real32) -> (r: PageContent)
        requires
            self.wf(),
            page_index < self@.pages(),
        ensures
            self@.draws(r, self@.wanted_key(page_index, pixels_per_point)),
            links_inside(r.links@, self@.pages()),
    {
        let document: &DocumentState = self.document.as_ref().unwrap();
        let size: Vector = display_size(
            self.zoom,
            document.page_sizes[page_index],
            self.last_viewport,
        );
        let key: RenderKey = render_key(document.generation, page_index, size, pixels_per_point);
        let annotations: Vec<Annotation> = copy_annotations_on(
            document.annotations.annotations(),
            page_index,
        );
        let picture: Option<usize> = self.find_picture(key);
        let links: Vec<LinkRegion> = match picture {
            Some(i) => {
                assert(self@.page_cache[i as int] == self.page_cache@[i as int]@);
                copy_links(&self.page_cache[i].links)
            },
            None => Vec::new(),
        };
        PageContent { key, picture, links, annotations }
    }

    /// Notes which picture is wanted.
    pub fn update_desired_render(&mut self, key: RenderKey, now: u64)
        requires
            old(self).wf(),
        ensures
            final(self).wf(),
            final(self)@ == old(self)@.wanting(key, now),
    {
        let unchanged: bool = match self.desired_render {
            Some(desired) => desired.same(key),
            None => false,
        };
        if !unchanged {
            let same_page_cached: bool = self.is_page_cached(key.generation, key.page_index);
            self.desired_render = Some(key);
            self.render_due = if same_page_cached {
                now as u128 + RENDER_DEBOUNCE as u128
            } else {
                now as u128
            };
        }
    }

    /// The area that is being dragged over.
    fn drag_rect(&self) -> (r: Option<NormalizedRect>)
        ensures
            r == self@.dragged_rect(),
    {
        match (self.drag_start, self.drag_current) {
            (Some(start), Some(current)) => Some(NormalizedRect::from_points(start, current)),
            _ => None,
        }
    }

    /// The areas of the selected text.
    fn selected_rects(&self) -> (r: Vec<NormalizedRect>)
        ensures
            r@ == self@.drafted_rects(),
    {
        match &self.selection_draft {
            Some(draft) => copy_rects(&draft.rects),
            None => Vec::new(),
        }
    }

    /// Draws the page that is shown alone.
    pub fn single_page(&mut self, pixels_per_point: Real32, now: u64) -> (r: SingleFrame)
        requires
            old(self).wf(),
            old(self)@.document is Some,
        ensures
            final(self).wf(),
            final(self)@ == old(self)@.drawn_single(pixels_per_point, now),
            r.display_size == old(self)@.shown_size(old(self)@.current_page as int),
            old(self)@.draws(
                r.content,
                old(self)@.wanted_key(old(self)@.current_page, pixels_per_point),
            ),
            links_inside(r.content.links@, old(self)@.pages()),
            r.drag_rect == (if old(self)@.drag_page == Some(old(self)@.current_page) {
                old(self)@.dragged_rect()
            } else {
                None
            }),
            r.selected_rects@ == (if old(self)@.drafted_page() == Some(old(self)@.current_page) {
                old(self)@.drafted_rects()
            } else {
                Seq::empty()
            }),
            r.offset == old(self)@.single_offset(),
    {
        let content: PageContent = self.page_content(self.current_page, pixels_per_point);
        let page_size: [Real32; 2] = self.document.as_ref().unwrap().page_sizes[self.current_page];
        let size: Vector = display_size(self.zoom, page_size, self.last_viewport);
        let scale: Real32 = display_scale(self.zoom, page_size, self.last_viewport);
        self.update_desired_render(content.key, now);
        let drag_rect: Option<NormalizedRect> = if self.drag_page == Some(self.current_page) {
            self.drag_rect()
        } else {
            None
        };
        let on_this_page: bool = match &self.selection_draft {
            Some(draft) => draft.page_index == self.current_page,
            None => false,
        };
        let selected_rects: Vec<NormalizedRect> = if on_this_page {
            self.selected_rects()
        } else {
            Vec::new()
        };
        let mut offset: Option<Vector> = self.pending_scroll;
        self.pending_scroll = None;
        if let Some(destination) = self.pending_destination {
            if destination.page_index == self.current_page {
                offset = Some(destination_offset(&destination, scale, self.last_viewport, size));
            }
        }
        self.pending_destination = None;
        SingleFrame { display_size: size, content, drag_rect, selected_rects, offset }
    }

    /// Draws all pages one below the other.
    pub fn continuous_document(&mut self) -> (r: ContinuousFrame)
        requires
            old(self).wf(),
            old(self)@.document is Some,
        ensures
            final(self).wf(),
            final(self)@ == old(self)@.drawn_continuous(),
            r.column@ == column_of(
                old(self)@.zoom,
                old(self)@.document.unwrap().page_sizes,
                old(self)@.last_viewport,
            ),
            r.column@.wf(),
            r.drag_page == old(self)@.drag_page,
            r.drag_rect == old(self)@.dragged_rect(),
            r.selected_page == old(self)@.drafted_page(),
            r.selected_rects@ == old(self)@.drafted_rects(),
            r.offset == old(self)@.pending_scroll,
            r.page == old(self)@.pending_page_scroll,
            r.destination == old(self)@.pending_destination,
    {
        let column: Column = lay_out_column(
            self.zoom,
            &self.document.as_ref().unwrap().page_sizes,
            self.last_viewport,
        );
        let offset: Option<Vector> = self.pending_scroll;
        let page: Option<usize> = self.pending_page_scroll;
        let destination: Option<Destination> = self.pending_destination;
        self.pending_scroll = None;
        self.pending_page_scroll = None;
        self.pending_destination = None;
        let selected_page: Option<usize> = match &self.selection_draft {
            Some(draft) => Some(draft.page_index),
            None => None,
        };
        ContinuousFrame {
            column,
            drag_page: self.drag_page,
            drag_rect: self.drag_rect(),
            selected_page,
            selected_rects: self.selected_rects(),
            offset,
            page,
            destination,
        }
    }

    /// Takes how far the page that is shown alone is scrolled.
    pub fn settle_single(&mut self, scroll: Vector)
        requires
            old(self).wf(),
        ensures
            final(self).wf(),
            final(self)@ == (ViewerView { current_scroll: scroll, ..old(self)@ }),
    {
        self.current_scroll = scroll;
    }

    /// Takes how far all pages are scrolled, and shows the number of the page that is read.
    pub fn settle_continuous(&mut self, column: &Column, scroll: Vector)
        requires
            old(self).wf(),
            column@.wf(),
            column@.page_sizes.len() == old(self)@.pages(),
        ensures
            final(self).wf(),
            final(self)@ == old(self)@.settled(column@, scroll),
    {
        self.current_scroll = scroll;
        if let Some(page_index) = find_page_read(column, scroll, self.last_viewport) {
            if page_index != self.current_page {
                proof {
                    self.lemma_pages_fit();
                }
                self.current_page = page_index;
                self.page_input = decimal(page_index as u64 + 1);
                self.selected_annotation = None;
            }
        }
    }

    /// Asks for a picture ahead.
    pub fn request_render(&mut self, key: RenderKey) -> (r: Option<PdfCommand>)
        requires
            old(self).wf(),
        ensures
            final(self).wf(),
            old(self)@.lacks(key) ==> final(self)@ == old(self)@.awaiting(key) && r == Some(
                render_command(key),
            ),
            !old(self)@.lacks(key) ==> final(self)@ == old(self)@ && r is None,
    {
        proof {
            self.pending_renders@.unique_seq_to_set();
        }
        if !self.is_cached(key) && !self.is_pending(key) && self.pending_renders.len()
            < MAX_REQUESTS {
            proof {
                lemma_put_in(self.pending_renders@, key);
            }
            self.pending_renders.push(key);
            Some(
                PdfCommand::RenderPage {
                    generation: key.generation,
                    page_index: key.page_index,
                    pixel_size: key.pixel_size,
                },
            )
        } else {
            None
        }
    }

    /// Asks for pictures ahead, one after the other.
    pub fn request_renders(&mut self, keys: &Vec<RenderKey>) -> (r: Vec<PdfCommand>)
        requires
            old(self).wf(),
        ensures
            final(self).wf(),
            final(self)@ == old(self)@.prefetching(keys@),
            r@ == old(self)@.prefetches(keys@),
    {
        let mut commands: Vec<PdfCommand> = Vec::new();
        let mut i: usize = 0;
        while i < keys.len()
            invariant
                i <= keys@.len(),
                self.wf(),
                self@ == old(self)@.prefetching(keys@.take(i as int)),
                commands@ == old(self)@.prefetches(keys@.take(i as int)),
            decreases keys@.len() - i,
        {
            assert(keys@.take(i + 1).drop_last() =~= keys@.take(i as int));
            if let Some(command) = self.request_render(keys[i]) {
                commands.push(command);
            }
            i = i + 1;
        }
        assert(keys@.take(i as int) =~= keys@);
        commands
    }

    /// Asks for the picture that is wanted, when it is due.
    pub fn send_render_if_due(&mut self, now: u64) -> (r: Option<PdfCommand>)
        requires
            old(self).wf(),
        ensures
            final(self).wf(),
            match old(self)@.due_picture(now) {
                Some(key) => final(self)@ == old(self)@.awaiting(key) && r == Some(
                    render_command(key),
                ),
                None => final(self)@ == old(self)@ && r is None,
            },
    {
        let key: RenderKey = match self.desired_render {
            Some(key) => key,
            None => {
                return None;
            },
        };
        if !self.is_cached(key) && !self.is_pending(key) && now as u128 >= self.render_due {
            proof {
                lemma_put_in(self.pending_renders@, key);
            }
            self.pending_renders.push(key);
            Some(
                PdfCommand::RenderPage {
                    generation: key.generation,
                    page_index: key.page_index,
                    pixel_size: key.pixel_size,
                },
            )
        } else {
            None
        }
    }

    /// Asks at the end of a frame for the picture of the page that is shown alone, when it is due.
    pub fn render_after_frame(&mut self, now: u64) -> (r: Option<PdfCommand>)
        requires
            old(self).wf(),
        ensures
            final(self).wf(),
            match old(self)@.frame_picture(now) {
                Some(key) => final(self)@ == old(self)@.awaiting(key) && r == Some(
                    render_command(key),
                ),
                None => final(self)@ == old(self)@ && r is None,
            },
    {
        match self.layout {
            LayoutMode::SinglePage => self.send_render_if_due(now),
            LayoutMode::Continuous => None,
        }
    }
}

} // verus!
