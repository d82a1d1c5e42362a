//! Dragging over a page, clicking on it, and what is done with selected text.

use crate::annotations::annotation_views;
use crate::annotations::successor;
use crate::annotations::Annotation;
use crate::annotations::AnnotationView;
use crate::annotations::NormalizedRect;
use crate::annotations::StoreView;
use crate::float::Real32;
use crate::geometry::on_page;
use crate::geometry::point_to_normalized;
use crate::geometry::ScreenRect;
use crate::geometry::Vector;
use crate::links::leads_inside;
use crate::pdf::LinkRegion;
use crate::pdf::LinkTarget;
use crate::pdf::PdfCommand;
use crate::text::compact_text;
use crate::text::compacted;
use crate::text::decimal;
use crate::viewer::links_inside;
use crate::viewer::navigation::page_label;
use crate::viewer::DocumentView;
use crate::viewer::HoverState;
use crate::viewer::PdfViewerApp;
use crate::viewer::SelectionAction;
use crate::viewer::SelectionDraft;
use crate::viewer::ViewerView;
use vstd::prelude::*;

verus! {

/// 3.0, the bits of how many pixels are dragged over before something is selected.
pub const DRAG_THRESHOLD: u32 = 0x4040_0000;

/// How many characters of the selected text are shown.
pub const SELECTION_CHARS: usize = 140;

/// What the pointer does on a page.
#[derive(Clone, Copy, Debug)]
pub struct PageInput {
    /// Where it was pressed or released, if it was.
    pub pointer: Option<Vector>,
    pub drag_started: bool,
    pub dragged: bool,
    pub drag_stopped: bool,
    pub hovered: bool,
    /// Where it rests, if it does.
    pub hover_pos: Option<Vector>,
    pub clicked: bool,
}

/// What the pointer looks like.
#[derive(Clone, Copy, Debug, PartialEq, Eq, Structural)]
pub enum PageCursor {
    Unchanged,
    PointingHand,
    Text,
}

/// What is to be done after the pointer did something on a page.
#[derive(Debug)]
pub struct PageReply {
    pub command: Option<PdfCommand>,
    pub cursor: PageCursor,
    /// An address to be opened.
    pub open_url: Option<String>,
}

/// Where the first link over a point stands, or how many links there are.
pub open spec fn first_link(links: Seq<LinkRegion>, point: [Real32; 2]) -> int
    decreases links.len(),
{
    if links.len() == 0 || links.first().rect.covers(point) {
        0
    } else {
        1 + first_link(links.drop_first(), point)
    }
}

/// The first link is at a place where none is before.
proof fn lemma_first_link(links: Seq<LinkRegion>, point: [Real32; 2], k: int)
    requires
        0 <= k <= links.len(),
        forall|i: int| 0 <= i < k ==> !(#[trigger] links[i]).rect.covers(point),
        k < links.len() ==> links[k].rect.covers(point),
    ensures
        first_link(links, point) == k,
    decreases links.len(),
{
    if k > 0 {
        assert(!links[0].rect.covers(point));
        let rest = links.drop_first();
        assert forall|i: int| 0 <= i < k - 1 implies !(#[trigger] rest[i]).rect.covers(point) by {
            assert(rest[i] == links[i + 1]);
        }
        if k < links.len() {
            assert(rest[k - 1] == links[k]);
        }
        lemma_first_link(rest, point, k - 1);
    }
}

/// The first link over a point, if there is one.
pub open spec fn link_at(links: Seq<LinkRegion>, point: Option<[Real32; 2]>) -> Option<LinkRegion> {
    match point {
        Some(place) => if first_link(links, place) < links.len() {
            Some(links[first_link(links, place)])
        } else {
            None
        },
        None => None,
    }
}

/// Finds the first link over a point.
fn find_link(links: &Vec<LinkRegion>, point: Option<[Real32; 2]>) -> (r: Option<usize>)
    ensures
        match r {
            Some(i) => i < links@.len() && link_at(links@, point) == Some(links@[i as int]),
            None => link_at(links@, point) is None,
        },
{
    let place: [Real32; 2] = match point {
        Some(place) => place,
        None => {
            return None;
        },
    };
    let mut i: usize = 0;
    while i < links.len()
        invariant
            i <= links@.len(),
            point == Some(place),
            forall|k: int| 0 <= k < i ==> !(#[trigger] links@[k]).rect.covers(place),
        decreases links@.len() - i,
    {
        if links[i].rect.contains(place) {
            proof {
                lemma_first_link(links@, place, i as int);
            }
            return Some(i);
        }
        i = i + 1;
    }
    proof {
        lemma_first_link(links@, place, i as int);
    }
    None
}

/// Whether a point is in one of the rectangles of an annotation.
pub open spec fn annotation_covers(annotation: AnnotationView, point: [Real32; 2]) -> bool {
    exists|k: int| 0 <= k < annotation.rects.len() && (#[trigger] annotation.rects[k]).covers(point)
}

/// Where the first annotation over a point stands, or how many annotations there are.
pub open spec fn first_annotation(annotations: Seq<AnnotationView>, point: [Real32; 2]) -> int
    decreases annotations.len(),
{
    if annotations.len() == 0 || annotation_covers(annotations.first(), point) {
        0
    } else {
        1 + first_annotation(annotations.drop_first(), point)
    }
}

/// The first annotation is at a place where none is before.
proof fn lemma_first_annotation(annotations: Seq<AnnotationView>, point: [Real32; 2], k: int)
    requires
        0 <= k <= annotations.len(),
        forall|i: int| 0 <= i < k ==> !annotation_covers(#[trigger] annotations[i], point),
        k < annotations.len() ==> annotation_covers(annotations[k], point),
    ensures
        first_annotation(annotations, point) == k,
    decreases annotations.len(),
{
    if k > 0 {
        assert(!annotation_covers(annotations[0], point));
        let rest = annotations.drop_first();
        assert forall|i: int| 0 <= i < k - 1 implies !annotation_covers(#[trigger] rest[i], point) by {
            assert(rest[i] == annotations[i + 1]);
        }
        if k < annotations.len() {
            assert(rest[k - 1] == annotations[k]);
        }
        lemma_first_annotation(rest, point, k - 1);
    }
}

/// Whether a point is in one of the rectangles of an annotation.
fn is_covered(annotation: &Annotation, point: [Real32; 2]) -> (r: bool)
    ensures
        r == annotation_covers(annotation@, point),
{
    let mut i: usize = 0;
    while i < annotation.rects.len()
        invariant
            i <= annotation.rects@.len(),
            forall|k: int| 0 <= k < i ==> !(#[trigger] annotation@.rects[k]).covers(point),
        decreases annotation.rects@.len() - i,
    {
        if annotation.rects[i].contains(point) {
            assert(annotation@.rects[i as int].covers(point));
            return true;
        }
        i = i + 1;
    }
    false
}

/// The identifier of the first annotation over a point, if there is one.
pub open spec fn annotation_at(annotations: Seq<AnnotationView>, point: [Real32; 2]) -> Option<u64> {
    if first_annotation(annotations, point) < annotations.len() {
        Some(annotations[first_annotation(annotations, point)].id)
    } else {
        None
    }
}

/// Finds the first annotation over a point.
fn find_annotation(annotations: &Vec<Annotation>, point: [Real32; 2]) -> (r: Option<u64>)
    ensures
        r == annotation_at(annotation_views(annotations@), point),
{
    let ghost views = annotation_views(annotations@);
    let mut i: usize = 0;
    while i < annotations.len()
        invariant
            i <= annotations@.len(),
            views == annotation_views(annotations@),
            forall|k: int| 0 <= k < i ==> !annotation_covers(#[trigger] views[k], point),
        decreases annotations@.len() - i,
    {
        assert(views[i as int] == annotations@[i as int]@);
        if is_covered(&annotations[i], point) {
            proof {
                lemma_first_annotation(views, point, i as int);
            }
            return Some(annotations[i].id);
        }
        i = i + 1;
    }
    proof {
        lemma_first_annotation(views, point, i as int);
    }
    None
}

/// A place on the screen in fractions of the page, if there is one.
pub open spec fn place_on_page(point: Option<Vector>, page_rect: ScreenRect) -> Option<
    [Real32; 2],
> {
    match point {
        Some(place) => Some(on_page(place, page_rect)),
        None => None,
    }
}

impl<T> ViewerView<T> {
    /// The viewer when the pointer begins to be dragged over a page.
    pub open spec fn drag_begun(
        self,
        page_index: usize,
        input: PageInput,
        page_rect: ScreenRect,
    ) -> ViewerView<T> {
        match (input.drag_started, input.pointer) {
            (true, Some(pointer)) => ViewerView {
                drag_start: Some(on_page(pointer, page_rect)),
                drag_current: Some(on_page(pointer, page_rect)),
                drag_page: Some(page_index),
                selection_draft: None,
                hover: None,
                ..self
            },
            _ => self,
        }
    }

    /// The viewer when the pointer is dragged on.
    pub open spec fn drag_continued(
        self,
        page_index: usize,
        input: PageInput,
        page_rect: ScreenRect,
    ) -> ViewerView<T> {
        match (input.dragged && self.drag_page == Some(page_index), input.pointer) {
            (true, Some(pointer)) => ViewerView {
                drag_current: Some(on_page(pointer, page_rect)),
                ..self
            },
            _ => self,
        }
    }

    /// The area that was dragged over, if it is large enough for something to be selected.
    pub open spec fn area_selected(self, page_rect: ScreenRect) -> Option<NormalizedRect> {
        let threshold = Real32 { bits: DRAG_THRESHOLD };
        match (self.drag_start, self.drag_current) {
            (Some(start), Some(end)) => {
                let selection = NormalizedRect::spanned(start, end);
                if threshold.less(selection.width.times(page_rect.width())) || threshold.less(
                    selection.height.times(page_rect.height()),
                ) {
                    Some(selection)
                } else {
                    None
                }
            },
            _ => None,
        }
    }

    /// Whether the pointer is no longer dragged over a page.
    pub open spec fn drag_ends(self, page_index: usize, input: PageInput) -> bool {
        input.drag_stopped && self.drag_page == Some(page_index)
    }

    /// The viewer when the pointer is no longer dragged: the text in the area is asked for.
    pub open spec fn drag_ended(
        self,
        page_index: usize,
        input: PageInput,
        page_rect: ScreenRect,
    ) -> ViewerView<T> {
        if self.drag_ends(page_index, input) {
            let asks = self.area_selected(page_rect) is Some;
            let request = successor(self.selection_request);
            ViewerView {
                selection_request: if asks {
                    request
                } else {
                    self.selection_request
                },
                selection_waiting: if asks {
                    Some(request)
                } else {
                    self.selection_waiting
                },
                drag_start: None,
                drag_current: None,
                drag_page: None,
                ..self
            }
        } else {
            self
        }
    }

    /// The command by which the text in the area is asked for, if it is.
    pub open spec fn selection_command(
        self,
        page_index: usize,
        input: PageInput,
        page_rect: ScreenRect,
    ) -> Option<PdfCommand> {
        match (self.drag_ends(page_index, input), self.area_selected(page_rect), self.generation()) {
            (true, Some(selection), Some(generation)) => Some(
                PdfCommand::ResolveSelection {
                    generation,
                    request_id: successor(self.selection_request),
                    page_index,
                    selection,
                },
            ),
            _ => None,
        }
    }

    /// The viewer after the pointer was dragged.
    pub open spec fn after_drag(
        self,
        page_index: usize,
        input: PageInput,
        page_rect: ScreenRect,
    ) -> ViewerView<T> {
        self.drag_begun(page_index, input, page_rect).drag_continued(
            page_index,
            input,
            page_rect,
        ).drag_ended(page_index, input, page_rect)
    }

    /// The viewer when the pointer rests on a page.
    pub open spec fn after_rest(
        self,
        input: PageInput,
        link: Option<LinkRegion>,
        now: u64,
    ) -> ViewerView<T> {
        match link {
            _ if input.dragged => ViewerView { hover: None, ..self },
            Some(region) => match self.hover {
                Some(hover) if hover.target.same(region.target) => self,
                _ => ViewerView {
                    hover: Some(HoverState { target: region.target, started: now }),
                    ..self
                },
            },
            None => if input.hovered {
                ViewerView { hover: None, ..self }
            } else {
                self
            },
        }
    }

    /// What the pointer looks like on a page.
    pub open spec fn cursor(self, input: PageInput, link: Option<LinkRegion>) -> PageCursor {
        if input.dragged {
            PageCursor::Unchanged
        } else if link is Some {
            PageCursor::PointingHand
        } else if input.hovered {
            PageCursor::Text
        } else {
            PageCursor::Unchanged
        }
    }

    /// The viewer after a click on a page: a link is followed, an annotation is selected.
    pub open spec fn after_click(
        self,
        page_index: usize,
        link: Option<LinkRegion>,
        annotation: Option<u64>,
        now: u64,
    ) -> ViewerView<T> {
        match link {
            Some(region) => match region.target {
                LinkTarget::Internal(destination) => self.at_destination(destination, now),
                LinkTarget::Uri(_) => self,
            },
            None => match annotation {
                Some(id) => ViewerView {
                    current_page: page_index,
                    page_input: page_label(page_index),
                    selected_annotation: Some(id),
                    show_notes: true,
                    ..self
                },
                None => ViewerView { selected_annotation: None, ..self },
            },
        }
    }

    /// The viewer after the pointer did something on a page.
    pub open spec fn after_pointer(
        self,
        page_index: usize,
        input: PageInput,
        page_rect: ScreenRect,
        links: Seq<LinkRegion>,
        annotations: Seq<AnnotationView>,
        now: u64,
    ) -> ViewerView<T> {
        let point = place_on_page(input.hover_pos, page_rect);
        let link = link_at(links, point);
        let rested = self.after_drag(page_index, input, page_rect).after_rest(input, link, now);
        match (input.clicked, point) {
            (true, Some(place)) => rested.after_click(
                page_index,
                link,
                annotation_at(annotations, place),
                now,
            ),
            _ => rested,
        }
    }

    /// The viewer with the selected text highlighted.
    pub open spec fn highlighted(self, add_note: bool, now: u64) -> ViewerView<T> {
        match (self.selection_draft, self.document) {
            (Some(draft), Some(document)) => {
                let store = document.annotations;
                let id = store.next_id;
                let added = ViewerView {
                    selection_draft: None,
                    document: Some(
                        DocumentView {
                            annotations: StoreView {
                                annotations: store.annotations.push(
                                    AnnotationView {
                                        id,
                                        page_index: draft.page_index,
                                        rects: draft.rects,
                                        selected_text: draft.text,
                                        note: Seq::empty(),
                                    },
                                ),
                                next_id: successor(id),
                                dirty_since: Some(now),
                                ..store
                            },
                            ..document
                        },
                    ),
                    ..self
                };
                if add_note {
                    ViewerView {
                        current_page: draft.page_index,
                        page_input: page_label(draft.page_index),
                        selected_annotation: Some(id),
                        show_notes: true,
                        ..added
                    }
                } else {
                    added
                }
            },
            _ => ViewerView { selection_draft: None, ..self },
        }
    }

    /// The viewer after something was done with the selected text.
    pub open spec fn after_selection(
        self,
        action: Option<SelectionAction>,
        now: u64,
    ) -> ViewerView<T> {
        match action {
            Some(SelectionAction::Copy) => if self.selection_draft is Some {
                self.told("Copied selected text."@, false, now)
            } else {
                self
            },
            Some(SelectionAction::Highlight) => self.highlighted(false, now),
            Some(SelectionAction::AddNote) => self.highlighted(true, now),
            Some(SelectionAction::Clear) => ViewerView { selection_draft: None, ..self },
            None => self,
        }
    }
}

/// What is offered for a page on a click with the other button.
#[derive(Debug)]
pub enum SelectionMenu {
    /// Text is selected; this is how it begins.
    Selected(String),
    /// The selected text is not known yet.
    Waiting,
    /// Nothing is selected.
    Hint,
}

impl<T> PdfViewerApp<T> {
    /// Does what the pointer asks for on a page with links and annotations.
    pub fn handle_page_interaction(
        &mut self,
        page_index: usize,
        input: &PageInput,
        page_rect: ScreenRect,
        links: &Vec<LinkRegion>,
        annotations: &Vec<Annotation>,
        now: u64,
    ) -> (r: PageReply)
        requires
            old(self).wf(),
            page_index < old(self)@.pages(),
            links_inside(links@, old(self)@.pages()),
        ensures
            final(self).wf(),
            final(self)@ == old(self)@.after_pointer(
                page_index,
                *input,
                page_rect,
                links@,
                annotation_views(annotations@),
                now,
            ),
            r.command == old(self)@.drag_begun(page_index, *input, page_rect).drag_continued(
                page_index,
                *input,
                page_rect,
            ).selection_command(page_index, *input, page_rect),
            r.cursor == old(self)@.cursor(
                *input,
                link_at(links@, place_on_page(input.hover_pos, page_rect)),
            ),
            match link_at(links@, place_on_page(input.hover_pos, page_rect)) {
                Some(region) => match region.target {
                    LinkTarget::Uri(uri) => if input.clicked {
                        r.open_url matches Some(url) && url@ == uri@
                    } else {
                        r.open_url is None
                    },
                    LinkTarget::Internal(_) => r.open_url is None,
                },
                None => r.open_url is None,
            },
    {
        proof {
            self.lemma_pages_fit();
        }
        let command: Option<PdfCommand> = self.handle_drag(page_index, input, page_rect);
        let hover_point: Option<[Real32; 2]> = match input.hover_pos {
            Some(pointer) => Some(point_to_normalized(pointer, page_rect)),
            None => None,
        };
        let found: Option<usize> = find_link(links, hover_point);
        let link: Option<&LinkRegion> = match found {
            Some(i) => Some(&links[i]),
            None => None,
        };
        let cursor: PageCursor = self.handle_rest(input, link, now);
        let mut open_url: Option<String> = None;
        if input.clicked {
            if let Some(point) = hover_point {
                match link {
                    Some(region) => {
                        match &region.target {
                            LinkTarget::Internal(destination) => {
                                self.navigate_to_destination(*destination, now);
                            },
                            LinkTarget::Uri(uri) => {
                                open_url = Some(uri.clone());
                            },
                        }
                    },
                    None => {
                        match find_annotation(annotations, point) {
                            Some(id) => {
                                self.current_page = page_index;
                                self.page_input = decimal(page_index as u64 + 1);
                                self.selected_annotation = Some(id);
                                self.show_notes = true;
                            },
                            None => {
                                self.selected_annotation = None;
                            },
                        }
                    },
                }
            }
        }
        PageReply { command, cursor, open_url }
    }

    /// Does what dragging asks for.
    fn handle_drag(
        &mut self,
        page_index: usize,
        input: &PageInput,
        page_rect: ScreenRect,
    ) -> (r: Option<PdfCommand>)
        requires
            old(self).wf(),
        ensures
            final(self).wf(),
            final(self)@ == old(self)@.after_drag(page_index, *input, page_rect),
            r == old(self)@.drag_begun(page_index, *input, page_rect).drag_continued(
                page_index,
                *input,
                page_rect,
            ).selection_command(page_index, *input, page_rect),
    {
        if input.drag_started {
            if let Some(pointer) = input.pointer {
                let normalized: [Real32; 2] = point_to_normalized(pointer, page_rect);
                self.drag_start = Some(normalized);
                self.drag_current = Some(normalized);
                self.drag_page = Some(page_index);
                self.selection_draft = None;
                self.hover = None;
            }
        }
        if input.dragged && self.drag_page == Some(page_index) {
            if let Some(pointer) = input.pointer {
                self.drag_current = Some(point_to_normalized(pointer, page_rect));
            }
        }
        let mut command: Option<PdfCommand> = None;
        if input.drag_stopped && self.drag_page == Some(page_index) {
            let threshold: Real32 = Real32 { bits: DRAG_THRESHOLD };
            match (self.drag_start, self.drag_current) {
                (Some(start), Some(end)) => {
                    let selection: NormalizedRect = NormalizedRect::from_points(start, end);
                    if threshold.less(selection.width.times(page_rect.width())) || threshold.less(
                        selection.height.times(page_rect.height()),
                    ) {
                        self.selection_request = self.selection_request.saturating_add(1);
                        self.selection_waiting = Some(self.selection_request);
                        if let Some(generation) = self.active_generation() {
                            command = Some(
                                PdfCommand::ResolveSelection {
                                    generation,
                                    request_id: self.selection_request,
                                    page_index,
                                    selection,
                                },
                            );
                        }
                    }
                },
                _ => {},
            }
            self.drag_start = None;
            self.drag_current = None;
            self.drag_page = None;
        }
        command
    }

    /// Notes what the pointer rests on.
    fn handle_rest(
        &mut self,
        input: &PageInput,
        link: Option<&LinkRegion>,
        now: u64,
    ) -> (r: PageCursor)
        requires
            old(self).wf(),
            link matches Some(region) ==> leads_inside(region.target, usize::MAX as nat),
        ensures
            final(self).wf(),
            final(self)@ == old(self)@.after_rest(
                *input,
                match link {
                    Some(region) => Some(*region),
                    None => None,
                },
                now,
            ),
            r == old(self)@.cursor(
                *input,
                match link {
                    Some(region) => Some(*region),
                    None => None,
                },
            ),
    {
        if input.dragged {
            self.hover = None;
            return PageCursor::Unchanged;
        }
        match link {
            Some(region) => {
                let unchanged: bool = match &self.hover {
                    Some(hover) => hover.target == region.target,
                    None => false,
                };
                if !unchanged {
                    self.hover = Some(
                        HoverState { target: region.target.clone(), started: now },
                    );
                }
                PageCursor::PointingHand
            },
            None => {
                if input.hovered {
                    self.hover = None;
                    PageCursor::Text
                } else {
                    PageCursor::Unchanged
                }
            },
        }
    }

    /// Notes that the pointer rests on no page.
    pub fn leave_pages(&mut self)
        requires
            old(self).wf(),
        ensures
            final(self).wf(),
            final(self)@ == (ViewerView { hover: None, ..old(self)@ }),
    {
        self.hover = None;
    }

    /// What is offered for a page on a click with the other button.
    pub fn selection_menu(&self, page_index: usize) -> (r: SelectionMenu)
        ensures
            match self@.selection_draft {
                Some(draft) if draft.page_index == page_index => r matches SelectionMenu::Selected(
                    text,
                ) && text@ == compacted(draft.text, SELECTION_CHARS as nat),
                _ => if self@.selection_waiting is Some {
                    r is Waiting
                } else {
                    r is Hint
                },
            },
    {
        if let Some(draft) = &self.selection_draft {
            if draft.page_index == page_index {
                return SelectionMenu::Selected(
                    compact_text(draft.text.as_str(), SELECTION_CHARS),
                );
            }
        }
        if self.selection_waiting.is_some() {
            SelectionMenu::Waiting
        } else {
            SelectionMenu::Hint
        }
    }

    /// Does something with the selected text, and says what is to be copied, if anything is.
    pub fn apply_selection_action(&mut self, action: Option<SelectionAction>, now: u64) -> (r:
        Option<String>)
        requires
            old(self).wf(),
        ensures
            final(self).wf(),
            final(self)@ == old(self)@.after_selection(action, now),
            match (action, old(self)@.selection_draft) {
                (Some(SelectionAction::Copy), Some(draft)) => r matches Some(text) && text@
                    == draft.text,
                _ => r is None,
            },
    {
        match action {
            Some(SelectionAction::Copy) => {
                if let Some(draft) = &self.selection_draft {
                    let text: String = draft.text.clone();
                    self.set_status("Copied selected text.".to_owned(), false, now);
                    return Some(text);
                }
            },
            Some(SelectionAction::Highlight) => self.highlight(false, now),
            Some(SelectionAction::AddNote) => self.highlight(true, now),
            Some(SelectionAction::Clear) => {
                self.selection_draft = None;
            },
            None => {},
        }
        None
    }

    /// Highlights the selected text.
    fn highlight(&mut self, add_note: bool, now: u64)
        requires
            old(self).wf(),
        ensures
            final(self).wf(),
            final(self)@ == old(self)@.highlighted(add_note, now),
    {
        proof {
            self.lemma_pages_fit();
        }
        let draft: SelectionDraft = match self.selection_draft.take() {
            Some(draft) => draft,
            None => {
                return;
            },
        };
        if let Some(document) = &mut self.document {
            let page_index: usize = draft.page_index;
            let id: u64 = document.annotations.add(page_index, draft.rects, draft.text, now);
            if add_note {
                self.current_page = page_index;
                self.page_input = decimal(page_index as u64 + 1);
                self.selected_annotation = Some(id);
                self.show_notes = true;
            }
        }
    }
}

} // verus!
