//! Going from page to page, and changing the size of pages.

use crate::float::Real32;
use crate::geometry::display_scale;
use crate::geometry::scale_of;
use crate::geometry::Vector;
use crate::geometry::ZoomMode;
use crate::geometry::PDF_POINT_TO_LOGICAL;
use crate::pdf::Destination;
use crate::text::decimal;
use crate::text::decimal_digits;
use crate::viewer::LayoutMode;
use crate::viewer::PdfViewerApp;
use crate::viewer::ViewLocation;
use crate::viewer::ViewerView;
use crate::viewer::RENDER_DEBOUNCE;
use vstd::prelude::*;

verus! {

/// 0.25, the bits of the least zoom.
pub const MIN_ZOOM: u32 = 0x3e80_0000;

/// 4.0, the bits of the largest zoom.
pub const MAX_ZOOM: u32 = 0x4080_0000;

/// 0.1, the bits of one step of the zoom.
pub const ZOOM_STEP: u32 = 0x3dcc_cccd;

/// What is shown of the number of a page: pages count from one.
pub open spec fn page_label(page_index: usize) -> Seq<char> {
    decimal_digits((page_index + 1) as nat)
}

/// A page that the document has, as near as possible to another.
pub open spec fn nearest_page(page_index: usize, page_count: nat) -> usize {
    if page_index < page_count {
        page_index
    } else if page_count > 0 {
        (page_count - 1) as usize
    } else {
        0
    }
}

impl<T> ViewerView<T> {
    /// What is seen of the document.
    pub open spec fn location(self) -> ViewLocation {
        ViewLocation {
            page_index: self.current_page,
            scroll: self.current_scroll,
            zoom: self.zoom,
            layout: self.layout,
        }
    }

    /// The viewer when the page has to be drawn anew, at once or after a while.
    pub open spec fn scheduled(self, immediate: bool, now: u64) -> ViewerView<T> {
        ViewerView {
            desired_render: None,
            render_due: if immediate {
                now as u128
            } else {
                (now + RENDER_DEBOUNCE) as u128
            },
            ..self
        }
    }

    /// The viewer on another page, from its top. What could be gone forward to is forgotten.
    pub open spec fn on_page(self, page_index: usize, now: u64) -> ViewerView<T> {
        if self.pages() == 0 {
            self
        } else {
            let page = nearest_page(page_index, self.pages());
            let continuous = self.layout == LayoutMode::Continuous;
            ViewerView {
                current_page: page,
                page_input: page_label(page),
                pending_page_scroll: if continuous {
                    Some(page)
                } else {
                    None
                },
                pending_scroll: if continuous {
                    None
                } else {
                    Some(Vector::zero())
                },
                pending_destination: None,
                forward_history: Seq::empty(),
                selection_draft: None,
                selected_annotation: None,
                ..self
            }.scheduled(true, now)
        }
    }

    /// The viewer after a link was followed. What was seen before can be gone back to.
    pub open spec fn at_destination(self, destination: Destination, now: u64) -> ViewerView<T> {
        ViewerView {
            back_history: self.back_history.push(self.location()),
            forward_history: Seq::empty(),
            current_page: destination.page_index,
            page_input: page_label(destination.page_index),
            pending_destination: Some(destination),
            pending_scroll: None,
            pending_page_scroll: None,
            selection_draft: None,
            selected_annotation: None,
            ..self
        }.scheduled(true, now)
    }

    /// The viewer at a location: page, scroll position, zoom and layout are as they were.
    pub open spec fn at_location(self, location: ViewLocation, now: u64) -> ViewerView<T> {
        let page = nearest_page(location.page_index, self.pages());
        ViewerView {
            current_page: page,
            page_input: page_label(page),
            zoom: location.zoom,
            pending_scroll: Some(location.scroll),
            pending_page_scroll: None,
            layout: location.layout,
            pending_destination: None,
            selection_draft: None,
            ..self
        }.scheduled(true, now)
    }

    /// The viewer after going back, if there is something to go back to.
    pub open spec fn gone_back(self, now: u64) -> ViewerView<T> {
        if self.back_history.len() == 0 {
            self
        } else {
            ViewerView {
                back_history: self.back_history.drop_last(),
                forward_history: self.forward_history.push(self.location()),
                ..self
            }.at_location(self.back_history.last(), now)
        }
    }

    /// The viewer after going forward again, if there is something to go forward to.
    pub open spec fn gone_forward(self, now: u64) -> ViewerView<T> {
        if self.forward_history.len() == 0 {
            self
        } else {
            ViewerView {
                forward_history: self.forward_history.drop_last(),
                back_history: self.back_history.push(self.location()),
                ..self
            }.at_location(self.forward_history.last(), now)
        }
    }

    /// The viewer with a zoom that was chosen by hand.
    pub open spec fn zoomed(self, zoom: Real32, now: u64) -> ViewerView<T> {
        ViewerView {
            zoom: ZoomMode::Manual(
                zoom.within(Real32 { bits: MIN_ZOOM }, Real32 { bits: MAX_ZOOM }),
            ),
            ..self
        }.scheduled(false, now)
    }

    /// How large the page is, where full size is one.
    pub open spec fn shown_zoom(self) -> Real32 {
        match self.document {
            Some(document) => scale_of(
                self.zoom,
                document.page_sizes[self.current_page as int],
                self.last_viewport,
            ).over(Real32 { bits: PDF_POINT_TO_LOGICAL }),
            None => Real32 { bits: 0x3f80_0000 },
        }
    }
}

impl<T> PdfViewerApp<T> {
    /// What is seen of the document.
    pub fn current_location(&self) -> (r: ViewLocation)
        ensures
            r == self@.location(),
    {
        ViewLocation {
            page_index: self.current_page,
            scroll: self.current_scroll,
            zoom: self.zoom,
            layout: self.layout,
        }
    }

    /// Has the page drawn anew, at once or after a while.
    pub fn schedule_render(&mut self, immediate: bool, now: u64)
        requires
            old(self).wf(),
        ensures
            final(self).wf(),
            final(self)@ == old(self)@.scheduled(immediate, now),
    {
        self.desired_render = None;
        self.render_due = if immediate {
            now as u128
        } else {
            now as u128 + RENDER_DEBOUNCE as u128
        };
    }

    /// Shows a page from its top; the last one where there are not as many.
    pub fn go_to_page(&mut self, page_index: usize, now: u64)
        requires
            old(self).wf(),
        ensures
            final(self).wf(),
            final(self)@ == old(self)@.on_page(page_index, now),
    {
        let page_count: usize = self.page_count();
        if page_count == 0 {
            return;
        }
        self.current_page = if page_index < page_count {
            page_index
        } else {
            page_count - 1
        };
        self.page_input = decimal(self.current_page as u64 + 1);
        if self.layout == LayoutMode::Continuous {
            self.pending_page_scroll = Some(self.current_page);
            self.pending_scroll = None;
        } else {
            self.pending_scroll = Some(Vector::zero());
            self.pending_page_scroll = None;
        }
        self.pending_destination = None;
        self.forward_history.clear();
        self.selection_draft = None;
        self.selected_annotation = None;
        self.schedule_render(true, now);
    }

    /// Follows a link within the document.
    pub fn navigate_to_destination(&mut self, destination: Destination, now: u64)
        requires
            old(self).wf(),
            destination.page_index < old(self)@.pages(),
        ensures
            final(self).wf(),
            final(self)@ == old(self)@.at_destination(destination, now),
    {
        let location: ViewLocation = self.current_location();
        self.back_history.push(location);
        self.forward_history.clear();
        self.current_page = destination.page_index;
        proof {
            self.lemma_pages_fit();
        }
        self.page_input = decimal(self.current_page as u64 + 1);
        self.pending_destination = Some(destination);
        self.pending_scroll = None;
        self.pending_page_scroll = None;
        self.selection_draft = None;
        self.selected_annotation = None;
        self.schedule_render(true, now);
    }

    /// Goes back to what was seen before a link was followed.
    pub fn navigate_back(&mut self, now: u64)
        requires
            old(self).wf(),
        ensures
            final(self).wf(),
            final(self)@ == old(self)@.gone_back(now),
    {
        if let Some(location) = self.back_history.pop() {
            let here: ViewLocation = self.current_location();
            self.forward_history.push(here);
            self.restore_location(location, now);
        }
    }

    /// Goes forward again.
    pub fn navigate_forward(&mut self, now: u64)
        requires
            old(self).wf(),
        ensures
            final(self).wf(),
            final(self)@ == old(self)@.gone_forward(now),
    {
        if let Some(location) = self.forward_history.pop() {
            let here: ViewLocation = self.current_location();
            self.back_history.push(here);
            self.restore_location(location, now);
        }
    }

    /// Shows what was seen before.
    pub fn restore_location(&mut self, location: ViewLocation, now: u64)
        requires
            old(self).wf(),
        ensures
            final(self).wf(),
            final(self)@ == old(self)@.at_location(location, now),
    {
        let page_count: usize = self.page_count();
        self.current_page = if location.page_index < page_count {
            location.page_index
        } else if page_count > 0 {
            page_count - 1
        } else {
            0
        };
        self.page_input = decimal(self.current_page as u64 + 1);
        self.zoom = location.zoom;
        self.pending_scroll = Some(location.scroll);
        self.pending_page_scroll = None;
        self.layout = location.layout;
        self.pending_destination = None;
        self.selection_draft = None;
        self.schedule_render(true, now);
    }

    /// Sets the zoom by hand, between a quarter and four times full size.
    pub fn set_manual_zoom(&mut self, zoom: Real32, now: u64)
        requires
            old(self).wf(),
        ensures
            final(self).wf(),
            final(self)@ == old(self)@.zoomed(zoom, now),
    {
        self.zoom = ZoomMode::Manual(
            zoom.within(Real32 { bits: MIN_ZOOM }, Real32 { bits: MAX_ZOOM }),
        );
        self.schedule_render(false, now);
    }

    /// How large the page is, where full size is one.
    pub fn effective_zoom(&self) -> (r: Real32)
        requires
            self.wf(),
        ensures
            r == self@.shown_zoom(),
    {
        match &self.document {
            Some(document) => display_scale(
                self.zoom,
                document.page_sizes[self.current_page],
                self.last_viewport,
            ).over(Real32 { bits: PDF_POINT_TO_LOGICAL }),
            None => Real32 { bits: 0x3f80_0000 },
        }
    }
}

} // verus!
