//! The keys and the toolbar.

use crate::float::Real32;
use crate::geometry::Vector;
use crate::geometry::ZoomMode;
use crate::path::display_name;
use crate::path::file_name;
use crate::path::lossy_text;
use crate::text::decimal;
use crate::text::decimal_digits;
use crate::text::parse_number;
use crate::text::typed_number;
use crate::viewer::navigation::page_label;
use crate::viewer::navigation::ZOOM_STEP;
use crate::viewer::LayoutMode;
use crate::viewer::PdfViewerApp;
use crate::viewer::ViewerView;
use vstd::prelude::*;

verus! {

/// 0.001, the bits of the least change of the zoom that is not passed over.
pub const ZOOM_TREMBLE: u32 = 0x3a83_126f;

/// 60.0, the bits of how far an arrow key scrolls.
pub const SCROLL_STEP: u32 = 0x4270_0000;

/// 900.0, the bits of the width from which the toolbar is written out.
pub const WIDE_TOOLBAR: u32 = 0x4461_0000;

/// The keys that were pressed, and how far two fingers or the wheel have zoomed.
#[derive(Clone, Copy, Debug)]
pub struct ShortcutInput {
    /// Alt and the left arrow.
    pub back: bool,
    /// Alt and the right arrow.
    pub forward: bool,
    /// Control and plus.
    pub zoom_in: bool,
    /// Control and minus.
    pub zoom_out: bool,
    /// Control and zero.
    pub zoom_reset: bool,
    /// Whether a text is being typed, so that keys without control or alt are part of it.
    pub typing: bool,
    pub page_up: bool,
    pub page_down: bool,
    pub home: bool,
    pub end: bool,
    pub left: bool,
    pub right: bool,
    pub up: bool,
    pub down: bool,
    /// Whether control is held.
    pub control: bool,
    /// The factor by which was zoomed; one where was not.
    pub zoom_delta: Real32,
}

/// The page before a page; the first one stays.
pub open spec fn page_before(page_index: usize) -> usize {
    if page_index > 0 {
        (page_index - 1) as usize
    } else {
        0
    }
}

/// The page after a page.
pub open spec fn page_after(page_index: usize) -> usize {
    if page_index < usize::MAX {
        (page_index + 1) as usize
    } else {
        page_index
    }
}

/// The last page.
pub open spec fn last_page(page_count: nat) -> usize {
    if page_count > 0 {
        (page_count - 1) as usize
    } else {
        0
    }
}

impl<T> ViewerView<T> {
    /// The viewer scrolled a step up or down.
    pub open spec fn scrolled(self, down: bool) -> ViewerView<T> {
        let step = Real32 { bits: SCROLL_STEP };
        if self.document is None {
            self
        } else {
            ViewerView {
                pending_scroll: Some(
                    Vector {
                        x: self.current_scroll.x,
                        y: if down {
                            self.current_scroll.y.plus(step)
                        } else {
                            self.current_scroll.y.minus(step).larger(Real32 { bits: 0 })
                        },
                    },
                ),
                ..self
            }
        }
    }

    /// The viewer after the keys that go through the history and change the zoom.
    pub open spec fn after_commands(self, input: ShortcutInput, now: u64) -> ViewerView<T> {
        let step = Real32 { bits: ZOOM_STEP };
        let a = if input.back {
            self.gone_back(now)
        } else {
            self
        };
        let b = if input.forward {
            a.gone_forward(now)
        } else {
            a
        };
        let c = if input.zoom_in {
            b.zoomed(b.shown_zoom().plus(step), now)
        } else {
            b
        };
        let d = if input.zoom_out {
            c.zoomed(c.shown_zoom().minus(step), now)
        } else {
            c
        };
        if input.zoom_reset {
            d.zoomed(Real32 { bits: 0x3f80_0000 }, now)
        } else {
            d
        }
    }

    /// The viewer after the keys that go from page to page.
    pub open spec fn after_page_keys(self, input: ShortcutInput, now: u64) -> ViewerView<T> {
        let a = if input.page_up {
            self.on_page(page_before(self.current_page), now)
        } else {
            self
        };
        let b = if input.page_down {
            a.on_page(page_after(a.current_page), now)
        } else {
            a
        };
        let c = if input.home {
            b.on_page(0, now)
        } else {
            b
        };
        if input.end {
            c.on_page(last_page(c.pages()), now)
        } else {
            c
        }
    }

    /// The viewer after the arrow keys: left and right go from page to page, up and down scroll.
    pub open spec fn after_arrows(self, input: ShortcutInput, now: u64) -> ViewerView<T> {
        let a = if input.left {
            self.on_page(page_before(self.current_page), now)
        } else {
            self
        };
        let b = if input.right {
            a.on_page(page_after(a.current_page), now)
        } else {
            a
        };
        let c = if input.up {
            b.scrolled(false)
        } else {
            b
        };
        if input.down {
            c.scrolled(true)
        } else {
            c
        }
    }

    /// The viewer after zooming with the wheel or two fingers.
    pub open spec fn after_zoom(self, input: ShortcutInput, now: u64) -> ViewerView<T> {
        let one = Real32 { bits: 0x3f80_0000 };
        let factor = if input.control {
            input.zoom_delta
        } else {
            one
        };
        if (Real32 { bits: ZOOM_TREMBLE }).less(factor.minus(one).absolute()) {
            self.zoomed(self.shown_zoom().times(factor), now)
        } else {
            self
        }
    }

    /// The viewer after all keys of a moment.
    pub open spec fn after_shortcuts(self, input: ShortcutInput, now: u64) -> ViewerView<T> {
        let a = self.after_commands(input, now);
        let b = if input.typing {
            a
        } else {
            a.after_page_keys(input, now).after_arrows(input, now)
        };
        b.after_zoom(input, now)
    }
}

/// What was done in the toolbar.
#[derive(Clone, Copy, Debug, PartialEq)]
pub enum ToolbarEvent {
    Back,
    Forward,
    PreviousPage,
    /// The number of a page was typed and confirmed.
    EnterPage,
    NextPage,
    ZoomOut,
    /// A zoom in percent was chosen.
    SetPercent(Real32),
    ZoomIn,
    FitWidth,
    FitPage,
    SetLayout(LayoutMode),
    ToggleNotes,
}

impl<T> ViewerView<T> {
    /// Whether something can be done in the toolbar.
    pub open spec fn offers(self, event: ToolbarEvent) -> bool {
        match event {
            ToolbarEvent::Back => self.back_history.len() > 0,
            ToolbarEvent::Forward => self.forward_history.len() > 0,
            ToolbarEvent::PreviousPage => self.document is Some && self.current_page > 0,
            ToolbarEvent::NextPage => self.document is Some && self.current_page + 1
                < self.pages(),
            _ => self.document is Some,
        }
    }

    /// The viewer in another layout; the page that is shown stays.
    pub open spec fn laid_out(self, layout: LayoutMode, now: u64) -> ViewerView<T> {
        if layout == self.layout {
            self
        } else {
            let continuous = layout == LayoutMode::Continuous;
            ViewerView {
                layout,
                pending_page_scroll: if continuous {
                    Some(self.current_page)
                } else {
                    None
                },
                pending_scroll: if continuous {
                    None
                } else {
                    Some(Vector::zero())
                },
                selection_draft: None,
                drag_page: None,
                ..self
            }.scheduled(true, now)
        }
    }

    /// The viewer after something was done in the toolbar.
    pub open spec fn after_toolbar(self, event: ToolbarEvent, now: u64) -> ViewerView<T> {
        let step = Real32 { bits: ZOOM_STEP };
        match event {
            ToolbarEvent::Back => self.gone_back(now),
            ToolbarEvent::Forward => self.gone_forward(now),
            ToolbarEvent::PreviousPage => self.on_page(page_before(self.current_page), now),
            ToolbarEvent::EnterPage => match typed_number(self.page_input) {
                Some(number) => self.on_page(page_before(number), now),
                None => ViewerView { page_input: page_label(self.current_page), ..self },
            },
            ToolbarEvent::NextPage => self.on_page(page_after(self.current_page), now),
            ToolbarEvent::ZoomOut => self.zoomed(self.shown_zoom().minus(step), now),
            ToolbarEvent::SetPercent(percent) => self.zoomed(
                percent.over(Real32 { bits: 0x42c8_0000 }),
                now,
            ),
            ToolbarEvent::ZoomIn => self.zoomed(self.shown_zoom().plus(step), now),
            ToolbarEvent::FitWidth => ViewerView { zoom: ZoomMode::FitWidth, ..self }.scheduled(
                false,
                now,
            ),
            ToolbarEvent::FitPage => ViewerView { zoom: ZoomMode::FitPage, ..self }.scheduled(
                false,
                now,
            ),
            ToolbarEvent::SetLayout(layout) => self.laid_out(layout, now),
            ToolbarEvent::ToggleNotes => ViewerView { show_notes: !self.show_notes, ..self },
        }
    }

    /// The zoom in whole percent.
    pub open spec fn shown_percent(self) -> Real32 {
        self.shown_zoom().times(Real32 { bits: 0x42c8_0000 }).rounded()
    }
}

/// What is written at the end of the toolbar.
#[derive(Debug)]
pub enum ToolbarMessage {
    Nothing,
    /// A document is being opened; where there is room, which.
    Opening(Option<String>),
    Status { text: String, is_error: bool },
}

impl<T> PdfViewerApp<T> {
    /// Does what the keys ask for.
    pub fn process_shortcuts(&mut self, input: &ShortcutInput, now: u64)
        requires
            old(self).wf(),
        ensures
            final(self).wf(),
            final(self)@ == old(self)@.after_shortcuts(*input, now),
    {
        self.process_commands(input, now);
        if !input.typing {
            self.process_page_keys(input, now);
            self.process_arrows(input, now);
        }
        let one: Real32 = Real32 { bits: 0x3f80_0000 };
        let factor: Real32 = if input.control {
            input.zoom_delta
        } else {
            one
        };
        if (Real32 { bits: ZOOM_TREMBLE }).less(factor.minus(one).absolute()) {
            let zoom: Real32 = self.effective_zoom().times(factor);
            self.set_manual_zoom(zoom, now);
        }
    }

    /// Does what the keys with control and alt ask for.
    fn process_commands(&mut self, input: &ShortcutInput, now: u64)
        requires
            old(self).wf(),
        ensures
            final(self).wf(),
            final(self)@ == old(self)@.after_commands(*input, now),
    {
        let step: Real32 = Real32 { bits: ZOOM_STEP };
        if input.back {
            self.navigate_back(now);
        }
        if input.forward {
            self.navigate_forward(now);
        }
        if input.zoom_in {
            let zoom: Real32 = self.effective_zoom().plus(step);
            self.set_manual_zoom(zoom, now);
        }
        if input.zoom_out {
            let zoom: Real32 = self.effective_zoom().minus(step);
            self.set_manual_zoom(zoom, now);
        }
        if input.zoom_reset {
            self.set_manual_zoom(Real32 { bits: 0x3f80_0000 }, now);
        }
    }

    /// Does what the keys that go from page to page ask for.
    fn process_page_keys(&mut self, input: &ShortcutInput, now: u64)
        requires
            old(self).wf(),
        ensures
            final(self).wf(),
            final(self)@ == old(self)@.after_page_keys(*input, now),
    {
        if input.page_up {
            self.go_to_page(self.current_page.saturating_sub(1), now);
        }
        if input.page_down {
            self.go_to_page(self.current_page.saturating_add(1), now);
        }
        if input.home {
            self.go_to_page(0, now);
        }
        if input.end {
            let page_count: usize = self.page_count();
            self.go_to_page(page_count.saturating_sub(1), now);
        }
    }

    /// Does what the arrow keys ask for.
    fn process_arrows(&mut self, input: &ShortcutInput, now: u64)
        requires
            old(self).wf(),
        ensures
            final(self).wf(),
            final(self)@ == old(self)@.after_arrows(*input, now),
    {
        if input.left {
            self.go_to_page(self.current_page.saturating_sub(1), now);
        }
        if input.right {
            self.go_to_page(self.current_page.saturating_add(1), now);
        }
        if input.up {
            self.scroll_step(false);
        }
        if input.down {
            self.scroll_step(true);
        }
    }

    /// Scrolls a step up or down.
    fn scroll_step(&mut self, down: bool)
        requires
            old(self).wf(),
        ensures
            final(self).wf(),
            final(self)@ == old(self)@.scrolled(down),
    {
        let step: Real32 = Real32 { bits: SCROLL_STEP };
        if self.document.is_some() {
            let y: Real32 = if down {
                self.current_scroll.y.plus(step)
            } else {
                self.current_scroll.y.minus(step).larger(Real32 { bits: 0 })
            };
            self.pending_scroll = Some(Vector { x: self.current_scroll.x, y });
        }
    }

    /// Whether something can be done in the toolbar.
    pub fn toolbar_offers(&self, event: ToolbarEvent) -> (r: bool)
        requires
            self.wf(),
        ensures
            r == self@.offers(event),
    {
        let has_document: bool = self.document.is_some();
        match event {
            ToolbarEvent::Back => self.back_history.len() > 0,
            ToolbarEvent::Forward => self.forward_history.len() > 0,
            ToolbarEvent::PreviousPage => has_document && self.current_page > 0,
            ToolbarEvent::NextPage => has_document && self.current_page < self.page_count() - 1,
            _ => has_document,
        }
    }

    /// Does what was asked for in the toolbar.
    pub fn toolbar(&mut self, event: ToolbarEvent, now: u64)
        requires
            old(self).wf(),
            old(self)@.offers(event),
        ensures
            final(self).wf(),
            final(self)@ == old(self)@.after_toolbar(event, now),
    {
        let step: Real32 = Real32 { bits: ZOOM_STEP };
        proof {
            self.lemma_pages_fit();
        }
        match event {
            ToolbarEvent::Back => self.navigate_back(now),
            ToolbarEvent::Forward => self.navigate_forward(now),
            ToolbarEvent::PreviousPage => self.go_to_page(self.current_page - 1, now),
            ToolbarEvent::EnterPage => {
                match parse_number(self.page_input.as_str()) {
                    Some(number) => self.go_to_page(number.saturating_sub(1), now),
                    None => {
                        self.page_input = decimal(self.current_page as u64 + 1);
                    },
                }
            },
            ToolbarEvent::NextPage => self.go_to_page(self.current_page + 1, now),
            ToolbarEvent::ZoomOut => {
                let zoom: Real32 = self.effective_zoom().minus(step);
                self.set_manual_zoom(zoom, now);
            },
            ToolbarEvent::SetPercent(percent) => self.set_manual_zoom(
                percent.over(Real32 { bits: 0x42c8_0000 }),
                now,
            ),
            ToolbarEvent::ZoomIn => {
                let zoom: Real32 = self.effective_zoom().plus(step);
                self.set_manual_zoom(zoom, now);
            },
            ToolbarEvent::FitWidth => {
                self.zoom = ZoomMode::FitWidth;
                self.schedule_render(false, now);
            },
            ToolbarEvent::FitPage => {
                self.zoom = ZoomMode::FitPage;
                self.schedule_render(false, now);
            },
            ToolbarEvent::SetLayout(layout) => self.set_layout(layout, now),
            ToolbarEvent::ToggleNotes => {
                self.show_notes = !self.show_notes;
            },
        }
    }

    /// Changes the layout.
    fn set_layout(&mut self, layout: LayoutMode, now: u64)
        requires
            old(self).wf(),
        ensures
            final(self).wf(),
            final(self)@ == old(self)@.laid_out(layout, now),
    {
        if self.layout == layout {
            return;
        }
        self.layout = layout;
        if layout == LayoutMode::Continuous {
            self.pending_page_scroll = Some(self.current_page);
            self.pending_scroll = None;
        } else {
            self.pending_page_scroll = None;
            self.pending_scroll = Some(Vector::zero());
        }
        self.selection_draft = None;
        self.drag_page = None;
        self.schedule_render(true, now);
    }

    /// The zoom in whole percent.
    pub fn zoom_percent(&self) -> (r: Real32)
        requires
            self.wf(),
        ensures
            r == self@.shown_percent(),
    {
        self.effective_zoom().times(Real32 { bits: 0x42c8_0000 }).rounded()
    }

    /// How many pages there are, for the toolbar; one where nothing is open.
    pub fn page_total(&self) -> (r: String)
        ensures
            r@ == "/ "@ + decimal_digits(
                if self@.pages() > 1 {
                    self@.pages()
                } else {
                    1
                },
            ),
    {
        let page_count: usize = self.page_count();
        let shown: usize = if page_count > 1 {
            page_count
        } else {
            1
        };
        "/ ".to_owned().concat(decimal(shown as u64).as_str())
    }

    /// What is written at the end of the toolbar. Where there is little room, only errors are.
    pub fn toolbar_message(&self, compact: bool) -> (r: ToolbarMessage)
        ensures
            match self@.loading {
                Some((_, path)) => if compact {
                    r matches ToolbarMessage::Opening(None)
                } else {
                    r matches ToolbarMessage::Opening(Some(text)) && text@ == "Opening "@
                        + lossy_text(display_name(path))
                },
                None => match self@.status {
                    Some(status) => if !compact || status.is_error {
                        r matches ToolbarMessage::Status { text, is_error } && text@ == status.text
                            && is_error == status.is_error
                    } else {
                        r is Nothing
                    },
                    None => r is Nothing,
                },
            },
    {
        if let Some((_, path)) = &self.loading {
            if compact {
                return ToolbarMessage::Opening(None);
            }
            return ToolbarMessage::Opening(
                Some("Opening ".to_owned().concat(file_name(path.as_slice()).as_str())),
            );
        }
        if let Some(status) = &self.status {
            if !compact || status.is_error {
                return ToolbarMessage::Status {
                    text: status.text.clone(),
                    is_error: status.is_error,
                };
            }
        }
        ToolbarMessage::Nothing
    }
}

/// Whether the toolbar has so little room that it is shortened.
pub fn is_compact(available_width: Real32) -> (r: bool)
    ensures
        r == available_width.less(Real32 { bits: WIDE_TOOLBAR }),
{
    available_width.less(Real32 { bits: WIDE_TOOLBAR })
}

} // verus!
