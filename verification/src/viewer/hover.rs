//! What is shown while the pointer rests on a link.

use crate::float::Real32;
use crate::geometry::ScreenRect;
use crate::geometry::Vector;
use crate::pdf::Destination;
use crate::pdf::LinkTarget;
use crate::pdf::PdfCommand;
use crate::pdf::PreviewKey;
use crate::text::compact_text;
use crate::text::compacted;
use crate::text::decimal;
use crate::viewer::drawing::lemma_put_in;
use crate::viewer::navigation::page_label;
use crate::viewer::CachedPreview;
use crate::viewer::PdfViewerApp;
use crate::viewer::ViewerView;
use crate::viewer::HOVER_DELAY;
use vstd::prelude::*;

verus! {

/// How many characters of an address are shown.
pub const ADDRESS_CHARS: usize = 80;

/// What is shown for a link.
#[derive(Debug)]
pub enum HoverContent {
    /// A place in the document: its page, and where its picture is, if it is there.
    Place { heading: String, picture: Option<usize> },
    /// An address.
    Address(String),
}

/// What is to be done about the link that the pointer rests on.
#[derive(Debug)]
pub enum HoverReply {
    Nothing,
    /// Look again after a while.
    Wait(u64),
    /// Show the link at a place, and ask for its picture where there is a command.
    Show { content: HoverContent, position: Vector, command: Option<PdfCommand> },
}

/// How long ago a time was.
pub open spec fn elapsed(since: u64, now: u64) -> u64 {
    if now > since {
        (now - since) as u64
    } else {
        0
    }
}

/// Where the first picture of a destination stands, or how many pictures there are.
pub open spec fn first_preview<T>(cache: Seq<CachedPreview<T>>, key: PreviewKey) -> int
    decreases cache.len(),
{
    if cache.len() == 0 || cache.first().key == key {
        0
    } else {
        1 + first_preview(cache.drop_first(), key)
    }
}

/// The first picture is at a place where none is before.
proof fn lemma_first_preview<T>(cache: Seq<CachedPreview<T>>, key: PreviewKey, k: int)
    requires
        0 <= k <= cache.len(),
        forall|i: int| 0 <= i < k ==> (#[trigger] cache[i]).key != key,
        k < cache.len() ==> cache[k].key == key,
    ensures
        first_preview(cache, key) == k,
    decreases cache.len(),
{
    if k > 0 {
        assert(cache[0].key != key);
        let rest = cache.drop_first();
        assert forall|i: int| 0 <= i < k - 1 implies (#[trigger] rest[i]).key != key by {
            assert(rest[i] == cache[i + 1]);
        }
        if k < cache.len() {
            assert(rest[k - 1] == cache[k]);
        }
        lemma_first_preview(rest, key, k - 1);
    }
}

/// How much room is taken for a link.
pub open spec fn hover_size(target: LinkTarget) -> Vector {
    match target {
        LinkTarget::Internal(_) => Vector {
            x: Real32 { bits: 0x43db_0000 },
            y: Real32 { bits: 0x4393_0000 },
        },
        LinkTarget::Uri(_) => Vector {
            x: Real32 { bits: 0x43b4_0000 },
            y: Real32 { bits: 0x4260_0000 },
        },
    }
}

/// Where a link is shown: right below the pointer, but to its left or higher up where there is
/// no room.
pub open spec fn hover_position(size: Vector, pointer: Vector, screen: ScreenRect) -> Vector {
    let eight = Real32 { bits: 0x4100_0000 };
    let below = pointer.moved(
        Vector { x: Real32 { bits: 0x4180_0000 }, y: Real32 { bits: 0x4190_0000 } },
    );
    Vector {
        x: if screen.max.x.less(below.x.plus(size.x)) {
            pointer.x.minus(size.x).minus(Real32 { bits: 0x4140_0000 })
        } else {
            below.x
        },
        y: if screen.max.y.less(below.y.plus(size.y)) {
            screen.max.y.minus(size.y).minus(eight).larger(screen.min.y.plus(eight))
        } else {
            below.y
        },
    }
}

/// Where the pointer is, or a place in the corner where that is not known.
pub open spec fn pointer_or_corner(pointer: Option<Vector>) -> Vector {
    match pointer {
        Some(place) => place,
        None => Vector { x: Real32 { bits: 0x41a0_0000 }, y: Real32 { bits: 0x428c_0000 } },
    }
}

impl<T> ViewerView<T> {
    /// Whether the picture of a destination is asked for: it is neither there nor on the way.
    pub open spec fn lacks_preview(self, destination: Destination) -> bool {
        let key = PreviewKey::key_of(destination);
        &&& first_preview(self.preview_cache, key) == self.preview_cache.len()
        &&& !self.pending_previews.contains(key)
        &&& self.document is Some
    }

    /// The viewer while the pointer rests on a link.
    pub open spec fn explaining(self, now: u64) -> ViewerView<T> {
        match self.hover {
            Some(hover) => match hover.target {
                LinkTarget::Internal(destination) => if elapsed(hover.started, now) >= HOVER_DELAY
                    && self.lacks_preview(destination) {
                    ViewerView {
                        pending_previews: self.pending_previews.insert(
                            PreviewKey::key_of(destination),
                        ),
                        ..self
                    }
                } else {
                    self
                },
                LinkTarget::Uri(_) => self,
            },
            None => self,
        }
    }

    /// Whether this is what is shown for a link.
    pub open spec fn explains(self, target: LinkTarget, content: HoverContent) -> bool {
        match target {
            LinkTarget::Internal(destination) => {
                let k = first_preview(self.preview_cache, PreviewKey::key_of(destination));
                &&& content matches HoverContent::Place { heading, picture }
                &&& heading@ == "Page "@ + page_label(destination.page_index)
                &&& if k < self.preview_cache.len() {
                    picture matches Some(i) && i == k
                } else {
                    picture is None
                }
            },
            LinkTarget::Uri(uri) => content matches HoverContent::Address(text) && text@
                == compacted(uri@, ADDRESS_CHARS as nat),
        }
    }

    /// The command for the picture of the place that a link leads to, if it is asked for.
    pub open spec fn preview_command(
        self,
        target: LinkTarget,
        pixels_per_point: Real32,
    ) -> Option<PdfCommand> {
        match target {
            LinkTarget::Internal(destination) => if self.lacks_preview(destination) {
                Some(
                    PdfCommand::RenderPreview {
                        generation: self.generation().unwrap(),
                        destination,
                        key: PreviewKey::key_of(destination),
                        pixels_per_point,
                    },
                )
            } else {
                None
            },
            LinkTarget::Uri(_) => None,
        }
    }
}

/// How much room is taken for a link.
fn room_for(target: &LinkTarget) -> (r: Vector)
    ensures
        r == hover_size(*target),
{
    match target {
        LinkTarget::Internal(_) => Vector {
            x: Real32 { bits: 0x43db_0000 },
            y: Real32 { bits: 0x4393_0000 },
        },
        LinkTarget::Uri(_) => Vector {
            x: Real32 { bits: 0x43b4_0000 },
            y: Real32 { bits: 0x4260_0000 },
        },
    }
}

/// Where a link is shown.
fn place_hover(size: Vector, pointer: Vector, screen: ScreenRect) -> (r: Vector)
    ensures
        r == hover_position(size, pointer, screen),
{
    let eight: Real32 = Real32 { bits: 0x4100_0000 };
    let mut position: Vector = pointer.moved(
        Vector { x: Real32 { bits: 0x4180_0000 }, y: Real32 { bits: 0x4190_0000 } },
    );
    if screen.max.x.less(position.x.plus(size.x)) {
        position.x = pointer.x.minus(size.x).minus(Real32 { bits: 0x4140_0000 });
    }
    if screen.max.y.less(position.y.plus(size.y)) {
        position.y = screen.max.y.minus(size.y).minus(eight).larger(screen.min.y.plus(eight));
    }
    position
}

impl<T> PdfViewerApp<T> {
    /// Where the first picture of a destination stands.
    fn find_preview(&self, key: PreviewKey) -> (r: Option<usize>)
        ensures
            match r {
                Some(i) => i == first_preview(self@.preview_cache, key) && i
                    < self@.preview_cache.len(),
                None => first_preview(self@.preview_cache, key) == self@.preview_cache.len(),
            },
    {
        let mut i: usize = 0;
        while i < self.preview_cache.len()
            invariant
                i <= self.preview_cache@.len(),
                forall|k: int| 0 <= k < i ==> (#[trigger] self.preview_cache@[k]).key != key,
            decreases self.preview_cache@.len() - i,
        {
            if self.preview_cache[i].key == key {
                proof {
                    lemma_first_preview(self.preview_cache@, key, i as int);
                }
                return Some(i);
            }
            i = i + 1;
        }
        proof {
            lemma_first_preview(self.preview_cache@, key, i as int);
        }
        None
    }

    /// Whether the picture of a destination is on the way.
    fn is_preview_pending(&self, key: PreviewKey) -> (r: bool)
        ensures
            r == self@.pending_previews.contains(key),
    {
        let mut i: usize = 0;
        while i < self.pending_previews.len()
            invariant
                i <= self.pending_previews@.len(),
                forall|k: int| 0 <= k < i ==> self.pending_previews@[k] != key,
            decreases self.pending_previews@.len() - i,
        {
            if self.pending_previews[i] == key {
                assert(self.pending_previews@.contains(key));
                return true;
            }
            i = i + 1;
        }
        assert(!self.pending_previews@.contains(key));
        false
    }

    /// Explains the link that the pointer has rested on for a while.
    pub fn hover_preview(
        &mut self,
        pixels_per_point: Real32,
        pointer: Option<Vector>,
        screen: ScreenRect,
        now: u64,
    ) -> (r: HoverReply)
        requires
            old(self).wf(),
        ensures
            final(self).wf(),
            final(self)@ == old(self)@.explaining(now),
            match old(self)@.hover {
                Some(hover) => if elapsed(hover.started, now) < HOVER_DELAY {
                    r matches HoverReply::Wait(pause) && pause == HOVER_DELAY - elapsed(
                        hover.started,
                        now,
                    )
                } else {
                    &&& r matches HoverReply::Show { content, position, command }
                    &&& old(self)@.explains(hover.target, content)
                    &&& position == hover_position(
                        hover_size(hover.target),
                        pointer_or_corner(pointer),
                        screen,
                    )
                    &&& command == old(self)@.preview_command(hover.target, pixels_per_point)
                },
                None => r is Nothing,
            },
    {
        let (target, started): (LinkTarget, u64) = match &self.hover {
            Some(hover) => (hover.target.clone(), hover.started),
            None => {
                return HoverReply::Nothing;
            },
        };
        let rested: u64 = now.saturating_sub(started);
        if rested < HOVER_DELAY {
            return HoverReply::Wait(HOVER_DELAY - rested);
        }
        let place: Vector = match pointer {
            Some(place) => place,
            None => Vector { x: Real32 { bits: 0x41a0_0000 }, y: Real32 { bits: 0x428c_0000 } },
        };
        let position: Vector = place_hover(room_for(&target), place, screen);
        match target {
            LinkTarget::Internal(destination) => {
                let key: PreviewKey = PreviewKey::for_destination(&destination);
                let picture: Option<usize> = self.find_preview(key);
                let mut command: Option<PdfCommand> = None;
                if picture.is_none() && !self.is_preview_pending(key) {
                    if let Some(generation) = self.active_generation() {
                        proof {
                            lemma_put_in(self.pending_previews@, key);
                        }
                        self.pending_previews.push(key);
                        command = Some(
                            PdfCommand::render_preview(generation, destination, pixels_per_point),
                        );
                    }
                }
                let heading: String = "Page ".to_owned().concat(
                    decimal(destination.page_index as u64 + 1).as_str(),
                );
                HoverReply::Show {
                    content: HoverContent::Place { heading, picture },
                    position,
                    command,
                }
            },
            LinkTarget::Uri(uri) => HoverReply::Show {
                content: HoverContent::Address(compact_text(uri.as_str(), ADDRESS_CHARS)),
                position,
                command: None,
            },
        }
    }
}

} // verus!
