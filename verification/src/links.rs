//! Links on a page: where they are and where they lead.

pub mod laws;

use crate::annotations::NormalizedRect;
use crate::float::Real64;
use crate::path::lossy_text;
use crate::path::path_text;
use crate::pdf::Destination;
use crate::pdf::LinkRegion;
use crate::pdf::LinkTarget;
use vstd::prelude::*;

verus! {

/// How often a name may stand for another name before it is given up.
pub const MAX_LOOKUPS: usize = 2;

/// How a destination is described. The first kind is by a name that the document knows; the
/// three after it say where on the page to go.
#[derive(Clone, Copy, Debug, PartialEq, Eq, Structural)]
pub enum DestinationKind {
    Named,
    Point,
    Width,
    BoundingWidth,
    Other,
}

/// A destination as it stands in the document: pages count from one, and heights from below.
#[derive(Debug)]
pub struct RawDestination {
    pub kind: DestinationKind,
    pub name: Option<Vec<u8>>,
    pub page_num: i32,
    pub left: Real64,
    pub top: Real64,
}

/// What a destination needs next.
#[derive(Debug)]
pub enum DestinationStep {
    /// It leads nowhere.
    Nowhere,
    /// The document has to be asked what the name stands for.
    LookUp { name: String },
    /// It leads to a page.
    OnPage { page_index: usize },
}

/// The page that a page number means, if the document has it.
pub open spec fn page_of(page_num: i32, page_count: nat) -> Option<usize> {
    if 1 <= page_num <= page_count {
        Some((page_num - 1) as usize)
    } else {
        None
    }
}

/// Follows a destination one step, `depth` being how many names led to it.
pub fn parse_destination(
    destination: Option<&RawDestination>,
    page_count: usize,
    depth: usize,
) -> (r: DestinationStep)
    ensures
        match destination {
            None => r is Nowhere,
            Some(raw) => if depth > MAX_LOOKUPS {
                r is Nowhere
            } else if raw.kind == DestinationKind::Named && raw.name is Some {
                r matches DestinationStep::LookUp { name } && name@ == lossy_text(
                    raw.name.unwrap()@,
                )
            } else {
                r == (match page_of(raw.page_num, page_count as nat) {
                    Some(page_index) => DestinationStep::OnPage { page_index },
                    None => DestinationStep::Nowhere,
                })
            },
        },
{
    let raw: &RawDestination = match destination {
        Some(raw) => raw,
        None => {
            return DestinationStep::Nowhere;
        },
    };
    if depth > MAX_LOOKUPS {
        return DestinationStep::Nowhere;
    }
    if raw.kind == DestinationKind::Named {
        if let Some(name) = &raw.name {
            return DestinationStep::LookUp { name: path_text(name.as_slice()) };
        }
    }
    if raw.page_num < 1 {
        return DestinationStep::Nowhere;
    }
    let page_index: usize = (raw.page_num - 1) as usize;
    if page_index < page_count {
        DestinationStep::OnPage { page_index }
    } else {
        DestinationStep::Nowhere
    }
}

/// Whether a kind of destination says where on the page to go.
pub open spec fn has_point(kind: DestinationKind) -> bool {
    kind == DestinationKind::Point || kind == DestinationKind::Width || kind
        == DestinationKind::BoundingWidth
}

/// The place on a page that a destination means, from its upper left corner.
pub open spec fn placed(
    raw: RawDestination,
    page_index: usize,
    page_size: [Real64; 2],
) -> Destination {
    let zero = Real64 { bits: 0 };
    if has_point(raw.kind) {
        Destination {
            page_index,
            x: Some(raw.left.within(zero, page_size[0]).narrowed()),
            y_from_top: Some(
                page_size[1].minus(raw.top).within(zero, page_size[1]).narrowed(),
            ),
        }
    } else {
        Destination { page_index, x: None, y_from_top: None }
    }
}

/// The place on a page that a destination means.
pub fn place_destination(
    raw: &RawDestination,
    page_index: usize,
    page_size: [Real64; 2],
) -> (r: Destination)
    requires
        (Real64 { bits: 0 }).up_to(page_size[0]),
        (Real64 { bits: 0 }).up_to(page_size[1]),
    ensures
        r == placed(*raw, page_index, page_size),
{
    let zero: Real64 = Real64 { bits: 0 };
    if raw.kind == DestinationKind::Point || raw.kind == DestinationKind::Width || raw.kind
        == DestinationKind::BoundingWidth {
        Destination {
            page_index,
            x: Some(raw.left.within(zero, page_size[0]).narrowed()),
            y_from_top: Some(
                page_size[1].minus(raw.top).within(zero, page_size[1]).narrowed(),
            ),
        }
    } else {
        Destination { page_index, x: None, y_from_top: None }
    }
}

/// What a link does, as far as it is followed.
#[derive(Debug)]
pub enum LinkAction {
    /// Goes to a place in the document, if it was found.
    GoTo(Option<Destination>),
    /// Opens an address, if there is one.
    Uri(Option<Vec<u8>>),
    /// Does something else, or nothing.
    Other,
}

/// Where a link leads by what it does; an empty address leads nowhere.
pub fn parse_action(action: LinkAction) -> (r: Option<LinkTarget>)
    ensures
        match action {
            LinkAction::GoTo(Some(destination)) => r == Some(LinkTarget::Internal(destination)),
            LinkAction::Uri(Some(uri)) => if lossy_text(uri@).len() == 0 {
                r is None
            } else {
                r matches Some(LinkTarget::Uri(text)) && text@ == lossy_text(uri@)
            },
            _ => r is None,
        },
{
    match action {
        LinkAction::GoTo(Some(destination)) => Some(LinkTarget::Internal(destination)),
        LinkAction::Uri(Some(uri)) => {
            let text: String = path_text(uri.as_slice());
            if text.as_str().is_empty() {
                None
            } else {
                Some(LinkTarget::Uri(text))
            }
        },
        _ => None,
    }
}

/// A link as it stands on the page: two opposite corners in points, heights from below, and
/// where it leads.
#[derive(Debug)]
pub struct LinkMapping {
    pub x1: Real64,
    pub y1: Real64,
    pub x2: Real64,
    pub y2: Real64,
    pub target: Option<LinkTarget>,
}

/// The part of the page that a link covers.
pub open spec fn link_rect(mapping: LinkMapping, page_size: [Real64; 2]) -> NormalizedRect {
    let left = mapping.x1.smaller(mapping.x2);
    let right = mapping.x1.larger(mapping.x2);
    let low = mapping.y1.smaller(mapping.y2);
    let high = mapping.y1.larger(mapping.y2);
    NormalizedRect {
        x: left.over(page_size[0]).narrowed(),
        y: page_size[1].minus(high).over(page_size[1]).narrowed(),
        width: right.minus(left).over(page_size[0]).narrowed(),
        height: high.minus(low).over(page_size[1]).narrowed(),
    }
}

/// The part of the page that a link covers.
fn link_area(mapping: &LinkMapping, page_size: [Real64; 2]) -> (r: NormalizedRect)
    ensures
        r == link_rect(*mapping, page_size),
{
    let left: Real64 = mapping.x1.smaller(mapping.x2);
    let right: Real64 = mapping.x1.larger(mapping.x2);
    let low: Real64 = mapping.y1.smaller(mapping.y2);
    let high: Real64 = mapping.y1.larger(mapping.y2);
    NormalizedRect {
        x: left.over(page_size[0]).narrowed(),
        y: page_size[1].minus(high).over(page_size[1]).narrowed(),
        width: right.minus(left).over(page_size[0]).narrowed(),
        height: high.minus(low).over(page_size[1]).narrowed(),
    }
}

/// The links of a page that lead somewhere, in order.
pub open spec fn page_links(mappings: Seq<LinkMapping>, page_size: [Real64; 2]) -> Seq<LinkRegion>
    decreases mappings.len(),
{
    if mappings.len() == 0 {
        Seq::empty()
    } else {
        let before = page_links(mappings.drop_last(), page_size);
        let last = mappings.last();
        match last.target {
            Some(target) => before.push(LinkRegion { rect: link_rect(last, page_size), target }),
            None => before,
        }
    }
}

/// The links of a page that lead somewhere, in order.
pub fn extract_links(mappings: &Vec<LinkMapping>, page_size: [Real64; 2]) -> (r: Vec<LinkRegion>)
    ensures
        r@ == page_links(mappings@, page_size),
{
    let mut links: Vec<LinkRegion> = Vec::new();
    let mut i: usize = 0;
    while i < mappings.len()
        invariant
            i <= mappings@.len(),
            links@ == page_links(mappings@.take(i as int), page_size),
        decreases mappings@.len() - i,
    {
        proof {
            assert(mappings@.take(i + 1).drop_last() =~= mappings@.take(i as int));
        }
        if let Some(target) = &mappings[i].target {
            links.push(
                LinkRegion { rect: link_area(&mappings[i], page_size), target: target.clone() },
            );
        }
        i = i + 1;
    }
    assert(mappings@.take(i as int) =~= mappings@);
    links
}

/// Whether a link leads out of the document or to one of its pages.
pub open spec fn leads_inside(target: LinkTarget, page_count: nat) -> bool {
    target matches LinkTarget::Internal(destination) ==> destination.page_index < page_count
}

/// A destination that is followed to a page leads to a page of the document.
pub proof fn law_destinations_are_pages(
    raw: RawDestination,
    page_count: nat,
    page_index: usize,
    page_size: [Real64; 2],
)
    requires
        page_of(raw.page_num, page_count) == Some(page_index),
    ensures
        placed(raw, page_index, page_size).page_index < page_count,
{
}

/// A page has no links but those that lead somewhere: each is one of the page's, over the area
/// that the page gives it.
pub proof fn law_links_come_from_the_page(
    mappings: Seq<LinkMapping>,
    page_size: [Real64; 2],
    i: int,
)
    requires
        0 <= i < page_links(mappings, page_size).len(),
    ensures
        exists|k: int|
            0 <= k < mappings.len() && (#[trigger] mappings[k]).target == Some(
                page_links(mappings, page_size)[i].target,
            ) && page_links(mappings, page_size)[i].rect == link_rect(mappings[k], page_size),
    decreases mappings.len(),
{
    let rest = mappings.drop_last();
    if i < page_links(rest, page_size).len() {
        law_links_come_from_the_page(rest, page_size, i);
        let k = choose|k: int|
            0 <= k < rest.len() && (#[trigger] rest[k]).target == Some(
                page_links(rest, page_size)[i].target,
            ) && page_links(rest, page_size)[i].rect == link_rect(rest[k], page_size);
        assert(mappings[k] == rest[k]);
    } else {
        assert(mappings[mappings.len() - 1].target is Some);
    }
}

} // verus!
