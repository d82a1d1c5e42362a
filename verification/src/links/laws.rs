//! What holds of the links of a page, in plain numbers.

use crate::float::double;
use crate::float::exact::least;
use crate::float::exact::lemma_near_scaled;
use crate::float::exact::lemma_quotient;
use crate::float::exact::most;
use crate::float::exact::near;
use crate::float::exact::size;
use crate::float::exact::trace;
use crate::float::Real64;
use crate::geometry::laws::sliver;
use crate::links::link_rect;
use crate::links::page_links;
use crate::links::page_of;
use crate::links::placed;
use crate::links::DestinationKind;
use crate::links::LinkMapping;
use crate::links::RawDestination;
use crate::render::laws::is_page_side;
use vstd::prelude::*;

verus! {

/// Whether a number is a coordinate on or near a page: at most `2^40` from zero.
pub open spec fn is_coordinate(a: Real64) -> bool {
    a.finite() && size(a.value()) <= 0x100_0000_0000 as real
}

/// How many of the first mappings lead somewhere.
pub open spec fn leading_somewhere(mappings: Seq<LinkMapping>, count: int) -> int
    decreases count,
{
    if count <= 0 {
        0
    } else {
        leading_somewhere(mappings, count - 1) + (if mappings[count - 1].target is Some {
            1int
        } else {
            0int
        })
    }
}

/// Every link of the page that leads somewhere is found, to a place of the document as well as to
/// an address, in the order of the page: there are as many as lead somewhere, and each stands
/// behind those that come before it, with its own target and over its own area.
pub proof fn law_every_link_is_found(mappings: Seq<LinkMapping>, page_size: [Real64; 2])
    ensures
        page_links(mappings, page_size).len() == leading_somewhere(mappings, mappings.len() as int),
        forall|i: int|
            0 <= i < mappings.len() && (#[trigger] mappings[i]).target is Some ==> {
                let k = leading_somewhere(mappings, i);
                let links = page_links(mappings, page_size);
                &&& 0 <= k < links.len()
                &&& links[k].target == mappings[i].target.unwrap()
                &&& links[k].rect == link_rect(mappings[i], page_size)
            },
    decreases mappings.len(),
{
    if mappings.len() > 0 {
        let n = mappings.len() as int;
        let rest = mappings.drop_last();
        law_every_link_is_found(rest, page_size);
        assert forall|c: int| 0 <= c <= n - 1 implies #[trigger] leading_somewhere(mappings, c)
            == leading_somewhere(rest, c) by {
            lemma_same_count(mappings, rest, c);
        }
        let before = page_links(rest, page_size);
        let links = page_links(mappings, page_size);
        assert forall|i: int| 0 <= i < n && (#[trigger] mappings[i]).target is Some implies {
            let k = leading_somewhere(mappings, i);
            &&& 0 <= k < links.len()
            &&& links[k].target == mappings[i].target.unwrap()
            &&& links[k].rect == link_rect(mappings[i], page_size)
        } by {
            if i < n - 1 {
                assert(rest[i] == mappings[i]);
                assert(links[leading_somewhere(mappings, i)] == before[leading_somewhere(rest, i)]);
            } else {
                assert(leading_somewhere(mappings, n - 1) == leading_somewhere(rest, n - 1));
            }
        }
    }
}

/// Counting looks at the first mappings only.
proof fn lemma_same_count(a: Seq<LinkMapping>, b: Seq<LinkMapping>, count: int)
    requires
        count <= a.len(),
        count <= b.len(),
        forall|i: int| 0 <= i < count ==> a[i] == b[i],
    ensures
        leading_somewhere(a, count) == leading_somewhere(b, count),
    decreases count,
{
    if count > 0 {
        lemma_same_count(a, b, count - 1);
    }
}

/// A length in fractions of a side.
proof fn lemma_length_in_fractions(length: Real64, side: Real64, exact: real, bound: real)
    requires
        length.finite(),
        near(exact, 0 as real, bound),
        near(length.value(), exact, bound * (1 as real / 1_000_000_000 as real)),
        is_page_side(side),
        side.value() <= bound,
        bound <= 0x1000_0000_0000 as real,
    ensures
        length.over(side).narrowed().is_finite(),
        near(
            length.over(side).narrowed().value() * side.value(),
            exact,
            bound * sliver(),
        ),
{
    let a = length.value();
    let w = side.value();
    let q = a / w;
    lemma_quotient(a, w, 0x100_0000_0000 as real);
    double::lemma_over(length, side);
    let ratio = length.over(side);
    double::lemma_narrowed(ratio);
    let f = ratio.narrowed().value();
    let t = trace();
    let n = size(q);
    let tenth = 1 as real / 10_000_000 as real;
    assert(near(f, q, n * tenth + 3 as real * t));
    lemma_near_scaled(f, q, n * tenth + 3 as real * t, w);
    assert((n * tenth + 3 as real * t) * w == (n * w) * tenth + 3 as real * (t * w))
        by (nonlinear_arith);
    let tw = t * w;
    assert(tw <= w * tenth) by (nonlinear_arith)
        requires
            tw == t * w,
            t <= tenth,
            w > 0 as real,
    ;
}

/// A link covers the part of the page between its two corners: it begins at the smaller distance
/// from the left, reaches to the larger one, begins below the upper edge of the page where the
/// higher corner is, and is as high as the corners are apart.
pub proof fn law_links_cover_their_area(mapping: LinkMapping, page_size: [Real64; 2])
    requires
        is_coordinate(mapping.x1) && is_coordinate(mapping.x2),
        is_coordinate(mapping.y1) && is_coordinate(mapping.y2),
        is_page_side(page_size[0]) && is_page_side(page_size[1]),
    ensures
        ({
            let rect = link_rect(mapping, page_size);
            let wide = page_size[0].value();
            let high = page_size[1].value();
            let left = least(mapping.x1.value(), mapping.x2.value());
            let right = most(mapping.x1.value(), mapping.x2.value());
            let lower = least(mapping.y1.value(), mapping.y2.value());
            let upper = most(mapping.y1.value(), mapping.y2.value());
            let across = (size(left) + size(right) + wide) * sliver();
            let down = (size(lower) + size(upper) + high) * sliver();
            &&& rect.x.is_finite() && rect.y.is_finite()
            &&& rect.width.is_finite() && rect.height.is_finite()
            &&& near(rect.x.value() * wide, left, across)
            &&& near(rect.width.value() * wide, right - left, across)
            &&& near(rect.y.value() * high, high - upper, down)
            &&& near(rect.height.value() * high, upper - lower, down)
        }),
{
    double::lemma_larger_smaller(mapping.x1, mapping.x2);
    double::lemma_larger_smaller(mapping.y1, mapping.y2);
    let left = mapping.x1.smaller(mapping.x2);
    let right = mapping.x1.larger(mapping.x2);
    let lower = mapping.y1.smaller(mapping.y2);
    let upper = mapping.y1.larger(mapping.y2);
    let wide = page_size[0];
    let high = page_size[1];
    let m = size(left.value()) + size(right.value()) + wide.value();
    let n = size(lower.value()) + size(upper.value()) + high.value();
    assert(near(left.value(), 0 as real, m) && near(right.value() - left.value(), 0 as real, m));
    assert(near(high.value() - upper.value(), 0 as real, n) && near(
        upper.value() - lower.value(),
        0 as real,
        n,
    ));
    double::lemma_minus_bounded(right, left, m);
    double::lemma_minus_bounded(high, upper, n);
    double::lemma_minus_bounded(upper, lower, n);
    lemma_length_in_fractions(left, wide, left.value(), m);
    lemma_length_in_fractions(right.minus(left), wide, right.value() - left.value(), m);
    lemma_length_in_fractions(high.minus(upper), high, high.value() - upper.value(), n);
    lemma_length_in_fractions(upper.minus(lower), high, upper.value() - lower.value(), n);
}

/// A destination that names a place on the page is that place, from the upper left corner, with
/// heights turned round; a place beside the page is moved to its edge. The other kinds name no
/// place. The page is the one that is given.
pub proof fn law_destinations_keep_their_place(
    raw: RawDestination,
    page_index: usize,
    page_size: [Real64; 2],
)
    requires
        is_coordinate(raw.left) && is_coordinate(raw.top),
        is_page_side(page_size[0]) && is_page_side(page_size[1]),
    ensures
        ({
            let place = placed(raw, page_index, page_size);
            let wide = page_size[0].value();
            let high = page_size[1].value();
            &&& place.page_index == page_index
            &&& raw.kind == DestinationKind::Named || raw.kind == DestinationKind::Other ==> place.x
                is None && place.y_from_top is None
            &&& raw.kind == DestinationKind::Point || raw.kind == DestinationKind::Width || raw.kind
                == DestinationKind::BoundingWidth ==> {
                &&& place.x is Some && place.y_from_top is Some
                &&& place.x.unwrap().is_finite() && place.y_from_top.unwrap().is_finite()
                &&& near(
                    place.x.unwrap().value(),
                    least(most(raw.left.value(), 0 as real), wide),
                    wide * sliver(),
                )
                &&& near(
                    place.y_from_top.unwrap().value(),
                    least(most(high - raw.top.value(), 0 as real), high),
                    (high + size(raw.top.value())) * sliver(),
                )
            }
        }),
{
    double::lemma_zero();
    let zero = Real64 { bits: 0 };
    let wide = page_size[0];
    let high = page_size[1];
    let m = high.value() + size(raw.top.value());
    assert(near(high.value() - raw.top.value(), 0 as real, m));
    double::lemma_minus_bounded(high, raw.top, m);
    let below = high.minus(raw.top);
    double::lemma_clamped(raw.left, zero, wide);
    double::lemma_clamped(below, zero, high);
    double::lemma_narrowed(raw.left.within(zero, wide));
    double::lemma_narrowed(below.within(zero, high));
    let t = trace();
    assert(t <= wide.value() * (1 as real / 100_000_000 as real));
    assert(t <= high.value() * (1 as real / 100_000_000 as real));
}

/// Pages count from one in the document and from zero here, and only pages that the document has
/// are led to.
pub proof fn law_pages_count_from_one(page_num: i32, page_count: nat, page_index: usize)
    requires
        page_count <= usize::MAX,
    ensures
        page_of(page_num, page_count) == Some(page_index) <==> page_num == page_index + 1
            && page_index < page_count,
        page_of(page_num, page_count) is None <==> page_num < 1 || page_num > page_count,
{
}

} // verus!
