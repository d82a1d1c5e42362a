//! What holds of rectangles on a page and of loaded annotations, in plain numbers.

use crate::annotations::annotation_valid;
use crate::annotations::annotations_valid;
use crate::annotations::ids_distinct;
use crate::annotations::largest_id;
use crate::annotations::load_outcome;
use crate::annotations::AnnotationFile;
use crate::annotations::AnnotationView;
use crate::annotations::LoadWarning;
use crate::annotations::NormalizedRect;
use crate::annotations::Sidecar;
use crate::annotations::RECT_LIMIT;
use crate::float::exact::least;
use crate::float::exact::most;
use crate::float::exact::near;
use crate::float::exact::size;
use crate::float::single::lemma_absolute;
use crate::float::single::lemma_constant;
use crate::float::single::lemma_larger_smaller;
use crate::float::single::lemma_minus_bounded;
use crate::float::single::lemma_order;
use crate::float::single::lemma_plus_bounded;
use crate::float::single::lemma_plus_keeps_order;
use crate::float::single::lemma_zero;
use crate::float::Real32;
use crate::geometry::laws::sliver;
use vstd::arithmetic::power2::lemma2_to64;
use vstd::prelude::*;
use vstd::utf8::encode_utf8;

verus! {

/// Whether a rectangle has an area and lies on the page, in real numbers.
pub open spec fn lies_on_page(rect: NormalizedRect) -> bool {
    &&& rect.x.is_finite() && rect.y.is_finite()
    &&& rect.width.is_finite() && rect.height.is_finite()
    &&& rect.x.value() >= 0 as real && rect.y.value() >= 0 as real
    &&& rect.width.value() > 0 as real && rect.height.value() > 0 as real
    &&& rect.x.value() + rect.width.value() <= 1 as real
    &&& rect.y.value() + rect.height.value() <= 1 as real
}

/// The largest coordinate that a rectangle may reach is one and a thousandth.
proof fn lemma_rect_limit()
    ensures
        (Real32 { bits: RECT_LIMIT }).is_finite(),
        near(
            (Real32 { bits: RECT_LIMIT }).value() * 1000 as real,
            1001 as real,
            1 as real / 1000 as real,
        ),
{
    lemma2_to64();
    lemma_constant(Real32 { bits: RECT_LIMIT }, 0x80_20c5, 126, 23, 0x80_0000);
}

/// A rectangle with an area that lies on the page is valid. A valid rectangle has an area, begins
/// on the page, and goes beyond its edges by a thousandth of its side at most.
pub proof fn law_rectangles_on_the_page_are_valid(rect: NormalizedRect)
    ensures
        lies_on_page(rect) ==> rect.valid(),
        rect.valid() ==> {
            &&& rect.x.is_finite() && rect.y.is_finite()
            &&& rect.width.is_finite() && rect.height.is_finite()
            &&& rect.x.value() >= 0 as real && rect.y.value() >= 0 as real
            &&& rect.width.value() > 0 as real && rect.height.value() > 0 as real
            &&& rect.x.value() + rect.width.value() <= 1002 as real / 1000 as real
            &&& rect.y.value() + rect.height.value() <= 1002 as real / 1000 as real
        },
{
    lemma_zero();
    lemma_rect_limit();
    let zero = Real32 { bits: 0 };
    let limit = Real32 { bits: RECT_LIMIT };
    if rect.x.is_finite() && rect.y.is_finite() && rect.width.is_finite()
        && rect.height.is_finite() {
        lemma_order(zero, rect.x);
        lemma_order(zero, rect.y);
        lemma_order(zero, rect.width);
        lemma_order(zero, rect.height);
        lemma_side_is_in_bounds(rect.x, rect.width, limit);
        lemma_side_is_in_bounds(rect.y, rect.height, limit);
    }
}

/// One side of a rectangle within a bound.
proof fn lemma_side_is_in_bounds(start: Real32, length: Real32, limit: Real32)
    requires
        start.is_finite() && length.is_finite() && limit.is_finite(),
        limit.value() >= 1 as real,
        limit.value() <= 10012 as real / 10000 as real,
    ensures
        start.value() + length.value() <= limit.value() ==> start.plus(length).up_to(limit),
        start.plus(length).up_to(limit) ==> start.value() + length.value() <= 1002 as real
            / 1000 as real,
{
    lemma_plus_keeps_order(start, length, limit);
    if start.value() + length.value() > 1002 as real / 1000 as real {
        let beyond = Real32 { bits: 0x3f80_3000 };
        lemma2_to64();
        lemma_constant(beyond, 0x80_3000, 126, 23, 0x80_0000);
        lemma_plus_keeps_order(start, length, beyond);
        lemma_order(beyond, limit);
        reveal(Real32::spec_up_to);
    }
}

/// A point is in a rectangle or on its edge exactly if it lies between the edges, up to the
/// rounding of the far ones.
pub proof fn law_rectangles_contain_their_points(rect: NormalizedRect, point: [Real32; 2])
    requires
        rect.x.is_finite() && size(rect.x.value()) <= 4 as real,
        rect.y.is_finite() && size(rect.y.value()) <= 4 as real,
        rect.width.is_finite() && size(rect.width.value()) <= 4 as real,
        rect.height.is_finite() && size(rect.height.value()) <= 4 as real,
        point[0].is_finite() && point[1].is_finite(),
    ensures
        ({
            let x = point[0].value();
            let y = point[1].value();
            let left = rect.x.value();
            let top = rect.y.value();
            let right = left + rect.width.value();
            let bottom = top + rect.height.value();
            &&& left <= x <= right && top <= y <= bottom ==> rect.covers(point)
            &&& rect.covers(point) ==> left <= x <= right + sliver() && top <= y <= bottom
                + sliver()
        }),
{
    lemma_order(rect.x, point[0]);
    lemma_order(rect.y, point[1]);
    lemma_plus_keeps_order(rect.x, rect.width, point[0]);
    lemma_plus_keeps_order(rect.y, rect.height, point[1]);
    lemma_plus_bounded(rect.x, rect.width, 8 as real);
    lemma_plus_bounded(rect.y, rect.height, 8 as real);
    lemma_order(point[0], rect.x.plus(rect.width));
    lemma_order(point[1], rect.y.plus(rect.height));
}

/// The rectangle between two points begins at the smaller coordinates of both and reaches to the
/// larger ones.
pub proof fn law_dragged_rectangles_reach_both_points(a: [Real32; 2], b: [Real32; 2])
    requires
        a[0].is_finite() && size(a[0].value()) <= 4 as real,
        a[1].is_finite() && size(a[1].value()) <= 4 as real,
        b[0].is_finite() && size(b[0].value()) <= 4 as real,
        b[1].is_finite() && size(b[1].value()) <= 4 as real,
    ensures
        ({
            let rect = NormalizedRect::spanned(a, b);
            &&& rect.x.value() == least(a[0].value(), b[0].value())
            &&& rect.y.value() == least(a[1].value(), b[1].value())
            &&& near(
                rect.x.value() + rect.width.value(),
                most(a[0].value(), b[0].value()),
                sliver(),
            )
            &&& near(
                rect.y.value() + rect.height.value(),
                most(a[1].value(), b[1].value()),
                sliver(),
            )
            &&& rect.x.is_finite() && rect.y.is_finite()
            &&& rect.width.is_finite() && rect.height.is_finite()
        }),
{
    lemma_larger_smaller(a[0], b[0]);
    lemma_larger_smaller(a[1], b[1]);
    lemma_minus_bounded(a[0], b[0], 8 as real);
    lemma_minus_bounded(a[1], b[1], 8 as real);
    lemma_absolute(a[0].minus(b[0]));
    lemma_absolute(a[1].minus(b[1]));
}

/// Annotations on pages of the document, over rectangles that lie on the page, with identifiers of
/// their own and texts of at most a million bytes, are loaded again, all of them and without a
/// warning, from a file of the document's own fingerprint.
pub proof fn law_annotations_on_the_page_are_loaded(
    pdf_path: Seq<u8>,
    fingerprint: Seq<char>,
    page_count: nat,
    file: AnnotationFile,
)
    requires
        file@.schema_version == 1,
        file@.document_fingerprint == fingerprint,
        forall|i: int|
            0 <= i < file@.annotations.len() ==> {
                let annotation = #[trigger] file@.annotations[i];
                &&& annotation.id > 0
                &&& annotation.page_index < page_count
                &&& annotation.rects.len() > 0
                &&& encode_utf8(annotation.selected_text).len() <= 1_000_000
                &&& encode_utf8(annotation.note).len() <= 1_000_000
                &&& forall|k: int|
                    0 <= k < annotation.rects.len() ==> lies_on_page(#[trigger] annotation.rects[k])
            },
        forall|i: int, j: int|
            0 <= i < j < file@.annotations.len() ==> (#[trigger] file@.annotations[i]).id != (
            #[trigger] file@.annotations[j]).id,
    ensures
        ({
            let loaded = load_outcome(pdf_path, fingerprint, page_count, Sidecar::Present(file));
            &&& loaded.0.annotations == file@.annotations
            &&& loaded.0.fingerprint == fingerprint
            &&& loaded.0.dirty_since is None
            &&& loaded.1 is None
            &&& forall|i: int|
                0 <= i < file@.annotations.len() && (#[trigger] file@.annotations[i]).id < u64::MAX
                    && (forall|j: int|
                    0 <= j < file@.annotations.len() ==> (#[trigger] file@.annotations[j]).id
                        <= file@.annotations[i].id) ==> loaded.0.next_id
                    == file@.annotations[i].id + 1
        }),
{
    let annotations = file@.annotations;
    assert forall|i: int| 0 <= i < annotations.len() implies annotation_valid(
        #[trigger] annotations[i],
        page_count,
    ) by {
        let rects = annotations[i].rects;
        assert forall|k: int| 0 <= k < rects.len() implies (#[trigger] rects[k]).valid() by {
            assert(lies_on_page(rects[k]));
            law_rectangles_on_the_page_are_valid(rects[k]);
        }
    }
    assert(ids_distinct(annotations));
    lemma_largest_is_one_of_them(annotations);
}

/// The largest identifier is that of an annotation, and no other is larger.
proof fn lemma_largest_is_one_of_them(annotations: Seq<AnnotationView>)
    ensures
        forall|i: int|
            0 <= i < annotations.len() ==> (#[trigger] annotations[i]).id <= largest_id(
                annotations,
            ),
        largest_id(annotations) == 0 || exists|i: int|
            0 <= i < annotations.len() && (#[trigger] annotations[i]).id == largest_id(annotations),
    decreases annotations.len(),
{
    if annotations.len() > 0 {
        let rest = annotations.drop_last();
        lemma_largest_is_one_of_them(rest);
        assert forall|i: int| 0 <= i < annotations.len() implies (#[trigger] annotations[i]).id
            <= largest_id(annotations) by {
            if i < rest.len() {
                assert(rest[i] == annotations[i]);
            }
        }
        if annotations.last().id > largest_id(rest) {
            assert(annotations[annotations.len() - 1].id == largest_id(annotations));
        } else if largest_id(rest) != 0 {
            let i = choose|i: int|
                0 <= i < rest.len() && (#[trigger] rest[i]).id == largest_id(rest);
            assert(annotations[i].id == largest_id(annotations));
        }
    }
}

/// A file with an annotation that cannot be one of the document is refused as a whole: one without
/// an identifier, on a page that the document does not have, without a rectangle, over a rectangle
/// without an area or far beyond the page, with too long a text, or with another's identifier.
pub proof fn law_faulty_annotations_are_refused(
    pdf_path: Seq<u8>,
    fingerprint: Seq<char>,
    page_count: nat,
    file: AnnotationFile,
    i: int,
    j: int,
    k: int,
)
    requires
        file@.schema_version == 1,
        file@.document_fingerprint == fingerprint,
        0 <= i < file@.annotations.len(),
        ({
            let annotation = file@.annotations[i];
            ||| annotation.id == 0
            ||| annotation.page_index >= page_count
            ||| annotation.rects.len() == 0
            ||| encode_utf8(annotation.selected_text).len() > 1_000_000
            ||| encode_utf8(annotation.note).len() > 1_000_000
            ||| 0 <= j < file@.annotations.len() && i != j && file@.annotations[j].id
                == annotation.id
            ||| 0 <= k < annotation.rects.len() && {
                let rect = annotation.rects[k];
                ||| !rect.x.is_finite() || !rect.y.is_finite()
                ||| !rect.width.is_finite() || !rect.height.is_finite()
                ||| rect.x.value() < 0 as real || rect.y.value() < 0 as real
                ||| rect.width.value() <= 0 as real || rect.height.value() <= 0 as real
                ||| rect.x.value() + rect.width.value() > 1002 as real / 1000 as real
                ||| rect.y.value() + rect.height.value() > 1002 as real / 1000 as real
            }
        }),
    ensures
        ({
            let loaded = load_outcome(pdf_path, fingerprint, page_count, Sidecar::Present(file));
            &&& loaded.0.annotations.len() == 0
            &&& loaded.1 == Some(LoadWarning::InvalidData)
            &&& loaded.0.preserve_existing
        }),
{
    let annotation = file@.annotations[i];
    if 0 <= k < annotation.rects.len() {
        law_rectangles_on_the_page_are_valid(annotation.rects[k]);
    }
    if annotations_valid(file@.annotations, page_count) {
        assert(annotation_valid(annotation, page_count));
        assert(annotation.rects.len() > 0);
        if 0 <= k < annotation.rects.len() {
            assert(annotation.rects[k].valid());
        }
        if 0 <= j < file@.annotations.len() && i != j {
            assert(file@.annotations[j].id != annotation.id);
        }
    }
}

/// Rectangles are equal where their corners and sides are equal as numbers, and only there.
pub proof fn law_equal_rectangles_have_equal_numbers(a: NormalizedRect, b: NormalizedRect)
    requires
        a.x.is_finite() && a.y.is_finite() && a.width.is_finite() && a.height.is_finite(),
        b.x.is_finite() && b.y.is_finite() && b.width.is_finite() && b.height.is_finite(),
    ensures
        a.same(b) <==> a.x.value() == b.x.value() && a.y.value() == b.y.value() && a.width.value()
            == b.width.value() && a.height.value() == b.height.value(),
{
    lemma_order(a.x, b.x);
    lemma_order(b.x, a.x);
    lemma_order(a.y, b.y);
    lemma_order(b.y, a.y);
    lemma_order(a.width, b.width);
    lemma_order(b.width, a.width);
    lemma_order(a.height, b.height);
    lemma_order(b.height, a.height);
}

} // verus!
