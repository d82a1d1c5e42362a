//! What is promised of the keys of pictures and of the pages of a document.

use crate::float::exact::near;
use crate::float::exact::size;
use crate::float::single::lemma_constant;
use crate::float::single::lemma_order;
use crate::float::single::lemma_times;
use crate::float::single::lemma_to_i32;
use crate::float::Real32;
use crate::float::Real64;
use crate::pdf::bucket_of;
use crate::pdf::cache_label;
use crate::pdf::first_missing;
use crate::pdf::low_bytes;
use crate::pdf::pages_reported;
use crate::pdf::word_bytes;
use crate::pdf::Destination;
use crate::pdf::LinkRegion;
use crate::pdf::LinkTarget;
use crate::pdf::PreviewKey;
use crate::pdf::BUCKETS_PER_POINT;
use vstd::arithmetic::power::pow;
use vstd::arithmetic::power2::lemma2_to64;
use vstd::prelude::*;

verus! {

/// A coordinate is put into the bucket of the nearest half point.
proof fn lemma_bucket(coordinate: Real32)
    requires
        coordinate.is_finite(),
        size(coordinate.value()) < 100_000 as real,
    ensures
        near(
            bucket_of(Some(coordinate)) as real,
            2 as real * coordinate.value(),
            53 as real / 100 as real,
        ),
{
    lemma2_to64();
    let two = Real32 { bits: BUCKETS_PER_POINT };
    lemma_constant(two, 0x80_0000, 127, 22, 0x40_0000);
    assert(coordinate.value() * two.value() == 2 as real * coordinate.value())
        by (nonlinear_arith)
        requires
            two.value() == 2 as real,
    ;
    lemma_times(coordinate, two);
    lemma_to_i32(coordinate.times(two));
}

/// Destinations share a picture only if they are on one page and less than a point apart; where a
/// coordinate is not given, the key says so.
pub proof fn law_previews_are_shared_by_near_places(a: Destination, b: Destination)
    requires
        a.x matches Some(x) ==> x.is_finite() && size(x.value()) < 100_000 as real,
        b.x matches Some(x) ==> x.is_finite() && size(x.value()) < 100_000 as real,
        a.y_from_top matches Some(y) ==> y.is_finite() && size(y.value()) < 100_000 as real,
        b.y_from_top matches Some(y) ==> y.is_finite() && size(y.value()) < 100_000 as real,
    ensures
        ({
            let key = PreviewKey::key_of(a);
            &&& key.page_index == a.page_index
            &&& a.x matches Some(x) ==> near(
                key.x_bucket as real,
                2 as real * x.value(),
                53 as real / 100 as real,
            )
            &&& a.y_from_top matches Some(y) ==> near(
                key.y_bucket as real,
                2 as real * y.value(),
                53 as real / 100 as real,
            )
            &&& a.x is None ==> key.x_bucket == -1
            &&& a.y_from_top is None ==> key.y_bucket == -1
        }),
        PreviewKey::key_of(a) == PreviewKey::key_of(b) ==> {
            &&& a.page_index == b.page_index
            &&& a.x is Some && b.x is Some ==> near(
                a.x.unwrap().value(),
                b.x.unwrap().value(),
                53 as real / 100 as real,
            )
            &&& a.y_from_top is Some && b.y_from_top is Some ==> near(
                a.y_from_top.unwrap().value(),
                b.y_from_top.unwrap().value(),
                53 as real / 100 as real,
            )
        },
{
    if let Some(x) = a.x {
        lemma_bucket(x);
    }
    if let Some(x) = b.x {
        lemma_bucket(x);
    }
    if let Some(y) = a.y_from_top {
        lemma_bucket(y);
    }
    if let Some(y) = b.y_from_top {
        lemma_bucket(y);
    }
}

/// Numbers that have the same bytes are the same, where there are enough bytes for them.
proof fn lemma_bytes_tell_apart(a: nat, b: nat, count: nat)
    requires
        a < pow(256, count),
        b < pow(256, count),
        low_bytes(a, count) == low_bytes(b, count),
    ensures
        a == b,
    decreases count,
{
    reveal(pow);
    if count > 0 {
        let fewer = (count - 1) as nat;
        let of_a = low_bytes(a, count);
        let of_b = low_bytes(b, count);
        assert(pow(256, count) == 256 * pow(256, fewer));
        assert(of_a[0] == (a % 256) as u8);
        assert(of_b[0] == (b % 256) as u8);
        assert(of_a.drop_first() =~= low_bytes(a / 256, fewer));
        assert(of_b.drop_first() =~= low_bytes(b / 256, fewer));
        lemma_bytes_tell_apart(a / 256, b / 256, fewer);
    }
}

/// There are as many bytes as are asked for.
proof fn lemma_byte_count(value: nat, count: nat)
    ensures
        low_bytes(value, count).len() == count,
    decreases count,
{
    if count > 0 {
        lemma_byte_count(value / 256, (count - 1) as nat);
    }
}

/// A number has enough bytes in memory.
proof fn lemma_words_fit()
    ensures
        usize::MAX < pow(256, (usize::BITS / 8) as nat),
{
    reveal_with_fuel(pow, 10);
    assert(usize::BITS == 32 || usize::BITS == 64);
    assert(pow(256, 4) == 0x1_0000_0000);
    assert(pow(256, 8) == 0x1_0000_0000_0000_0000);
}

/// Numbers that have the same bytes in memory are the same.
proof fn lemma_words_tell_apart(a: usize, b: usize, lowest_first: bool)
    requires
        word_bytes(a, lowest_first) == word_bytes(b, lowest_first),
    ensures
        a == b,
{
    let width = (usize::BITS / 8) as nat;
    lemma_words_fit();
    let of_a = low_bytes(a as nat, width);
    let of_b = low_bytes(b as nat, width);
    lemma_byte_count(a as nat, width);
    lemma_byte_count(b as nat, width);
    if !lowest_first {
        assert forall|i: int| 0 <= i < width implies #[trigger] of_a[i] == of_b[i] by {
            assert(of_a.reverse()[width - 1 - i] == of_b.reverse()[width - 1 - i]);
        }
        assert(of_a =~= of_b);
    }
    lemma_bytes_tell_apart(a as nat, b as nat, width);
}

/// What a picture is named by tells its page and its size: no two pictures are named by the same.
pub proof fn law_labels_tell_pictures_apart(
    page: usize,
    pixel_size: [usize; 2],
    other_page: usize,
    other_size: [usize; 2],
    lowest_first: bool,
)
    requires
        cache_label(page, pixel_size, lowest_first) == cache_label(
            other_page,
            other_size,
            lowest_first,
        ),
    ensures
        page == other_page,
        pixel_size[0] == other_size[0],
        pixel_size[1] == other_size[1],
{
    let a = cache_label(page, pixel_size, lowest_first);
    let b = cache_label(other_page, other_size, lowest_first);
    let width = (usize::BITS / 8) as nat;
    assert(a[0] == word_bytes(page, lowest_first));
    assert(b[0] == word_bytes(other_page, lowest_first));
    lemma_words_tell_apart(page, other_page, lowest_first);
    lemma_byte_count(pixel_size[0] as nat, width);
    lemma_byte_count(other_size[0] as nat, width);
    let left = word_bytes(pixel_size[0], lowest_first);
    let right = word_bytes(pixel_size[1], lowest_first);
    let other_left = word_bytes(other_size[0], lowest_first);
    let other_right = word_bytes(other_size[1], lowest_first);
    assert(a[2] == left + right);
    assert(b[2] == other_left + other_right);
    assert((left + right).take(left.len() as int) =~= left);
    assert((other_left + other_right).take(left.len() as int) =~= other_left);
    assert((left + right).skip(left.len() as int) =~= right);
    assert((other_left + other_right).skip(left.len() as int) =~= other_right);
    lemma_words_tell_apart(pixel_size[0], other_size[0], lowest_first);
    lemma_words_tell_apart(pixel_size[1], other_size[1], lowest_first);
}

/// The page that is reported as missing is missing, and all before it are there.
pub proof fn law_first_missing_page_is_named(sizes: Seq<Option<[Real64; 2]>>)
    ensures
        0 <= first_missing(sizes) <= sizes.len(),
        first_missing(sizes) < sizes.len() ==> sizes[first_missing(sizes)] is None,
        forall|i: int| 0 <= i < first_missing(sizes) ==> #[trigger] sizes[i] is Some,
    decreases sizes.len(),
{
    if sizes.len() > 0 && sizes.first() is Some {
        let rest = sizes.drop_first();
        law_first_missing_page_is_named(rest);
        let k = first_missing(sizes);
        if k < sizes.len() {
            assert(sizes[k] == rest[k - 1]);
        }
        assert forall|i: int| 0 <= i < k implies #[trigger] sizes[i] is Some by {
            if i > 0 {
                assert(sizes[i] == rest[i - 1]);
            }
        }
    }
}

/// A document has the pages that are reported, and none where fewer than one are.
pub proof fn law_reported_pages_are_counted(n_pages: i32)
    ensures
        n_pages >= 0 ==> pages_reported(n_pages) == n_pages,
        n_pages < 0 ==> pages_reported(n_pages) == 0,
{
}

/// Places are equal where they are on one page and each coordinate is given for both or for neither,
/// with equal numbers; links lead alike where their places or their addresses are equal.
pub proof fn law_equal_links_lead_alike(a: Destination, b: Destination, uri: String, other: String)
    requires
        a.x matches Some(x) ==> x.is_finite(),
        b.x matches Some(x) ==> x.is_finite(),
        a.y_from_top matches Some(y) ==> y.is_finite(),
        b.y_from_top matches Some(y) ==> y.is_finite(),
    ensures
        a.same(b) <==> {
            &&& a.page_index == b.page_index
            &&& a.x is Some == b.x is Some
            &&& a.y_from_top is Some == b.y_from_top is Some
            &&& a.x is Some ==> a.x.unwrap().value() == b.x.unwrap().value()
            &&& a.y_from_top is Some ==> a.y_from_top.unwrap().value()
                == b.y_from_top.unwrap().value()
        },
        LinkTarget::Internal(a).same(LinkTarget::Internal(b)) == a.same(b),
        LinkTarget::Uri(uri).same(LinkTarget::Uri(other)) == (uri@ == other@),
        !LinkTarget::Internal(a).same(LinkTarget::Uri(uri)),
        !LinkTarget::Uri(uri).same(LinkTarget::Internal(a)),
{
    if a.x is Some && b.x is Some {
        lemma_order(a.x.unwrap(), b.x.unwrap());
        lemma_order(b.x.unwrap(), a.x.unwrap());
    }
    if a.y_from_top is Some && b.y_from_top is Some {
        lemma_order(a.y_from_top.unwrap(), b.y_from_top.unwrap());
        lemma_order(b.y_from_top.unwrap(), a.y_from_top.unwrap());
    }
}

/// Links are equal where they cover the same area and lead alike.
pub proof fn law_equal_links_cover_alike(a: LinkRegion, b: LinkRegion)
    ensures
        a.same(b) <==> a.rect.same(b.rect) && a.target.same(b.target),
{
}

} // verus!
