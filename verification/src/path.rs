//! File paths as bytes.

pub mod laws;

use vstd::prelude::*;
use vstd::utf8::decode_utf8;
use vstd::utf8::encode_utf8;
use vstd::utf8::valid_utf8;

verus! {

/// The text that `String::from_utf8_lossy` makes of bytes.
pub uninterp spec fn lossy_text(bytes: Seq<u8>) -> Seq<char>;

/// Decodes bytes for display: `std::string::String::from_utf8_lossy` is a function of the
/// bytes, and where they are valid UTF-8 it gives the text that they encode. What it puts in
/// the place of other bytes is not stated.
#[verifier::external_body]
fn decode_lossy(bytes: &[u8]) -> (r: String)
    ensures
        r@ == lossy_text(bytes@),
        valid_utf8(bytes@) ==> r@ == decode_utf8(bytes@),
{
    String::from_utf8_lossy(bytes).into_owned()
}

/// A path with more text at its end.
pub open spec fn with_suffix(path: Seq<u8>, suffix: Seq<char>) -> Seq<u8> {
    path + encode_utf8(suffix)
}

/// The path with a suffix.
pub fn append_suffix(path: &[u8], suffix: &str) -> (r: Vec<u8>)
    ensures
        r@ == with_suffix(path@, suffix@),
{
    let mut name: Vec<u8> = Vec::new();
    name.extend_from_slice(path);
    name.extend_from_slice(suffix.as_bytes());
    assert(name@ =~= with_suffix(path@, suffix@));
    name
}

/// Where the notes on a document are kept.
pub open spec fn sidecar_of(pdf_path: Seq<u8>) -> Seq<u8> {
    with_suffix(pdf_path, ".spv.json"@)
}

/// Where the notes on a document are kept: beside it, under its whole name and more.
pub fn sidecar_path(pdf_path: &[u8]) -> (r: Vec<u8>)
    ensures
        r@ == sidecar_of(pdf_path@),
{
    append_suffix(pdf_path, ".spv.json")
}

/// A nonempty suffix makes another path.
pub proof fn lemma_suffix_changes_path(path: Seq<u8>, suffix: Seq<char>)
    requires
        vstd::utf8::is_ascii_chars(suffix),
        suffix.len() > 0,
    ensures
        with_suffix(path, suffix).len() > path.len(),
        with_suffix(path, suffix) != path,
{
    vstd::utf8::is_ascii_chars_encode_utf8(suffix);
}

/// Where the last part of a path that does not end in a separator begins.
pub open spec fn part_start(path: Seq<u8>) -> int
    decreases path.len(),
{
    if path.len() == 0 || path.last() == 47 {
        path.len() as int
    } else {
        part_start(path.drop_last())
    }
}

/// The last component of a path if it is a name: separators at the end and parts `.` are
/// passed over, and neither a leading `.` nor `..` is a name.
pub open spec fn final_component(path: Seq<u8>) -> Option<Seq<u8>>
    decreases path.len(),
{
    if path.len() == 0 {
        None
    } else if path.last() == 47 {
        final_component(path.drop_last())
    } else {
        let start = part_start(path);
        let part = path.skip(start);
        if part == seq![46u8] && start > 0 {
            final_component(path.drop_last())
        } else if part == seq![46u8] || part == seq![46u8, 46u8] {
            None
        } else {
            Some(part)
        }
    }
}

/// Where the last component lies.
fn component_range(path: &[u8]) -> (r: Option<(usize, usize)>)
    ensures
        match r {
            Some((start, end)) => start <= end <= path@.len() && final_component(path@) == Some(
                path@.subrange(start as int, end as int),
            ),
            None => final_component(path@) is None,
        },
{
    let mut end: usize = path.len();
    proof {
        assert(path@.take(path@.len() as int) == path@);
    }
    while end > 0
        invariant
            end <= path@.len(),
            final_component(path@.take(end as int)) == final_component(path@),
        decreases end,
    {
        let ghost rest = path@.take(end as int);
        proof {
            assert(rest.drop_last() == path@.take(end - 1));
        }
        if path[end - 1] == 47 {
            end = end - 1;
            continue ;
        }
        let mut start: usize = end;
        while start > 0 && path[start - 1] != 47
            invariant
                start <= end <= path@.len(),
                part_start(path@.take(start as int)) == part_start(path@.take(end as int)),
            decreases start,
        {
            proof {
                assert(path@.take(start as int).drop_last() == path@.take(start - 1));
            }
            start = start - 1;
        }
        let ghost part = rest.skip(start as int);
        proof {
            assert(part_start(rest) == start);
            assert(part == path@.subrange(start as int, end as int));
        }
        if end - start == 1 && path[start] == 46 {
            proof {
                assert(part == seq![46u8]);
            }
            if start == 0 {
                return None;
            }
            end = end - 1;
            continue ;
        }
        proof {
            if part == seq![46u8] {
                assert(part.len() == 1 && part[0] == 46u8);
                assert(false);
            }
        }
        if end - start == 2 && path[start] == 46 && path[start + 1] == 46 {
            proof {
                assert(part == seq![46u8, 46u8]);
            }
            return None;
        }
        proof {
            if part == seq![46u8, 46u8] {
                assert(part.len() == 2 && part[0] == 46u8 && part[1] == 46u8);
                assert(false);
            }
        }
        return Some((start, end));
    }
    None
}

/// The bytes that name a file for display: its last component, or the whole path without one.
pub open spec fn display_name(path: Seq<u8>) -> Seq<u8> {
    match final_component(path) {
        Some(name) => name,
        None => path,
    }
}

/// The bytes that name a file for display.
pub fn display_bytes(path: &[u8]) -> (r: Vec<u8>)
    ensures
        r@ == display_name(path@),
{
    let (start, end): (usize, usize) = match component_range(path) {
        Some(range) => range,
        None => (0, path.len()),
    };
    let name: &[u8] = vstd::slice::slice_subrange(path, start, end);
    let mut bytes: Vec<u8> = Vec::new();
    bytes.extend_from_slice(name);
    assert(path@.subrange(0, path@.len() as int) == path@);
    assert(bytes@ =~= name@);
    bytes
}

/// The last component of a path, as text.
pub fn final_name(path: &[u8]) -> (r: Option<String>)
    ensures
        r is Some == final_component(path@) is Some,
        r matches Some(name) ==> name@ == lossy_text(final_component(path@).unwrap()),
        r matches Some(name) ==> valid_utf8(final_component(path@).unwrap()) ==> name@
            == decode_utf8(final_component(path@).unwrap()),
{
    match component_range(path) {
        Some((start, end)) => Some(decode_lossy(vstd::slice::slice_subrange(path, start, end))),
        None => None,
    }
}

/// The name of a file for display.
pub fn file_name(path: &[u8]) -> (r: String)
    ensures
        r@ == lossy_text(display_name(path@)),
        valid_utf8(display_name(path@)) ==> r@ == decode_utf8(display_name(path@)),
{
    decode_lossy(display_bytes(path).as_slice())
}

/// A whole path for display.
pub fn path_text(path: &[u8]) -> (r: String)
    ensures
        r@ == lossy_text(path@),
        valid_utf8(path@) ==> r@ == decode_utf8(path@),
{
    decode_lossy(path)
}

/// Where the last dot of a name is, or -1.
pub open spec fn last_dot(name: Seq<u8>) -> int
    decreases name.len(),
{
    if name.len() == 0 || name.last() == 46 {
        name.len() - 1
    } else {
        last_dot(name.drop_last())
    }
}

/// What stands behind the last dot of a name; a dot at the beginning does not count.
pub open spec fn extension(name: Seq<u8>) -> Option<Seq<u8>> {
    if last_dot(name) > 0 {
        Some(name.skip(last_dot(name) + 1))
    } else {
        None
    }
}

/// An ASCII letter in lower case; any other byte as it is.
pub open spec fn lower_case(byte: u8) -> u8 {
    if 65 <= byte <= 90 {
        (byte + 32) as u8
    } else {
        byte
    }
}

/// Whether a path names a PDF file: the extension is `pdf` in upper or lower case letters.
pub open spec fn names_pdf(path: Seq<u8>) -> bool {
    match final_component(path) {
        Some(name) => match extension(name) {
            Some(ending) => ending.map_values(|byte: u8| lower_case(byte)) == seq![
                112u8,
                100u8,
                102u8,
            ],
            None => false,
        },
        None => false,
    }
}

/// Whether a byte is a letter, given in lower case, in either case.
fn is_letter(byte: u8, lower: u8) -> (r: bool)
    ensures
        r == (lower_case(byte) == lower),
{
    let folded: u8 = if 65 <= byte && byte <= 90 {
        byte + 32
    } else {
        byte
    };
    folded == lower
}

/// Whether a path names a PDF file.
pub fn has_pdf_extension(path: &[u8]) -> (r: bool)
    ensures
        r == names_pdf(path@),
{
    match component_range(path) {
        None => false,
        Some((start, end)) => {
            let name: &[u8] = vstd::slice::slice_subrange(path, start, end);
            let mut dot: usize = name.len();
            proof {
                assert(name@.take(name@.len() as int) == name@);
            }
            while dot > 0 && name[dot - 1] != 46
                invariant
                    dot <= name@.len(),
                    last_dot(name@.take(dot as int)) == last_dot(name@),
                decreases dot,
            {
                proof {
                    assert(name@.take(dot as int).drop_last() == name@.take(dot - 1));
                }
                dot = dot - 1;
            }
            proof {
                assert(last_dot(name@) == dot - 1);
            }
            if dot < 2 {
                return false;
            }
            let ghost ending = name@.skip(dot as int);
            let ghost lowered = ending.map_values(|byte: u8| lower_case(byte));
            let ghost wanted = seq![112u8, 100u8, 102u8];
            if name.len() - dot != 3 {
                proof {
                    assert(lowered.len() != wanted.len());
                }
                return false;
            }
            proof {
                assert(lowered[0] == lower_case(name@[dot as int]));
                assert(lowered[1] == lower_case(name@[dot + 1]));
                assert(lowered[2] == lower_case(name@[dot + 2]));
                assert(wanted[0] == 112 && wanted[1] == 100 && wanted[2] == 102);
            }
            let same: bool = is_letter(name[dot], 112) && is_letter(name[dot + 1], 100) && is_letter(
                name[dot + 2],
                102,
            );
            proof {
                if same {
                    assert(lowered =~= wanted);
                }
            }
            same
        },
    }
}

} // verus!
