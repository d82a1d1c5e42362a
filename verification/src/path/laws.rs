//! What is promised of file paths.

use crate::path::extension;
use crate::path::final_component;
use crate::path::last_dot;
use crate::path::names_pdf;
use crate::path::part_start;
use crate::path::sidecar_of;
use vstd::prelude::*;
use vstd::utf8::encode_utf8;

verus! {

/// Whether bytes can be the name of a file: there are some, there is no separator among them, and
/// they are neither `.` nor `..`.
pub open spec fn is_name(name: Seq<u8>) -> bool {
    &&& name.len() > 0
    &&& !name.contains(47)
    &&& name != seq![46u8]
    &&& name != seq![46u8, 46u8]
}

/// What stands behind a separator is the last part.
proof fn lemma_part_behind(folder: Seq<u8>, name: Seq<u8>)
    requires
        folder.len() == 0 || folder.last() == 47,
        !name.contains(47),
    ensures
        part_start(folder + name) == folder.len(),
    decreases name.len(),
{
    let whole = folder + name;
    if name.len() == 0 {
        assert(whole =~= folder);
    } else {
        assert(name.contains(name[name.len() - 1]));
        let shorter = name.drop_last();
        assert(!shorter.contains(47)) by {
            if shorter.contains(47) {
                let j = choose|j: int| 0 <= j < shorter.len() && shorter[j] == 47;
                assert(name[j] == 47);
            }
        }
        lemma_part_behind(folder, shorter);
        assert(whole.drop_last() =~= folder + shorter);
    }
}

/// A file in a folder goes by its name, as a file without a folder does; separators at the end do
/// not matter, and a name is one whole.
pub proof fn law_files_go_by_their_names(folder: Seq<u8>, name: Seq<u8>, path: Seq<u8>)
    requires
        is_name(name),
    ensures
        final_component(folder.push(47) + name) == Some(name),
        final_component(name) == Some(name),
        final_component(path.push(47)) == final_component(path),
        final_component(path) matches Some(found) ==> is_name(found),
{
    let whole = folder.push(47) + name;
    lemma_part_behind(folder.push(47), name);
    assert(whole.skip(folder.len() as int + 1) =~= name);
    assert(whole.last() == name[name.len() - 1]);
    assert(name.contains(name[name.len() - 1]));
    lemma_part_behind(Seq::empty(), name);
    assert(Seq::<u8>::empty() + name =~= name);
    assert(name.skip(0) =~= name);
    assert(path.push(47).drop_last() =~= path);
    lemma_found_is_name(path);
}

/// What is found is a name.
proof fn lemma_found_is_name(path: Seq<u8>)
    ensures
        final_component(path) matches Some(found) ==> is_name(found),
    decreases path.len(),
{
    if path.len() > 0 {
        lemma_found_is_name(path.drop_last());
        if path.last() != 47 {
            lemma_no_separator(path);
        }
    }
}

/// The last part has no separator and ends where the path does.
proof fn lemma_no_separator(path: Seq<u8>)
    ensures
        0 <= part_start(path) <= path.len(),
        !path.skip(part_start(path)).contains(47),
        path.len() > 0 && path.last() != 47 ==> part_start(path) < path.len(),
    decreases path.len(),
{
    if path.len() > 0 && path.last() != 47 {
        let shorter = path.drop_last();
        lemma_no_separator(shorter);
        let start = part_start(path);
        let part = path.skip(start);
        if part.contains(47) {
            let j = choose|j: int| 0 <= j < part.len() && part[j] == 47;
            assert(shorter.skip(start)[j] == 47);
            assert(shorter.skip(start).contains(47));
        }
    }
}

/// The folder itself and the folder above are no names of files.
pub proof fn law_folders_are_no_names(folder: Seq<u8>)
    ensures
        final_component(seq![46u8]) is None,
        final_component(seq![46u8, 46u8]) is None,
        final_component(folder.push(47) + seq![46u8, 46u8]) is None,
        final_component(folder.push(47) + seq![46u8]) == final_component(folder),
        final_component(Seq::empty()) is None,
{
    let here = seq![46u8];
    let above = seq![46u8, 46u8];
    assert(!here.contains(47));
    assert(!above.contains(47));
    lemma_part_behind(Seq::empty(), here);
    lemma_part_behind(Seq::empty(), above);
    lemma_part_behind(folder.push(47), here);
    lemma_part_behind(folder.push(47), above);
    assert(Seq::<u8>::empty() + here =~= here);
    assert(Seq::<u8>::empty() + above =~= above);
    assert(here.skip(0) =~= here);
    assert(above.skip(0) =~= above);
    assert(above != here) by {
        assert(above.len() == 2 && here.len() == 1);
    }
    let whole = folder.push(47) + here;
    let higher = folder.push(47) + above;
    assert(whole.skip(folder.len() as int + 1) =~= here);
    assert(higher.skip(folder.len() as int + 1) =~= above);
    assert(whole.last() == 46 && higher.last() == 46);
    assert(whole.drop_last() =~= folder.push(47));
    assert(folder.push(47).drop_last() =~= folder);
    assert(final_component(folder.push(47)) == final_component(folder));
}

/// The last dot is the one that no other follows.
proof fn lemma_last_dot(stem: Seq<u8>, ending: Seq<u8>)
    requires
        !ending.contains(46),
    ensures
        last_dot(stem.push(46) + ending) == stem.len(),
        last_dot(ending) == -1,
    decreases ending.len(),
{
    let whole = stem.push(46) + ending;
    if ending.len() == 0 {
        assert(whole =~= stem.push(46));
    } else {
        assert(ending.contains(ending[ending.len() - 1]));
        let shorter = ending.drop_last();
        assert(!shorter.contains(46)) by {
            if shorter.contains(46) {
                let j = choose|j: int| 0 <= j < shorter.len() && shorter[j] == 46;
                assert(ending[j] == 46);
            }
        }
        lemma_last_dot(stem, shorter);
        assert(whole.drop_last() =~= stem.push(46) + shorter);
    }
}

/// What stands behind the last dot of a name is its extension, where something stands before the
/// dot; a name without a dot has none.
pub proof fn law_extensions_stand_behind_the_last_dot(stem: Seq<u8>, ending: Seq<u8>)
    requires
        !ending.contains(46),
    ensures
        stem.len() > 0 ==> extension(stem.push(46) + ending) == Some(ending),
        extension(seq![46u8] + ending) is None,
        extension(ending) is None,
{
    lemma_last_dot(stem, ending);
    lemma_last_dot(Seq::empty(), ending);
    assert(Seq::<u8>::empty().push(46) =~= seq![46u8]);
    assert((stem.push(46) + ending).skip(stem.len() as int + 1) =~= ending);
}

/// Documents are told by the extension `pdf`, in large or small letters.
pub proof fn law_documents_are_told_by_their_extension(
    folder: Seq<u8>,
    stem: Seq<u8>,
    ending: Seq<u8>,
)
    requires
        stem.len() > 0,
        !stem.contains(47),
        !ending.contains(46),
        !ending.contains(47),
        ending.len() > 0,
    ensures
        names_pdf(folder.push(47) + (stem.push(46) + ending)) <==> ending.len() == 3 && (ending[0]
            == 'p' as u8 || ending[0] == 'P' as u8) && (ending[1] == 'd' as u8 || ending[1]
            == 'D' as u8) && (ending[2] == 'f' as u8 || ending[2] == 'F' as u8),
{
    let name = stem.push(46) + ending;
    assert(!name.contains(47)) by {
        if name.contains(47) {
            let j = choose|j: int| 0 <= j < name.len() && name[j] == 47;
            if j < stem.len() {
                assert(stem[j] == 47);
            } else if j > stem.len() {
                assert(ending[j - stem.len() - 1] == 47);
            }
        }
    }
    assert(name.len() >= 3);
    assert(name != seq![46u8]) by {
        assert(seq![46u8].len() == 1);
    }
    assert(name != seq![46u8, 46u8]) by {
        assert(seq![46u8, 46u8].len() == 2);
    }
    law_files_go_by_their_names(folder, name, name);
    law_extensions_stand_behind_the_last_dot(stem, ending);
    let lowered = ending.map_values(|byte: u8| crate::path::lower_case(byte));
    let wanted = seq![112u8, 100u8, 102u8];
    assert(wanted.len() == 3 && wanted[0] == 112 && wanted[1] == 100 && wanted[2] == 102);
    assert('p' as u8 == 112 && 'd' as u8 == 100 && 'f' as u8 == 102);
    assert('P' as u8 == 80 && 'D' as u8 == 68 && 'F' as u8 == 70);
    if ending.len() == 3 {
        assert(lowered[0] == crate::path::lower_case(ending[0]));
        assert(lowered[1] == crate::path::lower_case(ending[1]));
        assert(lowered[2] == crate::path::lower_case(ending[2]));
        if lowered[0] == 112 && lowered[1] == 100 && lowered[2] == 102 {
            assert(lowered =~= wanted);
        }
    }
    assert(lowered.len() == ending.len());
}

/// The notes on a document are kept beside it: under its own path with `.spv.json` behind it.
pub proof fn law_notes_are_kept_beside_the_document(path: Seq<u8>)
    ensures
        sidecar_of(path).len() == path.len() + 9,
        sidecar_of(path).take(path.len() as int) == path,
        sidecar_of(path).skip(path.len() as int) == seq![
            '.' as u8,
            's' as u8,
            'p' as u8,
            'v' as u8,
            '.' as u8,
            'j' as u8,
            's' as u8,
            'o' as u8,
            'n' as u8,
        ],
{
    let suffix = ".spv.json"@;
    reveal_strlit(".spv.json");
    vstd::utf8::is_ascii_chars_encode_utf8(suffix);
    assert(encode_utf8(suffix) =~= seq![46u8, 115, 112, 118, 46, 106, 115, 111, 110]);
    assert(sidecar_of(path).take(path.len() as int) =~= path);
    assert(sidecar_of(path).skip(path.len() as int) =~= encode_utf8(suffix));
}

} // verus!
