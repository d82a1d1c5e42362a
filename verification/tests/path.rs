use std::path::Path;

use simple_pdf_viewer::path::append_suffix;
use simple_pdf_viewer::path::file_name;
use simple_pdf_viewer::path::final_name;
use simple_pdf_viewer::path::has_pdf_extension;
use simple_pdf_viewer::path::path_text;
use simple_pdf_viewer::path::sidecar_path;

const PATHS: [&str; 27] = [
    "", "/", ".", "..", "a", "a.pdf", "a.PDF", "a.Pdf", "/a/b.pdf", "/a/b.pdf/", "a/..", "a/.",
    "a/./", "./a.pdf", "/..", "//", ".pdf", "a/.pdf", "x..pdf", "x.pdf.", "x.pdfx", "x.pdf.txt",
    "a b.pdf", "/tmp/ä.pdf", "..pdf", "a/b/../c.pdf", "a//b.pdf//",
];

#[test]
fn extensions_are_those_of_the_standard_library() {
    for text in PATHS {
        let expected = Path::new(text)
            .extension()
            .and_then(|extension| extension.to_str())
            .is_some_and(|extension| extension.eq_ignore_ascii_case("pdf"));
        assert_eq!(has_pdf_extension(text.as_bytes()), expected, "{text}");
    }
}

#[test]
fn names_are_those_of_the_standard_library() {
    for text in PATHS {
        let expected = Path::new(text)
            .file_name()
            .map(|name| name.to_string_lossy().into_owned());
        assert_eq!(final_name(text.as_bytes()), expected, "{text}");
        let shown = expected.unwrap_or_else(|| Path::new(text).display().to_string());
        assert_eq!(file_name(text.as_bytes()), shown, "{text}");
        assert_eq!(path_text(text.as_bytes()), text);
    }
}

#[test]
fn names_that_are_not_text_are_shown_as_far_as_they_are() {
    assert_eq!(path_text(b"a\xffb"), "a\u{fffd}b");
    assert_eq!(file_name(b"/x/a\xff.pdf"), "a\u{fffd}.pdf");
    assert!(has_pdf_extension(b"\xff.pdf"));
    assert!(!has_pdf_extension(b"a.pd\xff"));
}

#[test]
fn the_sidecar_is_beside_the_document() {
    assert_eq!(sidecar_path(b"/a/b.pdf"), b"/a/b.pdf.spv.json");
    assert_eq!(append_suffix(b"x", ".bak"), b"x.bak");
    assert_eq!(append_suffix(b"", ""), b"");
}
