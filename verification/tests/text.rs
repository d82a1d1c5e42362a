use simple_pdf_viewer::text::compact_text;
use simple_pdf_viewer::text::decimal;
use simple_pdf_viewer::text::is_blank;
use simple_pdf_viewer::text::is_white_space;
use simple_pdf_viewer::text::parse_number;

#[test]
fn compact_text_collapses_whitespace_and_truncates() {
    assert_eq!(compact_text("a\n  b c", 20), "a b c");
    assert_eq!(compact_text("abcdefgh", 4), "abcd…");
}

#[test]
fn compact_text_keeps_what_fits_exactly() {
    assert_eq!(compact_text("  abcd  ", 4), "abcd");
    assert_eq!(compact_text(" \t\n ", 4), "");
    assert_eq!(compact_text("ab cd", 3), "ab …");
    assert_eq!(compact_text("x", 0), "…");
    assert_eq!(compact_text("\u{a0}ä\u{2003}ö", 9), "ä ö");
}

#[test]
fn white_space_is_that_of_unicode() {
    for code in 0..=0x10_ffff_u32 {
        if let Some(c) = char::from_u32(code) {
            assert_eq!(is_white_space(c), c.is_whitespace(), "{code:x}");
        }
    }
}

#[test]
fn numbers_are_read_as_they_are_typed() {
    for text in [
        "7", " 12 ", "+3", "007", "0", "", " ", "+", "-1", "1 2", "x", "++1", "1.", "٣",
        "18446744073709551615", "18446744073709551616", "99999999999999999999999",
    ] {
        assert_eq!(parse_number(text), text.trim().parse::<usize>().ok(), "{text:?}");
    }
}

#[test]
fn written_numbers_are_read_back() {
    for n in [0, 1, 9, 10, 42, 100, 65_535, usize::MAX] {
        assert_eq!(decimal(n as u64), n.to_string());
        assert_eq!(parse_number(&decimal(n as u64)), Some(n));
    }
}

#[test]
fn blank_text_has_no_words() {
    assert!(is_blank(""));
    assert!(is_blank(" \n\u{3000}"));
    assert!(!is_blank(" a "));
}

#[test]
fn texts_are_trimmed_like_the_standard_library_does() {
    for text in ["", " ", "\t a b \n", "abc", "  ä\u{3000}", "\u{a0}x"] {
        assert_eq!(simple_pdf_viewer::text::trim_text(text), text.trim());
    }
}

#[test]
fn integers_are_written_with_their_sign() {
    for n in [0, 7, -1, -20, i32::MAX, i32::MIN] {
        assert_eq!(simple_pdf_viewer::text::signed_decimal(n), n.to_string());
    }
    assert_eq!(decimal(u64::MAX), u64::MAX.to_string());
}
