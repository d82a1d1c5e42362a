use simple_pdf_viewer::fingerprint::hex_text;
use simple_pdf_viewer::fingerprint::Fingerprint;

#[test]
fn the_fingerprint_of_nothing_is_known() {
    assert_eq!(
        Fingerprint::new().finish(),
        "af1349b9f5f9a1a6a0404dea36dcc9499bcb25c9adc112b7cc9a93cae41f3262"
    );
}

#[test]
fn the_fingerprint_is_that_of_all_bytes() {
    let bytes: Vec<u8> = (0..200_000_u32).map(|i| (i % 251) as u8).collect();
    let expected = blake3::hash(&bytes).to_hex().to_string();
    let mut whole = Fingerprint::new();
    whole.update(&bytes);
    assert_eq!(whole.finish(), expected);
    let mut pieces = Fingerprint::new();
    for piece in bytes.chunks(4097) {
        pieces.update(piece);
    }
    assert_eq!(pieces.finish(), expected);
    pieces.update(b"more");
    assert_ne!(pieces.finish(), expected);
    assert_eq!(pieces.finish().len(), 64);
}

#[test]
fn bytes_are_written_in_small_hexadecimal_digits() {
    assert_eq!(hex_text(&[0x00, 0x9f, 0xa0, 0xff]), "009fa0ff");
    assert_eq!(hex_text(&[]), "");
}
