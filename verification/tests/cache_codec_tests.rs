use woman::gzip::{decode_man_page, encode_man_page, man_page_text_from};

#[test]
fn test_gzip_round_trip() {
    let page = ".TH LS 1\n.SH 名称\nls \\- 列出目录内容\n";
    let bytes = encode_man_page(page).expect("compression into memory");
    assert_eq!(&bytes[..2], &[0x1f, 0x8b]);
    assert_ne!(bytes, page.as_bytes());
    assert_eq!(decode_man_page(&bytes), page);
}

#[test]
fn test_gzip_round_trip_empty() {
    let bytes = encode_man_page("").expect("compression into memory");
    assert_eq!(decode_man_page(&bytes), "");
}

#[test]
fn test_plain_text_fallback() {
    let page = ".TH FISH 1\n.SH NAME\nfish\n";
    assert_eq!(decode_man_page(page.as_bytes()), page);
}

#[test]
fn test_invalid_utf8_is_replaced() {
    assert_eq!(decode_man_page(&[b'a', 0xff, b'b']), "a\u{FFFD}b");
}

#[test]
fn test_man_page_text_from_decompressed_or_plain() {
    assert_eq!(man_page_text_from(b"ignored", Some(b"plain".to_vec())), "plain");
    assert_eq!(man_page_text_from(b"x\xffy", None), "x\u{FFFD}y");
}
