use docsy::pdf_strings::{content_object_text, decode_legacy_cjk_pdf_string, decode_pdf_string, is_cjk_character};

#[test]
fn decodes_pdf_doc_encoded_content_strings() {
    let text = content_object_text(b"Header \x8dQuoted\x8e").unwrap();
    assert_eq!(text, "Header “Quoted”");
}

#[test]
fn utf16_strings_with_a_mark_decode() {
    assert_eq!(decode_pdf_string(b"\xFE\xFF\x4E\x2D\x00\x41").as_deref(), Some("中A"));
    assert_eq!(decode_pdf_string(b"\xFE\xFF\x4E\x2D\x00").as_deref(), Some("中"));
    assert_eq!(decode_pdf_string(b"\xFE\xFF\xD8\x00"), None);
    assert_eq!(content_object_text(b"\xFE\xFF\x00\x31").as_deref(), Some("1"));
}

#[test]
fn utf8_then_legacy_cjk() {
    assert_eq!(decode_pdf_string("证据一".as_bytes()).as_deref(), Some("证据一"));
    assert_eq!(decode_pdf_string(b"\xd6\xa4\xbe\xdd").as_deref(), Some("证据"));
    assert_eq!(decode_legacy_cjk_pdf_string(b"\xd6\xa4\xbe\xdd").as_deref(), Some("证据"));
    assert_eq!(decode_legacy_cjk_pdf_string(b"plain"), None);
    assert_eq!(decode_pdf_string(b"plain").as_deref(), Some("plain"));
}

#[test]
fn cjk_ranges() {
    assert!(is_cjk_character('证'));
    assert!(is_cjk_character('か'));
    assert!(is_cjk_character('한'));
    assert!(!is_cjk_character('A'));
    assert!(!is_cjk_character('“'));
}
