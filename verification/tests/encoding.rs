use docsy::encoding::{check_markdown_size, decode, EncodingError, MARKDOWN_LIMIT};

const TEXT: &str =
    "Français : café, cœur, e\u{301} — 日本語・かな・カナ — 한국어 한글 — 中文 😀 $x^2$";

#[test]
fn unicode_and_boms_preserve_every_character() {
    assert_eq!(decode(TEXT.as_bytes(), None).unwrap(), TEXT);
    let mut utf8 = vec![0xef, 0xbb, 0xbf];
    utf8.extend(TEXT.as_bytes());
    assert_eq!(decode(&utf8, None).unwrap(), TEXT);
    for (bom, little, label) in [([0xff, 0xfe], true, "utf-16le"), ([0xfe, 0xff], false, "utf-16be")] {
        let mut bytes = bom.to_vec();
        for unit in TEXT.encode_utf16() {
            bytes.extend(if little { unit.to_le_bytes() } else { unit.to_be_bytes() });
        }
        assert_eq!(decode(&bytes, None).unwrap(), TEXT);
        assert_eq!(decode(&bytes[2..], Some(label)).unwrap(), TEXT);
        assert!(decode(&bytes, Some("utf-8")).is_err());
    }
}

#[test]
fn strict_and_explicit_errors() {
    assert!(decode(&[0x82], Some("shift_jis")).is_err());
    assert_eq!(decode(&[0x41, 0, 0x42, 0], None), Err(EncodingError::ContainsNul));
    assert_eq!(decode(&[0xff, 0xfe, 0x00, 0xd8], None), Err(EncodingError::Malformed));
    assert_eq!(decode(&[0xff, 0xfe, 0x41], None), Err(EncodingError::Malformed));
    assert_eq!(decode(&[0xff, 0xfe, 0, 0], None), Err(EncodingError::Utf32));
    assert_eq!(decode(b"x", Some("latin-9")), Err(EncodingError::Unsupported("latin-9".to_string())));
    assert_eq!(
        decode(&[0xfe, 0xff, 0, 0x41], Some("utf-16le")),
        Err(EncodingError::BomMismatch("UTF-16BE".to_string()))
    );
    assert_eq!(decode(&[0xe9], Some("windows-1252")).unwrap(), "é");
    assert_eq!(decode(&[0xe9], None), Err(EncodingError::Malformed));
}

#[test]
fn size_limit() {
    assert!(check_markdown_size(MARKDOWN_LIMIT).is_ok());
    assert_eq!(check_markdown_size(MARKDOWN_LIMIT + 1), Err(EncodingError::TooLarge));
}

#[test]
fn legacy_encodings_are_explicit_and_strict() {
    for (label, encoding, text) in [
        (
            "windows-1252",
            encoding_rs::WINDOWS_1252,
            "Français : café, cœur, Noël — 20 €",
        ),
        (
            "shift_jis",
            encoding_rs::SHIFT_JIS,
            "日本語：ひらがな・カタカナ",
        ),
        ("euc-kr", encoding_rs::EUC_KR, "한국어 한글 문서"),
        ("gb18030", encoding_rs::GB18030, "中文简体 😀"),
        ("big5", encoding_rs::BIG5, "繁體中文"),
    ] {
        let (bytes, _, errors) = encoding.encode(text);
        assert!(!errors);
        assert_eq!(decode(&bytes, Some(label)).unwrap(), text);
        assert!(decode(&bytes, None).is_err(), "must not guess {label}");
    }
    assert!(decode(&[0x82], Some("shift_jis")).is_err());
    assert!(decode(&[0x41, 0, 0x42, 0], None).is_err());
    assert!(decode(&[0xff, 0xfe, 0x00, 0xd8], None).is_err());
    assert!(decode(&[0xff, 0xfe, 0x41], None).is_err());
    assert!(decode(&[0xff, 0xfe, 0, 0], None).is_err());
}
