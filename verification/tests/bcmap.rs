use docsy::bcmap::{
    add_big_endian_wrap, compose_encoding_and_unicode, encode_number, merge_tounicode_cmaps,
    parse_binary_encoding_cmap, parse_binary_tounicode_cmap, resolve_encoding, BinaryCMapStream,
};
use docsy::cmap::{CodeSpaceRange, ToUnicodeCMap};
use docsy::cmap_text::CMapError;

fn tounicode_fixture() -> Vec<u8> {
    vec![
        0x00, // header
        0x01, 0x01, 0x00, 0x00, 0x83, 0xFF, 0x7F, // codespace 0000-FFFF
        0x81, 0x02, 0x00, 0x41, 0x00, 0x41, 0x00, 0x00, // bfchar 41->A, 42->B
        0xA1, 0x01, 0x00, 0x61, 0x02, 0x4E, 0x00, // bfrange 61..63 -> 4E00..
    ]
}

#[test]
fn binary_tounicode_decodes_chars_and_ranges() {
    let parsed = parse_binary_tounicode_cmap(&tounicode_fixture()).unwrap();
    assert!(parsed.use_cmap.is_none());
    let cmap = parsed.cmap;
    assert_eq!(cmap.mapping_count(), 5);
    assert_eq!(cmap.code_space_count(), 1);
    assert_eq!(cmap.decode(&[0x00, 0x41, 0x00, 0x62]).as_deref(), Some("A丁"));
    assert_eq!(cmap.decode(&[0x00, 0x42, 0x00, 0x63]).as_deref(), Some("B丂"));
    assert_eq!(cmap.decode(&[0x00, 0x43]), None);
}

#[test]
fn binary_tounicode_errors() {
    assert_eq!(parse_binary_tounicode_cmap(&[]).err(), Some(CMapError::MissingHeader));
    assert_eq!(parse_binary_tounicode_cmap(&[0x00, 0x01]).err(), Some(CMapError::UnexpectedEnd));
    assert_eq!(parse_binary_tounicode_cmap(&[0x00, 0x41, 0x00]).err(), Some(CMapError::UnsupportedItemType));
    // a bfchar destination that is not UTF-16
    assert_eq!(
        parse_binary_tounicode_cmap(&[0x00, 0x81, 0x01, 0x00, 0x41, 0xD8, 0x00]).err(),
        Some(CMapError::InvalidBinaryUnicode)
    );
}

#[test]
fn binary_tounicode_without_codespace_uses_two_byte_codes_and_names_base() {
    // usecmap "AB", then one bfchar
    let data = vec![0x00, 0xE1, 0x02, 0x41, 0x42, 0x81, 0x01, 0x00, 0x41, 0x00, 0x41];
    let parsed = parse_binary_tounicode_cmap(&data).unwrap();
    assert_eq!(parsed.use_cmap.as_deref(), Some("AB"));
    assert_eq!(parsed.cmap.code_space_count(), 1);
    assert_eq!(parsed.cmap.decode(&[0x00, 0x41]).as_deref(), Some("A"));
}

#[test]
fn merged_overlay_wins() {
    let base = parse_binary_tounicode_cmap(&tounicode_fixture()).unwrap().cmap;
    let overlay = ToUnicodeCMap::from_parts(
        vec![CodeSpaceRange { start: vec![0x00, 0x00], end: vec![0xFF, 0xFF] }],
        vec![(vec![0x00, 0x41], "Z".to_string())],
    );
    let merged = merge_tounicode_cmaps(base, overlay);
    assert_eq!(merged.decode(&[0x00, 0x41, 0x00, 0x42]).as_deref(), Some("ZB"));
    assert_eq!(merged.code_space_count(), 2);
}

fn encoding_fixture() -> Vec<u8> {
    vec![0x00, 0x40, 0x02, 0x41, 0x05, 0x00, 0x00, 0x60, 0x01, 0x50, 0x02, 0x0A]
}

#[test]
fn binary_encoding_maps_codes_to_cids() {
    let parsed = parse_binary_encoding_cmap(&encoding_fixture()).unwrap();
    let enc = parsed.cmap;
    assert_eq!(enc.code_byte_length(), 1);
    assert_eq!(enc.mapping_count(), 5);
    assert_eq!(enc.cid_of(&[0x41]), Some(vec![0x00, 0x05]));
    assert_eq!(enc.cid_of(&[0x42]), Some(vec![0x00, 0x06]));
    assert_eq!(enc.cid_of(&[0x52]), Some(vec![0x00, 0x0C]));
    assert_eq!(enc.cid_of(&[0x53]), None);
}

#[test]
fn empty_encoding_is_refused_without_base() {
    let parsed = parse_binary_encoding_cmap(&[0x00]).unwrap();
    assert_eq!(resolve_encoding(parsed, None).err(), Some(CMapError::EmptyEncoding));
    let parsed = parse_binary_encoding_cmap(&encoding_fixture()).unwrap();
    assert!(resolve_encoding(parsed, None).is_ok());
    assert_eq!(
        parse_binary_encoding_cmap(&[0x00, 0x40, 0x01, 0x41, 0x84, 0x80, 0x00]).err(),
        Some(CMapError::CidOutOfRange)
    );
}

#[test]
fn composed_map_decodes_codes_through_cids() {
    let enc = parse_binary_encoding_cmap(&encoding_fixture()).unwrap().cmap;
    let cid_to_unicode = ToUnicodeCMap::from_parts(
        vec![CodeSpaceRange { start: vec![0x00, 0x00], end: vec![0xFF, 0xFF] }],
        vec![
            (vec![0x00, 0x05], "甲".to_string()),
            (vec![0x00, 0x06], "乙".to_string()),
            (vec![0x00, 0x0A], "丙".to_string()),
            (vec![0x00, 0x0B], "丁".to_string()),
            (vec![0x00, 0x0C], "戊".to_string()),
        ],
    );
    let composed = compose_encoding_and_unicode(&enc, &cid_to_unicode).unwrap();
    assert_eq!(composed.decode(&[0x41, 0x42, 0x51]).as_deref(), Some("甲乙丁"));
    let partial = ToUnicodeCMap::from_parts(
        vec![CodeSpaceRange { start: vec![0x00, 0x00], end: vec![0xFF, 0xFF] }],
        vec![(vec![0x00, 0x05], "甲".to_string())],
    );
    assert!(compose_encoding_and_unicode(&enc, &partial).is_none());
}

#[test]
fn fixed_width_arithmetic() {
    let mut a = vec![0x00, 0xFF];
    add_big_endian_wrap(&mut a, &[0x00, 0x01]);
    assert_eq!(a, vec![0x01, 0x00]);
    let mut b = vec![0xFF, 0xFF];
    add_big_endian_wrap(&mut b, &[0x00, 0x02]);
    assert_eq!(b, vec![0x00, 0x01]);
    let mut c = vec![0x01];
    add_big_endian_wrap(&mut c, &[0x00, 0x02]);
    assert_eq!(c, vec![0x01]);
    assert_eq!(encode_number(0x1234, 2), vec![0x12, 0x34]);
    assert_eq!(encode_number(0x12345, 2), vec![0x23, 0x45]);
}

#[test]
fn stream_readers() {
    let data = [0x83, 0xFF, 0x7F, 0x03, 0x05, 0x02, 0x41, 0x42];
    let mut s = BinaryCMapStream::new(&data);
    assert_eq!(s.read_number(), Ok(65535));
    assert_eq!(s.read_signed(), Ok(-2));
    assert_eq!(s.read_hex_signed(0), Ok(vec![0xFD]));
    assert_eq!(s.read_string(), Ok("AB".to_string()));
    assert_eq!(s.read_number(), Err(CMapError::UnexpectedEnd));
    let mut t = BinaryCMapStream::new(&[0x81, 0x00]);
    assert_eq!(t.read_hex_number(0), Ok(vec![0x80]));
    assert_eq!(t.read_byte(), None);
}
