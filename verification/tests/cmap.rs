use docsy::cmap::{CodeSpaceRange, ToUnicodeCMap};
use docsy::cmap_text::CMapError;

#[test]
fn decodes_bfchar_and_bfrange() {
    let cmap = ToUnicodeCMap::parse(
        br#"
            1 begincodespacerange
            <0000> <00ff>
            endcodespacerange
            2 beginbfchar
            <0001> <4E2D>
            <0002> <6587>
            endbfchar
            1 beginbfrange
            <0041> <0043> <0061>
            endbfrange
            "#,
    )
    .unwrap();
    assert_eq!(cmap.mapping_count(), 5);
    assert_eq!(cmap.decode(&[0, 1, 0, 2]), Some("中文".to_string()));
    assert_eq!(cmap.decode(&[0, 0x41, 0, 0x43]), Some("ac".to_string()));
    assert_eq!(cmap.decode(&[0, 9]), None);
}

#[test]
fn decodes_variable_length_codespaces_and_range_lists() {
    let cmap = ToUnicodeCMap::parse(
        br#"
            2 begincodespacerange
            <00> <7f>
            <8100> <81ff>
            endcodespacerange
            2 beginbfchar
            <41> <0041>
            <8101> <4E2D>
            endbfchar
            1 beginbfrange
            <42> <44> [<4E00> <4E01> <4E02>]
            endbfrange
            "#,
    )
    .unwrap();
    assert_eq!(
        cmap.decode(&[0x41, 0x42, 0x81, 0x01]),
        Some("A一中".to_string())
    );
    assert_eq!(cmap.decode(&[0x41, 0x82]), None);
}

#[test]
fn rejects_incomplete_or_missing_mappings() {
    let cmap = ToUnicodeCMap::parse(
        br#"
            1 begincodespacerange <00> <ff> endcodespacerange
            1 beginbfchar <01> <0041> endbfchar
            "#,
    )
    .unwrap();
    assert_eq!(cmap.decode(&[0x01, 0x02]), None);
    assert_eq!(cmap.decode(&[0x01]), Some("A".to_string()));
}

#[test]
fn builds_identity_cid_map_with_two_byte_codes() {
    let mappings = [(1_u16, '中'), (2_u16, '文')]
        .into_iter()
        .map(|(gid, character)| (gid.to_be_bytes().to_vec(), character.to_string()))
        .collect();
    let cmap = ToUnicodeCMap::from_parts(
        vec![CodeSpaceRange {
            start: vec![0, 0],
            end: vec![u8::MAX, u8::MAX],
        }],
        mappings,
    );
    assert_eq!(cmap.decode(&[0, 1, 0, 2]), Some("中文".to_string()));
    assert_eq!(cmap.decode(&[0, 3]), None);
}

#[test]
fn cmap_without_mappings_is_rejected() {
    let result = ToUnicodeCMap::parse(b"1 begincodespacerange <00> <ff> endcodespacerange");
    assert_eq!(result.err(), Some(CMapError::MissingCodeSpaceOrMapping));
}

#[test]
fn cmap_reports_each_syntax_error() {
    let err = |data: &[u8]| ToUnicodeCMap::parse(data).err();
    assert_eq!(err(b"<00"), Some(CMapError::UnterminatedHexString));
    assert_eq!(err(b"<0g>"), Some(CMapError::InvalidHexDigit));
    assert_eq!(err(b"begincodespacerange <00> <ff>"), Some(CMapError::MissingEndCodeSpaceRange));
    assert_eq!(err(b"begincodespacerange <01> <00> endcodespacerange"), Some(CMapError::InvalidCodeSpaceRange));
    assert_eq!(err(b"beginbfchar <01> <0041>"), Some(CMapError::MissingEndBfChar));
    assert_eq!(err(b"beginbfchar <01> foo endbfchar"), Some(CMapError::MissingHexOperand));
    assert_eq!(err(b"beginbfchar <01> <> endbfchar"), Some(CMapError::EmptyUnicodeTarget));
    assert_eq!(err(b"beginbfchar <01> <004100> endbfchar"), Some(CMapError::IncompleteUtf16Target));
    assert_eq!(err(b"beginbfchar <01> <D800> endbfchar"), Some(CMapError::InvalidUtf16Target));
    assert_eq!(err(b"beginbfrange <02> <01> <0041> endbfrange"), Some(CMapError::InvalidBfRangeSource));
    assert_eq!(err(b"beginbfrange <01> <02> foo endbfrange"), Some(CMapError::InvalidBfRangeDestination));
    assert_eq!(err(b"beginbfrange <01> <02> [<0041>"), Some(CMapError::UnterminatedBfRangeList));
    assert_eq!(err(b"beginbfrange <01> <02> <0041> "), Some(CMapError::MissingEndBfRange));
    assert_eq!(err(b"beginbfrange <FE> <FF> [<0041> <0042>] endbfrange"), Some(CMapError::SourceRangeOverflow));
    assert_eq!(err(b"beginbfrange <00> <02> <DBFF DFFF> endbfrange"), Some(CMapError::TargetOutOfUnicodeRange));
}

#[test]
fn comments_and_dictionary_markers_are_skipped() {
    let cmap = ToUnicodeCMap::parse(
        b"%!PS comment <not hex\n/CIDInit /ProcSet findresource begin << /Registry (Adobe) >> \
          1 begincodespacerange <00> <FF> endcodespacerange\r\
          1 beginbfrange <61> <63> <0041> endbfrange endcmap",
    )
    .unwrap();
    assert_eq!(cmap.mapping_count(), 3);
    assert_eq!(cmap.code_space_count(), 1);
    assert_eq!(cmap.decode(b"abc"), Some("ABC".to_string()));
    assert_eq!(cmap.decode(b""), Some(String::new()));
}

#[test]
fn later_mapping_replaces_earlier_and_surrogate_pairs_decode() {
    let cmap = ToUnicodeCMap::parse(
        b"begincodespacerange <00> <FF> endcodespacerange \
          beginbfchar <01> <0041> <01> <0042> <02> <D83D DE00> <03> <4 1> endbfchar",
    )
    .unwrap();
    assert_eq!(cmap.mapping_count(), 3);
    assert_eq!(cmap.decode(&[1, 2, 3]), Some("B😀A".to_string()));
}
