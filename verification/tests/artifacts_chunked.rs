use docsy::artifacts::{
    encode_utf16be_pdf_string, expand_artifact_replacement, is_utf16be_pdf_string, merge_edit_result,
    powershell_escape, validate_visual_replacements, ArtifactRegion, ArtifactRemovalStats,
    HeaderFooterArtifactEditResult, HeaderFooterArtifactInspection, VisualEdit, check_page_template,
    occurrence_replacement, shared_range_edit, tally_artifact_edits, AppliedArtifactEdit, ArtifactEditError,
    ArtifactEditTarget,
};
use docsy::chunked::{
    chunk_file_name, chunk_merge_args, chunk_ranges, chunk_root_selector, extract_page_range_args,
    should_chunk, validate_chunk_catalog, ChunkError,
};

fn strings(values: &[&str]) -> Vec<String> {
    values.iter().map(|v| v.to_string()).collect()
}

#[test]
fn small_docs_do_not_chunk() {
    let tiny = b"%PDF-1.4 tiny";
    assert!(!should_chunk(tiny.len() as u64, 50));
}

#[test]
fn chunk_ranges_cover_every_page_once() {
    assert_eq!(chunk_ranges(0), Err(ChunkError::NoPages));
    assert_eq!(chunk_ranges(1), Ok(vec![(1, 1)]));
    assert_eq!(chunk_ranges(80), Ok(vec![(1, 80)]));
    assert_eq!(chunk_ranges(81), Ok(vec![(1, 80), (81, 81)]));
    assert_eq!(chunk_ranges(300), Ok(vec![(1, 80), (81, 160), (161, 240), (241, 300)]));
}

#[test]
fn chunk_file_names_are_zero_padded() {
    assert_eq!(chunk_file_name(0, false), "chunk-0000-in.pdf");
    assert_eq!(chunk_file_name(7, true), "chunk-0007-out.pdf");
    assert_eq!(chunk_file_name(12345, true), "chunk-12345-out.pdf");
}

#[test]
fn page_extraction_and_merge_arguments() {
    assert_eq!(
        extract_page_range_args("in.pdf", "c.pdf", 81, 160),
        strings(&["--empty", "--pages", "in.pdf", "81-160", "--", "c.pdf"])
    );
    assert_eq!(
        extract_page_range_args("in.pdf", "c.pdf", 5, 5),
        strings(&["--empty", "--pages", "in.pdf", "5", "--", "c.pdf"])
    );
    assert_eq!(
        chunk_merge_args("in.pdf", &strings(&["a.pdf", "b.pdf"]), "stage.pdf"),
        strings(&["in.pdf", "--pages", "a.pdf", "1-z", "b.pdf", "1-z", "--", "stage.pdf"])
    );
    assert_eq!(
        chunk_merge_args("in.pdf", &[], "stage.pdf"),
        strings(&["in.pdf", "--pages", "--", "stage.pdf"])
    );
}

#[test]
fn catalog_root_and_keys_are_checked() {
    assert_eq!(
        chunk_root_selector("12 0 R"),
        Ok(("12,0".to_string(), "obj:12 0 R".to_string()))
    );
    assert_eq!(chunk_root_selector("12 R"), Err(ChunkError::InvalidRootReference));
    assert_eq!(validate_chunk_catalog(&strings(&["/Type", "/Pages", "/Lang"])), Ok(()));
    assert_eq!(
        validate_chunk_catalog(&strings(&["/Type", "/Outlines", "/Pages", "/AcroForm"])),
        Err(ChunkError::UnsupportedStructure(strings(&["/Outlines", "/AcroForm"])))
    );
}

#[test]
fn replacement_templates_fill_page_numbers() {
    assert_eq!(
        expand_artifact_replacement("第{page}页 共{total}页 {range} {roman-page}", 4, 10),
        "第4页 共10页 4/10 IV"
    );
    assert_eq!(expand_artifact_replacement("{roman-page}", 1994, 2000), "MCMXCIV");
    assert_eq!(expand_artifact_replacement("{roman-page}", 0, 1), "0");
    assert_eq!(expand_artifact_replacement("plain", 3, 9), "plain");
}

#[test]
fn utf16be_strings_carry_a_byte_order_mark() {
    assert_eq!(encode_utf16be_pdf_string("A页"), vec![0xFE, 0xFF, 0x00, 0x41, 0x98, 0x75]);
    assert_eq!(
        encode_utf16be_pdf_string("😀"),
        vec![0xFE, 0xFF, 0xD8, 0x3D, 0xDE, 0x00]
    );
    assert!(is_utf16be_pdf_string(&encode_utf16be_pdf_string("")));
    assert!(!is_utf16be_pdf_string(b"abc"));
}

#[test]
fn shared_visible_text_must_agree() {
    let edit = |r: Option<&str>, t: Option<&str>| VisualEdit {
        visual_object_ref: r.map(|s| s.to_string()),
        replacement: t.map(|s| s.to_string()),
    };
    assert_eq!(
        validate_visual_replacements(&[edit(Some("5 0 R"), Some("1")), edit(Some("5 0 R"), Some("1"))]),
        Ok(())
    );
    assert_eq!(
        validate_visual_replacements(&[edit(Some("5 0 R"), Some("1")), edit(Some("6 0 R"), Some("2"))]),
        Ok(())
    );
    assert_eq!(
        validate_visual_replacements(&[edit(Some("5 0 R"), Some("1")), edit(Some("5 0 R"), None)]),
        Ok(())
    );
    assert_eq!(
        validate_visual_replacements(&[edit(Some("5 0 R"), Some("1")), edit(Some("5 0 R"), Some("2"))]),
        Err("共享可见文字流 5 0 R 设置了不同替换文字；原文件已保留".to_string())
    );
    assert_eq!(
        validate_visual_replacements(&[
            edit(Some("9 0 R"), Some("1")),
            edit(Some("9 0 R"), Some("2")),
            edit(Some("12 0 R"), Some("a")),
            edit(Some("12 0 R"), Some("b")),
        ]),
        Err("共享可见文字流 12 0 R 设置了不同替换文字；原文件已保留".to_string())
    );
}

#[test]
fn counts_and_merges() {
    let mut stats = ArtifactRemovalStats { header: 0, footer: 0 };
    stats.add_region(ArtifactRegion::Header);
    stats.add_region(ArtifactRegion::Footer);
    stats.add_region(ArtifactRegion::Footer);
    assert_eq!(stats.total(), 3);

    let mut a = HeaderFooterArtifactInspection { header_count: 1, footer_count: 0, occurrences: vec![] };
    a.add_region(ArtifactRegion::Footer);
    let b = HeaderFooterArtifactInspection { header_count: 2, footer_count: 3, occurrences: vec![] };
    a.merge(b);
    assert_eq!((a.header_count, a.footer_count), (3, 4));

    let mut target = HeaderFooterArtifactEditResult {
        removed_header: 1,
        removed_footer: 0,
        edited_header: 0,
        edited_footer: 2,
        removed_header_pages: vec![1],
        removed_footer_pages: vec![],
        edited_header_pages: vec![],
        edited_footer_pages: vec![2, 3],
    };
    let source = HeaderFooterArtifactEditResult {
        removed_header: 2,
        removed_footer: 1,
        edited_header: 0,
        edited_footer: 1,
        removed_header_pages: vec![1, 4],
        removed_footer_pages: vec![5],
        edited_header_pages: vec![],
        edited_footer_pages: vec![3],
    };
    merge_edit_result(&mut target, source);
    assert_eq!(target.changed_count(), 7);
    let mut pages = target.removed_header_pages.clone();
    pages.sort();
    assert_eq!(pages, vec![1, 4]);
    assert_eq!(target.removed_footer_pages, vec![5]);
    let mut edited = target.edited_footer_pages.clone();
    edited.sort();
    assert_eq!(edited, vec![2, 3]);
}

#[test]
fn powershell_values_double_single_quotes() {
    assert_eq!(powershell_escape("it's"), "it''s");
    assert_eq!(powershell_escape("plain"), "plain");
}

fn target(text: &str, start: u32, end: u32, replacement: Option<&str>) -> ArtifactEditTarget {
    ArtifactEditTarget {
        artifact_id: None,
        normalized_text: text.to_string(),
        page_start: start,
        page_end: end,
        docsy_kind: None,
        replacement_text: replacement.map(|r| r.to_string()),
    }
}

#[test]
fn multi_page_page_numbers_keep_their_placeholder() {
    assert_eq!(check_page_template(&target("第{page}页", 1, 5, Some("页码"))), Err(ArtifactEditError::PageTemplateLost));
    assert_eq!(check_page_template(&target("第{page}页", 1, 5, Some("{roman-page}"))), Ok(()));
    assert_eq!(check_page_template(&target("第{page}页", 3, 3, Some("页码"))), Ok(()));
    assert_eq!(check_page_template(&target("机密", 1, 5, Some("公开"))), Ok(()));
    assert_eq!(check_page_template(&target("{page}", 1, 5, None)), Ok(()));
    assert_eq!(
        ArtifactEditError::PageTemplateLost.message(),
        "多页页码的编辑内容必须包含 {page} 或 {roman-page}；原文件已保留"
    );
}

#[test]
fn occurrence_replacement_fills_the_template_or_takes_the_page_text() {
    let t = target("{page}", 2, 4, Some("{page}/{total}"));
    assert_eq!(occurrence_replacement(3, Some(&t), &[]), Some("3/4".to_string()));
    let plain = target("x", 1, 1, None);
    let texts = strings(&["one", "", "three"]);
    assert_eq!(occurrence_replacement(1, Some(&plain), &texts), Some("one".to_string()));
    assert_eq!(occurrence_replacement(2, None, &texts), None);
    assert_eq!(occurrence_replacement(3, None, &texts), Some("three".to_string()));
    assert_eq!(occurrence_replacement(0, None, &texts), Some("one".to_string()));
    assert_eq!(occurrence_replacement(9, None, &texts), None);
}

#[test]
fn shared_ranges_must_be_selected_whole_and_agree() {
    let some = |v: &str| Some(v.to_string());
    assert_eq!(shared_range_edit(&[1, 2], &[2, 1], &[some("a"), some("a")]), Ok(Some("a".to_string())));
    assert_eq!(shared_range_edit(&[1], &[1, 2], &[None]), Err(ArtifactEditError::PartialSharedStream));
    assert_eq!(
        shared_range_edit(&[1, 2], &[1, 2], &[some("a"), some("b")]),
        Err(ArtifactEditError::DifferentReplacements)
    );
    assert_eq!(shared_range_edit(&[1, 2], &[1, 2], &[None, some("b")]), Ok(Some("b".to_string())));
    assert_eq!(shared_range_edit(&[1, 2], &[1, 2], &[None, None]), Ok(None));
}

#[test]
fn tally_counts_pages_per_region_and_kind() {
    let r = tally_artifact_edits(&[
        AppliedArtifactEdit { region: ArtifactRegion::Header, edited: false, pages: vec![1, 2] },
        AppliedArtifactEdit { region: ArtifactRegion::Footer, edited: true, pages: vec![3] },
        AppliedArtifactEdit { region: ArtifactRegion::Header, edited: false, pages: vec![2, 5] },
    ]);
    assert_eq!((r.removed_header, r.removed_footer, r.edited_header, r.edited_footer), (4, 0, 0, 1));
    let mut pages = r.removed_header_pages.clone();
    pages.sort();
    assert_eq!(pages, vec![0, 1, 4]);
    assert_eq!(r.edited_footer_pages, vec![2]);
    assert!(r.removed_footer_pages.is_empty());
}
