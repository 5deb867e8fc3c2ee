use docsy::pdf_text::{
    build_pdftotext_args, clean_page_lines, edge_line_keys, is_page_text_empty,
    normalized_edge_fingerprint, validate_page_range, EdgeLineKey, EdgeOccurrences, PageEdge,
    PageRangeError, PageTally, TextLayerError,
};

fn lines(v: &[&str]) -> Vec<String> {
    v.iter().map(|s| s.to_string()).collect()
}

#[test]
fn pdftotext_args_with_page_range() {
    let args = build_pdftotext_args("/tmp/in.pdf", "/tmp/out.txt", Some(3), Some(9));
    assert_eq!(
        args,
        ["-layout", "-enc", "UTF-8", "-f", "3", "-l", "9", "--", "/tmp/in.pdf", "/tmp/out.txt"]
    );
    let args = build_pdftotext_args("/tmp/in.pdf", "/tmp/out.txt", None, None);
    assert_eq!(args, ["-layout", "-enc", "UTF-8", "--", "/tmp/in.pdf", "/tmp/out.txt"]);
}

#[test]
fn page_range_validation_rejects_bad_values() {
    assert!(validate_page_range(Some(0), None).is_err());
    assert!(validate_page_range(None, Some(0)).is_err());
    assert!(validate_page_range(Some(5), Some(3)).is_err());
    assert!(validate_page_range(Some(1), Some(1)).is_ok());
}

#[test]
fn page_range_errors_are_distinguished() {
    assert_eq!(validate_page_range(Some(0), Some(0)), Err(PageRangeError::StartIsZero));
    assert_eq!(validate_page_range(None, Some(0)), Err(PageRangeError::EndIsZero));
    assert_eq!(
        validate_page_range(Some(5), Some(3)),
        Err(PageRangeError::EndBeforeStart { start: 5, end: 3 })
    );
    assert_eq!(validate_page_range(None, None), Ok(()));
}

#[test]
fn normalizes_varying_page_numbers_without_content_specific_rules() {
    assert_eq!(normalized_edge_fingerprint("证据 13"), Some("证据 #".into()));
    assert_eq!(normalized_edge_fingerprint("— 2 —"), Some("— # —".into()));
}

#[test]
fn fingerprint_collapses_space_and_full_width_digits() {
    assert_eq!(normalized_edge_fingerprint("  第 １２ 页  共 3 页 "), Some("第 # 页 共 # 页".into()));
    assert_eq!(normalized_edge_fingerprint("   "), None);
    assert_eq!(normalized_edge_fingerprint(&"x".repeat(241)), None);
    assert_eq!(normalized_edge_fingerprint(&"x".repeat(240)), Some("x".repeat(240)));
}

#[test]
fn only_repeated_edge_text_is_removed() {
    let repeated = EdgeLineKey { edge: PageEdge::Top, fingerprint: "证据 #".into() };
    let remove = vec![repeated];
    let page = lines(&["证据 13", "正文内容", "— 2 —"]);
    let cleaned = clean_page_lines(&page, &remove);
    assert_eq!(cleaned, vec!["正文内容", "— 2 —"]);
}

#[test]
fn edge_keys_take_three_lines_from_each_end() {
    let page = lines(&["a", "", "b", "c", "d", "e", "f"]);
    let keys = edge_line_keys(&page);
    let got: Vec<(usize, PageEdge, String)> =
        keys.into_iter().map(|(i, k)| (i, k.edge, k.fingerprint)).collect();
    assert_eq!(
        got,
        vec![
            (0, PageEdge::Top, "a".to_string()),
            (2, PageEdge::Top, "b".to_string()),
            (3, PageEdge::Top, "c".to_string()),
            (6, PageEdge::Bottom, "f".to_string()),
            (5, PageEdge::Bottom, "e".to_string()),
            (4, PageEdge::Bottom, "d".to_string()),
        ]
    );
}

#[test]
fn repeating_page_edges_leave_header_only_pages_empty() {
    let page_one = lines(&["证据 13", "", "— 1 —"]);
    let page_two = lines(&["证据 14", "", "— 2 —"]);
    let mut occurrences = EdgeOccurrences::new();
    occurrences.record_page(1, &page_one);
    occurrences.record_page(2, &page_two);
    let repeated = occurrences.repeating();
    assert!(is_page_text_empty(&clean_page_lines(&page_one, &repeated)));
    assert!(is_page_text_empty(&clean_page_lines(&page_two, &repeated)));
}

#[test]
fn a_single_page_has_no_repeating_edges() {
    let page = lines(&["证据 13", "正文", "证据 13"]);
    let mut occurrences = EdgeOccurrences::new();
    occurrences.record_page(1, &page);
    assert!(occurrences.repeating().is_empty());
}

#[test]
fn edge_seen_on_one_page_only_stays() {
    let mut occurrences = EdgeOccurrences::new();
    occurrences.record_page(1, &lines(&["页眉", "正文一", "脚注"]));
    occurrences.record_page(2, &lines(&["页眉", "正文二", "落款"]));
    let repeated = occurrences.repeating();
    let cleaned = clean_page_lines(&lines(&["页眉", "正文二", "落款"]), &repeated);
    assert_eq!(cleaned, vec!["正文二", "落款"]);
}

#[test]
fn pages_render_with_heading_and_note() {
    let mut tally = PageTally::new();
    let text = tally.render_page(2, &lines(&["第一行", "第二行"]));
    assert_eq!(text, "## 第 2 页\n\n第一行\n第二行\n\n");
    let empty = tally.render_page(3, &lines(&["  ", ""]));
    assert_eq!(empty, "## 第 3 页\n\n> （本页无可靠的可提取文本层，可能为扫描件或纯图片页。）\n\n");
    assert_eq!(tally.pages_with_text, 1);
    assert_eq!(tally.empty_pages, vec![3]);
    tally.render_page(7, &[]);
    assert_eq!(
        tally.finish(true).unwrap(),
        "已从 1 页可靠文本生成 Markdown；表格、公式和复杂版面可能无法完整保留。 第 3、7 页无可靠文本层，已保留页码占位。 已滤除跨页重复的页首/页尾文本。"
    );
}

#[test]
fn no_text_pages_is_an_error() {
    let mut tally = PageTally::new();
    tally.render_page(1, &lines(&[""]));
    assert_eq!(tally.finish(false), Err(TextLayerError::NoReliableText));
}
