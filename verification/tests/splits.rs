use docsy::page_numbers::{normalize_header_footer_text, split_suggestion_warnings, PageRange};
use docsy::splits::{
    augment_splits_with_page_number_boundaries, build_split_suggestions, build_split_suggestions_from_pages,
    count_page_number_footers, count_split_header_pages, is_evidence_label_text, parsed_page_number_total,
    page_number_sequence_stable, parsed_page_number_value, split_page_number_sequence,
    split_analysis_pages, split_suggestion_result, HeaderFooterCandidate, PageDetection, TextLineDetection,
};

fn line(page: u32, text: &str, normalized: &str) -> TextLineDetection {
    TextLineDetection { text: text.to_string(), normalized_text: normalized.to_string(), page }
}

fn header_page(page: u32, header: Option<&str>) -> PageDetection {
    PageDetection {
        page,
        headers: header.map(|text| vec![line(page, text, text)]).unwrap_or_default(),
        footers: vec![],
    }
}

fn candidate(text: &str, start: u32, end: u32) -> HeaderFooterCandidate {
    HeaderFooterCandidate {
        text: text.to_string(),
        region: "header".to_string(),
        page_range: PageRange { start, end },
        count: (end - start + 1) as usize,
        repeating: true,
        labels: vec![],
        confidence_key: 1.0f32.to_bits(),
        source: "artifact".to_string(),
    }
}

#[test]
fn builds_split_suggestions_from_header_changes() {
    let items = build_split_suggestions_from_pages(&[
        header_page(1, Some("证据一")),
        header_page(2, Some("证据一")),
        header_page(3, Some("证据二")),
    ]);
    assert_eq!(items.len(), 2);
    assert_eq!(items[0].name, "证据一");
    assert_eq!((items[0].page_start, items[0].page_end), (1, 2));
    assert_eq!(items[0].source, "header");
    assert_eq!(items[0].has_total, None);
    assert_eq!(items[0].sequence_form, None);
    assert_eq!(items[1].name, "证据二");
    assert_eq!((items[1].page_start, items[1].page_end), (3, 3));
    assert_eq!(items[1].source, "header");
    assert_eq!(items[1].has_total, None);
    assert_eq!(items[1].sequence_form, None);
}

#[test]
fn names_first_headerless_split_range_as_catalog() {
    let items = build_split_suggestions_from_pages(&[
        header_page(1, None),
        header_page(2, Some("证据8-1")),
        header_page(3, Some("证据8-1")),
    ]);
    assert_eq!(items[0].name, "目录");
    assert_eq!(items[0].page_start, 1);
    assert_eq!(items[0].page_end, 1);
    assert_eq!(items[1].name, "证据8-1");
}

#[test]
fn split_suggestions_use_artifact_candidate_ranges() {
    let pages = vec![
        header_page(1, Some("证据一")),
        header_page(2, Some("证据一")),
        header_page(3, Some("证据二")),
        header_page(4, Some("证据二")),
        header_page(5, Some("证据三")),
        header_page(6, Some("证据三")),
    ];
    let candidates = vec![candidate("证据一", 1, 2), candidate("证据二", 3, 4), candidate("证据三", 5, 6)];
    let items = build_split_suggestions(&candidates, &pages);
    assert_eq!(items.len(), 3);
    assert_eq!(items[0].name, "证据一");
    assert_eq!((items[0].page_start, items[0].page_end), (1, 2));
    assert_eq!(items[0].source, "artifact");
    assert_eq!(items[1].name, "证据二");
    assert_eq!((items[1].page_start, items[1].page_end), (3, 4));
    assert_eq!(items[2].name, "证据三");
    assert_eq!((items[2].page_start, items[2].page_end), (5, 6));
}

#[test]
fn split_suggestions_fallback_accepts_evidence_label_once() {
    let page = |page: u32, header: Option<&str>| PageDetection {
        page,
        headers: header
            .map(|text| vec![line(page, text, &normalize_header_footer_text(text))])
            .unwrap_or_default(),
        footers: vec![],
    };
    let pages = vec![
        page(1, Some("证据8")),
        page(2, Some("证据8")),
        page(3, Some("证据9")),
        page(4, Some("证据9")),
        page(5, None),
    ];
    let items = build_split_suggestions(&[], &pages);
    assert_eq!(items.len(), 2);
    assert_eq!((items[0].page_start, items[0].page_end), (1, 2));
    assert_eq!((items[1].page_start, items[1].page_end), (3, 5));
}

#[test]
fn split_suggestions_ignore_single_page_noise_header() {
    let pages = vec![
        header_page(1, Some("证据一")),
        header_page(2, Some("一次性噪声页眉")),
        header_page(3, Some("证据一")),
        header_page(4, Some("证据一")),
    ];
    let items = build_split_suggestions(&[candidate("证据一", 1, 4)], &pages);
    assert_eq!(items.len(), 1);
    assert_eq!((items[0].page_start, items[0].page_end), (1, 4));
}

fn full_page(page: u32, header: Option<&str>, footer: Option<&str>) -> PageDetection {
    PageDetection {
        page,
        headers: header
            .map(|text| vec![line(page, text, &normalize_header_footer_text(text))])
            .unwrap_or_default(),
        footers: footer
            .map(|text| vec![line(page, text, &normalize_header_footer_text(text))])
            .unwrap_or_default(),
    }
}

#[test]
fn split_warning_summarizes_header_and_page_number_counts() {
    let pages = vec![
        full_page(1, Some("证据一"), Some("1/2")),
        full_page(2, Some("证据一"), Some("2/2")),
        full_page(3, None, None),
    ];
    let warnings = split_suggestion_warnings(
        &build_split_suggestions_from_pages(&pages),
        3,
        pages.len() as u32,
        count_split_header_pages(&pages),
        count_page_number_footers(&pages),
    );
    assert_eq!(
        warnings[0],
        "拆分识别概况：文件共 3 页，本次扫描 3 页，识别到 2 页含页眉、2 页含页码型页脚"
    );
}

#[test]
fn evidence_label_text_matches_expected_shapes() {
    assert!(is_evidence_label_text("证据1"));
    assert!(is_evidence_label_text("证据 12"));
    assert!(is_evidence_label_text("对比文件3"));
    assert!(is_evidence_label_text("证据一"));
    assert!(is_evidence_label_text("证据1（合同）"));
    assert!(!is_evidence_label_text("证据"));
    assert!(!is_evidence_label_text("该证据1"));
    assert!(!is_evidence_label_text("证据目录"));
}

#[test]
fn page_number_totals_come_after_the_slash() {
    assert_eq!(parsed_page_number_total("1/3 页"), Some(3));
    assert_eq!(parsed_page_number_total("第 2 / 13"), Some(13));
    assert_eq!(parsed_page_number_total("2"), None);
    assert_eq!(parsed_page_number_total("1/99999999999"), None);
}

#[test]
fn total_changes_cut_a_suggestion() {
    let pages = vec![
        full_page(1, Some("证据一"), Some("1/2")),
        full_page(2, Some("证据一"), Some("2/2")),
        full_page(3, Some("证据一"), Some("1/3")),
        full_page(4, Some("证据一"), Some("2/3")),
        full_page(5, Some("证据一"), Some("3/3")),
    ];
    let items = build_split_suggestions_from_pages(&pages);
    assert_eq!(items.len(), 1);
    let cut = augment_splits_with_page_number_boundaries(items, &pages);
    assert_eq!(cut.len(), 2);
    assert_eq!((cut[0].page_start, cut[0].page_end), (1, 2));
    assert_eq!((cut[1].page_start, cut[1].page_end), (3, 5));
    assert_eq!(cut[1].name, "证据一");
    assert_eq!(cut[0].has_total, Some(true));
    assert_eq!(cut[0].sequence_form.as_deref(), Some("fraction"));
}

#[test]
fn analysis_is_limited_and_noted() {
    assert_eq!(split_analysis_pages(None, 12), 12);
    assert_eq!(split_analysis_pages(Some(5), 12), 5);
    assert_eq!(split_analysis_pages(Some(0), 12), 1);
    assert_eq!(split_analysis_pages(None, 5000), 3000);
    let pages = vec![full_page(1, Some("证据一"), None), full_page(2, Some("证据二"), None)];
    let r = split_suggestion_result("/tmp/a.pdf".to_string(), 9, 2, 2, &[], &pages);
    assert_eq!(r.items.len(), 2);
    assert_eq!(r.header_pages, 2);
    assert_eq!(r.page_number_footer_pages, 0);
    assert_eq!(r.warnings.last().map(String::as_str), Some("文件共 9 页，本次只自动识别前 2 页；后续页段请手动补充或分批处理"));
}

#[test]
fn page_number_sequence_splits_on_section_resets() {
    let lines = [
        line(2, "1", "{page}"),
        line(3, "2", "{page}"),
        line(4, "3", "{page}"),
        line(5, "1", "{page}"),
        line(6, "2", "{page}"),
    ];
    let refs: Vec<&TextLineDetection> = lines.iter().collect();
    let segments = split_page_number_sequence(&refs);
    assert_eq!(segments.len(), 2);
    assert_eq!(segments[0].len(), 3);
    assert_eq!(segments[1].len(), 2);
}

#[test]
fn page_number_sequence_splits_on_format_switch() {
    let lines = [
        line(1, "I", "{roman-page}"),
        line(2, "II", "{roman-page}"),
        line(3, "III", "{roman-page}"),
        line(4, "IV", "{roman-page}"),
        line(5, "V", "{roman-page}"),
        line(6, "VI", "{roman-page}"),
        line(7, "7", "{page}"),
        line(8, "8", "{page}"),
    ];
    let refs: Vec<&TextLineDetection> = lines.iter().collect();
    let segments = split_page_number_sequence(&refs);
    assert_eq!(segments.len(), 2, "roman→arabic must split even without a value reset");
    assert_eq!(segments[0].len(), 6);
    assert_eq!(segments[1].len(), 2);
}

#[test]
fn page_number_sequence_splits_unordered_values() {
    let lines = [line(1, "10", "{page}"), line(2, "50", "{page}"), line(3, "3", "{page}")];
    let refs: Vec<&TextLineDetection> = lines.iter().collect();
    let segments = split_page_number_sequence(&refs);
    assert_eq!(segments.len(), 3, "unordered values must be surfaced separately");
}

#[test]
fn page_number_sequence_splits_on_gaps() {
    let lines = [line(1, "1", "{page}"), line(2, "2", "{page}"), line(3, "4", "{page}"), line(4, "5", "{page}")];
    let refs: Vec<&TextLineDetection> = lines.iter().collect();
    let segments = split_page_number_sequence(&refs);
    assert_eq!(segments.len(), 2, "gap in the sequence must split segments");
    assert_eq!(segments[0].len(), 2);
    assert_eq!(segments[1].len(), 2);
}

#[test]
fn page_number_values_follow_the_page_pattern() {
    assert_eq!(parsed_page_number_value("3/20"), Some(3));
    assert_eq!(parsed_page_number_value("３／２０"), Some(3));
    assert_eq!(parsed_page_number_value("Page 7 of 9"), Some(7));
    assert_eq!(parsed_page_number_value("第 12 页"), Some(12));
    assert_eq!(parsed_page_number_value("（2026）X刑初123号 5"), Some(5));
    assert_eq!(parsed_page_number_value("xiv"), Some(14));
    assert_eq!(parsed_page_number_value("第二十三页"), Some(23));
    assert_eq!(parsed_page_number_value("目录"), None);
}

#[test]
fn unparsed_line_after_a_value_opens_a_segment() {
    let lines = [line(1, "1", "{page}"), line(2, "目录", "{page}"), line(3, "2", "{page}")];
    let refs: Vec<&TextLineDetection> = lines.iter().collect();
    let segments = split_page_number_sequence(&refs);
    assert_eq!(segments.len(), 2);
    assert_eq!(segments[0].len(), 1);
    assert_eq!(segments[1].len(), 2);
}

#[test]
fn page_number_runs_are_stable_when_values_follow_pages() {
    let lines = [line(1, "1", "{page}"), line(2, "2", "{page}"), line(3, "3", "{page}"), line(5, "5", "{page}")];
    let refs: Vec<&TextLineDetection> = lines.iter().collect();
    assert!(page_number_sequence_stable(&refs));
    let lines = [line(1, "1", "{page}"), line(2, "9", "{page}"), line(3, "4", "{page}")];
    let refs: Vec<&TextLineDetection> = lines.iter().collect();
    assert!(!page_number_sequence_stable(&refs));
    let lines = [line(3, "3", "{page}"), line(1, "1", "{page}"), line(2, "2", "{page}"), line(2, "7", "{page}")];
    let refs: Vec<&TextLineDetection> = lines.iter().collect();
    assert!(page_number_sequence_stable(&refs));
    let lines = [line(1, "1", "{page}"), line(1, "1", "{page}")];
    let refs: Vec<&TextLineDetection> = lines.iter().collect();
    assert!(!page_number_sequence_stable(&refs));
}
