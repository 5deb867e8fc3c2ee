use docsy::page_numbers::{
    artifact_summary, circled_digit_text, decode_xml_text, is_noise, is_roman_page_marker,
    labels_for, normalize_header_footer_text, page_number_kind, parse_chinese_page_number,
    parse_roman_page_number, roman_page_number, sequence_form_of, split_suggestion_warnings,
    text_has_total, SplitSuggestionItem,
};

#[test]
fn noise_filter_counts_characters_not_bytes() {
    assert!(is_noise("证", "证"));
    assert!(!is_noise("证据", "证据"));
}

#[test]
fn labels_for_page_number_patterns() {
    assert!(labels_for("{page}/{total}").contains(&"page-number".to_string()));
    assert!(labels_for("CN 117457788 B 1/3 页").contains(&"page-number".to_string()));
    assert!(labels_for("CN 117457788 B 1/3").contains(&"page-number".to_string()));
    assert!(labels_for("第2页/共19页").contains(&"page-number".to_string()));
    assert!(labels_for("Page 5 of 20").contains(&"page-number".to_string()));
    assert!(!labels_for("2").contains(&"page-number".to_string()));
    assert!(!labels_for("说 明 书").contains(&"page-number".to_string()));
    assert_eq!(labels_for("CONFIDENTIAL 1/2"), vec!["page-number", "confidential"]);
}

#[test]
fn normalizes_common_page_number_formats() {
    assert_eq!(normalize_header_footer_text("１ / ２０"), "{page}/{total}");
    assert_eq!(normalize_header_footer_text("1／7"), "{page}/{total}");
    assert_eq!(normalize_header_footer_text("第 3 页，共 20 页"), "第{page}页，共{total}页");
    assert_eq!(normalize_header_footer_text("第四页"), "第{page}页");
    assert_eq!(normalize_header_footer_text("Page 3 of 20"), "Page {page} of {total}");
    assert_eq!(normalize_header_footer_text("15"), "{page}");
    assert_eq!(normalize_header_footer_text("III"), "{roman-page}");
    assert_eq!(normalize_header_footer_text("mid"), "mid");
    assert_eq!(normalize_header_footer_text("IC"), "IC");
    assert_eq!(parse_chinese_page_number("第四页"), Some(4));
    assert_eq!(parse_chinese_page_number("第二十三页"), Some(23));
}

#[test]
fn circled_page_numbers_normalize_and_classify() {
    assert_eq!(normalize_header_footer_text("①"), "{page}");
    assert_eq!(normalize_header_footer_text("⑫"), "{page}");
    assert_eq!(normalize_header_footer_text("❶"), "{page}");
    assert_eq!(normalize_header_footer_text("⓫"), "{page}");
    assert!(labels_for("{page}").contains(&"page-number".to_string()));
    assert_eq!(sequence_form_of("①"), "circled");
    assert_eq!(sequence_form_of("❶"), "dingbat");
    assert_eq!(sequence_form_of("1/3 页"), "fraction");
    assert_eq!(sequence_form_of("I"), "roman");
    assert!(text_has_total("1/3 页"));
    assert!(!text_has_total("2"));
}

#[test]
fn circled_digits_expand() {
    assert_eq!(circled_digit_text('①').as_deref(), Some("1"));
    assert_eq!(circled_digit_text('⑳').as_deref(), Some("20"));
    assert_eq!(circled_digit_text('❿').as_deref(), Some("10"));
    assert_eq!(circled_digit_text('⓴').as_deref(), Some("20"));
    assert_eq!(circled_digit_text('a'), None);
}

#[test]
fn roman_numerals_round_trip() {
    assert_eq!(roman_page_number(1994).as_deref(), Some("MCMXCIV"));
    assert_eq!(roman_page_number(0), None);
    assert_eq!(roman_page_number(4000), None);
    assert_eq!(parse_roman_page_number("MCMXCIV"), Some(1994));
    assert_eq!(parse_roman_page_number("IIII"), None);
    assert_eq!(parse_roman_page_number("IC"), None);
    assert_eq!(parse_roman_page_number("ix"), None);
    assert!(is_roman_page_marker(" ix "));
    assert!(!is_roman_page_marker("MMMDCCCLXXXVIII X"));
    assert!(!is_roman_page_marker(""));
}

#[test]
fn chinese_numerals() {
    assert_eq!(parse_chinese_page_number("第十页"), Some(10));
    assert_eq!(parse_chinese_page_number("一百零五"), Some(105));
    assert_eq!(parse_chinese_page_number("二〇二四"), Some(2024));
    assert_eq!(parse_chinese_page_number("两千"), Some(2000));
    assert_eq!(parse_chinese_page_number("page"), None);
}

#[test]
fn page_number_kinds_and_forms() {
    assert_eq!(page_number_kind("{roman-page}"), "roman");
    assert_eq!(page_number_kind("第{page}页"), "fraction");
    assert_eq!(page_number_kind("- {page} -"), "plain");
    assert_eq!(page_number_kind("目录"), "other");
    assert_eq!(sequence_form_of("Page 2"), "page-of");
    assert_eq!(sequence_form_of("第2页"), "page-n");
    assert_eq!(sequence_form_of("三"), "chinese");
    assert_eq!(sequence_form_of("7"), "arabic");
    assert!(text_has_total("Page 1 OF 3"));
}

#[test]
fn xml_entities_are_decoded_in_order() {
    assert_eq!(decode_xml_text("a &lt;b&gt; &amp;lt; &quot;c&quot; &apos;d&apos;"), "a <b> &lt; \"c\" 'd'");
}

#[test]
fn split_warnings_summarize_coverage() {
    let item = |start: u32, end: u32, source: &str| SplitSuggestionItem {
        name: "x".to_string(),
        page_start: start,
        page_end: end,
        source: source.to_string(),
        has_total: None,
        sequence_form: None,
    };
    let w = split_suggestion_warnings(&[], 10, 10, 0, 0);
    assert_eq!(w, vec![
        "拆分识别概况：文件共 10 页，本次扫描 10 页，识别到 0 页含页眉、0 页含页码型页脚",
        "未识别到页眉变化，请手动设置拆分页段",
    ]);
    let w = split_suggestion_warnings(&[item(2, 8, "fallback")], 10, 9, 3, 4);
    assert_eq!(w.len(), 4);
    assert_eq!(w[1], "首页之前存在未覆盖页段");
    assert_eq!(w[2], "末尾存在未覆盖页段，请检查扫描页或空白页");
    assert_eq!(w[3], "未识别到稳定页眉，当前仅生成一个默认页段");
    let w = split_suggestion_warnings(&[item(1, 10, "header")], 10, 10, 10, 0);
    assert_eq!(w.len(), 1);
    let s = artifact_summary(2, 0);
    assert!(s.has_header && !s.has_footer);
}
