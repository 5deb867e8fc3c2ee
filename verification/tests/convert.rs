use docsy::convert::{
    conversion_warning, detect_direction, output_path_for, parse_doc_engine, plan_conversion,
    text_conversion_format,
    wrap_html_fragment, ConvertError, ConvertRoute, DocEngine, Direction, OfficeImportFacts,
    OfficeOutputFormat, OfficeReadOutcome,
};
use docsy::docx_markdown::DocxStylePreset;

#[test]
fn detect_direction_by_extension() {
    assert_eq!(detect_direction("/tmp/a.md").unwrap(), Direction::MdToDocx);
    assert_eq!(detect_direction("/tmp/a.markdown").unwrap(), Direction::MdToDocx);
    assert_eq!(detect_direction("/tmp/a.DOCX").unwrap(), Direction::OfficeToMd);
    assert_eq!(detect_direction("/tmp/a.doc").unwrap(), Direction::OfficeToMd);
    assert_eq!(detect_direction("/tmp/a.xlsm").unwrap(), Direction::OfficeToMd);
    assert_eq!(detect_direction("/tmp/a.odp").unwrap(), Direction::OfficeToMd);
    assert_eq!(detect_direction("/tmp/a.pdf").unwrap(), Direction::PdfToMd);
    assert!(detect_direction("/tmp/a.txt").is_err());
    assert!(detect_direction("/tmp/noext").is_err());
}

#[test]
fn output_path_uses_input_dir_and_swapped_ext() {
    let path = output_path_for("/tmp/docsy-nonexistent-dir-xyz/合同.md", None, "docx").unwrap();
    assert_eq!(path, "/tmp/docsy-nonexistent-dir-xyz/合同.docx");

    let path = output_path_for("/tmp/docsy-nonexistent-dir-xyz/合同.doc", None, "md").unwrap();
    assert_eq!(path, "/tmp/docsy-nonexistent-dir-xyz/合同.md");
}

#[test]
fn output_dir_must_exist() {
    assert!(output_path_for("/tmp/a.md", Some("/tmp/docsy-nonexistent-dir-xyz"), "docx").is_err());
}

#[test]
fn parse_doc_engine_values() {
    assert_eq!(parse_doc_engine(None).unwrap(), DocEngine::Extract);
    assert_eq!(parse_doc_engine(Some("extract")).unwrap(), DocEngine::Extract);
    assert_eq!(parse_doc_engine(Some("word")).unwrap(), DocEngine::Word);
    assert!(parse_doc_engine(Some("libreoffice")).is_err());
}

#[test]
fn unknown_engine_and_format_name_the_value() {
    assert_eq!(
        parse_doc_engine(Some("libreoffice")),
        Err(ConvertError::UnknownDocEngine("libreoffice".to_string()))
    );
    assert_eq!(
        OfficeOutputFormat::parse(Some("odt")),
        Err(ConvertError::UnsupportedOutputFormat("odt".to_string()))
    );
    assert_eq!(OfficeOutputFormat::parse(None), Ok(OfficeOutputFormat::Docx));
    assert_eq!(OfficeOutputFormat::parse(Some("pptx")), Ok(OfficeOutputFormat::Pptx));
    assert_eq!(OfficeOutputFormat::Xlsx.direction(), Direction::MdToXlsx);
    assert_eq!(OfficeOutputFormat::Html.extension(), "html");
}

#[test]
fn unsupported_file_type_names_the_path() {
    assert_eq!(
        detect_direction("/tmp/a.txt"),
        Err(ConvertError::UnsupportedFileType("/tmp/a.txt".to_string()))
    );
}

#[test]
fn output_dir_missing_names_the_dir() {
    assert_eq!(
        output_path_for("/tmp/a.md", Some("/tmp/docsy-nonexistent-dir-xyz"), "docx"),
        Err(ConvertError::OutputDirMissing("/tmp/docsy-nonexistent-dir-xyz".to_string()))
    );
}

#[test]
fn office_warning_lists_caveat_assets_and_notes() {
    let facts = OfficeImportFacts { asset_count: 3, note_count: 2 };
    let w = docsy::convert::office_input_warning("epub", &facts).unwrap();
    assert_eq!(
        w,
        "已提取电子书章节正文结构；内嵌样式、字体和精确排版不会在 Markdown 中保留。 已导出 3 个嵌入资源到同级 assets 目录。 已保留 2 条脚注或尾注。"
    );
    let none = OfficeImportFacts { asset_count: 0, note_count: 0 };
    assert_eq!(docsy::convert::office_input_warning("docx", &none), None);
    assert_eq!(
        docsy::convert::office_input_warning("docm", &none).unwrap(),
        "文档中的宏不会执行，也不会写入 Markdown 输出。"
    );
}

#[test]
fn html_page_wraps_fragment() {
    let page = wrap_html_fragment("标题", "<p>x</p>\n");
    assert!(page.starts_with("<!DOCTYPE html>\n<html lang=\"zh-CN\">"));
    assert!(page.contains("<title>标题</title>"));
    assert!(page.ends_with("<body>\n<p>x</p>\n</body>\n</html>\n"));
}

#[test]
fn conversion_plans_follow_the_extension() {
    let plan = plan_conversion("/tmp/notes.md", Some("xlsx"), Some("legal")).unwrap();
    assert_eq!(plan.route, ConvertRoute::MarkdownToOffice(OfficeOutputFormat::Xlsx, DocxStylePreset::Legal));
    assert_eq!(plan.direction, Direction::MdToXlsx);
    assert_eq!(plan.output_extension, "xlsx");
    let plan = plan_conversion("/tmp/notes.MD", None, None).unwrap();
    assert_eq!(plan.route, ConvertRoute::MarkdownToOffice(OfficeOutputFormat::Docx, DocxStylePreset::Professional));
    assert_eq!(
        plan_conversion("/tmp/notes.md", Some("odt"), None).err(),
        Some(ConvertError::UnsupportedOutputFormat("odt".to_string()))
    );
    assert_eq!(
        plan_conversion("/tmp/notes.md", None, Some("fancy")).err(),
        Some(ConvertError::UnknownDocxStyle("fancy".to_string()))
    );
    let pdf = plan_conversion("/tmp/a.pdf", Some("ignored"), Some("ignored")).unwrap();
    assert_eq!((pdf.route, pdf.direction, pdf.output_extension.as_str()), (ConvertRoute::PdfText, Direction::PdfToMd, "md"));
    assert_eq!(plan_conversion("/tmp/a.docm", None, None).unwrap().route, ConvertRoute::WordToMarkdown);
    assert_eq!(plan_conversion("/tmp/a.doc", None, None).unwrap().route, ConvertRoute::LegacyDoc);
    assert_eq!(plan_conversion("/tmp/a.epub", None, None).unwrap().route, ConvertRoute::OfficeToMarkdown);
    assert_eq!(
        plan_conversion("/tmp/a.txt", None, None).err(),
        Some(ConvertError::UnsupportedFileType("/tmp/a.txt".to_string()))
    );
}

#[test]
fn conversion_warnings_by_reader() {
    let none = || OfficeImportFacts { asset_count: 0, note_count: 0 };
    assert_eq!(conversion_warning("docx", &OfficeReadOutcome::DocsyReader), None);
    assert_eq!(
        conversion_warning("docx", &OfficeReadOutcome::CompatibleReader(none())),
        Some("已使用兼容读取器导出 Markdown；个别图片或细节格式可能简化。".to_string())
    );
    assert_eq!(
        conversion_warning("docm", &OfficeReadOutcome::DocsyReader),
        Some("文档中的宏不会执行，也不会写入 Markdown 输出。".to_string())
    );
    assert_eq!(
        conversion_warning("doc", &OfficeReadOutcome::DirectDoc(OfficeImportFacts { asset_count: 2, note_count: 0 })),
        Some("已直接读取旧版 .doc；复杂图文排版建议改用 Word/WPS 中转以获得更完整的结构。 已导出 2 个嵌入资源到同级 assets 目录。".to_string())
    );
    assert_eq!(conversion_warning("doc", &OfficeReadOutcome::WordAutomation), None);
    assert_eq!(conversion_warning("csv", &OfficeReadOutcome::Office(none())), None);
}

#[test]
fn convert_text_rejects_empty_and_bad_format() {
    assert!(text_conversion_format("  ", "docx").is_err());
    assert!(text_conversion_format("# 标题", "pdf").is_err());
    assert_eq!(text_conversion_format(" \n", "html").err(), Some(ConvertError::EmptyText));
    assert_eq!(
        text_conversion_format("# 标题", "pdf").err(),
        Some(ConvertError::UnsupportedOutputFormat("pdf".to_string()))
    );
    assert_eq!(text_conversion_format("# 标题", "pptx").ok(), Some(OfficeOutputFormat::Pptx));
}
