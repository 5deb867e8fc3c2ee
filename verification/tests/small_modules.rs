use docsy::annotations::{normalize_kind, AnnotationKinds};
use docsy::bookmarks::{
    bookmark_action, bookmark_index, collect_merge_bookmarks, page_object_ref, plan_outline, qpdf_string, BookmarkAction,
    BookmarkConfig, BookmarkError,
};
use docsy::chunked::{should_chunk, CHUNK_PAGE_THRESHOLD, CHUNK_SIZE_PAGES, CHUNK_SIZE_THRESHOLD_BYTES};
use docsy::compress::{plan_image_action, CompressOptions, CompressProgress, ImagePlan};
use docsy::evidence::{file_name_of, merge_step, MergeResult, MergeSpec, MergeStep};

#[test]
fn normalizes_annotation_kinds() {
    assert_eq!(normalize_kind("/Highlight"), "highlight");
    assert_eq!(normalize_kind("FreeText"), "freetext");
}

#[test]
fn default_kinds_remove_review_annotations_not_links() {
    let targets = AnnotationKinds::from_user_values(&[]);
    assert!(targets.should_remove(Some("Highlight")));
    assert!(!targets.should_remove(Some("Link")));
    assert!(!targets.should_remove(None));
}

#[test]
fn user_kinds_replace_defaults() {
    let targets = AnnotationKinds::from_user_values(&["/Link".to_string(), "  ".to_string()]);
    assert!(targets.should_remove(Some("Link")));
    assert!(!targets.should_remove(Some("Highlight")));
}

#[test]
fn qpdf_string_uses_unicode_prefix() {
    assert_eq!(qpdf_string("测试"), "u:测试");
    assert_eq!(qpdf_string(""), "u:");
}

#[test]
fn thresholds_are_300_pages_or_100mb() {
    assert_eq!(CHUNK_PAGE_THRESHOLD, 300);
    assert_eq!(CHUNK_SIZE_THRESHOLD_BYTES, 100 * 1024 * 1024);
    assert_eq!(CHUNK_SIZE_PAGES, 80);
}

#[test]
fn chunking_starts_above_either_threshold() {
    assert!(!should_chunk(13, 50));
    assert!(!should_chunk(13, 300));
    assert!(should_chunk(13, 301));
    assert!(!should_chunk(100 * 1024 * 1024, 1));
    assert!(should_chunk(100 * 1024 * 1024 + 1, 1));
    assert!(!should_chunk(100 * 1024 * 1024, 300));
}

#[test]
fn test_compress_options_from_level() {
    let l1 = CompressOptions::from_level(1);
    assert_eq!(l1.jpeg_quality, 92);
    assert_eq!(l1.target_dpi, 300);

    let l2 = CompressOptions::from_level(2);
    assert_eq!(l2.jpeg_quality, 85);
    assert_eq!(l2.target_dpi, 200);

    let l3 = CompressOptions::from_level(3);
    assert_eq!(l3.jpeg_quality, 75);
    assert_eq!(l3.target_dpi, 150);

    let unknown = CompressOptions::from_level(99);
    assert_eq!(unknown.jpeg_quality, 85);
    assert_eq!(unknown.target_dpi, 200);
}

#[test]
fn progress_labels() {
    let item = CompressProgress::item("压缩图片", 3, 10);
    assert_eq!(item.current, 3);
    assert_eq!(item.total, 10);
    assert_eq!(item.label(), "压缩图片（3/10）");
    assert_eq!(CompressProgress::phase("分析").label(), "分析…");
}

#[test]
fn file_name_of_takes_last_path_segment() {
    assert_eq!(file_name_of("/tmp/dir/a.pdf"), "a.pdf");
    assert_eq!(file_name_of("C:\\dir\\b.pdf"), "b.pdf");
    assert_eq!(file_name_of("c.pdf"), "c.pdf");
}

fn bookmark(enabled: bool, label: &str, page_index: u32) -> BookmarkConfig {
    BookmarkConfig { enabled, label: label.to_string(), page_index }
}

#[test]
fn bookmark_actions_follow_the_configuration() {
    let on = vec![bookmark(true, "目录", 0)];
    let off = vec![bookmark(false, "目录", 0), bookmark(true, "", 1)];
    assert_eq!(bookmark_action(&on, false), BookmarkAction::WriteOutline);
    assert_eq!(bookmark_action(&off, false), BookmarkAction::Nothing);
    assert_eq!(bookmark_action(&off, true), BookmarkAction::ClearOutlines);
    assert_eq!(bookmark_action(&[], true), BookmarkAction::ClearOutlines);
}

#[test]
fn outline_items_are_chained_after_the_last_object() {
    let configs = vec![bookmark(true, "一", 0), bookmark(false, "skip", 5), bookmark(true, "二", 2), bookmark(true, "三", 1)];
    let pages = vec!["3 0".to_string(), "7 0".to_string(), "9 0".to_string()];
    let plan = plan_outline(&configs, 20, &pages).ok().unwrap();
    assert_eq!(plan.outlines_num, 21);
    let nums: Vec<u32> = plan.items.iter().map(|i| i.num).collect();
    assert_eq!(nums, vec![22, 23, 24]);
    assert_eq!(plan.items[0].title, "u:一");
    assert_eq!(plan.items[1].page_ref, "9 0");
    assert_eq!(plan.items[2].page_ref, "7 0");
    assert_eq!((plan.items[0].prev, plan.items[0].next), (None, Some(23)));
    assert_eq!((plan.items[1].prev, plan.items[1].next), (Some(22), Some(24)));
    assert_eq!((plan.items[2].prev, plan.items[2].next), (Some(23), None));
    assert_eq!(plan_outline(&configs, 20, &[]).err(), Some(BookmarkError::NoPages));
    let far = vec![bookmark(true, "a", 0), bookmark(true, "b", 4), bookmark(true, "c", 9)];
    assert_eq!(plan_outline(&far, 20, &pages).err(), Some(BookmarkError::PageOutOfRange(4)));
}

#[test]
fn out_of_range_bookmark_fails() {
    let configs = vec![bookmark(true, "越界", 3)];
    let pages = vec!["3 0".to_string()];
    assert_eq!(plan_outline(&configs, 5, &pages).err(), Some(BookmarkError::PageOutOfRange(3)));
}

#[test]
fn bookmark_index_finds_catalog_and_largest_object() {
    let objects = vec![
        ("obj:1 0 R".to_string(), Some("/Pages".to_string())),
        ("obj:12 0 R".to_string(), Some("/Catalog".to_string())),
        ("obj:7 0 R".to_string(), None),
        ("trailer".to_string(), None),
    ];
    let ix = bookmark_index(&objects).ok().unwrap();
    assert_eq!((ix.max_obj, ix.catalog_position, ix.catalog_ref.as_str()), (12, 1, "12 0"));
    let none = vec![("obj:1 0 R".to_string(), Some("/Page".to_string()))];
    assert_eq!(bookmark_index(&none).err(), Some(BookmarkError::NoCatalog));
    let lower = vec![("obj:4 2 R".to_string(), Some("//CATALOG".to_string()))];
    assert_eq!(bookmark_index(&lower).ok().unwrap().catalog_ref, "4 2");
    assert_eq!(page_object_ref(" 3 0 R R "), "3 0 R R");
    assert_eq!(page_object_ref("3 0 R"), "3 0");
}

#[test]
fn merged_bookmarks_move_down_by_earlier_pages() {
    let items = vec![
        vec![bookmark(true, "甲", 0), bookmark(false, "off", 1)],
        vec![bookmark(true, "乙", 1), bookmark(true, "", 0)],
        vec![bookmark(true, "丙", 0)],
    ];
    let merged = collect_merge_bookmarks(&items, &[3, 2, 4]);
    let got: Vec<(String, u32)> = merged.iter().map(|b| (b.label.clone(), b.page_index)).collect();
    assert_eq!(got, vec![("甲".to_string(), 0), ("乙".to_string(), 4), ("丙".to_string(), 5)]);
    let short = collect_merge_bookmarks(&items, &[3]);
    assert_eq!(short.len(), 1);
}

#[test]
fn skips_merge_when_item_failed() {
    let merge = MergeSpec {
        enabled: true,
        output_path: "/tmp/final.pdf".to_string(),
        output_mode: "files_and_merge".to_string(),
    };
    match merge_step(&merge, &[], true) {
        MergeStep::Report(result) => {
            assert_eq!(result.enabled, true);
            assert_eq!(result.status.as_deref(), Some("skipped"));
        }
        MergeStep::Merge(_) => panic!("a failed item must skip the merge"),
    }
}

#[test]
fn merge_takes_written_outputs_in_order() {
    let merge = MergeSpec {
        enabled: true,
        output_path: "/tmp/final.pdf".to_string(),
        output_mode: "merge_only".to_string(),
    };
    let outputs = vec!["/tmp/a.pdf".to_string(), String::new(), "/tmp/b.pdf".to_string()];
    match merge_step(&merge, &outputs, false) {
        MergeStep::Merge(inputs) => assert_eq!(inputs, vec!["/tmp/a.pdf".to_string(), "/tmp/b.pdf".to_string()]),
        MergeStep::Report(_) => panic!("outputs were written"),
    }
    let blank = MergeSpec { enabled: true, output_path: "  ".to_string(), output_mode: String::new() };
    match merge_step(&blank, &outputs, false) {
        MergeStep::Report(r) => assert_eq!(r.message.as_deref(), Some("未设置合并输出路径")),
        MergeStep::Merge(_) => panic!("no output path"),
    }
    match merge_step(&merge, &[String::new()], false) {
        MergeStep::Report(r) => assert_eq!(r.message.as_deref(), Some("没有可合并的处理结果")),
        MergeStep::Merge(_) => panic!("nothing was written"),
    }
    let off = MergeSpec { enabled: false, output_path: String::new(), output_mode: String::new() };
    match merge_step(&off, &outputs, true) {
        MergeStep::Report(r) => assert!(!r.enabled && r.status.is_none()),
        MergeStep::Merge(_) => panic!("merging is off"),
    }
}

#[test]
fn merge_result_serializes_correctly() {
    let r = MergeResult::skipped("测试");
    assert_eq!(r.enabled, true);
    assert_eq!(r.status.as_deref(), Some("skipped"));
    assert_eq!(r.message.as_deref(), Some("测试"));
}

#[test]
fn test_plan_skips_untouchable_images() {
    let o = CompressOptions::from_level(1);
    assert_eq!(plan_image_action(Some(b"DCTDecode"), 1, false, false, true, 99999, None, &o), ImagePlan::Skip);
    assert_eq!(plan_image_action(None, 8, true, false, true, 99999, None, &o), ImagePlan::Skip);
    assert_eq!(plan_image_action(Some(b"DCTDecode"), 8, false, true, true, 99999, None, &o), ImagePlan::Skip);
    assert_eq!(plan_image_action(Some(b"DCTDecode"), 8, false, false, false, 99999, None, &o), ImagePlan::Skip);
    assert_eq!(plan_image_action(Some(b"CCITTFaxDecode"), 8, false, false, true, 99999, None, &o), ImagePlan::Skip);
    assert_eq!(plan_image_action(Some(b"JPXDecode"), 8, false, false, true, 99999, None, &o), ImagePlan::Skip);
}

#[test]
fn test_plan_dct_never_transcoded_when_dpi_ok() {
    let o = CompressOptions::from_level(1);
    assert_eq!(plan_image_action(Some(b"DCTDecode"), 8, false, false, true, 99999, None, &o), ImagePlan::Skip);
}

#[test]
fn test_plan_dct_downsample_when_dpi_exceeded() {
    let o = CompressOptions::from_level(1);
    let plan = plan_image_action(Some(b"DCTDecode"), 8, false, false, true, 99999, Some((3000, 1500)), &o);
    assert_eq!(plan, ImagePlan::ReencodeJpeg { quality: 92, downsample_to: Some((3000, 1500)) });
}

#[test]
fn test_plan_flate_to_jpeg() {
    let l1 = CompressOptions::from_level(1);
    let l2 = CompressOptions::from_level(2);
    let l3 = CompressOptions::from_level(3);
    assert_eq!(plan_image_action(Some(b"FlateDecode"), 8, false, false, true, 64 * 1024, None, &l1), ImagePlan::Skip);
    assert_eq!(
        plan_image_action(Some(b"FlateDecode"), 8, false, false, true, 100 * 1024, None, &l1),
        ImagePlan::ReencodeJpeg { quality: 95, downsample_to: None }
    );
    assert_eq!(
        plan_image_action(None, 8, false, false, true, 100 * 1024, None, &l2),
        ImagePlan::ReencodeJpeg { quality: 88, downsample_to: None }
    );
    assert_eq!(
        plan_image_action(Some(b"FlateDecode"), 8, false, false, true, 100 * 1024, None, &l3),
        ImagePlan::ReencodeJpeg { quality: 78, downsample_to: None }
    );
    assert_eq!(
        plan_image_action(Some(b"FlateDecode"), 8, false, false, true, 100 * 1024, Some((333, 333)), &l2),
        ImagePlan::ReencodeJpeg { quality: 85, downsample_to: Some((333, 333)) }
    );
}
