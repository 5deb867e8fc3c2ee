use docsy::candidates::{candidate_of_lines, group_lines, page_number_runs, split_by_total, LineObservation};
use docsy::splits::TextLineDetection;

fn line(page: u32, text: &str, normalized: &str) -> TextLineDetection {
    TextLineDetection { text: text.to_string(), normalized_text: normalized.to_string(), page }
}

fn obs(page: u32, text: &str, normalized: &str, x: i32, y: i32) -> LineObservation {
    LineObservation { line: line(page, text, normalized), x_bucket: x, y_bucket: y }
}

#[test]
fn groups_lines_by_text_and_position_in_key_order() {
    let lines = vec![
        obs(1, "Beta report", "Beta report", 10, 2),
        obs(1, "Alpha report", "Alpha report", 10, 2),
        obs(2, "Beta report", "Beta report", 10, 2),
        obs(2, "Beta report", "Beta report", 11, 2),
        obs(3, "x", "x", 10, 2),
    ];
    let groups = group_lines(&lines);
    let keys: Vec<(String, i32, i32, Vec<usize>)> =
        groups.into_iter().map(|g| (g.key, g.x_bucket, g.y_bucket, g.members)).collect();
    assert_eq!(
        keys,
        vec![
            ("Alpha report".to_string(), 10, 2, vec![1]),
            ("Beta report".to_string(), 10, 2, vec![0, 2]),
            ("Beta report".to_string(), 11, 2, vec![3]),
        ]
    );
}

#[test]
fn page_numbers_group_by_position_alone() {
    let lines = vec![obs(1, "1", "{page}", 18, 38), obs(2, "2", "{page}", 18, 38), obs(3, "3", "{page}", 18, 38)];
    let groups = group_lines(&lines);
    assert_eq!(groups.len(), 1);
    assert_eq!(groups[0].key, "__page_number_seq__");
    assert_eq!(groups[0].members, vec![0, 1, 2]);
}

#[test]
fn page_number_template_sequence_repeats() {
    let ls = [line(1, "1", "{page}"), line(2, "2", "{page}"), line(3, "3", "{page}")];
    let refs: Vec<&TextLineDetection> = ls.iter().collect();
    let c = candidate_of_lines(&refs, true, 3, true).unwrap();
    assert_eq!(c.normalized_text, "{page}");
    assert_eq!(c.text, "1");
    assert_eq!(c.count, 3);
    assert_eq!((c.page_start, c.page_end), (1, 3));
    assert!(c.labels.contains(&"page-number".to_string()));
    assert!(c.repeating);
    assert!(c.sequence_stable);
    assert_eq!(c.has_total, Some(false));
}

#[test]
fn unordered_numbers_are_not_a_stable_sequence() {
    let ls = [line(1, "10", "{page}"), line(2, "50", "{page}"), line(3, "3", "{page}")];
    let refs: Vec<&TextLineDetection> = ls.iter().collect();
    let c = candidate_of_lines(&refs, true, 3, true).unwrap();
    assert!(!c.sequence_stable);
    assert!(!c.repeating);
}

#[test]
fn unstable_positions_do_not_repeat() {
    let ls = [line(1, "1", "{page}"), line(2, "2", "{page}"), line(3, "3", "{page}")];
    let refs: Vec<&TextLineDetection> = ls.iter().collect();
    let c = candidate_of_lines(&refs, true, 3, false).unwrap();
    assert!(!c.repeating);
}

#[test]
fn page_number_run_is_shown_by_representative_text() {
    let ls = [line(4, "1/3 页", "1/3 页"), line(5, "2/3 页", "2/3 页"), line(6, "3/3 页", "3/3 页")];
    let refs: Vec<&TextLineDetection> = ls.iter().collect();
    let c = candidate_of_lines(&refs, true, 10, true).unwrap();
    assert_eq!(c.text, "页码 1-3/3");
    assert_eq!(c.normalized_text, "页码 1-3/3");
    let ls = [line(4, "第一页", "第一页"), line(5, "第二页", "第二页")];
    let refs: Vec<&TextLineDetection> = ls.iter().collect();
    let c = candidate_of_lines(&refs, true, 10, true).unwrap();
    assert_eq!(c.text, "页码 4-5");
}

#[test]
fn first_page_evidence_label_is_tagged() {
    let ls = [line(1, "证据1", "证据1")];
    let refs: Vec<&TextLineDetection> = ls.iter().collect();
    let c = candidate_of_lines(&refs, false, 10, true).unwrap();
    assert_eq!(c.count, 1);
    assert!(!c.repeating);
    assert!(c.labels.contains(&"evidence-label".to_string()));
    assert_eq!(c.sequence_form, None);
}

#[test]
fn headers_need_three_pages_when_many_were_analysed() {
    let ls = [line(1, "Annual report", "Annual report"), line(2, "Annual report", "Annual report"), line(2, "Annual report", "Annual report")];
    let refs: Vec<&TextLineDetection> = ls.iter().collect();
    let c = candidate_of_lines(&refs, false, 5, true).unwrap();
    assert_eq!(c.count, 2);
    assert!(!c.repeating);
    let c = candidate_of_lines(&refs, false, 4, true).unwrap();
    assert!(c.repeating);
    assert!(candidate_of_lines(&[], false, 4, true).is_none());
}

#[test]
fn page_number_lines_split_by_total_in_order() {
    let ls = [
        line(1, "1/13 页", "1/13 页"),
        line(2, "1/3 页", "1/3 页"),
        line(3, "7", "7"),
        line(4, "2/13 页", "2/13 页"),
        line(5, "2/3 页", "2/3 页"),
    ];
    let refs: Vec<&TextLineDetection> = ls.iter().collect();
    let parts = split_by_total(&refs);
    let shape: Vec<(Option<u32>, Vec<u32>)> =
        parts.iter().map(|(t, v)| (*t, v.iter().map(|l| l.page).collect())).collect();
    assert_eq!(shape, vec![(None, vec![3]), (Some(3), vec![2, 5]), (Some(13), vec![1, 4])]);
    let runs = page_number_runs(&refs);
    let pages: Vec<Vec<u32>> = runs.iter().map(|r| r.iter().map(|l| l.page).collect()).collect();
    assert_eq!(pages, vec![vec![3], vec![2, 5], vec![1, 4]]);
}
