use docsy::blank::blank_pdf_bytes;

#[test]
fn blank_page_preserves_rotation() {
    let bytes = blank_pdf_bytes(b"0 0 595.28 841.89", 90);
    let expected: &[u8] = b"%PDF-1.4\n%\xe2\xe3\xcf\xd3\n1 0 obj\n<< /Type /Catalog /Pages 2 0 R >>\nendobj\n2 0 obj\n<< /Type /Pages /Kids [3 0 R] /Count 1 >>\nendobj\n3 0 obj\n<< /Type /Page /Parent 2 0 R /MediaBox [0 0 595.28 841.89] /Resources << >> /Rotate 90 >>\nendobj\nxref\n0 4\n0000000000 65535 f \n0000000015 00000 n \n0000000064 00000 n \n0000000121 00000 n \ntrailer\n<< /Size 4 /Root 1 0 R >>\nstartxref\n226\n%%EOF\n";
    assert_eq!(bytes, expected.to_vec());
}

#[test]
fn writes_blank_pdf_with_matching_media_box() {
    let bytes = blank_pdf_bytes(b"0 0 595.28 841.89", 0);
    let text = String::from_utf8_lossy(&bytes).to_string();
    assert!(text.contains("/MediaBox [0 0 595.28 841.89] /Resources << >> >>"));
    assert!(!text.contains("/Rotate"));
}

#[test]
fn blank_page_preserves_non_zero_box_origin() {
    let bytes = blank_pdf_bytes(b"18 24 613.28 865.89", 0);
    let text = String::from_utf8_lossy(&bytes).to_string();
    assert!(text.contains("/MediaBox [18 24 613.28 865.89]"));
}

fn find(hay: &[u8], needle: &[u8]) -> usize {
    hay.windows(needle.len()).position(|w| w == needle).unwrap()
}

#[test]
fn blank_xref_entries_point_at_objects() {
    for rotate in [0, 90, -90, 270] {
        let bytes = blank_pdf_bytes(b"0 0 612 792", rotate);
        let xref = find(&bytes, b"xref\n");
        let tail = String::from_utf8(bytes[xref..].to_vec()).unwrap();
        let startxref: usize = tail
            .split("startxref\n")
            .nth(1)
            .unwrap()
            .lines()
            .next()
            .unwrap()
            .parse()
            .unwrap();
        assert_eq!(startxref, xref);
        let entries: Vec<usize> = tail
            .lines()
            .skip(3)
            .take(3)
            .map(|line| line[..10].parse().unwrap())
            .collect();
        assert_eq!(entries.len(), 3);
        for (k, offset) in entries.iter().enumerate() {
            assert!(bytes[*offset..].starts_with(format!("{} 0 obj\n", k + 1).as_bytes()));
        }
    }
    let negative = String::from_utf8_lossy(&blank_pdf_bytes(b"0 0 1 1", -90)).to_string();
    assert!(negative.contains("/Rotate -90 >>"));
}
