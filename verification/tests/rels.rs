use docsy::rels::{image_relationship_of, parse_image_rels};

#[test]
fn reads_image_relationships_only() {
    let xml = r#"<?xml version="1.0" encoding="UTF-8" standalone="yes"?>
<Relationships xmlns="http://schemas.openxmlformats.org/package/2006/relationships">
<Relationship Id="rId1" Type="http://schemas.openxmlformats.org/officeDocument/2006/relationships/styles" Target="styles.xml"/>
<Relationship Id="rId5" Type="http://schemas.openxmlformats.org/officeDocument/2006/relationships/image" Target="media/image1.png"/>
<Relationship Id="rId6" Type="http://schemas.openxmlformats.org/officeDocument/2006/relationships/image" Target="media/a&amp;b.jpeg"></Relationship>
</Relationships>"#;
    let rels = parse_image_rels(xml);
    assert_eq!(
        rels,
        vec![
            ("rId5".to_string(), "media/image1.png".to_string()),
            ("rId6".to_string(), "media/a&b.jpeg".to_string()),
        ]
    );
}

#[test]
fn later_relationship_for_an_id_replaces_the_earlier() {
    let xml = r#"<Relationships><Relationship Id="r" Type="x/image" Target="a.png"/><Relationship Id="r" Type="x/image" Target="b.png"/></Relationships>"#;
    assert_eq!(parse_image_rels(xml), vec![("r".to_string(), "b.png".to_string())]);
    assert!(parse_image_rels("").is_empty());
    assert!(parse_image_rels("<not xml").is_empty());
}

#[test]
fn relationship_needs_id_target_and_image_type() {
    let a = |k: &str, v: &str| (k.as_bytes().to_vec(), v.to_string());
    assert_eq!(
        image_relationship_of(&[a("Id", "r1"), a("Type", "t/image"), a("Target", "m.png")]),
        Some(("r1".to_string(), "m.png".to_string()))
    );
    assert_eq!(image_relationship_of(&[a("Id", "r1"), a("Type", "t/imagex"), a("Target", "m.png")]), None);
    assert_eq!(image_relationship_of(&[a("Type", "t/image"), a("Target", "m.png")]), None);
}
