use rs_docx::document::{Deletion, Insertion};

#[test]
fn test_parse_insertion() {
    let xml = r#"<w:ins w:id="1" w:author="test" w:date="2024-01-01T00:00:00Z">
            <w:r><w:t>inserted text</w:t></w:r>
        </w:ins>"#;
    let ins = Insertion::from_str(xml).unwrap();
    assert_eq!(ins.id.as_deref(), Some("1"));
    assert_eq!(ins.author.as_deref(), Some("test"));
    assert_eq!(ins.text(), "inserted text");
}

#[test]
fn test_parse_deletion() {
    let xml = r#"<w:del w:id="1" w:author="test" w:date="2024-01-01T00:00:00Z">
            <w:r><w:delText>deleted text</w:delText></w:r>
        </w:del>"#;
    let del = Deletion::from_str(xml).unwrap();
    assert_eq!(del.id.as_deref(), Some("1"));
    assert_eq!(del.author.as_deref(), Some("test"));
    assert_eq!(del.text(), "deleted text");
}
