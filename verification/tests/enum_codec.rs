use rs_docx::error::DecodeError;
use rs_docx::formatting::{VMerge, VMergeType};

#[test]
fn decode_known_literals() {
    assert_eq!(VMergeType::from_xml("restart"), Ok(VMergeType::Restart));
    assert_eq!(VMergeType::from_xml("continue"), Ok(VMergeType::Continue));
}

#[test]
fn decode_rejects_unknown_literal() {
    assert_eq!(VMergeType::from_xml("bogus"), Err(DecodeError::UnknownEnumValue));
    assert_eq!(VMergeType::from_xml(""), Err(DecodeError::UnknownEnumValue));
    assert_eq!(VMergeType::from_xml("Restart"), Err(DecodeError::UnknownEnumValue));
    assert_eq!(VMergeType::from_xml(" restart"), Err(DecodeError::UnknownEnumValue));
}

#[test]
fn encode_gives_the_literal() {
    assert_eq!(VMergeType::Restart.to_xml(), "restart");
    assert_eq!(VMergeType::Continue.to_xml(), "continue");
}

#[test]
fn every_variant_reads_as_it_was_written() {
    for v in [VMergeType::Restart, VMergeType::Continue] {
        assert_eq!(VMergeType::from_xml(v.to_xml()), Ok(v));
    }
}

#[test]
fn parse_goes_through_the_same_literals() {
    assert_eq!("restart".parse::<VMergeType>(), Ok(VMergeType::Restart));
    assert_eq!("other".parse::<VMergeType>(), Err(DecodeError::UnknownEnumValue));
}

#[test]
fn merge_element_carries_the_literal() {
    let merge = VMerge { val: Some(VMergeType::Restart) };
    assert_eq!(merge.to_string(), r#"<w:vMerge w:val="restart"/>"#);
    assert_eq!(VMerge::from_str(r#"<w:vMerge w:val="continue"/>"#), Ok(VMerge { val: Some(VMergeType::Continue) }));
    assert_eq!(VMerge::from_str("<w:vMerge/>"), Ok(VMerge { val: None }));
    assert_eq!(VMerge::from_str(r#"<w:vMerge w:val="bogus"/>"#), Err(DecodeError::UnknownEnumValue));
    assert_eq!(VMerge::default(), VMerge { val: None });
}
