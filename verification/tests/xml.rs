use rs_docx::error::DecodeError;
use rs_docx::xml::reader::{one_of, parse, parse_as};
use rs_docx::xml::{Attribute, Element, Node};
use std::borrow::Cow;

fn attribute<'a>(name: &'a str, value: &'a str) -> Attribute<'a> {
    Attribute { name: Cow::Borrowed(name), value: Cow::Borrowed(value) }
}

#[test]
fn parse_builds_the_tree_of_the_first_element() {
    let text = r#"<?xml version="1.0" encoding="UTF-8"?>
<!-- before -->
<a:root one="1" two="x &amp; y">lead<b/><!-- inside --><c k="v">in &lt;c&gt;</c><![CDATA[<raw> & ]]>tail</a:root>
<!-- after -->"#;
    let root = parse(text).unwrap();
    assert_eq!(root.tag, "a:root");
    assert_eq!(root.attributes, vec![attribute("one", "1"), attribute("two", "x & y")]);
    assert_eq!(
        root.children,
        vec![
            Node::Text(Cow::Borrowed("lead")),
            Node::Element(Element::new("b")),
            Node::Element(
                Element::new("c")
                    .with_attribute("k", Some(Cow::Borrowed("v")))
                    .with_text(Cow::Borrowed("in <c>"))
            ),
            Node::Text(Cow::Borrowed("<raw> & ")),
            Node::Text(Cow::Borrowed("tail")),
        ]
    );
    assert_eq!(root.text(), "lead<raw> & tail");
}

#[test]
fn parse_removes_escapes_from_values_and_text() {
    let root = parse(r#"<e v="&lt;&gt;&amp;&apos;&quot;&#65;&#x42;">&lt;t&gt; &#x263A;</e>"#).unwrap();
    assert_eq!(root.attribute("v").map(|c| c.as_ref()), Some("<>&'\"AB"));
    assert_eq!(root.text(), "<t> \u{263A}");
    assert_ne!(root.text(), "&lt;t&gt; &#x263A;");
}

#[test]
fn parse_keeps_the_order_of_attributes_and_finds_the_first() {
    let root = parse(r#"<e b="2" a="1" c="3"/>"#).unwrap();
    assert_eq!(root.attributes, vec![attribute("b", "2"), attribute("a", "1"), attribute("c", "3")]);
    assert_eq!(root.attribute("a").map(|c| c.as_ref()), Some("1"));
    assert_eq!(root.attribute("d"), None);
    assert!(root.children.is_empty());
}

#[test]
fn parse_rejects_what_is_not_well_formed() {
    for text in [
        "",
        "   ",
        "just text",
        "<!-- only a comment -->",
        "<a",
        "<a>",
        "<a><b></a>",
        "<a></b>",
        "<a><b></a></b>",
        "<a b=\"&unknown;\"/>",
        "<a b=1/>",
        "</a>",
    ] {
        assert_eq!(parse(text), Err(DecodeError::Malformed), "{:?}", text);
    }
}

#[test]
fn parse_does_not_look_behind_the_first_element() {
    assert_eq!(parse("<a/><b/>"), Ok(Element::new("a")));
    assert_eq!(parse("<a></a> trailing"), Ok(Element::new("a")));
}

#[test]
fn find_child_gives_the_last_with_the_tag() {
    let root = parse(r#"<r><x n="1"/>text<y/><x n="2"/></r>"#).unwrap();
    assert_eq!(
        root.find_child("x").and_then(|e| e.attribute("n")).map(|c| c.as_ref()),
        Some("2")
    );
    assert!(root.find_child("y").is_some());
    assert!(root.find_child("z").is_none());
    assert!(root.has_tag("r"));
    assert!(!root.has_tag("x"));
}

#[test]
fn text_of_an_element_is_written_with_escapes() {
    let element = Element::new("e")
        .with_attribute("a", Some(Cow::Borrowed("<&>'\"")))
        .with_attribute("skipped", None)
        .with_text(Cow::Borrowed("1 < 2 & 3 > 2"))
        .with_child(Some(Element::new("inner")))
        .with_text(Cow::Borrowed("'q' \"d\""));
    assert_eq!(
        element.to_string(),
        "<e a=\"&lt;&amp;&gt;&apos;&quot;\">1 &lt; 2 &amp; 3 &gt; 2<inner/>&apos;q&apos; &quot;d&quot;</e>"
    );
    assert_eq!(parse(&element.to_string()), Ok(element));
}

#[test]
fn what_was_written_parses_back() {
    let element = Element::new("w:p")
        .with_attribute("w:x", Some(Cow::Borrowed("a\tb")))
        .with_child(Some(
            Element::new("w:r")
                .with_child(Some(Element::new("w:t").with_text(Cow::Borrowed("héllo — wörld"))))
                .with_child(Some(Element::new("w:tab"))),
        ))
        .with_child(Some(Element::new("w:r")));
    let text = element.to_string();
    assert_eq!(parse(&text), Ok(element.clone()));
    assert_eq!(element.duplicate(), element);
    assert_eq!(element.clone(), element);
}

#[test]
fn length_and_switch_attributes_are_read_leniently() {
    let root = parse(r#"<e len=" 12.5pt " on="yes" bad="x" text="t"/>"#).unwrap();
    assert_eq!(root.length_attribute("len"), Ok(Some(13)));
    assert_eq!(root.length_attribute("missing"), Ok(None));
    assert_eq!(root.length_attribute("bad"), Err(DecodeError::InvalidNumber));
    assert_eq!(root.switch_attribute("on"), Ok(Some(true)));
    assert_eq!(root.switch_attribute("missing"), Ok(None));
    assert_eq!(root.switch_attribute("bad"), Err(DecodeError::UnknownEnumValue));
    assert_eq!(root.text_attribute("text"), Some(Cow::Borrowed("t")));
    assert_eq!(root.text_attribute("missing"), None);
}

#[test]
fn character_data_with_an_ill_formed_escape_is_kept_as_written() {
    let root = parse("<a>x &amp; y<b/>x &bogus; y</a>").unwrap();
    assert_eq!(
        root.children,
        vec![
            Node::Text(Cow::Borrowed("x & y")),
            Node::Element(Element::new("b")),
            Node::Raw(Cow::Borrowed("x &bogus; y")),
        ]
    );
    assert!(!root.only_text());
    assert_eq!(root.text().as_ref(), "x & y");
    assert_eq!(root.to_string(), "<a>x &amp; y<b/>x &bogus; y</a>");
    assert!(parse("<a>x &amp; y</a>").unwrap().only_text());
}

#[test]
fn parse_as_looks_for_an_element_with_one_of_the_tags() {
    assert_eq!(
        parse_as("<b k=\"v\"/>", &vec!["c", "b"]),
        Ok(Element::new("b").with_attribute("k", Some(Cow::Borrowed("v"))))
    );
    assert_eq!(parse_as("<!-- x --><b><c/>t</b>", &vec!["b"]), parse("<b>t</b>"));
    assert_eq!(
        parse_as("<w:p><x/><w:r><y><z></y><w:tab/></w:r>t</w:p>", &vec!["w:p"]),
        parse("<w:p><w:r><w:tab/></w:r>t</w:p>")
    );
    assert_eq!(parse_as("<w:t>a<b/></w:t>", &vec!["w:t"]), parse("<w:t>a<b/></w:t>"));
    assert_eq!(parse_as("<w:t>a<!-- c --></w:t>", &vec!["w:t"]), Err(DecodeError::Malformed));
    assert_eq!(parse("<w:t>a<!-- c --></w:t>"), parse("<w:t>a</w:t>"));
    assert_eq!(parse_as("<a><b/></a>", &vec!["b"]), Err(DecodeError::Malformed));
    assert_eq!(parse_as("<a/><b/>", &vec!["b"]), Err(DecodeError::Malformed));
    assert_eq!(parse_as("<a/>", &vec!["c"]), Err(DecodeError::Malformed));
    assert_eq!(parse_as("<a/>", &vec![]), Err(DecodeError::Malformed));
    assert_eq!(parse_as("<b><c>", &vec!["b"]), Err(DecodeError::Malformed));
    assert!(one_of("b", &vec!["a", "b"]));
    assert!(!one_of("c", &vec!["a", "b"]));
}
