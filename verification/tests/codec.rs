use rs_docx::document::{
    Body, BodyContent, DelText, Deletion, Document, ImageData, Insertion, Paragraph,
    ParagraphContent, Pict, Rect, Run, RunContent, Shape, Table, TableCell, TableCellContent,
    TableRow, Text,
};
use rs_docx::error::DecodeError;
use rs_docx::formatting::{
    GridColumn, GridSpan, PageCols, PageMargin, ParagraphProperty, SectionProperty,
    TableCellProperty, TableGrid, TableProperty, VAlign, VAlignType, VMerge, VMergeType,
};
use rs_docx::styles::LatentStyle;
use rs_docx::xml::{Element, Node};
use std::borrow::Cow;

fn sample_margin() -> PageMargin {
    PageMargin {
        top: Some(1440),
        right: Some(-1),
        bottom: None,
        left: Some(0),
        header: Some(720),
        footer: None,
        gutter: Some(isize::MAX),
    }
}

fn sample_pict() -> Pict<'static> {
    Pict {
        shape: Some(Shape {
            id: Some(Cow::Borrowed("s1")),
            style: Some(Cow::Borrowed("width:10pt;height:\"5\"")),
            image_data: Some(ImageData { id: Some(Cow::Borrowed("rId7")), title: None }),
        }),
        rect: Some(Rect {
            image_data: Some(ImageData {
                id: Some(Cow::Borrowed("rId8")),
                title: Some(Cow::Borrowed("a <title> & more")),
            }),
        }),
    }
}

fn sample_paragraph() -> Paragraph<'static> {
    Paragraph::default()
        .property(ParagraphProperty {
            section: Some(SectionProperty {
                page_margin: Some(sample_margin()),
                page_cols: Some(PageCols { space: Some(708) }),
            }),
        })
        .push_text("plain")
        .push(ParagraphContent::Run(
            Run::default()
                .push(RunContent::Tab)
                .push_break()
                .push_text("with <angle> & 'quotes'")
                .push(RunContent::Pict(sample_pict()))
                .push(RunContent::DelText(DelText { text: Cow::Borrowed("") })),
        ))
        .push(ParagraphContent::Insertion(Insertion {
            id: Some(Cow::Borrowed("1")),
            author: Some(Cow::Borrowed("A. U. Thor")),
            date: Some(Cow::Borrowed("2024-01-01T00:00:00Z")),
            runs: vec![Run::default().push_text("inserted"), Run::default()],
        }))
        .push(ParagraphContent::Deletion(Deletion {
            id: None,
            author: None,
            date: None,
            runs: vec![Run::default()
                .push(RunContent::DelText(DelText { text: Cow::Borrowed("deleted") }))],
        }))
}

fn sample_table() -> Table<'static> {
    let inner = Table::default().push_row(
        TableRow::default().push_cell(TableCell::paragraph(Paragraph::default().push_text("in"))),
    );
    let first = TableCell::paragraph(sample_paragraph())
        .property(
            TableCellProperty::default()
                .grid_span(GridSpan { val: 2 })
                .v_merge(VMerge { val: Some(VMergeType::Continue) }),
        )
        .push(TableCellContent::Table(inner));
    Table::default()
        .push_row(TableRow::default().push_cell(first).push_cell(TableCell::default()))
        .push_row(TableRow::default())
}

fn sample_document() -> Document<'static> {
    Document::default()
        .push(BodyContent::Paragraph(sample_paragraph()))
        .push(BodyContent::Table(sample_table()))
        .push(BodyContent::Paragraph(Paragraph::default()))
}

#[test]
fn defaults_read_as_they_were_written() {
    assert_eq!(Pict::decode(&Pict::default().encode()), Ok(Pict::default()));
    assert_eq!(Shape::decode(&Shape::default().encode()), Ok(Shape::default()));
    assert_eq!(Rect::decode(&Rect::default().encode()), Ok(Rect::default()));
    assert_eq!(ImageData::decode(&ImageData::default().encode()), Ok(ImageData::default()));
    assert_eq!(Run::decode(&Run::default().encode()), Ok(Run::default()));
    assert_eq!(Insertion::decode(&Insertion::default().encode()), Ok(Insertion::default()));
    assert_eq!(Deletion::decode(&Deletion::default().encode()), Ok(Deletion::default()));
    assert_eq!(Paragraph::decode(&Paragraph::default().encode()), Ok(Paragraph::default()));
    assert_eq!(TableCell::decode(&TableCell::default().encode()), Ok(TableCell::default()));
    assert_eq!(TableRow::decode(&TableRow::default().encode()), Ok(TableRow::default()));
    assert_eq!(Table::decode(&Table::default().encode()), Ok(Table::default()));
    assert_eq!(Body::decode(&Body::default().encode()), Ok(Body::default()));
    assert_eq!(Document::decode(&Document::default().encode()), Ok(Document::default()));
    assert_eq!(GridSpan::decode(&GridSpan::default().encode()), Ok(GridSpan::default()));
    assert_eq!(PageCols::decode(&PageCols::default().encode()), Ok(PageCols::default()));
    assert_eq!(PageMargin::decode(&PageMargin::default().encode()), Ok(PageMargin::default()));
    assert_eq!(VMerge::decode(&VMerge::default().encode()), Ok(VMerge::default()));
    assert_eq!(
        TableCellProperty::decode(&TableCellProperty::default().encode()),
        Ok(TableCellProperty::default())
    );
    assert_eq!(
        SectionProperty::decode(&SectionProperty::default().encode()),
        Ok(SectionProperty::default())
    );
    assert_eq!(
        ParagraphProperty::decode(&ParagraphProperty::default().encode()),
        Ok(ParagraphProperty::default())
    );
}

#[test]
fn filled_nodes_read_as_they_were_written() {
    assert_eq!(PageMargin::decode(&sample_margin().encode()), Ok(sample_margin()));
    assert_eq!(Pict::decode(&sample_pict().encode()), Ok(sample_pict()));
    assert_eq!(Paragraph::decode(&sample_paragraph().encode()), Ok(sample_paragraph()));
    assert_eq!(Table::decode(&sample_table().encode()), Ok(sample_table()));
    assert_eq!(Document::decode(&sample_document().encode()), Ok(sample_document()));
    let style = LatentStyle {
        name: Some(Cow::Borrowed("Normal")),
        locked: Some(false),
        priority: Some(99),
        semi_hidden: Some(true),
        unhiden_when_used: None,
        q_format: Some(true),
    };
    assert_eq!(LatentStyle::decode(&style.encode()), Ok(style));
}

#[test]
fn filled_nodes_survive_the_way_through_text() {
    let text = sample_document().to_string();
    assert_eq!(Document::from_str(&text), Ok(sample_document()));
    let text = sample_table().to_string();
    assert_eq!(Table::from_str(&text), Ok(sample_table()));
    let text = sample_pict().to_string();
    assert_eq!(Pict::from_str(&text), Ok(sample_pict()));
    let text = sample_margin().to_string();
    assert_eq!(PageMargin::from_str(&text), Ok(sample_margin()));
}

#[test]
fn what_was_read_is_in_normal_form() {
    let fragment = r#"<?xml version="1.0"?>
        <!-- a cell as a producer may write it -->
        <w:tc xmlns:w="urn:w">
          <w:tcPr><w:gridSpan w:val=" 2.0pt "/><w:shd w:fill="auto"/></w:tcPr>
          <w:p w:rsidR="00A1"><w:r><w:rPr><w:b/></w:rPr><w:t xml:space="preserve">a &amp; b</w:t></w:r></w:p>
          <w:unknown><w:p><w:r><w:t>lost</w:t></w:r></w:p></w:unknown>
        </w:tc>"#;
    let first = TableCell::from_str(fragment).unwrap();
    assert_eq!(first.property.grid_span, Some(GridSpan { val: 2 }));
    assert_eq!(first.iter_text().len(), 1);
    assert_eq!(first.iter_text()[0].as_ref(), "a & b");
    let written = first.to_string();
    assert_eq!(
        written,
        r#"<w:tc><w:tcPr><w:gridSpan w:val="2"/><w:vAlign w:val="top"/></w:tcPr><w:p><w:r><w:t>a &amp; b</w:t></w:r></w:p></w:tc>"#
    );
    let second = TableCell::from_str(&written).unwrap();
    assert_eq!(second, first);
    assert_eq!(second.to_string(), written);
}

#[test]
fn elements_are_written_as_expected() {
    assert_eq!(Pict::default().to_string(), "<w:pict/>");
    assert_eq!(Paragraph::default().to_string(), "<w:p/>");
    assert_eq!(
        TableCell::paragraph(Paragraph::default()).to_string(),
        r#"<w:tc><w:tcPr><w:vAlign w:val="top"/></w:tcPr><w:p/></w:tc>"#
    );
    assert_eq!(
        TableCell::from(Table::default()).to_string(),
        r#"<w:tc><w:tcPr><w:vAlign w:val="top"/></w:tcPr><w:tbl><w:tblPr/><w:tblGrid/></w:tbl></w:tc>"#
    );
    assert_eq!(GridSpan { val: 3 }.to_string(), r#"<w:gridSpan w:val="3"/>"#);
    assert_eq!(PageCols { space: Some(708) }.to_string(), r#"<w:cols w:space="708"/>"#);
    assert_eq!(PageCols { space: None }.to_string(), "<w:cols/>");
    assert_eq!(
        sample_margin().to_string(),
        format!(
            r#"<w:pgMar w:top="1440" w:right="-1" w:left="0" w:header="720" w:gutter="{}"/>"#,
            isize::MAX
        )
    );
    assert_eq!(
        Run::default().push_text("a").push_break().push(RunContent::Tab).to_string(),
        "<w:r><w:t>a</w:t><w:br/><w:tab/></w:r>"
    );
    assert_eq!(Text { text: Cow::Borrowed("") }.to_string(), "<w:t></w:t>");
    assert_eq!(Document::default().to_string(), "<w:document><w:body/></w:document>");
    assert_eq!(
        ImageData { id: Some(Cow::Borrowed("rId1")), title: Some(Cow::Borrowed("\"t\"")) }
            .to_string(),
        r#"<v:imagedata r:id="rId1" o:title="&quot;t&quot;"/>"#
    );
    let style = LatentStyle {
        name: Some(Cow::Borrowed("Normal")),
        locked: Some(false),
        priority: Some(99),
        semi_hidden: None,
        unhiden_when_used: Some(true),
        q_format: None,
    };
    assert_eq!(
        style.to_string(),
        r#"<w:lsdException w:name="Normal" w:locked="false" w:uiPriority="99" w:unhideWhenUsed="true"/>"#
    );
}

#[test]
fn lengths_are_normalised_on_reading() {
    let margin = PageMargin::from_str(
        r#"<w:pgMar w:top="1440.4" w:right="12.5pt" w:bottom=" 7 mm " w:left="-0.5" w:footer="1e2"/>"#,
    );
    assert_eq!(
        margin,
        Ok(PageMargin {
            top: Some(1440),
            right: Some(13),
            bottom: Some(7),
            left: Some(-1),
            header: None,
            footer: Some(100),
            gutter: None,
        })
    );
    assert_eq!(
        margin.unwrap().to_string(),
        r#"<w:pgMar w:top="1440" w:right="13" w:bottom="7" w:left="-1" w:footer="100"/>"#
    );
}

#[test]
fn switches_are_read_from_every_literal() {
    for (literal, expected) in [
        ("t", true),
        ("true", true),
        ("y", true),
        ("yes", true),
        ("on", true),
        ("1", true),
        ("f", false),
        ("false", false),
        ("n", false),
        ("no", false),
        ("off", false),
        ("0", false),
    ] {
        let text = format!(r#"<w:lsdException w:locked="{}"/>"#, literal);
        let style = LatentStyle::from_str(&text).unwrap();
        assert_eq!(style.locked, Some(expected), "{}", literal);
        assert_eq!(style.name, None);
        assert_eq!(style.priority, None);
    }
    assert_eq!(
        LatentStyle::from_str(r#"<w:lsdException w:qFormat="maybe"/>"#),
        Err(DecodeError::UnknownEnumValue)
    );
}

#[test]
fn each_error_has_an_input_that_gives_it() {
    assert_eq!(Paragraph::from_str("<w:p"), Err(DecodeError::Malformed));
    assert_eq!(Paragraph::from_str(""), Err(DecodeError::Malformed));
    assert_eq!(Paragraph::from_str("<w:p><w:r></w:p>"), Err(DecodeError::Malformed));
    assert_eq!(Text::from_str("<w:t>&bogus;</w:t>"), Err(DecodeError::Malformed));
    assert_eq!(Paragraph::from_str("<w:tbl/>"), Err(DecodeError::Malformed));
    assert_eq!(Paragraph::decode(&Element::new("w:tbl")), Err(DecodeError::UnexpectedTag));
    assert_eq!(
        GridSpan::from_str(r#"<w:gridSpan w:val="1" w:val="1"/>"#),
        Err(DecodeError::DuplicateAttribute)
    );
    assert_eq!(GridSpan::from_str("<w:gridSpan/>"), Err(DecodeError::MissingAttribute));
    assert_eq!(
        VMerge::from_str(r#"<w:vMerge w:val="bogus"/>"#),
        Err(DecodeError::UnknownEnumValue)
    );
    assert_eq!(
        GridSpan::from_str(r#"<w:gridSpan w:val="abcpt"/>"#),
        Err(DecodeError::InvalidNumber)
    );
    assert_eq!(DecodeError::InvalidNumber.message(), "invalid number");
    assert_eq!(DecodeError::Malformed.message(), "malformed XML");
    assert_eq!(DecodeError::DuplicateAttribute.message(), "duplicate attribute");
}

#[test]
fn a_failing_child_fails_its_parent() {
    let text = r#"<w:tbl><w:tr><w:tc><w:tcPr><w:gridSpan w:val="wide"/></w:tcPr><w:p/></w:tc></w:tr></w:tbl>"#;
    assert_eq!(Table::from_str(text), Err(DecodeError::InvalidNumber));
    let text = r#"<w:document><w:body><w:p><w:pPr><w:sectPr><w:cols w:space="x"/></w:sectPr></w:pPr></w:p></w:body></w:document>"#;
    assert_eq!(Document::from_str(text), Err(DecodeError::InvalidNumber));
    let text = r#"<w:tc><w:tcPr><w:vMerge w:val="sometimes"/></w:tcPr></w:tc>"#;
    assert_eq!(TableCell::from_str(text), Err(DecodeError::UnknownEnumValue));
}

#[test]
fn the_first_failure_decides_the_error() {
    let text = r#"<w:pgMar w:right="x" w:top="1"/>"#;
    assert_eq!(PageMargin::from_str(text), Err(DecodeError::InvalidNumber));
    let text = r#"<w:lsdException w:uiPriority="x" w:locked="maybe"/>"#;
    assert_eq!(LatentStyle::from_str(text), Err(DecodeError::UnknownEnumValue));
    let text = r#"<w:lsdException w:uiPriority="x" w:locked="1"/>"#;
    assert_eq!(LatentStyle::from_str(text), Err(DecodeError::InvalidNumber));
}

#[test]
fn children_that_are_not_known_are_dropped() {
    let run = Run::from_str("<w:r><w:rPr/><w:t>a</w:t> <w:sym/><w:tab/>text<w:br/></w:r>").unwrap();
    assert_eq!(run, Run::default().push_text("a").push(RunContent::Tab).push_break());
    let body = Body::from_str("<w:body><w:sectPr/><w:p/><w:sdt><w:p/></w:sdt><w:tbl/></w:body>")
        .unwrap();
    assert_eq!(
        body,
        Body::default()
            .push(BodyContent::Paragraph(Paragraph::default()))
            .push(BodyContent::Table(Table::default()))
    );
}

#[test]
fn drawing_tolerates_missing_children_at_every_level() {
    assert_eq!(Pict::from_str("<w:pict/>").unwrap().image_id(), None);
    assert_eq!(Pict::from_str("<w:pict><v:shape/></w:pict>").unwrap().image_id(), None);
    assert_eq!(
        Pict::from_str("<w:pict><v:shape><v:imagedata/></v:shape></w:pict>").unwrap().image_id(),
        None
    );
    let pict = Pict::from_str(
        r#"<w:pict><v:shapetype id="t"/><v:shape id="s" type="t"><v:imagedata r:id="rId5" o:title=""/></v:shape></w:pict>"#,
    )
    .unwrap();
    assert_eq!(pict.image_id().map(|c| c.as_ref()), Some("rId5"));
    assert_eq!(pict.rect, None);
    let pict = Pict::from_str(
        r#"<w:pict><v:shape><v:imagedata o:title="no id"/></v:shape><v:rect><v:imagedata r:id="rId9"/></v:rect></w:pict>"#,
    )
    .unwrap();
    assert_eq!(pict.image_id().map(|c| c.as_ref()), Some("rId9"));
    assert_eq!(sample_pict().image_id().map(|c| c.as_ref()), Some("rId7"));
}

#[test]
fn text_borrows_from_the_source_where_it_can() {
    let source = String::from(r#"<w:p><w:r><w:t>plain</w:t><w:t>a &amp; b</w:t></w:r></w:p>"#);
    let paragraph = Paragraph::from_str(&source).unwrap();
    let leaves = paragraph.iter_text();
    assert!(matches!(leaves[0], Cow::Borrowed("plain")));
    assert_eq!(leaves[1].as_ref(), "a & b");
}

#[test]
fn decoding_takes_elements_built_by_hand() {
    let element = Element::new("w:r")
        .with_child(Some(Element::new("w:t").with_text(Cow::Borrowed("a")).with_text(Cow::Borrowed("b"))))
        .with_text(Cow::Borrowed("ignored"))
        .with_child(None)
        .with_child(Some(Element::new("w:br").with_attribute("w:type", Some(Cow::Borrowed("page")))));
    assert_eq!(element.children.len(), 3);
    assert!(matches!(element.children[1], Node::Text(_)));
    assert_eq!(Run::decode(&element), Ok(Run::default().push_text("ab").push_break()));
    assert_eq!(RunContent::decode(&element), Err(DecodeError::UnexpectedTag));
    assert!(RunContent::decode_child(&element).is_none());
}

#[test]
fn document_without_body_is_empty() {
    assert_eq!(Document::from_str("<w:document/>"), Ok(Document::default()));
    assert_eq!(
        Document::from_str("<w:document><w:body><w:p/></w:body></w:document>"),
        Ok(Document::default().push(BodyContent::Paragraph(Paragraph::default())))
    );
}

#[test]
fn cell_with_a_default_paragraph_is_written_with_its_alignment() {
    let x = TableCell::paragraph(Paragraph::default());
    let text = r#"<w:tc><w:tcPr><w:vAlign w:val="top"/></w:tcPr><w:p/></w:tc>"#;
    assert_eq!(x.to_string(), text);
    assert_eq!(TableCell::from_str(text), Ok(x.clone()));
    assert_eq!(TableCell::decode(&x.encode()), Ok(x));
}

#[test]
fn cell_with_a_default_table_is_written_with_property_and_grid() {
    let x = TableCell::from(Table::default());
    let text = r#"<w:tc><w:tcPr><w:vAlign w:val="top"/></w:tcPr><w:tbl><w:tblPr/><w:tblGrid/></w:tbl></w:tc>"#;
    assert_eq!(x.to_string(), text);
    assert_eq!(TableCell::from_str(text), Ok(x.clone()));
    assert_eq!(TableCell::decode(&x.encode()), Ok(x));
}

#[test]
fn alignment_is_read_and_written_by_its_literal() {
    for (literal, val) in [
        ("top", VAlignType::Top),
        ("center", VAlignType::Center),
        ("both", VAlignType::Both),
        ("bottom", VAlignType::Bottom),
    ] {
        assert_eq!(VAlignType::from_xml(literal), Ok(val));
        assert_eq!(val.to_xml(), literal);
        let text = format!(r#"<w:vAlign w:val="{}"/>"#, literal);
        assert_eq!(VAlign::from_str(&text), Ok(VAlign { val }));
        assert_eq!(VAlign { val }.to_string(), text);
    }
    assert_eq!(VAlignType::from_xml("middle"), Err(DecodeError::UnknownEnumValue));
    assert_eq!(VAlign::from_str("<w:vAlign/>"), Err(DecodeError::MissingAttribute));
    assert_eq!(VAlign::default(), VAlign { val: VAlignType::Top });
    let cell = TableCell::from_str(
        r#"<w:tc><w:tcPr><w:vAlign w:val="bottom"/></w:tcPr></w:tc>"#,
    )
    .unwrap();
    assert_eq!(cell.property.v_align, VAlign { val: VAlignType::Bottom });
    assert_eq!(
        TableCellProperty::default().v_align(VAlign { val: VAlignType::Center }).to_string(),
        r#"<w:tcPr><w:vAlign w:val="center"/></w:tcPr>"#
    );
}

#[test]
fn grid_of_a_table_is_read_and_written() {
    let text = r#"<w:tbl><w:tblPr><w:tblW w:w="0"/></w:tblPr><w:tblGrid><w:gridCol w:w="2880.4"/><w:gridCol w:w="1440pt"/></w:tblGrid><w:tr/></w:tbl>"#;
    let table = Table::from_str(text).unwrap();
    assert_eq!(table.property, TableProperty::default());
    assert_eq!(
        table.grids,
        TableGrid::default()
            .push_column(GridColumn { width: 2880 })
            .push_column(GridColumn { width: 1440 })
    );
    assert_eq!(table.rows.len(), 1);
    assert_eq!(
        table.to_string(),
        r#"<w:tbl><w:tblPr/><w:tblGrid><w:gridCol w:w="2880"/><w:gridCol w:w="1440"/></w:tblGrid><w:tr/></w:tbl>"#
    );
    assert_eq!(Table::from_str(&table.to_string()), Ok(table.clone()));
    assert_eq!(table.clone(), table);
    assert_eq!(Table::default().to_string(), "<w:tbl><w:tblPr/><w:tblGrid/></w:tbl>");
    assert_eq!(Table::from_str("<w:tbl/>"), Ok(Table::default()));
    assert_eq!(
        TableGrid::from_str(r#"<w:tblGrid><w:gridCol/></w:tblGrid>"#),
        Err(DecodeError::MissingAttribute)
    );
}

#[test]
fn the_last_of_a_repeated_single_child_counts() {
    let cell = TableCell::from_str(
        r#"<w:tc><w:tcPr><w:gridSpan w:val="2"/></w:tcPr><w:p/><w:tcPr><w:gridSpan w:val="3"/></w:tcPr></w:tc>"#,
    )
    .unwrap();
    assert_eq!(cell.property.grid_span, Some(GridSpan { val: 3 }));
    let property = TableCellProperty::from_str(
        r#"<w:tcPr><w:vAlign w:val="bottom"/><w:vAlign w:val="center"/></w:tcPr>"#,
    )
    .unwrap();
    assert_eq!(property.v_align, VAlign { val: VAlignType::Center });
}

#[test]
fn an_attribute_that_is_read_may_stand_once_only() {
    let twice = Element::new("w:pgMar")
        .with_attribute("w:top", Some(Cow::Borrowed("1")))
        .with_attribute("w:left", Some(Cow::Borrowed("2")))
        .with_attribute("w:top", Some(Cow::Borrowed("3")));
    assert_eq!(twice.occurrences("w:top"), 2);
    assert_eq!(twice.occurrences("w:left"), 1);
    assert_eq!(twice.occurrences("w:right"), 0);
    assert!(twice.any_repeated(&vec!["w:left", "w:top"]));
    assert!(!twice.any_repeated(&vec!["w:left", "w:right"]));
    assert_eq!(PageMargin::decode(&twice), Err(DecodeError::DuplicateAttribute));
    assert_eq!(
        PageMargin::from_str(r#"<w:pgMar w:top="1" w:left="2" w:top="3"/>"#),
        Err(DecodeError::DuplicateAttribute)
    );
    assert_eq!(
        VMerge::from_str(r#"<w:vMerge w:val="restart" w:val="continue"/>"#),
        Err(DecodeError::DuplicateAttribute)
    );
    assert_eq!(
        VAlign::from_str(r#"<w:vAlign w:val="top" w:val="top"/>"#),
        Err(DecodeError::DuplicateAttribute)
    );
    assert_eq!(
        LatentStyle::from_str(r#"<w:lsdException w:name="a" w:locked="1" w:name="b"/>"#),
        Err(DecodeError::DuplicateAttribute)
    );
    assert_eq!(
        Insertion::from_str(r#"<w:ins w:id="1" w:author="a" w:id="2"/>"#),
        Err(DecodeError::DuplicateAttribute)
    );
}

#[test]
fn an_attribute_that_is_not_read_may_stand_twice() {
    assert_eq!(
        GridSpan::from_str(r#"<w:gridSpan w:other="1" w:val="2" w:other="3"/>"#),
        Ok(GridSpan { val: 2 })
    );
    assert_eq!(Paragraph::from_str(r#"<w:p a="1" a="2"/>"#), Ok(Paragraph::default()));
}

#[test]
fn what_stands_before_the_element_looked_for_is_passed_over() {
    assert_eq!(
        RunContent::from_str("<?xml version=\"1.0\"?>\n<!-- c -->\n<w:tab/>"),
        Ok(RunContent::Tab)
    );
    assert_eq!(Paragraph::from_str("\n  <!-- c -->\n<w:p/>"), Ok(Paragraph::default()));
    assert_eq!(
        TableCellContent::from_str("<!-- c --><w:tbl/> "),
        Table::from_str("<w:tbl/>").map(TableCellContent::Table)
    );
}

#[test]
fn a_text_without_the_element_looked_for_is_refused() {
    assert_eq!(Paragraph::from_str("<a/>"), Err(DecodeError::Malformed));
    assert_eq!(Paragraph::from_str("<a><w:p/></a>"), Err(DecodeError::Malformed));
    assert_eq!(Paragraph::from_str("<a><w:p/>"), Err(DecodeError::Malformed));
    assert_eq!(RunContent::from_str("<w:r/>"), Err(DecodeError::Malformed));
    assert_eq!(GridSpan::from_str("<w:vMerge/>"), Err(DecodeError::Malformed));
}

#[test]
fn a_text_holds_one_element_at_its_top() {
    assert_eq!(Paragraph::from_str("<w:p/><a/>"), Ok(Paragraph::default()));
    assert_eq!(Paragraph::from_str("<a/><w:p/>"), Err(DecodeError::Malformed));
    assert_eq!(RunContent::from_str("<x><y/></x><w:tab/>"), Err(DecodeError::Malformed));
}

#[test]
fn character_data_between_children_is_not_read() {
    assert_eq!(Paragraph::from_str("<w:p>&bogus;</w:p>"), Ok(Paragraph::default()));
    assert_eq!(
        Paragraph::from_str("<w:p>&bogus;<w:r>&#xZZ;<w:t>a &amp; b</w:t>& </w:r></w:p>"),
        Ok(Paragraph::default().push_text("a & b"))
    );
    assert_eq!(
        Paragraph::from_str("<w:p><w:r><w:t>a &bogus; b</w:t></w:r></w:p>"),
        Err(DecodeError::Malformed)
    );
    assert_eq!(DelText::from_str("<w:delText>&bogus;</w:delText>"), Err(DecodeError::Malformed));
    assert_eq!(Text::from_str("<w:t>a<w:b/>c</w:t>"), Err(DecodeError::Malformed));
    assert_eq!(Text::from_str("<w:t/>"), Ok(Text { text: Cow::Borrowed("") }));
}

#[test]
fn each_of_a_repeated_single_child_is_read() {
    assert_eq!(
        TableCell::from_str(
            r#"<w:tc><w:tcPr><w:gridSpan w:val="x"/></w:tcPr><w:tcPr><w:gridSpan w:val="2"/></w:tcPr></w:tc>"#
        ),
        Err(DecodeError::InvalidNumber)
    );
    assert_eq!(
        TableCell::from_str(
            r#"<w:tc><w:tcPr><w:gridSpan w:val="2"/></w:tcPr><w:tcPr><w:vMerge w:val="x"/></w:tcPr></w:tc>"#
        ),
        Err(DecodeError::UnknownEnumValue)
    );
    assert_eq!(
        TableCellProperty::from_str(
            r#"<w:tcPr><w:gridSpan/><w:gridSpan w:val="x"/><w:gridSpan w:val="2"/></w:tcPr>"#
        ),
        Err(DecodeError::MissingAttribute)
    );
    assert_eq!(
        Document::from_str("<w:document><w:body><w:p><w:x/></w:p></w:body><w:body/></w:document>"),
        Ok(Document::default())
    );
    assert_eq!(
        Document::from_str(
            r#"<w:document><w:body><w:tbl><w:tblGrid><w:gridCol/></w:tblGrid></w:tbl></w:body><w:body/></w:document>"#
        ),
        Err(DecodeError::MissingAttribute)
    );
    let twice = Element::new("w:sectPr")
        .with_child(Some(Element::new("w:cols").with_attribute("w:space", Some(Cow::Borrowed("1")))))
        .with_child(Some(Element::new("w:cols").with_attribute("w:space", Some(Cow::Borrowed("2")))));
    assert_eq!(
        SectionProperty::decode(&twice),
        Ok(SectionProperty { page_margin: None, page_cols: Some(PageCols { space: Some(2) }) })
    );
}

#[test]
fn a_child_that_is_not_read_is_passed_over_whatever_it_holds() {
    assert_eq!(
        Paragraph::from_str("<w:p><x><y></x><w:r><w:t>a</w:t></w:r></w:p>"),
        Ok(Paragraph::default().push_text("a"))
    );
    assert_eq!(
        Paragraph::from_str(r#"<w:p><x a="&bogus;">&bogus;<w:r>&bogus;</x><w:r><w:tab/></w:r></w:p>"#),
        Ok(Paragraph::default().push(ParagraphContent::Run(Run::default().push(RunContent::Tab))))
    );
    assert_eq!(
        Paragraph::from_str("<w:p><x><x/><x><w:r/></x></x><w:r/></w:p>"),
        Ok(Paragraph::default().push(ParagraphContent::Run(Run::default())))
    );
    assert_eq!(
        GridSpan::from_str(r#"<w:gridSpan w:val="2"><a><b></a></w:gridSpan>"#),
        Ok(GridSpan { val: 2 })
    );
    assert_eq!(
        Run::from_str(r#"<w:r><w:tab><a b="&x;"><c></a></w:tab><w:br>&y;</w:br></w:r>"#),
        Ok(Run::default().push(RunContent::Tab).push_break())
    );
}

#[test]
fn a_child_that_is_read_must_be_well_formed() {
    assert_eq!(
        Paragraph::from_str("<w:p><w:r><w:t>a</w:r></w:p>"),
        Err(DecodeError::Malformed)
    );
    assert_eq!(
        Paragraph::from_str(r#"<w:p><w:r a="&bogus;"/></w:p>"#),
        Err(DecodeError::Malformed)
    );
    assert_eq!(Paragraph::from_str("<w:p><x><y></w:p>"), Err(DecodeError::Malformed));
    assert_eq!(Paragraph::from_str("<w:p><x><x></x></w:p>"), Err(DecodeError::Malformed));
    assert_eq!(
        Paragraph::from_str("<w:p><w:r><w:t>a<b>c</b></w:t></w:r></w:p>"),
        Err(DecodeError::Malformed)
    );
}

#[test]
fn every_child_that_a_node_reads_is_read_from_text() {
    let text = concat_all(&[
        r#"<w:document><w:body>"#,
        r#"<w:p><w:pPr><w:sectPr><w:pgMar w:top="1"/><w:cols w:space="2"/></w:sectPr></w:pPr>"#,
        r#"<w:r><w:t>a</w:t><w:delText>b</w:delText><w:tab/><w:br/>"#,
        r#"<w:pict><v:shape id="s"><v:imagedata r:id="r1"/></v:shape>"#,
        r#"<v:rect><v:imagedata r:id="r2"/></v:rect></w:pict></w:r>"#,
        r#"<w:ins w:id="1"><w:r><w:t>c</w:t></w:r></w:ins>"#,
        r#"<w:del w:id="2"><w:r><w:delText>d</w:delText></w:r></w:del></w:p>"#,
        r#"<w:tbl><w:tblPr/><w:tblGrid><w:gridCol w:w="5"/></w:tblGrid><w:tr><w:tc>"#,
        r#"<w:tcPr><w:gridSpan w:val="2"/><w:vMerge w:val="restart"/><w:vAlign w:val="both"/></w:tcPr>"#,
        r#"<w:p><w:r><w:t>e</w:t></w:r></w:p><w:tbl><w:tblPr/><w:tblGrid/></w:tbl>"#,
        r#"</w:tc></w:tr></w:tbl></w:body></w:document>"#,
    ]);
    let document = Document::from_str(&text).unwrap();
    assert_eq!(document.to_string(), text);
    let leaves: Vec<String> = document.iter_text().iter().map(|t| t.to_string()).collect();
    assert_eq!(leaves, vec!["a", "c", "e"]);
}

fn concat_all(parts: &[&str]) -> String {
    let mut all = String::new();
    for part in parts {
        all.push_str(part);
    }
    all
}

#[test]
fn an_element_that_holds_text_takes_no_comment() {
    assert_eq!(Text::from_str("<w:t>a<!-- c -->b</w:t>"), Err(DecodeError::Malformed));
    assert_eq!(
        Run::from_str("<w:r><w:delText><?pi x?></w:delText></w:r>"),
        Err(DecodeError::Malformed)
    );
    assert_eq!(
        Paragraph::from_str("<w:p><!-- c --><w:r><!-- c --><w:t>a</w:t><?pi x?></w:r></w:p>"),
        Ok(Paragraph::default().push_text("a"))
    );
    assert_eq!(
        Text::from_str("<w:t>a<![CDATA[<b>]]>c &amp; d</w:t>"),
        Ok(Text { text: Cow::Borrowed("a<b>c & d") })
    );
}
