use rs_docx::document::{
    Body, BodyContent, DelText, Deletion, Document, Insertion, Paragraph, ParagraphContent, Run,
    RunContent, Table, TableCell, TableCellContent, TableRow, Text,
};
use std::borrow::Cow;

fn texts<'b>(leaves: Vec<&'b Cow<'_, str>>) -> Vec<&'b str> {
    leaves.into_iter().map(|c| c.as_ref()).collect()
}

fn cell(text: &str) -> TableCell<'_> {
    TableCell::paragraph(Paragraph::default().push_text(text))
}

fn two_by_two() -> Table<'static> {
    Table::default()
        .push_row(TableRow::default().push_cell(cell("A")).push_cell(cell("B")))
        .push_row(TableRow::default().push_cell(cell("C")).push_cell(cell("D")))
}

#[test]
fn table_is_walked_in_reading_order() {
    let table = two_by_two();
    assert_eq!(texts(table.iter_text()), vec!["A", "B", "C", "D"]);
    assert_eq!(texts(table.rows[1].iter_text()), vec!["C", "D"]);
    assert_eq!(texts(table.rows[0].cells[1].iter_text()), vec!["B"]);
}

#[test]
fn empty_cell_has_no_text_and_reads_as_written() {
    let cell = TableCell::default();
    assert!(cell.content.is_empty());
    assert!(cell.iter_text().is_empty());
    let element = cell.encode();
    assert_eq!(TableCell::decode(&element), Ok(cell.clone()));
    assert_eq!(cell.to_string(), r#"<w:tc><w:tcPr><w:vAlign w:val="top"/></w:tcPr></w:tc>"#);
    let read = TableCell::from_str("<w:tc></w:tc>").unwrap();
    assert!(read.content.is_empty());
    assert!(read.iter_text().is_empty());
    let read = TableCell::from_str("<w:tc/>").unwrap();
    assert_eq!(read, cell);
    let mut cell = cell;
    assert!(cell.iter_text_mut().is_empty());
    assert_eq!(cell.replace_text(&[("a", "b")]), Ok(()));
    assert_eq!(cell, TableCell::default());
}

#[test]
fn nested_table_is_walked_where_it_stands() {
    let inner = two_by_two();
    let outer_cell = TableCell::paragraph(Paragraph::default().push_text("before"))
        .push(TableCellContent::Table(inner))
        .push(TableCellContent::Paragraph(Paragraph::default().push_text("after")));
    let table = Table::default()
        .push_row(TableRow::default().push_cell(outer_cell).push_cell(cell("last")));
    assert_eq!(
        texts(table.iter_text()),
        vec!["before", "A", "B", "C", "D", "after", "last"]
    );
}

#[test]
fn run_yields_literal_text_only() {
    let run = Run::default()
        .push_text("a")
        .push_break()
        .push(RunContent::Tab)
        .push(RunContent::DelText(DelText { text: Cow::Borrowed("gone") }))
        .push_text("b");
    assert_eq!(texts(run.iter_text()), vec!["a", "b"]);
    assert_eq!(texts(run.iter_deleted_text()), vec!["gone"]);
    assert_eq!(run.text(), "ab");
}

#[test]
fn paragraph_walks_runs_and_revision_wrappers_in_order() {
    let inserted = Insertion {
        id: None,
        author: None,
        date: None,
        runs: vec![Run::default().push_text("new"), Run::default().push_text("er")],
    };
    let deleted = Deletion {
        id: None,
        author: None,
        date: None,
        runs: vec![Run::default()
            .push(RunContent::DelText(DelText { text: Cow::Borrowed("old") }))
            .push_text("kept")],
    };
    let paragraph = Paragraph::default()
        .push_text("start ")
        .push(ParagraphContent::Insertion(inserted.clone()))
        .push(ParagraphContent::Deletion(deleted.clone()))
        .push_text(" end");
    assert_eq!(texts(paragraph.iter_text()), vec!["start ", "new", "er", "kept", " end"]);
    assert_eq!(paragraph.text(), "start newerkept end");
    assert_eq!(inserted.text(), "newer");
    assert_eq!(deleted.text(), "old");
    assert_eq!(texts(deleted.iter_text()), vec!["kept"]);
}

#[test]
fn document_walks_its_blocks_in_order() {
    let document = Document::default()
        .push(BodyContent::Paragraph(Paragraph::default().push_text("one")))
        .push(BodyContent::Table(two_by_two()))
        .push(BodyContent::Paragraph(Paragraph::default().push_text("two").push_text("three")));
    assert_eq!(
        texts(document.iter_text()),
        vec!["one", "A", "B", "C", "D", "two", "three"]
    );
    assert_eq!(texts(document.body.iter_text()), texts(document.iter_text()));
    assert!(Document::default().iter_text().is_empty());
    assert!(Body::default().iter_text().is_empty());
}

#[test]
fn traversal_can_be_started_again() {
    let table = two_by_two();
    let first = texts(table.iter_text());
    let second = texts(table.iter_text());
    assert_eq!(first, second);
}

#[test]
fn handles_reach_every_leaf_in_order_and_nothing_else() {
    let mut document = Document::default()
        .push(BodyContent::Paragraph(
            Paragraph::default().push(ParagraphContent::Run(
                Run::default()
                    .push_text("one")
                    .push(RunContent::DelText(DelText { text: Cow::Borrowed("gone") }))
                    .push_break(),
            )),
        ))
        .push(BodyContent::Table(two_by_two()));
    let before = document.clone();
    {
        let handles = document.iter_text_mut();
        let seen: Vec<String> = handles.iter().map(|h| h.to_string()).collect();
        assert_eq!(seen, vec!["one", "A", "B", "C", "D"]);
        for (i, handle) in handles.into_iter().enumerate() {
            *handle = Cow::Owned(format!("{}{}", handle, i));
        }
    }
    assert_eq!(texts(document.iter_text()), vec!["one0", "A1", "B2", "C3", "D4"]);
    match &document.body.content[0] {
        BodyContent::Paragraph(p) => match &p.content[0] {
            ParagraphContent::Run(r) => {
                assert_eq!(r.content.len(), 3);
                assert_eq!(r.content[1], RunContent::DelText(DelText { text: Cow::Borrowed("gone") }));
                assert_eq!(r.content[2], RunContent::Break);
            }
            _ => panic!("the entry is a run"),
        },
        _ => panic!("the block is a paragraph"),
    }
    assert_eq!(document.body.content.len(), before.body.content.len());
}

#[test]
fn handles_of_a_single_leaf() {
    let mut content = RunContent::Text(Text { text: Cow::Borrowed("x") });
    {
        let mut handles = content.iter_text_mut();
        assert_eq!(handles.len(), 1);
        *handles.remove(0) = Cow::Borrowed("y");
    }
    assert_eq!(content, RunContent::Text(Text { text: Cow::Borrowed("y") }));
    let mut marker = RunContent::Tab;
    assert!(marker.iter_text_mut().is_empty());
}

#[test]
fn cell_builders_hold_one_entry() {
    let from_paragraph = TableCell::paragraph(Paragraph::default());
    assert_eq!(from_paragraph.content, vec![TableCellContent::Paragraph(Paragraph::default())]);
    assert_eq!(TableCell::from(Paragraph::default()), from_paragraph);
    assert_eq!(TableCell::from(TableCellContent::from(Paragraph::default())), from_paragraph);
    let from_table = TableCell::table(Table::default());
    assert_eq!(from_table.content, vec![TableCellContent::Table(Table::default())]);
    assert_eq!(TableCell::from(Table::default()), from_table);
    assert_eq!(TableCell::from(TableCellContent::from(Table::default())), from_table);
}
