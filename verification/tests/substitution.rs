use rs_docx::document::{
    BodyContent, DelText, Deletion, Document, Insertion, Paragraph, ParagraphContent, Run,
    RunContent, Table, TableCell, TableCellContent, TableRow,
};
use rs_docx::error::SubstitutionError;
use std::borrow::Cow;

fn texts<'b>(leaves: Vec<&'b Cow<'_, str>>) -> Vec<&'b str> {
    leaves.into_iter().map(|c| c.as_ref()).collect()
}

#[test]
fn dictionary_is_applied_to_every_leaf() {
    let mut document = Document::default()
        .push(BodyContent::Paragraph(Paragraph::default().push_text("Lorem Ipsum")))
        .push(BodyContent::Paragraph(Paragraph::default().push_text("Lorem")));
    let dic = [("Lorem", "X"), ("Ipsum", "Y")];
    assert_eq!(document.replace_text(&dic), Ok::<(), SubstitutionError>(()));
    assert_eq!(texts(document.iter_text()), vec!["X Y", "X"]);
}

#[test]
fn dictionary_is_applied_to_the_leaves_of_a_cell() {
    let mut cell = TableCell::paragraph(Paragraph::default().push_text("Lorem Ipsum"))
        .push(TableCellContent::Table(Table::default().push_row(
            TableRow::default().push_cell(TableCell::paragraph(Paragraph::default().push_text("Lorem"))),
        )));
    assert_eq!(cell.replace_text(&[("Lorem", "X"), ("Ipsum", "Y")]), Ok(()));
    assert_eq!(texts(cell.iter_text()), vec!["X Y", "X"]);
}

#[test]
fn substitution_keeps_everything_but_the_text_leaves() {
    let run = Run::default()
        .push_text("a-b")
        .push(RunContent::Tab)
        .push(RunContent::DelText(DelText { text: Cow::Borrowed("a-b") }))
        .push_break()
        .push_text("b");
    let mut paragraph = Paragraph::default().push(ParagraphContent::Run(run));
    assert_eq!(paragraph.replace_text(&[("a", "1"), ("b", "2")]), Ok(()));
    let expected = Run::default()
        .push(RunContent::Text(rs_docx::document::Text { text: Cow::Borrowed("1-2") }))
        .push(RunContent::Tab)
        .push(RunContent::DelText(DelText { text: Cow::Borrowed("a-b") }))
        .push_break()
        .push(RunContent::Text(rs_docx::document::Text { text: Cow::Borrowed("2") }));
    assert_eq!(paragraph, Paragraph::default().push(ParagraphContent::Run(expected)));
}

#[test]
fn inserted_text_takes_part_and_deleted_text_does_not() {
    let inserted = Insertion {
        id: Some(Cow::Borrowed("1")),
        author: None,
        date: None,
        runs: vec![Run::default().push_text("name")],
    };
    let deleted = Deletion {
        id: Some(Cow::Borrowed("2")),
        author: None,
        date: None,
        runs: vec![Run::default().push(RunContent::DelText(DelText { text: Cow::Borrowed("name") }))],
    };
    let mut paragraph = Paragraph::default()
        .push(ParagraphContent::Insertion(inserted))
        .push(ParagraphContent::Deletion(deleted));
    assert_eq!(paragraph.replace_text(&[("name", "Ada")]), Ok(()));
    match (&paragraph.content[0], &paragraph.content[1]) {
        (ParagraphContent::Insertion(i), ParagraphContent::Deletion(d)) => {
            assert_eq!(i.text(), "Ada");
            assert_eq!(i.id.as_deref(), Some("1"));
            assert_eq!(d.text(), "name");
            assert_eq!(d.id.as_deref(), Some("2"));
        }
        _ => panic!("the entries keep their kinds"),
    }
}

#[test]
fn entries_apply_in_the_order_given() {
    let mut first = Paragraph::default().push_text("a");
    assert_eq!(first.replace_text(&[("a", "b"), ("b", "c")]), Ok(()));
    assert_eq!(first.text(), "c");
    let mut second = Paragraph::default().push_text("a");
    assert_eq!(second.replace_text(&[("b", "c"), ("a", "b")]), Ok(()));
    assert_eq!(second.text(), "b");
}

#[test]
fn a_rewritten_leaf_owns_its_text() {
    let source = String::from("borrowed text");
    let mut run = Run::default().push_text(&source);
    assert!(matches!(run.iter_text()[0], Cow::Borrowed(_)));
    assert_eq!(run.replace_text(&[("zzz", "y")]), Ok(()));
    assert!(matches!(run.iter_text()[0], Cow::Owned(_)));
    assert_eq!(run.text(), "borrowed text");
}

#[test]
fn empty_dictionary_changes_no_text() {
    let mut table = Table::default().push_row(
        TableRow::default().push_cell(TableCell::paragraph(Paragraph::default().push_text("same"))),
    );
    let before = table.clone();
    assert_eq!(table.replace_text(&[]), Ok(()));
    assert_eq!(table, before);
}

#[test]
fn a_clone_taken_before_is_not_touched() {
    let mut document =
        Document::default().push(BodyContent::Paragraph(Paragraph::default().push_text("old")));
    let kept = document.clone();
    assert_eq!(document.replace_text(&[("old", "new")]), Ok(()));
    assert_eq!(texts(kept.iter_text()), vec!["old"]);
    assert_eq!(texts(document.iter_text()), vec!["new"]);
}
