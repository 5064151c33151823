//! Tables and their rows.
use crate::document::table_cell::{TableCell, TableCellView};
use crate::error::{DecodeError, SubstitutionError};
use crate::formatting::table_cell_property::TableCellProperty;
use crate::formatting::table_grid::{TableGrid, TableGridView};
use crate::formatting::table_property::TableProperty;
use crate::text::{dictionary_view, leaf_views, lemma_texts_substituted_concat, texts_substituted};
use crate::xml::codec::names_view;
use crate::xml::element::{
    child_decoded_as, decoded_as, element_nodes, empty_element, find_child, is_element,
    lemma_find_child_concat, lemma_find_child_none, or_default, single_decoded, Element,
    ElementView, Node, NodeView,
};
use crate::xml::reader::{parse_as, parsed_as};
use crate::xml::writer::element_text;
use std::borrow::Cow;
use vstd::prelude::*;

verus! {

/// A row of a table (`w:tr`).
#[derive(Debug, PartialEq)]
pub struct TableRow<'a> {
    /// The cells of the row, in order.
    pub cells: Vec<TableCell<'a>>,
}

/// What a [`TableRow`] holds.
pub struct TableRowView {
    pub cells: Seq<TableCellView>,
}

/// A table (`w:tbl`).
#[derive(Debug, PartialEq)]
pub struct Table<'a> {
    /// Properties of the table.
    pub property: TableProperty,
    /// The grid of the table.
    pub grids: TableGrid,
    /// The rows of the table, in order.
    pub rows: Vec<TableRow<'a>>,
}

/// What a [`Table`] holds.
pub struct TableView {
    pub property: TableProperty,
    pub grids: TableGridView,
    pub rows: Seq<TableRowView>,
}

impl<'a> View for TableRow<'a> {
    type V = TableRowView;

    open spec fn view(&self) -> TableRowView
        decreases self,
    {
        TableRowView {
            cells: cells_view(self.cells@),
        }
    }
}

impl<'a> View for Table<'a> {
    type V = TableView;

    open spec fn view(&self) -> TableView
        decreases self,
    {
        TableView { property: self.property, grids: self.grids@, rows: rows_view(self.rows@) }
    }
}

/// The text leaves of a sequence of cells, in order.
pub open spec fn cells_texts(cs: Seq<TableCellView>) -> Seq<Seq<char>>
    decreases cs,
{
    if cs.len() == 0 {
        Seq::empty()
    } else {
        cells_texts(cs.drop_last()) + cs.last().texts()
    }
}

/// The text leaves of a sequence of rows, in order.
pub open spec fn rows_texts(rs: Seq<TableRowView>) -> Seq<Seq<char>>
    decreases rs,
{
    if rs.len() == 0 {
        Seq::empty()
    } else {
        rows_texts(rs.drop_last()) + rs.last().texts()
    }
}

impl TableRowView {
    /// The text leaves of the row, in order: cell after cell.
    pub open spec fn texts(self) -> Seq<Seq<char>>
        decreases self,
    {
        cells_texts(self.cells)
    }

    /// The row after `dict` was applied to each of its text leaves.
    pub open spec fn substituted(self, dict: Seq<(Seq<char>, Seq<char>)>) -> TableRowView
        decreases self,
    {
        TableRowView {
            cells: Seq::new(
                self.cells.len(),
                |i: int|
                    if 0 <= i < self.cells.len() {
                        self.cells[i].substituted(dict)
                    } else {
                        self.cells[i]
                    },
            ),
        }
    }
}

impl TableView {
    /// The text leaves of the table, in reading order: row after row, and
    /// within a row cell after cell.
    pub open spec fn texts(self) -> Seq<Seq<char>>
        decreases self,
    {
        rows_texts(self.rows)
    }

    /// The table after `dict` was applied to each of its text leaves.
    pub open spec fn substituted(self, dict: Seq<(Seq<char>, Seq<char>)>) -> TableView
        decreases self,
    {
        TableView {
            property: self.property,
            grids: self.grids,
            rows: Seq::new(
                self.rows.len(),
                |i: int|
                    if 0 <= i < self.rows.len() {
                        self.rows[i].substituted(dict)
                    } else {
                        self.rows[i]
                    },
            ),
        }
    }
}

impl<'a> Default for TableRow<'a> {
    fn default() -> (r: Self)
        ensures
            r@ == (TableRowView { cells: Seq::empty() }),
    {
        let r = TableRow { cells: Vec::new() };
        assert(r@.cells =~= Seq::<TableCellView>::empty());
        r
    }
}

impl<'a> Default for Table<'a> {
    fn default() -> (r: Self)
        ensures
            r@ == TableView::empty(),
    {
        let r = Table {
            property: TableProperty::default(),
            grids: TableGrid::default(),
            rows: Vec::new(),
        };
        assert(r@.rows =~= Seq::<TableRowView>::empty());
        r
    }
}

impl<'a> TableRow<'a> {
    /// Appends a cell to the row.
    pub fn push_cell(self, cell: TableCell<'a>) -> (r: Self)
        ensures
            r@ == (TableRowView { cells: self@.cells.push(cell@) }),
    {
        let mut row = self;
        row.cells.push(cell);
        assert(row@.cells =~= self@.cells.push(cell@));
        row
    }

    /// Handles on the text leaves of the row, in order.
    pub fn iter_text(&self) -> (r: Vec<&Cow<'a, str>>)
        ensures
            leaf_views(r@) == self@.texts(),
        decreases self,
    {
        let mut out: Vec<&Cow<'a, str>> = Vec::new();
        let mut i: usize = 0;
        assert(leaf_views(out@) =~= cells_texts(self@.cells.take(0)));
        while i < self.cells.len()
            invariant
                i <= self.cells.len(),
                leaf_views(out@) == cells_texts(self@.cells.take(i as int)),
            decreases self.cells.len() - i,
        {
            proof {
                let all = self@.cells;
                assert(all.take(i as int + 1).drop_last() =~= all.take(i as int));
                assert(all.take(i as int + 1).last() == self.cells@[i as int]@);
            }
            let ghost before = out@;
            let mut part = self.cells[i].iter_text();
            let ghost added = part@;
            out.append(&mut part);
            assert(leaf_views(out@) =~= leaf_views(before) + leaf_views(added));
            i = i + 1;
        }
        proof {
            assert(self@.cells.take(i as int) =~= self@.cells);
        }
        out
    }

    /// Applies `dic` to every text leaf of the row.
    pub fn replace_text(&mut self, dic: &[(&str, &str)]) -> (r: Result<(), SubstitutionError>)
        ensures
            r is Ok,
            final(self)@ == old(self)@.substituted(dictionary_view(dic@)),
            final(self).owns_texts(),
        decreases *old(self),
    {
        let mut i: usize = 0;
        while i < self.cells.len()
            invariant
                i <= self.cells.len(),
                self.cells@.len() == old(self).cells@.len(),
                forall|j: int| i <= j < self.cells@.len() ==> self.cells@[j] == old(self).cells@[j],
                forall|j: int| 0 <= j < i ==> (#[trigger] self.cells@[j]).owns_texts(),
                forall|j: int|
                    0 <= j < i ==> (#[trigger] self.cells@[j])@ == old(self).cells@[j]@.substituted(
                        dictionary_view(dic@),
                    ),
            decreases self.cells.len() - i,
        {
            proof {
                assert(decreases_to!(*old(self) => old(self).cells@[i as int]));
            }
            let _ = self.cells[i].replace_text(dic);
            i = i + 1;
        }
        proof {
            assert(self@.cells =~= old(self)@.substituted(dictionary_view(dic@)).cells);
        }
        Ok(())
    }
}

impl<'a> Table<'a> {
    /// Appends a row to the table.
    pub fn push_row(self, row: TableRow<'a>) -> (r: Self)
        ensures
            r@ == (TableView { rows: self@.rows.push(row@), ..self@ }),
    {
        let mut table = self;
        table.rows.push(row);
        assert(table@.rows =~= self@.rows.push(row@));
        table
    }

    /// Handles on the text leaves of the table, in reading order.
    pub fn iter_text(&self) -> (r: Vec<&Cow<'a, str>>)
        ensures
            leaf_views(r@) == self@.texts(),
        decreases self,
    {
        let mut out: Vec<&Cow<'a, str>> = Vec::new();
        let mut i: usize = 0;
        assert(leaf_views(out@) =~= rows_texts(self@.rows.take(0)));
        while i < self.rows.len()
            invariant
                i <= self.rows.len(),
                leaf_views(out@) == rows_texts(self@.rows.take(i as int)),
            decreases self.rows.len() - i,
        {
            proof {
                let all = self@.rows;
                assert(all.take(i as int + 1).drop_last() =~= all.take(i as int));
                assert(all.take(i as int + 1).last() == self.rows@[i as int]@);
            }
            let ghost before = out@;
            let mut part = self.rows[i].iter_text();
            let ghost added = part@;
            out.append(&mut part);
            assert(leaf_views(out@) =~= leaf_views(before) + leaf_views(added));
            i = i + 1;
        }
        proof {
            assert(self@.rows.take(i as int) =~= self@.rows);
        }
        out
    }

    /// Applies `dic` to every text leaf of the table.
    pub fn replace_text(&mut self, dic: &[(&str, &str)]) -> (r: Result<(), SubstitutionError>)
        ensures
            r is Ok,
            final(self)@ == old(self)@.substituted(dictionary_view(dic@)),
            final(self).owns_texts(),
        decreases *old(self),
    {
        let mut i: usize = 0;
        while i < self.rows.len()
            invariant
                i <= self.rows.len(),
                self.property == old(self).property,
                self.grids == old(self).grids,
                self.rows@.len() == old(self).rows@.len(),
                forall|j: int| i <= j < self.rows@.len() ==> self.rows@[j] == old(self).rows@[j],
                forall|j: int| 0 <= j < i ==> (#[trigger] self.rows@[j]).owns_texts(),
                forall|j: int|
                    0 <= j < i ==> (#[trigger] self.rows@[j])@ == old(self).rows@[j]@.substituted(
                        dictionary_view(dic@),
                    ),
            decreases self.rows.len() - i,
        {
            proof {
                assert(decreases_to!(*old(self) => old(self).rows@[i as int]));
            }
            let _ = self.rows[i].replace_text(dic);
            i = i + 1;
        }
        proof {
            assert(self@.rows =~= old(self)@.substituted(dictionary_view(dic@)).rows);
        }
        Ok(())
    }
}

/// What the children of a row read as: its cells in order, or the error of
/// the first cell that fails. Children that are no cells are passed over.
pub open spec fn cells_decoded(nodes: Seq<NodeView>) -> Result<Seq<TableCellView>, DecodeError>
    decreases nodes,
{
    if nodes.len() == 0 {
        Ok(Seq::empty())
    } else {
        match cells_decoded(nodes.drop_last()) {
            Err(x) => Err(x),
            Ok(front) => match nodes.last() {
                NodeView::Element(el) => if el.tag == "w:tc"@ {
                    match TableCellView::decoded(el) {
                        Ok(x) => Ok(front.push(x)),
                        Err(x) => Err(x),
                    }
                } else {
                    Ok(front)
                },
                _ => Ok(front),
            },
        }
    }
}

/// Reading one child more.
pub proof fn lemma_cells_decoded_step(nodes: Seq<NodeView>, i: int)
    requires
        0 <= i < nodes.len(),
    ensures
        cells_decoded(nodes.take(i + 1)) == (match cells_decoded(nodes.take(i)) {
            Err(x) => Err(x),
            Ok(front) => match nodes[i] {
                NodeView::Element(el) => match TableCellView::decoded_child(el) {
                    None => Ok(front),
                    Some(Ok(x)) => Ok(front.push(x)),
                    Some(Err(x)) => Err(x),
                },
                _ => Ok(front),
            },
        }),
{
    assert(nodes.take(i + 1).drop_last() =~= nodes.take(i));
    assert(nodes.take(i + 1).last() == nodes[i]);
}

/// Where the first `k` children fail to read, all of them fail alike.
pub proof fn lemma_cells_decoded_prefix_error(nodes: Seq<NodeView>, k: int)
    requires
        0 <= k <= nodes.len(),
        cells_decoded(nodes.take(k)) is Err,
    ensures
        cells_decoded(nodes) == cells_decoded(nodes.take(k)),
    decreases nodes.len() - k,
{
    if k < nodes.len() {
        assert(nodes.take(k + 1).drop_last() =~= nodes.take(k));
        lemma_cells_decoded_prefix_error(nodes, k + 1);
    } else {
        assert(nodes.take(k) =~= nodes);
    }
}

/// What the children of a table read as: its rows in order, or the error of
/// the first row that fails. Children that are no rows are passed over.
pub open spec fn rows_decoded(nodes: Seq<NodeView>) -> Result<Seq<TableRowView>, DecodeError>
    decreases nodes,
{
    if nodes.len() == 0 {
        Ok(Seq::empty())
    } else {
        match rows_decoded(nodes.drop_last()) {
            Err(x) => Err(x),
            Ok(front) => match nodes.last() {
                NodeView::Element(el) => if el.tag == "w:tr"@ {
                    match TableRowView::decoded(el) {
                        Ok(x) => Ok(front.push(x)),
                        Err(x) => Err(x),
                    }
                } else {
                    Ok(front)
                },
                _ => Ok(front),
            },
        }
    }
}

/// Reading one child more.
pub proof fn lemma_rows_decoded_step(nodes: Seq<NodeView>, i: int)
    requires
        0 <= i < nodes.len(),
    ensures
        rows_decoded(nodes.take(i + 1)) == (match rows_decoded(nodes.take(i)) {
            Err(x) => Err(x),
            Ok(front) => match nodes[i] {
                NodeView::Element(el) => match TableRowView::decoded_child(el) {
                    None => Ok(front),
                    Some(Ok(x)) => Ok(front.push(x)),
                    Some(Err(x)) => Err(x),
                },
                _ => Ok(front),
            },
        }),
{
    assert(nodes.take(i + 1).drop_last() =~= nodes.take(i));
    assert(nodes.take(i + 1).last() == nodes[i]);
}

/// Where the first `k` children fail to read, all of them fail alike.
pub proof fn lemma_rows_decoded_prefix_error(nodes: Seq<NodeView>, k: int)
    requires
        0 <= k <= nodes.len(),
        rows_decoded(nodes.take(k)) is Err,
    ensures
        rows_decoded(nodes) == rows_decoded(nodes.take(k)),
    decreases nodes.len() - k,
{
    if k < nodes.len() {
        assert(nodes.take(k + 1).drop_last() =~= nodes.take(k));
        lemma_rows_decoded_prefix_error(nodes, k + 1);
    } else {
        assert(nodes.take(k) =~= nodes);
    }
}

/// The views of a sequence of cells.
pub open spec fn cells_view(cs: Seq<TableCell<'_>>) -> Seq<TableCellView>
    decreases cs,
{
    Seq::new(
        cs.len(),
        |i: int|
            if 0 <= i < cs.len() {
                cs[i].view()
            } else {
                TableCellView {
                    property: TableCellProperty::default_value(),
                    content: Seq::empty(),
                }
            },
    )
}

/// The views of a sequence of rows.
pub open spec fn rows_view(rs: Seq<TableRow<'_>>) -> Seq<TableRowView>
    decreases rs,
{
    Seq::new(
        rs.len(),
        |i: int|
            if 0 <= i < rs.len() {
                rs[i].view()
            } else {
                TableRowView { cells: Seq::empty() }
            },
    )
}

/// The elements that a sequence of cells is written as.
pub open spec fn cells_encoded(cs: Seq<TableCellView>) -> Seq<ElementView>
    decreases cs,
{
    Seq::new(
        cs.len(),
        |i: int|
            if 0 <= i < cs.len() {
                cs[i].encoded()
            } else {
                empty_element(Seq::empty())
            },
    )
}

/// The elements that a sequence of rows is written as.
pub open spec fn rows_encoded(rs: Seq<TableRowView>) -> Seq<ElementView>
    decreases rs,
{
    Seq::new(
        rs.len(),
        |i: int|
            if 0 <= i < rs.len() {
                rs[i].encoded()
            } else {
                empty_element(Seq::empty())
            },
    )
}

impl TableRowView {
    /// The element that the row is written as: one child for each cell.
    pub open spec fn encoded(self) -> ElementView
        decreases self,
    {
        ElementView {
            tag: "w:tr"@,
            attributes: Seq::empty(),
            children: element_nodes(cells_encoded(self.cells)),
        }
    }

    /// The row that an element reads as. The element must have the tag
    /// `w:tr`; children that are no cells are passed over, and a cell that
    /// fails to read fails the row.
    pub open spec fn decoded(e: ElementView) -> Result<TableRowView, DecodeError>
        decreases e,
    {
        if e.tag != "w:tr"@ {
            Err(DecodeError::UnexpectedTag)
        } else {
            match cells_decoded(e.children) {
                Ok(cells) => Ok(TableRowView { cells }),
                Err(x) => Err(x),
            }
        }
    }

    /// What a child of a table reads as: a row where its tag is `w:tr`,
    /// nothing where it is not.
    pub open spec fn decoded_child(e: ElementView) -> Option<Result<TableRowView, DecodeError>> {
        if e.tag == "w:tr"@ {
            Some(TableRowView::decoded(e))
        } else {
            None
        }
    }

    /// A row is written under the tag `w:tr`.
    pub proof fn lemma_encoded_tag(self)
        ensures
            self.encoded().tag == "w:tr"@,
    {
    }

    /// A row reads as it was written.
    pub proof fn lemma_decode_encode(self)
        ensures
            TableRowView::decoded(self.encoded()) == Ok::<TableRowView, DecodeError>(self),
        decreases self,
    {
        lemma_cells_written(self.cells);
    }
}

impl TableView {
    /// The element that the table is written as: one child for each row.
    pub open spec fn encoded(self) -> ElementView
        decreases self,
    {
        ElementView {
            tag: "w:tbl"@,
            attributes: Seq::empty(),
            children: seq![
                NodeView::Element(self.property.encoded()),
                NodeView::Element(self.grids.encoded()),
            ] + element_nodes(rows_encoded(self.rows)),
        }
    }

    /// The table that an element reads as. The element must have the tag
    /// `w:tbl`. Its properties and its grid are read first, then its rows
    /// in order; children that are none of these are passed over, and what
    /// fails to read fails the table.
    pub open spec fn decoded(e: ElementView) -> Result<TableView, DecodeError>
        decreases e,
    {
        if e.tag != "w:tbl"@ {
            Err(DecodeError::UnexpectedTag)
        } else {
            match table_property_decoded(e.children) {
                Err(x) => Err(x),
                Ok(property) => match table_grid_decoded(e.children) {
                    Err(x) => Err(x),
                    Ok(grids) => match rows_decoded(e.children) {
                        Ok(rows) => Ok(TableView { property, grids, rows }),
                        Err(x) => Err(x),
                    },
                },
            }
        }
    }

    /// A table reads as it was written.
    pub proof fn lemma_decode_encode(self)
        ensures
            TableView::decoded(self.encoded()) == Ok::<TableView, DecodeError>(self),
        decreases self,
    {
        lemma_table_tags();
        let front = seq![
            NodeView::Element(self.property.encoded()),
            NodeView::Element(self.grids.encoded()),
        ];
        let rest = element_nodes(rows_encoded(self.rows));
        lemma_rows_written(self.rows);
        lemma_rows_decoded_skip_front(front, rest);
        assert forall|i: int| 0 <= i < rest.len() implies !is_element(
            #[trigger] rest[i],
            "w:tblPr"@,
        ) && !is_element(rest[i], "w:tblGrid"@) by {
            assert(rest[i] == NodeView::Element(self.rows[i].encoded()));
        }
        lemma_find_child_none(rest, "w:tblPr"@);
        lemma_find_child_none(rest, "w:tblGrid"@);
        lemma_find_child_concat(front, rest, "w:tblPr"@);
        lemma_find_child_concat(front, rest, "w:tblGrid"@);
        assert(front.drop_last() =~= seq![NodeView::Element(self.property.encoded())]);
        reveal_with_fuel(find_child, 3);
        self.property.lemma_decode_encode();
        self.grids.lemma_decode_encode();
    }
}

/// The tags of a table's children differ from each other.
pub proof fn lemma_table_tags()
    ensures
        "w:tr"@ != "w:tblPr"@,
        "w:tr"@ != "w:tblGrid"@,
        "w:tblPr"@ != "w:tblGrid"@,
{
    reveal_strlit("w:tr");
    reveal_strlit("w:tblPr");
    reveal_strlit("w:tblGrid");
    assert("w:tr"@.len() == 4);
    assert("w:tblPr"@.len() == 7);
    assert("w:tblGrid"@.len() == 9);
}

/// The properties that the children of a table give: those of the child
/// with the tag `w:tblPr`, or the default where there is none. Where there
/// are several, each is read and the last one counts.
pub open spec fn table_property_decoded(nodes: Seq<NodeView>) -> Result<
    TableProperty,
    DecodeError,
> {
    or_default(
        single_decoded(nodes, "w:tblPr"@, |c: ElementView| TableProperty::decoded(c)),
        TableProperty {  },
    )
}

/// The grid that the children of a table give: that of the child with the
/// tag `w:tblGrid`, or one without columns where there is none. Where there
/// are several, each is read and the last one counts.
pub open spec fn table_grid_decoded(nodes: Seq<NodeView>) -> Result<TableGridView, DecodeError> {
    or_default(
        single_decoded(nodes, "w:tblGrid"@, |c: ElementView| TableGridView::decoded(c)),
        TableGridView { columns: Seq::empty() },
    )
}

/// Children in front that are no rows change nothing of what the rows read
/// as.
pub proof fn lemma_rows_decoded_skip_front(front: Seq<NodeView>, rest: Seq<NodeView>)
    requires
        forall|i: int|
            0 <= i < front.len() ==> !is_element(#[trigger] front[i], "w:tr"@),
    ensures
        rows_decoded(front + rest) == rows_decoded(rest),
    decreases front.len() + rest.len(),
{
    let nodes = front + rest;
    if rest.len() > 0 {
        assert(nodes.drop_last() =~= front + rest.drop_last());
        assert(nodes.last() == rest.last());
        lemma_rows_decoded_skip_front(front, rest.drop_last());
    } else if front.len() > 0 {
        assert(nodes =~= front);
        assert(front.drop_last() + rest =~= front.drop_last());
        assert forall|i: int| 0 <= i < front.drop_last().len() implies !is_element(
            #[trigger] front.drop_last()[i],
            "w:tr"@,
        ) by {
            assert(front.drop_last()[i] == front[i]);
        }
        lemma_rows_decoded_skip_front(front.drop_last(), rest);
        assert(!is_element(front[front.len() - 1], "w:tr"@));
    } else {
        assert(nodes =~= rest);
    }
}

impl TableView {
    /// A table without rows, without columns in its grid, with default
    /// properties.
    pub open spec fn empty() -> TableView {
        TableView {
            property: TableProperty {  },
            grids: TableGridView { columns: Seq::empty() },
            rows: Seq::empty(),
        }
    }
}

/// One cell more that reads well is one cell more in what was read.
pub proof fn lemma_cells_decoded_push(
    nodes: Seq<NodeView>,
    front: Seq<TableCellView>,
    el: ElementView,
    cell: TableCellView,
)
    requires
        nodes.len() > 0,
        cells_decoded(nodes.drop_last()) == Ok::<Seq<TableCellView>, DecodeError>(front),
        nodes.last() == NodeView::Element(el),
        el.tag == "w:tc"@,
        TableCellView::decoded(el) == Ok::<TableCellView, DecodeError>(cell),
    ensures
        cells_decoded(nodes) == Ok::<Seq<TableCellView>, DecodeError>(front.push(cell)),
{
}

/// The nodes that cells are written as: those of all but the last, and
/// the last.
pub proof fn lemma_cells_encoded_last(cs: Seq<TableCellView>)
    requires
        cs.len() > 0,
    ensures
        element_nodes(cells_encoded(cs)).len() == cs.len(),
        element_nodes(cells_encoded(cs)).drop_last() == element_nodes(
            cells_encoded(cs.drop_last()),
        ),
        element_nodes(cells_encoded(cs)).last() == NodeView::Element(cs.last().encoded()),
{
    assert(element_nodes(cells_encoded(cs)).drop_last() =~= element_nodes(
        cells_encoded(cs.drop_last()),
    ));
}

/// Cells read as they were written.
pub proof fn lemma_cells_written(cs: Seq<TableCellView>)
    ensures
        cells_decoded(element_nodes(cells_encoded(cs))) == Ok::<Seq<TableCellView>, DecodeError>(
            cs,
        ),
    decreases cs,
{
    if cs.len() == 0 {
        assert(cs =~= Seq::<TableCellView>::empty());
    } else {
        lemma_cells_encoded_last(cs);
        lemma_cells_written(cs.drop_last());
        cs.last().lemma_decode_encode();
        cs.last().lemma_encoded_tag();
        lemma_cells_decoded_push(
            element_nodes(cells_encoded(cs)),
            cs.drop_last(),
            cs.last().encoded(),
            cs.last(),
        );
        assert(cs.drop_last().push(cs.last()) =~= cs);
    }
}

/// One row more that reads well is one row more in what was read.
pub proof fn lemma_rows_decoded_push(
    nodes: Seq<NodeView>,
    front: Seq<TableRowView>,
    el: ElementView,
    row: TableRowView,
)
    requires
        nodes.len() > 0,
        rows_decoded(nodes.drop_last()) == Ok::<Seq<TableRowView>, DecodeError>(front),
        nodes.last() == NodeView::Element(el),
        el.tag == "w:tr"@,
        TableRowView::decoded(el) == Ok::<TableRowView, DecodeError>(row),
    ensures
        rows_decoded(nodes) == Ok::<Seq<TableRowView>, DecodeError>(front.push(row)),
{
}

/// The nodes that rows are written as: those of all but the last, and the
/// last.
pub proof fn lemma_rows_encoded_last(rs: Seq<TableRowView>)
    requires
        rs.len() > 0,
    ensures
        element_nodes(rows_encoded(rs)).len() == rs.len(),
        element_nodes(rows_encoded(rs)).drop_last() == element_nodes(
            rows_encoded(rs.drop_last()),
        ),
        element_nodes(rows_encoded(rs)).last() == NodeView::Element(rs.last().encoded()),
{
    assert(element_nodes(rows_encoded(rs)).drop_last() =~= element_nodes(
        rows_encoded(rs.drop_last()),
    ));
}

/// Rows read as they were written.
pub proof fn lemma_rows_written(rs: Seq<TableRowView>)
    ensures
        rows_decoded(element_nodes(rows_encoded(rs))) == Ok::<Seq<TableRowView>, DecodeError>(rs),
    decreases rs,
{
    if rs.len() == 0 {
        assert(rs =~= Seq::<TableRowView>::empty());
    } else {
        lemma_rows_encoded_last(rs);
        lemma_rows_written(rs.drop_last());
        rs.last().lemma_decode_encode();
        rs.last().lemma_encoded_tag();
        lemma_rows_decoded_push(
            element_nodes(rows_encoded(rs)),
            rs.drop_last(),
            rs.last().encoded(),
            rs.last(),
        );
        assert(rs.drop_last().push(rs.last()) =~= rs);
    }
}

impl<'a> TableRow<'a> {
    /// Writes the row as an element.
    pub fn encode(&self) -> (e: Element<'a>)
        ensures
            e@ == self@.encoded(),
        decreases self,
    {
        let mut e = Element::new("w:tr");
        proof {
            assert(cells_view(self.cells@) =~= self@.cells);
        }
        let ghost start = e@;
        let ghost all = element_nodes(cells_encoded(cells_view(self.cells@)));
        let mut i: usize = 0;
        proof {
            assert(start.children + all.take(0) =~= start.children);
        }
        while i < self.cells.len()
            invariant
                i <= self.cells.len(),
                all == element_nodes(cells_encoded(cells_view(self.cells@))),
                all.len() == self.cells.len(),
                e@.tag == start.tag,
                e@.attributes == start.attributes,
                e@.children == start.children + all.take(i as int),
            decreases self.cells.len() - i,
        {
            let child = self.cells[i].encode();
            proof {
                assert(start.children + all.take(i as int + 1) =~= (start.children + all.take(
                    i as int,
                )) + seq![NodeView::Element(child@)]);
            }
            e = e.with_child(Some(child));
            i = i + 1;
        }
        proof {
            assert(all.take(i as int) =~= all);
        }
        proof {
            assert(e@.children =~= self@.encoded().children);
        }
        e
    }

    /// Reads a row from an element.
    pub fn decode(e: &Element<'a>) -> (r: Result<TableRow<'a>, DecodeError>)
        ensures
            decoded_as(r, TableRowView::decoded(e@)),
        decreases e, 1int,
    {
        if !e.has_tag("w:tr") {
            return Err(DecodeError::UnexpectedTag);
        }
        let cells = decode_cells(e)?;
        let row = TableRow { cells };
        proof {
            assert(row@.cells =~= cells_view(row.cells@));
        }
        Ok(row)
    }

    /// Reads a child of a table: a row where its tag is `w:tr`, nothing
    /// where it is not.
    pub fn decode_child(e: &Element<'a>) -> (r: Option<Result<TableRow<'a>, DecodeError>>)
        ensures
            child_decoded_as(r, TableRowView::decoded_child(e@)),
        decreases e, 3int,
    {
        if e.has_tag("w:tr") {
            Some(TableRow::decode(e))
        } else {
            None
        }
    }
}

impl<'a> Table<'a> {
    /// Writes the table as an element.
    pub fn encode(&self) -> (e: Element<'a>)
        ensures
            e@ == self@.encoded(),
        decreases self,
    {
        let mut e = Element::new("w:tbl").with_child(Some(self.property.encode())).with_child(
            Some(self.grids.encode()),
        );
        proof {
            assert(rows_view(self.rows@) =~= self@.rows);
        }
        let ghost start = e@;
        let ghost all = element_nodes(rows_encoded(rows_view(self.rows@)));
        let mut i: usize = 0;
        proof {
            assert(start.children + all.take(0) =~= start.children);
        }
        while i < self.rows.len()
            invariant
                i <= self.rows.len(),
                all == element_nodes(rows_encoded(rows_view(self.rows@))),
                all.len() == self.rows.len(),
                e@.tag == start.tag,
                e@.attributes == start.attributes,
                e@.children == start.children + all.take(i as int),
            decreases self.rows.len() - i,
        {
            let child = self.rows[i].encode();
            proof {
                assert(start.children + all.take(i as int + 1) =~= (start.children + all.take(
                    i as int,
                )) + seq![NodeView::Element(child@)]);
            }
            e = e.with_child(Some(child));
            i = i + 1;
        }
        proof {
            assert(all.take(i as int) =~= all);
        }
        proof {
            assert(e@.children =~= self@.encoded().children);
        }
        e
    }

    /// Reads a table from an element.
    pub fn decode(e: &Element<'a>) -> (r: Result<Table<'a>, DecodeError>)
        ensures
            decoded_as(r, TableView::decoded(e@)),
        decreases e, 1int,
    {
        if !e.has_tag("w:tbl") {
            return Err(DecodeError::UnexpectedTag);
        }
        let property = match e.decode_single_value(
            "w:tblPr",
            TableProperty::decode,
            Ghost(|c: ElementView| TableProperty::decoded(c)),
        )? {
            Some(v) => v,
            None => TableProperty::default(),
        };
        let grids = match e.decode_single(
            "w:tblGrid",
            TableGrid::decode,
            Ghost(|c: ElementView| TableGridView::decoded(c)),
        )? {
            Some(v) => v,
            None => TableGrid::default(),
        };
        let rows = decode_rows(e)?;
        let table = Table { property, grids, rows };
        proof {
            assert(table@.rows =~= rows_view(table.rows@));
        }
        Ok(table)
    }
}

/// Reads the cells of a row from the children of `e`, as [`cells_decoded`]
/// says.
pub fn decode_cells<'a>(e: &Element<'a>) -> (r: Result<Vec<TableCell<'a>>, DecodeError>)
    ensures
        match cells_decoded(e@.children) {
            Ok(items) => r is Ok && cells_view(r->Ok_0@) == items,
            Err(x) => r == Err::<Vec<TableCell<'a>>, DecodeError>(x),
        },
    decreases e, 0int,
{
    let mut cells: Vec<TableCell<'a>> = Vec::new();
    let mut i: usize = 0;
    proof {
        assert(e@.children.take(0) =~= Seq::<NodeView>::empty());
        assert(cells_view(cells@) =~= Seq::<TableCellView>::empty());
    }
    while i < e.children.len()
        invariant
            i <= e.children.len(),
            cells_decoded(e@.children.take(i as int)) == Ok::<Seq<TableCellView>, DecodeError>(
                cells_view(cells@),
            ),
        decreases e.children.len() - i,
    {
        proof {
            lemma_cells_decoded_step(e@.children, i as int);
            assert(e@.children[i as int] == e.children@[i as int]@);
        }
        let ghost before = cells_view(cells@);
        match &e.children[i] {
            Node::Element(c) => match TableCell::decode_child(c) {
                None => {},
                Some(Ok(x)) => {
                    cells.push(x);
                    proof {
                        assert(cells_view(cells@) =~= before.push(x@));
                    }
                },
                Some(Err(x)) => {
                    proof {
                        lemma_cells_decoded_prefix_error(e@.children, i as int + 1);
                    }
                    return Err(x);
                },
            },
            _ => {},
        }
        i = i + 1;
    }
    proof {
        assert(e@.children.take(i as int) =~= e@.children);
    }
    Ok(cells)
}

/// Reads the rows of a table from the children of `e`, as [`rows_decoded`]
/// says.
pub fn decode_rows<'a>(e: &Element<'a>) -> (r: Result<Vec<TableRow<'a>>, DecodeError>)
    ensures
        match rows_decoded(e@.children) {
            Ok(items) => r is Ok && rows_view(r->Ok_0@) == items,
            Err(x) => r == Err::<Vec<TableRow<'a>>, DecodeError>(x),
        },
    decreases e, 0int,
{
    let mut rows: Vec<TableRow<'a>> = Vec::new();
    let mut i: usize = 0;
    proof {
        assert(e@.children.take(0) =~= Seq::<NodeView>::empty());
        assert(rows_view(rows@) =~= Seq::<TableRowView>::empty());
    }
    while i < e.children.len()
        invariant
            i <= e.children.len(),
            rows_decoded(e@.children.take(i as int)) == Ok::<Seq<TableRowView>, DecodeError>(
                rows_view(rows@),
            ),
        decreases e.children.len() - i,
    {
        proof {
            lemma_rows_decoded_step(e@.children, i as int);
            assert(e@.children[i as int] == e.children@[i as int]@);
        }
        let ghost before = rows_view(rows@);
        match &e.children[i] {
            Node::Element(c) => match TableRow::decode_child(c) {
                None => {},
                Some(Ok(x)) => {
                    rows.push(x);
                    proof {
                        assert(rows_view(rows@) =~= before.push(x@));
                    }
                },
                Some(Err(x)) => {
                    proof {
                        lemma_rows_decoded_prefix_error(e@.children, i as int + 1);
                    }
                    return Err(x);
                },
            },
            _ => {},
        }
        i = i + 1;
    }
    proof {
        assert(e@.children.take(i as int) =~= e@.children);
    }
    Ok(rows)
}

impl<'a> TableRow<'a> {
    /// Reads a row from XML text: the first element of the text with the tag
    /// `w:tr` is read as [`TableRow::decode`] reads an element. Whole elements
    /// with other tags before it are passed over.
    pub fn from_str(text: &'a str) -> (r: Result<TableRow<'a>, DecodeError>)
        ensures
            decoded_as(
                r,
                match parsed_as(text@, seq!["w:tr"@]) {
                    Ok(e) => TableRowView::decoded(e),
                    Err(x) => Err(x),
                },
            ),
    {
        let mut tags: Vec<&str> = Vec::new();
        tags.push("w:tr");
        proof {
            assert(names_view(tags@) =~= seq!["w:tr"@]);
        }
        match parse_as(text, &tags) {
            Ok(e) => TableRow::decode(&e),
            Err(x) => Err(x),
        }
    }

    /// The XML text of the element that [`TableRow::encode`] gives.
    pub fn to_string(&self) -> (r: String)
        ensures
            r@ == element_text(self@.encoded()),
    {
        self.encode().to_string()
    }
}

impl<'a> Table<'a> {
    /// Reads a table from XML text: the first element of the text with the tag
    /// `w:tbl` is read as [`Table::decode`] reads an element. Whole elements
    /// with other tags before it are passed over.
    pub fn from_str(text: &'a str) -> (r: Result<Table<'a>, DecodeError>)
        ensures
            decoded_as(
                r,
                match parsed_as(text@, seq!["w:tbl"@]) {
                    Ok(e) => TableView::decoded(e),
                    Err(x) => Err(x),
                },
            ),
    {
        let mut tags: Vec<&str> = Vec::new();
        tags.push("w:tbl");
        proof {
            assert(names_view(tags@) =~= seq!["w:tbl"@]);
        }
        match parse_as(text, &tags) {
            Ok(e) => Table::decode(&e),
            Err(x) => Err(x),
        }
    }

    /// The XML text of the element that [`Table::encode`] gives.
    pub fn to_string(&self) -> (r: String)
        ensures
            r@ == element_text(self@.encoded()),
    {
        self.encode().to_string()
    }
}

impl TableRowView {
    /// The row with its text leaves replaced, in order, by `texts`.
    pub open spec fn with_texts(self, texts: Seq<Seq<char>>) -> TableRowView
        decreases self,
    {
        TableRowView { cells: cells_with_texts(self.cells, texts) }
    }
}

impl TableView {
    /// The table with its text leaves replaced, in order, by `texts`.
    pub open spec fn with_texts(self, texts: Seq<Seq<char>>) -> TableView
        decreases self,
    {
        TableView { rows: rows_with_texts(self.rows, texts), ..self }
    }
}

impl<'a> TableRow<'a> {
    /// Exclusive handles on the text leaves of the row, in order. What is
    /// written through a handle is what the leaf holds afterwards; nothing else
    /// changes.
    pub fn iter_text_mut<'b>(&'b mut self) -> (r: Vec<&'b mut Cow<'a, str>>)
        ensures
            r@.len() == old(self)@.texts().len(),
            forall|i: int| 0 <= i < r@.len() ==> (*#[trigger] r@[i])@ == old(self)@.texts()[i],
            final(self)@ == old(self)@.with_texts(Seq::new(r@.len(), |i: int| (*final(r@[i]))@)),
        decreases *old(self),
    {
        cells_iter_text_mut(&mut self.cells)
    }
}

impl<'a> Table<'a> {
    /// Exclusive handles on the text leaves of the table, in reading order.
    /// What is written through a handle is what the leaf holds afterwards;
    /// nothing else changes.
    pub fn iter_text_mut<'b>(&'b mut self) -> (r: Vec<&'b mut Cow<'a, str>>)
        ensures
            r@.len() == old(self)@.texts().len(),
            forall|i: int| 0 <= i < r@.len() ==> (*#[trigger] r@[i])@ == old(self)@.texts()[i],
            final(self)@ == old(self)@.with_texts(Seq::new(r@.len(), |i: int| (*final(r@[i]))@)),
        decreases *old(self),
    {
        rows_iter_text_mut(&mut self.rows)
    }
}

/// The number of text leaves in the first `i` of `cs`.
pub open spec fn cells_offset(cs: Seq<TableCellView>, i: int) -> int {
    cells_texts(cs.take(i)).len() as int
}

/// Cells with their text leaves replaced, in order, by `texts`: each
/// takes as many of `texts` as it has leaves.
pub open spec fn cells_with_texts(
    cs: Seq<TableCellView>,
    texts: Seq<Seq<char>>,
) -> Seq<TableCellView>
    decreases cs,
{
    Seq::new(
        cs.len(),
        |i: int|
            if 0 <= i < cs.len() {
                cs[i].with_texts(
                texts.subrange(cells_offset(cs, i), cells_offset(cs, i + 1)),
            )
            } else {
                cs[i]
            },
    )
}

/// The leaves of one more of `cs` follow those of the ones before it.
pub proof fn lemma_cells_offset_step(cs: Seq<TableCellView>, i: int)
    requires
        0 <= i < cs.len(),
    ensures
        cells_texts(cs.take(i + 1)) == cells_texts(cs.take(i)) + cs[i].texts(),
        cells_offset(cs, i + 1) == cells_offset(cs, i) + cs[i].texts().len(),
        cells_offset(cs, i) >= 0,
{
    assert(cs.take(i + 1).drop_last() =~= cs.take(i));
    assert(cs.take(i + 1).last() == cs[i]);
}

/// The more of `cs` are counted, the more leaves there are.
pub proof fn lemma_cells_offset_monotonic(cs: Seq<TableCellView>, i: int, j: int)
    requires
        0 <= i <= j <= cs.len(),
    ensures
        0 <= cells_offset(cs, i) <= cells_offset(cs, j),
    decreases j - i,
{
    if i < j {
        lemma_cells_offset_step(cs, j - 1);
        lemma_cells_offset_monotonic(cs, i, j - 1);
    }
}

/// Exclusive handles on the text leaves of `items`, in order. What is
/// written through a handle is what the leaf holds afterwards; nothing else
/// changes.
#[verifier::rlimit(100)]
pub fn cells_iter_text_mut<'b, 'a>(
    items: &'b mut Vec<TableCell<'a>>,
) -> (r: Vec<&'b mut Cow<'a, str>>)
    ensures
        r@.len() == cells_texts(cells_view(old(items)@)).len(),
        forall|i: int|
            0 <= i < r@.len() ==> (*#[trigger] r@[i])@ == cells_texts(cells_view(old(items)@))[i],
        cells_view(final(items)@) == cells_with_texts(
            cells_view(old(items)@),
            Seq::new(r@.len(), |i: int| (*final(r@[i]))@),
        ),
    decreases *old(items),
{
    let mut out: Vec<&'b mut Cow<'a, str>> = Vec::new();
    let ghost whole = *items;
    let ghost orig = items@;
    let ghost views = cells_view(items@);
    let mut rest: &'b mut [TableCell<'a>] = items.as_mut_slice();
    let ghost all = final(rest)@;
    proof {
        assert(views.take(0) =~= Seq::<TableCellView>::empty());
        assert(orig.skip(0) =~= orig);
    }
    while rest.len() > 0
        invariant
            whole == *old(items),
            whole@ == orig,
            views == cells_view(orig),
            rest@.len() <= orig.len(),
            rest@ == orig.skip(orig.len() - rest@.len()),
            out@.len() == cells_offset(views, orig.len() - rest@.len()),
            forall|j: int|
                0 <= j < out@.len() ==> (*#[trigger] out@[j])@ == cells_texts(
                    views.take(orig.len() - rest@.len()),
                )[j],
            all.len() == orig.len() - rest@.len() + final(rest)@.len(),
            forall|j: int|
                0 <= j < final(rest)@.len() ==> #[trigger] all[orig.len() - rest@.len() + j]
                    == final(rest)@[j],
            forall|idx: int|
                0 <= idx < orig.len() - rest@.len() ==> (#[trigger] all[idx])@
                    == views[idx].with_texts(
                    Seq::new(
                        out@.len(),
                        |j: int| (*final(out@[j]))@,
                    ).subrange(cells_offset(views, idx), cells_offset(views, idx + 1)),
                ),
        decreases rest.len(),
    {
        let ghost k = orig.len() - rest@.len();
        let ghost fr = final(rest)@;
        let ghost n0 = out@.len() as int;
        let ghost out0 = out@;
        let ghost fin0 = Seq::new(out@.len(), |j: int| (*final(out@[j]))@);
        proof {
            lemma_cells_offset_step(views, k);
        }
        let (head, tail) = rest.split_at_mut(1);
        let ghost fh = final(head)@;
        let ghost ft = final(tail)@;
        assert(fr == fh + ft);
        assert(head@[0] == orig[k]);
        rest = tail;
        match head.first_mut() {
            Some(c) => {
                assert(fh.len() == 1);
                assert(fh[0] == *final(c));
                proof {
                    assert(*c == whole@[k]);
                    assert(decreases_to!(whole => whole@[k]));
                }
                let mut part = c.iter_text_mut();
                let ghost part0 = part@;
                let ghost part_fin = Seq::new(part0.len(), |j: int| (*final(part0[j]))@);
                out.append(&mut part);
                let ghost fin = Seq::new(out@.len(), |j: int| (*final(out@[j]))@);
                proof {
                    assert(out@ =~= out0 + part0);
                    assert(fin =~= fin0 + part_fin);
                    assert(all[k + 0] == fr[0]);
                    assert forall|j: int| 0 <= j < ft.len() implies all[k + 1 + j] == ft[j] by {
                        assert(all[k + (1 + j)] == fr[1 + j]);
                    }
                    assert(out@ =~= out0 + part0);
                    assert(views[k] == orig[k]@);
                    assert(part0.len() == views[k].texts().len());
                    assert(fin.subrange(n0, n0 + part0.len()) =~= part_fin);
                    assert(all[k]@ == views[k].with_texts(
                        fin.subrange(cells_offset(views, k), cells_offset(views, k + 1)),
                    ));
                    assert forall|idx: int| 0 <= idx < k implies (#[trigger] all[idx])@
                        == views[idx].with_texts(
                        fin.subrange(cells_offset(views, idx), cells_offset(views, idx + 1)),
                    ) by {
                        lemma_cells_offset_monotonic(views, idx + 1, k);
                        lemma_cells_offset_monotonic(views, idx, idx + 1);
                        assert(fin.subrange(
                            cells_offset(views, idx),
                            cells_offset(views, idx + 1),
                        ) =~= fin0.subrange(
                            cells_offset(views, idx),
                            cells_offset(views, idx + 1),
                        ));
                    }
                }
            },
            None => {},
        }
    }
    proof {
        assert(views.take(orig.len() as int) =~= views);
        let fin = Seq::new(out@.len(), |j: int| (*final(out@[j]))@);
        let texts = Seq::new(out@.len(), |i: int| (*final(out@[i]))@);
        assert(texts =~= fin);
        assert(cells_view(all) =~= cells_with_texts(views, fin));
    }
    out
}

/// The number of text leaves in the first `i` of `cs`.
pub open spec fn rows_offset(cs: Seq<TableRowView>, i: int) -> int {
    rows_texts(cs.take(i)).len() as int
}

/// Rows with their text leaves replaced, in order, by `texts`: each
/// takes as many of `texts` as it has leaves.
pub open spec fn rows_with_texts(cs: Seq<TableRowView>, texts: Seq<Seq<char>>) -> Seq<TableRowView>
    decreases cs,
{
    Seq::new(
        cs.len(),
        |i: int|
            if 0 <= i < cs.len() {
                cs[i].with_texts(
                texts.subrange(rows_offset(cs, i), rows_offset(cs, i + 1)),
            )
            } else {
                cs[i]
            },
    )
}

/// The leaves of one more of `cs` follow those of the ones before it.
pub proof fn lemma_rows_offset_step(cs: Seq<TableRowView>, i: int)
    requires
        0 <= i < cs.len(),
    ensures
        rows_texts(cs.take(i + 1)) == rows_texts(cs.take(i)) + cs[i].texts(),
        rows_offset(cs, i + 1) == rows_offset(cs, i) + cs[i].texts().len(),
        rows_offset(cs, i) >= 0,
{
    assert(cs.take(i + 1).drop_last() =~= cs.take(i));
    assert(cs.take(i + 1).last() == cs[i]);
}

/// The more of `cs` are counted, the more leaves there are.
pub proof fn lemma_rows_offset_monotonic(cs: Seq<TableRowView>, i: int, j: int)
    requires
        0 <= i <= j <= cs.len(),
    ensures
        0 <= rows_offset(cs, i) <= rows_offset(cs, j),
    decreases j - i,
{
    if i < j {
        lemma_rows_offset_step(cs, j - 1);
        lemma_rows_offset_monotonic(cs, i, j - 1);
    }
}

/// Exclusive handles on the text leaves of `items`, in order. What is
/// written through a handle is what the leaf holds afterwards; nothing else
/// changes.
#[verifier::rlimit(100)]
pub fn rows_iter_text_mut<'b, 'a>(
    items: &'b mut Vec<TableRow<'a>>,
) -> (r: Vec<&'b mut Cow<'a, str>>)
    ensures
        r@.len() == rows_texts(rows_view(old(items)@)).len(),
        forall|i: int|
            0 <= i < r@.len() ==> (*#[trigger] r@[i])@ == rows_texts(rows_view(old(items)@))[i],
        rows_view(final(items)@) == rows_with_texts(
            rows_view(old(items)@),
            Seq::new(r@.len(), |i: int| (*final(r@[i]))@),
        ),
    decreases *old(items),
{
    let mut out: Vec<&'b mut Cow<'a, str>> = Vec::new();
    let ghost whole = *items;
    let ghost orig = items@;
    let ghost views = rows_view(items@);
    let mut rest: &'b mut [TableRow<'a>] = items.as_mut_slice();
    let ghost all = final(rest)@;
    proof {
        assert(views.take(0) =~= Seq::<TableRowView>::empty());
        assert(orig.skip(0) =~= orig);
    }
    while rest.len() > 0
        invariant
            whole == *old(items),
            whole@ == orig,
            views == rows_view(orig),
            rest@.len() <= orig.len(),
            rest@ == orig.skip(orig.len() - rest@.len()),
            out@.len() == rows_offset(views, orig.len() - rest@.len()),
            forall|j: int|
                0 <= j < out@.len() ==> (*#[trigger] out@[j])@ == rows_texts(
                    views.take(orig.len() - rest@.len()),
                )[j],
            all.len() == orig.len() - rest@.len() + final(rest)@.len(),
            forall|j: int|
                0 <= j < final(rest)@.len() ==> #[trigger] all[orig.len() - rest@.len() + j]
                    == final(rest)@[j],
            forall|idx: int|
                0 <= idx < orig.len() - rest@.len() ==> (#[trigger] all[idx])@
                    == views[idx].with_texts(
                    Seq::new(
                        out@.len(),
                        |j: int| (*final(out@[j]))@,
                    ).subrange(rows_offset(views, idx), rows_offset(views, idx + 1)),
                ),
        decreases rest.len(),
    {
        let ghost k = orig.len() - rest@.len();
        let ghost fr = final(rest)@;
        let ghost n0 = out@.len() as int;
        let ghost out0 = out@;
        let ghost fin0 = Seq::new(out@.len(), |j: int| (*final(out@[j]))@);
        proof {
            lemma_rows_offset_step(views, k);
        }
        let (head, tail) = rest.split_at_mut(1);
        let ghost fh = final(head)@;
        let ghost ft = final(tail)@;
        assert(fr == fh + ft);
        assert(head@[0] == orig[k]);
        rest = tail;
        match head.first_mut() {
            Some(c) => {
                assert(fh.len() == 1);
                assert(fh[0] == *final(c));
                proof {
                    assert(*c == whole@[k]);
                    assert(decreases_to!(whole => whole@[k]));
                }
                let mut part = c.iter_text_mut();
                let ghost part0 = part@;
                let ghost part_fin = Seq::new(part0.len(), |j: int| (*final(part0[j]))@);
                out.append(&mut part);
                let ghost fin = Seq::new(out@.len(), |j: int| (*final(out@[j]))@);
                proof {
                    assert(out@ =~= out0 + part0);
                    assert(fin =~= fin0 + part_fin);
                    assert(all[k + 0] == fr[0]);
                    assert forall|j: int| 0 <= j < ft.len() implies all[k + 1 + j] == ft[j] by {
                        assert(all[k + (1 + j)] == fr[1 + j]);
                    }
                    assert(out@ =~= out0 + part0);
                    assert(views[k] == orig[k]@);
                    assert(part0.len() == views[k].texts().len());
                    assert(fin.subrange(n0, n0 + part0.len()) =~= part_fin);
                    assert(all[k]@ == views[k].with_texts(
                        fin.subrange(rows_offset(views, k), rows_offset(views, k + 1)),
                    ));
                    assert forall|idx: int| 0 <= idx < k implies (#[trigger] all[idx])@
                        == views[idx].with_texts(
                        fin.subrange(rows_offset(views, idx), rows_offset(views, idx + 1)),
                    ) by {
                        lemma_rows_offset_monotonic(views, idx + 1, k);
                        lemma_rows_offset_monotonic(views, idx, idx + 1);
                        assert(fin.subrange(
                            rows_offset(views, idx),
                            rows_offset(views, idx + 1),
                        ) =~= fin0.subrange(
                            rows_offset(views, idx),
                            rows_offset(views, idx + 1),
                        ));
                    }
                }
            },
            None => {},
        }
    }
    proof {
        assert(views.take(orig.len() as int) =~= views);
        let fin = Seq::new(out@.len(), |j: int| (*final(out@[j]))@);
        let texts = Seq::new(out@.len(), |i: int| (*final(out@[i]))@);
        assert(texts =~= fin);
        assert(rows_view(all) =~= rows_with_texts(views, fin));
    }
    out
}

impl TableRowView {
    /// The text leaves of the first `n` parts after a substitution are the
    /// substituted text leaves of the first `n` parts.
    pub proof fn lemma_substituted_texts_prefix(self, dict: Seq<(Seq<char>, Seq<char>)>, n: int)
        requires
            0 <= n <= self.cells.len(),
        ensures
            cells_texts(self.substituted(dict).cells.take(n)) == texts_substituted(
                cells_texts(self.cells.take(n)),
                dict,
            ),
        decreases self, n,
    {
        let after = self.substituted(dict).cells;
        if n == 0 {
            assert(after.take(0) =~= self.cells.take(0));
            assert(cells_texts(after.take(0)) =~= texts_substituted(
                cells_texts(self.cells.take(0)),
                dict,
            ));
        } else {
            self.lemma_substituted_texts_prefix(dict, n - 1);
            self.cells[n - 1].lemma_substituted_texts(dict);
            assert(after.take(n).drop_last() =~= after.take(n - 1));
            assert(after.take(n).last() == self.cells[n - 1].substituted(dict));
            assert(self.cells.take(n).drop_last() =~= self.cells.take(n - 1));
            assert(self.cells.take(n).last() == self.cells[n - 1]);
            lemma_texts_substituted_concat(
                cells_texts(self.cells.take(n - 1)),
                self.cells[n - 1].texts(),
                dict,
            );
        }
    }

    /// Substitution and traversal agree: the text leaves of a row after
    /// a substitution are its text leaves before, each with the dictionary
    /// applied, in the same order.
    pub proof fn lemma_substituted_texts(self, dict: Seq<(Seq<char>, Seq<char>)>)
        ensures
            self.substituted(dict).texts() == texts_substituted(self.texts(), dict),
        decreases self, self.cells.len() + 1,
    {
        self.lemma_substituted_texts_prefix(dict, self.cells.len() as int);
        assert(self.cells.take(self.cells.len() as int) =~= self.cells);
        let after = self.substituted(dict).cells;
        assert(after.take(after.len() as int) =~= after);
    }
}

impl TableView {
    /// The text leaves of the first `n` parts after a substitution are the
    /// substituted text leaves of the first `n` parts.
    pub proof fn lemma_substituted_texts_prefix(self, dict: Seq<(Seq<char>, Seq<char>)>, n: int)
        requires
            0 <= n <= self.rows.len(),
        ensures
            rows_texts(self.substituted(dict).rows.take(n)) == texts_substituted(
                rows_texts(self.rows.take(n)),
                dict,
            ),
        decreases self, n,
    {
        let after = self.substituted(dict).rows;
        if n == 0 {
            assert(after.take(0) =~= self.rows.take(0));
            assert(rows_texts(after.take(0)) =~= texts_substituted(
                rows_texts(self.rows.take(0)),
                dict,
            ));
        } else {
            self.lemma_substituted_texts_prefix(dict, n - 1);
            self.rows[n - 1].lemma_substituted_texts(dict);
            assert(after.take(n).drop_last() =~= after.take(n - 1));
            assert(after.take(n).last() == self.rows[n - 1].substituted(dict));
            assert(self.rows.take(n).drop_last() =~= self.rows.take(n - 1));
            assert(self.rows.take(n).last() == self.rows[n - 1]);
            lemma_texts_substituted_concat(
                rows_texts(self.rows.take(n - 1)),
                self.rows[n - 1].texts(),
                dict,
            );
        }
    }

    /// Substitution and traversal agree: the text leaves of a table after
    /// a substitution are its text leaves before, each with the dictionary
    /// applied, in the same order.
    pub proof fn lemma_substituted_texts(self, dict: Seq<(Seq<char>, Seq<char>)>)
        ensures
            self.substituted(dict).texts() == texts_substituted(self.texts(), dict),
        decreases self, self.rows.len() + 1,
    {
        self.lemma_substituted_texts_prefix(dict, self.rows.len() as int);
        assert(self.rows.take(self.rows.len() as int) =~= self.rows);
        let after = self.substituted(dict).rows;
        assert(after.take(after.len() as int) =~= after);
    }
}

impl TableRowView {
    /// The text leaves of the first `n` parts after their leaves were
    /// replaced are the texts that took their place.
    #[verifier::rlimit(100)]
    pub proof fn lemma_with_texts_prefix(self, texts: Seq<Seq<char>>, n: int)
        requires
            texts.len() == self.texts().len(),
            0 <= n <= self.cells.len(),
        ensures
            0 <= cells_offset(self.cells, n) <= texts.len(),
            cells_texts(self.with_texts(texts).cells.take(n)) == texts.take(
                cells_offset(self.cells, n),
            ),
        decreases self, n,
    {
        let cs = self.cells;
        let after = self.with_texts(texts).cells;
        assert(cs.take(cs.len() as int) =~= cs);
        lemma_cells_offset_monotonic(cs, n, cs.len() as int);
        if n == 0 {
            assert(after.take(0) =~= cs.take(0));
            assert(cells_texts(after.take(0)) =~= texts.take(cells_offset(cs, 0)));
        } else {
            self.lemma_with_texts_prefix(texts, n - 1);
            lemma_cells_offset_step(cs, n - 1);
            let from = cells_offset(cs, n - 1);
            let to = cells_offset(cs, n);
            cs[n - 1].lemma_with_texts(texts.subrange(from, to));
            lemma_cells_offset_step(after, n - 1);
            assert(after[n - 1] == cs[n - 1].with_texts(texts.subrange(from, to)));
            assert(after[n - 1].texts() == texts.subrange(from, to));
            assert(texts.take(from) + texts.subrange(from, to) =~= texts.take(to));
        }
    }

    /// What is put in place of the text leaves of a row is what a
    /// traversal finds there afterwards, in the same order.
    pub proof fn lemma_with_texts(self, texts: Seq<Seq<char>>)
        requires
            texts.len() == self.texts().len(),
        ensures
            self.with_texts(texts).texts() == texts,
        decreases self, self.cells.len() + 1,
    {
        let cs = self.cells;
        self.lemma_with_texts_prefix(texts, cs.len() as int);
        assert(cs.take(cs.len() as int) =~= cs);
        let after = self.with_texts(texts).cells;
        assert(after.take(after.len() as int) =~= after);
        assert(texts.take(texts.len() as int) =~= texts);
    }
}

impl TableView {
    /// The text leaves of the first `n` parts after their leaves were
    /// replaced are the texts that took their place.
    #[verifier::rlimit(100)]
    pub proof fn lemma_with_texts_prefix(self, texts: Seq<Seq<char>>, n: int)
        requires
            texts.len() == self.texts().len(),
            0 <= n <= self.rows.len(),
        ensures
            0 <= rows_offset(self.rows, n) <= texts.len(),
            rows_texts(self.with_texts(texts).rows.take(n)) == texts.take(
                rows_offset(self.rows, n),
            ),
        decreases self, n,
    {
        let cs = self.rows;
        let after = self.with_texts(texts).rows;
        assert(cs.take(cs.len() as int) =~= cs);
        lemma_rows_offset_monotonic(cs, n, cs.len() as int);
        if n == 0 {
            assert(after.take(0) =~= cs.take(0));
            assert(rows_texts(after.take(0)) =~= texts.take(rows_offset(cs, 0)));
        } else {
            self.lemma_with_texts_prefix(texts, n - 1);
            lemma_rows_offset_step(cs, n - 1);
            let from = rows_offset(cs, n - 1);
            let to = rows_offset(cs, n);
            cs[n - 1].lemma_with_texts(texts.subrange(from, to));
            lemma_rows_offset_step(after, n - 1);
            assert(after[n - 1] == cs[n - 1].with_texts(texts.subrange(from, to)));
            assert(after[n - 1].texts() == texts.subrange(from, to));
            assert(texts.take(from) + texts.subrange(from, to) =~= texts.take(to));
        }
    }

    /// What is put in place of the text leaves of a table is what a
    /// traversal finds there afterwards, in the same order.
    pub proof fn lemma_with_texts(self, texts: Seq<Seq<char>>)
        requires
            texts.len() == self.texts().len(),
        ensures
            self.with_texts(texts).texts() == texts,
        decreases self, self.rows.len() + 1,
    {
        let cs = self.rows;
        self.lemma_with_texts_prefix(texts, cs.len() as int);
        assert(cs.take(cs.len() as int) =~= cs);
        let after = self.with_texts(texts).rows;
        assert(after.take(after.len() as int) =~= after);
        assert(texts.take(texts.len() as int) =~= texts);
    }
}

impl TableRowView {
    /// What was read is in normal form: where an element reads as a row,
    /// writing that and reading it again gives the same.
    pub proof fn lemma_decode_normalizes(e: ElementView)
        requires
            TableRowView::decoded(e) is Ok,
        ensures
            TableRowView::decoded(
                TableRowView::decoded(e)->Ok_0.encoded(),
            ) == TableRowView::decoded(e),
    {
        TableRowView::decoded(e)->Ok_0.lemma_decode_encode();
    }
}

impl TableView {
    /// What was read is in normal form: where an element reads as a table,
    /// writing that and reading it again gives the same.
    pub proof fn lemma_decode_normalizes(e: ElementView)
        requires
            TableView::decoded(e) is Ok,
        ensures
            TableView::decoded(TableView::decoded(e)->Ok_0.encoded()) == TableView::decoded(e),
    {
        TableView::decoded(e)->Ok_0.lemma_decode_encode();
    }
}

/// Whether every text leaf of cells owns its text.
pub open spec fn cells_own_texts(items: Seq<TableCell<'_>>) -> bool
    decreases items,
{
    forall|i: int| 0 <= i < items.len() ==> (#[trigger] items[i]).owns_texts()
}

/// Whether every text leaf of rows owns its text.
pub open spec fn rows_own_texts(items: Seq<TableRow<'_>>) -> bool
    decreases items,
{
    forall|i: int| 0 <= i < items.len() ==> (#[trigger] items[i]).owns_texts()
}

impl<'a> TableRow<'a> {
    /// Whether every text leaf of the row owns its text.
    pub open spec fn owns_texts(&self) -> bool
        decreases self,
    {
        cells_own_texts(self.cells@)
    }
}

impl<'a> Table<'a> {
    /// Whether every text leaf of the table owns its text.
    pub open spec fn owns_texts(&self) -> bool
        decreases self,
    {
        rows_own_texts(self.rows@)
    }
}

impl<'a> Clone for TableRow<'a> {
    fn clone(&self) -> (r: Self)
        ensures
            r@ == self@,
    {
        self.duplicate()
    }
}

impl<'a> TableRow<'a> {
    /// A copy of the row and of all that is below it. The copy holds what
    /// `self` holds.
    pub fn duplicate(&self) -> (r: Self)
        ensures
            r@ == self@,
        decreases self,
    {
        let mut cells: Vec<TableCell<'a>> = Vec::new();
        let mut i: usize = 0;
        while i < self.cells.len()
            invariant
                i <= self.cells.len(),
                cells@.len() == i,
                forall|j: int| 0 <= j < i ==> (#[trigger] cells@[j])@ == self.cells@[j]@,
            decreases self.cells.len() - i,
        {
            cells.push(self.cells[i].duplicate());
            i = i + 1;
        }
        let r = TableRow { cells };
        proof {
            assert(cells_view(r.cells@) =~= cells_view(self.cells@));
        }
        r
    }
}

impl<'a> Clone for Table<'a> {
    fn clone(&self) -> (r: Self)
        ensures
            r@ == self@,
    {
        self.duplicate()
    }
}

impl<'a> Table<'a> {
    /// A copy of the table and of all that is below it. The copy holds what
    /// `self` holds.
    pub fn duplicate(&self) -> (r: Self)
        ensures
            r@ == self@,
        decreases self,
    {
        let mut rows: Vec<TableRow<'a>> = Vec::new();
        let mut i: usize = 0;
        while i < self.rows.len()
            invariant
                i <= self.rows.len(),
                rows@.len() == i,
                forall|j: int| 0 <= j < i ==> (#[trigger] rows@[j])@ == self.rows@[j]@,
            decreases self.rows.len() - i,
        {
            rows.push(self.rows[i].duplicate());
            i = i + 1;
        }
        let r = Table { property: self.property, grids: self.grids.duplicate(), rows };
        proof {
            assert(rows_view(r.rows@) =~= rows_view(self.rows@));
        }
        r
    }
}

} // verus!
