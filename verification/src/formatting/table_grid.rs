//! The grid of a table: the widths of its columns.
use crate::error::DecodeError;
use crate::rounded_float::decimal_text;
use crate::xml::codec::{
    any_repeated, fields_view, lemma_length_written, lemma_written_attribute,
    lemma_written_not_repeated, length_from, names_view, optional_length_value, written_attributes,
    Field,
};
use crate::xml::element::{
    child_decoded_as, decode_children, decoded_as, element_nodes,
    lemma_decode_children_prefix_error, lemma_decode_children_written, Element, ElementView, Node,
    NodeView,
};
use crate::xml::reader::{parse_as, parsed_as};
use crate::xml::writer::element_text;
use std::borrow::Cow;
use vstd::prelude::*;

verus! {

/// One column of the grid of a table (`w:gridCol`).
#[derive(Debug, Clone, Copy, PartialEq, Eq)]
pub struct GridColumn {
    /// Width of the column (`w:w`).
    pub width: isize,
}

impl View for GridColumn {
    type V = GridColumn;

    open spec fn view(&self) -> GridColumn {
        *self
    }
}

impl GridColumn {
    /// The element that the column is written as.
    pub open spec fn encoded(self) -> ElementView {
        ElementView {
            tag: "w:gridCol"@,
            attributes: written_attributes(
                seq![("w:w"@, Some(decimal_text(self.width as int)))],
            ),
            children: Seq::empty(),
        }
    }

    /// The column that an element reads as. The element must have the tag
    /// `w:gridCol` and a length under `w:w`.
    /// Where one of the attributes that are read stands twice, the element
    /// is refused.
    pub open spec fn decoded(e: ElementView) -> Result<GridColumn, DecodeError> {
        if e.tag != "w:gridCol"@ {
            Err(DecodeError::UnexpectedTag)
        } else if any_repeated(e.attributes, seq!["w:w"@]) {
            Err(DecodeError::DuplicateAttribute)
        } else {
            match length_from(e.attribute("w:w"@)) {
                Ok(Some(width)) => Ok(GridColumn { width }),
                Ok(None) => Err(DecodeError::MissingAttribute),
                Err(x) => Err(x),
            }
        }
    }

    /// Writes the column as an element.
    pub fn encode<'a>(&self) -> (e: Element<'a>)
        ensures
            e@ == self.encoded(),
    {
        let mut fields: Vec<(&'a str, Option<Cow<'a, str>>)> = Vec::new();
        fields.push(("w:w", optional_length_value(Some(self.width))));
        proof {
            assert(fields_view(fields@) =~= seq![
                ("w:w"@, Some(decimal_text(self.width as int))),
            ]);
        }
        Element::with_fields("w:gridCol", &fields)
    }

    /// Reads a column from an element.
    pub fn decode(e: &Element<'_>) -> (r: Result<GridColumn, DecodeError>)
        ensures
            r == GridColumn::decoded(e@),
    {
        if !e.has_tag("w:gridCol") {
            return Err(DecodeError::UnexpectedTag);
        }
        let mut names: Vec<&str> = Vec::new();
        names.push("w:w");
        proof {
            assert(names_view(names@) =~= seq!["w:w"@]);
        }
        if e.any_repeated(&names) {
            return Err(DecodeError::DuplicateAttribute);
        }
        match e.length_attribute("w:w")? {
            Some(width) => Ok(GridColumn { width }),
            None => Err(DecodeError::MissingAttribute),
        }
    }

    /// Reads a child of a grid: a column where its tag is `w:gridCol`,
    /// nothing where it is not.
    pub fn decode_child(e: &Element<'_>) -> (r: Option<Result<GridColumn, DecodeError>>)
        ensures
            child_decoded_as(r, grid_column_reader()(e@)),
    {
        if e.has_tag("w:gridCol") {
            Some(GridColumn::decode(e))
        } else {
            None
        }
    }

    /// A column reads as it was written.
    pub proof fn lemma_decode_encode(self)
        ensures
            GridColumn::decoded(self.encoded()) == Ok::<GridColumn, DecodeError>(self),
    {
        assert(!any_repeated(self.encoded().attributes, seq!["w:w"@])) by {
            lemma_written_not_repeated(
                seq![("w:w"@, Some(decimal_text(self.width as int)))],
                seq!["w:w"@],
            );
        }
        let fields: Seq<Field> = seq![("w:w"@, Some(decimal_text(self.width as int)))];
        lemma_written_attribute(fields, 0);
        lemma_length_written(Some(self.width));
    }
}

/// How the children of a grid are read: an element with the tag
/// `w:gridCol` is a column, any other child is passed over.
pub open spec fn grid_column_reader() -> spec_fn(ElementView) -> Option<
    Result<GridColumn, DecodeError>,
> {
    |c: ElementView|
        if c.tag == "w:gridCol"@ {
            Some(GridColumn::decoded(c))
        } else {
            None
        }
}

/// The views of a sequence of columns.
pub open spec fn grid_columns_view(cs: Seq<GridColumn>) -> Seq<GridColumn> {
    Seq::new(cs.len(), |i: int| cs[i]@)
}

/// The elements that a sequence of columns is written as.
pub open spec fn grid_columns_encoded(cs: Seq<GridColumn>) -> Seq<ElementView> {
    Seq::new(cs.len(), |i: int| cs[i].encoded())
}

/// The grid of a table (`w:tblGrid`).
#[derive(Debug, PartialEq, Eq)]
pub struct TableGrid {
    /// The columns, from the first to the last.
    pub columns: Vec<GridColumn>,
}

/// What a [`TableGrid`] holds.
pub struct TableGridView {
    pub columns: Seq<GridColumn>,
}

impl View for TableGrid {
    type V = TableGridView;

    open spec fn view(&self) -> TableGridView {
        TableGridView { columns: grid_columns_view(self.columns@) }
    }
}

impl TableGridView {
    /// The element that the grid is written as: one child for each column.
    pub open spec fn encoded(self) -> ElementView {
        ElementView {
            tag: "w:tblGrid"@,
            attributes: Seq::empty(),
            children: element_nodes(grid_columns_encoded(self.columns)),
        }
    }

    /// The grid that an element reads as. The element must have the tag
    /// `w:tblGrid`; children that are no columns are passed over, and a
    /// column that fails to read fails the grid.
    pub open spec fn decoded(e: ElementView) -> Result<TableGridView, DecodeError> {
        if e.tag != "w:tblGrid"@ {
            Err(DecodeError::UnexpectedTag)
        } else {
            match decode_children(e.children, grid_column_reader()) {
                Ok(columns) => Ok(TableGridView { columns }),
                Err(x) => Err(x),
            }
        }
    }

    /// A grid reads as it was written.
    pub proof fn lemma_decode_encode(self)
        ensures
            TableGridView::decoded(self.encoded()) == Ok::<TableGridView, DecodeError>(self),
    {
        let written = grid_columns_encoded(self.columns);
        assert forall|i: int| 0 <= i < self.columns.len() implies grid_column_reader()(
            #[trigger] written[i],
        ) == Some(Ok::<GridColumn, DecodeError>(self.columns[i])) by {
            self.columns[i].lemma_decode_encode();
        }
        lemma_decode_children_written(self.columns, written, grid_column_reader());
    }

    /// What was read is in normal form: where an element reads as a grid,
    /// writing that and reading it again gives the same.
    pub proof fn lemma_decode_normalizes(e: ElementView)
        requires
            TableGridView::decoded(e) is Ok,
        ensures
            TableGridView::decoded(TableGridView::decoded(e)->Ok_0.encoded())
                == TableGridView::decoded(e),
    {
        TableGridView::decoded(e)->Ok_0.lemma_decode_encode();
    }
}

impl Default for TableGrid {
    fn default() -> (r: Self)
        ensures
            r@ == (TableGridView { columns: Seq::empty() }),
    {
        let r = TableGrid { columns: Vec::new() };
        assert(r@.columns =~= Seq::<GridColumn>::empty());
        r
    }
}

impl Clone for TableGrid {
    fn clone(&self) -> (r: Self)
        ensures
            r@ == self@,
    {
        self.duplicate()
    }
}

/// Reads the columns of a grid from the children of `e`.
pub fn decode_grid_columns(e: &Element<'_>) -> (r: Result<Vec<GridColumn>, DecodeError>)
    ensures
        match decode_children(e@.children, grid_column_reader()) {
            Ok(columns) => r is Ok && grid_columns_view(r->Ok_0@) == columns,
            Err(x) => r == Err::<Vec<GridColumn>, DecodeError>(x),
        },
{
    let mut columns: Vec<GridColumn> = Vec::new();
    let mut i: usize = 0;
    proof {
        assert(e@.children.take(0) =~= Seq::<NodeView>::empty());
        assert(grid_columns_view(columns@) =~= Seq::<GridColumn>::empty());
    }
    while i < e.children.len()
        invariant
            i <= e.children.len(),
            decode_children(e@.children.take(i as int), grid_column_reader()) == Ok::<
                Seq<GridColumn>,
                DecodeError,
            >(grid_columns_view(columns@)),
        decreases e.children.len() - i,
    {
        proof {
            let all = e@.children;
            assert(all.take(i as int + 1).drop_last() =~= all.take(i as int));
            assert(all.take(i as int + 1).last() == e.children@[i as int]@);
        }
        let ghost before = grid_columns_view(columns@);
        match &e.children[i] {
            Node::Element(c) => match GridColumn::decode_child(c) {
                None => {},
                Some(Ok(x)) => {
                    columns.push(x);
                    proof {
                        assert(grid_columns_view(columns@) =~= before.push(x@));
                    }
                },
                Some(Err(x)) => {
                    proof {
                        lemma_decode_children_prefix_error(
                            e@.children,
                            i as int + 1,
                            grid_column_reader(),
                        );
                    }
                    return Err(x);
                },
            },
            _ => {},
        }
        i = i + 1;
    }
    proof {
        assert(e@.children.take(i as int) =~= e@.children);
    }
    Ok(columns)
}

impl TableGrid {
    /// A copy of the grid. The copy holds what `self` holds.
    pub fn duplicate(&self) -> (r: Self)
        ensures
            r@ == self@,
    {
        let mut columns: Vec<GridColumn> = Vec::new();
        let mut i: usize = 0;
        while i < self.columns.len()
            invariant
                i <= self.columns.len(),
                columns@.len() == i,
                forall|j: int| 0 <= j < i ==> #[trigger] columns@[j] == self.columns@[j],
            decreases self.columns.len() - i,
        {
            columns.push(self.columns[i]);
            i = i + 1;
        }
        let r = TableGrid { columns };
        proof {
            assert(grid_columns_view(r.columns@) =~= grid_columns_view(self.columns@));
        }
        r
    }

    /// Appends a column to the grid.
    pub fn push_column(self, column: GridColumn) -> (r: Self)
        ensures
            r@ == (TableGridView { columns: self@.columns.push(column) }),
    {
        let mut grid = self;
        grid.columns.push(column);
        assert(grid@.columns =~= self@.columns.push(column));
        grid
    }

    /// Writes the grid as an element.
    pub fn encode<'a>(&self) -> (e: Element<'a>)
        ensures
            e@ == self@.encoded(),
    {
        let mut e = Element::new("w:tblGrid");
        let ghost start = e@;
        let ghost all = element_nodes(grid_columns_encoded(grid_columns_view(self.columns@)));
        let mut i: usize = 0;
        proof {
            assert(start.children + all.take(0) =~= start.children);
        }
        while i < self.columns.len()
            invariant
                i <= self.columns.len(),
                all == element_nodes(grid_columns_encoded(grid_columns_view(self.columns@))),
                all.len() == self.columns.len(),
                e@.tag == start.tag,
                e@.attributes == start.attributes,
                e@.children == start.children + all.take(i as int),
            decreases self.columns.len() - i,
        {
            let child = self.columns[i].encode();
            proof {
                assert(start.children + all.take(i as int + 1) =~= (start.children + all.take(
                    i as int,
                )) + seq![NodeView::Element(child@)]);
            }
            e = e.with_child(Some(child));
            i = i + 1;
        }
        proof {
            assert(all.take(i as int) =~= all);
        }
        proof {
            assert(grid_columns_view(self.columns@) =~= self@.columns);
            assert(e@.children =~= self@.encoded().children);
        }
        e
    }

    /// Reads a grid from an element.
    pub fn decode(e: &Element<'_>) -> (r: Result<TableGrid, DecodeError>)
        ensures
            decoded_as(r, TableGridView::decoded(e@)),
    {
        if !e.has_tag("w:tblGrid") {
            return Err(DecodeError::UnexpectedTag);
        }
        let columns = decode_grid_columns(e)?;
        Ok(TableGrid { columns })
    }

    /// Reads a grid from XML text: the first element of the text with the tag
    /// `w:tblGrid` is read as [`TableGrid::decode`] reads an element. Whole
    /// elements with other tags before it are passed over.
    pub fn from_str(text: &str) -> (r: Result<TableGrid, DecodeError>)
        ensures
            decoded_as(
                r,
                match parsed_as(text@, seq!["w:tblGrid"@]) {
                    Ok(e) => TableGridView::decoded(e),
                    Err(x) => Err(x),
                },
            ),
    {
        let mut tags: Vec<&str> = Vec::new();
        tags.push("w:tblGrid");
        proof {
            assert(names_view(tags@) =~= seq!["w:tblGrid"@]);
        }
        match parse_as(text, &tags) {
            Ok(e) => TableGrid::decode(&e),
            Err(x) => Err(x),
        }
    }

    /// The XML text of the element that [`TableGrid::encode`] gives.
    pub fn to_string(&self) -> (r: String)
        ensures
            r@ == element_text(self@.encoded()),
    {
        self.encode().to_string()
    }
}

} // verus!
