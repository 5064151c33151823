//! Table cells and what they hold.
use crate::document::paragraph::{Paragraph, ParagraphView};
use crate::document::table::{Table, TableView};
use crate::error::{DecodeError, SubstitutionError};
use crate::formatting::table_cell_property::TableCellProperty;
use crate::text::{dictionary_view, leaf_views, lemma_texts_substituted_concat, texts_substituted};
use crate::xml::codec::names_view;
use crate::xml::element::{
    child_decoded_as, decoded_as, element_nodes, empty_element, find_child, is_element,
    lemma_find_child_concat, lemma_find_child_none, or_default, single_decoded, Element,
    ElementView, Node, NodeView,
};
use crate::xml::reader::{parse_as, parsed_as};
use crate::xml::writer::element_text;
use std::borrow::Cow;
use vstd::prelude::*;
use vstd::std_specs::convert::FromSpecImpl;

verus! {

/// One entry of a table cell: a paragraph or a nested table, and nothing
/// else.
#[derive(Debug, PartialEq)]
pub enum TableCellContent<'a> {
    /// A paragraph (`w:p`).
    Paragraph(Paragraph<'a>),
    /// A nested table (`w:tbl`).
    Table(Table<'a>),
}

/// What a [`TableCellContent`] holds.
pub enum TableCellContentView {
    Paragraph(ParagraphView),
    Table(TableView),
}

/// A table cell (`w:tc`).
#[derive(Debug, PartialEq)]
pub struct TableCell<'a> {
    /// Properties of the cell.
    pub property: TableCellProperty,
    /// Paragraphs and nested tables, in order.
    pub content: Vec<TableCellContent<'a>>,
}

/// What a [`TableCell`] holds.
pub struct TableCellView {
    pub property: TableCellProperty,
    pub content: Seq<TableCellContentView>,
}

impl<'a> View for TableCellContent<'a> {
    type V = TableCellContentView;

    open spec fn view(&self) -> TableCellContentView
        decreases self,
    {
        match self {
            TableCellContent::Paragraph(p) => TableCellContentView::Paragraph(p@),
            TableCellContent::Table(t) => TableCellContentView::Table(t.view()),
        }
    }
}

impl<'a> View for TableCell<'a> {
    type V = TableCellView;

    open spec fn view(&self) -> TableCellView
        decreases self,
    {
        TableCellView {
            property: self.property,
            content: cell_contents_view(self.content@),
        }
    }
}

impl TableCellContentView {
    /// The text leaves of the entry, in order.
    pub open spec fn texts(self) -> Seq<Seq<char>>
        decreases self,
    {
        match self {
            TableCellContentView::Paragraph(p) => p.texts(),
            TableCellContentView::Table(t) => t.texts(),
        }
    }

    /// The entry after `dict` was applied to each of its text leaves.
    pub open spec fn substituted(self, dict: Seq<(Seq<char>, Seq<char>)>) -> TableCellContentView
        decreases self,
    {
        match self {
            TableCellContentView::Paragraph(p) => TableCellContentView::Paragraph(
                p.substituted(dict),
            ),
            TableCellContentView::Table(t) => TableCellContentView::Table(t.substituted(dict)),
        }
    }
}

/// The text leaves of a sequence of cell entries, in order.
pub open spec fn cell_contents_texts(cs: Seq<TableCellContentView>) -> Seq<Seq<char>>
    decreases cs,
{
    if cs.len() == 0 {
        Seq::empty()
    } else {
        cell_contents_texts(cs.drop_last()) + cs.last().texts()
    }
}

impl TableCellView {
    /// The text leaves of the cell, in order: those of its first entry,
    /// then those of its second, and so on.
    pub open spec fn texts(self) -> Seq<Seq<char>>
        decreases self,
    {
        cell_contents_texts(self.content)
    }

    /// The cell after `dict` was applied to each of its text leaves.
    pub open spec fn substituted(self, dict: Seq<(Seq<char>, Seq<char>)>) -> TableCellView
        decreases self,
    {
        TableCellView {
            property: self.property,
            content: Seq::new(
                self.content.len(),
                |i: int|
                    if 0 <= i < self.content.len() {
                        self.content[i].substituted(dict)
                    } else {
                        self.content[i]
                    },
            ),
        }
    }
}

impl<'a> TableCellContent<'a> {
    /// Handles on the text leaves of the entry, in order.
    pub fn iter_text(&self) -> (r: Vec<&Cow<'a, str>>)
        ensures
            leaf_views(r@) == self@.texts(),
        decreases self,
    {
        match self {
            TableCellContent::Paragraph(p) => p.iter_text(),
            TableCellContent::Table(t) => t.iter_text(),
        }
    }

    /// Applies `dic` to every text leaf of the entry.
    pub fn replace_text(&mut self, dic: &[(&str, &str)]) -> (r: Result<(), SubstitutionError>)
        ensures
            r is Ok,
            final(self)@ == old(self)@.substituted(dictionary_view(dic@)),
            final(self).owns_texts(),
        decreases *old(self),
    {
        match self {
            TableCellContent::Paragraph(p) => p.replace_text(dic),
            TableCellContent::Table(t) => t.replace_text(dic),
        }
    }
}

impl<'a> Default for TableCell<'a> {
    fn default() -> (r: Self)
        ensures
            r@ == (TableCellView {
                property: TableCellProperty::default_value(),
                content: Seq::empty(),
            }),
    {
        let r = TableCell { property: TableCellProperty::default(), content: Vec::new() };
        assert(r@.content =~= Seq::<TableCellContentView>::empty());
        r
    }
}

impl<'a> TableCell<'a> {
    /// Sets the properties of the cell.
    pub fn property(self, property: TableCellProperty) -> (r: Self)
        ensures
            r@ == (TableCellView { property, content: self@.content }),
    {
        let r = TableCell { property, content: self.content };
        assert(r@.content =~= self@.content);
        r
    }

    /// A cell with default properties that holds `par` alone.
    pub fn paragraph(par: Paragraph<'a>) -> (r: Self)
        ensures
            r@ == (TableCellView {
                property: TableCellProperty::default_value(),
                content: seq![TableCellContentView::Paragraph(par@)],
            }),
    {
        let mut content: Vec<TableCellContent<'a>> = Vec::new();
        content.push(TableCellContent::Paragraph(par));
        let r = TableCell { property: TableCellProperty::default(), content };
        assert(r@.content =~= seq![TableCellContentView::Paragraph(par@)]);
        r
    }

    /// A cell with default properties that holds `table` alone.
    pub fn table(table: Table<'a>) -> (r: Self)
        ensures
            r@ == (TableCellView {
                property: TableCellProperty::default_value(),
                content: seq![TableCellContentView::Table(table@)],
            }),
    {
        let mut content: Vec<TableCellContent<'a>> = Vec::new();
        content.push(TableCellContent::Table(table));
        let r = TableCell { property: TableCellProperty::default(), content };
        assert(r@.content =~= seq![TableCellContentView::Table(table@)]);
        r
    }

    /// Appends one entry to the cell.
    pub fn push(self, content: TableCellContent<'a>) -> (r: Self)
        ensures
            r@ == (TableCellView {
                property: self@.property,
                content: self@.content.push(content@),
            }),
    {
        let mut c = self;
        c.content.push(content);
        assert(c@.content =~= self@.content.push(content@));
        c
    }

    /// Handles on the text leaves of the cell, in order.
    pub fn iter_text(&self) -> (r: Vec<&Cow<'a, str>>)
        ensures
            leaf_views(r@) == self@.texts(),
        decreases self,
    {
        let mut out: Vec<&Cow<'a, str>> = Vec::new();
        let mut i: usize = 0;
        assert(leaf_views(out@) =~= cell_contents_texts(self@.content.take(0)));
        while i < self.content.len()
            invariant
                i <= self.content.len(),
                leaf_views(out@) == cell_contents_texts(self@.content.take(i as int)),
            decreases self.content.len() - i,
        {
            proof {
                let all = self@.content;
                assert(all.take(i as int + 1).drop_last() =~= all.take(i as int));
                assert(all.take(i as int + 1).last() == self.content@[i as int]@);
            }
            let ghost before = out@;
            let mut part = self.content[i].iter_text();
            let ghost added = part@;
            out.append(&mut part);
            assert(leaf_views(out@) =~= leaf_views(before) + leaf_views(added));
            i = i + 1;
        }
        proof {
            assert(self@.content.take(i as int) =~= self@.content);
        }
        out
    }

    /// Applies `dic` to every text leaf of the cell, entry by entry.
    pub fn replace_text(&mut self, dic: &[(&str, &str)]) -> (r: Result<(), SubstitutionError>)
        ensures
            r is Ok,
            final(self)@ == old(self)@.substituted(dictionary_view(dic@)),
            final(self).owns_texts(),
        decreases *old(self),
    {
        let mut i: usize = 0;
        while i < self.content.len()
            invariant
                i <= self.content.len(),
                self.property == old(self).property,
                self.content@.len() == old(self).content@.len(),
                forall|j: int|
                    i <= j < self.content@.len() ==> self.content@[j] == old(self).content@[j],
                forall|j: int| 0 <= j < i ==> (#[trigger] self.content@[j]).owns_texts(),
                forall|j: int|
                    0 <= j < i ==> (#[trigger] self.content@[j])@
                        == old(self).content@[j]@.substituted(dictionary_view(dic@)),
            decreases self.content.len() - i,
        {
            proof {
                assert(decreases_to!(*old(self) => old(self).content@[i as int]));
            }
            let _ = self.content[i].replace_text(dic);
            i = i + 1;
        }
        proof {
            assert(self@.content =~= old(self)@.substituted(dictionary_view(dic@)).content);
        }
        Ok(())
    }
}

impl TableCellContentView {
    /// The element that the entry is written as.
    pub open spec fn encoded(self) -> ElementView
        decreases self,
    {
        match self {
            TableCellContentView::Paragraph(p) => p.encoded(),
            TableCellContentView::Table(t) => t.encoded(),
        }
    }

    /// Whether an element with the tag `tag` is an entry of a cell.
    pub open spec fn belongs(tag: Seq<char>) -> bool {
        tag == "w:p"@ || tag == "w:tbl"@
    }

    /// The entry that an element reads as; its tag says which variant.
    pub open spec fn decoded(e: ElementView) -> Result<TableCellContentView, DecodeError> {
        if e.tag == "w:p"@ {
            match ParagraphView::decoded(e) {
                Ok(p) => Ok(TableCellContentView::Paragraph(p)),
                Err(x) => Err(x),
            }
        } else if e.tag == "w:tbl"@ {
            match TableView::decoded(e) {
                Ok(t) => Ok(TableCellContentView::Table(t)),
                Err(x) => Err(x),
            }
        } else {
            Err(DecodeError::UnexpectedTag)
        }
    }

    /// What a child of a cell reads as: an entry where its tag is that of
    /// one, nothing where it is not.
    pub open spec fn decoded_child(e: ElementView) -> Option<
        Result<TableCellContentView, DecodeError>,
    > {
        if TableCellContentView::belongs(e.tag) {
            Some(TableCellContentView::decoded(e))
        } else {
            None
        }
    }

    /// An entry reads as it was written.
    pub proof fn lemma_decode_encode(self)
        ensures
            TableCellContentView::decoded(self.encoded()) == Ok::<
                TableCellContentView,
                DecodeError,
            >(self),
            TableCellContentView::belongs(self.encoded().tag),
        decreases self,
    {
        lemma_cell_tags();
        match self {
            TableCellContentView::Paragraph(p) => {
                p.lemma_decode_encode();
            },
            TableCellContentView::Table(t) => {
                t.lemma_decode_encode();
            },
        }
    }
}

/// The tags of a cell's children differ from each other.
pub proof fn lemma_cell_tags()
    ensures
        "w:p"@ != "w:tbl"@,
        !TableCellContentView::belongs("w:tcPr"@),
{
    reveal_strlit("w:p");
    reveal_strlit("w:tbl");
    reveal_strlit("w:tcPr");
    assert("w:p"@.len() == 3);
    assert("w:tbl"@.len() == 5);
    assert("w:tcPr"@.len() == 6);
}

/// What the children of a cell read as: its entries in order, or the error
/// of the first entry that fails. Children that are no entries of a cell are
/// passed over.
pub open spec fn cell_contents_decoded(
    nodes: Seq<NodeView>,
) -> Result<Seq<TableCellContentView>, DecodeError>
    decreases nodes,
{
    if nodes.len() == 0 {
        Ok(Seq::empty())
    } else {
        match cell_contents_decoded(nodes.drop_last()) {
            Err(x) => Err(x),
            Ok(front) => match nodes.last() {
                NodeView::Element(el) => if el.tag == "w:p"@ {
                    match ParagraphView::decoded(el) {
                        Ok(x) => Ok(front.push(TableCellContentView::Paragraph(x))),
                        Err(x) => Err(x),
                    }
                } else if el.tag == "w:tbl"@ {
                    match TableView::decoded(el) {
                        Ok(x) => Ok(front.push(TableCellContentView::Table(x))),
                        Err(x) => Err(x),
                    }
                } else {
                    Ok(front)
                },
                _ => Ok(front),
            },
        }
    }
}

/// Reading one child more.
pub proof fn lemma_cell_contents_decoded_step(nodes: Seq<NodeView>, i: int)
    requires
        0 <= i < nodes.len(),
    ensures
        cell_contents_decoded(nodes.take(i + 1)) == (match cell_contents_decoded(nodes.take(i)) {
            Err(x) => Err(x),
            Ok(front) => match nodes[i] {
                NodeView::Element(el) => match TableCellContentView::decoded_child(el) {
                    None => Ok(front),
                    Some(Ok(x)) => Ok(front.push(x)),
                    Some(Err(x)) => Err(x),
                },
                _ => Ok(front),
            },
        }),
{
    assert(nodes.take(i + 1).drop_last() =~= nodes.take(i));
    assert(nodes.take(i + 1).last() == nodes[i]);
}

/// Where the first `k` children fail to read, all of them fail alike.
pub proof fn lemma_cell_contents_decoded_prefix_error(nodes: Seq<NodeView>, k: int)
    requires
        0 <= k <= nodes.len(),
        cell_contents_decoded(nodes.take(k)) is Err,
    ensures
        cell_contents_decoded(nodes) == cell_contents_decoded(nodes.take(k)),
    decreases nodes.len() - k,
{
    if k < nodes.len() {
        assert(nodes.take(k + 1).drop_last() =~= nodes.take(k));
        lemma_cell_contents_decoded_prefix_error(nodes, k + 1);
    } else {
        assert(nodes.take(k) =~= nodes);
    }
}

/// The views of a sequence of cell entries.
pub open spec fn cell_contents_view(cs: Seq<TableCellContent<'_>>) -> Seq<TableCellContentView>
    decreases cs,
{
    Seq::new(
        cs.len(),
        |i: int|
            if 0 <= i < cs.len() {
                cs[i].view()
            } else {
                TableCellContentView::Table(TableView::empty())
            },
    )
}

/// The elements that a sequence of cell entries is written as.
pub open spec fn cell_contents_encoded(cs: Seq<TableCellContentView>) -> Seq<ElementView>
    decreases cs,
{
    Seq::new(
        cs.len(),
        |i: int|
            if 0 <= i < cs.len() {
                cs[i].encoded()
            } else {
                empty_element(Seq::empty())
            },
    )
}

/// The properties that the children of a cell give: those of the child with
/// the tag `w:tcPr`, or the default where there is none. Where there are
/// several, each is read and the last one counts.
pub open spec fn cell_property_decoded(nodes: Seq<NodeView>) -> Result<
    TableCellProperty,
    DecodeError,
> {
    or_default(
        single_decoded(nodes, "w:tcPr"@, |c: ElementView| TableCellProperty::decoded(c)),
        TableCellProperty::default_value(),
    )
}

impl TableCellView {
    /// The element that the cell is written as: its properties first, then
    /// one child for each entry.
    pub open spec fn encoded(self) -> ElementView
        decreases self,
    {
        ElementView {
            tag: "w:tc"@,
            attributes: Seq::empty(),
            children: seq![NodeView::Element(self.property.encoded())] + element_nodes(
                cell_contents_encoded(self.content),
            ),
        }
    }

    /// The cell that an element reads as. The element must have the tag
    /// `w:tc`. Its properties are read first, then its entries in order;
    /// children that are neither are passed over, and what fails to read
    /// fails the cell.
    pub open spec fn decoded(e: ElementView) -> Result<TableCellView, DecodeError>
        decreases e,
    {
        if e.tag != "w:tc"@ {
            Err(DecodeError::UnexpectedTag)
        } else {
            match cell_property_decoded(e.children) {
                Err(x) => Err(x),
                Ok(property) => match cell_contents_decoded(e.children) {
                    Ok(content) => Ok(TableCellView { property, content }),
                    Err(x) => Err(x),
                },
            }
        }
    }

    /// What a child of a row reads as: a cell where its tag is `w:tc`,
    /// nothing where it is not.
    pub open spec fn decoded_child(e: ElementView) -> Option<Result<TableCellView, DecodeError>> {
        if e.tag == "w:tc"@ {
            Some(TableCellView::decoded(e))
        } else {
            None
        }
    }

    /// A cell is written under the tag `w:tc`.
    pub proof fn lemma_encoded_tag(self)
        ensures
            self.encoded().tag == "w:tc"@,
    {
    }

    /// A cell reads as it was written.
    pub proof fn lemma_decode_encode(self)
        ensures
            TableCellView::decoded(self.encoded()) == Ok::<TableCellView, DecodeError>(self),
        decreases self,
    {
        lemma_cell_tags();
        let first = NodeView::Element(self.property.encoded());
        let rest = element_nodes(cell_contents_encoded(self.content));
        let nodes = seq![first] + rest;
        assert(nodes[0] == first);
        self.property.lemma_decode_encode();
        lemma_cell_contents_written(self.content);
        lemma_cell_contents_skip_first(first, rest);
        assert forall|i: int| 0 <= i < rest.len() implies !is_element(
            #[trigger] rest[i],
            "w:tcPr"@,
        ) by {
            assert(rest[i] == NodeView::Element(self.content[i].encoded()));
        }
        lemma_find_child_none(rest, "w:tcPr"@);
        lemma_find_child_concat(seq![first], rest, "w:tcPr"@);
        reveal_with_fuel(find_child, 2);
    }
}

/// The entries of a cell read as they were written.
pub proof fn lemma_cell_contents_written(cs: Seq<TableCellContentView>)
    ensures
        cell_contents_decoded(element_nodes(cell_contents_encoded(cs))) == Ok::<
            Seq<TableCellContentView>,
            DecodeError,
        >(cs),
    decreases cs,
{
    let nodes = element_nodes(cell_contents_encoded(cs));
    if cs.len() == 0 {
        assert(cs =~= Seq::<TableCellContentView>::empty());
    } else {
        assert(nodes.drop_last() =~= element_nodes(cell_contents_encoded(cs.drop_last())));
        lemma_cell_contents_written(cs.drop_last());
        cs.last().lemma_decode_encode();
        assert(nodes.last() == NodeView::Element(cs.last().encoded()));
        assert(cs.drop_last().push(cs.last()) =~= cs);
    }
}

/// A child in front that is no entry of a cell changes nothing of what the
/// entries read as.
pub proof fn lemma_cell_contents_skip_first(first: NodeView, rest: Seq<NodeView>)
    requires
        first matches NodeView::Element(el) ==> !TableCellContentView::belongs(el.tag),
    ensures
        cell_contents_decoded(seq![first] + rest) == cell_contents_decoded(rest),
    decreases rest.len(),
{
    let nodes = seq![first] + rest;
    if rest.len() == 0 {
        assert(nodes.drop_last() =~= Seq::<NodeView>::empty());
        assert(nodes.last() == first);
        reveal_with_fuel(cell_contents_decoded, 2);
    } else {
        assert(nodes.drop_last() =~= seq![first] + rest.drop_last());
        assert(nodes.last() == rest.last());
        lemma_cell_contents_skip_first(first, rest.drop_last());
    }
}

impl<'a> TableCellContent<'a> {
    /// Writes the entry as an element.
    pub fn encode(&self) -> (e: Element<'a>)
        ensures
            e@ == self@.encoded(),
        decreases self,
    {
        match self {
            TableCellContent::Paragraph(p) => p.encode(),
            TableCellContent::Table(t) => t.encode(),
        }
    }

    /// Reads an entry from an element.
    pub fn decode(e: &Element<'a>) -> (r: Result<TableCellContent<'a>, DecodeError>)
        ensures
            decoded_as(r, TableCellContentView::decoded(e@)),
        decreases e, 2int,
    {
        if e.has_tag("w:p") {
            Ok(TableCellContent::Paragraph(Paragraph::decode(e)?))
        } else if e.has_tag("w:tbl") {
            Ok(TableCellContent::Table(Table::decode(e)?))
        } else {
            Err(DecodeError::UnexpectedTag)
        }
    }

    /// Reads a child of a cell: an entry where its tag is that of one,
    /// nothing where it is not.
    pub fn decode_child(e: &Element<'a>) -> (r: Option<Result<TableCellContent<'a>, DecodeError>>)
        ensures
            child_decoded_as(r, TableCellContentView::decoded_child(e@)),
        decreases e, 3int,
    {
        if e.has_tag("w:p") || e.has_tag("w:tbl") {
            Some(TableCellContent::decode(e))
        } else {
            None
        }
    }
}

impl<'a> TableCell<'a> {
    /// Writes the cell as an element.
    pub fn encode(&self) -> (e: Element<'a>)
        ensures
            e@ == self@.encoded(),
        decreases self,
    {
        let mut e = Element::new("w:tc").with_child(Some(self.property.encode()));
        proof {
            assert(cell_contents_view(self.content@) =~= self@.content);
        }
        let ghost start = e@;
        let ghost all = element_nodes(cell_contents_encoded(cell_contents_view(self.content@)));
        let mut i: usize = 0;
        proof {
            assert(start.children + all.take(0) =~= start.children);
        }
        while i < self.content.len()
            invariant
                i <= self.content.len(),
                all == element_nodes(cell_contents_encoded(cell_contents_view(self.content@))),
                all.len() == self.content.len(),
                e@.tag == start.tag,
                e@.attributes == start.attributes,
                e@.children == start.children + all.take(i as int),
            decreases self.content.len() - i,
        {
            let child = self.content[i].encode();
            proof {
                assert(start.children + all.take(i as int + 1) =~= (start.children + all.take(
                    i as int,
                )) + seq![NodeView::Element(child@)]);
            }
            e = e.with_child(Some(child));
            i = i + 1;
        }
        proof {
            assert(all.take(i as int) =~= all);
        }
        proof {
            assert(e@.children =~= self@.encoded().children);
        }
        e
    }

    /// Reads a cell from an element.
    pub fn decode(e: &Element<'a>) -> (r: Result<TableCell<'a>, DecodeError>)
        ensures
            decoded_as(r, TableCellView::decoded(e@)),
        decreases e, 1int,
    {
        if !e.has_tag("w:tc") {
            return Err(DecodeError::UnexpectedTag);
        }
        let property = match e.decode_single_value(
            "w:tcPr",
            TableCellProperty::decode,
            Ghost(|c: ElementView| TableCellProperty::decoded(c)),
        )? {
            Some(v) => v,
            None => TableCellProperty::default(),
        };
        let content = decode_cell_contents(e)?;
        let cell = TableCell { property, content };
        proof {
            assert(cell@.content =~= cell_contents_view(cell.content@));
        }
        Ok(cell)
    }

    /// Reads a child of a row: a cell where its tag is `w:tc`, nothing
    /// where it is not.
    pub fn decode_child(e: &Element<'a>) -> (r: Option<Result<TableCell<'a>, DecodeError>>)
        ensures
            child_decoded_as(r, TableCellView::decoded_child(e@)),
        decreases e, 3int,
    {
        if e.has_tag("w:tc") {
            Some(TableCell::decode(e))
        } else {
            None
        }
    }
}

/// Reads the entries of a cell from the children of `e`, as
/// [`cell_contents_decoded`] says.
pub fn decode_cell_contents<'a>(
    e: &Element<'a>,
) -> (r: Result<Vec<TableCellContent<'a>>, DecodeError>)
    ensures
        match cell_contents_decoded(e@.children) {
            Ok(items) => r is Ok && cell_contents_view(r->Ok_0@) == items,
            Err(x) => r == Err::<Vec<TableCellContent<'a>>, DecodeError>(x),
        },
    decreases e, 0int,
{
    let mut content: Vec<TableCellContent<'a>> = Vec::new();
    let mut i: usize = 0;
    proof {
        assert(e@.children.take(0) =~= Seq::<NodeView>::empty());
        assert(cell_contents_view(content@) =~= Seq::<TableCellContentView>::empty());
    }
    while i < e.children.len()
        invariant
            i <= e.children.len(),
            cell_contents_decoded(
                e@.children.take(i as int),
            ) == Ok::<Seq<TableCellContentView>, DecodeError>(
                cell_contents_view(content@),
            ),
        decreases e.children.len() - i,
    {
        proof {
            lemma_cell_contents_decoded_step(e@.children, i as int);
            assert(e@.children[i as int] == e.children@[i as int]@);
        }
        let ghost before = cell_contents_view(content@);
        match &e.children[i] {
            Node::Element(c) => match TableCellContent::decode_child(c) {
                None => {},
                Some(Ok(x)) => {
                    content.push(x);
                    proof {
                        assert(cell_contents_view(content@) =~= before.push(x@));
                    }
                },
                Some(Err(x)) => {
                    proof {
                        lemma_cell_contents_decoded_prefix_error(e@.children, i as int + 1);
                    }
                    return Err(x);
                },
            },
            _ => {},
        }
        i = i + 1;
    }
    proof {
        assert(e@.children.take(i as int) =~= e@.children);
    }
    Ok(content)
}

impl<'a> TableCellContent<'a> {
    /// Reads an entry of a cell from XML text: the first element of the text
    /// with one of the tags `w:p` and `w:tbl` is read as
    /// [`TableCellContent::decode`] reads an element. Whole elements with other
    /// tags before it are passed over.
    pub fn from_str(text: &'a str) -> (r: Result<TableCellContent<'a>, DecodeError>)
        ensures
            decoded_as(
                r,
                match parsed_as(text@, seq!["w:p"@, "w:tbl"@]) {
                    Ok(e) => TableCellContentView::decoded(e),
                    Err(x) => Err(x),
                },
            ),
    {
        let mut tags: Vec<&str> = Vec::new();
        tags.push("w:p");
        tags.push("w:tbl");
        proof {
            assert(names_view(tags@) =~= seq!["w:p"@, "w:tbl"@]);
        }
        match parse_as(text, &tags) {
            Ok(e) => TableCellContent::decode(&e),
            Err(x) => Err(x),
        }
    }

    /// The XML text of the element that [`TableCellContent::encode`] gives.
    pub fn to_string(&self) -> (r: String)
        ensures
            r@ == element_text(self@.encoded()),
    {
        self.encode().to_string()
    }
}

impl<'a> TableCell<'a> {
    /// Reads a cell from XML text: the first element of the text with the tag
    /// `w:tc` is read as [`TableCell::decode`] reads an element. Whole elements
    /// with other tags before it are passed over.
    pub fn from_str(text: &'a str) -> (r: Result<TableCell<'a>, DecodeError>)
        ensures
            decoded_as(
                r,
                match parsed_as(text@, seq!["w:tc"@]) {
                    Ok(e) => TableCellView::decoded(e),
                    Err(x) => Err(x),
                },
            ),
    {
        let mut tags: Vec<&str> = Vec::new();
        tags.push("w:tc");
        proof {
            assert(names_view(tags@) =~= seq!["w:tc"@]);
        }
        match parse_as(text, &tags) {
            Ok(e) => TableCell::decode(&e),
            Err(x) => Err(x),
        }
    }

    /// The XML text of the element that [`TableCell::encode`] gives.
    pub fn to_string(&self) -> (r: String)
        ensures
            r@ == element_text(self@.encoded()),
    {
        self.encode().to_string()
    }
}

impl TableCellContentView {
    /// The entry with its text leaves replaced, in order, by `texts`.
    pub open spec fn with_texts(self, texts: Seq<Seq<char>>) -> TableCellContentView
        decreases self,
    {
        match self {
            TableCellContentView::Paragraph(p) => TableCellContentView::Paragraph(
                p.with_texts(texts),
            ),
            TableCellContentView::Table(t) => TableCellContentView::Table(t.with_texts(texts)),
        }
    }
}

impl TableCellView {
    /// The cell with its text leaves replaced, in order, by `texts`.
    pub open spec fn with_texts(self, texts: Seq<Seq<char>>) -> TableCellView
        decreases self,
    {
        TableCellView {
            property: self.property,
            content: cell_contents_with_texts(self.content, texts),
        }
    }
}

impl<'a> TableCellContent<'a> {
    /// Exclusive handles on the text leaves of the entry, in order. What is
    /// written through a handle is what the leaf holds afterwards; nothing else
    /// changes.
    pub fn iter_text_mut<'b>(&'b mut self) -> (r: Vec<&'b mut Cow<'a, str>>)
        ensures
            r@.len() == old(self)@.texts().len(),
            forall|i: int| 0 <= i < r@.len() ==> (*#[trigger] r@[i])@ == old(self)@.texts()[i],
            final(self)@ == old(self)@.with_texts(Seq::new(r@.len(), |i: int| (*final(r@[i]))@)),
        decreases *old(self),
    {
        match self {
            TableCellContent::Paragraph(p) => p.iter_text_mut(),
            TableCellContent::Table(t) => t.iter_text_mut(),
        }
    }
}

impl<'a> TableCell<'a> {
    /// Exclusive handles on the text leaves of the cell, in order. What is
    /// written through a handle is what the leaf holds afterwards; nothing else
    /// changes.
    pub fn iter_text_mut<'b>(&'b mut self) -> (r: Vec<&'b mut Cow<'a, str>>)
        ensures
            r@.len() == old(self)@.texts().len(),
            forall|i: int| 0 <= i < r@.len() ==> (*#[trigger] r@[i])@ == old(self)@.texts()[i],
            final(self)@ == old(self)@.with_texts(Seq::new(r@.len(), |i: int| (*final(r@[i]))@)),
        decreases *old(self),
    {
        cell_contents_iter_text_mut(&mut self.content)
    }
}

/// The number of text leaves in the first `i` of `cs`.
pub open spec fn cell_contents_offset(cs: Seq<TableCellContentView>, i: int) -> int {
    cell_contents_texts(cs.take(i)).len() as int
}

/// Entries of a cell with their text leaves replaced, in order, by `texts`: each
/// takes as many of `texts` as it has leaves.
pub open spec fn cell_contents_with_texts(
    cs: Seq<TableCellContentView>,
    texts: Seq<Seq<char>>,
) -> Seq<TableCellContentView>
    decreases cs,
{
    Seq::new(
        cs.len(),
        |i: int|
            if 0 <= i < cs.len() {
                cs[i].with_texts(
                texts.subrange(cell_contents_offset(cs, i), cell_contents_offset(cs, i + 1)),
            )
            } else {
                cs[i]
            },
    )
}

/// The leaves of one more of `cs` follow those of the ones before it.
pub proof fn lemma_cell_contents_offset_step(cs: Seq<TableCellContentView>, i: int)
    requires
        0 <= i < cs.len(),
    ensures
        cell_contents_texts(cs.take(i + 1)) == cell_contents_texts(cs.take(i)) + cs[i].texts(),
        cell_contents_offset(cs, i + 1) == cell_contents_offset(cs, i) + cs[i].texts().len(),
        cell_contents_offset(cs, i) >= 0,
{
    assert(cs.take(i + 1).drop_last() =~= cs.take(i));
    assert(cs.take(i + 1).last() == cs[i]);
}

/// The more of `cs` are counted, the more leaves there are.
pub proof fn lemma_cell_contents_offset_monotonic(cs: Seq<TableCellContentView>, i: int, j: int)
    requires
        0 <= i <= j <= cs.len(),
    ensures
        0 <= cell_contents_offset(cs, i) <= cell_contents_offset(cs, j),
    decreases j - i,
{
    if i < j {
        lemma_cell_contents_offset_step(cs, j - 1);
        lemma_cell_contents_offset_monotonic(cs, i, j - 1);
    }
}

/// Exclusive handles on the text leaves of `items`, in order. What is
/// written through a handle is what the leaf holds afterwards; nothing else
/// changes.
#[verifier::rlimit(100)]
pub fn cell_contents_iter_text_mut<'b, 'a>(
    items: &'b mut Vec<TableCellContent<'a>>,
) -> (r: Vec<&'b mut Cow<'a, str>>)
    ensures
        r@.len() == cell_contents_texts(cell_contents_view(old(items)@)).len(),
        forall|i: int|
            0 <= i < r@.len() ==> (*#[trigger] r@[i])@ == cell_contents_texts(
                cell_contents_view(old(items)@),
            )[i],
        cell_contents_view(final(items)@) == cell_contents_with_texts(
            cell_contents_view(old(items)@),
            Seq::new(r@.len(), |i: int| (*final(r@[i]))@),
        ),
    decreases *old(items),
{
    let mut out: Vec<&'b mut Cow<'a, str>> = Vec::new();
    let ghost whole = *items;
    let ghost orig = items@;
    let ghost views = cell_contents_view(items@);
    let mut rest: &'b mut [TableCellContent<'a>] = items.as_mut_slice();
    let ghost all = final(rest)@;
    proof {
        assert(views.take(0) =~= Seq::<TableCellContentView>::empty());
        assert(orig.skip(0) =~= orig);
    }
    while rest.len() > 0
        invariant
            whole == *old(items),
            whole@ == orig,
            views == cell_contents_view(orig),
            rest@.len() <= orig.len(),
            rest@ == orig.skip(orig.len() - rest@.len()),
            out@.len() == cell_contents_offset(views, orig.len() - rest@.len()),
            forall|j: int|
                0 <= j < out@.len() ==> (*#[trigger] out@[j])@ == cell_contents_texts(
                    views.take(orig.len() - rest@.len()),
                )[j],
            all.len() == orig.len() - rest@.len() + final(rest)@.len(),
            forall|j: int|
                0 <= j < final(rest)@.len() ==> #[trigger] all[orig.len() - rest@.len() + j]
                    == final(rest)@[j],
            forall|idx: int|
                0 <= idx < orig.len() - rest@.len() ==> (#[trigger] all[idx])@
                    == views[idx].with_texts(
                    Seq::new(
                        out@.len(),
                        |j: int| (*final(out@[j]))@,
                    ).subrange(
                        cell_contents_offset(views, idx),
                        cell_contents_offset(views, idx + 1),
                    ),
                ),
        decreases rest.len(),
    {
        let ghost k = orig.len() - rest@.len();
        let ghost fr = final(rest)@;
        let ghost n0 = out@.len() as int;
        let ghost out0 = out@;
        let ghost fin0 = Seq::new(out@.len(), |j: int| (*final(out@[j]))@);
        proof {
            lemma_cell_contents_offset_step(views, k);
        }
        let (head, tail) = rest.split_at_mut(1);
        let ghost fh = final(head)@;
        let ghost ft = final(tail)@;
        assert(fr == fh + ft);
        assert(head@[0] == orig[k]);
        rest = tail;
        match head.first_mut() {
            Some(c) => {
                assert(fh.len() == 1);
                assert(fh[0] == *final(c));
                proof {
                    assert(*c == whole@[k]);
                    assert(decreases_to!(whole => whole@[k]));
                }
                let mut part = c.iter_text_mut();
                let ghost part0 = part@;
                let ghost part_fin = Seq::new(part0.len(), |j: int| (*final(part0[j]))@);
                out.append(&mut part);
                let ghost fin = Seq::new(out@.len(), |j: int| (*final(out@[j]))@);
                proof {
                    assert(out@ =~= out0 + part0);
                    assert(fin =~= fin0 + part_fin);
                    assert(all[k + 0] == fr[0]);
                    assert forall|j: int| 0 <= j < ft.len() implies all[k + 1 + j] == ft[j] by {
                        assert(all[k + (1 + j)] == fr[1 + j]);
                    }
                    assert(out@ =~= out0 + part0);
                    assert(views[k] == orig[k]@);
                    assert(part0.len() == views[k].texts().len());
                    assert(fin.subrange(n0, n0 + part0.len()) =~= part_fin);
                    assert(all[k]@ == views[k].with_texts(
                        fin.subrange(
                            cell_contents_offset(views, k),
                            cell_contents_offset(views, k + 1),
                        ),
                    ));
                    assert forall|idx: int| 0 <= idx < k implies (#[trigger] all[idx])@
                        == views[idx].with_texts(
                        fin.subrange(
                            cell_contents_offset(views, idx),
                            cell_contents_offset(views, idx + 1),
                        ),
                    ) by {
                        lemma_cell_contents_offset_monotonic(views, idx + 1, k);
                        lemma_cell_contents_offset_monotonic(views, idx, idx + 1);
                        assert(fin.subrange(
                            cell_contents_offset(views, idx),
                            cell_contents_offset(views, idx + 1),
                        ) =~= fin0.subrange(
                            cell_contents_offset(views, idx),
                            cell_contents_offset(views, idx + 1),
                        ));
                    }
                }
            },
            None => {},
        }
    }
    proof {
        assert(views.take(orig.len() as int) =~= views);
        let fin = Seq::new(out@.len(), |j: int| (*final(out@[j]))@);
        let texts = Seq::new(out@.len(), |i: int| (*final(out@[i]))@);
        assert(texts =~= fin);
        assert(cell_contents_view(all) =~= cell_contents_with_texts(views, fin));
    }
    out
}

impl TableCellContentView {
    /// Substitution and traversal agree: the text leaves of the entry after
    /// a substitution are its text leaves before, each with the dictionary
    /// applied, in the same order.
    pub proof fn lemma_substituted_texts(self, dict: Seq<(Seq<char>, Seq<char>)>)
        ensures
            self.substituted(dict).texts() == texts_substituted(self.texts(), dict),
        decreases self, 0int,
    {
        match self {
            TableCellContentView::Paragraph(x) => {
                x.lemma_substituted_texts(dict);
            },
            TableCellContentView::Table(x) => {
                x.lemma_substituted_texts(dict);
            },
        }
    }
}

impl TableCellView {
    /// The text leaves of the first `n` parts after a substitution are the
    /// substituted text leaves of the first `n` parts.
    pub proof fn lemma_substituted_texts_prefix(self, dict: Seq<(Seq<char>, Seq<char>)>, n: int)
        requires
            0 <= n <= self.content.len(),
        ensures
            cell_contents_texts(self.substituted(dict).content.take(n)) == texts_substituted(
                cell_contents_texts(self.content.take(n)),
                dict,
            ),
        decreases self, n,
    {
        let after = self.substituted(dict).content;
        if n == 0 {
            assert(after.take(0) =~= self.content.take(0));
            assert(cell_contents_texts(after.take(0)) =~= texts_substituted(
                cell_contents_texts(self.content.take(0)),
                dict,
            ));
        } else {
            self.lemma_substituted_texts_prefix(dict, n - 1);
            self.content[n - 1].lemma_substituted_texts(dict);
            assert(after.take(n).drop_last() =~= after.take(n - 1));
            assert(after.take(n).last() == self.content[n - 1].substituted(dict));
            assert(self.content.take(n).drop_last() =~= self.content.take(n - 1));
            assert(self.content.take(n).last() == self.content[n - 1]);
            lemma_texts_substituted_concat(
                cell_contents_texts(self.content.take(n - 1)),
                self.content[n - 1].texts(),
                dict,
            );
        }
    }

    /// Substitution and traversal agree: the text leaves of a cell after
    /// a substitution are its text leaves before, each with the dictionary
    /// applied, in the same order.
    pub proof fn lemma_substituted_texts(self, dict: Seq<(Seq<char>, Seq<char>)>)
        ensures
            self.substituted(dict).texts() == texts_substituted(self.texts(), dict),
        decreases self, self.content.len() + 1,
    {
        self.lemma_substituted_texts_prefix(dict, self.content.len() as int);
        assert(self.content.take(self.content.len() as int) =~= self.content);
        let after = self.substituted(dict).content;
        assert(after.take(after.len() as int) =~= after);
    }
}

impl TableCellContentView {
    /// What is put in place of the text leaves of the entry is what a
    /// traversal finds there afterwards, in the same order.
    pub proof fn lemma_with_texts(self, texts: Seq<Seq<char>>)
        requires
            texts.len() == self.texts().len(),
        ensures
            self.with_texts(texts).texts() == texts,
        decreases self, 0int,
    {
        match self {
            TableCellContentView::Paragraph(x) => {
                x.lemma_with_texts(texts);
            },
            TableCellContentView::Table(x) => {
                x.lemma_with_texts(texts);
            },
        }
    }
}

impl TableCellView {
    /// The text leaves of the first `n` parts after their leaves were
    /// replaced are the texts that took their place.
    #[verifier::rlimit(100)]
    pub proof fn lemma_with_texts_prefix(self, texts: Seq<Seq<char>>, n: int)
        requires
            texts.len() == self.texts().len(),
            0 <= n <= self.content.len(),
        ensures
            0 <= cell_contents_offset(self.content, n) <= texts.len(),
            cell_contents_texts(self.with_texts(texts).content.take(n)) == texts.take(
                cell_contents_offset(self.content, n),
            ),
        decreases self, n,
    {
        let cs = self.content;
        let after = self.with_texts(texts).content;
        assert(cs.take(cs.len() as int) =~= cs);
        lemma_cell_contents_offset_monotonic(cs, n, cs.len() as int);
        if n == 0 {
            assert(after.take(0) =~= cs.take(0));
            assert(cell_contents_texts(after.take(0)) =~= texts.take(cell_contents_offset(cs, 0)));
        } else {
            self.lemma_with_texts_prefix(texts, n - 1);
            lemma_cell_contents_offset_step(cs, n - 1);
            let from = cell_contents_offset(cs, n - 1);
            let to = cell_contents_offset(cs, n);
            cs[n - 1].lemma_with_texts(texts.subrange(from, to));
            lemma_cell_contents_offset_step(after, n - 1);
            assert(after[n - 1] == cs[n - 1].with_texts(texts.subrange(from, to)));
            assert(after[n - 1].texts() == texts.subrange(from, to));
            assert(texts.take(from) + texts.subrange(from, to) =~= texts.take(to));
        }
    }

    /// What is put in place of the text leaves of a cell is what a
    /// traversal finds there afterwards, in the same order.
    pub proof fn lemma_with_texts(self, texts: Seq<Seq<char>>)
        requires
            texts.len() == self.texts().len(),
        ensures
            self.with_texts(texts).texts() == texts,
        decreases self, self.content.len() + 1,
    {
        let cs = self.content;
        self.lemma_with_texts_prefix(texts, cs.len() as int);
        assert(cs.take(cs.len() as int) =~= cs);
        let after = self.with_texts(texts).content;
        assert(after.take(after.len() as int) =~= after);
        assert(texts.take(texts.len() as int) =~= texts);
    }
}

impl TableCellContentView {
    /// What was read is in normal form: where an element reads as an entry of a cell,
    /// writing that and reading it again gives the same.
    pub proof fn lemma_decode_normalizes(e: ElementView)
        requires
            TableCellContentView::decoded(e) is Ok,
        ensures
            TableCellContentView::decoded(
                TableCellContentView::decoded(e)->Ok_0.encoded(),
            ) == TableCellContentView::decoded(e),
    {
        TableCellContentView::decoded(e)->Ok_0.lemma_decode_encode();
    }
}

impl TableCellView {
    /// What was read is in normal form: where an element reads as a cell,
    /// writing that and reading it again gives the same.
    pub proof fn lemma_decode_normalizes(e: ElementView)
        requires
            TableCellView::decoded(e) is Ok,
        ensures
            TableCellView::decoded(
                TableCellView::decoded(e)->Ok_0.encoded(),
            ) == TableCellView::decoded(e),
    {
        TableCellView::decoded(e)->Ok_0.lemma_decode_encode();
    }
}

impl TableCellView {
    /// A cell without entries has no text leaves, and reads as it was
    /// written.
    pub proof fn lemma_empty_cell(self)
        requires
            self.content.len() == 0,
        ensures
            self.texts() == Seq::<Seq<char>>::empty(),
            TableCellView::decoded(self.encoded()) == Ok::<TableCellView, DecodeError>(self),
    {
        self.lemma_decode_encode();
    }
}

impl<'a> From<Paragraph<'a>> for TableCellContent<'a> {
    fn from(paragraph: Paragraph<'a>) -> (r: Self) {
        TableCellContent::Paragraph(paragraph)
    }
}

impl<'a> FromSpecImpl<Paragraph<'a>> for TableCellContent<'a> {
    open spec fn obeys_from_spec() -> bool {
        true
    }

    open spec fn from_spec(paragraph: Paragraph<'a>) -> Self {
        TableCellContent::Paragraph(paragraph)
    }
}

impl<'a> From<Table<'a>> for TableCellContent<'a> {
    fn from(table: Table<'a>) -> (r: Self) {
        TableCellContent::Table(table)
    }
}

impl<'a> FromSpecImpl<Table<'a>> for TableCellContent<'a> {
    open spec fn obeys_from_spec() -> bool {
        true
    }

    open spec fn from_spec(table: Table<'a>) -> Self {
        TableCellContent::Table(table)
    }
}

impl<'a> From<TableCellContent<'a>> for TableCell<'a> {
    /// A cell with default properties that holds `content` alone.
    fn from(content: TableCellContent<'a>) -> (r: Self)
        ensures
            r@ == (TableCellView {
                property: TableCellProperty::default_value(),
                content: seq![content@],
            }),
    {
        let mut items: Vec<TableCellContent<'a>> = Vec::new();
        items.push(content);
        let r = TableCell { property: TableCellProperty::default(), content: items };
        assert(r@.content =~= seq![content@]);
        r
    }
}

impl<'a> FromSpecImpl<TableCellContent<'a>> for TableCell<'a> {
    open spec fn obeys_from_spec() -> bool {
        false
    }

    open spec fn from_spec(content: TableCellContent<'a>) -> Self {
        arbitrary()
    }
}

impl<'a> From<Paragraph<'a>> for TableCell<'a> {
    /// A cell with default properties that holds `paragraph` alone.
    fn from(paragraph: Paragraph<'a>) -> (r: Self)
        ensures
            r@ == (TableCellView {
                property: TableCellProperty::default_value(),
                content: seq![TableCellContentView::Paragraph(paragraph@)],
            }),
    {
        let mut items: Vec<TableCellContent<'a>> = Vec::new();
        items.push(TableCellContent::Paragraph(paragraph));
        let r = TableCell { property: TableCellProperty::default(), content: items };
        assert(r@.content =~= seq![TableCellContentView::Paragraph(paragraph@)]);
        r
    }
}

impl<'a> FromSpecImpl<Paragraph<'a>> for TableCell<'a> {
    open spec fn obeys_from_spec() -> bool {
        false
    }

    open spec fn from_spec(paragraph: Paragraph<'a>) -> Self {
        arbitrary()
    }
}

impl<'a> From<Table<'a>> for TableCell<'a> {
    /// A cell with default properties that holds `table` alone.
    fn from(table: Table<'a>) -> (r: Self)
        ensures
            r@ == (TableCellView {
                property: TableCellProperty::default_value(),
                content: seq![TableCellContentView::Table(table@)],
            }),
    {
        let mut items: Vec<TableCellContent<'a>> = Vec::new();
        items.push(TableCellContent::Table(table));
        let r = TableCell { property: TableCellProperty::default(), content: items };
        assert(r@.content =~= seq![TableCellContentView::Table(table@)]);
        r
    }
}

impl<'a> FromSpecImpl<Table<'a>> for TableCell<'a> {
    open spec fn obeys_from_spec() -> bool {
        false
    }

    open spec fn from_spec(table: Table<'a>) -> Self {
        arbitrary()
    }
}

impl<'a> TableCellContent<'a> {
    /// Whether every text leaf of the entry owns its text.
    pub open spec fn owns_texts(&self) -> bool
        decreases self,
    {
        match self {
            TableCellContent::Paragraph(x) => x.owns_texts(),
            TableCellContent::Table(x) => x.owns_texts(),
        }
    }
}

/// Whether every text leaf of entries of a cell owns its text.
pub open spec fn cell_contents_own_texts(items: Seq<TableCellContent<'_>>) -> bool
    decreases items,
{
    forall|i: int| 0 <= i < items.len() ==> (#[trigger] items[i]).owns_texts()
}

impl<'a> TableCell<'a> {
    /// Whether every text leaf of the cell owns its text.
    pub open spec fn owns_texts(&self) -> bool
        decreases self,
    {
        cell_contents_own_texts(self.content@)
    }
}

impl<'a> Clone for TableCellContent<'a> {
    fn clone(&self) -> (r: Self)
        ensures
            r@ == self@,
    {
        self.duplicate()
    }
}

impl<'a> TableCellContent<'a> {
    /// A copy of the entry and of all that is below it. The copy holds what
    /// `self` holds.
    pub fn duplicate(&self) -> (r: Self)
        ensures
            r@ == self@,
        decreases self,
    {
        match self {
            TableCellContent::Paragraph(x) => TableCellContent::Paragraph(x.duplicate()),
            TableCellContent::Table(x) => TableCellContent::Table(x.duplicate()),
        }
    }
}

impl<'a> Clone for TableCell<'a> {
    fn clone(&self) -> (r: Self)
        ensures
            r@ == self@,
    {
        self.duplicate()
    }
}

impl<'a> TableCell<'a> {
    /// A copy of the cell and of all that is below it. The copy holds what
    /// `self` holds.
    pub fn duplicate(&self) -> (r: Self)
        ensures
            r@ == self@,
        decreases self,
    {
        let mut content: Vec<TableCellContent<'a>> = Vec::new();
        let mut i: usize = 0;
        while i < self.content.len()
            invariant
                i <= self.content.len(),
                content@.len() == i,
                forall|j: int| 0 <= j < i ==> (#[trigger] content@[j])@ == self.content@[j]@,
            decreases self.content.len() - i,
        {
            content.push(self.content[i].duplicate());
            i = i + 1;
        }
        let r = TableCell { property: self.property, content };
        proof {
            assert(cell_contents_view(r.content@) =~= cell_contents_view(self.content@));
        }
        r
    }
}

} // verus!
