//! Properties of a table cell.
use crate::error::DecodeError;
use crate::formatting::grid_span::GridSpan;
use crate::formatting::v_align::{VAlign, VAlignType};
use crate::formatting::v_merge::VMerge;
use crate::xml::codec::names_view;
use crate::xml::element::{
    lemma_find_child_concat, lemma_find_optional_child, optional_child, optional_encoded,
    or_default, single_decoded, Element, ElementView, NodeView,
};
use crate::xml::reader::{parse_as, parsed_as};
use crate::xml::writer::element_text;
use vstd::prelude::*;

verus! {

/// Properties of a table cell (`w:tcPr`).
#[derive(Debug, Clone, Copy, PartialEq, Eq)]
pub struct TableCellProperty {
    pub grid_span: Option<GridSpan>,
    pub v_merge: Option<VMerge>,
    /// Vertical alignment of the content; at the top unless said otherwise.
    pub v_align: VAlign,
}

impl Default for TableCellProperty {
    fn default() -> (r: Self)
        ensures
            r == TableCellProperty::default_value(),
    {
        TableCellProperty { grid_span: None, v_merge: None, v_align: VAlign::default() }
    }
}

impl TableCellProperty {
    /// The properties of a cell of which nothing was said: no span, no
    /// merge, content at the top.
    pub open spec fn default_value() -> TableCellProperty {
        TableCellProperty {
            grid_span: None,
            v_merge: None,
            v_align: VAlign { val: VAlignType::Top },
        }
    }

    /// Sets the grid span.
    pub fn grid_span(self, grid_span: GridSpan) -> (r: Self)
        ensures
            r == (TableCellProperty { grid_span: Some(grid_span), ..self }),
    {
        TableCellProperty {
            grid_span: Some(grid_span),
            v_merge: self.v_merge,
            v_align: self.v_align,
        }
    }

    /// Sets the vertical merge.
    pub fn v_merge(self, v_merge: VMerge) -> (r: Self)
        ensures
            r == (TableCellProperty { v_merge: Some(v_merge), ..self }),
    {
        TableCellProperty {
            grid_span: self.grid_span,
            v_merge: Some(v_merge),
            v_align: self.v_align,
        }
    }

    /// Sets the vertical alignment.
    pub fn v_align(self, v_align: VAlign) -> (r: Self)
        ensures
            r == (TableCellProperty { v_align, ..self }),
    {
        TableCellProperty { grid_span: self.grid_span, v_merge: self.v_merge, v_align }
    }
}

impl TableCellProperty {
    /// The element that the properties are written as: one child for the
    /// span and one for the merge where they are present, and one for the
    /// alignment.
    pub open spec fn encoded(self) -> ElementView {
        ElementView {
            tag: "w:tcPr"@,
            attributes: Seq::empty(),
            children: optional_child(optional_encoded(self.grid_span, |v: GridSpan| v.encoded()))
                + optional_child(optional_encoded(self.v_merge, |v: VMerge| v.encoded()))
                + seq![NodeView::Element(self.v_align.encoded())],
        }
    }

    /// The properties that an element reads as. The element must have the
    /// tag `w:tcPr`; a child that fails to read fails the whole.
    pub open spec fn decoded(e: ElementView) -> Result<TableCellProperty, DecodeError> {
        let grid_span = single_decoded(
            e.children,
            "w:gridSpan"@,
            |c: ElementView| GridSpan::decoded(c),
        );
        let v_merge = single_decoded(e.children, "w:vMerge"@, |c: ElementView| VMerge::decoded(c));
        let v_align = or_default(
            single_decoded(e.children, "w:vAlign"@, |c: ElementView| VAlign::decoded(c)),
            VAlign { val: VAlignType::Top },
        );
        if e.tag != "w:tcPr"@ {
            Err(DecodeError::UnexpectedTag)
        } else if grid_span is Err {
            Err(grid_span->Err_0)
        } else if v_merge is Err {
            Err(v_merge->Err_0)
        } else if v_align is Err {
            Err(v_align->Err_0)
        } else {
            Ok(
                TableCellProperty {
                    grid_span: grid_span->Ok_0,
                    v_merge: v_merge->Ok_0,
                    v_align: v_align->Ok_0,
                },
            )
        }
    }

    /// Writes the properties as an element.
    pub fn encode<'a>(&self) -> (e: Element<'a>)
        ensures
            e@ == self.encoded(),
    {
        let first: Option<Element<'a>> = match self.grid_span {
            Some(v) => Some(v.encode()),
            None => None,
        };
        let second: Option<Element<'a>> = match self.v_merge {
            Some(v) => Some(v.encode()),
            None => None,
        };
        let e = Element::new("w:tcPr").with_child(first).with_child(second).with_child(
            Some(self.v_align.encode()),
        );
        proof {
            assert(e@.children =~= self.encoded().children);
        }
        e
    }

    /// Reads properties from an element.
    pub fn decode(e: &Element<'_>) -> (r: Result<TableCellProperty, DecodeError>)
        ensures
            r == TableCellProperty::decoded(e@),
    {
        if !e.has_tag("w:tcPr") {
            return Err(DecodeError::UnexpectedTag);
        }
        let grid_span = e.decode_single_value(
            "w:gridSpan",
            GridSpan::decode,
            Ghost(|c: ElementView| GridSpan::decoded(c)),
        )?;
        let v_merge = e.decode_single_value(
            "w:vMerge",
            VMerge::decode,
            Ghost(|c: ElementView| VMerge::decoded(c)),
        )?;
        let v_align = match e.decode_single_value(
            "w:vAlign",
            VAlign::decode,
            Ghost(|c: ElementView| VAlign::decoded(c)),
        )? {
            Some(v) => v,
            None => VAlign::default(),
        };
        Ok(TableCellProperty { grid_span, v_merge, v_align })
    }

    /// Properties read as they were written.
    pub proof fn lemma_decode_encode(self)
        ensures
            TableCellProperty::decoded(self.encoded()) == Ok::<TableCellProperty, DecodeError>(
                self,
            ),
    {
        reveal_strlit("w:gridSpan");
        reveal_strlit("w:vMerge");
        reveal_strlit("w:vAlign");
        assert("w:gridSpan"@.len() == 10);
        assert("w:vMerge"@.len() == 8 && "w:vMerge"@[3] == 'M');
        assert("w:vAlign"@.len() == 8 && "w:vAlign"@[3] == 'A');
        let first = optional_child(optional_encoded(self.grid_span, |v: GridSpan| v.encoded()));
        let second = optional_child(optional_encoded(self.v_merge, |v: VMerge| v.encoded()));
        let third = seq![NodeView::Element(self.v_align.encoded())];
        assert(third == optional_child(Some(self.v_align.encoded())));
        lemma_find_child_concat(first + second, third, "w:gridSpan"@);
        lemma_find_child_concat(first + second, third, "w:vMerge"@);
        lemma_find_child_concat(first + second, third, "w:vAlign"@);
        lemma_find_child_concat(first, second, "w:gridSpan"@);
        lemma_find_child_concat(first, second, "w:vMerge"@);
        lemma_find_child_concat(first, second, "w:vAlign"@);
        lemma_find_optional_child(
            optional_encoded(self.grid_span, |v: GridSpan| v.encoded()),
            "w:gridSpan"@,
        );
        lemma_find_optional_child(
            optional_encoded(self.grid_span, |v: GridSpan| v.encoded()),
            "w:vMerge"@,
        );
        lemma_find_optional_child(
            optional_encoded(self.grid_span, |v: GridSpan| v.encoded()),
            "w:vAlign"@,
        );
        lemma_find_optional_child(
            optional_encoded(self.v_merge, |v: VMerge| v.encoded()),
            "w:gridSpan"@,
        );
        lemma_find_optional_child(
            optional_encoded(self.v_merge, |v: VMerge| v.encoded()),
            "w:vMerge"@,
        );
        lemma_find_optional_child(
            optional_encoded(self.v_merge, |v: VMerge| v.encoded()),
            "w:vAlign"@,
        );
        lemma_find_optional_child(Some(self.v_align.encoded()), "w:gridSpan"@);
        lemma_find_optional_child(Some(self.v_align.encoded()), "w:vMerge"@);
        lemma_find_optional_child(Some(self.v_align.encoded()), "w:vAlign"@);
        self.v_align.lemma_decode_encode();
        if let Some(v) = self.grid_span {
            v.lemma_decode_encode();
        }
        if let Some(v) = self.v_merge {
            v.lemma_decode_encode();
        }
    }
}

impl TableCellProperty {
    /// Reads properties of a cell from XML text: the first element of the text
    /// with the tag `w:tcPr` is read as [`TableCellProperty::decode`] reads an
    /// element. Whole elements with other tags before it are passed over.
    pub fn from_str(text: &str) -> (r: Result<TableCellProperty, DecodeError>)
        ensures
            r == (match parsed_as(text@, seq!["w:tcPr"@]) {
                Ok(e) => TableCellProperty::decoded(e),
                Err(x) => Err(x),
            }),
    {
        let mut tags: Vec<&str> = Vec::new();
        tags.push("w:tcPr");
        proof {
            assert(names_view(tags@) =~= seq!["w:tcPr"@]);
        }
        match parse_as(text, &tags) {
            Ok(e) => TableCellProperty::decode(&e),
            Err(x) => Err(x),
        }
    }

    /// The XML text of the element that [`TableCellProperty::encode`] gives.
    pub fn to_string(&self) -> (r: String)
        ensures
            r@ == element_text(self.encoded()),
    {
        self.encode().to_string()
    }
}

impl TableCellProperty {
    /// What was read is in normal form: where an element reads as properties,
    /// writing that and reading it again gives the same.
    pub proof fn lemma_decode_normalizes(e: ElementView)
        requires
            TableCellProperty::decoded(e) is Ok,
        ensures
            TableCellProperty::decoded(
                TableCellProperty::decoded(e)->Ok_0.encoded(),
            ) == TableCellProperty::decoded(e),
    {
        TableCellProperty::decoded(e)->Ok_0.lemma_decode_encode();
    }
}

} // verus!
