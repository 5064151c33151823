//! Properties of a table.
use crate::error::DecodeError;
use crate::xml::codec::names_view;
use crate::xml::element::{empty_element, Element, ElementView};
use crate::xml::reader::{parse_as, parsed_as};
use crate::xml::writer::element_text;
use vstd::prelude::*;

verus! {

/// Properties of a table (`w:tblPr`). None of them is kept: the element is
/// read wherever it stands and written empty.
#[derive(Debug, Clone, Copy, PartialEq, Eq)]
pub struct TableProperty {}

impl Default for TableProperty {
    fn default() -> (r: Self)
        ensures
            r == (TableProperty {  }),
    {
        TableProperty {  }
    }
}

impl TableProperty {
    /// The element that the properties are written as.
    pub open spec fn encoded(self) -> ElementView {
        empty_element("w:tblPr"@)
    }

    /// The properties that an element reads as. The element must have the
    /// tag `w:tblPr`; what it holds is passed over.
    pub open spec fn decoded(e: ElementView) -> Result<TableProperty, DecodeError> {
        if e.tag != "w:tblPr"@ {
            Err(DecodeError::UnexpectedTag)
        } else {
            Ok(TableProperty {  })
        }
    }

    /// Writes the properties as an element.
    pub fn encode<'a>(&self) -> (e: Element<'a>)
        ensures
            e@ == self.encoded(),
    {
        Element::new("w:tblPr")
    }

    /// Reads properties from an element.
    pub fn decode(e: &Element<'_>) -> (r: Result<TableProperty, DecodeError>)
        ensures
            r == TableProperty::decoded(e@),
    {
        if !e.has_tag("w:tblPr") {
            return Err(DecodeError::UnexpectedTag);
        }
        Ok(TableProperty {  })
    }

    /// Properties read as they were written.
    pub proof fn lemma_decode_encode(self)
        ensures
            TableProperty::decoded(self.encoded()) == Ok::<TableProperty, DecodeError>(self),
    {
    }

    /// Reads properties from XML text: the first element of the text with the
    /// tag `w:tblPr` is read as [`TableProperty::decode`] reads an element.
    /// Whole elements with other tags before it are passed over.
    pub fn from_str(text: &str) -> (r: Result<TableProperty, DecodeError>)
        ensures
            r == (match parsed_as(text@, seq!["w:tblPr"@]) {
                Ok(e) => TableProperty::decoded(e),
                Err(x) => Err(x),
            }),
    {
        let mut tags: Vec<&str> = Vec::new();
        tags.push("w:tblPr");
        proof {
            assert(names_view(tags@) =~= seq!["w:tblPr"@]);
        }
        match parse_as(text, &tags) {
            Ok(e) => TableProperty::decode(&e),
            Err(x) => Err(x),
        }
    }

    /// The XML text of the element that [`TableProperty::encode`] gives.
    pub fn to_string(&self) -> (r: String)
        ensures
            r@ == element_text(self.encoded()),
    {
        self.encode().to_string()
    }
}

} // verus!
