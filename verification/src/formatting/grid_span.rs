//! Number of grid columns that a table cell spans.
use crate::error::DecodeError;
use crate::rounded_float::decimal_text;
use crate::xml::codec::{
    any_repeated, fields_view, lemma_length_written, lemma_written_attribute,
    lemma_written_not_repeated, length_from, names_view, optional_length_value, written_attributes,
    Field,
};
use crate::xml::element::{Element, ElementView};
use crate::xml::reader::{parse_as, parsed_as};
use crate::xml::writer::element_text;
use std::borrow::Cow;
use vstd::prelude::*;

verus! {

/// Grid span of a table cell (`w:gridSpan`).
#[derive(Debug, Clone, Copy, PartialEq, Eq)]
pub struct GridSpan {
    /// Number of grid columns (`w:val`).
    pub val: isize,
}

impl Default for GridSpan {
    fn default() -> (r: Self)
        ensures
            r == (GridSpan { val: 0 }),
    {
        GridSpan { val: 0 }
    }
}

impl GridSpan {
    /// The element that the grid span is written as.
    pub open spec fn encoded(self) -> ElementView {
        ElementView {
            tag: "w:gridSpan"@,
            attributes: written_attributes(
                seq![("w:val"@, Some(decimal_text(self.val as int)))],
            ),
            children: Seq::empty(),
        }
    }

    /// The grid span that an element reads as. The element must have the
    /// tag `w:gridSpan` and a length under `w:val`.
    /// Where one of the attributes that are read stands twice, the element
    /// is refused.
    pub open spec fn decoded(e: ElementView) -> Result<GridSpan, DecodeError> {
        if e.tag != "w:gridSpan"@ {
            Err(DecodeError::UnexpectedTag)
        } else if any_repeated(e.attributes, seq!["w:val"@]) {
            Err(DecodeError::DuplicateAttribute)
        } else {
            match length_from(e.attribute("w:val"@)) {
                Ok(Some(val)) => Ok(GridSpan { val }),
                Ok(None) => Err(DecodeError::MissingAttribute),
                Err(x) => Err(x),
            }
        }
    }

    /// Writes the grid span as an element.
    pub fn encode<'a>(&self) -> (e: Element<'a>)
        ensures
            e@ == self.encoded(),
    {
        let mut fields: Vec<(&'a str, Option<Cow<'a, str>>)> = Vec::new();
        fields.push(("w:val", optional_length_value(Some(self.val))));
        proof {
            assert(fields_view(fields@) =~= seq![
                ("w:val"@, Some(decimal_text(self.val as int))),
            ]);
        }
        Element::with_fields("w:gridSpan", &fields)
    }

    /// Reads a grid span from an element.
    pub fn decode(e: &Element<'_>) -> (r: Result<GridSpan, DecodeError>)
        ensures
            r == GridSpan::decoded(e@),
    {
        if !e.has_tag("w:gridSpan") {
            return Err(DecodeError::UnexpectedTag);
        }
        let mut names: Vec<&str> = Vec::new();
        names.push("w:val");
        proof {
            assert(names_view(names@) =~= seq!["w:val"@]);
        }
        if e.any_repeated(&names) {
            return Err(DecodeError::DuplicateAttribute);
        }
        match e.length_attribute("w:val")? {
            Some(val) => Ok(GridSpan { val }),
            None => Err(DecodeError::MissingAttribute),
        }
    }

    /// A grid span reads as it was written.
    pub proof fn lemma_decode_encode(self)
        ensures
            GridSpan::decoded(self.encoded()) == Ok::<GridSpan, DecodeError>(self),
    {
        assert(!any_repeated(self.encoded().attributes, seq!["w:val"@])) by {
            lemma_written_not_repeated(
                seq![("w:val"@, Some(decimal_text(self.val as int)))],
                seq!["w:val"@],
            );
        }
        let fields: Seq<Field> = seq![
            ("w:val"@, Some(decimal_text(self.val as int))),
        ];
        lemma_written_attribute(fields, 0);
        lemma_length_written(Some(self.val));
    }
}

impl GridSpan {
    /// Reads a grid span from XML text: the first element of the text with the
    /// tag `w:gridSpan` is read as [`GridSpan::decode`] reads an element. Whole
    /// elements with other tags before it are passed over.
    pub fn from_str(text: &str) -> (r: Result<GridSpan, DecodeError>)
        ensures
            r == (match parsed_as(text@, seq!["w:gridSpan"@]) {
                Ok(e) => GridSpan::decoded(e),
                Err(x) => Err(x),
            }),
    {
        let mut tags: Vec<&str> = Vec::new();
        tags.push("w:gridSpan");
        proof {
            assert(names_view(tags@) =~= seq!["w:gridSpan"@]);
        }
        match parse_as(text, &tags) {
            Ok(e) => GridSpan::decode(&e),
            Err(x) => Err(x),
        }
    }

    /// The XML text of the element that [`GridSpan::encode`] gives.
    pub fn to_string(&self) -> (r: String)
        ensures
            r@ == element_text(self.encoded()),
    {
        self.encode().to_string()
    }
}

impl GridSpan {
    /// What was read is in normal form: where an element reads as a grid span,
    /// writing that and reading it again gives the same.
    pub proof fn lemma_decode_normalizes(e: ElementView)
        requires
            GridSpan::decoded(e) is Ok,
        ensures
            GridSpan::decoded(GridSpan::decoded(e)->Ok_0.encoded()) == GridSpan::decoded(e),
    {
        GridSpan::decoded(e)->Ok_0.lemma_decode_encode();
    }
}

} // verus!
