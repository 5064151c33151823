//! Text columns of a section.
use crate::error::DecodeError;
use crate::xml::codec::{
    any_repeated, fields_view, lemma_length_written, lemma_written_attribute,
    lemma_written_not_repeated, length_from, length_text, names_view, optional_length_value,
    written_attributes, Field,
};
use crate::xml::element::{Element, ElementView};
use crate::xml::reader::{parse_as, parsed_as};
use crate::xml::writer::element_text;
use std::borrow::Cow;
use vstd::prelude::*;

verus! {

/// Column layout of a section (`w:cols`).
#[derive(Debug, Clone, Copy, PartialEq, Eq)]
pub struct PageCols {
    /// Space between the columns (`w:space`).
    pub space: Option<isize>,
}

impl Default for PageCols {
    fn default() -> (r: Self)
        ensures
            r == (PageCols { space: None }),
    {
        PageCols { space: None }
    }
}

impl PageCols {
    /// The element that the column layout is written as.
    pub open spec fn encoded(self) -> ElementView {
        ElementView {
            tag: "w:cols"@,
            attributes: written_attributes(seq![("w:space"@, length_text(self.space))]),
            children: Seq::empty(),
        }
    }

    /// The column layout that an element reads as. The element must have
    /// the tag `w:cols`.
    /// Where one of the attributes that are read stands twice, the element
    /// is refused.
    pub open spec fn decoded(e: ElementView) -> Result<PageCols, DecodeError> {
        if e.tag != "w:cols"@ {
            Err(DecodeError::UnexpectedTag)
        } else if any_repeated(e.attributes, seq!["w:space"@]) {
            Err(DecodeError::DuplicateAttribute)
        } else {
            match length_from(e.attribute("w:space"@)) {
                Ok(space) => Ok(PageCols { space }),
                Err(x) => Err(x),
            }
        }
    }

    /// Writes the column layout as an element.
    pub fn encode<'a>(&self) -> (e: Element<'a>)
        ensures
            e@ == self.encoded(),
    {
        let mut fields: Vec<(&'a str, Option<Cow<'a, str>>)> = Vec::new();
        fields.push(("w:space", optional_length_value(self.space)));
        proof {
            assert(fields_view(fields@) =~= seq![("w:space"@, length_text(self.space))]);
        }
        Element::with_fields("w:cols", &fields)
    }

    /// Reads a column layout from an element.
    pub fn decode(e: &Element<'_>) -> (r: Result<PageCols, DecodeError>)
        ensures
            r == PageCols::decoded(e@),
    {
        if !e.has_tag("w:cols") {
            return Err(DecodeError::UnexpectedTag);
        }
        let mut names: Vec<&str> = Vec::new();
        names.push("w:space");
        proof {
            assert(names_view(names@) =~= seq!["w:space"@]);
        }
        if e.any_repeated(&names) {
            return Err(DecodeError::DuplicateAttribute);
        }
        let space = e.length_attribute("w:space")?;
        Ok(PageCols { space })
    }

    /// A column layout reads as it was written.
    pub proof fn lemma_decode_encode(self)
        ensures
            PageCols::decoded(self.encoded()) == Ok::<PageCols, DecodeError>(self),
    {
        assert(!any_repeated(self.encoded().attributes, seq!["w:space"@])) by {
            lemma_written_not_repeated(
                seq![("w:space"@, length_text(self.space))],
                seq!["w:space"@],
            );
        }
        let fields: Seq<Field> = seq![("w:space"@, length_text(self.space))];
        lemma_written_attribute(fields, 0);
        lemma_length_written(self.space);
    }
}

impl PageCols {
    /// Reads a column layout from XML text: the first element of the text with
    /// the tag `w:cols` is read as [`PageCols::decode`] reads an element. Whole
    /// elements with other tags before it are passed over.
    pub fn from_str(text: &str) -> (r: Result<PageCols, DecodeError>)
        ensures
            r == (match parsed_as(text@, seq!["w:cols"@]) {
                Ok(e) => PageCols::decoded(e),
                Err(x) => Err(x),
            }),
    {
        let mut tags: Vec<&str> = Vec::new();
        tags.push("w:cols");
        proof {
            assert(names_view(tags@) =~= seq!["w:cols"@]);
        }
        match parse_as(text, &tags) {
            Ok(e) => PageCols::decode(&e),
            Err(x) => Err(x),
        }
    }

    /// The XML text of the element that [`PageCols::encode`] gives.
    pub fn to_string(&self) -> (r: String)
        ensures
            r@ == element_text(self.encoded()),
    {
        self.encode().to_string()
    }
}

impl PageCols {
    /// What was read is in normal form: where an element reads as a column layout,
    /// writing that and reading it again gives the same.
    pub proof fn lemma_decode_normalizes(e: ElementView)
        requires
            PageCols::decoded(e) is Ok,
        ensures
            PageCols::decoded(PageCols::decoded(e)->Ok_0.encoded()) == PageCols::decoded(e),
    {
        PageCols::decoded(e)->Ok_0.lemma_decode_encode();
    }
}

} // verus!
