//! Properties of a section.
use crate::error::DecodeError;
use crate::formatting::page_cols::PageCols;
use crate::formatting::page_margin::PageMargin;
use crate::xml::codec::names_view;
use crate::xml::element::{
    lemma_find_child_concat, lemma_find_optional_child, optional_child, optional_encoded,
    single_decoded, Element, ElementView,
};
use crate::xml::reader::{parse_as, parsed_as};
use crate::xml::writer::element_text;
use vstd::prelude::*;

verus! {

/// Properties of a section (`w:sectPr`).
#[derive(Debug, Clone, Copy, PartialEq, Eq)]
pub struct SectionProperty {
    pub page_margin: Option<PageMargin>,
    pub page_cols: Option<PageCols>,
}

impl Default for SectionProperty {
    fn default() -> (r: Self)
        ensures
            r == (SectionProperty { page_margin: None, page_cols: None }),
    {
        SectionProperty { page_margin: None, page_cols: None }
    }
}

impl SectionProperty {
    /// The element that the properties are written as: one child for each
    /// property that is present.
    pub open spec fn encoded(self) -> ElementView {
        ElementView {
            tag: "w:sectPr"@,
            attributes: Seq::empty(),
            children: optional_child(
                optional_encoded(self.page_margin, |v: PageMargin| v.encoded()),
            )
                + optional_child(optional_encoded(self.page_cols, |v: PageCols| v.encoded())),
        }
    }

    /// The properties that an element reads as. The element must have the
    /// tag `w:sectPr`; a child that fails to read fails the whole.
    pub open spec fn decoded(e: ElementView) -> Result<SectionProperty, DecodeError> {
        if e.tag != "w:sectPr"@ {
            Err(DecodeError::UnexpectedTag)
        } else {
            match single_decoded(
                e.children,
                "w:pgMar"@,
                |c: ElementView| PageMargin::decoded(c),
            ) {
                Err(x) => Err(x),
                Ok(page_margin) => match single_decoded(
                    e.children,
                    "w:cols"@,
                    |c: ElementView| PageCols::decoded(c),
                ) {
                    Err(x) => Err(x),
                    Ok(page_cols) => Ok(SectionProperty { page_margin, page_cols }),
                },
            }
        }
    }

    /// Writes the properties as an element.
    pub fn encode<'a>(&self) -> (e: Element<'a>)
        ensures
            e@ == self.encoded(),
    {
        let first: Option<Element<'a>> = match self.page_margin {
            Some(v) => Some(v.encode()),
            None => None,
        };
        let second: Option<Element<'a>> = match self.page_cols {
            Some(v) => Some(v.encode()),
            None => None,
        };
        let e = Element::new("w:sectPr").with_child(first).with_child(second);
        proof {
            assert(e@.children =~= self.encoded().children);
        }
        e
    }

    /// Reads properties from an element.
    pub fn decode(e: &Element<'_>) -> (r: Result<SectionProperty, DecodeError>)
        ensures
            r == SectionProperty::decoded(e@),
    {
        if !e.has_tag("w:sectPr") {
            return Err(DecodeError::UnexpectedTag);
        }
        let page_margin = e.decode_single_value(
            "w:pgMar",
            PageMargin::decode,
            Ghost(|c: ElementView| PageMargin::decoded(c)),
        )?;
        let page_cols = e.decode_single_value(
            "w:cols",
            PageCols::decode,
            Ghost(|c: ElementView| PageCols::decoded(c)),
        )?;
        Ok(SectionProperty { page_margin, page_cols })
    }

    /// Properties read as they were written.
    pub proof fn lemma_decode_encode(self)
        ensures
            SectionProperty::decoded(self.encoded()) == Ok::<SectionProperty, DecodeError>(self),
    {
        reveal_strlit("w:pgMar");
        reveal_strlit("w:cols");
        assert("w:pgMar"@.len() == 7);
        assert("w:cols"@.len() == 6);
        let first = optional_encoded(self.page_margin, |v: PageMargin| v.encoded());
        let second = optional_encoded(self.page_cols, |v: PageCols| v.encoded());
        lemma_find_child_concat(optional_child(first), optional_child(second), "w:pgMar"@);
        lemma_find_child_concat(optional_child(first), optional_child(second), "w:cols"@);
        lemma_find_optional_child(first, "w:pgMar"@);
        lemma_find_optional_child(first, "w:cols"@);
        lemma_find_optional_child(second, "w:pgMar"@);
        lemma_find_optional_child(second, "w:cols"@);
        if let Some(v) = self.page_margin {
            v.lemma_decode_encode();
        }
        if let Some(v) = self.page_cols {
            v.lemma_decode_encode();
        }
    }
}

impl SectionProperty {
    /// Reads properties of a section from XML text: the first element of the
    /// text with the tag `w:sectPr` is read as [`SectionProperty::decode`]
    /// reads an element. Whole elements with other tags before it are passed
    /// over.
    pub fn from_str(text: &str) -> (r: Result<SectionProperty, DecodeError>)
        ensures
            r == (match parsed_as(text@, seq!["w:sectPr"@]) {
                Ok(e) => SectionProperty::decoded(e),
                Err(x) => Err(x),
            }),
    {
        let mut tags: Vec<&str> = Vec::new();
        tags.push("w:sectPr");
        proof {
            assert(names_view(tags@) =~= seq!["w:sectPr"@]);
        }
        match parse_as(text, &tags) {
            Ok(e) => SectionProperty::decode(&e),
            Err(x) => Err(x),
        }
    }

    /// The XML text of the element that [`SectionProperty::encode`] gives.
    pub fn to_string(&self) -> (r: String)
        ensures
            r@ == element_text(self.encoded()),
    {
        self.encode().to_string()
    }
}

impl SectionProperty {
    /// What was read is in normal form: where an element reads as properties,
    /// writing that and reading it again gives the same.
    pub proof fn lemma_decode_normalizes(e: ElementView)
        requires
            SectionProperty::decoded(e) is Ok,
        ensures
            SectionProperty::decoded(
                SectionProperty::decoded(e)->Ok_0.encoded(),
            ) == SectionProperty::decoded(e),
    {
        SectionProperty::decoded(e)->Ok_0.lemma_decode_encode();
    }
}

} // verus!
