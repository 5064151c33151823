//! Properties of a paragraph.
use crate::error::DecodeError;
use crate::formatting::section_property::SectionProperty;
use crate::xml::codec::names_view;
use crate::xml::element::{
    lemma_find_optional_child, optional_child, optional_encoded, single_decoded, Element,
    ElementView,
};
use crate::xml::reader::{parse_as, parsed_as};
use crate::xml::writer::element_text;
use vstd::prelude::*;

verus! {

/// Properties of a paragraph (`w:pPr`).
#[derive(Debug, Clone, Copy, PartialEq, Eq)]
pub struct ParagraphProperty {
    /// Properties of the section that ends with the paragraph.
    pub section: Option<SectionProperty>,
}

impl Default for ParagraphProperty {
    fn default() -> (r: Self)
        ensures
            r == (ParagraphProperty { section: None }),
    {
        ParagraphProperty { section: None }
    }
}

impl ParagraphProperty {
    /// The element that the properties are written as.
    pub open spec fn encoded(self) -> ElementView {
        ElementView {
            tag: "w:pPr"@,
            attributes: Seq::empty(),
            children: optional_child(
                optional_encoded(self.section, |v: SectionProperty| v.encoded()),
            ),
        }
    }

    /// The properties that an element reads as. The element must have the
    /// tag `w:pPr`; a child that fails to read fails the whole.
    pub open spec fn decoded(e: ElementView) -> Result<ParagraphProperty, DecodeError> {
        if e.tag != "w:pPr"@ {
            Err(DecodeError::UnexpectedTag)
        } else {
            match single_decoded(
                e.children,
                "w:sectPr"@,
                |c: ElementView| SectionProperty::decoded(c),
            ) {
                Err(x) => Err(x),
                Ok(section) => Ok(ParagraphProperty { section }),
            }
        }
    }

    /// Writes the properties as an element.
    pub fn encode<'a>(&self) -> (e: Element<'a>)
        ensures
            e@ == self.encoded(),
    {
        let first: Option<Element<'a>> = match self.section {
            Some(v) => Some(v.encode()),
            None => None,
        };
        let e = Element::new("w:pPr").with_child(first);
        proof {
            assert(e@.children =~= self.encoded().children);
        }
        e
    }

    /// Reads properties from an element.
    pub fn decode(e: &Element<'_>) -> (r: Result<ParagraphProperty, DecodeError>)
        ensures
            r == ParagraphProperty::decoded(e@),
    {
        if !e.has_tag("w:pPr") {
            return Err(DecodeError::UnexpectedTag);
        }
        let section = e.decode_single_value(
            "w:sectPr",
            SectionProperty::decode,
            Ghost(|c: ElementView| SectionProperty::decoded(c)),
        )?;
        Ok(ParagraphProperty { section })
    }

    /// Properties read as they were written.
    pub proof fn lemma_decode_encode(self)
        ensures
            ParagraphProperty::decoded(self.encoded()) == Ok::<ParagraphProperty, DecodeError>(
                self,
            ),
    {
        let first = optional_encoded(self.section, |v: SectionProperty| v.encoded());
        lemma_find_optional_child(first, "w:sectPr"@);
        if let Some(v) = self.section {
            v.lemma_decode_encode();
        }
    }
}

impl ParagraphProperty {
    /// Reads properties of a paragraph from XML text: the first element of the
    /// text with the tag `w:pPr` is read as [`ParagraphProperty::decode`] reads
    /// an element. Whole elements with other tags before it are passed over.
    pub fn from_str(text: &str) -> (r: Result<ParagraphProperty, DecodeError>)
        ensures
            r == (match parsed_as(text@, seq!["w:pPr"@]) {
                Ok(e) => ParagraphProperty::decoded(e),
                Err(x) => Err(x),
            }),
    {
        let mut tags: Vec<&str> = Vec::new();
        tags.push("w:pPr");
        proof {
            assert(names_view(tags@) =~= seq!["w:pPr"@]);
        }
        match parse_as(text, &tags) {
            Ok(e) => ParagraphProperty::decode(&e),
            Err(x) => Err(x),
        }
    }

    /// The XML text of the element that [`ParagraphProperty::encode`] gives.
    pub fn to_string(&self) -> (r: String)
        ensures
            r@ == element_text(self.encoded()),
    {
        self.encode().to_string()
    }
}

impl ParagraphProperty {
    /// What was read is in normal form: where an element reads as properties,
    /// writing that and reading it again gives the same.
    pub proof fn lemma_decode_normalizes(e: ElementView)
        requires
            ParagraphProperty::decoded(e) is Ok,
        ensures
            ParagraphProperty::decoded(
                ParagraphProperty::decoded(e)->Ok_0.encoded(),
            ) == ParagraphProperty::decoded(e),
    {
        ParagraphProperty::decoded(e)->Ok_0.lemma_decode_encode();
    }
}

} // verus!
