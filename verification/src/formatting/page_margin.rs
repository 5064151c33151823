//! Page margins of a section.
use crate::error::DecodeError;
use crate::xml::codec::{
    any_repeated, distinct_names, fields_view, lemma_length_written, lemma_written_attribute,
    lemma_written_not_repeated, length_from, length_text, names_view, optional_length_value,
    written_attributes, Field,
};
use crate::xml::element::{Element, ElementView};
use crate::xml::reader::{parse_as, parsed_as};
use crate::xml::writer::element_text;
use std::borrow::Cow;
use vstd::prelude::*;

verus! {

/// Page margins of a section (`w:pgMar`).
#[derive(Debug, Clone, Copy, PartialEq, Eq)]
pub struct PageMargin {
    pub top: Option<isize>,
    pub right: Option<isize>,
    pub bottom: Option<isize>,
    pub left: Option<isize>,
    pub header: Option<isize>,
    pub footer: Option<isize>,
    pub gutter: Option<isize>,
}

impl Default for PageMargin {
    fn default() -> (r: Self)
        ensures
            r == (PageMargin {
                top: None,
                right: None,
                bottom: None,
                left: None,
                header: None,
                footer: None,
                gutter: None,
            }),
    {
        PageMargin {
            top: None,
            right: None,
            bottom: None,
            left: None,
            header: None,
            footer: None,
            gutter: None,
        }
    }
}

impl PageMargin {
    /// The names of the margins and the texts that they are written as.
    pub open spec fn fields(self) -> Seq<Field> {
        seq![
            ("w:top"@, length_text(self.top)),
            ("w:right"@, length_text(self.right)),
            ("w:bottom"@, length_text(self.bottom)),
            ("w:left"@, length_text(self.left)),
            ("w:header"@, length_text(self.header)),
            ("w:footer"@, length_text(self.footer)),
            ("w:gutter"@, length_text(self.gutter)),
        ]
    }

    /// The element that the margins are written as: one attribute for each
    /// margin that is present.
    pub open spec fn encoded(self) -> ElementView {
        ElementView {
            tag: "w:pgMar"@,
            attributes: written_attributes(self.fields()),
            children: Seq::empty(),
        }
    }

    /// The margins that an element reads as. The element must have the tag
    /// `w:pgMar`; the first margin that is no number decides the error.
    /// Where one of the attributes that are read stands twice, the element
    /// is refused.
    pub open spec fn decoded(e: ElementView) -> Result<PageMargin, DecodeError> {
        let top = length_from(e.attribute("w:top"@));
        let right = length_from(e.attribute("w:right"@));
        let bottom = length_from(e.attribute("w:bottom"@));
        let left = length_from(e.attribute("w:left"@));
        let header = length_from(e.attribute("w:header"@));
        let footer = length_from(e.attribute("w:footer"@));
        let gutter = length_from(e.attribute("w:gutter"@));
        if e.tag != "w:pgMar"@ {
            Err(DecodeError::UnexpectedTag)
        } else if any_repeated(
            e.attributes,
            seq![
                "w:top"@,
                "w:right"@,
                "w:bottom"@,
                "w:left"@,
                "w:header"@,
                "w:footer"@,
                "w:gutter"@,
            ],
        ) {
            Err(DecodeError::DuplicateAttribute)
        } else if top is Err {
            Err(top->Err_0)
        } else if right is Err {
            Err(right->Err_0)
        } else if bottom is Err {
            Err(bottom->Err_0)
        } else if left is Err {
            Err(left->Err_0)
        } else if header is Err {
            Err(header->Err_0)
        } else if footer is Err {
            Err(footer->Err_0)
        } else if gutter is Err {
            Err(gutter->Err_0)
        } else {
            Ok(
                PageMargin {
                    top: top->Ok_0,
                    right: right->Ok_0,
                    bottom: bottom->Ok_0,
                    left: left->Ok_0,
                    header: header->Ok_0,
                    footer: footer->Ok_0,
                    gutter: gutter->Ok_0,
                },
            )
        }
    }

    /// Writes the margins as an element.
    pub fn encode<'a>(&self) -> (e: Element<'a>)
        ensures
            e@ == self.encoded(),
    {
        let mut fields: Vec<(&'a str, Option<Cow<'a, str>>)> = Vec::new();
        fields.push(("w:top", optional_length_value(self.top)));
        fields.push(("w:right", optional_length_value(self.right)));
        fields.push(("w:bottom", optional_length_value(self.bottom)));
        fields.push(("w:left", optional_length_value(self.left)));
        fields.push(("w:header", optional_length_value(self.header)));
        fields.push(("w:footer", optional_length_value(self.footer)));
        fields.push(("w:gutter", optional_length_value(self.gutter)));
        proof {
            assert(fields_view(fields@) =~= self.fields());
        }
        Element::with_fields("w:pgMar", &fields)
    }

    /// Reads margins from an element.
    pub fn decode(e: &Element<'_>) -> (r: Result<PageMargin, DecodeError>)
        ensures
            r == PageMargin::decoded(e@),
    {
        if !e.has_tag("w:pgMar") {
            return Err(DecodeError::UnexpectedTag);
        }
        let mut names: Vec<&str> = Vec::new();
        names.push("w:top");
        names.push("w:right");
        names.push("w:bottom");
        names.push("w:left");
        names.push("w:header");
        names.push("w:footer");
        names.push("w:gutter");
        proof {
            assert(names_view(names@) =~= seq![
                "w:top"@,
                "w:right"@,
                "w:bottom"@,
                "w:left"@,
                "w:header"@,
                "w:footer"@,
                "w:gutter"@,
            ]);
        }
        if e.any_repeated(&names) {
            return Err(DecodeError::DuplicateAttribute);
        }
        let top = e.length_attribute("w:top")?;
        let right = e.length_attribute("w:right")?;
        let bottom = e.length_attribute("w:bottom")?;
        let left = e.length_attribute("w:left")?;
        let header = e.length_attribute("w:header")?;
        let footer = e.length_attribute("w:footer")?;
        let gutter = e.length_attribute("w:gutter")?;
        Ok(PageMargin { top, right, bottom, left, header, footer, gutter })
    }

    /// No two margins are written under the same name.
    pub proof fn lemma_distinct_names(self)
        ensures
            distinct_names(self.fields()),
    {
        reveal_strlit("w:top");
        reveal_strlit("w:right");
        reveal_strlit("w:bottom");
        reveal_strlit("w:left");
        reveal_strlit("w:header");
        reveal_strlit("w:footer");
        reveal_strlit("w:gutter");
        assert("w:top"@.len() == 5);
        assert("w:right"@.len() == 7);
        assert("w:left"@.len() == 6);
        assert("w:bottom"@.len() == 8 && "w:bottom"@[2] == 'b');
        assert("w:header"@.len() == 8 && "w:header"@[2] == 'h');
        assert("w:footer"@.len() == 8 && "w:footer"@[2] == 'f');
        assert("w:gutter"@.len() == 8 && "w:gutter"@[2] == 'g');
    }

    /// Margins read as they were written.
    pub proof fn lemma_decode_encode(self)
        ensures
            PageMargin::decoded(self.encoded()) == Ok::<PageMargin, DecodeError>(self),
    {
        assert(!any_repeated(self.encoded().attributes, seq![
                "w:top"@,
                "w:right"@,
                "w:bottom"@,
                "w:left"@,
                "w:header"@,
                "w:footer"@,
                "w:gutter"@,
            ])) by {
            self.lemma_distinct_names();
            lemma_written_not_repeated(
                self.fields(),
                seq![
                    "w:top"@,
                    "w:right"@,
                    "w:bottom"@,
                    "w:left"@,
                    "w:header"@,
                    "w:footer"@,
                    "w:gutter"@,
                ],
            );
        }
        self.lemma_distinct_names();
        lemma_written_attribute(self.fields(), 0);
        lemma_length_written(self.top);
        lemma_written_attribute(self.fields(), 1);
        lemma_length_written(self.right);
        lemma_written_attribute(self.fields(), 2);
        lemma_length_written(self.bottom);
        lemma_written_attribute(self.fields(), 3);
        lemma_length_written(self.left);
        lemma_written_attribute(self.fields(), 4);
        lemma_length_written(self.header);
        lemma_written_attribute(self.fields(), 5);
        lemma_length_written(self.footer);
        lemma_written_attribute(self.fields(), 6);
        lemma_length_written(self.gutter);
    }
}

impl PageMargin {
    /// Reads margins from XML text: the first element of the text with the tag
    /// `w:pgMar` is read as [`PageMargin::decode`] reads an element. Whole
    /// elements with other tags before it are passed over.
    pub fn from_str(text: &str) -> (r: Result<PageMargin, DecodeError>)
        ensures
            r == (match parsed_as(text@, seq!["w:pgMar"@]) {
                Ok(e) => PageMargin::decoded(e),
                Err(x) => Err(x),
            }),
    {
        let mut tags: Vec<&str> = Vec::new();
        tags.push("w:pgMar");
        proof {
            assert(names_view(tags@) =~= seq!["w:pgMar"@]);
        }
        match parse_as(text, &tags) {
            Ok(e) => PageMargin::decode(&e),
            Err(x) => Err(x),
        }
    }

    /// The XML text of the element that [`PageMargin::encode`] gives.
    pub fn to_string(&self) -> (r: String)
        ensures
            r@ == element_text(self.encoded()),
    {
        self.encode().to_string()
    }
}

impl PageMargin {
    /// What was read is in normal form: where an element reads as margins,
    /// writing that and reading it again gives the same.
    pub proof fn lemma_decode_normalizes(e: ElementView)
        requires
            PageMargin::decoded(e) is Ok,
        ensures
            PageMargin::decoded(PageMargin::decoded(e)->Ok_0.encoded()) == PageMargin::decoded(e),
    {
        PageMargin::decoded(e)->Ok_0.lemma_decode_encode();
    }
}

} // verus!
