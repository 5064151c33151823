//! Vertical alignment of the content of a table cell.
use crate::error::DecodeError;
use crate::text::{cow_str, str_eq};
use crate::xml::codec::{
    any_repeated, fields_view, lemma_written_attribute, lemma_written_not_repeated, names_view,
    written_attributes, Field,
};
use crate::xml::element::{Element, ElementView};
use crate::xml::reader::{parse_as, parsed_as};
use crate::xml::writer::element_text;
use std::borrow::Cow;
use vstd::prelude::*;

verus! {

/// Where the content of a cell stands between its upper and lower edge.
#[derive(Debug, Clone, Copy, PartialEq, Eq, Structural)]
pub enum VAlignType {
    Top,
    Center,
    Both,
    Bottom,
}

/// Vertical alignment of a table cell (`w:vAlign`).
#[derive(Debug, Clone, Copy, PartialEq, Eq)]
pub struct VAlign {
    /// The alignment (`w:val`).
    pub val: VAlignType,
}

impl Default for VAlignType {
    fn default() -> (r: Self)
        ensures
            r == VAlignType::Top,
    {
        VAlignType::Top
    }
}

impl Default for VAlign {
    fn default() -> (r: Self)
        ensures
            r == (VAlign { val: VAlignType::Top }),
    {
        VAlign { val: VAlignType::Top }
    }
}

impl VAlignType {
    /// The literal that the variant is written as.
    pub open spec fn literal(self) -> Seq<char> {
        match self {
            VAlignType::Top => "top"@,
            VAlignType::Center => "center"@,
            VAlignType::Both => "both"@,
            VAlignType::Bottom => "bottom"@,
        }
    }

    /// The variant that a literal stands for.
    pub open spec fn from_literal(s: Seq<char>) -> Result<VAlignType, DecodeError> {
        if s == "top"@ {
            Ok(VAlignType::Top)
        } else if s == "center"@ {
            Ok(VAlignType::Center)
        } else if s == "both"@ {
            Ok(VAlignType::Both)
        } else if s == "bottom"@ {
            Ok(VAlignType::Bottom)
        } else {
            Err(DecodeError::UnknownEnumValue)
        }
    }

    /// The literal that the variant is written as. The call never fails.
    pub fn to_xml(&self) -> (r: &'static str)
        ensures
            r@ == self.literal(),
    {
        match self {
            VAlignType::Top => "top",
            VAlignType::Center => "center",
            VAlignType::Both => "both",
            VAlignType::Bottom => "bottom",
        }
    }

    /// The variant that `s` stands for, or `UnknownEnumValue` where `s` is
    /// none of the literals.
    pub fn from_xml(s: &str) -> (r: Result<VAlignType, DecodeError>)
        ensures
            r == VAlignType::from_literal(s@),
    {
        if str_eq(s, "top") {
            Ok(VAlignType::Top)
        } else if str_eq(s, "center") {
            Ok(VAlignType::Center)
        } else if str_eq(s, "both") {
            Ok(VAlignType::Both)
        } else if str_eq(s, "bottom") {
            Ok(VAlignType::Bottom)
        } else {
            Err(DecodeError::UnknownEnumValue)
        }
    }

    /// A variant reads as it was written.
    pub proof fn lemma_decode_encode(self)
        ensures
            VAlignType::from_literal(self.literal()) == Ok::<VAlignType, DecodeError>(self),
    {
        reveal_strlit("top");
        reveal_strlit("center");
        reveal_strlit("both");
        reveal_strlit("bottom");
        assert("top"@.len() == 3);
        assert("center"@.len() == 6 && "center"@[0] == 'c');
        assert("both"@.len() == 4);
        assert("bottom"@.len() == 6 && "bottom"@[0] == 'b');
    }
}

impl VAlign {
    /// The element that the alignment is written as.
    pub open spec fn encoded(self) -> ElementView {
        ElementView {
            tag: "w:vAlign"@,
            attributes: written_attributes(seq![("w:val"@, Some(self.val.literal()))]),
            children: Seq::empty(),
        }
    }

    /// The alignment that an element reads as. The element must have the
    /// tag `w:vAlign` and one of the literals under `w:val`.
    /// Where one of the attributes that are read stands twice, the element
    /// is refused.
    pub open spec fn decoded(e: ElementView) -> Result<VAlign, DecodeError> {
        if e.tag != "w:vAlign"@ {
            Err(DecodeError::UnexpectedTag)
        } else if any_repeated(e.attributes, seq!["w:val"@]) {
            Err(DecodeError::DuplicateAttribute)
        } else {
            match e.attribute("w:val"@) {
                None => Err(DecodeError::MissingAttribute),
                Some(v) => match VAlignType::from_literal(v) {
                    Ok(val) => Ok(VAlign { val }),
                    Err(x) => Err(x),
                },
            }
        }
    }

    /// Writes the alignment as an element.
    pub fn encode<'a>(&self) -> (e: Element<'a>)
        ensures
            e@ == self.encoded(),
    {
        let mut fields: Vec<(&'a str, Option<Cow<'a, str>>)> = Vec::new();
        fields.push(("w:val", Some(Cow::Borrowed(self.val.to_xml()))));
        proof {
            assert(fields_view(fields@) =~= seq![("w:val"@, Some(self.val.literal()))]);
        }
        Element::with_fields("w:vAlign", &fields)
    }

    /// Reads an alignment from an element.
    pub fn decode(e: &Element<'_>) -> (r: Result<VAlign, DecodeError>)
        ensures
            r == VAlign::decoded(e@),
    {
        if !e.has_tag("w:vAlign") {
            return Err(DecodeError::UnexpectedTag);
        }
        let mut names: Vec<&str> = Vec::new();
        names.push("w:val");
        proof {
            assert(names_view(names@) =~= seq!["w:val"@]);
        }
        if e.any_repeated(&names) {
            return Err(DecodeError::DuplicateAttribute);
        }
        match e.attribute("w:val") {
            Some(v) => match VAlignType::from_xml(cow_str(v)) {
                Ok(val) => Ok(VAlign { val }),
                Err(x) => Err(x),
            },
            None => Err(DecodeError::MissingAttribute),
        }
    }

    /// An alignment reads as it was written.
    pub proof fn lemma_decode_encode(self)
        ensures
            VAlign::decoded(self.encoded()) == Ok::<VAlign, DecodeError>(self),
    {
        assert(!any_repeated(self.encoded().attributes, seq!["w:val"@])) by {
            lemma_written_not_repeated(
                seq![("w:val"@, Some(self.val.literal()))],
                seq!["w:val"@],
            );
        }
        let fields: Seq<Field> = seq![("w:val"@, Some(self.val.literal()))];
        lemma_written_attribute(fields, 0);
        self.val.lemma_decode_encode();
    }

    /// What was read is in normal form: where an element reads as an
    /// alignment, writing that and reading it again gives the same.
    pub proof fn lemma_decode_normalizes(e: ElementView)
        requires
            VAlign::decoded(e) is Ok,
        ensures
            VAlign::decoded(VAlign::decoded(e)->Ok_0.encoded()) == VAlign::decoded(e),
    {
        VAlign::decoded(e)->Ok_0.lemma_decode_encode();
    }

    /// Reads an alignment from XML text: the first element of the text with the
    /// tag `w:vAlign` is read as [`VAlign::decode`] reads an element. Whole
    /// elements with other tags before it are passed over.
    pub fn from_str(text: &str) -> (r: Result<VAlign, DecodeError>)
        ensures
            r == (match parsed_as(text@, seq!["w:vAlign"@]) {
                Ok(e) => VAlign::decoded(e),
                Err(x) => Err(x),
            }),
    {
        let mut tags: Vec<&str> = Vec::new();
        tags.push("w:vAlign");
        proof {
            assert(names_view(tags@) =~= seq!["w:vAlign"@]);
        }
        match parse_as(text, &tags) {
            Ok(e) => VAlign::decode(&e),
            Err(x) => Err(x),
        }
    }

    /// The XML text of the element that [`VAlign::encode`] gives.
    pub fn to_string(&self) -> (r: String)
        ensures
            r@ == element_text(self.encoded()),
    {
        self.encode().to_string()
    }
}

} // verus!
