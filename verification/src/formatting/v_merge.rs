//! Vertical merging of table cells.
use crate::error::DecodeError;
use crate::text::{cow_str, str_eq};
use crate::xml::codec::{
    any_repeated, fields_view, lemma_written_attribute, lemma_written_not_repeated, names_view,
    written_attributes, Field,
};
use crate::xml::element::{Element, ElementView};
use crate::xml::reader::{parse_as, parsed_as};
use crate::xml::writer::element_text;
use std::borrow::Cow;
use vstd::prelude::*;

verus! {

/// How a cell takes part in a vertically merged group.
#[derive(Debug, Clone, Copy, PartialEq, Eq, Structural)]
pub enum VMergeType {
    /// The cell starts a group.
    Restart,
    /// The cell continues the group above it.
    Continue,
}

/// Vertical merge of a table cell (`w:vMerge`).
#[derive(Debug, Clone, Copy, PartialEq, Eq)]
pub struct VMerge {
    /// Role of the cell in the group (`w:val`).
    pub val: Option<VMergeType>,
}

impl Default for VMerge {
    fn default() -> (r: Self)
        ensures
            r == (VMerge { val: None }),
    {
        VMerge { val: None }
    }
}

impl VMergeType {
    /// The literal that the variant is written as.
    pub open spec fn literal(self) -> Seq<char> {
        match self {
            VMergeType::Restart => "restart"@,
            VMergeType::Continue => "continue"@,
        }
    }

    /// The variant that a literal stands for.
    pub open spec fn from_literal(s: Seq<char>) -> Result<VMergeType, DecodeError> {
        if s == "restart"@ {
            Ok(VMergeType::Restart)
        } else if s == "continue"@ {
            Ok(VMergeType::Continue)
        } else {
            Err(DecodeError::UnknownEnumValue)
        }
    }

    /// The literal that the variant is written as. The call never fails.
    pub fn to_xml(&self) -> (r: &'static str)
        ensures
            r@ == self.literal(),
    {
        match self {
            VMergeType::Restart => "restart",
            VMergeType::Continue => "continue",
        }
    }

    /// The variant that `s` stands for, or `UnknownEnumValue` where `s` is
    /// none of the literals.
    pub fn from_xml(s: &str) -> (r: Result<VMergeType, DecodeError>)
        ensures
            r == VMergeType::from_literal(s@),
    {
        if str_eq(s, "restart") {
            Ok(VMergeType::Restart)
        } else if str_eq(s, "continue") {
            Ok(VMergeType::Continue)
        } else {
            Err(DecodeError::UnknownEnumValue)
        }
    }

    /// A variant reads as it was written.
    pub proof fn lemma_decode_encode(self)
        ensures
            VMergeType::from_literal(self.literal()) == Ok::<VMergeType, DecodeError>(self),
    {
        reveal_strlit("restart");
        reveal_strlit("continue");
        assert("restart"@.len() == 7);
        assert("continue"@.len() == 8);
    }
}

impl std::str::FromStr for VMergeType {
    type Err = DecodeError;

    fn from_str(s: &str) -> (r: Result<Self, Self::Err>)
        ensures
            r == VMergeType::from_literal(s@),
    {
        VMergeType::from_xml(s)
    }
}

/// The text that an optional role is written as.
pub open spec fn role_text(v: Option<VMergeType>) -> Option<Seq<char>> {
    match v {
        Some(t) => Some(t.literal()),
        None => None,
    }
}

/// The role that an optional attribute value reads as.
pub open spec fn role_from(value: Option<Seq<char>>) -> Result<Option<VMergeType>, DecodeError> {
    match value {
        Some(v) => match VMergeType::from_literal(v) {
            Ok(t) => Ok(Some(t)),
            Err(e) => Err(e),
        },
        None => Ok(None),
    }
}

impl VMerge {
    /// The element that the merge is written as.
    pub open spec fn encoded(self) -> ElementView {
        ElementView {
            tag: "w:vMerge"@,
            attributes: written_attributes(seq![("w:val"@, role_text(self.val))]),
            children: Seq::empty(),
        }
    }

    /// The merge that an element reads as. The element must have the tag
    /// `w:vMerge`.
    /// Where one of the attributes that are read stands twice, the element
    /// is refused.
    pub open spec fn decoded(e: ElementView) -> Result<VMerge, DecodeError> {
        if e.tag != "w:vMerge"@ {
            Err(DecodeError::UnexpectedTag)
        } else if any_repeated(e.attributes, seq!["w:val"@]) {
            Err(DecodeError::DuplicateAttribute)
        } else {
            match role_from(e.attribute("w:val"@)) {
                Ok(val) => Ok(VMerge { val }),
                Err(x) => Err(x),
            }
        }
    }

    /// Writes the merge as an element.
    pub fn encode<'a>(&self) -> (e: Element<'a>)
        ensures
            e@ == self.encoded(),
    {
        let mut fields: Vec<(&'a str, Option<Cow<'a, str>>)> = Vec::new();
        let value: Option<Cow<'a, str>> = match self.val {
            Some(t) => Some(Cow::Borrowed(t.to_xml())),
            None => None,
        };
        fields.push(("w:val", value));
        proof {
            assert(fields_view(fields@) =~= seq![("w:val"@, role_text(self.val))]);
        }
        Element::with_fields("w:vMerge", &fields)
    }

    /// Reads a merge from an element.
    pub fn decode(e: &Element<'_>) -> (r: Result<VMerge, DecodeError>)
        ensures
            r == VMerge::decoded(e@),
    {
        if !e.has_tag("w:vMerge") {
            return Err(DecodeError::UnexpectedTag);
        }
        let mut names: Vec<&str> = Vec::new();
        names.push("w:val");
        proof {
            assert(names_view(names@) =~= seq!["w:val"@]);
        }
        if e.any_repeated(&names) {
            return Err(DecodeError::DuplicateAttribute);
        }
        match e.attribute("w:val") {
            Some(v) => match VMergeType::from_xml(cow_str(v)) {
                Ok(t) => Ok(VMerge { val: Some(t) }),
                Err(x) => Err(x),
            },
            None => Ok(VMerge { val: None }),
        }
    }

    /// A merge reads as it was written.
    pub proof fn lemma_decode_encode(self)
        ensures
            VMerge::decoded(self.encoded()) == Ok::<VMerge, DecodeError>(self),
    {
        assert(!any_repeated(self.encoded().attributes, seq!["w:val"@])) by {
            lemma_written_not_repeated(
                seq![("w:val"@, role_text(self.val))],
                seq!["w:val"@],
            );
        }
        let fields: Seq<Field> = seq![("w:val"@, role_text(self.val))];
        lemma_written_attribute(fields, 0);
        if let Some(t) = self.val {
            t.lemma_decode_encode();
        }
    }
}

impl VMerge {
    /// Reads a merge from XML text: the first element of the text with the tag
    /// `w:vMerge` is read as [`VMerge::decode`] reads an element. Whole
    /// elements with other tags before it are passed over.
    pub fn from_str(text: &str) -> (r: Result<VMerge, DecodeError>)
        ensures
            r == (match parsed_as(text@, seq!["w:vMerge"@]) {
                Ok(e) => VMerge::decoded(e),
                Err(x) => Err(x),
            }),
    {
        let mut tags: Vec<&str> = Vec::new();
        tags.push("w:vMerge");
        proof {
            assert(names_view(tags@) =~= seq!["w:vMerge"@]);
        }
        match parse_as(text, &tags) {
            Ok(e) => VMerge::decode(&e),
            Err(x) => Err(x),
        }
    }

    /// The XML text of the element that [`VMerge::encode`] gives.
    pub fn to_string(&self) -> (r: String)
        ensures
            r@ == element_text(self.encoded()),
    {
        self.encode().to_string()
    }
}

impl VMerge {
    /// What was read is in normal form: where an element reads as a merge,
    /// writing that and reading it again gives the same.
    pub proof fn lemma_decode_normalizes(e: ElementView)
        requires
            VMerge::decoded(e) is Ok,
        ensures
            VMerge::decoded(VMerge::decoded(e)->Ok_0.encoded()) == VMerge::decoded(e),
    {
        VMerge::decoded(e)->Ok_0.lemma_decode_encode();
    }
}

} // verus!
