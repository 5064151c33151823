//! Error kinds of the library.
use vstd::prelude::*;

verus! {

/// Why an XML fragment could not be turned into a node.
#[derive(Clone, Copy, Debug, PartialEq, Eq, Structural)]
pub enum DecodeError {
    /// The text is not well-formed XML or holds no element of the kind that
    /// is looked for, or character data that is read as text has an escape
    /// that is not well-formed.
    Malformed,
    /// The element's tag is not the one the node is stored under.
    UnexpectedTag,
    /// A required attribute is absent.
    MissingAttribute,
    /// An attribute that the node reads stands more than once.
    DuplicateAttribute,
    /// An attribute holds none of the literals of its enumeration.
    UnknownEnumValue,
    /// An attribute that holds a length is not a finite decimal number.
    InvalidNumber,
}

/// Why a node could not be written out.
#[derive(Clone, Copy, Debug, PartialEq, Eq, Structural)]
pub enum EncodeError {
    /// The sink that takes the output refused a write.
    Write,
}

/// Why a text leaf could not be rewritten.
#[derive(Clone, Copy, Debug, PartialEq, Eq, Structural)]
pub enum SubstitutionError {
    /// The storage of a leaf refused the new text.
    Storage,
}

impl DecodeError {
    /// A short description of the error, for messages.
    pub fn message(&self) -> (r: &'static str)
        ensures
            r@ == self.message_text(),
    {
        match self {
            DecodeError::Malformed => "malformed XML",
            DecodeError::UnexpectedTag => "unexpected element tag",
            DecodeError::MissingAttribute => "missing required attribute",
            DecodeError::DuplicateAttribute => "duplicate attribute",
            DecodeError::UnknownEnumValue => "unknown enumeration value",
            DecodeError::InvalidNumber => "invalid number",
        }
    }

    /// The text of [`DecodeError::message`].
    pub open spec fn message_text(&self) -> Seq<char> {
        match self {
            DecodeError::Malformed => "malformed XML"@,
            DecodeError::UnexpectedTag => "unexpected element tag"@,
            DecodeError::MissingAttribute => "missing required attribute"@,
            DecodeError::DuplicateAttribute => "duplicate attribute"@,
            DecodeError::UnknownEnumValue => "unknown enumeration value"@,
            DecodeError::InvalidNumber => "invalid number"@,
        }
    }
}

} // verus!
