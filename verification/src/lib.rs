//! A typed in-memory model of word-processing document content.
//!
//! The crate holds three layers:
//!
//! * [`rounded_float`] and the string enumerations in [`formatting`] turn
//!   attribute strings into typed values and back; [`binary64`] holds the
//!   arithmetic on decimal digits that the rounding of a length needs;
//! * [`document`], [`formatting`] and [`styles`] hold the content tree, each
//!   node with its mapping from and to a generic XML element ([`xml`]);
//!   [`grammar`] says which children a node reads from XML text;
//! * every content node offers an ordered walk over its text leaves and a
//!   dictionary-driven rewrite of them ([`text`]).
//!
//! Every function states its behaviour over a mathematical model of its
//! arguments: a string is the sequence of its characters, a node is its view.
pub mod binary64;
pub mod document;
pub mod error;
pub mod formatting;
pub mod grammar;
pub mod rounded_float;
pub mod styles;
pub mod text;
pub mod xml;
