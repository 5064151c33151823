//! Generic XML elements: the shape that every node is read from and written
//! to.
pub mod codec;
pub mod element;
pub mod reader;
pub mod writer;

pub use self::element::{Attribute, AttributeView, Element, ElementView, Node, NodeView};
