//! A small markup front end: the node model of a document tree and a
//! recursive-descent parser that builds such a tree from text.
//!
//! `grammar` states what each construct parses to, as spec functions over
//! the input's characters; `parser` holds the executable parser, proved to
//! agree with it; `markup` writes a tree back as markup and proves that
//! parsing that markup gives the tree again.

pub mod attributes;
pub mod dom;
pub mod error;
pub mod grammar;
pub mod markup;
pub mod parser;

pub use attributes::AttrMap;
pub use dom::{elem, text, ElementData, Node, NodeType};
pub use error::{Expectation, ParseError};
pub use markup::to_markup;
pub use parser::{
    parse_document, parse_document_with_limit, parse_fragment, Parser, DEFAULT_MAX_DEPTH,
};
