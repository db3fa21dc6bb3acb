//! A documentation-comment markup compiler.
//!
//! The library turns the raw bytes of a doc comment into a structured
//! `Document` tree: section headers, grouped/code/list/table/text blocks,
//! and inline-formatted text with links and variable substitution.
//! Parsing is a pure function of the input bytes; its meaning is pinned
//! down by the specification function `spec_document`, and the executable
//! parser is proved to return exactly that value.

pub mod bytes;
pub mod lines;
pub mod model;
pub mod parser;
pub mod render;
pub mod text;

pub use model::{
    Attribute, Block, BlockData, Document, ListEl, Part, TableCol, TableRow, Text, TextAttr,
    TextBlock,
};
pub use parser::parse;
