//! The block structure of Markdown documents.

pub mod adding;
pub mod blocks;
pub mod closing;
pub mod ctype;
pub mod cursor;
pub mod descriptions;
pub mod document;
pub mod entity;
pub mod feeding;
pub mod footnotes;
pub mod front;
pub mod independence;
pub mod inlines;
pub mod joining;
pub mod keeping;
pub mod labels;
pub mod laws;
pub mod lines;
pub mod listing;
pub mod mark;
pub mod markers;
pub mod matching;
pub mod nesting;
pub mod nodes;
pub mod opening;
pub mod options;
pub mod parser;
pub mod pieces;
pub mod postprocess;
pub mod prefixes;
pub mod references;
pub mod scanners;
pub mod starts;
pub mod strings;
pub mod table;
pub mod table_blocks;
pub mod text;
pub mod tree;
pub mod unwrap;
pub mod walking;

pub use crate::document::{parse_document, parse_document_with_broken_link_callback};
pub use crate::inlines::{AutolinkType, BrokenLinkCallback, Inline, InlineParser};
pub use crate::options::{
    ComrakExtensionOptions, ComrakOptions, ComrakParseOptions, ComrakRenderOptions, ListStyleType,
};
pub use crate::parser::Parser;
pub use crate::references::Reference;
pub use crate::unwrap::{unwrap_into, unwrap_into_copy};
