//! LiteDoc: a deterministic, line-oriented document format parser.
//!
//! LiteDoc is an alternative to Markdown in which block structure is made
//! explicit through fenced directives (`::kind ... ::`). The parser is
//! single-pass and recovers from malformed input while recording errors.
//!
//! The parser works on raw bytes (`&[u8]`); the recognized syntax is pure
//! ASCII, so UTF-8 content passes through untouched. Spans are 32-bit byte
//! ranges into the input.
//!
//! Verified guarantees, stated on [`Parser::parse`] and the node types'
//! well-formedness predicates ([`ast::document_wf`]):
//! - every node's span is ordered and lies within the input, and a node's
//!   span contains the spans of all its children ([`ast::block_deep_in`]);
//! - sibling nodes come in source order with non-overlapping spans
//!   ([`ast::lemma_siblings_ordered`]);
//! - heading levels lie in `1..=6`;
//! - the document's profile and module list are exactly what the
//!   `@profile` and `@modules` directives name;
//! - whitespace-only input yields a document with no blocks, no metadata
//!   and no modules;
//! - parsing terminates on every input (each loop and recursion carries a
//!   proved decreasing measure).

pub mod ast;
pub mod bytes;
pub mod error;
pub mod inline;
pub mod lexer;
pub mod parser;
mod span;
pub mod search;
pub mod tokens;

pub use ast::{Block, Document, Inline, Profile};
pub use error::{ParseError, ParseErrorKind, ParseErrors};
pub use parser::{ParseResult, Parser};
pub use span::Span;
