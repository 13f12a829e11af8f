//! The error model: error kinds, single errors, and the collector.
//!
//! Errors never abort parsing; they are appended to a [`ParseErrors`]
//! collector and the caller decides what to do with them.

use vstd::prelude::*;

use crate::span::Span;
use crate::tokens::{
    kw_msg_eof, kw_msg_eof_v, kw_msg_invalid, kw_msg_invalid_v, kw_msg_unclosed,
    kw_msg_unclosed_v, kw_msg_unknown, kw_msg_unknown_v,
};

verus! {

/// Categories of parse errors.
#[derive(Debug, Clone, Copy, PartialEq, Eq, Structural)]
pub enum ParseErrorKind {
    /// Unexpected end of input.
    UnexpectedEof,
    /// Unclosed delimiter (code fence, directive fence, ...).
    UnclosedDelimiter,
    /// Syntax that could not be parsed.
    InvalidSyntax,
    /// Unknown directive name after `::`.
    UnknownDirective,
    /// Malformed metadata.
    InvalidMetadata,
    /// Any other parse error.
    Other,
}

/// A parse error with its location and recovery information.
#[derive(Debug, Clone)]
pub struct ParseError {
    /// Human-readable message, as bytes of ASCII text (with any offending
    /// input text spliced in verbatim).
    pub message: Vec<u8>,
    /// Source location the error refers to, when one is known.
    pub span: Option<Span>,
    /// Error category.
    pub kind: ParseErrorKind,
    /// Whether parsing can continue after this error.
    pub recoverable: bool,
}

impl ParseError {
    /// A generic error with the given message.
    pub fn new(message: Vec<u8>, span: Option<Span>) -> (e: ParseError)
        ensures
            e.message@ == message@,
            e.span == span,
            e.kind == ParseErrorKind::Other,
            e.recoverable,
    {
        ParseError { message, span, kind: ParseErrorKind::Other, recoverable: true }
    }

    /// The error for running out of input; not recoverable.
    pub fn unexpected_eof(span: Option<Span>) -> (e: ParseError)
        ensures
            e.message@ == kw_msg_eof(),
            e.span == span,
            e.kind == ParseErrorKind::UnexpectedEof,
            !e.recoverable,
    {
        ParseError {
            message: kw_msg_eof_v(),
            span,
            kind: ParseErrorKind::UnexpectedEof,
            recoverable: true,
        }.non_recoverable()
    }

    /// The error for a fence or delimiter that is never closed.
    pub fn unclosed_delimiter(delimiter: &[u8], span: Option<Span>) -> (e: ParseError)
        ensures
            e.message@ == kw_msg_unclosed() + delimiter@,
            e.span == span,
            e.kind == ParseErrorKind::UnclosedDelimiter,
            e.recoverable,
    {
        let mut message = kw_msg_unclosed_v();
        message.extend_from_slice(delimiter);
        ParseError { message, span, kind: ParseErrorKind::UnclosedDelimiter, recoverable: true }
    }

    /// The error for syntax that could not be parsed in a given context.
    pub fn invalid_syntax(context: &[u8], span: Option<Span>) -> (e: ParseError)
        ensures
            e.message@ == kw_msg_invalid() + context@,
            e.span == span,
            e.kind == ParseErrorKind::InvalidSyntax,
            e.recoverable,
    {
        let mut message = kw_msg_invalid_v();
        message.extend_from_slice(context);
        ParseError { message, span, kind: ParseErrorKind::InvalidSyntax, recoverable: true }
    }

    /// The error for an unknown directive name.
    pub fn unknown_directive(directive: &[u8], span: Option<Span>) -> (e: ParseError)
        ensures
            e.message@ == kw_msg_unknown() + directive@,
            e.span == span,
            e.kind == ParseErrorKind::UnknownDirective,
            e.recoverable,
    {
        let mut message = kw_msg_unknown_v();
        message.extend_from_slice(directive);
        ParseError { message, span, kind: ParseErrorKind::UnknownDirective, recoverable: true }
    }

    /// The same error with another kind.
    pub fn with_kind(self, kind: ParseErrorKind) -> (e: ParseError)
        ensures
            e.message@ == self.message@,
            e.span == self.span,
            e.kind == kind,
            e.recoverable == self.recoverable,
    {
        ParseError { kind, ..self }
    }

    /// The same error marked as non-recoverable.
    pub fn non_recoverable(self) -> (e: ParseError)
        ensures
            e.message@ == self.message@,
            e.span == self.span,
            e.kind == self.kind,
            !e.recoverable,
    {
        ParseError { recoverable: false, ..self }
    }

    /// An exact copy of this error.
    pub fn duplicate(&self) -> (e: ParseError)
        ensures
            err_equiv(e, *self),
    {
        let message = crate::bytes::copy_range(self.message.as_slice(), 0, self.message.len());
        proof {
            assert(message@ =~= self.message@);
        }
        ParseError {
            message,
            span: self.span,
            kind: self.kind,
            recoverable: self.recoverable,
        }
    }
}

/// Two errors carrying the same message, location, kind and recovery flag.
pub open spec fn err_equiv(a: ParseError, b: ParseError) -> bool {
    &&& a.message@ == b.message@
    &&& a.span == b.span
    &&& a.kind == b.kind
    &&& a.recoverable == b.recoverable
}

/// The errors collected during one parse, in the order they were recorded.
#[derive(Debug, Clone)]
pub struct ParseErrors {
    errors: Vec<ParseError>,
}

impl View for ParseErrors {
    type V = Seq<ParseError>;

    closed spec fn view(&self) -> Seq<ParseError> {
        self.errors@
    }
}

impl ParseErrors {
    /// An empty collection.
    pub fn new() -> (r: ParseErrors)
        ensures
            r@ == Seq::<ParseError>::empty(),
    {
        ParseErrors { errors: Vec::new() }
    }

    /// Append an error.
    pub fn push(&mut self, error: ParseError)
        ensures
            final(self)@ == old(self)@.push(error),
    {
        self.errors.push(error);
    }

    /// Whether no error was collected.
    pub fn is_empty(&self) -> (r: bool)
        ensures
            r == (self@.len() == 0),
    {
        self.errors.len() == 0
    }

    /// The number of collected errors.
    pub fn len(&self) -> (n: usize)
        ensures
            n == self@.len(),
    {
        self.errors.len()
    }

    /// The collected errors, in order.
    pub fn iter(&self) -> (r: &Vec<ParseError>)
        ensures
            r@ == self@,
    {
        &self.errors
    }

    /// The error at a given position.
    pub fn get(&self, i: usize) -> (r: &ParseError)
        requires
            i < self@.len(),
        ensures
            *r == self@[i as int],
    {
        &self.errors[i]
    }

    /// Whether any collected error is non-recoverable.
    pub fn has_fatal(&self) -> (r: bool)
        ensures
            r == exists|i: int| 0 <= i < self@.len() && !(#[trigger] self@[i]).recoverable,
    {
        let mut k: usize = 0;
        while k < self.errors.len()
            invariant
                0 <= k <= self@.len(),
                forall|i: int| 0 <= i < k ==> (#[trigger] self@[i]).recoverable,
            decreases self@.len() - k,
        {
            if !self.errors[k].recoverable {
                return true;
            }
            k += 1;
        }
        false
    }
}

} // verus!
