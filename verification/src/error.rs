//! The error values of the front end.  Each carries a human-readable message
//! and exactly one span; a naming conflict carries the two spans involved.

use vstd::prelude::*;
use crate::span::Span;

verus! {

/// A located lexical or syntax error: a message and the span it points at.
#[derive(Debug, Clone, PartialEq)]
pub struct ParseError {
    pub message: String,
    pub span: Span,
}

/// The mathematical model of a `ParseError`.
pub ghost struct ParseErrorModel {
    pub message: Seq<char>,
    pub span: Span,
}

impl View for ParseError {
    type V = ParseErrorModel;

    open spec fn view(&self) -> ParseErrorModel {
        ParseErrorModel { message: self.message@, span: self.span }
    }
}

impl ParseError {
    /// Pair a message with the span it points at.
    pub fn new(message: &str, span: Span) -> (r: Self)
        ensures
            r@ == (ParseErrorModel { message: message@, span }),
    {
        Self { message: message.to_owned(), span }
    }
}

/// A naming conflict: the name, the span of its first visible definition and
/// the span of the rejected redefinition.
#[derive(Debug)]
pub struct NameError {
    pub name: String,
    pub first: Span,
    pub second: Span,
}

/// The mathematical model of a `NameError`.
pub ghost struct NameErrorModel {
    pub name: Seq<char>,
    pub first: Span,
    pub second: Span,
}

impl View for NameError {
    type V = NameErrorModel;

    open spec fn view(&self) -> NameErrorModel {
        NameErrorModel { name: self.name@, first: self.first, second: self.second }
    }
}

} // verus!
