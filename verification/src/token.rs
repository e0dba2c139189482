//! The token model: the closed set of lexical categories produced by the
//! tokenizer, each paired with the exact byte span of the text it came from.

use vstd::prelude::*;
use crate::span::Span;

verus! {

/// The lexical category of a token.  Keywords, the three value-carrying
/// kinds, fixed punctuation and operators, and the end-of-input sentinel.
#[derive(Debug, PartialEq)]
pub enum TokenKind {
    Let,
    Mut,
    SetKw,
    Fn,
    Match,
    With,
    When,
    Io,
    Do,
    End,
    Ident(String),
    Int(i64),
    String(String),
    PipeGreater,
    Arrow,
    LeftArrow,
    Equal,
    Comma,
    LParen,
    RParen,
    LBracket,
    RBracket,
    Eof,
}

/// The mathematical model of a token kind: identical to `TokenKind` except
/// that carried text is a character sequence.
pub ghost enum KindModel {
    Let,
    Mut,
    SetKw,
    Fn,
    Match,
    With,
    When,
    Io,
    Do,
    End,
    Ident(Seq<char>),
    Int(i64),
    String(Seq<char>),
    PipeGreater,
    Arrow,
    LeftArrow,
    Equal,
    Comma,
    LParen,
    RParen,
    LBracket,
    RBracket,
    Eof,
}

impl View for TokenKind {
    type V = KindModel;

    open spec fn view(&self) -> KindModel {
        match self {
            TokenKind::Let => KindModel::Let,
            TokenKind::Mut => KindModel::Mut,
            TokenKind::SetKw => KindModel::SetKw,
            TokenKind::Fn => KindModel::Fn,
            TokenKind::Match => KindModel::Match,
            TokenKind::With => KindModel::With,
            TokenKind::When => KindModel::When,
            TokenKind::Io => KindModel::Io,
            TokenKind::Do => KindModel::Do,
            TokenKind::End => KindModel::End,
            TokenKind::Ident(s) => KindModel::Ident(s@),
            TokenKind::Int(v) => KindModel::Int(*v),
            TokenKind::String(s) => KindModel::String(s@),
            TokenKind::PipeGreater => KindModel::PipeGreater,
            TokenKind::Arrow => KindModel::Arrow,
            TokenKind::LeftArrow => KindModel::LeftArrow,
            TokenKind::Equal => KindModel::Equal,
            TokenKind::Comma => KindModel::Comma,
            TokenKind::LParen => KindModel::LParen,
            TokenKind::RParen => KindModel::RParen,
            TokenKind::LBracket => KindModel::LBracket,
            TokenKind::RBracket => KindModel::RBracket,
            TokenKind::Eof => KindModel::Eof,
        }
    }
}

impl Clone for TokenKind {
    /// Cloning keeps the model of the kind, carried text included.
    fn clone(&self) -> (r: Self)
        ensures
            r@ == self@,
    {
        match self {
            TokenKind::Let => TokenKind::Let,
            TokenKind::Mut => TokenKind::Mut,
            TokenKind::SetKw => TokenKind::SetKw,
            TokenKind::Fn => TokenKind::Fn,
            TokenKind::Match => TokenKind::Match,
            TokenKind::With => TokenKind::With,
            TokenKind::When => TokenKind::When,
            TokenKind::Io => TokenKind::Io,
            TokenKind::Do => TokenKind::Do,
            TokenKind::End => TokenKind::End,
            TokenKind::Ident(s) => TokenKind::Ident(s.clone()),
            TokenKind::Int(v) => TokenKind::Int(*v),
            TokenKind::String(s) => TokenKind::String(s.clone()),
            TokenKind::PipeGreater => TokenKind::PipeGreater,
            TokenKind::Arrow => TokenKind::Arrow,
            TokenKind::LeftArrow => TokenKind::LeftArrow,
            TokenKind::Equal => TokenKind::Equal,
            TokenKind::Comma => TokenKind::Comma,
            TokenKind::LParen => TokenKind::LParen,
            TokenKind::RParen => TokenKind::RParen,
            TokenKind::LBracket => TokenKind::LBracket,
            TokenKind::RBracket => TokenKind::RBracket,
            TokenKind::Eof => TokenKind::Eof,
        }
    }
}

/// A token: a lexical category together with the byte span it covers.
#[derive(Debug, PartialEq)]
pub struct Token {
    pub kind: TokenKind,
    pub span: Span,
}

/// The mathematical model of a token.
pub ghost struct TokenModel {
    pub kind: KindModel,
    pub span: Span,
}

impl View for Token {
    type V = TokenModel;

    open spec fn view(&self) -> TokenModel {
        TokenModel { kind: self.kind@, span: self.span }
    }
}

impl Clone for Token {
    /// Cloning keeps the model of the token.
    fn clone(&self) -> (r: Self)
        ensures
            r@ == self@,
    {
        Token { kind: self.kind.clone(), span: self.span }
    }
}

impl Token {
    /// Pair a kind with its span.
    pub fn new(kind: TokenKind, span: Span) -> (r: Self)
        ensures
            r@ == (TokenModel { kind: kind@, span }),
    {
        Self { kind, span }
    }
}

/// True when two token kinds have the same tag, regardless of carried values.
pub open spec fn kind_eq(a: KindModel, b: KindModel) -> bool {
    kind_tag(a) == kind_tag(b)
}

/// A distinct number for each token-kind tag; only equality of tags matters.
pub open spec fn kind_tag(k: KindModel) -> int {
    match k {
        KindModel::Let => 0,
        KindModel::Mut => 1,
        KindModel::SetKw => 2,
        KindModel::Fn => 3,
        KindModel::Match => 4,
        KindModel::With => 5,
        KindModel::When => 6,
        KindModel::Io => 7,
        KindModel::Do => 8,
        KindModel::End => 9,
        KindModel::Ident(_) => 10,
        KindModel::Int(_) => 11,
        KindModel::String(_) => 12,
        KindModel::PipeGreater => 13,
        KindModel::Arrow => 14,
        KindModel::LeftArrow => 15,
        KindModel::Equal => 16,
        KindModel::Comma => 17,
        KindModel::LParen => 18,
        KindModel::RParen => 19,
        KindModel::LBracket => 20,
        KindModel::RBracket => 21,
        KindModel::Eof => 22,
    }
}

/// The tag of a kind, for comparing kinds by category alone.
pub fn tag_of(k: &TokenKind) -> (t: u32)
    ensures
        t as int == kind_tag(k@),
{
    match k {
        TokenKind::Let => 0,
        TokenKind::Mut => 1,
        TokenKind::SetKw => 2,
        TokenKind::Fn => 3,
        TokenKind::Match => 4,
        TokenKind::With => 5,
        TokenKind::When => 6,
        TokenKind::Io => 7,
        TokenKind::Do => 8,
        TokenKind::End => 9,
        TokenKind::Ident(_) => 10,
        TokenKind::Int(_) => 11,
        TokenKind::String(_) => 12,
        TokenKind::PipeGreater => 13,
        TokenKind::Arrow => 14,
        TokenKind::LeftArrow => 15,
        TokenKind::Equal => 16,
        TokenKind::Comma => 17,
        TokenKind::LParen => 18,
        TokenKind::RParen => 19,
        TokenKind::LBracket => 20,
        TokenKind::RBracket => 21,
        TokenKind::Eof => 22,
    }
}

/// True when the two kinds carry the same tag, ignoring carried values.
pub fn same_kind(a: &TokenKind, b: &TokenKind) -> (r: bool)
    ensures
        r == kind_eq(a@, b@),
{
    tag_of(a) == tag_of(b)
}

} // verus!
