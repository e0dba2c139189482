//! The recursive-descent parser: it turns the token sequence into a program
//! (an ordered statement sequence) or fails with one located syntax error —
//! the first error encountered, with no recovery.
//!
//! The grammar is pinned down by the `spec_parse_*` functions, a mathematical
//! parser over token models; every parser method is proved to return exactly
//! what its spec counterpart describes, spans and error messages included.

use vstd::prelude::*;
use vstd::string::StringExecFns;
use crate::ast::{Expr, ExprModel, Program, Stmt, StmtModel, exprs_view, stmts_view};
use crate::error::{ParseError, ParseErrorModel};
use crate::lexer::{boff, lemma_boff_total, lex, lemma_lex_rbracket_len, lemma_lex_tokens_wf, spec_lex, tokens_view};
use vstd::utf8::encode_utf8;
use crate::span::{covering, span_end, span_valid, spec_covering, Span};
use crate::token::{kind_eq, KindModel, same_kind, Token, TokenKind, TokenModel};

verus! {

// ---------------------------------------------------------------------------
// The mathematical parser
// ---------------------------------------------------------------------------
/// The token at position `p`; past the end it is an end-of-input token, which
/// the parser can never reach on a well-formed sequence.
pub open spec fn tok(toks: Seq<TokenModel>, p: int) -> TokenModel {
    if 0 <= p < toks.len() {
        toks[p]
    } else {
        TokenModel { kind: KindModel::Eof, span: Span { offset: 0, len: 0 } }
    }
}

/// The label a token kind gets in error messages.
pub open spec fn spec_label(k: KindModel) -> Seq<char> {
    match k {
        KindModel::Let => "`let`"@,
        KindModel::Mut => "`mut`"@,
        KindModel::SetKw => "`set`"@,
        KindModel::Fn => "`fn`"@,
        KindModel::Match => "`match`"@,
        KindModel::With => "`with`"@,
        KindModel::When => "`when`"@,
        KindModel::Io => "`io`"@,
        KindModel::Do => "`do`"@,
        KindModel::End => "`end`"@,
        KindModel::Ident(_) => "identifier"@,
        KindModel::Int(_) => "integer literal"@,
        KindModel::String(_) => "string literal"@,
        KindModel::PipeGreater => "`|>`"@,
        KindModel::Arrow => "`->`"@,
        KindModel::LeftArrow => "`<-`"@,
        KindModel::Equal => "`=`"@,
        KindModel::Comma => "`,`"@,
        KindModel::LParen => "`(`"@,
        KindModel::RParen => "`)`"@,
        KindModel::LBracket => "`[`"@,
        KindModel::RBracket => "`]`"@,
        KindModel::Eof => "end of input"@,
    }
}

/// The error reported when something expected is missing: it names the
/// expectation and the token actually found, and points at that token.
pub open spec fn spec_expected_error(toks: Seq<TokenModel>, pos: int, what: Seq<char>) -> ParseErrorModel {
    ParseErrorModel {
        message: "expected "@ + what + ", found "@ + spec_label(tok(toks, pos).kind),
        span: tok(toks, pos).span,
    }
}

/// A placeholder error for spec states the executable parser can never be in
/// (a sub-parse that consumed no token); it keeps the recursion well-founded.
pub open spec fn spec_parse_halt() -> ParseErrorModel {
    ParseErrorModel { message: Seq::empty(), span: Span { offset: 0, len: 0 } }
}

/// The reserved keywords of the language: each is a token kind of its own.
pub open spec fn spec_is_reserved(k: KindModel) -> bool {
    match k {
        KindModel::Let => true,
        KindModel::Mut => true,
        KindModel::SetKw => true,
        KindModel::Fn => true,
        KindModel::Match => true,
        KindModel::With => true,
        KindModel::When => true,
        KindModel::Io => true,
        KindModel::Do => true,
        KindModel::End => true,
        _ => false,
    }
}

/// `primary := integer | string | identifier | list`.  A reserved keyword in
/// expression position gets its own distinct error, kept apart from the
/// generic unexpected-token message.
pub open spec fn spec_parse_primary(toks: Seq<TokenModel>, pos: int) -> Result<
    (ExprModel, int),
    ParseErrorModel,
>
    decreases toks.len() - pos, 0int,
{
    let t = tok(toks, pos);
    match t.kind {
        KindModel::Int(v) => Ok((ExprModel::Int(v, t.span), pos + 1)),
        KindModel::String(v) => Ok((ExprModel::String(v, t.span), pos + 1)),
        KindModel::Ident(n) => Ok((ExprModel::Var(n, t.span), pos + 1)),
        KindModel::LBracket => spec_parse_list(toks, pos + 1, t.span),
        _ => if spec_is_reserved(t.kind) {
            Err(
                ParseErrorModel {
                    message: "expected expression, found reserved keyword"@,
                    span: t.span,
                },
            )
        } else {
            Err(spec_expected_error(toks, pos, "expression"@))
        },
    }
}

/// `expression := primary`, then the deliberate guard: a `|>` right after a
/// primary fails with a "not yet available" error rather than parsing a
/// pipeline.
pub open spec fn spec_parse_expr(toks: Seq<TokenModel>, pos: int) -> Result<
    (ExprModel, int),
    ParseErrorModel,
>
    decreases toks.len() - pos, 1int,
{
    match spec_parse_primary(toks, pos) {
        Ok(r) => if tok(toks, r.1).kind is PipeGreater {
            Err(
                ParseErrorModel {
                    message: "pipe operator '|>' is not available yet (planned for T04)"@,
                    span: tok(toks, r.1).span,
                },
            )
        } else {
            Ok(r)
        },
        Err(e) => Err(e),
    }
}

/// The comma-separated expressions of a non-empty list, up to and including
/// the closing bracket: the items, the bracket's span, and the next position.
pub open spec fn spec_parse_list_items(toks: Seq<TokenModel>, pos: int) -> Result<
    (Seq<ExprModel>, Span, int),
    ParseErrorModel,
>
    decreases toks.len() - pos, 2int,
{
    match spec_parse_expr(toks, pos) {
        Err(e) => Err(e),
        Ok((e, p2)) => {
            if tok(toks, p2).kind is Comma {
                if pos < p2 {
                    match spec_parse_list_items(toks, p2 + 1) {
                        Ok((items, rsp, p3)) => Ok((seq![e] + items, rsp, p3)),
                        Err(er) => Err(er),
                    }
                } else {
                    Err(spec_parse_halt())
                }
            } else if tok(toks, p2).kind is RBracket {
                Ok((seq![e], tok(toks, p2).span, p2 + 1))
            } else {
                Err(spec_expected_error(toks, p2, "']' to close list"@))
            }
        },
    }
}

/// `list := '[' (expression (',' expression)*)? ']'`, entered just after the
/// opening bracket, whose span is `start_span`.  The list's span covers from
/// the opening bracket through the closing bracket.
pub open spec fn spec_parse_list(toks: Seq<TokenModel>, pos: int, start_span: Span) -> Result<
    (ExprModel, int),
    ParseErrorModel,
>
    decreases toks.len() - pos, 3int,
{
    if tok(toks, pos).kind is RBracket {
        Ok(
            (
                ExprModel::List(seq![], spec_covering(start_span, tok(toks, pos).span)),
                pos + 1,
            ),
        )
    } else {
        match spec_parse_list_items(toks, pos) {
            Ok((items, rsp, p3)) => Ok(
                (ExprModel::List(items, spec_covering(start_span, rsp)), p3),
            ),
            Err(e) => Err(e),
        }
    }
}

/// `let_statement := 'let' 'mut'? identifier '=' expression`.  The statement's
/// span covers from the `let` keyword through the end of the expression; the
/// name's own span covers exactly the identifier token.
pub open spec fn spec_parse_let_stmt(toks: Seq<TokenModel>, pos: int) -> Result<
    (StmtModel, int),
    ParseErrorModel,
>
    decreases toks.len() - pos, 4int,
{
    if !(tok(toks, pos).kind is Let) {
        Err(spec_parse_halt())
    } else {
        let let_sp = tok(toks, pos).span;
        let pos1 = pos + 1;
        let mutable = tok(toks, pos1).kind is Mut;
        let pos2 = if mutable {
            pos1 + 1
        } else {
            pos1
        };
        let ntok = tok(toks, pos2);
        match ntok.kind {
            KindModel::Ident(name) => {
                let pos3 = pos2 + 1;
                if tok(toks, pos3).kind is Equal {
                    let pos4 = pos3 + 1;
                    match spec_parse_expr(toks, pos4) {
                        Ok((e, p5)) => Ok(
                            (
                                StmtModel::Let {
                                    name,
                                    name_span: ntok.span,
                                    mutable,
                                    expr: e,
                                    span: spec_covering(let_sp, e.spanm()),
                                },
                                p5,
                            ),
                        ),
                        Err(er) => Err(er),
                    }
                } else {
                    Err(spec_expected_error(toks, pos3, "'=' after let binding"@))
                }
            },
            _ => Err(spec_expected_error(toks, pos2, "identifier"@)),
        }
    }
}

/// `statement := let_statement`; any other leading token is a syntax error.
pub open spec fn spec_parse_stmt(toks: Seq<TokenModel>, pos: int) -> Result<
    (StmtModel, int),
    ParseErrorModel,
>
    decreases toks.len() - pos, 5int,
{
    if tok(toks, pos).kind is Let {
        spec_parse_let_stmt(toks, pos)
    } else {
        Err(spec_expected_error(toks, pos, "statement"@))
    }
}

/// `program := statement*`, until the end-of-input token.
pub open spec fn spec_parse_stmts(toks: Seq<TokenModel>, pos: int) -> Result<
    Seq<StmtModel>,
    ParseErrorModel,
>
    decreases toks.len() - pos, 6int,
{
    if tok(toks, pos).kind is Eof {
        Ok(seq![])
    } else {
        match spec_parse_stmt(toks, pos) {
            Ok((st, p2)) => {
                if pos < p2 <= toks.len() {
                    match spec_parse_stmts(toks, p2) {
                        Ok(rest) => Ok(seq![st] + rest),
                        Err(e) => Err(e),
                    }
                } else {
                    Err(spec_parse_halt())
                }
            },
            Err(e) => Err(e),
        }
    }
}

/// What parsing a whole source text yields: the statements of the program, or
/// the first lexical or syntax error.
pub open spec fn spec_parse(s: Seq<char>) -> Result<Seq<StmtModel>, ParseErrorModel> {
    match spec_lex(s) {
        Ok(toks) => spec_parse_stmts(toks, 0),
        Err(e) => Err(e),
    }
}

/// Prepend a statement to a successful outcome; an error passes through.
pub open spec fn cons_stmt(st: StmtModel, r: Result<Seq<StmtModel>, ParseErrorModel>) -> Result<
    Seq<StmtModel>,
    ParseErrorModel,
> {
    match r {
        Ok(rest) => Ok(seq![st] + rest),
        Err(e) => Err(e),
    }
}

/// Prepend parsed statements to a successful outcome.
pub open spec fn cons_stmts(pre: Seq<StmtModel>, r: Result<Seq<StmtModel>, ParseErrorModel>) -> Result<
    Seq<StmtModel>,
    ParseErrorModel,
> {
    match r {
        Ok(rest) => Ok(pre + rest),
        Err(e) => Err(e),
    }
}

proof fn lemma_cons_stmts_push(
    pre: Seq<StmtModel>,
    st: StmtModel,
    r: Result<Seq<StmtModel>, ParseErrorModel>,
)
    ensures
        cons_stmts(pre, cons_stmt(st, r)) == cons_stmts(pre.push(st), r),
{
    match r {
        Ok(rest) => {
            assert(pre + (seq![st] + rest) =~= pre.push(st) + rest);
        },
        Err(_) => {},
    }
}

proof fn lemma_stmts_view_push(ss: Seq<Stmt>, st: Stmt)
    ensures
        stmts_view(ss.push(st)) == stmts_view(ss).push(st@),
{
    assert(stmts_view(ss.push(st)) =~= stmts_view(ss).push(st@));
}

/// Appending an expression to a parsed item list appends its model.
proof fn lemma_exprs_view_push(es: Seq<Expr>, e: Expr)
    ensures
        exprs_view(es.push(e)) == exprs_view(es).push(e@),
    decreases es.len(),
{
    if es.len() == 0 {
        assert(es.push(e)[0] == e);
        assert(es.push(e).subrange(1, es.push(e).len() as int) =~= Seq::<Expr>::empty());
        assert(exprs_view(es.push(e)) == seq![e@] + exprs_view(Seq::<Expr>::empty()));
        assert(exprs_view(es.push(e)) =~= seq![e@]);
        assert(exprs_view(es) == Seq::<ExprModel>::empty());
        assert(exprs_view(es).push(e@) =~= seq![e@]);
    } else {
        let tail = es.subrange(1, es.len() as int);
        assert(es.push(e)[0] == es[0]);
        assert(es.push(e).subrange(1, es.push(e).len() as int) =~= tail.push(e));
        lemma_exprs_view_push(tail, e);
        assert(exprs_view(es.push(e)) == seq![es[0]@] + exprs_view(tail).push(e@));
        assert(exprs_view(es) == seq![es[0]@] + exprs_view(tail));
        assert(seq![es[0]@] + exprs_view(tail).push(e@) =~= (seq![es[0]@] + exprs_view(tail)).push(
            e@,
        ));
    }
}

/// Prepend an expression to the items of a successful list parse.
pub open spec fn cons_item(e: ExprModel, r: Result<(Seq<ExprModel>, Span, int), ParseErrorModel>) -> Result<
    (Seq<ExprModel>, Span, int),
    ParseErrorModel,
> {
    match r {
        Ok((items, rsp, p)) => Ok((seq![e] + items, rsp, p)),
        Err(er) => Err(er),
    }
}

/// Prepend already-parsed items to a successful list parse.
pub open spec fn cons_items(
    pre: Seq<ExprModel>,
    r: Result<(Seq<ExprModel>, Span, int), ParseErrorModel>,
) -> Result<(Seq<ExprModel>, Span, int), ParseErrorModel> {
    match r {
        Ok((items, rsp, p)) => Ok((pre + items, rsp, p)),
        Err(er) => Err(er),
    }
}

proof fn lemma_cons_items_push(
    pre: Seq<ExprModel>,
    e: ExprModel,
    r: Result<(Seq<ExprModel>, Span, int), ParseErrorModel>,
)
    ensures
        cons_items(pre, cons_item(e, r)) == cons_items(pre.push(e), r),
{
    match r {
        Ok((items, rsp, p)) => {
            assert(pre + (seq![e] + items) =~= pre.push(e) + items);
        },
        Err(_) => {},
    }
}

// ---------------------------------------------------------------------------
// The executable parser
// ---------------------------------------------------------------------------
/// The label a token kind gets in error messages.
pub fn token_label(kind: &TokenKind) -> (r: &'static str)
    ensures
        r@ == spec_label(kind@),
{
    match kind {
        TokenKind::Let => "`let`",
        TokenKind::Mut => "`mut`",
        TokenKind::SetKw => "`set`",
        TokenKind::Fn => "`fn`",
        TokenKind::Match => "`match`",
        TokenKind::With => "`with`",
        TokenKind::When => "`when`",
        TokenKind::Io => "`io`",
        TokenKind::Do => "`do`",
        TokenKind::End => "`end`",
        TokenKind::Ident(_) => "identifier",
        TokenKind::Int(_) => "integer literal",
        TokenKind::String(_) => "string literal",
        TokenKind::PipeGreater => "`|>`",
        TokenKind::Arrow => "`->`",
        TokenKind::LeftArrow => "`<-`",
        TokenKind::Equal => "`=`",
        TokenKind::Comma => "`,`",
        TokenKind::LParen => "`(`",
        TokenKind::RParen => "`)`",
        TokenKind::LBracket => "`[`",
        TokenKind::RBracket => "`]`",
        TokenKind::Eof => "end of input",
    }
}

/// True when the token kind is one of the reserved keywords.
pub fn is_reserved_keyword(k: &TokenKind) -> (r: bool)
    ensures
        r == spec_is_reserved(k@),
{
    match k {
        TokenKind::Let => true,
        TokenKind::Mut => true,
        TokenKind::SetKw => true,
        TokenKind::Fn => true,
        TokenKind::Match => true,
        TokenKind::With => true,
        TokenKind::When => true,
        TokenKind::Io => true,
        TokenKind::Do => true,
        TokenKind::End => true,
        _ => false,
    }
}

/// The parser state: the token sequence and the position of the next token.
#[derive(Debug, Clone)]
pub struct Parser {
    tokens: Vec<Token>,
    pos: usize,
}

impl Parser {
    /// The models of the parser's tokens.
    pub closed spec fn toks(self) -> Seq<TokenModel> {
        tokens_view(self.tokens@)
    }

    /// The position of the next token to be consumed.
    pub closed spec fn position(self) -> int {
        self.pos as int
    }

    /// A well-formed parser: the token sequence is non-empty and ends with
    /// the end-of-input token, every token's span is valid, and the position
    /// is in range.  The tokenizer produces exactly such sequences, and the
    /// parser never advances past the end-of-input token.
    pub closed spec fn wf(self) -> bool {
        &&& self.toks().len() > 0
        &&& self.toks().last().kind is Eof
        &&& (self.pos as int) < self.toks().len()
        &&& forall|k: int|
            0 <= k < self.toks().len() ==> span_valid((#[trigger] self.toks()[k]).span)
    }

    /// Start parsing a token sequence at its first token.
    pub fn new(tokens: Vec<Token>) -> (r: Self)
        requires
            tokens_view(tokens@).len() > 0,
            tokens_view(tokens@).last().kind is Eof,
            forall|k: int|
                0 <= k < tokens_view(tokens@).len() ==> span_valid(
                    (#[trigger] tokens_view(tokens@)[k]).span,
                ),
        ensures
            r.wf(),
            r.toks() == tokens_view(tokens@),
            r.position() == 0,
    {
        Self { tokens, pos: 0 }
    }

    /// The current token; at the end-of-input token this keeps returning it.
    fn peek(&self) -> (r: &Token)
        requires
            self.wf(),
        ensures
            r@ == tok(self.toks(), self.pos as int),
    {
        &self.tokens[self.pos]
    }

    /// The kind of the current token.
    fn peek_kind(&self) -> (r: &TokenKind)
        requires
            self.wf(),
        ensures
            r@ == tok(self.toks(), self.pos as int).kind,
    {
        &self.peek().kind
    }

    /// True when the current token has the same kind tag as `kind`.
    fn matches(&self, kind: &TokenKind) -> (r: bool)
        requires
            self.wf(),
        ensures
            r == kind_eq(tok(self.toks(), self.pos as int).kind, kind@),
    {
        same_kind(self.peek_kind(), kind)
    }

    /// True when the parser stands at the end-of-input token.
    fn is_eof(&self) -> (r: bool)
        requires
            self.wf(),
        ensures
            r == (tok(self.toks(), self.pos as int).kind is Eof),
    {
        matches!(self.peek_kind(), TokenKind::Eof)
    }

    /// Return the current token and step past it — except at the end-of-input
    /// token, which is returned again and again without advancing.
    fn bump(&mut self) -> (t: Token)
        requires
            old(self).wf(),
        ensures
            final(self).wf(),
            final(self).toks() == old(self).toks(),
            t@ == tok(old(self).toks(), old(self).pos as int),
            final(self).pos as int == (if tok(old(self).toks(), old(self).pos as int).kind is Eof {
                old(self).pos as int
            } else {
                old(self).pos as int + 1
            }),
    {
        let token = self.peek().clone();
        if !self.is_eof() {
            proof {
                broadcast use vstd::std_specs::vec::axiom_spec_len;

                assert(self.toks().last() == self.toks()[self.toks().len() - 1]);
                assert(self.toks().len() == self.tokens@.len());
                assert(vstd::std_specs::vec::spec_vec_len(&self.tokens) == self.tokens@.len());
                assert(self.tokens@.len() <= usize::MAX);
            }
            self.pos = self.pos + 1;
        }
        token
    }

    /// The error for a missing expectation: it names `expected` and the token
    /// actually found, and points at that token.
    fn expected_error(&self, expected: &str) -> (e: ParseError)
        requires
            self.wf(),
        ensures
            e@ == spec_expected_error(self.toks(), self.pos as int, expected@),
    {
        let mut m = "expected ".to_owned();
        m.append(expected);
        m.append(", found ");
        m.append(token_label(self.peek_kind()));
        let sp = self.peek().span;
        ParseError::new(m.as_str(), sp)
    }

    /// Consume a token of the expected kind, or fail naming `expected_desc`.
    fn expect(&mut self, expected: TokenKind, expected_desc: &str) -> (r: Result<Token, ParseError>)
        requires
            old(self).wf(),
        ensures
            final(self).wf(),
            final(self).toks() == old(self).toks(),
            ({
                let tok0 = tok(old(self).toks(), old(self).pos as int);
                match r {
                    Ok(t) => kind_eq(tok0.kind, expected@) && t@ == tok0 && final(self).pos as int
                        == (if tok0.kind is Eof {
                        old(self).pos as int
                    } else {
                        old(self).pos as int + 1
                    }),
                    Err(e) => !kind_eq(tok0.kind, expected@) && e@ == spec_expected_error(
                        old(self).toks(),
                        old(self).pos as int,
                        expected_desc@,
                    ) && final(self).pos == old(self).pos,
                }
            }),
    {
        if self.matches(&expected) {
            Ok(self.bump())
        } else {
            Err(self.expected_error(expected_desc))
        }
    }

    /// Consume an identifier token and hand back its text and span, or fail.
    fn expect_ident(&mut self) -> (r: Result<(String, Span), ParseError>)
        requires
            old(self).wf(),
        ensures
            final(self).wf(),
            final(self).toks() == old(self).toks(),
            ({
                let tok0 = tok(old(self).toks(), old(self).pos as int);
                match r {
                    Ok(p) => tok0.kind matches KindModel::Ident(n) && p.0@ == n && p.1 == tok0.span
                        && final(self).pos as int == old(self).pos as int + 1,
                    Err(e) => !(tok0.kind is Ident) && e@ == spec_expected_error(
                        old(self).toks(),
                        old(self).pos as int,
                        "identifier"@,
                    ),
                }
            }),
    {
        let token = self.bump();
        let label = token_label(&token.kind);
        match token.kind {
            TokenKind::Ident(name) => Ok((name, token.span)),
            _ => {
                let mut m = "expected ".to_owned();
                m.append("identifier");
                m.append(", found ");
                m.append(label);
                Err(ParseError::new(m.as_str(), token.span))
            },
        }
    }

    /// Parse one primary expression: a literal, a variable, or a list.
    fn parse_primary(&mut self) -> (r: Result<Expr, ParseError>)
        requires
            old(self).wf(),
        ensures
            final(self).wf(),
            final(self).toks() == old(self).toks(),
            match r {
                Ok(e) => spec_parse_primary(old(self).toks(), old(self).pos as int) == Ok::<
                    (ExprModel, int),
                    ParseErrorModel,
                >((e@, final(self).pos as int)) && final(self).pos > old(self).pos && span_valid(
                    e@.spanm(),
                ),
                Err(er) => spec_parse_primary(old(self).toks(), old(self).pos as int) == Err::<
                    (ExprModel, int),
                    ParseErrorModel,
                >(er@),
            },
        decreases self.toks().len() - self.pos, 0int,
    {
        let token = self.bump();
        let label = token_label(&token.kind);
        let tspan = token.span;
        match token.kind {
            TokenKind::Int(v) => Ok(Expr::Int(v, tspan)),
            TokenKind::String(v) => Ok(Expr::String(v, tspan)),
            TokenKind::Ident(name) => Ok(Expr::Var(name, tspan)),
            TokenKind::LBracket => self.parse_list(tspan),
            other => {
                if is_reserved_keyword(&other) {
                    Err(ParseError::new("expected expression, found reserved keyword", tspan))
                } else {
                    let mut m = "expected ".to_owned();
                    m.append("expression");
                    m.append(", found ");
                    m.append(label);
                    Err(ParseError::new(m.as_str(), tspan))
                }
            },
        }
    }

    /// Parse one expression, then reject a following `|>` with the explicit
    /// "not yet available" error.
    fn parse_expr(&mut self) -> (r: Result<Expr, ParseError>)
        requires
            old(self).wf(),
        ensures
            final(self).wf(),
            final(self).toks() == old(self).toks(),
            match r {
                Ok(e) => spec_parse_expr(old(self).toks(), old(self).pos as int) == Ok::<
                    (ExprModel, int),
                    ParseErrorModel,
                >((e@, final(self).pos as int)) && final(self).pos > old(self).pos && span_valid(
                    e@.spanm(),
                ),
                Err(er) => spec_parse_expr(old(self).toks(), old(self).pos as int) == Err::<
                    (ExprModel, int),
                    ParseErrorModel,
                >(er@),
            },
        decreases self.toks().len() - self.pos, 1int,
    {
        let expr = match self.parse_primary() {
            Ok(e) => e,
            Err(er) => {
                return Err(er);
            },
        };
        if self.matches(&TokenKind::PipeGreater) {
            let sp = self.peek().span;
            return Err(
                ParseError::new("pipe operator '|>' is not available yet (planned for T04)", sp),
            );
        }
        Ok(expr)
    }

    /// Parse the rest of a list literal, entered just after the opening
    /// bracket, whose span is `start_span`.
    #[verifier::loop_isolation(false)]
    fn parse_list(&mut self, start_span: Span) -> (r: Result<Expr, ParseError>)
        requires
            old(self).wf(),
            span_valid(start_span),
        ensures
            final(self).wf(),
            final(self).toks() == old(self).toks(),
            match r {
                Ok(e) => spec_parse_list(old(self).toks(), old(self).pos as int, start_span)
                    == Ok::<(ExprModel, int), ParseErrorModel>((e@, final(self).pos as int))
                    && final(self).pos >= old(self).pos && span_valid(e@.spanm()),
                Err(er) => spec_parse_list(old(self).toks(), old(self).pos as int, start_span)
                    == Err::<(ExprModel, int), ParseErrorModel>(er@),
            },
        decreases self.toks().len() - self.pos, 3int,
    {
        let ghost toks = self.toks();
        let ghost p1 = self.pos as int;
        let mut items: Vec<Expr> = Vec::new();
        if self.matches(&TokenKind::RBracket) {
            let end = self.bump();
            proof {
                assert(exprs_view(items@) =~= Seq::<ExprModel>::empty());
            }
            return Ok(Expr::List(items, covering(&start_span, &end.span)));
        }
        proof {
            assert(cons_items(exprs_view(items@), spec_parse_list_items(toks, p1))
                == spec_parse_list_items(toks, p1)) by {
                match spec_parse_list_items(toks, p1) {
                    Ok((its, rsp, p)) => {
                        assert(exprs_view(items@) + its =~= its);
                    },
                    Err(_) => {},
                }
            };
        }
        loop
            invariant
                self.wf(),
                self.toks() == toks,
                p1 <= self.pos as int && (self.pos as int) < toks.len(),
                spec_parse_list_items(toks, p1) == cons_items(
                    exprs_view(items@),
                    spec_parse_list_items(toks, self.pos as int),
                ),
            decreases toks.len() - self.pos,
        {
            let ghost i = self.pos as int;
            let ghost pre = exprs_view(items@);
            let e = match self.parse_expr() {
                Ok(e) => e,
                Err(er) => {
                    return Err(er);
                },
            };
            proof {
                lemma_cons_items_push(pre, e@, spec_parse_list_items(toks, self.pos as int + 1));
                lemma_exprs_view_push(items@, e);
            }
            items.push(e);
            if self.matches(&TokenKind::Comma) {
                self.bump();
                continue;
            }
            let end = match self.expect(TokenKind::RBracket, "']' to close list") {
                Ok(t) => t,
                Err(er) => {
                    return Err(er);
                },
            };
            proof {
                assert(pre + seq![e@] =~= pre.push(e@));
            }
            return Ok(Expr::List(items, covering(&start_span, &end.span)));
        }
    }

    /// Parse one `let` statement; the current token is the `let` keyword.
    fn parse_let_stmt(&mut self) -> (r: Result<Stmt, ParseError>)
        requires
            old(self).wf(),
            tok(old(self).toks(), old(self).pos as int).kind is Let,
        ensures
            final(self).wf(),
            final(self).toks() == old(self).toks(),
            match r {
                Ok(st) => spec_parse_stmt(old(self).toks(), old(self).pos as int) == Ok::<
                    (StmtModel, int),
                    ParseErrorModel,
                >((st@, final(self).pos as int)) && final(self).pos > old(self).pos,
                Err(er) => spec_parse_stmt(old(self).toks(), old(self).pos as int) == Err::<
                    (StmtModel, int),
                    ParseErrorModel,
                >(er@),
            },
    {
        let let_token = self.bump();
        let mutable = if self.matches(&TokenKind::Mut) {
            self.bump();
            true
        } else {
            false
        };
        let (name, name_span) = match self.expect_ident() {
            Ok(p) => p,
            Err(e) => {
                return Err(e);
            },
        };
        match self.expect(TokenKind::Equal, "'=' after let binding") {
            Ok(_) => {},
            Err(e) => {
                return Err(e);
            },
        }
        let expr = match self.parse_expr() {
            Ok(e) => e,
            Err(e) => {
                return Err(e);
            },
        };
        let stmt_span = covering(&let_token.span, &expr.span());
        Ok(Stmt::Let { name, name_span, mutable, expr, span: stmt_span })
    }

    /// Parse one statement; any leading token but `let` is a syntax error.
    fn parse_stmt(&mut self) -> (r: Result<Stmt, ParseError>)
        requires
            old(self).wf(),
        ensures
            final(self).wf(),
            final(self).toks() == old(self).toks(),
            match r {
                Ok(st) => spec_parse_stmt(old(self).toks(), old(self).pos as int) == Ok::<
                    (StmtModel, int),
                    ParseErrorModel,
                >((st@, final(self).pos as int)) && final(self).pos > old(self).pos,
                Err(er) => spec_parse_stmt(old(self).toks(), old(self).pos as int) == Err::<
                    (StmtModel, int),
                    ParseErrorModel,
                >(er@),
            },
    {
        if self.matches(&TokenKind::Let) {
            self.parse_let_stmt()
        } else {
            Err(self.expected_error("statement"))
        }
    }

    /// Parse statements until end of input, or fail with the first error.
    #[verifier::loop_isolation(false)]
    pub fn parse_program(&mut self) -> (r: Result<Program, ParseError>)
        requires
            old(self).wf(),
        ensures
            final(self).wf(),
            match r {
                Ok(p) => spec_parse_stmts(old(self).toks(), old(self).position()) == Ok::<
                    Seq<StmtModel>,
                    ParseErrorModel,
                >(p@) && tok(old(self).toks(), final(self).position()).kind is Eof,
                Err(e) => spec_parse_stmts(old(self).toks(), old(self).position()) == Err::<
                    Seq<StmtModel>,
                    ParseErrorModel,
                >(e@),
            },
    {
        let ghost toks = self.toks();
        let ghost p0 = self.pos as int;
        let mut stmts: Vec<Stmt> = Vec::new();
        proof {
            assert(stmts_view(stmts@) =~= Seq::<StmtModel>::empty());
            assert(cons_stmts(stmts_view(stmts@), spec_parse_stmts(toks, p0)) == spec_parse_stmts(
                toks,
                p0,
            )) by {
                match spec_parse_stmts(toks, p0) {
                    Ok(rest) => {
                        assert(stmts_view(stmts@) + rest =~= rest);
                    },
                    Err(_) => {},
                }
            };
        }
        while !self.is_eof()
            invariant
                self.wf(),
                self.toks() == toks,
                p0 <= self.pos as int && (self.pos as int) < toks.len(),
                spec_parse_stmts(toks, p0) == cons_stmts(
                    stmts_view(stmts@),
                    spec_parse_stmts(toks, self.pos as int),
                ),
            decreases toks.len() - self.pos,
        {
            let ghost pre = stmts_view(stmts@);
            match self.parse_stmt() {
                Ok(st) => {
                    proof {
                        lemma_cons_stmts_push(pre, st@, spec_parse_stmts(toks, self.pos as int));
                        lemma_stmts_view_push(stmts@, st);
                    }
                    stmts.push(st);
                },
                Err(e) => {
                    return Err(e);
                },
            }
        }
        proof {
            assert(stmts_view(stmts@) + Seq::<StmtModel>::empty() =~= stmts_view(stmts@));
        }
        Ok(Program::new(stmts))
    }
}

// ---------------------------------------------------------------------------
// Laws of the grammar
// ---------------------------------------------------------------------------
/// For any successfully parsed `let` statement, the statement's span is the
/// covering span of the `let` keyword's token span and the bound expression's
/// span.
pub proof fn lemma_stmt_span_covers(toks: Seq<TokenModel>, pos: int, st: StmtModel, p2: int)
    requires
        spec_parse_stmt(toks, pos) == Ok::<(StmtModel, int), ParseErrorModel>((st, p2)),
    ensures
        st matches StmtModel::Let { expr, span, .. } ==> span == spec_covering(
            tok(toks, pos).span,
            expr.spanm(),
        ),
{
}

/// For a `let` statement parsed from the tokenizer's output, the statement's
/// span starts exactly at the `let` keyword's offset and ends exactly at the
/// end of the bound expression's span.
#[verifier::rlimit(100)]
pub proof fn lemma_stmt_span_exact(
    s: Seq<char>,
    toks: Seq<TokenModel>,
    pos: int,
    st: StmtModel,
    p2: int,
)
    requires
        spec_lex(s) == Ok::<Seq<TokenModel>, ParseErrorModel>(toks),
        encode_utf8(s).len() <= usize::MAX,
        0 <= pos,
        spec_parse_stmt(toks, pos) == Ok::<(StmtModel, int), ParseErrorModel>((st, p2)),
    ensures
        st matches StmtModel::Let { expr, span, .. } ==> span.offset == tok(toks, pos).span.offset
            && span_end(span) == span_end(expr.spanm()),
{
    lemma_lex_tokens_wf(s, 0);
    lemma_boff_total(s);
    // the bound expression starts after `let`, the optional `mut`, the name
    // and the `=`
    let epos = if tok(toks, pos + 1).kind is Mut {
        pos + 4
    } else {
        pos + 3
    };
    lemma_expr_starts_at_token(s, toks, epos);
    match spec_parse_expr(toks, epos) {
        Ok((e, p5)) => {
            // a successful expression parse starts at a real token, which
            // stands after the `let` keyword
            assert(0 <= pos < epos < toks.len());
            lemma_spans_chain(toks, pos, epos);
        },
        Err(_) => {},
    }
}

/// For an expression parsed from the tokenizer's output, the span starts at
/// the offset of the expression's first token, and its end stays within the
/// source's byte length.
#[verifier::rlimit(100)]
pub proof fn lemma_expr_starts_at_token(s: Seq<char>, toks: Seq<TokenModel>, pos: int)
    requires
        spec_lex(s) == Ok::<Seq<TokenModel>, ParseErrorModel>(toks),
        encode_utf8(s).len() <= usize::MAX,
        0 <= pos,
    ensures
        spec_parse_primary(toks, pos) matches Ok(r) ==> r.0.spanm().offset == tok(
            toks,
            pos,
        ).span.offset && span_end(r.0.spanm()) <= boff(s, s.len() as int),
        spec_parse_expr(toks, pos) matches Ok(r) ==> r.0.spanm().offset == tok(
            toks,
            pos,
        ).span.offset && span_end(r.0.spanm()) <= boff(s, s.len() as int),
{
    lemma_lex_tokens_wf(s, 0);
    lemma_lex_rbracket_len(s, 0);
    if tok(toks, pos).kind is LBracket {
        // a list is the one expression whose span is not its own first token's
        match spec_parse_primary(toks, pos) {
            Ok((e, p2)) => match e {
                ExprModel::List(items, sp) => {
                    lemma_list_span_brackets(s, toks, pos, items, sp, p2);
                    lemma_list_items_rbracket(toks, pos + 1);
                    assert(tok(toks, p2 - 1).kind is RBracket);
                    assert(span_end(tok(toks, p2 - 1).span) <= boff(s, s.len() as int));
                },
                _ => {},
            },
            Err(_) => {},
        }
    }
}

/// A successful sub-parse always consumes at least one token and never runs
/// past the end of the token sequence.
pub proof fn lemma_parse_progress(toks: Seq<TokenModel>, pos: int, sp: Span)
    requires
        0 <= pos,
    ensures
        spec_parse_primary(toks, pos) matches Ok(r) ==> pos < r.1 <= toks.len(),
        spec_parse_expr(toks, pos) matches Ok(r) ==> pos < r.1 <= toks.len(),
        spec_parse_list_items(toks, pos) matches Ok(t) ==> pos < t.2 <= toks.len(),
        spec_parse_list(toks, pos, sp) matches Ok(r) ==> pos < r.1 <= toks.len(),
    decreases toks.len() - pos, 10int,
{
    if pos < toks.len() {
        let t = tok(toks, pos);
        if t.kind is LBracket {
            lemma_parse_progress(toks, pos + 1, t.span);
        }
        assert(spec_parse_primary(toks, pos) matches Ok(r) ==> pos < r.1 <= toks.len());
        assert(spec_parse_expr(toks, pos) matches Ok(r) ==> pos < r.1 <= toks.len());
        match spec_parse_expr(toks, pos) {
            Ok((e, p2)) => {
                if tok(toks, p2).kind is Comma && pos < p2 {
                    lemma_parse_progress(toks, p2 + 1, sp);
                }
            },
            Err(_) => {},
        }
        assert(spec_parse_list_items(toks, pos) matches Ok(t) ==> pos < t.2 <= toks.len());
    }
}

/// In a successful list parse the last consumed token is the closing
/// bracket, and the span handed back is that token's span.
pub proof fn lemma_list_items_rbracket(toks: Seq<TokenModel>, pos: int)
    requires
        0 <= pos,
    ensures
        spec_parse_list_items(toks, pos) matches Ok(t) ==> tok(toks, t.2 - 1).kind is RBracket
            && t.1 == tok(toks, t.2 - 1).span,
    decreases toks.len() - pos,
{
    match spec_parse_expr(toks, pos) {
        Ok((e, p2)) => {
            if tok(toks, p2).kind is Comma && pos < p2 {
                lemma_list_items_rbracket(toks, p2 + 1);
            }
        },
        Err(_) => {},
    }
}

/// Spans of tokens later in the sequence start no earlier than the ends of
/// spans of earlier tokens.
proof fn lemma_spans_chain(ts: Seq<TokenModel>, i: int, j: int)
    requires
        forall|k: int| 0 <= k < ts.len() - 1 ==> span_end((#[trigger] ts[k].span)) <= ts[k
            + 1].span.offset,
        0 <= i < j < ts.len(),
    ensures
        span_end(ts[i].span) <= ts[j].span.offset,
    decreases j - i,
{
    if i + 1 < j {
        lemma_spans_chain(ts, i + 1, j);
    }
}

/// For a list parsed from the tokenizer's output, entered just past its
/// opening bracket, the produced span starts at that bracket's offset and
/// ends one past the closing bracket's offset.
#[verifier::rlimit(100)]
pub proof fn lemma_parse_list_span(
    s: Seq<char>,
    toks: Seq<TokenModel>,
    pos: int,
    items: Seq<ExprModel>,
    sp: Span,
    p2: int,
)
    requires
        spec_lex(s) == Ok::<Seq<TokenModel>, ParseErrorModel>(toks),
        encode_utf8(s).len() <= usize::MAX,
        1 <= pos,
        tok(toks, pos - 1).kind is LBracket,
        spec_parse_list(toks, pos, tok(toks, pos - 1).span) == Ok::<
            (ExprModel, int),
            ParseErrorModel,
        >((ExprModel::List(items, sp), p2)),
    ensures
        sp.offset == tok(toks, pos - 1).span.offset,
        span_end(sp) == tok(toks, p2 - 1).span.offset + 1,
{
    lemma_lex_tokens_wf(s, 0);
    lemma_lex_rbracket_len(s, 0);
    lemma_parse_progress(toks, pos, tok(toks, pos - 1).span);
    lemma_list_items_rbracket(toks, pos);
    let lb = tok(toks, pos - 1).span;
    if tok(toks, pos).kind is RBracket {
        let rb = tok(toks, pos).span;
        lemma_spans_chain(toks, pos - 1, pos);
        assert(span_end(lb) <= rb.offset);
        assert(rb.len == 1);
        assert(sp == spec_covering(lb, rb));
    } else {
        match spec_parse_list_items(toks, pos) {
            Ok((its, rsp, p3)) => {
                let rb = tok(toks, p3 - 1).span;
                assert(tok(toks, p3 - 1).kind is RBracket);
                assert(pos - 1 < p3 - 1 < toks.len());
                lemma_spans_chain(toks, pos - 1, p3 - 1);
                assert(span_end(lb) <= rb.offset);
                assert(rb.len == 1);
                assert(sp == spec_covering(lb, rb));
            },
            Err(_) => {},
        }
    }
}

/// For a list literal parsed from the tokenizer's output, the produced span
/// starts at the opening bracket's offset, and ends one past the closing
/// bracket's offset.
pub proof fn lemma_list_span_brackets(
    s: Seq<char>,
    toks: Seq<TokenModel>,
    pos: int,
    items: Seq<ExprModel>,
    sp: Span,
    p2: int,
)
    requires
        spec_lex(s) == Ok::<Seq<TokenModel>, ParseErrorModel>(toks),
        encode_utf8(s).len() <= usize::MAX,
        0 <= pos,
        tok(toks, pos).kind is LBracket,
        spec_parse_primary(toks, pos) == Ok::<(ExprModel, int), ParseErrorModel>(
            (ExprModel::List(items, sp), p2),
        ),
    ensures
        sp.offset == tok(toks, pos).span.offset,
        span_end(sp) == tok(toks, p2 - 1).span.offset + 1,
{
    lemma_parse_list_span(s, toks, pos + 1, items, sp, p2);
}

/// Tokenize and parse a whole source text: the result is exactly what
/// `spec_parse` describes — the program's statements, with byte-accurate
/// spans throughout, or the first lexical or syntax error with its exact
/// message and span.
pub fn parse_program(source: &str) -> (r: Result<Program, ParseError>)
    ensures
        match r {
            Ok(p) => spec_parse(source@) == Ok::<Seq<StmtModel>, ParseErrorModel>(p@),
            Err(e) => spec_parse(source@) == Err::<Seq<StmtModel>, ParseErrorModel>(e@),
        },
{
    let tokens = match lex(source) {
        Ok(t) => t,
        Err(e) => {
            return Err(e);
        },
    };
    proof {
        lemma_lex_tokens_wf(source@, 0);
    }
    let mut parser = Parser::new(tokens);
    parser.parse_program()
}

} // verus!
