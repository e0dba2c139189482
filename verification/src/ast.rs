//! The abstract syntax tree: expressions, statements and programs, each node
//! carrying the span of the source text it covers.

use vstd::prelude::*;
use crate::span::Span;

verus! {

/// An expression: an integer or string literal, a variable reference, or a
/// list of sub-expressions.  Each variant carries its own span.
#[derive(Debug, PartialEq)]
pub enum Expr {
    String(String, Span),
    Int(i64, Span),
    Var(String, Span),
    List(Vec<Expr>, Span),
}

/// The mathematical model of an expression.
pub ghost enum ExprModel {
    String(Seq<char>, Span),
    Int(i64, Span),
    Var(Seq<char>, Span),
    List(Seq<ExprModel>, Span),
}

/// The model of an expression.
pub open spec fn expr_view(e: Expr) -> ExprModel
    decreases e,
{
    match e {
        Expr::String(t, s) => ExprModel::String(t@, s),
        Expr::Int(v, s) => ExprModel::Int(v, s),
        Expr::Var(t, s) => ExprModel::Var(t@, s),
        Expr::List(items, s) => ExprModel::List(exprs_view(items@), s),
    }
}

/// The models of a sequence of expressions.
pub open spec fn exprs_view(es: Seq<Expr>) -> Seq<ExprModel>
    decreases es,
{
    if es.len() == 0 {
        seq![]
    } else {
        seq![expr_view(es[0])] + exprs_view(es.subrange(1, es.len() as int))
    }
}

impl View for Expr {
    type V = ExprModel;

    open spec fn view(&self) -> ExprModel {
        expr_view(*self)
    }
}

impl ExprModel {
    /// The span carried by the expression.
    pub open spec fn spanm(self) -> Span {
        match self {
            ExprModel::String(_, s) => s,
            ExprModel::Int(_, s) => s,
            ExprModel::Var(_, s) => s,
            ExprModel::List(_, s) => s,
        }
    }
}

impl Expr {
    /// The span carried by the expression.
    pub fn span(&self) -> (r: Span)
        ensures
            r == self@.spanm(),
    {
        match self {
            Expr::String(_, s) => *s,
            Expr::Int(_, s) => *s,
            Expr::Var(_, s) => *s,
            Expr::List(_, s) => *s,
        }
    }
}

/// A statement.  The one statement today is a binding: `let` (optionally
/// `mut`) a name, `=`, an initializer expression.
#[derive(Debug, PartialEq)]
pub enum Stmt {
    Let { name: String, name_span: Span, mutable: bool, expr: Expr, span: Span },
}

/// The mathematical model of a statement.
pub ghost enum StmtModel {
    Let { name: Seq<char>, name_span: Span, mutable: bool, expr: ExprModel, span: Span },
}

impl View for Stmt {
    type V = StmtModel;

    open spec fn view(&self) -> StmtModel {
        match self {
            Stmt::Let { name, name_span, mutable, expr, span } => StmtModel::Let {
                name: name@,
                name_span: *name_span,
                mutable: *mutable,
                expr: expr@,
                span: *span,
            },
        }
    }
}

impl StmtModel {
    /// The span carried by the statement.
    pub open spec fn spanm(self) -> Span {
        match self {
            StmtModel::Let { span, .. } => span,
        }
    }
}

impl Stmt {
    /// The span carried by the statement.
    pub fn span(&self) -> (r: Span)
        ensures
            r == self@.spanm(),
    {
        match self {
            Stmt::Let { span, .. } => *span,
        }
    }
}

/// A program: its statements in source order.
#[derive(Debug, PartialEq)]
pub struct Program {
    pub stmts: Vec<Stmt>,
}

/// The models of a sequence of statements.
pub open spec fn stmts_view(ss: Seq<Stmt>) -> Seq<StmtModel> {
    ss.map_values(|st: Stmt| st@)
}

impl View for Program {
    type V = Seq<StmtModel>;

    open spec fn view(&self) -> Seq<StmtModel> {
        stmts_view(self.stmts@)
    }
}

impl Program {
    /// Wrap an ordered statement sequence as a program.
    pub fn new(stmts: Vec<Stmt>) -> (r: Self)
        ensures
            r@ == stmts_view(stmts@),
    {
        Self { stmts }
    }
}

} // verus!
