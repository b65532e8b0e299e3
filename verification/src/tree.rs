//! The closed set of expression node shapes the parser can build, each
//! carrying the source span it was built from.

use vstd::prelude::*;

use crate::location::{Span, SpannedM};

verus! {

/// An arithmetic operator. `Binary` uses all four; `Unary` is built only
/// with `Minus` (by construction, not by type).
#[derive(Debug, Clone, Copy, PartialEq, Eq, Structural)]
pub enum Operation {
    Add,
    Mult,
    Slash,
    Minus,
}

/// The mathematical image of an expression: a spanned [`EKM`].
pub type EM = SpannedM<EKM>;

/// The mathematical image of an [`ExprKind`].
pub ghost enum EKM {
    Let { name: Seq<char>, value: Box<EM>, next: Box<EM> },
    Ident(Seq<char>),
    Binary { operation: Operation, left: Box<EM>, right: Box<EM> },
    Unary { operation: Operation, expr: Box<EM> },
    Int(nat),
}

/// An expression node together with its source span.
#[derive(Debug)]
pub struct Expr {
    pub data: ExprKind,
    pub span: Span,
}

/// A `let name = value in next` binding.
#[derive(Debug)]
pub struct LetNode {
    pub name: String,
    pub value: Box<Expr>,
    pub next: Box<Expr>,
}

/// An application of a binary operator to two operands.
#[derive(Debug)]
pub struct BinaryNode {
    pub operation: Operation,
    pub left: Box<Expr>,
    pub right: Box<Expr>,
}

/// An application of a unary operator to one operand.
#[derive(Debug)]
pub struct UnaryNode {
    pub operation: Operation,
    pub expr: Box<Expr>,
}

/// The shape of an expression node.
#[derive(Debug)]
pub enum ExprKind {
    Let(LetNode),
    Ident(String),
    Binary(BinaryNode),
    Unary(UnaryNode),
    Int(usize),
}

/// The mathematical image of an expression tree.
pub open spec fn view_expr(e: &Expr) -> EM
    decreases e,
{
    SpannedM { data: view_kind(&e.data), start: e.span.start as int, end: e.span.end as int }
}

/// The mathematical image of an expression node's shape.
pub open spec fn view_kind(k: &ExprKind) -> EKM
    decreases k,
{
    match k {
        ExprKind::Let(n) => EKM::Let {
            name: n.name@,
            value: Box::new(view_expr(&n.value)),
            next: Box::new(view_expr(&n.next)),
        },
        ExprKind::Ident(s) => EKM::Ident(s@),
        ExprKind::Binary(n) => EKM::Binary {
            operation: n.operation,
            left: Box::new(view_expr(&n.left)),
            right: Box::new(view_expr(&n.right)),
        },
        ExprKind::Unary(n) => EKM::Unary {
            operation: n.operation,
            expr: Box::new(view_expr(&n.expr)),
        },
        ExprKind::Int(v) => EKM::Int(*v as nat),
    }
}

impl View for Expr {
    type V = EM;

    open spec fn view(&self) -> EM {
        view_expr(self)
    }
}

impl View for ExprKind {
    type V = EKM;

    open spec fn view(&self) -> EKM {
        view_kind(self)
    }
}

} // verus!
