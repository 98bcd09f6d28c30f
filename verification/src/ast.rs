//! The abstract syntax tree the parser builds: literals, unary
//! prefix expressions and binary expressions. Composite nodes own their
//! children; a tree is immutable once built.
use vstd::prelude::*;
use crate::value::Rat;

verus! {

/// An infix operator.
#[derive(Clone, Copy, PartialEq, Eq, Structural, Debug)]
pub enum BinOp {
    Plus,
    Minus,
    Times,
    Over,
}

/// A prefix operator.
#[derive(Clone, Copy, PartialEq, Eq, Structural, Debug)]
pub enum UnOp {
    Plus,
    Minus,
}

/// An expression: an integer literal, a fractional literal (held as an
/// exact rational), or a composite node.
#[derive(Debug)]
pub enum Expr {
    Integer(i64),
    Float(Rat),
    BinExpr(Box<BinaryExpr>),
    UnExpr(Box<UnaryExpr>),
}

/// A binary application `left op right`.
#[derive(Debug)]
pub struct BinaryExpr {
    pub left: Expr,
    pub op: BinOp,
    pub right: Expr,
}

/// A prefix application `op right`.
#[derive(Debug)]
pub struct UnaryExpr {
    pub op: UnOp,
    pub right: Expr,
}

/// Every fractional literal in the tree holds a well-formed rational.
/// The parser only builds such trees, and evaluation relies on it.
pub open spec fn expr_wf(e: Expr) -> bool
    decreases e,
{
    match e {
        Expr::Integer(_) => true,
        Expr::Float(r) => r.wf() && r.is_finite(),
        Expr::BinExpr(b) => expr_wf(b.left) && expr_wf(b.right),
        Expr::UnExpr(u) => expr_wf(u.right),
    }
}

} // verus!
