//! The abstract syntax tree that lowering consumes.
//!
//! A parser (outside this crate) produces these plain values. `Option`-typed
//! numeric fields signal a number that was missing or did not fit; an
//! `Option`-typed operand signals an operand the parser could not produce.

use vstd::prelude::*;

verus! {

/// The arithmetic operators of a binary expression.
#[derive(Debug, Copy, Clone, PartialEq, Eq, Structural)]
pub enum BinaryOp {
    Add,
    Sub,
    Mul,
    Div,
}

/// The operators of a unary expression.
#[derive(Debug, Copy, Clone, PartialEq, Eq, Structural)]
pub enum UnaryOp {
    Neg,
}

/// The rule a set operation applies to the dice or items it selects.
#[derive(Debug, Copy, Clone, PartialEq, Eq, Structural)]
pub enum SetOp {
    Keep,
    Drop,
    Reroll,
    RerollOnce,
    RerollAdd,
    Explode,
    Min,
    Max,
}

/// How a set operation selects its targets: by rank (`Highest`, `Lowest`) or
/// by comparison of each target's total with the operation's number.
#[derive(Debug, Copy, Clone, PartialEq, Eq, Structural)]
pub enum SetSel {
    Number,
    Highest,
    Lowest,
    Greater,
    Less,
}

/// A set operation as the parser hands it over: operator, selector, and the
/// operation's number (`None` when it was missing or did not fit).
pub type SetOperation = (SetOp, SetSel, Option<u64>);

/// One node of the abstract syntax tree.
pub enum Ast {
    /// An arithmetic combination of two operands.
    BinaryExpr { op: BinaryOp, lhs: Option<Box<Ast>>, rhs: Option<Box<Ast>> },
    /// A group of `count` dice with `sides` sides each, and the ordered set
    /// operations to apply to it.
    Dice { count: Option<u64>, sides: Option<u64>, ops: Vec<SetOperation> },
    /// A constant.
    Literal { value: Option<u64> },
    /// A parenthesized sub-expression.
    ParenExpr { expr: Option<Box<Ast>> },
    /// An ordered collection of sub-expressions, and the set operations to
    /// apply to it.
    SetExpr { items: Vec<Ast>, ops: Vec<SetOperation> },
    /// A sign applied to one operand.
    UnaryExpr { op: UnaryOp, expr: Option<Box<Ast>> },
}

} // verus!
