//! A lightweight roll pipeline: a plain expression tree, an evaluator that
//! rolls dice while walking it, and a result tree that remembers every roll
//! for display.

pub mod ast;
pub mod eval;
pub mod expr;

pub use eval::{DiceRoll, EvalError, EvalNode, EvalResult};
pub use expr::{ExprError, ExprResult, Expression, TEST_SEED};
