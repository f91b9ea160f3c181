//! Number validation: a literal, a dice count or sides, or an operation
//! number that did not fit the integer width arrives as a missing value,
//! and validation reports one diagnostic for each.

use vstd::prelude::*;
use crate::ast::Ast;

verus! {

/// The kind of one validation diagnostic.
#[derive(Debug, Copy, Clone, PartialEq, Eq, Structural)]
pub enum ValidationErrorKind {
    NumberTooLarge,
}

/// How many numbers the tree needs that are not there.
pub open spec fn missing_numbers(ast: Ast) -> int
    decreases ast,
{
    match ast {
        Ast::Literal { value } => if value is None {
            1int
        } else {
            0int
        },
        Ast::BinaryExpr { op, lhs, rhs } => opt_missing(lhs) + opt_missing(rhs),
        Ast::UnaryExpr { op, expr } => opt_missing(expr),
        Ast::ParenExpr { expr } => opt_missing(expr),
        Ast::Dice { count, sides, ops } => (if count is None {
            1int
        } else {
            0int
        }) + (if sides is None {
            1int
        } else {
            0int
        }) + ops_missing(ops@, ops@.len() as int),
        Ast::SetExpr { items, ops } => ops_missing(ops@, ops@.len() as int) + items_missing(
            items@,
            items@.len() as int,
        ),
    }
}

/// The missing numbers of a possibly absent operand.
pub open spec fn opt_missing(o: Option<Box<Ast>>) -> int
    decreases o,
{
    match o {
        None => 0int,
        Some(b) => missing_numbers(*b),
    }
}

/// The missing numbers among the first `n` operations of a list.
pub open spec fn ops_missing(ops: Seq<crate::ast::SetOperation>, n: int) -> int
    decreases n,
{
    if n <= 0 {
        0int
    } else {
        ops_missing(ops, n - 1) + if ops[n - 1].2 is None {
            1int
        } else {
            0int
        }
    }
}

/// The missing numbers among the first `n` items of a set.
pub open spec fn items_missing(items: Seq<Ast>, n: int) -> int
    decreases items, 1int, n,
{
    if n <= 0 {
        0int
    } else if n > items.len() {
        0int
    } else {
        items_missing(items, n - 1) + missing_numbers(items[n - 1])
    }
}

/// Scans the tree and reports one `NumberTooLarge` for every needed
/// number that is not there. Lowering succeeds exactly on trees this
/// reports nothing for.
pub fn validate(tree: &Ast) -> (r: Vec<ValidationErrorKind>)
    ensures
        r@.len() == missing_numbers(*tree),
        forall|k: int|
            0 <= k < r@.len() ==> #[trigger] r@[k] == ValidationErrorKind::NumberTooLarge,
{
    let mut errors: Vec<ValidationErrorKind> = Vec::new();
    validate_into(tree, &mut errors);
    errors
}

/// The walking step of `validate`.
fn validate_into(tree: &Ast, errors: &mut Vec<ValidationErrorKind>)
    ensures
        final(errors)@.len() == old(errors)@.len() + missing_numbers(*tree),
        forall|k: int|
            0 <= k < old(errors)@.len() ==> #[trigger] final(errors)@[k] == old(errors)@[k],
        forall|k: int|
            old(errors)@.len() <= k < final(errors)@.len() ==> #[trigger] final(errors)@[k]
                == ValidationErrorKind::NumberTooLarge,
    decreases *tree,
{
    match tree {
        Ast::Literal { value } => {
            if value.is_none() {
                errors.push(ValidationErrorKind::NumberTooLarge);
            }
        },
        Ast::BinaryExpr { op: _, lhs, rhs } => {
            if let Some(b) = lhs {
                validate_into(b, errors);
            }
            if let Some(b) = rhs {
                validate_into(b, errors);
            }
        },
        Ast::UnaryExpr { op: _, expr } => {
            if let Some(b) = expr {
                validate_into(b, errors);
            }
        },
        Ast::ParenExpr { expr } => {
            if let Some(b) = expr {
                validate_into(b, errors);
            }
        },
        Ast::Dice { count, sides, ops } => {
            if count.is_none() {
                errors.push(ValidationErrorKind::NumberTooLarge);
            }
            if sides.is_none() {
                errors.push(ValidationErrorKind::NumberTooLarge);
            }
            let mut k: usize = 0;
            while k < ops.len()
                invariant
                    k <= ops@.len(),
                    errors@.len() >= old(errors)@.len(),
                    errors@.len() == old(errors)@.len() + (if count is None {
                        1int
                    } else {
                        0int
                    }) + (if sides is None {
                        1int
                    } else {
                        0int
                    }) + ops_missing(ops@, k as int),
                    forall|j: int|
                        0 <= j < old(errors)@.len() ==> #[trigger] errors@[j] == old(errors)@[j],
                    forall|j: int|
                        old(errors)@.len() <= j < errors@.len() ==> #[trigger] errors@[j]
                            == ValidationErrorKind::NumberTooLarge,
                decreases ops@.len() - k,
            {
                if ops[k].2.is_none() {
                    errors.push(ValidationErrorKind::NumberTooLarge);
                }
                k = k + 1;
            }
        },
        Ast::SetExpr { items, ops } => {
            let mut k: usize = 0;
            while k < ops.len()
                invariant
                    k <= ops@.len(),
                    errors@.len() == old(errors)@.len() + ops_missing(ops@, k as int),
                    forall|j: int|
                        0 <= j < old(errors)@.len() ==> #[trigger] errors@[j] == old(errors)@[j],
                    forall|j: int|
                        old(errors)@.len() <= j < errors@.len() ==> #[trigger] errors@[j]
                            == ValidationErrorKind::NumberTooLarge,
                decreases ops@.len() - k,
            {
                if ops[k].2.is_none() {
                    errors.push(ValidationErrorKind::NumberTooLarge);
                }
                k = k + 1;
            }
            let mut k: usize = 0;
            while k < items.len()
                invariant
                    k <= items@.len(),
                    (*tree) matches Ast::SetExpr { items: its, ops: o2 } && its@ == items@
                        && o2@ == ops@,
                    errors@.len() == old(errors)@.len() + ops_missing(ops@, ops@.len() as int)
                        + items_missing(items@, k as int),
                    forall|j: int|
                        0 <= j < old(errors)@.len() ==> #[trigger] errors@[j] == old(errors)@[j],
                    forall|j: int|
                        old(errors)@.len() <= j < errors@.len() ==> #[trigger] errors@[j]
                            == ValidationErrorKind::NumberTooLarge,
                decreases items@.len() - k,
            {
                proof {
                    assert(decreases_to!(*tree => tree->SetExpr_items));
                    assert(decreases_to!(tree->SetExpr_items => tree->SetExpr_items@));
                    assert(decreases_to!(tree->SetExpr_items@ => tree->SetExpr_items@[
                        k as int
                    ]));
                    assert(tree->SetExpr_items@[k as int] == items@[k as int]);
                }
                validate_into(&items[k], errors);
                k = k + 1;
            }
        },
    }
}

} // verus!
