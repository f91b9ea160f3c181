//! The number-validation scan over trees with missing numbers.

use dice::ast::{Ast, BinaryOp, SetOp, SetSel};
use dice::validation::{validate, ValidationErrorKind};

#[test]
fn validate_ok_literal() {
    // 123
    let tree = Ast::Literal { value: Some(123) };
    assert_eq!(validate(&tree), vec![]);
}

#[test]
fn validate_too_large_literal() {
    // a twenty-digit literal does not fit and arrives missing
    let tree = Ast::Literal { value: "99999999999999999999".parse().ok() };
    assert_eq!(validate(&tree), vec![ValidationErrorKind::NumberTooLarge]);
}

#[test]
fn validate_ok_dice() {
    // 1d20
    let tree = Ast::Dice { count: Some(1), sides: Some(20), ops: vec![] };
    assert_eq!(validate(&tree), vec![]);
}

#[test]
fn validate_too_large_count_dice() {
    // 99999999999999999999d20
    let tree = Ast::Dice {
        count: "99999999999999999999".parse().ok(),
        sides: Some(20),
        ops: vec![],
    };
    assert_eq!(validate(&tree), vec![ValidationErrorKind::NumberTooLarge]);
}

#[test]
fn validate_too_large_sides_dice() {
    // 1d99999999999999999999kh2
    let tree = Ast::Dice {
        count: Some(1),
        sides: "99999999999999999999".parse().ok(),
        ops: vec![(SetOp::Keep, SetSel::Highest, Some(2))],
    };
    assert_eq!(validate(&tree), vec![ValidationErrorKind::NumberTooLarge]);
}

#[test]
fn validate_too_large_dice_op_num() {
    // 1d100rr<99999999999999999999
    let tree = Ast::Dice {
        count: Some(1),
        sides: Some(100),
        ops: vec![(SetOp::Reroll, SetSel::Less, "99999999999999999999".parse().ok())],
    };
    assert_eq!(validate(&tree), vec![ValidationErrorKind::NumberTooLarge]);
}

#[test]
fn validate_counts_every_missing_number() {
    let tree = Ast::BinaryExpr {
        op: BinaryOp::Add,
        lhs: Some(Box::new(Ast::Literal { value: None })),
        rhs: Some(Box::new(Ast::Dice { count: None, sides: None, ops: vec![] })),
    };
    assert_eq!(validate(&tree).len(), 3);
}
