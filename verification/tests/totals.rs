//! The total evaluator over hand-built arenas, and the set-operation
//! engine's observable behavior.

use dice::ast::{BinaryOp, SetOp, SetSel, UnaryOp};
use dice::database::{
    BinaryExpr, Database, Dice, Die, ExprKind, Expression, Literal, SetExpr, SetOperation,
    UnaryExpr,
};
use dice::total::ExprError;

fn keep(kind: ExprKind) -> Expression {
    Expression { kind, kept: true }
}

fn lit_node(v: u64) -> Expression {
    keep(ExprKind::Literal(Literal { values: vec![v], exploded: false }))
}

/// Builds a dice group whose dies were "rolled" to the given values.
fn build_dice(db: &mut Database, sides: u64, values: &[u64]) -> Expression {
    let mut dies = Vec::new();
    for v in values {
        let idx = db.allocate(lit_node(*v));
        dies.push(Die { sides, values: vec![idx], kept: true });
    }
    keep(ExprKind::Dice(Dice {
        count: values.len() as u64,
        sides,
        values: dies,
        ops: Vec::new(),
    }))
}

#[test]
fn total_literal() {
    let mut db = Database::new();
    let idx = db.allocate(lit_node(2));
    assert_eq!(dice::total::total(&db, idx), Ok(2));
}

#[test]
fn total_die() {
    let mut db = Database::new();
    let idx = db.allocate(lit_node(5));
    let die = Die { sides: 12, values: vec![idx], kept: true };
    assert_eq!(dice::total::total_die(&db, &die), Ok(5));
}

#[test]
fn total_dice() {
    let values = [1, 5, 8, 3, 4];
    let mut db = Database::new();
    let dice = build_dice(&mut db, 8, &values);
    let idx = db.allocate(dice);
    assert_eq!(dice::total::total(&db, idx), Ok(21));
}

#[test]
fn total_set() {
    let mut db = Database::new();
    let a = db.allocate(lit_node(5));
    let b = db.allocate(lit_node(13));
    let idx = db.allocate(keep(ExprKind::SetExpr(SetExpr { items: vec![a, b], ops: vec![] })));
    assert_eq!(dice::total::total(&db, idx), Ok(18));
}

#[test]
fn total_binary_expr() {
    // 20d rolls [18, 4, 11] minus the literal 5 gives 28
    let rolls = [18, 4, 11];
    let mut db = Database::new();
    let dice = build_dice(&mut db, 20, &rolls);
    let lhs = db.allocate(dice);
    let rhs = db.allocate(lit_node(5));
    let idx = db.allocate(keep(ExprKind::BinaryExpr(BinaryExpr {
        lhs,
        rhs,
        op: BinaryOp::Sub,
    })));
    assert_eq!(dice::total::total(&db, idx), Ok(28));
}

#[test]
fn total_unary_expr() {
    let mut db = Database::new();
    let e = db.allocate(lit_node(2));
    let idx = db.allocate(keep(ExprKind::UnaryExpr(UnaryExpr { expr: e, op: UnaryOp::Neg })));
    assert_eq!(dice::total::total(&db, idx), Ok(-2));
}

#[test]
fn dropped_nodes_contribute_nothing() {
    let mut db = Database::new();
    let a = db.allocate(lit_node(5));
    let b = db.allocate(Expression {
        kind: ExprKind::Literal(Literal { values: vec![13], exploded: false }),
        kept: false,
    });
    let idx = db.allocate(keep(ExprKind::SetExpr(SetExpr { items: vec![a, b], ops: vec![] })));
    assert_eq!(dice::total::total(&db, idx), Ok(5));
}

#[test]
fn rerolled_literal_counts_last_value_only() {
    // min/max and reroll push values; only the last counts unless exploded
    let mut db = Database::new();
    let idx = db.allocate(keep(ExprKind::Literal(Literal {
        values: vec![2, 7],
        exploded: false,
    })));
    assert_eq!(dice::total::total(&db, idx), Ok(7));
}

#[test]
fn exploded_literal_sums_all_values() {
    let mut db = Database::new();
    let idx = db.allocate(keep(ExprKind::Literal(Literal {
        values: vec![100, 42],
        exploded: true,
    })));
    assert_eq!(dice::total::total(&db, idx), Ok(142));
}

#[test]
fn round_trip_dice_minus_literal() {
    // Sub(Dice{2,20 rolled [5,15]}, Literal(5)) totals (5+15) - 5 = 15
    let mut db = Database::new();
    let dice = build_dice(&mut db, 20, &[5, 15]);
    let lhs = db.allocate(dice);
    let rhs = db.allocate(lit_node(5));
    let idx = db.allocate(keep(ExprKind::BinaryExpr(BinaryExpr {
        lhs,
        rhs,
        op: BinaryOp::Sub,
    })));
    assert_eq!(dice::total::total(&db, idx), Ok(15));
}

#[test]
fn overflow_is_reported() {
    let mut db = Database::new();
    let a = db.allocate(lit_node(u64::MAX));
    assert_eq!(dice::total::total(&db, a), Err(ExprError::Overflow));
}

#[test]
fn catches_invalid_set_operations() {
    let op = SetOperation { op: SetOp::Reroll, sel: SetSel::Highest, num: 2 };
    assert!(!op.validate());
}

#[test]
fn allows_valid_set_operations() {
    let op = SetOperation { op: SetOp::Keep, sel: SetSel::Highest, num: 5 };
    assert!(op.validate());
}

#[test]
fn min_with_comparison_selector_is_rejected() {
    let op = SetOperation { op: SetOp::Min, sel: SetSel::Greater, num: 3 };
    assert!(!op.validate());
}

#[test]
fn rejections_hold_for_every_number() {
    for num in [0u64, 1, 2, 10, 100, u64::MAX] {
        assert!(!SetOperation { op: SetOp::Reroll, sel: SetSel::Highest, num }.validate());
        assert!(!SetOperation { op: SetOp::Min, sel: SetSel::Greater, num }.validate());
    }
}

#[test]
fn empty_literal_history_reports_no_values() {
    // a literal with no recorded value cannot be totalled; lowering never
    // builds one, so the pipeline never reports this
    let mut db = Database::new();
    let idx = db.allocate(Expression {
        kind: ExprKind::Literal(Literal { values: vec![], exploded: false }),
        kept: true,
    });
    let die = Die { sides: 6, values: vec![idx], kept: true };
    assert_eq!(dice::total::total_die(&db, &die), Err(ExprError::NoValues));
}
