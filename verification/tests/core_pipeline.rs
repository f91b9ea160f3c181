//! End-to-end runs of the arena pipeline: lowering, resolution, totalling.

use dice::ast::{Ast, BinaryOp, SetOp, SetSel, UnaryOp};
use dice::database::{Database, DatabaseError, ExprKind};
use dice::lower::lower;
use dice::ops::{resolve, ResolveError};
use dice::rng::RollContext;
use dice::total::{total, ExprError};
use dice::{evaluate_seeded, RollError};

fn lit(n: u64) -> Ast {
    Ast::Literal { value: Some(n) }
}

fn boxed(a: Ast) -> Option<Box<Ast>> {
    Some(Box::new(a))
}

#[test]
fn raise_binary_expr() {
    // 1+2
    let tree = Ast::BinaryExpr { op: BinaryOp::Add, lhs: boxed(lit(1)), rhs: boxed(lit(2)) };
    let mut db = Database::new();
    let mut ctx = RollContext::from_seed(0);
    let root = lower(&tree, &mut db, &mut ctx).unwrap();
    match &db.get(root).kind {
        ExprKind::BinaryExpr(b) => {
            assert_eq!(b.op, BinaryOp::Add);
            match &db.get(b.lhs).kind {
                ExprKind::Literal(l) => assert_eq!(l.values, vec![1]),
                _ => panic!(),
            }
            match &db.get(b.rhs).kind {
                ExprKind::Literal(l) => assert_eq!(l.values, vec![2]),
                _ => panic!(),
            }
        }
        _ => panic!(),
    }
    assert_eq!(total(&db, root), Ok(3));
}

#[test]
fn raise_dice() {
    // 2d20kl1rr<5
    let tree = Ast::Dice {
        count: Some(2),
        sides: Some(20),
        ops: vec![
            (SetOp::Keep, SetSel::Lowest, Some(1)),
            (SetOp::Reroll, SetSel::Less, Some(5)),
        ],
    };
    let mut db = Database::new();
    let mut ctx = RollContext::from_seed(0);
    let root = lower(&tree, &mut db, &mut ctx).unwrap();
    match &db.get(root).kind {
        ExprKind::Dice(d) => {
            assert_eq!(d.count, 2);
            assert_eq!(d.sides, 20);
            assert_eq!(d.values.len(), 2);
            assert_eq!(d.ops.len(), 2);
            assert_eq!(d.ops[0].op, SetOp::Keep);
            assert_eq!(d.ops[0].sel, SetSel::Lowest);
            assert_eq!(d.ops[0].num, 1);
            assert_eq!(d.ops[1].op, SetOp::Reroll);
            assert_eq!(d.ops[1].sel, SetSel::Less);
            assert_eq!(d.ops[1].num, 5);
        }
        _ => panic!(),
    }
}

#[test]
fn raise_literal() {
    let tree = lit(12345);
    let mut db = Database::new();
    let mut ctx = RollContext::from_seed(0);
    let root = lower(&tree, &mut db, &mut ctx).unwrap();
    match &db.get(root).kind {
        ExprKind::Literal(l) => assert_eq!(l.values, vec![12345]),
        _ => panic!(),
    }
    assert_eq!(total(&db, root), Ok(12345));
}

#[test]
fn raise_set() {
    // (1,2d10)e4
    let tree = Ast::SetExpr {
        items: vec![
            lit(1),
            Ast::Dice { count: Some(2), sides: Some(10), ops: vec![] },
        ],
        ops: vec![(SetOp::Explode, SetSel::Number, Some(4))],
    };
    let mut db = Database::new();
    let mut ctx = RollContext::from_seed(0);
    let root = lower(&tree, &mut db, &mut ctx).unwrap();
    match &db.get(root).kind {
        ExprKind::SetExpr(s) => {
            assert_eq!(s.items.len(), 2);
            assert_eq!(s.ops.len(), 1);
            assert_eq!(s.ops[0].op, SetOp::Explode);
            assert_eq!(s.ops[0].sel, SetSel::Number);
            assert_eq!(s.ops[0].num, 4);
        }
        _ => panic!(),
    }
}

#[test]
fn raise_unary_expr() {
    // -3
    let tree = Ast::UnaryExpr { op: UnaryOp::Neg, expr: boxed(lit(3)) };
    let mut db = Database::new();
    let mut ctx = RollContext::from_seed(0);
    let root = lower(&tree, &mut db, &mut ctx).unwrap();
    match &db.get(root).kind {
        ExprKind::UnaryExpr(u) => {
            assert_eq!(u.op, UnaryOp::Neg);
            match &db.get(u.expr).kind {
                ExprKind::Literal(l) => assert_eq!(l.values, vec![3]),
                _ => panic!(),
            }
        }
        _ => panic!(),
    }
    assert_eq!(total(&db, root), Ok(-3));
}

#[test]
fn lower_binary_expr() {
    // 1 + 2: children are allocated before the root
    let tree = Ast::BinaryExpr { op: BinaryOp::Add, lhs: boxed(lit(1)), rhs: boxed(lit(2)) };
    let mut db = Database::new();
    let mut ctx = RollContext::from_seed(0);
    let root = lower(&tree, &mut db, &mut ctx).unwrap();
    assert_eq!(db.len(), 3);
    assert_eq!(root, 2);
}

#[test]
fn lower_dice_no_ops() {
    // 1d12
    let tree = Ast::Dice { count: Some(1), sides: Some(12), ops: vec![] };
    let res = evaluate_seeded(&tree, 0).unwrap();
    match &res.database.get(res.root).kind {
        ExprKind::Dice(d) => {
            assert_eq!(d.count, 1);
            assert_eq!(d.sides, 12);
            assert_eq!(d.values.len(), 1);
            assert!(d.ops.is_empty());
        }
        _ => panic!(),
    }
    assert!(1 <= res.total && res.total <= 12);
}

#[test]
fn lower_dice_implicit_count() {
    // d20: the parser supplies the implicit count of one
    let tree = Ast::Dice { count: Some(1), sides: Some(20), ops: vec![] };
    let res = evaluate_seeded(&tree, 0).unwrap();
    match &res.database.get(res.root).kind {
        ExprKind::Dice(d) => {
            assert_eq!(d.count, 1);
            assert_eq!(d.sides, 20);
            assert_eq!(d.values.len(), 1);
        }
        _ => panic!(),
    }
}

#[test]
fn lower_percentage_dice() {
    // 3d%: the parser expands % to 100 sides
    let tree = Ast::Dice { count: Some(3), sides: Some(100), ops: vec![] };
    let res = evaluate_seeded(&tree, 0).unwrap();
    match &res.database.get(res.root).kind {
        ExprKind::Dice(d) => {
            assert_eq!(d.count, 3);
            assert_eq!(d.sides, 100);
            assert_eq!(d.values.len(), 3);
        }
        _ => panic!(),
    }
}

#[test]
fn lower_dice_one_op() {
    // 2d20kh1
    let tree = Ast::Dice {
        count: Some(2),
        sides: Some(20),
        ops: vec![(SetOp::Keep, SetSel::Highest, Some(1))],
    };
    let mut db = Database::new();
    let mut ctx = RollContext::from_seed(1);
    let root = lower(&tree, &mut db, &mut ctx).unwrap();
    match &db.get(root).kind {
        ExprKind::Dice(d) => {
            assert_eq!(d.count, 2);
            assert_eq!(d.values.len(), 2);
            assert_eq!(d.ops.len(), 1);
            assert_eq!(d.ops[0].op, SetOp::Keep);
            assert_eq!(d.ops[0].sel, SetSel::Highest);
            assert_eq!(d.ops[0].num, 1);
        }
        _ => panic!(),
    }
}

#[test]
fn lower_dice_multiple_ops() {
    // 2d20pl1ro<2e5
    let tree = Ast::Dice {
        count: Some(2),
        sides: Some(20),
        ops: vec![
            (SetOp::Drop, SetSel::Lowest, Some(1)),
            (SetOp::RerollOnce, SetSel::Less, Some(2)),
            (SetOp::Explode, SetSel::Number, Some(5)),
        ],
    };
    let mut db = Database::new();
    let mut ctx = RollContext::from_seed(1);
    let root = lower(&tree, &mut db, &mut ctx).unwrap();
    match &db.get(root).kind {
        ExprKind::Dice(d) => {
            assert_eq!(d.ops.len(), 3);
            assert_eq!(d.ops[0].op, SetOp::Drop);
            assert_eq!(d.ops[1].op, SetOp::RerollOnce);
            assert_eq!(d.ops[2].op, SetOp::Explode);
        }
        _ => panic!(),
    }
}

#[test]
fn lower_literal() {
    let tree = lit(999);
    let res = evaluate_seeded(&tree, 0).unwrap();
    assert_eq!(res.total, 999);
}

#[test]
fn lower_empty_set() {
    // ()
    let tree = Ast::SetExpr { items: vec![], ops: vec![] };
    let res = evaluate_seeded(&tree, 0).unwrap();
    assert_eq!(res.total, 0);
}

#[test]
fn lower_singleton_set() {
    // (2,)
    let tree = Ast::SetExpr { items: vec![lit(2)], ops: vec![] };
    let res = evaluate_seeded(&tree, 0).unwrap();
    match &res.database.get(res.root).kind {
        ExprKind::SetExpr(s) => assert_eq!(s.items.len(), 1),
        _ => panic!(),
    }
    assert_eq!(res.total, 2);
}

#[test]
fn lower_set() {
    // (-10, 8d6, 3)
    let tree = Ast::SetExpr {
        items: vec![
            Ast::UnaryExpr { op: UnaryOp::Neg, expr: boxed(lit(10)) },
            Ast::Dice { count: Some(8), sides: Some(6), ops: vec![] },
            lit(3),
        ],
        ops: vec![],
    };
    let res = evaluate_seeded(&tree, 0).unwrap();
    match &res.database.get(res.root).kind {
        ExprKind::SetExpr(s) => assert_eq!(s.items.len(), 3),
        _ => panic!(),
    }
    // eight d6 rolls land between 8 and 48; the set adds -10 and 3
    assert!(-10 + 8 + 3 <= res.total && res.total <= -10 + 48 + 3);
}

#[test]
fn lower_set_with_ops() {
    // (100, 2d100)e100: lowering keeps the operation for resolution
    let tree = Ast::SetExpr {
        items: vec![
            lit(100),
            Ast::Dice { count: Some(2), sides: Some(100), ops: vec![] },
        ],
        ops: vec![(SetOp::Explode, SetSel::Number, Some(100))],
    };
    let mut db = Database::new();
    let mut ctx = RollContext::from_seed(0);
    let root = lower(&tree, &mut db, &mut ctx).unwrap();
    match &db.get(root).kind {
        ExprKind::SetExpr(s) => {
            assert_eq!(s.items.len(), 2);
            assert_eq!(s.ops.len(), 1);
            assert_eq!(s.ops[0].op, SetOp::Explode);
            assert_eq!(s.ops[0].num, 100);
        }
        _ => panic!(),
    }
}

#[test]
fn lower_unary_expr() {
    // -3d4
    let tree = Ast::UnaryExpr {
        op: UnaryOp::Neg,
        expr: boxed(Ast::Dice { count: Some(3), sides: Some(4), ops: vec![] }),
    };
    let res = evaluate_seeded(&tree, 0).unwrap();
    assert!(-12 <= res.total && res.total <= -3);
}

#[test]
fn lower_binary_expr_without_rhs() {
    // 10 -: the missing operand becomes a node that totals as zero
    let tree = Ast::BinaryExpr { op: BinaryOp::Sub, lhs: boxed(lit(10)), rhs: None };
    let res = evaluate_seeded(&tree, 0).unwrap();
    match &res.database.get(res.root).kind {
        ExprKind::BinaryExpr(b) => {
            assert!(matches!(res.database.get(b.rhs).kind, ExprKind::Missing));
            assert!(!res.database.get(b.rhs).kept);
        }
        _ => panic!(),
    }
    assert_eq!(res.total, 10);
}

#[test]
fn lower_unary_expr_without_expr() {
    // -
    let tree = Ast::UnaryExpr { op: UnaryOp::Neg, expr: None };
    let res = evaluate_seeded(&tree, 0).unwrap();
    assert_eq!(res.total, 0);
}

#[test]
fn missing_literal_aborts_lowering() {
    // a literal whose number did not fit is required, so lowering fails
    let tree = Ast::BinaryExpr {
        op: BinaryOp::Add,
        lhs: boxed(Ast::Literal { value: None }),
        rhs: boxed(lit(2)),
    };
    assert_eq!(
        evaluate_seeded(&tree, 0).err(),
        Some(RollError::Database(DatabaseError::Missing))
    );
}

#[test]
fn missing_op_num_aborts_lowering() {
    let tree = Ast::Dice {
        count: Some(2),
        sides: Some(6),
        ops: vec![(SetOp::Keep, SetSel::Highest, None)],
    };
    assert_eq!(
        evaluate_seeded(&tree, 0).err(),
        Some(RollError::Database(DatabaseError::Missing))
    );
}

#[test]
fn divide_by_zero_is_reported() {
    // 1/0
    let tree = Ast::BinaryExpr { op: BinaryOp::Div, lhs: boxed(lit(1)), rhs: boxed(lit(0)) };
    assert_eq!(
        evaluate_seeded(&tree, 0).err(),
        Some(RollError::Expr(ExprError::DivideByZero))
    );
}

#[test]
fn rng_is_deterministic() {
    let mut c1 = RollContext::from_seed(9);
    let mut c2 = RollContext::from_seed(9);
    let r1 = c1.roll_many(20, 10);
    let r2 = c2.roll_many(20, 10);
    assert_eq!(r1, r2);
}

#[test]
fn relowering_reproduces_rolls() {
    // the same tree lowered twice under the same seed rolls identically
    let tree = Ast::BinaryExpr {
        op: BinaryOp::Add,
        lhs: boxed(Ast::Dice { count: Some(4), sides: Some(12), ops: vec![] }),
        rhs: boxed(Ast::Dice { count: Some(3), sides: Some(6), ops: vec![] }),
    };
    let a = evaluate_seeded(&tree, 123).unwrap();
    let b = evaluate_seeded(&tree, 123).unwrap();
    assert_eq!(a.database, b.database);
    assert_eq!(a.total, b.total);
}

#[test]
fn reroll_without_limit_reports() {
    // 1d1rr1 rerolls forever: every roll of a one-sided die is 1
    let tree = Ast::Dice {
        count: Some(1),
        sides: Some(1),
        ops: vec![(SetOp::Reroll, SetSel::Number, Some(1))],
    };
    assert_eq!(
        evaluate_seeded(&tree, 0).err(),
        Some(RollError::Resolve(ResolveError::RerollLimit))
    );
}

#[test]
fn explode_on_set_is_rejected() {
    // only keep and drop are legal on a set
    let tree = Ast::SetExpr {
        items: vec![lit(100), Ast::Dice { count: Some(2), sides: Some(100), ops: vec![] }],
        ops: vec![(SetOp::Explode, SetSel::Number, Some(100))],
    };
    assert_eq!(
        evaluate_seeded(&tree, 0).err(),
        Some(RollError::Resolve(ResolveError::InvalidOperation))
    );
}

/// Finds a seed whose first roll of a `sides`-sided die is `wanted`.
fn seed_rolling(sides: u64, wanted: u64) -> u64 {
    for seed in 0..100_000u64 {
        let mut ctx = RollContext::from_seed(seed);
        if ctx.roll_many(sides, 1)[0] == wanted {
            return seed;
        }
    }
    panic!("no such seed in range");
}

/// Finds a seed whose first two rolls of a `sides`-sided die are `wanted`.
fn seed_rolling_two(sides: u64, wanted: [u64; 2]) -> u64 {
    for seed in 0..1_000_000u64 {
        let mut ctx = RollContext::from_seed(seed);
        if ctx.roll_many(sides, 2) == wanted {
            return seed;
        }
    }
    panic!("no such seed in range");
}

#[test]
fn one_d20_minus_two() {
    // with a seed fixed so that 1d20 rolls 14, "1d20 - 2" totals 12 and
    // the die shows the one live value 14
    let seed = seed_rolling(20, 14);
    let tree = Ast::BinaryExpr {
        op: BinaryOp::Sub,
        lhs: boxed(Ast::Dice { count: Some(1), sides: Some(20), ops: vec![] }),
        rhs: boxed(lit(2)),
    };
    let res = evaluate_seeded(&tree, seed).unwrap();
    assert_eq!(res.total, 12);
    match &res.database.get(res.root).kind {
        ExprKind::BinaryExpr(b) => match &res.database.get(b.lhs).kind {
            ExprKind::Dice(d) => {
                assert_eq!(d.values.len(), 1);
                assert_eq!(d.values[0].values.len(), 1);
                match &res.database.get(d.values[0].values[0]).kind {
                    ExprKind::Literal(l) => assert_eq!(l.values, vec![14]),
                    _ => panic!(),
                }
            }
            _ => panic!(),
        },
        _ => panic!(),
    }
}

#[test]
fn two_d6_keep_highest_one() {
    // 2d6kh1 with rolls [3, 5]: the second die is kept, the first dropped,
    // and the total is 5
    let seed = seed_rolling_two(6, [3, 5]);
    let tree = Ast::Dice {
        count: Some(2),
        sides: Some(6),
        ops: vec![(SetOp::Keep, SetSel::Highest, Some(1))],
    };
    let res = evaluate_seeded(&tree, seed).unwrap();
    match &res.database.get(res.root).kind {
        ExprKind::Dice(d) => {
            assert!(!d.values[0].kept);
            assert!(d.values[1].kept);
        }
        _ => panic!(),
    }
    assert_eq!(res.total, 5);
}

#[test]
fn keep_highest_keeps_min_of_num_and_count() {
    // for every requested number, a keep-highest leaves exactly
    // min(number, count) dice standing
    for num in 0..6u64 {
        let tree = Ast::Dice {
            count: Some(4),
            sides: Some(10),
            ops: vec![(SetOp::Keep, SetSel::Highest, Some(num))],
        };
        let res = evaluate_seeded(&tree, 99).unwrap();
        match &res.database.get(res.root).kind {
            ExprKind::Dice(d) => {
                let kept = d.values.iter().filter(|die| die.kept).count() as u64;
                assert_eq!(kept, num.min(4));
            }
            _ => panic!(),
        }
    }
}

#[test]
fn total_unary() {
    // -5
    let tree = Ast::UnaryExpr { op: UnaryOp::Neg, expr: boxed(lit(5)) };
    assert_eq!(evaluate_seeded(&tree, 3).unwrap().total, -5);
}

#[test]
fn total_binary() {
    // 1d12 - 2: the expected value comes from a twin stream with the
    // same seed
    let seed = 77;
    let mut twin = RollContext::from_seed(seed);
    let roll = twin.roll_many(12, 1)[0] as i64;
    let tree = Ast::BinaryExpr {
        op: BinaryOp::Sub,
        lhs: boxed(Ast::Dice { count: Some(1), sides: Some(12), ops: vec![] }),
        rhs: boxed(lit(2)),
    };
    assert_eq!(evaluate_seeded(&tree, seed).unwrap().total, roll - 2);
}

#[test]
fn total_expr() {
    // 5 * 1d8 - 6
    let seed = 78;
    let mut twin = RollContext::from_seed(seed);
    let roll = twin.roll_many(8, 1)[0] as i64;
    let tree = Ast::BinaryExpr {
        op: BinaryOp::Sub,
        lhs: boxed(Ast::BinaryExpr {
            op: BinaryOp::Mul,
            lhs: boxed(lit(5)),
            rhs: boxed(Ast::Dice { count: Some(1), sides: Some(8), ops: vec![] }),
        }),
        rhs: boxed(lit(6)),
    };
    assert_eq!(evaluate_seeded(&tree, seed).unwrap().total, 5 * roll - 6);
}

#[test]
fn total_set_of_literal_and_die() {
    // (1, 1d6)
    let seed = 79;
    let mut twin = RollContext::from_seed(seed);
    let roll = twin.roll_many(6, 1)[0] as i64;
    let tree = Ast::SetExpr {
        items: vec![lit(1), Ast::Dice { count: Some(1), sides: Some(6), ops: vec![] }],
        ops: vec![],
    };
    assert_eq!(evaluate_seeded(&tree, seed).unwrap().total, 1 + roll);
}
