//! The lightweight pipeline: tree constructors, evaluation, totalling and
//! rendering of result trees.

use dice::roll::ast::{Child, InnerNode, Node, Op, SetOps, SetSelector};
use dice::roll::eval::{DiceRoll, EvalError, EvalNode};
use dice::roll::expr::{ExprError, Expression, TEST_SEED};

fn boxed_child(op: Op, left: Child, right: Child) -> Child {
    Some(Box::new(Node::Node(InnerNode { op, left, right })))
}

fn no_ops() -> SetOps {
    SetOps { keep: None, drop: None }
}

fn boxed(input_vec: Vec<Node>) -> Vec<Box<Node>> {
    input_vec.into_iter().map(|n| Box::new(n)).collect()
}

fn eval(head: Node) -> Result<EvalNode, ExprError> {
    Expression::from_seed(head, TEST_SEED).eval()
}

#[test]
fn test_node_constructors() {
    //  3d6 / 2 * 1d4 - 1 + 1d20
    assert_eq!(
        Node::Add(
            Node::Sub(
                Node::Mul(
                    Node::Div(Node::Dice(3, 6, None), Node::Number(2)),
                    Node::Dice(1, 4, None)
                ),
                Node::Number(1)
            ),
            Node::Dice(1, 20, None)
        ),
        Node::Node(InnerNode {
            op: Op::Add,
            left: boxed_child(
                Op::Sub,
                boxed_child(
                    Op::Mul,
                    boxed_child(
                        Op::Div,
                        boxed_child(Op::Dice { num: 3, sides: 6, ops: no_ops() }, None, None),
                        boxed_child(Op::Number(2), None, None)
                    ),
                    boxed_child(Op::Dice { num: 1, sides: 4, ops: no_ops() }, None, None)
                ),
                boxed_child(Op::Number(1), None, None)
            ),
            right: boxed_child(Op::Dice { num: 1, sides: 20, ops: no_ops() }, None, None),
        })
    )
}

#[test]
fn test_eval_single_num() {
    // 2
    assert_eq!(eval(Node::Number(2)).unwrap().value().unwrap(), 2);
}

#[test]
fn test_eval_single_num_op() {
    // 1 + 1
    assert_eq!(
        eval(Node::Add(Node::Number(1), Node::Number(1))).unwrap().value().unwrap(),
        2
    );
}

#[test]
fn test_eval_no_dice() {
    // 4 / 2 * 3 - (-5) + 1 = 12
    assert_eq!(
        eval(Node::Add(
            Node::Sub(
                Node::Mul(Node::Div(Node::Number(4), Node::Number(2)), Node::Number(3)),
                Node::Number(-5),
            ),
            Node::Number(1),
        ))
        .unwrap()
        .value()
        .unwrap(),
        12
    );
}

#[test]
fn test_zero_sides_err() {
    // 1d0
    assert_eq!(
        eval(Node::Dice(1, 0, None)).unwrap_err(),
        ExprError::ZeroSides,
    )
}

#[test]
fn test_expr_not_seeded() {
    // 1d20 (?) + 3
    assert!(
        Expression::new(Node::Add(Node::Dice(1, 20, None), Node::Number(3)))
            .eval()
            .is_ok()
    )
}

#[test]
fn test_eval_dice_structure() {
    // an evaluated dice group records one kept roll per requested die
    let e = eval(Node::Dice(3, 20, None)).unwrap();
    match &e {
        EvalNode::Dice { num, sides, rolls } => {
            assert_eq!(*num, 3);
            assert_eq!(*sides, 20);
            assert_eq!(rolls.len(), 3);
            for r in rolls {
                assert!(r.kept);
            }
        }
        _ => panic!(),
    }
    let total = e.value().unwrap();
    assert!(3 <= total && total <= 60);
}

#[test]
fn test_eval_set_unary_minus() {
    // -(1d6, -2)
    assert_eq!(
        eval(Node::Neg(Node::SetExpr {
            set: boxed(vec![Node::Dice(1, 6, None), Node::Number(-2)]),
            ops: no_ops(),
        }))
        .unwrap()
        .value()
        .unwrap(),
        -2
    );
}

#[test]
fn test_expression_eval_with_dice() {
    // 1d20 (14)
    assert_eq!(eval(Node::Dice(1, 20, None)).unwrap().value().unwrap(), 14);

    // 6d6 (23)
    assert_eq!(eval(Node::Dice(6, 6, None)).unwrap().value().unwrap(), 23);

    // 4d12 (27) + 4
    assert_eq!(
        eval(Node::Add(Node::Dice(4, 12, None), Node::Number(4)))
            .unwrap()
            .value()
            .unwrap(),
        31
    );

    // 2d10 (10) + 2 * 3d4 (8) - 5
    assert_eq!(
        eval(Node::Add(
            Node::Dice(2, 10, None),
            Node::Sub(Node::Mul(Node::Number(2), Node::Dice(3, 4, None)), Node::Number(5),),
        ))
        .unwrap()
        .value()
        .unwrap(),
        21
    );
}

#[test]
fn test_eval_dice_unary_minus() {
    // -3d20 (30)
    assert_eq!(
        eval(Node::Neg(Node::Dice(3, 20, None))).unwrap().value().unwrap(),
        -30
    );
}

#[test]
fn test_eval_seeded_twice_agrees() {
    // the same seeded expression evaluates to the same rolls
    let v1 = eval(Node::Dice(6, 6, None)).unwrap().value().unwrap();
    let v2 = eval(Node::Dice(6, 6, None)).unwrap().value().unwrap();
    assert_eq!(v1, v2);
}

#[test]
fn test_display() {
    assert_eq!(
        EvalNode::Add(
            EvalNode::Sub(
                EvalNode::Number(1),
                EvalNode::Dice { num: 3, sides: 6, rolls: DiceRoll::build(vec![1, 4, 2]) }
            ),
            EvalNode::Mul(
                EvalNode::Dice { num: 1, sides: 20, rolls: DiceRoll::build(vec![15]) },
                EvalNode::Div(EvalNode::Number(6), EvalNode::Number(2))
            )
        )
        .to_string(),
        "1 - 3d6 (1, 4, 2) + 1d20 (15) * 6 / 2"
    );
}

#[test]
fn test_display_empty_set() {
    assert_eq!(
        EvalNode::SetExpr(vec![]).to_string(),
        "()"
    );
}

#[test]
fn test_display_one_length_set() {
    assert_eq!(
        EvalNode::SetExpr(vec![EvalNode::Number(3)]).to_string(),
        "(3,)"
    );
}

#[test]
fn test_display_set() {
    assert_eq!(
        EvalNode::SetExpr(vec![
            EvalNode::Number(2),
            EvalNode::Add(
                EvalNode::SetExpr(vec![EvalNode::Number(-1)]),
                EvalNode::Dice { num: 3, sides: 6, rolls: DiceRoll::build(vec![3, 2, 1]) },
            ),
            EvalNode::Dice { num: 1, sides: 20, rolls: DiceRoll::build(vec![20]) },
        ])
        .to_string(),
        "(2, (-1,) + 3d6 (3, 2, 1), 1d20 (20))"
    );
}

#[test]
fn test_display_unary_minus() {
    assert_eq!(
        EvalNode::Neg(EvalNode::SetExpr(vec![
            EvalNode::Number(2),
            EvalNode::Dice { num: 1, sides: 6, rolls: DiceRoll::build(vec![3]) }
        ]))
        .to_string(),
        "-(2, 1d6 (3))"
    );
}

#[test]
fn test_display_dropped_roll() {
    assert_eq!(DiceRoll::new(7, false).to_string(), "~~7~~");
    assert_eq!(DiceRoll::new(7, true).to_string(), "7");
}

#[test]
fn test_value() {
    assert_eq!(
        EvalNode::Add(
            EvalNode::Sub(
                EvalNode::Number(1),
                EvalNode::Dice { num: 3, sides: 6, rolls: DiceRoll::build(vec![1, 4, 2]) }
            ),
            EvalNode::Mul(
                EvalNode::Dice { num: 1, sides: 20, rolls: DiceRoll::build(vec![15]) },
                EvalNode::Div(EvalNode::Number(6), EvalNode::Number(2))
            )
        )
        .value()
        .unwrap(),
        39
    );
}

#[test]
fn test_empty_set_value() {
    assert_eq!(EvalNode::SetExpr(vec![]).value().unwrap(), 0);
}

#[test]
fn test_set_value() {
    assert_eq!(
        EvalNode::SetExpr(vec![
            EvalNode::Number(-3),
            EvalNode::Dice { num: 1, sides: 20, rolls: DiceRoll::build(vec![16]) },
            EvalNode::Add(
                EvalNode::Number(1),
                EvalNode::Dice { num: 1, sides: 12, rolls: DiceRoll::build(vec![6]) }
            )
        ])
        .value()
        .unwrap(),
        20
    );
}

#[test]
fn test_unary_minus_value() {
    assert_eq!(
        EvalNode::Neg(EvalNode::Dice { num: 2, sides: 4, rolls: DiceRoll::build(vec![2, 3]) })
            .value()
            .unwrap(),
        -5
    );
}

#[test]
fn test_zero_division_err() {
    assert_eq!(
        EvalNode::Div(EvalNode::Number(1), EvalNode::Number(0)).value().unwrap_err(),
        EvalError::ZeroDivision,
    )
}

#[test]
fn test_dropped_rolls_do_not_count() {
    assert_eq!(
        EvalNode::Dice {
            num: 2,
            sides: 6,
            rolls: vec![DiceRoll::new(3, false), DiceRoll::new(5, true)],
        }
        .value()
        .unwrap(),
        5
    );
}

#[test]
fn build_set_ops() {
    let ops = SetOps::build(vec![
        ("k".to_string(), SetSelector::Highest(2)),
        ("l".to_string(), SetSelector::Lowest(1)),
    ]);
    assert_eq!(ops.keep, Some(SetSelector::Highest(2)));
    assert_eq!(ops.drop, Some(SetSelector::Lowest(1)));
}

#[test]
fn build_set_ops_last_wins() {
    let ops = SetOps::build(vec![
        ("k".to_string(), SetSelector::Highest(2)),
        ("k".to_string(), SetSelector::Literal(6)),
    ]);
    assert_eq!(ops.keep, Some(SetSelector::Literal(6)));
    assert_eq!(ops.drop, None);
}

#[test]
fn value_overflow_is_reported() {
    assert_eq!(
        EvalNode::Add(EvalNode::Number(i32::MAX), EvalNode::Number(1)).value().unwrap_err(),
        EvalError::Overflow,
    );
}

#[test]
fn one_sided_dice_roll_ones() {
    let e = eval(Node::Dice(4, 1, None)).unwrap();
    assert_eq!(e.value().unwrap(), 4);
    assert_eq!(e.to_string(), "4d1 (1, 1, 1, 1)");
}
