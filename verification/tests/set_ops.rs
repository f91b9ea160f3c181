//! The set-operation engine end to end: keep, drop, reroll, explode,
//! min and max against seeded rolls.

use dice::ast::{Ast, SetOp, SetSel};
use dice::database::ExprKind;
use dice::evaluate_seeded;
use dice::total::total;

fn dice_tree(count: u64, sides: u64, ops: Vec<(SetOp, SetSel, Option<u64>)>) -> Ast {
    Ast::Dice { count: Some(count), sides: Some(sides), ops }
}

/// The per-die totals and kept flags of the resolved group at the root.
fn die_states(tree: &Ast, seed: u64) -> Vec<(i64, bool)> {
    let res = evaluate_seeded(tree, seed).unwrap();
    match &res.database.get(res.root).kind {
        ExprKind::Dice(d) => d
            .values
            .iter()
            .map(|die| {
                let mut live = dice::total::total_die(&res.database, die).unwrap();
                if !die.kept {
                    // read the underlying value even of a dropped die
                    let mut raw = die.clone();
                    raw.kept = true;
                    live = dice::total::total_die(&res.database, &raw).unwrap();
                }
                (live, die.kept)
            })
            .collect(),
        _ => panic!(),
    }
}

#[test]
fn keep_highest_dice() {
    // 2d20kh1: exactly one die stays, and no dropped die beats it
    let tree = dice_tree(2, 20, vec![(SetOp::Keep, SetSel::Highest, Some(1))]);
    let states = die_states(&tree, 42);
    assert_eq!(states.len(), 2);
    assert_eq!(states.iter().filter(|(_, kept)| *kept).count(), 1);
    let kept_value = states.iter().find(|(_, k)| *k).unwrap().0;
    for (v, k) in &states {
        if !k {
            assert!(*v <= kept_value);
        }
    }
}

#[test]
fn drop_highest_dice() {
    // 2d20ph1: exactly one die is dropped, and it beats the survivor
    let tree = dice_tree(2, 20, vec![(SetOp::Drop, SetSel::Highest, Some(1))]);
    let states = die_states(&tree, 42);
    assert_eq!(states.iter().filter(|(_, kept)| !*kept).count(), 1);
    let dropped_value = states.iter().find(|(_, k)| !*k).unwrap().0;
    for (v, k) in &states {
        if *k {
            assert!(*v <= dropped_value);
        }
    }
}

#[test]
fn keep_highest_total_is_max() {
    // the group's total after kh1 equals its best die
    let plain = dice_tree(3, 20, vec![]);
    let trimmed = dice_tree(3, 20, vec![(SetOp::Keep, SetSel::Highest, Some(1))]);
    let seed = 7;
    let plain_res = evaluate_seeded(&plain, seed).unwrap();
    let best = match &plain_res.database.get(plain_res.root).kind {
        ExprKind::Dice(d) => d
            .values
            .iter()
            .map(|die| dice::total::total_die(&plain_res.database, die).unwrap())
            .max()
            .unwrap(),
        _ => panic!(),
    };
    let trimmed_res = evaluate_seeded(&trimmed, seed).unwrap();
    assert_eq!(trimmed_res.total, best);
}

#[test]
fn reroll_highest_once_dice() {
    // 2d20roh1: the rerolled die carries two values, the other one
    let tree = dice_tree(2, 20, vec![(SetOp::RerollOnce, SetSel::Highest, Some(1))]);
    let res = evaluate_seeded(&tree, 42).unwrap();
    match &res.database.get(res.root).kind {
        ExprKind::Dice(d) => {
            let mut lengths: Vec<usize> = d.values.iter().map(|die| die.values.len()).collect();
            lengths.sort();
            assert_eq!(lengths, vec![1, 2]);
        }
        _ => panic!(),
    }
}

#[test]
fn reroll_lowest_once_keep_highest_dice() {
    // 2d20rol1kh1: after the reroll, exactly one die survives the keep
    let tree = dice_tree(
        2,
        20,
        vec![
            (SetOp::RerollOnce, SetSel::Lowest, Some(1)),
            (SetOp::Keep, SetSel::Highest, Some(1)),
        ],
    );
    let states = die_states(&tree, 42);
    assert_eq!(states.iter().filter(|(_, kept)| *kept).count(), 1);
}

#[test]
fn explode_greater_than_10_dice() {
    // 2d20e>10: every die that shows more than 10 accumulates an extra roll
    let tree = dice_tree(2, 20, vec![(SetOp::Explode, SetSel::Greater, Some(10))]);
    let res = evaluate_seeded(&tree, 42).unwrap();
    match &res.database.get(res.root).kind {
        ExprKind::Dice(d) => {
            for die in &d.values {
                let exploded = die.values.iter().any(|v| match &res.database.get(*v).kind {
                    ExprKind::Literal(l) => l.exploded,
                    _ => false,
                });
                assert_eq!(exploded, die.values.len() > 1);
            }
        }
        _ => panic!(),
    }
}

#[test]
fn explode_accumulates_values() {
    // a one-sided die exploding on 1 gains exactly one extra roll:
    // after exploding, the die is excluded from reselection
    let tree = dice_tree(1, 1, vec![(SetOp::Explode, SetSel::Number, Some(1))]);
    let res = evaluate_seeded(&tree, 0).unwrap();
    match &res.database.get(res.root).kind {
        ExprKind::Dice(d) => {
            assert_eq!(d.values.len(), 1);
            assert_eq!(d.values[0].values.len(), 2);
        }
        _ => panic!(),
    }
    // both accumulated ones count
    assert_eq!(res.total, 2);
}

#[test]
fn reroll_add_5_dice() {
    // 2d20ra5: dice showing 5 gain one extra roll, nothing iterates
    let tree = dice_tree(2, 20, vec![(SetOp::RerollAdd, SetSel::Number, Some(5))]);
    let res = evaluate_seeded(&tree, 42).unwrap();
    match &res.database.get(res.root).kind {
        ExprKind::Dice(d) => {
            assert_eq!(d.values.len(), 2);
            for die in &d.values {
                assert!(die.values.len() <= 2);
            }
        }
        _ => panic!(),
    }
}

#[test]
fn keep_highest_set() {
    // (2d20, 7, 25)kh1 keeps only the literal 25
    let tree = Ast::SetExpr {
        items: vec![
            Ast::Dice { count: Some(2), sides: Some(20), ops: vec![] },
            Ast::Literal { value: Some(7) },
            Ast::Literal { value: Some(25) },
        ],
        ops: vec![(SetOp::Keep, SetSel::Highest, Some(1))],
    };
    let res = evaluate_seeded(&tree, 42).unwrap();
    match &res.database.get(res.root).kind {
        ExprKind::SetExpr(s) => {
            assert!(!res.database.get(s.items[0]).kept);
            assert!(!res.database.get(s.items[1]).kept);
            assert!(res.database.get(s.items[2]).kept);
        }
        _ => panic!(),
    }
    assert_eq!(res.total, 25);
}

#[test]
fn min_forces_low_dice_up() {
    // 3d6mi6: every die totals 6 afterwards
    let tree = dice_tree(3, 6, vec![(SetOp::Min, SetSel::Number, Some(6))]);
    let res = evaluate_seeded(&tree, 5).unwrap();
    assert_eq!(res.total, 18);
}

#[test]
fn max_forces_high_dice_down() {
    // 3d6ma1: every die totals 1 afterwards
    let tree = dice_tree(3, 6, vec![(SetOp::Max, SetSel::Number, Some(1))]);
    let res = evaluate_seeded(&tree, 5).unwrap();
    assert_eq!(res.total, 3);
}

#[test]
fn forced_value_keeps_history() {
    // after 1d1mi3 the die's literal holds the roll and the forced value
    let tree = dice_tree(1, 1, vec![(SetOp::Min, SetSel::Number, Some(3))]);
    let res = evaluate_seeded(&tree, 5).unwrap();
    match &res.database.get(res.root).kind {
        ExprKind::Dice(d) => {
            let lit_idx = d.values[0].values[0];
            match &res.database.get(lit_idx).kind {
                ExprKind::Literal(l) => assert_eq!(l.values, vec![1, 3]),
                _ => panic!(),
            }
        }
        _ => panic!(),
    }
    assert_eq!(res.total, 3);
}

#[test]
fn reroll_below_threshold_settles() {
    // 4d6rr<3: afterwards no die shows less than 3
    let tree = dice_tree(4, 6, vec![(SetOp::Reroll, SetSel::Less, Some(3))]);
    let res = evaluate_seeded(&tree, 11).unwrap();
    match &res.database.get(res.root).kind {
        ExprKind::Dice(d) => {
            for die in &d.values {
                let t = dice::total::total_die(&res.database, die).unwrap();
                assert!(t >= 3);
            }
        }
        _ => panic!(),
    }
}

#[test]
fn keep_number_caps_at_num() {
    // (5, 5, 5)k5 keeps at most five matching items; all three match
    let tree = Ast::SetExpr {
        items: vec![
            Ast::Literal { value: Some(5) },
            Ast::Literal { value: Some(5) },
            Ast::Literal { value: Some(5) },
        ],
        ops: vec![(SetOp::Keep, SetSel::Number, Some(5))],
    };
    let res = evaluate_seeded(&tree, 0).unwrap();
    assert_eq!(res.total, 15);
}

#[test]
fn keep_number_selects_matching_only() {
    // (2, 5, 2)k2 keeps the two items equal to 2 and drops the 5
    let tree = Ast::SetExpr {
        items: vec![
            Ast::Literal { value: Some(2) },
            Ast::Literal { value: Some(5) },
            Ast::Literal { value: Some(2) },
        ],
        ops: vec![(SetOp::Keep, SetSel::Number, Some(2))],
    };
    let res = evaluate_seeded(&tree, 0).unwrap();
    assert_eq!(res.total, 4);
}

#[test]
fn keep_highest_breaks_ties_by_position() {
    // (5, 5)kh1: equal totals, the earlier item wins
    let tree = Ast::SetExpr {
        items: vec![
            Ast::Literal { value: Some(5) },
            Ast::Literal { value: Some(5) },
        ],
        ops: vec![(SetOp::Keep, SetSel::Highest, Some(1))],
    };
    let res = evaluate_seeded(&tree, 0).unwrap();
    match &res.database.get(res.root).kind {
        ExprKind::SetExpr(s) => {
            assert!(res.database.get(s.items[0]).kept);
            assert!(!res.database.get(s.items[1]).kept);
        }
        _ => panic!(),
    }
}

#[test]
fn one_sided_die_rolls_one() {
    // the rolling context can only return values in [1, sides]
    let tree = dice_tree(5, 1, vec![]);
    let res = evaluate_seeded(&tree, 31).unwrap();
    assert_eq!(res.total, 5);
}
