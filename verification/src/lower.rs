//! Lowering: turns an abstract syntax tree into arena-resident expression
//! nodes, rolling every requested die eagerly as it goes, so that rolling
//! happens exactly once, at construction time.
//!
//! A missing operand lowers to a `Missing` node that totals as zero; a
//! missing number (a literal's value, a dice's count or sides, an
//! operation's number) aborts lowering with `DatabaseError::Missing`.

use vstd::prelude::*;
use crate::ast::{Ast, SetOp, SetSel};
use crate::database::{
    arena_wf, die_wf, is_literal, node_wf, Database, DatabaseError, Dice, Die, ExprIdx, ExprKind,
    Expression, Literal, SetExpr, SetOperation, BinaryExpr, UnaryExpr,
};
use crate::ops::{
    arena_op_free, arena_ops_valid, node_op_free, node_ops_valid, op_sel_compatible,
    set_op_allowed,
};
use crate::rng::RollContext;
use crate::total::{binary_result, bound_total, spec_total, ExprError};

verus! {

/// Whether every number the tree needs is present: literal values, dice
/// counts and sides, and the number of every set operation. Lowering
/// succeeds exactly on complete trees.
pub open spec fn ast_complete(ast: Ast) -> bool
    decreases ast,
{
    match ast {
        Ast::Literal { value } => value is Some,
        Ast::BinaryExpr { op, lhs, rhs } => (lhs matches Some(b) ==> ast_complete(*b)) && (
        rhs matches Some(b) ==> ast_complete(*b)),
        Ast::UnaryExpr { op, expr } => expr matches Some(b) ==> ast_complete(*b),
        Ast::ParenExpr { expr } => expr matches Some(b) ==> ast_complete(*b),
        Ast::Dice { count, sides, ops } => {
            &&& count is Some
            &&& sides is Some
            &&& forall|k: int| 0 <= k < ops.len() ==> (#[trigger] ops[k]).2 is Some
        },
        Ast::SetExpr { items, ops } => {
            &&& forall|k: int| 0 <= k < ops.len() ==> (#[trigger] ops[k]).2 is Some
            &&& forall|k: int| 0 <= k < items.len() ==> ast_complete(#[trigger] items[k])
        },
    }
}

/// Whether a possibly missing operand is complete.
pub open spec fn opt_complete(o: Option<Box<Ast>>) -> bool {
    match o {
        None => true,
        Some(b) => ast_complete(*b),
    }
}

/// Whether every dice group of the tree can be rolled: zero-sided dice are
/// undefined for the rolling context and must be rejected upstream.
pub open spec fn ast_rollable(ast: Ast) -> bool
    decreases ast,
{
    match ast {
        Ast::Literal { value } => true,
        Ast::BinaryExpr { op, lhs, rhs } => (lhs matches Some(b) ==> ast_rollable(*b)) && (
        rhs matches Some(b) ==> ast_rollable(*b)),
        Ast::UnaryExpr { op, expr } => expr matches Some(b) ==> ast_rollable(*b),
        Ast::ParenExpr { expr } => expr matches Some(b) ==> ast_rollable(*b),
        Ast::Dice { count, sides, ops } => sides matches Some(s) ==> s >= 1,
        Ast::SetExpr { items, ops } => forall|k: int|
            0 <= k < items.len() ==> ast_rollable(#[trigger] items[k]),
    }
}

/// Whether a possibly missing operand is rollable.
pub open spec fn opt_rollable(o: Option<Box<Ast>>) -> bool {
    match o {
        None => true,
        Some(b) => ast_rollable(*b),
    }
}

/// Whether every operator/selector pairing the tree carries is legal under
/// the incompatibility table of `crate::ops`, and every set carries only
/// keep and drop. Resolution rejects the lowered tree exactly when this
/// fails.
pub open spec fn ast_ops_valid(ast: Ast) -> bool
    decreases ast,
{
    match ast {
        Ast::Literal { value } => true,
        Ast::BinaryExpr { op, lhs, rhs } => (lhs matches Some(b) ==> ast_ops_valid(*b)) && (
        rhs matches Some(b) ==> ast_ops_valid(*b)),
        Ast::UnaryExpr { op, expr } => expr matches Some(b) ==> ast_ops_valid(*b),
        Ast::ParenExpr { expr } => expr matches Some(b) ==> ast_ops_valid(*b),
        Ast::Dice { count, sides, ops } => forall|k: int|
            0 <= k < ops@.len() ==> op_sel_compatible((#[trigger] ops@[k]).0, ops@[k].1),
        Ast::SetExpr { items, ops } => {
            &&& forall|k: int|
                0 <= k < ops@.len() ==> op_sel_compatible((#[trigger] ops@[k]).0, ops@[k].1)
                    && set_op_allowed(ops@[k].0)
            &&& forall|k: int| 0 <= k < items@.len() ==> ast_ops_valid(#[trigger] items@[k])
        },
    }
}

/// Whether a possibly missing operand carries only legal pairings.
pub open spec fn opt_ops_valid(o: Option<Box<Ast>>) -> bool {
    match o {
        None => true,
        Some(b) => ast_ops_valid(*b),
    }
}

/// Whether the tree is pure arithmetic: literals and operators only, with
/// no dice group and no set anywhere. Lowering such a tree rolls nothing,
/// and its total is a function of the tree alone.
pub open spec fn ast_arith(ast: Ast) -> bool
    decreases ast,
{
    match ast {
        Ast::Literal { value } => true,
        Ast::BinaryExpr { op, lhs, rhs } => (lhs matches Some(b) ==> ast_arith(*b)) && (
        rhs matches Some(b) ==> ast_arith(*b)),
        Ast::UnaryExpr { op, expr } => expr matches Some(b) ==> ast_arith(*b),
        Ast::ParenExpr { expr } => expr matches Some(b) ==> ast_arith(*b),
        Ast::Dice { count, sides, ops } => false,
        Ast::SetExpr { items, ops } => false,
    }
}

/// Whether a possibly missing operand is pure arithmetic.
pub open spec fn opt_arith(o: Option<Box<Ast>>) -> bool {
    match o {
        None => true,
        Some(b) => ast_arith(*b),
    }
}

/// The total of a pure-arithmetic tree, mirroring what evaluating its
/// lowered form yields: a missing operand counts as zero, division
/// truncates toward zero and rejects a zero divisor, and every
/// intermediate total must fit a 64-bit signed integer.
pub open spec fn ast_total(ast: Ast) -> Result<int, ExprError>
    decreases ast,
{
    match ast {
        Ast::Literal { value } => match value {
            Some(v) => bound_total(v as int),
            None => Err(ExprError::NoValues),
        },
        Ast::BinaryExpr { op, lhs, rhs } => binary_result(
            match lhs {
                None => Ok(0),
                Some(b) => ast_total(*b),
            },
            match rhs {
                None => Ok(0),
                Some(b) => ast_total(*b),
            },
            op,
        ),
        Ast::UnaryExpr { op, expr } => match (match expr {
            None => Ok::<int, ExprError>(0),
            Some(b) => ast_total(*b),
        }) {
            Err(e) => Err(e),
            Ok(v) => bound_total(-v),
        },
        Ast::ParenExpr { expr } => match expr {
            None => Ok(0),
            Some(b) => ast_total(*b),
        },
        Ast::Dice { count, sides, ops } => Err(ExprError::NoValues),
        Ast::SetExpr { items, ops } => Err(ExprError::NoValues),
    }
}

/// The total of a possibly missing pure-arithmetic operand.
pub open spec fn opt_total(o: Option<Box<Ast>>) -> Result<int, ExprError> {
    match o {
        None => Ok(0),
        Some(b) => ast_total(*b),
    }
}

/// Whether the node at `v` is a fresh roll: a single-valued, unexploded
/// literal holding a value in `[1, sides]`.
pub open spec fn fresh_roll_at(arena: Seq<Expression>, v: int, sides: u64) -> bool {
    &&& is_literal(arena, v)
    &&& match arena[v].kind {
        ExprKind::Literal(l) => {
            &&& l.values@.len() == 1
            &&& 1 <= l.values@[0] <= sides
            &&& !l.exploded
        },
        _ => false,
    }
}

/// Whether `die` is freshly rolled: kept, one value, and that value a fresh
/// roll of a `sides`-sided die.
pub open spec fn die_fresh(arena: Seq<Expression>, die: Die, sides: u64) -> bool {
    &&& die.kept
    &&& die.sides == sides
    &&& die.values@.len() == 1
    &&& die.values@[0] < arena.len()
    &&& fresh_roll_at(arena, die.values@[0] as int, sides)
}

/// Whether the lowered operations `dops` carry over the parsed operations
/// `aops` in order, with every number unwrapped.
pub open spec fn ops_lowered(
    aops: Seq<(SetOp, SetSel, Option<u64>)>,
    dops: Seq<SetOperation>,
) -> bool {
    &&& dops.len() == aops.len()
    &&& forall|k: int|
        0 <= k < aops.len() ==> {
            &&& (#[trigger] dops[k]).op == aops[k].0
            &&& dops[k].sel == aops[k].1
            &&& aops[k].2 == Some(dops[k].num)
        }
}

/// Whether the node at `i` is a missing operand: the `Missing` kind, not
/// kept.
pub open spec fn missing_at(arena: Seq<Expression>, i: int) -> bool {
    &&& 0 <= i < arena.len()
    &&& arena[i].kind is Missing
    &&& !arena[i].kept
}

/// Whether the (not yet allocated) node `e` is what lowering `ast` into
/// `arena` produces: same shape, dice rolled once per requested die, every
/// number carried over, children lowered at indices inside the arena.
pub open spec fn expr_matches(ast: Ast, arena: Seq<Expression>, e: Expression) -> bool
    decreases ast,
{
    match ast {
        Ast::Literal { value } => {
            &&& e.kept
            &&& e.kind matches ExprKind::Literal(l) && value matches Some(v) && l.values@ == seq![v]
                && !l.exploded
        },
        Ast::BinaryExpr { op, lhs, rhs } => {
            &&& e.kept
            &&& e.kind matches ExprKind::BinaryExpr(b) && b.op == op && b.lhs < arena.len()
                && b.rhs < arena.len() && (match lhs {
                None => missing_at(arena, b.lhs as int),
                Some(bx) => expr_matches(*bx, arena, arena[b.lhs as int]),
            }) && (match rhs {
                None => missing_at(arena, b.rhs as int),
                Some(bx) => expr_matches(*bx, arena, arena[b.rhs as int]),
            })
        },
        Ast::UnaryExpr { op, expr } => {
            &&& e.kept
            &&& e.kind matches ExprKind::UnaryExpr(u) && u.op == op && u.expr < arena.len()
                && (match expr {
                None => missing_at(arena, u.expr as int),
                Some(bx) => expr_matches(*bx, arena, arena[u.expr as int]),
            })
        },
        Ast::ParenExpr { expr } => match expr {
            None => e.kind is Missing && !e.kept,
            Some(b) => expr_matches(*b, arena, e),
        },
        Ast::Dice { count, sides, ops } => {
            &&& e.kept
            &&& count is Some
            &&& sides is Some
            &&& e.kind matches ExprKind::Dice(d) && d.count == count->0 && d.sides == sides->0
                && d.values@.len() == d.count && ops_lowered(ops@, d.ops@)
                && crate::database::dice_values_distinct(d.values@) && forall|k: int|
                0 <= k < d.values@.len() ==> die_fresh(arena, #[trigger] d.values@[k], d.sides)
        },
        Ast::SetExpr { items, ops } => {
            &&& e.kept
            &&& e.kind matches ExprKind::SetExpr(s) && s.items@.len() == items@.len()
                && ops_lowered(ops@, s.ops@) && (forall|k1: int, k2: int|
                0 <= k1 < k2 < s.items@.len() ==> s.items@[k1] != s.items@[k2]) && forall|k: int|
                0 <= k < items@.len() ==> #[trigger] s.items@[k] < arena.len() && expr_matches(
                    items@[k],
                    arena,
                    arena[s.items@[k] as int],
                )
        },
    }
}

/// Whether the node at index `i` is what lowering `ast` produces.
pub open spec fn lowered_matches(ast: Ast, arena: Seq<Expression>, i: int) -> bool {
    &&& 0 <= i < arena.len()
    &&& expr_matches(ast, arena, arena[i])
}

/// Whether the node at `i` is what lowering the possibly missing operand
/// `o` produces: the lowered operand, or a missing node.
pub open spec fn opt_lowered(o: Option<Box<Ast>>, arena: Seq<Expression>, i: int) -> bool {
    match o {
        None => missing_at(arena, i),
        Some(b) => lowered_matches(*b, arena, i),
    }
}

/// The sides of every die the tree will roll, in the order lowering rolls
/// them: each dice group contributes `count` draws of its `sides`. Together
/// with `crate::rng::nth_roll` this pins every value a seeded lowering
/// draws as a function of the tree and the seed alone.
pub open spec fn roll_requests(ast: Ast) -> Seq<u64>
    decreases ast, 0int, 0int,
{
    match ast {
        Ast::Literal { value } => Seq::<u64>::empty(),
        Ast::BinaryExpr { op, lhs, rhs } => opt_requests(lhs) + opt_requests(rhs),
        Ast::UnaryExpr { op, expr } => opt_requests(expr),
        Ast::ParenExpr { expr } => opt_requests(expr),
        Ast::Dice { count, sides, ops } => match (count, sides) {
            (Some(c), Some(s)) => Seq::new(c as nat, |i: int| s),
            _ => Seq::<u64>::empty(),
        },
        Ast::SetExpr { items, ops } => items_requests(items@, items@.len() as int),
    }
}

/// The requests of the first `n` items of a set, in order.
pub open spec fn items_requests(items: Seq<Ast>, n: int) -> Seq<u64>
    decreases items, 1int, n,
{
    if n <= 0 || n > items.len() {
        Seq::<u64>::empty()
    } else {
        items_requests(items, n - 1) + roll_requests(items[n - 1])
    }
}

/// The requests of a possibly missing operand.
pub open spec fn opt_requests(o: Option<Box<Ast>>) -> Seq<u64>
    decreases o, 2int, 0int,
{
    match o {
        None => Seq::<u64>::empty(),
        Some(b) => roll_requests(*b),
    }
}

/// The value stored at a single-valued literal node.
pub open spec fn lit_value_at(arena: Seq<Expression>, v: int) -> u64 {
    match arena[v].kind {
        ExprKind::Literal(l) => l.values@[0],
        _ => 0,
    }
}

/// Whether every rolled value the lowered node holds is the seeded stream's
/// draw at its position, `hist` being the stream's history when lowering of
/// this node began. Together with `expr_matches` this pins a seeded lowering
/// completely: the stored rolls are a function of the tree, the seed and the
/// starting position alone, so re-lowering the same tree with the same seed
/// reproduces them byte for byte.
pub open spec fn expr_rolled(
    ast: Ast,
    arena: Seq<Expression>,
    e: Expression,
    seed: u64,
    hist: Seq<u64>,
) -> bool
    decreases ast,
{
    match ast {
        Ast::Literal { value } => true,
        Ast::BinaryExpr { op, lhs, rhs } => {
            &&& e.kind matches ExprKind::BinaryExpr(b) && b.lhs < arena.len() && b.rhs
                < arena.len() && (lhs matches Some(bx) ==> expr_rolled(
                *bx,
                arena,
                arena[b.lhs as int],
                seed,
                hist,
            )) && (rhs matches Some(bx) ==> expr_rolled(
                *bx,
                arena,
                arena[b.rhs as int],
                seed,
                hist + opt_requests(lhs),
            ))
        },
        Ast::UnaryExpr { op, expr } => {
            &&& e.kind matches ExprKind::UnaryExpr(u) && u.expr < arena.len() && (
            expr matches Some(bx) ==> expr_rolled(*bx, arena, arena[u.expr as int], seed, hist))
        },
        Ast::ParenExpr { expr } => expr matches Some(b) ==> expr_rolled(*b, arena, e, seed, hist),
        Ast::Dice { count, sides, ops } => {
            &&& e.kind matches ExprKind::Dice(d) && (sides matches Some(s) ==> forall|k: int|
                0 <= k < d.values@.len() ==> {
                    &&& (#[trigger] d.values@[k]).values@.len() == 1
                    &&& d.values@[k].values@[0] < arena.len()
                    &&& lit_value_at(arena, d.values@[k].values@[0] as int) == crate::rng::nth_roll(
                        seed,
                        hist + Seq::new(k as nat, |i: int| s),
                        s,
                    )
                })
        },
        Ast::SetExpr { items, ops } => {
            &&& e.kind matches ExprKind::SetExpr(se) && se.items@.len() == items@.len() && forall|
                k: int,
            |
                0 <= k < items@.len() ==> #[trigger] se.items@[k] < arena.len() && expr_rolled(
                    items@[k],
                    arena,
                    arena[se.items@[k] as int],
                    seed,
                    hist + items_requests(items@, k),
                )
        },
    }
}

/// The operand form of `expr_rolled`.
pub open spec fn opt_rolled(
    o: Option<Box<Ast>>,
    arena: Seq<Expression>,
    i: int,
    seed: u64,
    hist: Seq<u64>,
) -> bool {
    match o {
        None => true,
        Some(b) => 0 <= i < arena.len() && expr_rolled(*b, arena, arena[i], seed, hist),
    }
}

/// Matching survives allocation: what lowering produced into a prefix of the
/// arena still matches after further nodes are appended.
pub proof fn lemma_expr_matches_prefix(
    ast: Ast,
    a1: Seq<Expression>,
    a2: Seq<Expression>,
    e: Expression,
)
    requires
        a1.len() <= a2.len(),
        a2.take(a1.len() as int) == a1,
        expr_matches(ast, a1, e),
    ensures
        expr_matches(ast, a2, e),
    decreases ast, 1int,
{
    assert forall|v: int| 0 <= v < a1.len() implies a2[v] == a1[v] by {
        assert(a2.take(a1.len() as int)[v] == a2[v]);
    }
    match ast {
        Ast::Literal { value } => {},
        Ast::BinaryExpr { op, lhs, rhs } => {
            if let ExprKind::BinaryExpr(b) = e.kind {
                lemma_opt_lowered_prefix(lhs, a1, a2, b.lhs as int);
                lemma_opt_lowered_prefix(rhs, a1, a2, b.rhs as int);
            }
        },
        Ast::UnaryExpr { op, expr } => {
            if let ExprKind::UnaryExpr(u) = e.kind {
                lemma_opt_lowered_prefix(expr, a1, a2, u.expr as int);
            }
        },
        Ast::ParenExpr { expr } => {
            if let Some(b) = expr {
                lemma_expr_matches_prefix(*b, a1, a2, e);
            }
        },
        Ast::Dice { count, sides, ops } => {
            if let ExprKind::Dice(d) = e.kind {
                assert forall|k: int| 0 <= k < d.values@.len() implies die_fresh(
                    a2,
                    #[trigger] d.values@[k],
                    d.sides,
                ) by {
                    assert(die_fresh(a1, d.values@[k], d.sides));
                }
            }
        },
        Ast::SetExpr { items, ops } => {
            if let ExprKind::SetExpr(s) = e.kind {
                assert forall|k: int| 0 <= k < items@.len() implies #[trigger] s.items@[k]
                    < a2.len() && lowered_matches(items@[k], a2, s.items@[k] as int) by {
                    assert(lowered_matches(items@[k], a1, s.items@[k] as int));
                    lemma_expr_matches_prefix(
                        items@[k],
                        a1,
                        a2,
                        a1[s.items@[k] as int],
                    );
                }
            }
        },
    }
}

/// The operand form of `lemma_expr_matches_prefix`.
pub proof fn lemma_opt_lowered_prefix(
    o: Option<Box<Ast>>,
    a1: Seq<Expression>,
    a2: Seq<Expression>,
    i: int,
)
    requires
        a1.len() <= a2.len(),
        a2.take(a1.len() as int) == a1,
        opt_lowered(o, a1, i),
    ensures
        opt_lowered(o, a2, i),
    decreases o, 3int,
{
    assert forall|v: int| 0 <= v < a1.len() implies a2[v] == a1[v] by {
        assert(a2.take(a1.len() as int)[v] == a2[v]);
    }
    match o {
        None => {},
        Some(b) => {
            lemma_expr_matches_prefix(*b, a1, a2, a1[i]);
        },
    }
}

/// The rolled values survive allocation: what a seeded lowering stored into
/// a prefix of the arena still stands after further nodes are appended.
pub proof fn lemma_expr_rolled_prefix(
    ast: Ast,
    a1: Seq<Expression>,
    a2: Seq<Expression>,
    e: Expression,
    seed: u64,
    hist: Seq<u64>,
)
    requires
        a1.len() <= a2.len(),
        a2.take(a1.len() as int) == a1,
        expr_rolled(ast, a1, e, seed, hist),
    ensures
        expr_rolled(ast, a2, e, seed, hist),
    decreases ast, 1int,
{
    assert forall|v: int| 0 <= v < a1.len() implies a2[v] == a1[v] by {
        assert(a2.take(a1.len() as int)[v] == a2[v]);
    }
    match ast {
        Ast::Literal { value } => {},
        Ast::BinaryExpr { op, lhs, rhs } => {
            if let ExprKind::BinaryExpr(b) = e.kind {
                if let Some(bx) = lhs {
                    lemma_expr_rolled_prefix(*bx, a1, a2, a1[b.lhs as int], seed, hist);
                }
                if let Some(bx) = rhs {
                    lemma_expr_rolled_prefix(
                        *bx,
                        a1,
                        a2,
                        a1[b.rhs as int],
                        seed,
                        hist + opt_requests(lhs),
                    );
                }
            }
        },
        Ast::UnaryExpr { op, expr } => {
            if let ExprKind::UnaryExpr(u) = e.kind {
                if let Some(bx) = expr {
                    lemma_expr_rolled_prefix(*bx, a1, a2, a1[u.expr as int], seed, hist);
                }
            }
        },
        Ast::ParenExpr { expr } => {
            if let Some(b) = expr {
                lemma_expr_rolled_prefix(*b, a1, a2, e, seed, hist);
            }
        },
        Ast::Dice { count, sides, ops } => {
            if let ExprKind::Dice(d) = e.kind {
                if let Some(s) = sides {
                    assert forall|k: int|
                        0 <= k < d.values@.len() implies {
                        &&& (#[trigger] d.values@[k]).values@.len() == 1
                        &&& d.values@[k].values@[0] < a2.len()
                        &&& lit_value_at(a2, d.values@[k].values@[0] as int)
                            == crate::rng::nth_roll(
                            seed,
                            hist + Seq::new(k as nat, |i: int| s),
                            s,
                        )
                    } by {
                        assert(d.values@[k].values@[0] < a1.len());
                        assert(a2[d.values@[k].values@[0] as int] == a1[d.values@[k].values@[
                            0
                        ] as int]);
                    }
                }
            }
        },
        Ast::SetExpr { items, ops } => {
            if let ExprKind::SetExpr(se) = e.kind {
                assert forall|k: int|
                    0 <= k < items@.len() implies #[trigger] se.items@[k] < a2.len()
                    && expr_rolled(
                    items@[k],
                    a2,
                    a2[se.items@[k] as int],
                    seed,
                    hist + items_requests(items@, k),
                ) by {
                    assert(expr_rolled(
                        items@[k],
                        a1,
                        a1[se.items@[k] as int],
                        seed,
                        hist + items_requests(items@, k),
                    ));
                    lemma_expr_rolled_prefix(
                        items@[k],
                        a1,
                        a2,
                        a1[se.items@[k] as int],
                        seed,
                        hist + items_requests(items@, k),
                    );
                }
            }
        },
    }
}

/// The operand form of `lemma_expr_rolled_prefix`.
pub proof fn lemma_opt_rolled_prefix(
    o: Option<Box<Ast>>,
    a1: Seq<Expression>,
    a2: Seq<Expression>,
    i: int,
    seed: u64,
    hist: Seq<u64>,
)
    requires
        a1.len() <= a2.len(),
        a2.take(a1.len() as int) == a1,
        opt_rolled(o, a1, i, seed, hist),
    ensures
        opt_rolled(o, a2, i, seed, hist),
    decreases o, 3int,
{
    assert forall|v: int| 0 <= v < a1.len() implies a2[v] == a1[v] by {
        assert(a2.take(a1.len() as int)[v] == a2[v]);
    }
    match o {
        None => {},
        Some(b) => {
            lemma_expr_rolled_prefix(*b, a1, a2, a1[i], seed, hist);
        },
    }
}

/// Well-formedness of a node is unaffected by later allocations.
pub proof fn lemma_node_wf_prefix(a1: Seq<Expression>, a2: Seq<Expression>, i: int)
    requires
        a1.len() <= a2.len(),
        a2.take(a1.len() as int) == a1,
        0 <= i < a1.len(),
        node_wf(a1, i),
    ensures
        node_wf(a2, i),
{
    assert forall|v: int| 0 <= v < a1.len() implies a2[v] == a1[v] by {
        assert(a2.take(a1.len() as int)[v] == a2[v]);
    }
    match a1[i].kind {
        ExprKind::Dice(d) => {
            assert forall|k: int| 0 <= k < d.values.len() implies die_wf(
                a2,
                #[trigger] d.values[k],
                a2.len() as int,
            ) by {
                assert(die_wf(a1, d.values[k], a1.len() as int));
            }
        },
        _ => {},
    }
}

/// Appending a well-formed node keeps the whole arena well-formed.
pub proof fn lemma_arena_wf_push(a: Seq<Expression>, e: Expression)
    requires
        arena_wf(a),
        node_wf(a.push(e), a.len() as int),
    ensures
        arena_wf(a.push(e)),
{
    let a2 = a.push(e);
    assert(a2.take(a.len() as int) =~= a);
    assert forall|i: int| 0 <= i < a2.len() implies #[trigger] node_wf(a2, i) by {
        if i < a.len() {
            assert(node_wf(a, i));
            lemma_node_wf_prefix(a, a2, i);
        }
    }
}

/// Appending a node leaves the arena's operations legal exactly when they
/// were legal and the new node's are.
pub proof fn lemma_ops_valid_push(a: Seq<Expression>, e: Expression)
    ensures
        arena_ops_valid(a.push(e)) <==> (arena_ops_valid(a) && node_ops_valid(e)),
{
    let a2 = a.push(e);
    if arena_ops_valid(a) && node_ops_valid(e) {
        assert forall|i: int| 0 <= i < a2.len() implies node_ops_valid(#[trigger] a2[i]) by {
            if i < a.len() {
                assert(a2[i] == a[i]);
                assert(node_ops_valid(a[i]));
            } else {
                assert(a2[i] == e);
            }
        }
    }
    if arena_ops_valid(a2) {
        assert forall|i: int| 0 <= i < a.len() implies node_ops_valid(#[trigger] a[i]) by {
            assert(node_ops_valid(a2[i]));
            assert(a2[i] == a[i]);
        }
        assert(node_ops_valid(a2[a.len() as int]));
    }
}

/// Appending an operation-free node keeps an operation-free arena free.
pub proof fn lemma_op_free_push(a: Seq<Expression>, e: Expression)
    requires
        arena_op_free(a),
        node_op_free(e),
    ensures
        arena_op_free(a.push(e)),
{
    let a2 = a.push(e);
    assert forall|i: int| 0 <= i < a2.len() implies node_op_free(#[trigger] a2[i]) by {
        if i < a.len() {
            assert(a2[i] == a[i]);
            assert(node_op_free(a[i]));
        } else {
            assert(a2[i] == e);
        }
    }
}

/// On a pure-arithmetic tree, the lowered node's total is a function of the
/// tree alone: nothing was rolled, so `spec_total` is `ast_total`.
pub proof fn lemma_arith_total(ast: Ast, arena: Seq<Expression>, i: int)
    requires
        arena_wf(arena),
        lowered_matches(ast, arena, i),
        ast_arith(ast),
    ensures
        spec_total(arena, i) == ast_total(ast),
    decreases ast, 1int,
{
    assert(node_wf(arena, i));
    let e = arena[i];
    match ast {
        Ast::Literal { value } => {
            if let ExprKind::Literal(l) = e.kind {
                if let Some(v) = value {
                    assert(l.values@ == seq![v]);
                    assert(l.values@.last() == v);
                }
            }
        },
        Ast::BinaryExpr { op, lhs, rhs } => {
            if let ExprKind::BinaryExpr(b) = e.kind {
                lemma_arith_opt_total(lhs, arena, b.lhs as int);
                lemma_arith_opt_total(rhs, arena, b.rhs as int);
            }
        },
        Ast::UnaryExpr { op, expr } => {
            if let ExprKind::UnaryExpr(u) = e.kind {
                lemma_arith_opt_total(expr, arena, u.expr as int);
            }
        },
        Ast::ParenExpr { expr } => {
            match expr {
                None => {},
                Some(b) => {
                    lemma_arith_total(*b, arena, i);
                },
            }
        },
        _ => {},
    }
}

/// The operand form of `lemma_arith_total`.
pub proof fn lemma_arith_opt_total(o: Option<Box<Ast>>, arena: Seq<Expression>, i: int)
    requires
        arena_wf(arena),
        0 <= i < arena.len(),
        opt_lowered(o, arena, i),
        opt_arith(o),
    ensures
        spec_total(arena, i) == opt_total(o),
    decreases o, 2int,
{
    match o {
        None => {},
        Some(b) => {
            lemma_arith_total(*b, arena, i);
        },
    }
}

/// A node that matches some lowered tree is well-formed when appended.
pub proof fn lemma_matched_node_wf(ast: Ast, arena: Seq<Expression>, e: Expression)
    requires
        expr_matches(ast, arena, e),
    ensures
        node_wf(arena.push(e), arena.len() as int),
    decreases ast,
{
    let a2 = arena.push(e);
    assert forall|v: int| 0 <= v < arena.len() implies a2[v] == arena[v] by {}
    match ast {
        Ast::ParenExpr { expr } => {
            if let Some(b) = expr {
                lemma_matched_node_wf(*b, arena, e);
            }
        },
        Ast::Dice { count, sides, ops } => {
            if let ExprKind::Dice(d) = e.kind {
                assert forall|k: int| 0 <= k < d.values.len() implies die_wf(
                    a2,
                    #[trigger] d.values[k],
                    arena.len() as int,
                ) by {
                    assert(die_fresh(arena, d.values@[k], d.sides));
                }
            }
        },
        _ => {},
    }
}

/// Lowers a list of parsed set operations, unwrapping each number; fails
/// with `Missing` exactly when some number is absent.
fn lower_ops(ops: &Vec<(SetOp, SetSel, Option<u64>)>) -> (r: Result<
    Vec<SetOperation>,
    DatabaseError,
>)
    ensures
        r is Ok <==> forall|k: int| 0 <= k < ops@.len() ==> (#[trigger] ops@[k]).2 is Some,
        r matches Ok(v) ==> ops_lowered(ops@, v@),
        r is Err ==> r == Err::<Vec<SetOperation>, DatabaseError>(DatabaseError::Missing),
{
    let mut out: Vec<SetOperation> = Vec::new();
    let mut k: usize = 0;
    while k < ops.len()
        invariant
            k <= ops@.len(),
            out@.len() == k,
            forall|j: int| 0 <= j < k ==> (#[trigger] ops@[j]).2 is Some,
            ops_lowered(ops@.take(k as int), out@),
        decreases ops@.len() - k,
    {
        let (op, sel, num) = ops[k];
        match num {
            None => {
                return Err(DatabaseError::Missing);
            },
            Some(n) => {
                out.push(SetOperation { op, sel, num: n });
            },
        }
        k = k + 1;
    }
    assert(ops@.take(ops@.len() as int) =~= ops@);
    Ok(out)
}

/// Lowers one tree node: children are allocated into the arena, dice are
/// rolled eagerly, and the node itself is handed back unallocated.
fn lower_node(ast: &Ast, db: &mut Database, ctx: &mut RollContext) -> (r: Result<
    Expression,
    DatabaseError,
>)
    requires
        arena_wf(old(db)@),
        ast_rollable(*ast),
    ensures
        arena_wf(final(db)@),
        old(db)@.len() <= final(db)@.len(),
        final(db)@.take(old(db)@.len() as int) == old(db)@,
        final(ctx).seed() == old(ctx).seed(),
        r is Ok <==> ast_complete(*ast),
        r is Ok ==> final(ctx).history() == old(ctx).history() + roll_requests(*ast),
        r matches Ok(e) ==> expr_matches(*ast, final(db)@, e),
        r is Err ==> r == Err::<Expression, DatabaseError>(DatabaseError::Missing),
        r matches Ok(e) ==> ((arena_ops_valid(final(db)@) && node_ops_valid(e)) <==> (
        arena_ops_valid(old(db)@) && ast_ops_valid(*ast))),
        r matches Ok(e) ==> ((arena_op_free(old(db)@) && ast_arith(*ast)) ==> (arena_op_free(
            final(db)@,
        ) && node_op_free(e))),
        r matches Ok(e) ==> (old(ctx).seed() matches Some(sd) ==> expr_rolled(
            *ast,
            final(db)@,
            e,
            sd,
            old(ctx).history(),
        )),
    decreases *ast, 1int,
{
    match ast {
        Ast::Literal { value } => {
            match value {
                None => Err(DatabaseError::Missing),
                Some(v) => {
                    let values = vec![*v];
                    proof {
                        assert(values@ =~= seq![*v]);
                        assert(ctx.history() =~= ctx.history() + roll_requests(*ast));
                    }
                    Ok(
                        Expression {
                            kind: ExprKind::Literal(Literal { values, exploded: false }),
                            kept: true,
                        },
                    )
                },
            }
        },
        Ast::BinaryExpr { op, lhs, rhs } => {
            let li = match lower_opt(lhs, db, ctx) {
                Err(e) => {
                    return Err(e);
                },
                Ok(i) => i,
            };
            let ghost mid = db@;
            let ri = match lower_opt(rhs, db, ctx) {
                Err(e) => {
                    return Err(e);
                },
                Ok(i) => i,
            };
            proof {
                lemma_opt_lowered_prefix(*lhs, mid, db@, li as int);
                assert(ctx.history() =~= old(ctx).history() + roll_requests(*ast));
                if let Some(sd) = old(ctx).seed() {
                    lemma_opt_rolled_prefix(*lhs, mid, db@, li as int, sd, old(ctx).history());
                }
            }
            Ok(
                Expression {
                    kind: ExprKind::BinaryExpr(BinaryExpr { lhs: li, rhs: ri, op: *op }),
                    kept: true,
                },
            )
        },
        Ast::UnaryExpr { op, expr } => {
            let ei = match lower_opt(expr, db, ctx) {
                Err(e) => {
                    return Err(e);
                },
                Ok(i) => i,
            };
            proof {
                assert(ctx.history() =~= old(ctx).history() + roll_requests(*ast));
            }
            Ok(
                Expression {
                    kind: ExprKind::UnaryExpr(UnaryExpr { expr: ei, op: *op }),
                    kept: true,
                },
            )
        },
        Ast::ParenExpr { expr } => {
            match expr {
                None => {
                    proof {
                        assert(ctx.history() =~= ctx.history() + roll_requests(*ast));
                    }
                    Ok(Expression { kind: ExprKind::Missing, kept: false })
                },
                Some(b) => lower_node(b, db, ctx),
            }
        },
        Ast::Dice { count, sides, ops } => {
            let c = match count {
                None => {
                    return Err(DatabaseError::Missing);
                },
                Some(c) => *c,
            };
            let s = match sides {
                None => {
                    return Err(DatabaseError::Missing);
                },
                Some(s) => *s,
            };
            let dops = match lower_ops(ops) {
                Err(e) => {
                    return Err(e);
                },
                Ok(v) => v,
            };
            let mut dies: Vec<Die> = Vec::new();
            let mut k: u64 = 0;
            while k < c
                invariant
                    s >= 1 || c == 0,
                    k <= c,
                    dies@.len() == k,
                    arena_wf(db@),
                    old(db)@.len() <= db@.len(),
                    db@.take(old(db)@.len() as int) == old(db)@,
                    ctx.seed() == old(ctx).seed(),
                    ctx.history() == old(ctx).history() + Seq::new(k as nat, |i: int| s),
                    forall|j: int| 0 <= j < k ==> die_fresh(db@, #[trigger] dies@[j], s),
                    crate::database::dice_values_distinct(dies@),
                    arena_ops_valid(db@) <==> arena_ops_valid(old(db)@),
                    arena_op_free(old(db)@) ==> arena_op_free(db@),
                    old(ctx).seed() matches Some(sd) ==> forall|j: int|
                        0 <= j < k ==> lit_value_at(db@, (#[trigger] dies@[j]).values@[0] as int)
                            == crate::rng::nth_roll(
                            sd,
                            old(ctx).history() + Seq::new(j as nat, |i2: int| s),
                            s,
                        ),
                decreases c - k,
            {
                let ghost before = db@;
                let ghost hist_before = ctx.history();
                let roll = ctx.roll(s);
                let lit_values = vec![roll];
                proof {
                    assert(lit_values@ =~= seq![roll]);
                }
                let li = db.allocate(
                    Expression {
                        kind: ExprKind::Literal(Literal { values: lit_values, exploded: false }),
                        kept: true,
                    },
                );
                proof {
                    assert(node_wf(before.push(db@[li as int]), before.len() as int));
                    lemma_arena_wf_push(before, db@[li as int]);
                    lemma_ops_valid_push(before, db@[li as int]);
                    if arena_op_free(before) {
                        lemma_op_free_push(before, db@[li as int]);
                    }
                    assert(db@.take(old(db)@.len() as int) =~= old(db)@);
                    assert forall|j: int| 0 <= j < k implies die_fresh(
                        db@,
                        #[trigger] dies@[j],
                        s,
                    ) by {
                        assert(die_fresh(before, dies@[j], s));
                        assert(db@.take(before.len() as int) =~= before);
                        assert forall|v: int| 0 <= v < before.len() implies db@[v] == before[v] by {
                            assert(db@.take(before.len() as int)[v] == db@[v]);
                        }
                    }
                    if let Some(sd) = old(ctx).seed() {
                        assert(lit_value_at(db@, li as int) == roll);
                        assert(roll == crate::rng::nth_roll(sd, hist_before, s));
                        assert(hist_before == old(ctx).history() + Seq::new(
                            k as nat,
                            |i2: int| s,
                        ));
                        assert forall|j: int|
                            0 <= j < k implies lit_value_at(
                            db@,
                            (#[trigger] dies@[j]).values@[0] as int,
                        ) == crate::rng::nth_roll(
                            sd,
                            old(ctx).history() + Seq::new(j as nat, |i2: int| s),
                            s,
                        ) by {
                            assert(die_fresh(before, dies@[j], s));
                            assert(db@[dies@[j].values@[0] as int] == before[dies@[j].values@[
                                0
                            ] as int]);
                        }
                    }
                }
                let die_values = vec![li];
                proof {
                    assert(die_values@ =~= seq![li]);
                }
                let ghost old_dies = dies@;
                let new_die = Die { sides: s, values: die_values, kept: true };
                dies.push(new_die);
                proof {
                    assert(ctx.history() =~= old(ctx).history() + Seq::new((k + 1) as nat, |i: int| s));
                    assert forall|k1: int, k2: int, i1: int, i2: int|
                        0 <= k1 < dies@.len() && 0 <= k2 < dies@.len() && k1 != k2 && 0 <= i1
                            < dies@[k1].values.len() && 0 <= i2
                            < dies@[k2].values.len() implies #[trigger] dies@[k1].values[i1]
                        != #[trigger] dies@[k2].values[i2] by {
                        if k1 < old_dies.len() && k2 < old_dies.len() {
                            assert(crate::database::dice_values_distinct(old_dies));
                        } else if k1 == old_dies.len() {
                            assert(die_fresh(before, old_dies[k2], s));
                            assert(dies@[k1].values[i1] == li);
                        } else {
                            assert(die_fresh(before, old_dies[k1], s));
                            assert(dies@[k2].values[i2] == li);
                        }
                    }
                }
                k = k + 1;
            }
            proof {
                if let Some(sd) = old(ctx).seed() {
                    assert forall|k2: int|
                        0 <= k2 < dies@.len() implies {
                        &&& (#[trigger] dies@[k2]).values@.len() == 1
                        &&& dies@[k2].values@[0] < db@.len()
                        &&& lit_value_at(db@, dies@[k2].values@[0] as int) == crate::rng::nth_roll(
                            sd,
                            old(ctx).history() + Seq::new(k2 as nat, |i2: int| s),
                            s,
                        )
                    } by {
                        assert(die_fresh(db@, dies@[k2], s));
                    }
                }
            }
            let e = Expression {
                kind: ExprKind::Dice(Dice { count: c, sides: s, values: dies, ops: dops }),
                kept: true,
            };
            proof {
                assert(ctx.history() =~= old(ctx).history() + roll_requests(*ast));
                assert(ops_lowered(ops@, dops@));
                assert(node_ops_valid(e) <==> ast_ops_valid(*ast)) by {
                    if ast_ops_valid(*ast) {
                        assert forall|j: int|
                            0 <= j < dops@.len() implies op_sel_compatible(
                            (#[trigger] dops@[j]).op,
                            dops@[j].sel,
                        ) by {
                            assert(op_sel_compatible(ops@[j].0, ops@[j].1));
                        }
                    }
                    if node_ops_valid(e) {
                        assert forall|j: int|
                            0 <= j < ops@.len() implies op_sel_compatible(
                            (#[trigger] ops@[j]).0,
                            ops@[j].1,
                        ) by {
                            assert(op_sel_compatible(dops@[j].op, dops@[j].sel));
                        }
                    }
                }
            }
            Ok(e)
        },
        Ast::SetExpr { items, ops } => {
            let sops = match lower_ops(ops) {
                Err(e) => {
                    return Err(e);
                },
                Ok(v) => v,
            };
            let mut idxs: Vec<ExprIdx> = Vec::new();
            let mut k: usize = 0;
            while k < items.len()
                invariant
                    k <= items@.len(),
                    idxs@.len() == k,
                    arena_wf(db@),
                    old(db)@.len() <= db@.len(),
                    db@.take(old(db)@.len() as int) == old(db)@,
                    ctx.seed() == old(ctx).seed(),
                    ctx.history() == old(ctx).history() + items_requests(items@, k as int),
                    ast_rollable(*ast),
                    *ast matches Ast::SetExpr { items: its, ops: ops2 } && its@ == items@,
                    forall|j: int| 0 <= j < k ==> ast_complete(#[trigger] items@[j]),
                    forall|j: int|
                        0 <= j < k ==> #[trigger] idxs@[j] < db@.len() && lowered_matches(
                            items@[j],
                            db@,
                            idxs@[j] as int,
                        ),
                    forall|j1: int, j2: int| 0 <= j1 < j2 < k ==> idxs@[j1] != idxs@[j2],
                    arena_ops_valid(db@) <==> (arena_ops_valid(old(db)@) && (forall|j: int|
                        0 <= j < k ==> ast_ops_valid(#[trigger] items@[j]))),
                    old(ctx).seed() matches Some(sd) ==> forall|j: int|
                        0 <= j < k ==> #[trigger] idxs@[j] < db@.len() && expr_rolled(
                            items@[j],
                            db@,
                            db@[idxs@[j] as int],
                            sd,
                            old(ctx).history() + items_requests(items@, j),
                        ),
                decreases items@.len() - k,
            {
                proof {
                    assert(ast_rollable(items@[k as int]));
                }
                let ghost before = db@;
                let e = match lower_node(&items[k], db, ctx) {
                    Err(e) => {
                        return Err(e);
                    },
                    Ok(e) => e,
                };
                let ghost mid = db@;
                let ii = db.allocate(e);
                proof {
                    lemma_matched_node_wf(items@[k as int], mid, e);
                    lemma_arena_wf_push(mid, e);
                    lemma_ops_valid_push(mid, e);
                    assert(arena_ops_valid(db@) <==> (arena_ops_valid(old(db)@) && (forall|j: int|
                        0 <= j < k + 1 ==> ast_ops_valid(#[trigger] items@[j])))) by {
                        if arena_ops_valid(old(db)@) && (forall|j: int|
                            0 <= j < k + 1 ==> ast_ops_valid(#[trigger] items@[j])) {
                            assert(forall|j: int|
                                0 <= j < k ==> ast_ops_valid(#[trigger] items@[j]));
                            assert(ast_ops_valid(items@[k as int]));
                            assert(arena_ops_valid(before));
                            assert(arena_ops_valid(mid) && node_ops_valid(e));
                        }
                        if arena_ops_valid(db@) {
                            assert(arena_ops_valid(mid) && node_ops_valid(e));
                            assert(arena_ops_valid(before));
                            assert(ast_ops_valid(items@[k as int]));
                            assert forall|j: int|
                                0 <= j < k + 1 implies ast_ops_valid(#[trigger] items@[j]) by {}
                        }
                    }
                    assert(db@.take(old(db)@.len() as int) =~= old(db)@);
                    assert(db@.take(mid.len() as int) =~= mid);
                    lemma_expr_matches_prefix(items@[k as int], mid, db@, e);
                    if let Some(sd) = old(ctx).seed() {
                        lemma_expr_rolled_prefix(
                            items@[k as int],
                            mid,
                            db@,
                            e,
                            sd,
                            old(ctx).history() + items_requests(items@, k as int),
                        );
                        assert(db@[ii as int] == e);
                        assert forall|j: int|
                            0 <= j < k implies #[trigger] idxs@[j] < db@.len() && expr_rolled(
                            items@[j],
                            db@,
                            db@[idxs@[j] as int],
                            sd,
                            old(ctx).history() + items_requests(items@, j),
                        ) by {
                            assert(expr_rolled(
                                items@[j],
                                before,
                                before[idxs@[j] as int],
                                sd,
                                old(ctx).history() + items_requests(items@, j),
                            ));
                            assert(db@.take(before.len() as int) =~= before);
                            lemma_expr_rolled_prefix(
                                items@[j],
                                before,
                                db@,
                                before[idxs@[j] as int],
                                sd,
                                old(ctx).history() + items_requests(items@, j),
                            );
                            assert(db@[idxs@[j] as int] == before[idxs@[j] as int]) by {
                                assert(db@.take(before.len() as int)[idxs@[j] as int] == db@[idxs@[
                                    j
                                ] as int]);
                            }
                        }
                    }
                    assert forall|j: int|
                        0 <= j < k implies #[trigger] idxs@[j] < db@.len() && lowered_matches(
                        items@[j],
                        db@,
                        idxs@[j] as int,
                    ) by {
                        assert(lowered_matches(items@[j], before, idxs@[j] as int));
                        assert(db@.take(before.len() as int) =~= before);
                        lemma_expr_matches_prefix(
                            items@[j],
                            before,
                            db@,
                            before[idxs@[j] as int],
                        );
                        assert(db@[idxs@[j] as int] == before[idxs@[j] as int]) by {
                            assert(db@.take(before.len() as int)[idxs@[j] as int] == db@[idxs@[
                                j
                            ] as int]);
                        }
                    }
                }
                proof {
                    assert forall|j1: int, j2: int|
                        0 <= j1 < j2 < k + 1 implies idxs@.push(ii)[j1] != idxs@.push(ii)[j2] by {
                        if j2 == k {
                            assert(idxs@[j1] < mid.len());
                        }
                    }
                }
                idxs.push(ii);
                proof {
                    assert(ctx.history() =~= old(ctx).history() + items_requests(
                        items@,
                        k + 1,
                    ));
                }
                k = k + 1;
            }
            let e = Expression {
                kind: ExprKind::SetExpr(SetExpr { items: idxs, ops: sops }),
                kept: true,
            };
            proof {
                assert(ctx.history() =~= old(ctx).history() + roll_requests(*ast));
                assert(ops_lowered(ops@, sops@));
                assert(node_ops_valid(e) <==> (forall|j: int|
                    0 <= j < ops@.len() ==> op_sel_compatible((#[trigger] ops@[j]).0, ops@[j].1)
                        && set_op_allowed(ops@[j].0))) by {
                    if forall|j: int|
                        0 <= j < ops@.len() ==> op_sel_compatible((#[trigger] ops@[j]).0, ops@[j].1)
                            && set_op_allowed(ops@[j].0) {
                        assert forall|j: int|
                            0 <= j < sops@.len() implies op_sel_compatible(
                            (#[trigger] sops@[j]).op,
                            sops@[j].sel,
                        ) && set_op_allowed(sops@[j].op) by {
                            assert(op_sel_compatible(ops@[j].0, ops@[j].1) && set_op_allowed(
                                ops@[j].0,
                            ));
                        }
                    }
                    if node_ops_valid(e) {
                        assert forall|j: int|
                            0 <= j < ops@.len() implies op_sel_compatible(
                            (#[trigger] ops@[j]).0,
                            ops@[j].1,
                        ) && set_op_allowed(ops@[j].0) by {
                            assert(op_sel_compatible(sops@[j].op, sops@[j].sel) && set_op_allowed(
                                sops@[j].op,
                            ));
                        }
                    }
                }
            }
            Ok(e)
        },
    }
}

/// Lowers a possibly missing operand and allocates it: a missing operand
/// becomes a `Missing` node that totals as zero.
fn lower_opt(o: &Option<Box<Ast>>, db: &mut Database, ctx: &mut RollContext) -> (r: Result<
    ExprIdx,
    DatabaseError,
>)
    requires
        arena_wf(old(db)@),
        opt_rollable(*o),
    ensures
        arena_wf(final(db)@),
        old(db)@.len() <= final(db)@.len(),
        final(db)@.take(old(db)@.len() as int) == old(db)@,
        final(ctx).seed() == old(ctx).seed(),
        r is Ok <==> opt_complete(*o),
        r is Ok ==> final(ctx).history() == old(ctx).history() + opt_requests(*o),
        r matches Ok(i) ==> i < final(db)@.len() && opt_lowered(*o, final(db)@, i as int),
        r is Err ==> r == Err::<ExprIdx, DatabaseError>(DatabaseError::Missing),
        r is Ok ==> (arena_ops_valid(final(db)@) <==> (arena_ops_valid(old(db)@)
            && opt_ops_valid(*o))),
        r is Ok && arena_op_free(old(db)@) && opt_arith(*o) ==> arena_op_free(final(db)@),
        r matches Ok(i) ==> (old(ctx).seed() matches Some(sd) ==> opt_rolled(
            *o,
            final(db)@,
            i as int,
            sd,
            old(ctx).history(),
        )),
    decreases *o, 2int,
{
    match o {
        None => {
            let ghost before = db@;
            let e = Expression { kind: ExprKind::Missing, kept: false };
            let i = db.allocate(e);
            proof {
                lemma_arena_wf_push(before, e);
                lemma_ops_valid_push(before, e);
                if arena_op_free(before) {
                    lemma_op_free_push(before, e);
                }
                assert(db@.take(old(db)@.len() as int) =~= old(db)@);
                assert(ctx.history() =~= ctx.history() + opt_requests(*o));
            }
            Ok(i)
        },
        Some(b) => {
            let e = match lower_node(b, db, ctx) {
                Err(err) => {
                    return Err(err);
                },
                Ok(e) => e,
            };
            let ghost mid = db@;
            let i = db.allocate(e);
            proof {
                lemma_matched_node_wf(**b, mid, e);
                lemma_arena_wf_push(mid, e);
                lemma_ops_valid_push(mid, e);
                if arena_op_free(old(db)@) && opt_arith(*o) {
                    lemma_op_free_push(mid, e);
                }
                assert(db@.take(old(db)@.len() as int) =~= old(db)@);
                assert(db@.take(mid.len() as int) =~= mid);
                lemma_expr_matches_prefix(**b, mid, db@, e);
                if let Some(sd) = old(ctx).seed() {
                    lemma_expr_rolled_prefix(**b, mid, db@, e, sd, old(ctx).history());
                    assert(db@[i as int] == e);
                }
            }
            Ok(i)
        },
    }
}

/// Lowers a whole tree and allocates its root, whose index is returned.
///
/// Lowering succeeds exactly when every number the tree needs is present;
/// dice are rolled here, once per requested die, and never again at
/// evaluation time. The arena only grows: indices already handed out keep
/// their nodes. The draws consumed are exactly `roll_requests(*ast)`, so
/// on a seeded context every value rolled is `nth_roll` of the seed and a
/// prefix of that sequence: re-lowering the same tree with the same seed
/// reproduces the rolls byte for byte.
pub fn lower(ast: &Ast, db: &mut Database, ctx: &mut RollContext) -> (r: Result<
    ExprIdx,
    DatabaseError,
>)
    requires
        arena_wf(old(db)@),
        ast_rollable(*ast),
    ensures
        arena_wf(final(db)@),
        old(db)@.len() <= final(db)@.len(),
        final(db)@.take(old(db)@.len() as int) == old(db)@,
        final(ctx).seed() == old(ctx).seed(),
        r is Ok <==> ast_complete(*ast),
        r is Ok ==> final(ctx).history() == old(ctx).history() + roll_requests(*ast),
        r matches Ok(i) ==> i < final(db)@.len() && lowered_matches(*ast, final(db)@, i as int),
        r is Err ==> r == Err::<ExprIdx, DatabaseError>(DatabaseError::Missing),
        r is Ok ==> (arena_ops_valid(final(db)@) <==> (arena_ops_valid(old(db)@)
            && ast_ops_valid(*ast))),
        r is Ok && arena_op_free(old(db)@) && ast_arith(*ast) ==> arena_op_free(final(db)@),
        r matches Ok(i) ==> (old(ctx).seed() matches Some(sd) ==> expr_rolled(
            *ast,
            final(db)@,
            final(db)@[i as int],
            sd,
            old(ctx).history(),
        )),
{
    let e = match lower_node(ast, db, ctx) {
        Err(err) => {
            return Err(err);
        },
        Ok(e) => e,
    };
    let ghost mid = db@;
    let i = db.allocate(e);
    proof {
        lemma_matched_node_wf(*ast, mid, e);
        lemma_arena_wf_push(mid, e);
        lemma_ops_valid_push(mid, e);
        if arena_op_free(old(db)@) && ast_arith(*ast) {
            lemma_op_free_push(mid, e);
        }
        assert(db@.take(old(db)@.len() as int) =~= old(db)@);
        assert(db@.take(mid.len() as int) =~= mid);
        lemma_expr_matches_prefix(*ast, mid, db@, e);
        if let Some(sd) = old(ctx).seed() {
            lemma_expr_rolled_prefix(*ast, mid, db@, e, sd, old(ctx).history());
            assert(db@[i as int] == e);
        }
    }
    Ok(i)
}

/// Re-lowering is deterministic: two lowerings of the same dice group with
/// the same seed at the same stream position store byte-identical roll
/// sequences — the two groups hold equally many dice, and the dice hold
/// pairwise-equal rolled values, in the same order. `lower` establishes
/// `expr_matches` and, on a seeded context, `expr_rolled` for every node it
/// produces, so this applies to every dice group of any two lowerings of
/// one tree under one seed.
pub proof fn lemma_lowering_deterministic(
    ast: Ast,
    a1: Seq<Expression>,
    e1: Expression,
    a2: Seq<Expression>,
    e2: Expression,
    seed: u64,
    hist: Seq<u64>,
)
    requires
        ast is Dice,
        expr_matches(ast, a1, e1),
        expr_rolled(ast, a1, e1, seed, hist),
        expr_matches(ast, a2, e2),
        expr_rolled(ast, a2, e2, seed, hist),
    ensures
        e1.kind matches ExprKind::Dice(d1) && e2.kind matches ExprKind::Dice(d2) && {
            &&& d1.values@.len() == d2.values@.len()
            &&& forall|k: int|
                0 <= k < d1.values@.len() ==> lit_value_at(
                    a1,
                    (#[trigger] d1.values@[k]).values@[0] as int,
                ) == lit_value_at(a2, d2.values@[k].values@[0] as int)
        },
{
    if let Ast::Dice { count, sides, ops } = ast {
        if let ExprKind::Dice(d1) = e1.kind {
            if let ExprKind::Dice(d2) = e2.kind {
                assert forall|k: int|
                    0 <= k < d1.values@.len() implies lit_value_at(
                    a1,
                    (#[trigger] d1.values@[k]).values@[0] as int,
                ) == lit_value_at(a2, d2.values@[k].values@[0] as int) by {
                    if let Some(s) = sides {
                        assert(lit_value_at(a1, d1.values@[k].values@[0] as int)
                            == crate::rng::nth_roll(
                            seed,
                            hist + Seq::new(k as nat, |i: int| s),
                            s,
                        ));
                        assert(d2.values@.len() == d2.count);
                        assert(lit_value_at(a2, d2.values@[k].values@[0] as int)
                            == crate::rng::nth_roll(
                            seed,
                            hist + Seq::new(k as nat, |i: int| s),
                            s,
                        ));
                    }
                }
            }
        }
    }
}

/// Rolling happens exactly once, at construction time: immediately after
/// lowering, a dice group holds exactly `count` dice, each with exactly
/// one rolled value in `[1, sides]`.
pub proof fn lemma_lowered_dice_rolled_once(ast: Ast, arena: Seq<Expression>, i: int)
    requires
        lowered_matches(ast, arena, i),
        ast is Dice,
    ensures
        arena[i].kind matches ExprKind::Dice(d) && d.values@.len() == d.count && forall|k: int|
            0 <= k < d.values@.len() ==> (#[trigger] d.values@[k]).values@.len() == 1,
{
    if let Ast::Dice { count, sides, ops } = ast {
        if let ExprKind::Dice(d) = arena[i].kind {
            assert forall|k: int| 0 <= k < d.values@.len() implies (#[trigger] d.values@[
                k
            ]).values@.len() == 1 by {
                assert(die_fresh(arena, d.values@[k], d.sides));
            }
        }
    }
}

} // verus!
