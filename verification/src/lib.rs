//! Dice-notation evaluation: a seeded rolling context, an append-only
//! expression arena, lowering of an abstract syntax tree into rolled
//! expressions, a set-operation resolution engine (keep / drop / reroll /
//! explode / min / max with rank- and value-based selectors), and a total
//! evaluator.

use vstd::prelude::*;

pub mod ast;
pub mod database;
pub mod lower;
pub mod numeral;
pub mod ops;
pub mod rng;
pub mod roll;
pub mod syntax;
pub mod total;
pub mod validation;

use crate::ast::Ast;
use crate::database::{arena_wf, Database, DatabaseError, ExprIdx};
use crate::lower::{
    ast_arith, ast_complete, ast_ops_valid, ast_rollable, ast_total, lemma_arith_total, lower,
};
use crate::ops::{arena_op_free, arena_ops_valid, resolve, ResolveError};
use crate::rng::RollContext;
use crate::total::{spec_total, total, ExprError};

verus! {

/// The artifact of one full evaluation: the populated arena, the root
/// node's index, and the root's total.
pub struct RollResult {
    pub database: Database,
    pub root: ExprIdx,
    pub total: i64,
}

/// A failure anywhere in the pipeline: lowering, resolution, or totalling.
#[derive(Debug, Copy, Clone, PartialEq, Eq, Structural)]
pub enum RollError {
    Database(DatabaseError),
    Resolve(ResolveError),
    Expr(ExprError),
}

/// Runs the whole pipeline on one tree with the given rolling context:
/// lowering (which rolls every die), validation and resolution of every
/// set operation, and the final total.
///
/// Fails with `Database(Missing)` exactly when the tree lacks a needed
/// number, and with `Resolve(InvalidOperation)` exactly when a complete
/// tree carries an illegal operator/selector pairing (or a set operation a
/// set cannot take). On a complete pure-arithmetic tree nothing outside
/// the tree decides, so the outcome is owed: the tree's own total when it
/// evaluates, its evaluation error (a division by zero, an overflow)
/// otherwise. The returned total is exactly the root's total in the
/// returned arena.
pub fn evaluate_ast(tree: &Ast, ctx: &mut RollContext) -> (r: Result<RollResult, RollError>)
    requires
        ast_rollable(*tree),
    ensures
        r == Err::<RollResult, RollError>(RollError::Database(DatabaseError::Missing))
            <==> !ast_complete(*tree),
        r == Err::<RollResult, RollError>(RollError::Resolve(ResolveError::InvalidOperation))
            <==> (ast_complete(*tree) && !ast_ops_valid(*tree)),
        r matches Ok(res) ==> {
            &&& arena_wf(res.database@)
            &&& res.root < res.database@.len()
            &&& spec_total(res.database@, res.root as int) == Ok::<int, ExprError>(
                res.total as int,
            )
        },
        ast_complete(*tree) && ast_arith(*tree) ==> (ast_total(*tree) matches Ok(v) ==> (r
            matches Ok(res) && res.total as int == v)),
        ast_complete(*tree) && ast_arith(*tree) ==> (ast_total(*tree) matches Err(e) ==> r
            == Err::<RollResult, RollError>(RollError::Expr(e))),
{
    let mut db = Database::new();
    let root = match lower(tree, &mut db, ctx) {
        Ok(i) => i,
        Err(e) => {
            return Err(RollError::Database(e));
        },
    };
    let ghost lowered = db@;
    proof {
        assert(arena_ops_valid(lowered) <==> ast_ops_valid(*tree));
        if ast_arith(*tree) {
            assert(arena_op_free(lowered));
            lemma_arith_total(*tree, lowered, root as int);
        }
    }
    match resolve(&mut db, ctx, root) {
        Ok(()) => {},
        Err(e) => {
            return Err(RollError::Resolve(e));
        },
    }
    let t = match total(&db, root) {
        Ok(t) => t,
        Err(e) => {
            return Err(RollError::Expr(e));
        },
    };
    Ok(RollResult { database: db, root, total: t })
}

/// Evaluates one tree with a context seeded from `seed`: the whole run is
/// reproducible.
pub fn evaluate_seeded(tree: &Ast, seed: u64) -> (r: Result<RollResult, RollError>)
    requires
        ast_rollable(*tree),
    ensures
        r == Err::<RollResult, RollError>(RollError::Database(DatabaseError::Missing))
            <==> !ast_complete(*tree),
        r == Err::<RollResult, RollError>(RollError::Resolve(ResolveError::InvalidOperation))
            <==> (ast_complete(*tree) && !ast_ops_valid(*tree)),
        r matches Ok(res) ==> {
            &&& arena_wf(res.database@)
            &&& res.root < res.database@.len()
            &&& spec_total(res.database@, res.root as int) == Ok::<int, ExprError>(
                res.total as int,
            )
        },
        ast_complete(*tree) && ast_arith(*tree) ==> (ast_total(*tree) matches Ok(v) ==> (r
            matches Ok(res) && res.total as int == v)),
        ast_complete(*tree) && ast_arith(*tree) ==> (ast_total(*tree) matches Err(e) ==> r
            == Err::<RollResult, RollError>(RollError::Expr(e))),
{
    let mut ctx = RollContext::from_seed(seed);
    evaluate_ast(tree, &mut ctx)
}

/// Evaluates one tree with a context seeded from system entropy.
pub fn evaluate(tree: &Ast) -> (r: Result<RollResult, RollError>)
    requires
        ast_rollable(*tree),
    ensures
        r == Err::<RollResult, RollError>(RollError::Database(DatabaseError::Missing))
            <==> !ast_complete(*tree),
        r == Err::<RollResult, RollError>(RollError::Resolve(ResolveError::InvalidOperation))
            <==> (ast_complete(*tree) && !ast_ops_valid(*tree)),
        r matches Ok(res) ==> {
            &&& arena_wf(res.database@)
            &&& res.root < res.database@.len()
            &&& spec_total(res.database@, res.root as int) == Ok::<int, ExprError>(
                res.total as int,
            )
        },
        ast_complete(*tree) && ast_arith(*tree) ==> (ast_total(*tree) matches Ok(v) ==> (r
            matches Ok(res) && res.total as int == v)),
        ast_complete(*tree) && ast_arith(*tree) ==> (ast_total(*tree) matches Err(e) ==> r
            == Err::<RollResult, RollError>(RollError::Expr(e))),
{
    let mut ctx = RollContext::from_entropy();
    evaluate_ast(tree, &mut ctx)
}

} // verus!
