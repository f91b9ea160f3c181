//! The expression arena and the rolled expression nodes it stores.
//!
//! The arena is an append-only store: an index handed out by `allocate` stays
//! valid for the life of the arena and is the only way one node refers to
//! another. Set operations never delete a node; they flip its `kept` flag or
//! push further values onto it, so the full roll history stays readable.

use vstd::prelude::*;
use crate::ast::{BinaryOp, SetOp, SetSel, UnaryOp};

verus! {

/// An opaque index into the arena. It is never reused and never invalidated
/// by later allocations.
pub type ExprIdx = usize;

/// A set operation after lowering: operator, selector, and the number, which
/// is present from here on.
#[derive(Debug, Copy, Clone, PartialEq, Eq, Structural)]
pub struct SetOperation {
    pub op: SetOp,
    pub sel: SetSel,
    pub num: u64,
}

/// A constant, possibly overwritten by min/max/reroll: only the last value
/// counts, unless the literal was exploded, in which case all values sum.
#[derive(Debug, Clone, PartialEq)]
pub struct Literal {
    pub values: Vec<u64>,
    pub exploded: bool,
}

/// An arithmetic combination of two nodes.
#[derive(Debug, Clone, PartialEq)]
pub struct BinaryExpr {
    pub lhs: ExprIdx,
    pub rhs: ExprIdx,
    pub op: BinaryOp,
}

/// A sign applied to one node.
#[derive(Debug, Clone, PartialEq)]
pub struct UnaryExpr {
    pub expr: ExprIdx,
    pub op: UnaryOp,
}

/// One physical die. Each entry of `values` is the index of a `Literal`
/// node; the list grows when the die is rerolled or exploded. Only the last
/// value is live, unless some value was exploded, in which case all values
/// sum. `kept` is flipped to false when a set operation drops the die.
#[derive(Debug, Clone, PartialEq)]
pub struct Die {
    pub sides: u64,
    pub values: Vec<ExprIdx>,
    pub kept: bool,
}

/// A rolled group of `count` dice of `sides` sides each, plus the ordered
/// set operations to apply to it.
#[derive(Debug, Clone, PartialEq)]
pub struct Dice {
    pub count: u64,
    pub sides: u64,
    pub values: Vec<Die>,
    pub ops: Vec<SetOperation>,
}

/// An ordered, heterogeneous collection of nodes, plus the ordered set
/// operations to apply to it.
#[derive(Debug, Clone, PartialEq)]
pub struct SetExpr {
    pub items: Vec<ExprIdx>,
    pub ops: Vec<SetOperation>,
}

/// The payload of one arena node.
#[derive(Debug, Clone, PartialEq)]
pub enum ExprKind {
    /// An operand the parser could not produce; totals as zero.
    Missing,
    BinaryExpr(BinaryExpr),
    Dice(Dice),
    Literal(Literal),
    SetExpr(SetExpr),
    UnaryExpr(UnaryExpr),
}

/// One arena node: a payload and the flag saying whether the node still
/// contributes to its parent's total.
#[derive(Debug, Clone, PartialEq)]
pub struct Expression {
    pub kind: ExprKind,
    pub kept: bool,
}

/// A lowering-time failure: a node needed a present number (a literal's
/// value, a dice's count or sides, an operation's number) but it was missing.
#[derive(Debug, Copy, Clone, PartialEq, Eq, Structural)]
pub enum DatabaseError {
    Missing,
}

/// The append-only arena of expression nodes.
#[derive(Debug, PartialEq)]
pub struct Database {
    exprs: Vec<Expression>,
}

impl View for Database {
    type V = Seq<Expression>;

    closed spec fn view(&self) -> Seq<Expression> {
        self.exprs@
    }
}

impl Database {
    /// An empty arena.
    pub fn new() -> (db: Database)
        ensures
            db@ == Seq::<Expression>::empty(),
    {
        Database { exprs: Vec::new() }
    }

    /// The arena is never longer than a vector can be.
    pub proof fn lemma_len_bound(&self)
        ensures
            self@.len() <= usize::MAX,
    {
        assert(vstd::std_specs::vec::spec_vec_len(&self.exprs) == self.exprs@.len());
    }

    /// The number of nodes allocated so far.
    pub fn len(&self) -> (n: usize)
        ensures
            n == self@.len(),
    {
        self.exprs.len()
    }

    /// Appends a node and returns its index. Indices already handed out are
    /// untouched.
    pub fn allocate(&mut self, expr: Expression) -> (idx: ExprIdx)
        ensures
            final(self)@ == old(self)@.push(expr),
            idx == old(self)@.len(),
    {
        let idx = self.exprs.len();
        self.exprs.push(expr);
        idx
    }

    /// Reads the node at `idx`. An index not handed out by this arena is a
    /// programmer error and is excluded by the precondition.
    pub fn get(&self, idx: ExprIdx) -> (expr: &Expression)
        requires
            idx < self@.len(),
        ensures
            *expr == self@[idx as int],
    {
        &self.exprs[idx]
    }

    /// Mutable access to the node at `idx`, for in-place rule application.
    pub fn get_mut(&mut self, idx: ExprIdx) -> (expr: &mut Expression)
        requires
            idx < old(self)@.len(),
        ensures
            *expr == old(self)@[idx as int],
            final(self)@ == old(self)@.update(idx as int, *final(expr)),
    {
        &mut self.exprs[idx]
    }

    /// Replaces the node at `idx` and hands the old node back, so that a
    /// rule can work on it while the arena stays borrowable.
    pub fn replace(&mut self, idx: ExprIdx, expr: Expression) -> (prev: Expression)
        requires
            idx < old(self)@.len(),
        ensures
            prev == old(self)@[idx as int],
            final(self)@ == old(self)@.update(idx as int, expr),
    {
        let mut prev = expr;
        core::mem::swap(&mut prev, &mut self.exprs[idx]);
        prev
    }
}

/// Whether `v` is the index of a literal node of `arena`.
pub open spec fn is_literal(arena: Seq<Expression>, v: int) -> bool {
    0 <= v < arena.len() && arena[v].kind is Literal
}

/// Structural well-formedness of one die whose value indices must lie below
/// `bound`: it has rolled at least once and every value points at a
/// non-empty literal node.
pub open spec fn die_wf(arena: Seq<Expression>, d: Die, bound: int) -> bool {
    &&& d.sides >= 1
    &&& d.values.len() > 0
    &&& forall|k: int|
        0 <= k < d.values.len() ==> {
            &&& #[trigger] d.values[k] < bound
            &&& is_literal(arena, d.values[k] as int)
        }
}

/// Whether no two dice of a group share a literal node: each die's history
/// is its own.
pub open spec fn dice_values_distinct(dies: Seq<Die>) -> bool {
    forall|k1: int, k2: int, i1: int, i2: int|
        0 <= k1 < dies.len() && 0 <= k2 < dies.len() && k1 != k2 && 0 <= i1
            < dies[k1].values.len() && 0 <= i2 < dies[k2].values.len() ==> #[trigger] dies[k1].values[i1]
            != #[trigger] dies[k2].values[i2]
}

/// Structural well-formedness of a dice group whose value indices must lie
/// below `bound`.
pub open spec fn dice_wf(arena: Seq<Expression>, d: Dice, bound: int) -> bool {
    &&& forall|k: int| 0 <= k < d.values.len() ==> die_wf(arena, #[trigger] d.values[k], bound)
    &&& dice_values_distinct(d.values@)
}

/// Structural well-formedness of the node at `i`: its children sit strictly
/// below it in the arena, and every literal node read at totalling time has
/// at least one value.
pub open spec fn node_wf(arena: Seq<Expression>, i: int) -> bool {
    match arena[i].kind {
        ExprKind::Missing => true,
        ExprKind::Literal(lit) => lit.values.len() > 0,
        ExprKind::BinaryExpr(b) => b.lhs < i && b.rhs < i,
        ExprKind::UnaryExpr(u) => u.expr < i,
        ExprKind::Dice(d) => dice_wf(arena, d, arena.len() as int),
        ExprKind::SetExpr(s) => (forall|k: int|
            0 <= k < s.items.len() ==> #[trigger] s.items[k] < i) && (forall|k1: int, k2: int|
            0 <= k1 < k2 < s.items.len() ==> s.items[k1] != s.items[k2]),
    }
}

/// Structural well-formedness of the whole arena. Lowering establishes it
/// and the resolution engine preserves it.
pub open spec fn arena_wf(arena: Seq<Expression>) -> bool {
    forall|i: int| 0 <= i < arena.len() ==> #[trigger] node_wf(arena, i)
}

} // verus!
