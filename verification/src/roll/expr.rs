//! The lightweight evaluator: walks a plain expression tree, rolling each
//! dice group as it meets it, and produces a result tree that records
//! every roll.

use vstd::prelude::*;
use crate::roll::ast::{InnerNode, Node, Op};
use crate::roll::eval::{DiceRoll, EvalNode};
use crate::rng::{entropy_rng, roll_i32, seeded_rng};

verus! {

/// The seed the reproducible tests run under.
pub const TEST_SEED: u64 = 10353;

/// An evaluation failure: a zero-sided die cannot be rolled.
#[derive(Debug, Copy, Clone, PartialEq, Eq, Structural)]
pub enum ExprError {
    ZeroSides,
}

/// The result of a fallible evaluation.
pub type ExprResult<T> = Result<T, ExprError>;

/// A tree paired with an optional seed: with a seed the evaluation is
/// reproducible, without one it draws from system entropy.
pub struct Expression {
    head: Option<Node>,
    seed: Option<u64>,
}

/// Whether every node the evaluator walks has the children its operator
/// needs.
pub open spec fn node_shape_ok(n: Node) -> bool
    decreases n,
{
    match n {
        Node::SetExpr { set, ops } => forall|k: int|
            0 <= k < set.len() ==> node_shape_ok(*#[trigger] set[k]),
        Node::Node(i) => match i.op {
            Op::Add | Op::Sub | Op::Mul | Op::Div => (i.left matches Some(b) && node_shape_ok(*b))
                && (i.right matches Some(b2) && node_shape_ok(*b2)),
            Op::Neg => i.right matches Some(b) && node_shape_ok(*b),
            Op::Parens => i.left matches Some(b) && node_shape_ok(*b),
            Op::Number(_) => true,
            Op::Dice { .. } => true,
        },
    }
}

/// Whether every dice group has a non-negative count and sides: negative
/// ones cannot be rolled and are rejected upstream.
pub open spec fn node_args_ok(n: Node) -> bool
    decreases n,
{
    match n {
        Node::SetExpr { set, ops } => forall|k: int|
            0 <= k < set.len() ==> node_args_ok(*#[trigger] set[k]),
        Node::Node(i) => match i.op {
            Op::Add | Op::Sub | Op::Mul | Op::Div => (i.left matches Some(b) && node_args_ok(*b))
                && (i.right matches Some(b2) && node_args_ok(*b2)),
            Op::Neg => i.right matches Some(b) ==> node_args_ok(*b),
            Op::Parens => i.left matches Some(b) ==> node_args_ok(*b),
            Op::Number(_) => true,
            Op::Dice { num, sides, ops } => num >= 0 && sides >= 0,
        },
    }
}

/// Whether no dice group of the tree is zero-sided: evaluation succeeds
/// exactly on such trees.
pub open spec fn node_no_zero_sides(n: Node) -> bool
    decreases n,
{
    match n {
        Node::SetExpr { set, ops } => forall|k: int|
            0 <= k < set.len() ==> node_no_zero_sides(*#[trigger] set[k]),
        Node::Node(i) => match i.op {
            Op::Add | Op::Sub | Op::Mul | Op::Div => (i.left matches Some(b)
                && node_no_zero_sides(*b)) && (i.right matches Some(b2) && node_no_zero_sides(
                *b2,
            )),
            Op::Neg => i.right matches Some(b) ==> node_no_zero_sides(*b),
            Op::Parens => i.left matches Some(b) ==> node_no_zero_sides(*b),
            Op::Number(_) => true,
            Op::Dice { num, sides, ops } => sides != 0,
        },
    }
}

/// Whether the result tree `e` is an evaluation of the input tree `n`:
/// the same shape, with every dice group replaced by `num` kept rolls in
/// `[1, sides]`.
pub open spec fn eval_matches(n: Node, e: EvalNode) -> bool
    decreases n,
{
    match n {
        Node::SetExpr { set, ops } => e matches EvalNode::SetExpr(items) && items@.len()
            == set@.len() && forall|k: int|
            0 <= k < set@.len() ==> eval_matches(*#[trigger] set@[k], items@[k]),
        Node::Node(i) => match i.op {
            Op::Add | Op::Sub | Op::Mul | Op::Div => e matches EvalNode::BinaryOp {
                op,
                left,
                right,
            } && op == i.op && (i.left matches Some(b) && eval_matches(*b, *left)) && (
            i.right matches Some(b2) && eval_matches(*b2, *right)),
            Op::Neg => e matches EvalNode::UnaryOp { op, inner } && op == Op::Neg && (
            i.right matches Some(b) && eval_matches(*b, *inner)),
            Op::Parens => e matches EvalNode::Parens { inner } && (i.left matches Some(b)
                && eval_matches(*b, *inner)),
            Op::Number(x) => e == EvalNode::Number(x),
            Op::Dice { num, sides, ops } => e matches EvalNode::Dice {
                num: n2,
                sides: s2,
                rolls,
            } && n2 == num && s2 == sides && rolls@.len() == num && forall|k: int|
                0 <= k < rolls@.len() ==> (#[trigger] rolls@[k]).kept && 1 <= rolls@[k].value
                    <= sides,
        },
    }
}

/// Rolls `num` dice of `sides` sides, in order, from the given stream.
fn compute_dice(num: i32, sides: i32, rng: &mut rand::rngs::StdRng) -> (r: Vec<i32>)
    requires
        num >= 0,
        sides >= 1,
    ensures
        r@.len() == num,
        forall|k: int| 0 <= k < r@.len() ==> 1 <= #[trigger] r@[k] <= sides,
{
    let mut r: Vec<i32> = Vec::new();
    if num == 0 {
        return r;
    }
    let mut k: i32 = 0;
    while k < num
        invariant
            0 <= k <= num,
            sides >= 1,
            r@.len() == k,
            forall|j: int| 0 <= j < r@.len() ==> 1 <= #[trigger] r@[j] <= sides,
        decreases num - k,
    {
        let v = roll_i32(rng, sides);
        r.push(v);
        k = k + 1;
    }
    r
}

impl Expression {
    /// The tree under evaluation.
    pub closed spec fn spec_head(self) -> Option<Node> {
        self.head
    }

    /// The seed, if the expression carries one.
    pub closed spec fn spec_seed(self) -> Option<u64> {
        self.seed
    }

    /// An expression that will draw from system entropy.
    pub fn new(head: Node) -> (r: Expression)
        ensures
            r.spec_head() == Some(head),
            r.spec_seed() == Option::<u64>::None,
    {
        Expression { head: Some(head), seed: None }
    }

    /// An expression that will draw from a stream seeded with `seed`.
    pub fn from_seed(head: Node, seed: u64) -> (r: Expression)
        ensures
            r.spec_head() == Some(head),
            r.spec_seed() == Some(seed),
    {
        Expression { head: Some(head), seed: Some(seed) }
    }

    /// Evaluates the tree, rolling every dice group in walking order from
    /// one stream. Fails exactly when some dice group is zero-sided; on
    /// success the result tree mirrors the input with every group's rolls
    /// recorded and kept.
    pub fn eval(&self) -> (r: ExprResult<EvalNode>)
        requires
            self.spec_head() matches Some(h) && node_shape_ok(h) && node_args_ok(h),
        ensures
            self.spec_head() matches Some(h) ==> {
                &&& r is Ok <==> node_no_zero_sides(h)
                &&& (r matches Ok(e) ==> eval_matches(h, e))
                &&& (r is Err ==> r == Err::<EvalNode, ExprError>(ExprError::ZeroSides))
            },
    {
        let mut rng = match self.seed {
            Some(seed) => seeded_rng(seed),
            None => entropy_rng(),
        };
        match &self.head {
            Some(head) => Self::eval_recursive(head, &mut rng),
            None => Err(ExprError::ZeroSides),
        }
    }

    /// One step of the walk: leaves evaluate to themselves, dice groups
    /// roll eagerly, operators recurse.
    fn eval_recursive(head: &Node, rng: &mut rand::rngs::StdRng) -> (r: ExprResult<EvalNode>)
        requires
            node_shape_ok(*head),
            node_args_ok(*head),
        ensures
            r is Ok <==> node_no_zero_sides(*head),
            r matches Ok(e) ==> eval_matches(*head, e),
            r is Err ==> r == Err::<EvalNode, ExprError>(ExprError::ZeroSides),
        decreases *head,
    {
        match head {
            Node::SetExpr { set, ops } => {
                let ghost sq = set@;
                let mut items: Vec<EvalNode> = Vec::new();
                let mut k: usize = 0;
                while k < set.len()
                    invariant
                        k <= sq.len(),
                        set@ == sq,
                        node_shape_ok(*head),
                        node_args_ok(*head),
                        *head matches Node::SetExpr { set: s2, ops: o2 } && s2@ == sq,
                        items@.len() == k,
                        forall|j: int| 0 <= j < k ==> node_no_zero_sides(*#[trigger] sq[j]),
                        forall|j: int|
                            0 <= j < k ==> eval_matches(*#[trigger] sq[j], items@[j]),
                    decreases sq.len() - k,
                {
                    proof {
                        assert(node_shape_ok(*sq[k as int]));
                        assert(node_args_ok(*sq[k as int]));
                    }
                    match Self::eval_recursive(&set[k], rng) {
                        Ok(e) => {
                            items.push(e);
                        },
                        Err(e) => {
                            return Err(e);
                        },
                    }
                    k = k + 1;
                }
                Ok(EvalNode::SetExpr(items))
            },
            Node::Node(inner) => {
                match &inner.op {
                    Op::Parens => {
                        let child = match &inner.left {
                            Some(b) => b,
                            None => {
                                return Err(ExprError::ZeroSides);
                            },
                        };
                        match Self::eval_recursive(child, rng) {
                            Ok(e) => Ok(EvalNode::Parens { inner: Box::new(e) }),
                            Err(e) => Err(e),
                        }
                    },
                    Op::Neg => {
                        let child = match &inner.right {
                            Some(b) => b,
                            None => {
                                return Err(ExprError::ZeroSides);
                            },
                        };
                        match Self::eval_recursive(child, rng) {
                            Ok(e) => Ok(EvalNode::UnaryOp { op: Op::Neg, inner: Box::new(e) }),
                            Err(e) => Err(e),
                        }
                    },
                    Op::Number(x) => Ok(EvalNode::Number(*x)),
                    Op::Dice { num, sides, ops: _ } => {
                        if *sides == 0 {
                            Err(ExprError::ZeroSides)
                        } else {
                            let rolls = compute_dice(*num, *sides, rng);
                            let rolls = DiceRoll::build(rolls);
                            Ok(EvalNode::Dice { num: *num, sides: *sides, rolls })
                        }
                    },
                    _ => {
                        let lchild = match &inner.left {
                            Some(b) => b,
                            None => {
                                return Err(ExprError::ZeroSides);
                            },
                        };
                        let rchild = match &inner.right {
                            Some(b) => b,
                            None => {
                                return Err(ExprError::ZeroSides);
                            },
                        };
                        let left = match Self::eval_recursive(lchild, rng) {
                            Ok(e) => e,
                            Err(e) => {
                                return Err(e);
                            },
                        };
                        let right = match Self::eval_recursive(rchild, rng) {
                            Ok(e) => e,
                            Err(e) => {
                                return Err(e);
                            },
                        };
                        Ok(
                            EvalNode::BinaryOp {
                                op: inner.op,
                                left: Box::new(left),
                                right: Box::new(right),
                            },
                        )
                    },
                }
            },
        }
    }
}

} // verus!
