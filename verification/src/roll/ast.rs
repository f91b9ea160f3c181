//! The plain expression tree the lightweight pipeline evaluates.

use vstd::prelude::*;

verus! {

/// A possibly absent child of a node.
pub type Child = Option<Box<Node>>;

/// One node of the tree: an operator node, or an ordered collection of
/// sub-expressions.
#[derive(Debug, PartialEq)]
pub enum Node {
    Node(InnerNode),
    SetExpr { set: Vec<Box<Node>>, ops: SetOps },
}

/// An operator with up to two children.
#[derive(Debug, PartialEq)]
pub struct InnerNode {
    pub op: Op,
    pub left: Child,
    pub right: Child,
}

/// The operators of the tree. A dice group carries its count, its sides,
/// and the keep/drop rules to apply.
#[derive(Copy, Clone, Debug, PartialEq)]
pub enum Op {
    Add,
    Sub,
    Mul,
    Div,
    Neg,
    Parens,
    Number(i32),
    Dice { num: i32, sides: i32, ops: SetOps },
}

/// The keep and drop rules of one dice group.
#[derive(Copy, Clone, Debug, PartialEq, Eq, Structural)]
pub struct SetOps {
    pub keep: Option<SetSelector>,
    pub drop: Option<SetSelector>,
}

/// How a keep or drop picks its dice: by exact value, or by rank.
#[derive(Copy, Clone, Debug, PartialEq, Eq, Structural)]
pub enum SetSelector {
    Literal(i32),
    Highest(i32),
    Lowest(i32),
}

impl Node {
    fn new(op: Op, left: Option<Node>, right: Option<Node>) -> (r: Node)
        ensures
            (r matches Node::Node(i) && i.op == op && (match i.left {
                Some(b) => left matches Some(l) && *b == l,
                None => left is None,
            }) && (match i.right {
                Some(b) => right matches Some(x) && *b == x,
                None => right is None,
            })),
    {
        let left = match left {
            Some(inner) => Some(Box::new(inner)),
            None => None,
        };
        let right = match right {
            Some(inner) => Some(Box::new(inner)),
            None => None,
        };
        Node::Node(InnerNode { op, left, right })
    }

    /// A sum node.
    #[allow(non_snake_case)]
    pub fn Add(left: Node, right: Node) -> (r: Node)
        ensures
            (r matches Node::Node(i) && i.op == Op::Add && (i.left matches Some(b) && *b == left)
                && (i.right matches Some(b) && *b == right)),
    {
        Node::new(Op::Add, Some(left), Some(right))
    }

    /// A difference node.
    #[allow(non_snake_case)]
    pub fn Sub(left: Node, right: Node) -> (r: Node)
        ensures
            (r matches Node::Node(i) && i.op == Op::Sub && (i.left matches Some(b) && *b == left)
                && (i.right matches Some(b) && *b == right)),
    {
        Node::new(Op::Sub, Some(left), Some(right))
    }

    /// A product node.
    #[allow(non_snake_case)]
    pub fn Mul(left: Node, right: Node) -> (r: Node)
        ensures
            (r matches Node::Node(i) && i.op == Op::Mul && (i.left matches Some(b) && *b == left)
                && (i.right matches Some(b) && *b == right)),
    {
        Node::new(Op::Mul, Some(left), Some(right))
    }

    /// A quotient node.
    #[allow(non_snake_case)]
    pub fn Div(left: Node, right: Node) -> (r: Node)
        ensures
            (r matches Node::Node(i) && i.op == Op::Div && (i.left matches Some(b) && *b == left)
                && (i.right matches Some(b) && *b == right)),
    {
        Node::new(Op::Div, Some(left), Some(right))
    }

    /// A negation node. Negating a plain number folds into the number.
    #[allow(non_snake_case)]
    pub fn Neg(inner: Node) -> (r: Node)
        requires
            (inner matches Node::Node(i) && i.op matches Op::Number(x) && i.left is None
                && i.right is None) ==> (inner matches Node::Node(i2) && i2.op matches Op::Number(
                x,
            ) && x != i32::MIN),
        ensures
            (inner matches Node::Node(i) && i.op matches Op::Number(x) && i.left is None
                && i.right is None) ==> (r matches Node::Node(i2) && i2.op == Op::Number(
                (-(inner->Node_0.op->Number_0)) as i32,
            ) && i2.left is None && i2.right is None),
            !(inner matches Node::Node(i) && i.op matches Op::Number(x) && i.left is None
                && i.right is None) ==> (r matches Node::Node(i) && i.op == Op::Neg
                && i.left is None && (i.right matches Some(b) && *b == inner)),
    {
        let is_plain_number = match &inner {
            Node::Node(InnerNode { op: Op::Number(_), left: None, right: None }) => true,
            _ => false,
        };
        if is_plain_number {
            match inner {
                Node::Node(InnerNode { op: Op::Number(x), left: _, right: _ }) => Node::Number(-x),
                _ => inner,
            }
        } else {
            Node::new(Op::Neg, None, Some(inner))
        }
    }

    /// A parenthesized node.
    #[allow(non_snake_case)]
    pub fn Parens(inner: Node) -> (r: Node)
        ensures
            (r matches Node::Node(i) && i.op == Op::Parens && (i.left matches Some(b) && *b
                == inner) && i.right is None),
    {
        Node::new(Op::Parens, Some(inner), None)
    }

    /// A constant node.
    #[allow(non_snake_case)]
    pub fn Number(value: i32) -> (r: Node)
        ensures
            (r matches Node::Node(i) && i.op == Op::Number(value) && i.left is None
                && i.right is None),
    {
        Node::new(Op::Number(value), None, None)
    }

    /// A dice-group node; without rules, an empty rule set applies.
    #[allow(non_snake_case)]
    pub fn Dice(num: i32, sides: i32, ops: Option<SetOps>) -> (r: Node)
        ensures
            (r matches Node::Node(i) && i.op == (Op::Dice {
                num,
                sides,
                ops: match ops {
                    Some(o) => o,
                    None => (SetOps { keep: None, drop: None }),
                },
            }) && i.left is None && i.right is None),
    {
        let ops = match ops {
            Some(o) => o,
            None => SetOps::default(),
        };
        Node::new(Op::Dice { num, sides, ops }, None, None)
    }
}

impl Default for SetOps {
    /// The empty rule set: keep nothing, drop nothing.
    fn default() -> (r: SetOps)
        ensures
            r.keep is None && r.drop is None,
    {
        SetOps { keep: None, drop: None }
    }
}

/// One step of `SetOps::build`: a `"k"` entry sets the keep rule, an
/// `"l"` entry sets the drop rule; the last entry of each kind wins.
pub open spec fn build_step(acc: SetOps, entry: (String, SetSelector)) -> SetOps {
    if entry.0@ == "k"@ {
        SetOps { keep: Some(entry.1), drop: acc.drop }
    } else {
        SetOps { keep: acc.keep, drop: Some(entry.1) }
    }
}

/// The rule set after the first `n` entries.
pub open spec fn build_upto(items: Seq<(String, SetSelector)>, n: int) -> SetOps
    decreases n,
{
    if n <= 0 {
        SetOps { keep: None, drop: None }
    } else {
        build_step(build_upto(items, n - 1), items[n - 1])
    }
}

impl SetOps {
    /// Folds parsed `(operator, selector)` pairs into a rule set, in order.
    /// Only the keep (`"k"`) and drop (`"l"`) operators exist here; anything
    /// else is a parser bug and is excluded up front.
    pub fn build(items: Vec<(String, SetSelector)>) -> (r: SetOps)
        requires
            forall|i: int|
                0 <= i < items@.len() ==> (#[trigger] items@[i]).0@ == "k"@ || items@[i].0@
                    == "l"@,
        ensures
            r == build_upto(items@, items@.len() as int),
    {
        let mut ops = SetOps::default();
        let mut i: usize = 0;
        while i < items.len()
            invariant
                i <= items@.len(),
                forall|j: int|
                    0 <= j < items@.len() ==> (#[trigger] items@[j]).0@ == "k"@ || items@[j].0@
                        == "l"@,
                ops == build_upto(items@, i as int),
            decreases items@.len() - i,
        {
            let entry = &items[i];
            let is_keep = entry.0.eq(&"k".to_owned());
            if is_keep {
                ops.keep = Some(entry.1);
            } else {
                ops.drop = Some(entry.1);
            }
            i = i + 1;
        }
        ops
    }
}

} // verus!
