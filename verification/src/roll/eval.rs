//! The result tree of one evaluation: every roll is recorded, and the
//! tree can be totalled or rendered.

use vstd::prelude::*;
use crate::numeral::{dec_int, int_str};
use crate::roll::ast::Op;
use vstd::string::StringExecFns;

verus! {

/// A totalling failure: division by zero, a zero-sided die, or a value
/// that does not fit a 32-bit signed integer.
#[derive(Debug, Copy, Clone, PartialEq, Eq, Structural)]
pub enum EvalError {
    ZeroDivision,
    ZeroSides,
    Overflow,
}

/// The result of a fallible evaluation step.
pub type EvalResult<T> = Result<T, EvalError>;

/// One evaluated node: the shape of the input tree with every dice group
/// replaced by its recorded rolls.
#[derive(Debug, PartialEq)]
pub enum EvalNode {
    BinaryOp { op: Op, left: Box<EvalNode>, right: Box<EvalNode> },
    UnaryOp { op: Op, inner: Box<EvalNode> },
    Parens { inner: Box<EvalNode> },
    Number(i32),
    Dice { num: i32, sides: i32, rolls: Vec<DiceRoll> },
    SetExpr(Vec<EvalNode>),
}

/// One recorded roll and whether it still counts toward the total.
#[derive(Debug, Copy, Clone, PartialEq, Eq, Structural)]
pub struct DiceRoll {
    pub value: i32,
    pub kept: bool,
}

/// Whether `v` fits a 32-bit signed integer.
pub open spec fn in_i32(v: int) -> bool {
    i32::MIN <= v <= i32::MAX
}

/// A value is reported only when it fits a 32-bit signed integer.
pub open spec fn bound_value(v: int) -> Result<int, EvalError> {
    if in_i32(v) {
        Ok(v)
    } else {
        Err(EvalError::Overflow)
    }
}

/// The sum of the kept rolls of a dice group.
pub open spec fn rolls_total(rolls: Seq<DiceRoll>) -> int
    decreases rolls.len(),
{
    if rolls.len() == 0 {
        0
    } else {
        rolls_total(rolls.drop_last()) + if rolls.last().kept {
            rolls.last().value as int
        } else {
            0
        }
    }
}

/// The sum of the values of a set's items, left to right; the leftmost
/// error wins.
pub open spec fn items_value(items: Seq<EvalNode>) -> Result<int, EvalError>
    decreases items, 1int,
{
    if items.len() == 0 {
        Ok(0)
    } else {
        match items_value(items.drop_last()) {
            Err(e) => Err(e),
            Ok(acc) => match spec_value(items.last()) {
                Err(e) => Err(e),
                Ok(v) => Ok(acc + v),
            },
        }
    }
}

/// The value of one evaluated node: constants and recorded rolls are
/// folded with the operator semantics, division by zero is an error, and
/// any value outside the 32-bit signed range is an overflow.
pub open spec fn spec_value(n: EvalNode) -> Result<int, EvalError>
    decreases n, 2int,
{
    match n {
        EvalNode::Number(x) => Ok(x as int),
        EvalNode::Parens { inner } => spec_value(*inner),
        EvalNode::UnaryOp { op, inner } => match spec_value(*inner) {
            Err(e) => Err(e),
            Ok(v) => bound_value(-v),
        },
        EvalNode::BinaryOp { op, left, right } => match spec_value(*left) {
            Err(e) => Err(e),
            Ok(l) => match spec_value(*right) {
                Err(e) => Err(e),
                Ok(r) => match op {
                    Op::Add => bound_value(l + r),
                    Op::Sub => bound_value(l - r),
                    Op::Mul => bound_value(l * r),
                    Op::Div => if r == 0 {
                        Err(EvalError::ZeroDivision)
                    } else {
                        bound_value(crate::total::spec_div_trunc(l, r))
                    },
                    _ => Ok(0),
                },
            },
        },
        EvalNode::Dice { num, sides, rolls } => bound_value(rolls_total(rolls@)),
        EvalNode::SetExpr(items) => match items_value(items@) {
            Err(e) => Err(e),
            Ok(v) => bound_value(v),
        },
    }
}

impl EvalNode {
    /// A sum node.
    #[allow(non_snake_case)]
    pub fn Add(left: EvalNode, right: EvalNode) -> (r: EvalNode)
        ensures
            (r matches EvalNode::BinaryOp { op, left: l, right: x } && op == Op::Add && *l == left
                && *x == right),
    {
        EvalNode::BinaryOp { op: Op::Add, left: Box::new(left), right: Box::new(right) }
    }

    /// A difference node.
    #[allow(non_snake_case)]
    pub fn Sub(left: EvalNode, right: EvalNode) -> (r: EvalNode)
        ensures
            (r matches EvalNode::BinaryOp { op, left: l, right: x } && op == Op::Sub && *l == left
                && *x == right),
    {
        EvalNode::BinaryOp { op: Op::Sub, left: Box::new(left), right: Box::new(right) }
    }

    /// A product node.
    #[allow(non_snake_case)]
    pub fn Mul(left: EvalNode, right: EvalNode) -> (r: EvalNode)
        ensures
            (r matches EvalNode::BinaryOp { op, left: l, right: x } && op == Op::Mul && *l == left
                && *x == right),
    {
        EvalNode::BinaryOp { op: Op::Mul, left: Box::new(left), right: Box::new(right) }
    }

    /// A quotient node.
    #[allow(non_snake_case)]
    pub fn Div(left: EvalNode, right: EvalNode) -> (r: EvalNode)
        ensures
            (r matches EvalNode::BinaryOp { op, left: l, right: x } && op == Op::Div && *l == left
                && *x == right),
    {
        EvalNode::BinaryOp { op: Op::Div, left: Box::new(left), right: Box::new(right) }
    }

    /// A negation node.
    #[allow(non_snake_case)]
    pub fn Neg(inner: EvalNode) -> (r: EvalNode)
        ensures
            (r matches EvalNode::UnaryOp { op, inner: i } && op == Op::Neg && *i == inner),
    {
        EvalNode::UnaryOp { op: Op::Neg, inner: Box::new(inner) }
    }

    /// The value of this node, exactly as `spec_value` prescribes.
    pub fn value(&self) -> (r: EvalResult<i32>)
        ensures
            match r {
                Ok(v) => spec_value(*self) == Ok::<int, EvalError>(v as int),
                Err(e) => spec_value(*self) == Err::<int, EvalError>(e),
            },
        decreases *self,
    {
        match self {
            EvalNode::Number(x) => Ok(*x),
            EvalNode::Parens { inner } => inner.value(),
            EvalNode::UnaryOp { op: _, inner } => {
                match inner.value() {
                    Err(e) => Err(e),
                    Ok(v) => {
                        if v == i32::MIN {
                            Err(EvalError::Overflow)
                        } else {
                            Ok(-v)
                        }
                    },
                }
            },
            EvalNode::BinaryOp { op, left, right } => {
                let l = match left.value() {
                    Err(e) => {
                        return Err(e);
                    },
                    Ok(v) => v,
                };
                let r = match right.value() {
                    Err(e) => {
                        return Err(e);
                    },
                    Ok(v) => v,
                };
                match op {
                    Op::Add => {
                        let s: i64 = l as i64 + r as i64;
                        if s < i32::MIN as i64 || s > i32::MAX as i64 {
                            Err(EvalError::Overflow)
                        } else {
                            Ok(s as i32)
                        }
                    },
                    Op::Sub => {
                        let s: i64 = l as i64 - r as i64;
                        if s < i32::MIN as i64 || s > i32::MAX as i64 {
                            Err(EvalError::Overflow)
                        } else {
                            Ok(s as i32)
                        }
                    },
                    Op::Mul => {
                        proof {
                            assert((l as i64) * (r as i64) == (l as int) * (r as int)
                                && -0x8000_0000_0000_0000 <= (l as int) * (r as int)
                                < 0x8000_0000_0000_0000) by (nonlinear_arith)
                                requires
                                    i32::MIN <= l <= i32::MAX,
                                    i32::MIN <= r <= i32::MAX,
                            ;
                        }
                        let s: i64 = l as i64 * r as i64;
                        if s < i32::MIN as i64 || s > i32::MAX as i64 {
                            Err(EvalError::Overflow)
                        } else {
                            Ok(s as i32)
                        }
                    },
                    Op::Div => {
                        if r == 0 {
                            Err(EvalError::ZeroDivision)
                        } else {
                            let q = crate::total::div_trunc(l as i64, r as i64);
                            if q < i32::MIN as i64 || q > i32::MAX as i64 {
                                Err(EvalError::Overflow)
                            } else {
                                Ok(q as i32)
                            }
                        }
                    },
                    _ => Ok(0),
                }
            },
            EvalNode::Dice { num: _, sides: _, rolls } => {
                let ghost rs = rolls@;
                let mut acc: i128 = 0;
                let mut k: usize = 0;
                while k < rolls.len()
                    invariant
                        k <= rs.len(),
                        rolls@ == rs,
                        acc == rolls_total(rs.take(k as int)),
                        -(k as int) * (i32::MAX as int + 1) <= acc <= (k as int) * (
                        i32::MAX as int),
                        k <= usize::MAX,
                    decreases rs.len() - k,
                {
                    proof {
                        assert(rs.take(k + 1).drop_last() =~= rs.take(k as int));
                        assert((k as int) * (i32::MAX as int) + (i32::MAX as int) == ((k
                            + 1) as int) * (i32::MAX as int)) by (nonlinear_arith);
                        assert(-(k as int) * (i32::MAX as int + 1) - (i32::MAX as int + 1) == -((
                        k + 1) as int) * (i32::MAX as int + 1)) by (nonlinear_arith);
                    }
                    let roll = rolls[k];
                    if roll.kept {
                        acc = acc + roll.value as i128;
                    }
                    k = k + 1;
                }
                proof {
                    assert(rs.take(rs.len() as int) =~= rs);
                }
                if acc < i32::MIN as i128 || acc > i32::MAX as i128 {
                    Err(EvalError::Overflow)
                } else {
                    Ok(acc as i32)
                }
            },
            EvalNode::SetExpr(items) => {
                let ghost is = items@;
                let mut acc: i128 = 0;
                let mut err: Option<EvalError> = None;
                let mut k: usize = 0;
                while k < items.len()
                    invariant
                        k <= is.len(),
                        items@ == is,
                        (*self) matches EvalNode::SetExpr(v) && v@ == is,
                        match err {
                            None => items_value(is.take(k as int)) == Ok::<int, EvalError>(
                                acc as int,
                            ),
                            Some(e) => items_value(is.take(k as int)) == Err::<int, EvalError>(e),
                        },
                        -(k as int) * (i32::MAX as int + 1) <= acc <= (k as int) * (
                        i32::MAX as int),
                    decreases is.len() - k,
                {
                    proof {
                        assert(is.take(k + 1).drop_last() =~= is.take(k as int));
                        assert(is.take(k + 1).last() == is[k as int]);
                        assert((k as int) * (i32::MAX as int) + (i32::MAX as int) == ((k
                            + 1) as int) * (i32::MAX as int)) by (nonlinear_arith);
                        assert(-(k as int) * (i32::MAX as int + 1) - (i32::MAX as int + 1) == -((
                        k + 1) as int) * (i32::MAX as int + 1)) by (nonlinear_arith);
                    }
                    if err.is_none() {
                        proof {
                            assert(is[k as int] == items@[k as int]);
                            assert(decreases_to!(*self => self->SetExpr_0));
                            assert(decreases_to!(self->SetExpr_0 => self->SetExpr_0@));
                            assert(decreases_to!(self->SetExpr_0@ => self->SetExpr_0@[
                                k as int
                            ]));
                            assert(self->SetExpr_0@[k as int] == items@[k as int]);
                            assert(decreases_to!(*self => items@[k as int]));
                        }
                        match items[k].value() {
                            Ok(v) => {
                                acc = acc + v as i128;
                            },
                            Err(e) => {
                                err = Some(e);
                            },
                        }
                    }
                    k = k + 1;
                }
                proof {
                    assert(is.take(is.len() as int) =~= is);
                }
                match err {
                    Some(e) => Err(e),
                    None => {
                        if acc < i32::MIN as i128 || acc > i32::MAX as i128 {
                            Err(EvalError::Overflow)
                        } else {
                            Ok(acc as i32)
                        }
                    },
                }
            },
        }
    }
}


pub open spec fn op_text(op: Op) -> Seq<char> {
    match op {
        Op::Add => "+"@,
        Op::Sub => "-"@,
        Op::Mul => "*"@,
        Op::Div => "/"@,
        _ => ""@,
    }
}

/// The rendering of one recorded roll: a dropped roll is struck through.
pub open spec fn roll_text(r: DiceRoll) -> Seq<char> {
    if r.kept {
        dec_int(r.value as int)
    } else {
        "~~"@ + dec_int(r.value as int) + "~~"@
    }
}

/// The comma-separated rendering of a group's rolls.
pub open spec fn rolls_text(rolls: Seq<DiceRoll>) -> Seq<char>
    decreases rolls.len(),
{
    if rolls.len() == 0 {
        Seq::<char>::empty()
    } else if rolls.len() == 1 {
        roll_text(rolls[0])
    } else {
        rolls_text(rolls.drop_last()) + ", "@ + roll_text(rolls.last())
    }
}

/// The comma-separated rendering of a set's items.
pub open spec fn items_text(items: Seq<EvalNode>) -> Seq<char>
    decreases items, 1int,
{
    if items.len() == 0 {
        Seq::<char>::empty()
    } else if items.len() == 1 {
        render(items[0])
    } else {
        items_text(items.drop_last()) + ", "@ + render(items.last())
    }
}

/// The rendering of one evaluated node, rolls included.
pub open spec fn render(n: EvalNode) -> Seq<char>
    decreases n, 2int,
{
    match n {
        EvalNode::Number(x) => dec_int(x as int),
        EvalNode::Parens { inner } => "("@ + render(*inner) + ")"@,
        EvalNode::UnaryOp { op, inner } => "-"@ + render(*inner),
        EvalNode::BinaryOp { op, left, right } => render(*left) + " "@ + op_text(op) + " "@
            + render(*right),
        EvalNode::Dice { num, sides, rolls } => dec_int(num as int) + "d"@ + dec_int(sides as int)
            + " ("@ + rolls_text(rolls@) + ")"@,
        EvalNode::SetExpr(items) => if items@.len() == 1 {
            "("@ + items_text(items@) + ",)"@
        } else {
            "("@ + items_text(items@) + ")"@
        },
    }
}

impl DiceRoll {
    /// One recorded roll.
    pub fn new(value: i32, kept: bool) -> (r: DiceRoll)
        ensures
            r == (DiceRoll { value, kept }),
    {
        DiceRoll { value, kept }
    }

    /// Wraps freshly rolled values, all kept.
    pub fn build(rolls: Vec<i32>) -> (r: Vec<DiceRoll>)
        ensures
            r@.len() == rolls@.len(),
            forall|k: int|
                0 <= k < r@.len() ==> #[trigger] r@[k] == (DiceRoll {
                    value: rolls@[k],
                    kept: true,
                }),
    {
        let mut r: Vec<DiceRoll> = Vec::new();
        let mut k: usize = 0;
        while k < rolls.len()
            invariant
                k <= rolls@.len(),
                r@.len() == k,
                forall|j: int|
                    0 <= j < r@.len() ==> #[trigger] r@[j] == (DiceRoll {
                        value: rolls@[j],
                        kept: true,
                    }),
            decreases rolls@.len() - k,
        {
            r.push(DiceRoll { value: rolls[k], kept: true });
            k = k + 1;
        }
        r
    }

    /// Renders the roll: its value, struck through when dropped.
    pub fn to_string(&self) -> (r: String)
        ensures
            r@ == roll_text(*self),
    {
        if self.kept {
            int_str(self.value)
        } else {
            let mut s = "~~".to_owned();
            let v = int_str(self.value);
            s.append(v.as_str());
            s.append("~~");
            s
        }
    }
}

/// The rendering of an arithmetic operator, as a string slice.
fn op_str(op: Op) -> (r: &'static str)
    ensures
        r@ == op_text(op),
{
    match op {
        Op::Add => "+",
        Op::Sub => "-",
        Op::Mul => "*",
        Op::Div => "/",
        _ => "",
    }
}

impl EvalNode {
    /// Renders the whole result tree, rolls included, exactly as `render`
    /// prescribes.
    pub fn to_string(&self) -> (r: String)
        ensures
            r@ == render(*self),
        decreases *self,
    {
        match self {
            EvalNode::Number(x) => int_str(*x),
            EvalNode::Parens { inner } => {
                let mut s = "(".to_owned();
                let i = inner.to_string();
                s.append(i.as_str());
                s.append(")");
                s
            },
            EvalNode::UnaryOp { op: _, inner } => {
                let mut s = "-".to_owned();
                let i = inner.to_string();
                s.append(i.as_str());
                s
            },
            EvalNode::BinaryOp { op, left, right } => {
                let mut s = left.to_string();
                s.append(" ");
                s.append(op_str(*op));
                s.append(" ");
                let r2 = right.to_string();
                s.append(r2.as_str());
                s
            },
            EvalNode::Dice { num, sides, rolls } => {
                let mut s = int_str(*num);
                s.append("d");
                let sd = int_str(*sides);
                s.append(sd.as_str());
                s.append(" (");
                let ghost rs = rolls@;
                let ghost prefix = s@;
                let mut k: usize = 0;
                while k < rolls.len()
                    invariant
                        k <= rs.len(),
                        rolls@ == rs,
                        s@ == prefix + rolls_text(rs.take(k as int)),
                    decreases rs.len() - k,
                {
                    if k > 0 {
                        s.append(", ");
                    }
                    let rt = rolls[k].to_string();
                    s.append(rt.as_str());
                    proof {
                        assert(rs.take(k + 1).drop_last() =~= rs.take(k as int));
                        assert(rs.take(k + 1).last() == rs[k as int]);
                        if k == 0 {
                            assert(s@ =~= prefix + rolls_text(rs.take(1)));
                        } else {
                            assert(s@ =~= prefix + rolls_text(rs.take(k + 1)));
                        }
                    }
                    k = k + 1;
                }
                proof {
                    assert(rs.take(rs.len() as int) =~= rs);
                }
                s.append(")");
                proof {
                    assert(s@ =~= render(*self));
                }
                s
            },
            EvalNode::SetExpr(items) => {
                let mut s = "(".to_owned();
                let ghost is = items@;
                let ghost prefix = s@;
                let mut k: usize = 0;
                while k < items.len()
                    invariant
                        k <= is.len(),
                        items@ == is,
                        (*self) matches EvalNode::SetExpr(v) && v@ == is,
                        s@ == prefix + items_text(is.take(k as int)),
                    decreases is.len() - k,
                {
                    if k > 0 {
                        s.append(", ");
                    }
                    proof {
                        assert(decreases_to!(*self => self->SetExpr_0));
                        assert(decreases_to!(self->SetExpr_0 => self->SetExpr_0@));
                        assert(decreases_to!(self->SetExpr_0@ => self->SetExpr_0@[k as int]));
                        assert(self->SetExpr_0@[k as int] == items@[k as int]);
                        assert(decreases_to!(*self => items@[k as int]));
                    }
                    let it = items[k].to_string();
                    s.append(it.as_str());
                    proof {
                        assert(is.take(k + 1).drop_last() =~= is.take(k as int));
                        assert(is.take(k + 1).last() == is[k as int]);
                        if k == 0 {
                            assert(s@ =~= prefix + items_text(is.take(1)));
                        } else {
                            assert(s@ =~= prefix + items_text(is.take(k + 1)));
                        }
                    }
                    k = k + 1;
                }
                proof {
                    assert(is.take(is.len() as int) =~= is);
                }
                if items.len() == 1 {
                    s.append(",)");
                } else {
                    s.append(")");
                }
                proof {
                    assert(s@ =~= render(*self));
                }
                s
            },
        }
    }
}

} // verus!
