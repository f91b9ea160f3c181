//! The total evaluator: a read-only recursive fold over the arena that
//! computes the signed value of any node.
//!
//! The meaning of a node is fixed by the specification functions here
//! (`spec_total` and its helpers); the executable evaluator is proved to
//! return exactly that value, or exactly the first error the fold meets.

use vstd::prelude::*;
use crate::ast::{BinaryOp, UnaryOp};
use crate::database::{
    arena_wf, is_literal, node_wf, Database, Dice, Die, ExprKind, Expression, Literal,
};

verus! {

/// An evaluation failure.
///
/// `DivideByZero`: the right operand of a division is zero. `NoValues`: a
/// die or literal holds no value, which lowering never produces. `Overflow`:
/// a node's total does not fit a 64-bit signed integer.
#[derive(Debug, Copy, Clone, PartialEq, Eq, Structural)]
pub enum ExprError {
    DivideByZero,
    NoValues,
    Overflow,
}

/// Whether `v` fits a 64-bit signed integer.
pub open spec fn in_i64(v: int) -> bool {
    i64::MIN <= v <= i64::MAX
}

/// A node's total is reported only when it fits a 64-bit signed integer.
pub open spec fn bound_total(v: int) -> Result<int, ExprError> {
    if in_i64(v) {
        Ok(v)
    } else {
        Err(ExprError::Overflow)
    }
}

/// Division truncated toward zero, as the executable `/` behaves.
pub open spec fn spec_div_trunc(l: int, r: int) -> int {
    if (l < 0) <==> (r < 0) {
        vstd::math::abs(l) as int / vstd::math::abs(r) as int
    } else {
        -(vstd::math::abs(l) as int / vstd::math::abs(r) as int)
    }
}

/// The sum of a sequence of unsigned values.
pub open spec fn sum_u64(s: Seq<u64>) -> int
    decreases s.len(),
{
    if s.len() == 0 {
        0
    } else {
        sum_u64(s.drop_last()) + s.last()
    }
}

/// The total of a literal: its last value, unless it was exploded, in which
/// case all its accumulated values sum.
pub open spec fn lit_total(lit: Literal) -> Result<int, ExprError> {
    if lit.values.len() == 0 {
        Err(ExprError::NoValues)
    } else if lit.exploded {
        bound_total(sum_u64(lit.values@))
    } else {
        bound_total(lit.values@.last() as int)
    }
}

/// The total of the literal node at index `v` of the arena.
pub open spec fn lit_total_at(arena: Seq<Expression>, v: int) -> Result<int, ExprError> {
    if 0 <= v < arena.len() {
        match arena[v].kind {
            ExprKind::Literal(lit) => lit_total(lit),
            _ => Err(ExprError::NoValues),
        }
    } else {
        Err(ExprError::NoValues)
    }
}

/// Whether some value of the die was exploded.
pub open spec fn die_exploded(arena: Seq<Expression>, d: Die) -> bool {
    exists|k: int|
        0 <= k < d.values.len() && lit_exploded_at(arena, #[trigger] d.values[k] as int)
}

/// Whether index `v` is an exploded literal node.
pub open spec fn lit_exploded_at(arena: Seq<Expression>, v: int) -> bool {
    &&& 0 <= v < arena.len()
    &&& match arena[v].kind {
        ExprKind::Literal(lit) => lit.exploded,
        _ => false,
    }
}

/// The sum of the literal totals of a die's values, left to right; the
/// leftmost error wins.
pub open spec fn die_values_sum(arena: Seq<Expression>, vals: Seq<usize>) -> Result<
    int,
    ExprError,
>
    decreases vals.len(),
{
    if vals.len() == 0 {
        Ok(0)
    } else {
        match die_values_sum(arena, vals.drop_last()) {
            Err(e) => Err(e),
            Ok(acc) => match lit_total_at(arena, vals.last() as int) {
                Err(e) => Err(e),
                Ok(v) => Ok(acc + v),
            },
        }
    }
}

/// The total of one die: zero when dropped; the total of its last value,
/// unless some value was exploded, in which case all values sum.
pub open spec fn die_total(arena: Seq<Expression>, d: Die) -> Result<int, ExprError> {
    if !d.kept {
        Ok(0)
    } else if d.values.len() == 0 {
        Err(ExprError::NoValues)
    } else if die_exploded(arena, d) {
        match die_values_sum(arena, d.values@) {
            Err(e) => Err(e),
            Ok(s) => bound_total(s),
        }
    } else {
        lit_total_at(arena, d.values@.last() as int)
    }
}

/// The sum of the die totals of a dice group, left to right; the leftmost
/// error wins.
pub open spec fn dice_values_sum(arena: Seq<Expression>, dies: Seq<Die>) -> Result<
    int,
    ExprError,
>
    decreases dies.len(),
{
    if dies.len() == 0 {
        Ok(0)
    } else {
        match dice_values_sum(arena, dies.drop_last()) {
            Err(e) => Err(e),
            Ok(acc) => match die_total(arena, dies.last()) {
                Err(e) => Err(e),
                Ok(v) => Ok(acc + v),
            },
        }
    }
}

/// The total of a dice group: the sum of its die totals, dropped dice
/// contributing zero.
pub open spec fn dice_total(arena: Seq<Expression>, d: Dice) -> Result<int, ExprError> {
    match dice_values_sum(arena, d.values@) {
        Err(e) => Err(e),
        Ok(s) => bound_total(s),
    }
}

/// The result of a binary operation over the results of its operands: the
/// left error first, then the right, then division by zero.
pub open spec fn binary_result(
    l: Result<int, ExprError>,
    r: Result<int, ExprError>,
    op: BinaryOp,
) -> Result<int, ExprError> {
    match l {
        Err(e) => Err(e),
        Ok(lv) => match r {
            Err(e) => Err(e),
            Ok(rv) => match op {
                BinaryOp::Add => bound_total(lv + rv),
                BinaryOp::Sub => bound_total(lv - rv),
                BinaryOp::Mul => bound_total(lv * rv),
                BinaryOp::Div => if rv == 0 {
                    Err(ExprError::DivideByZero)
                } else {
                    bound_total(spec_div_trunc(lv, rv))
                },
            },
        },
    }
}

/// The total of the node at index `i`: zero for a dropped or missing node,
/// and otherwise the value its kind prescribes.
pub open spec fn spec_total(arena: Seq<Expression>, i: int) -> Result<int, ExprError>
    decreases i, 1int, 0int,
{
    if !(0 <= i < arena.len()) {
        Err(ExprError::NoValues)
    } else if !arena[i].kept {
        Ok(0)
    } else {
        match arena[i].kind {
            ExprKind::Missing => Ok(0),
            ExprKind::Literal(lit) => lit_total(lit),
            ExprKind::BinaryExpr(b) => if b.lhs < i && b.rhs < i {
                binary_result(spec_total(arena, b.lhs as int), spec_total(arena, b.rhs as int), b.op)
            } else {
                Err(ExprError::NoValues)
            },
            ExprKind::UnaryExpr(u) => if u.expr < i {
                match spec_total(arena, u.expr as int) {
                    Err(e) => Err(e),
                    Ok(v) => bound_total(-v),
                }
            } else {
                Err(ExprError::NoValues)
            },
            ExprKind::Dice(d) => dice_total(arena, d),
            ExprKind::SetExpr(s) => match set_items_sum(arena, s.items@, i) {
                Err(e) => Err(e),
                Ok(v) => bound_total(v),
            },
        }
    }
}

/// The sum of the totals of a set's items, left to right; the leftmost error
/// wins. `i` is the set node's own index; items sit strictly below it.
pub open spec fn set_items_sum(arena: Seq<Expression>, items: Seq<usize>, i: int) -> Result<
    int,
    ExprError,
>
    decreases i, 0int, items.len(),
{
    if items.len() == 0 {
        Ok(0)
    } else {
        match set_items_sum(arena, items.drop_last(), i) {
            Err(e) => Err(e),
            Ok(acc) => if items.last() < i && 0 <= i {
                match spec_total(arena, items.last() as int) {
                    Err(e) => Err(e),
                    Ok(v) => Ok(acc + v),
                }
            } else {
                Err(ExprError::NoValues)
            },
        }
    }
}

/// Whether an executable result and a specification-level result agree.
pub open spec fn totals_match(r: Result<i64, ExprError>, s: Result<int, ExprError>) -> bool {
    match r {
        Ok(v) => s == Ok::<int, ExprError>(v as int),
        Err(e) => s == Err::<int, ExprError>(e),
    }
}

/// Division truncated toward zero, proved against `spec_div_trunc`.
pub(crate) fn div_trunc(l: i64, r: i64) -> (q: i64)
    requires
        r != 0,
        !(l == i64::MIN && r == -1),
    ensures
        q as int == spec_div_trunc(l as int, r as int),
        in_i64(spec_div_trunc(l as int, r as int)),
{
    let la: u64 = if l >= 0 {
        l as u64
    } else {
        (-(l as i128)) as u64
    };
    let ra: u64 = if r >= 0 {
        r as u64
    } else {
        (-(r as i128)) as u64
    };
    let qa: u64 = la / ra;
    proof {
        assert(la == vstd::math::abs(l as int));
        assert(ra == vstd::math::abs(r as int));
        assert(qa <= la) by (nonlinear_arith)
            requires
                ra >= 1,
                qa == la as int / ra as int,
                la >= 0,
        ;
        if la == 0x8000_0000_0000_0000u64 && ra >= 2 {
            assert(qa <= la as int / 2) by (nonlinear_arith)
                requires
                    ra >= 2,
                    qa == la as int / ra as int,
                    la >= 0,
            ;
        }
    }
    if (l >= 0) == (r >= 0) {
        qa as i64
    } else {
        (-(qa as i128)) as i64
    }
}

/// The total of the literal node at `v`.
fn total_literal_at(db: &Database, v: usize) -> (r: Result<i64, ExprError>)
    requires
        is_literal(db@, v as int),
    ensures
        totals_match(r, lit_total_at(db@, v as int)),
{
    let node = db.get(v);
    match &node.kind {
        ExprKind::Literal(lit) => {
            if lit.values.len() == 0 {
                Err(ExprError::NoValues)
            } else if lit.exploded {
                let ghost vs = lit.values@;
                let mut acc: u128 = 0;
                let mut k: usize = 0;
                while k < lit.values.len()
                    invariant
                        k <= vs.len(),
                        lit.values@ == vs,
                        acc == sum_u64(vs.take(k as int)),
                        acc <= (k as int) * (u64::MAX as int),
                        k <= usize::MAX,
                    decreases vs.len() - k,
                {
                    let v0 = lit.values[k];
                    proof {
                        assert((k as int) * (u64::MAX as int) + (u64::MAX as int) == ((k + 1) as int)
                            * (u64::MAX as int)) by (nonlinear_arith);
                        assert(vs.take(k + 1).drop_last() =~= vs.take(k as int));
                    }
                    acc = acc + v0 as u128;
                    k = k + 1;
                }
                proof {
                    assert(vs.take(vs.len() as int) =~= vs);
                }
                if acc > i64::MAX as u128 {
                    Err(ExprError::Overflow)
                } else {
                    Ok(acc as i64)
                }
            } else {
                let last = lit.values[lit.values.len() - 1];
                if last > i64::MAX as u64 {
                    Err(ExprError::Overflow)
                } else {
                    Ok(last as i64)
                }
            }
        },
        _ => Err(ExprError::NoValues),
    }
}

/// The total of one die of a dice group.
pub fn total_die(db: &Database, die: &Die) -> (r: Result<i64, ExprError>)
    requires
        crate::database::die_wf(db@, *die, db@.len() as int),
    ensures
        totals_match(r, die_total(db@, *die)),
{
    if !die.kept {
        return Ok(0);
    }
    let ghost vs = die.values@;
    // Find whether any value of the die was exploded.
    let mut exploded = false;
    let mut k: usize = 0;
    while k < die.values.len()
        invariant
            k <= vs.len(),
            die.values@ == vs,
            crate::database::die_wf(db@, *die, db@.len() as int),
            exploded == exists|j: int| 0 <= j < k && lit_exploded_at(db@, #[trigger] vs[j] as int),
        decreases vs.len() - k,
    {
        let v = die.values[k];
        let node = db.get(v);
        match &node.kind {
            ExprKind::Literal(lit) => {
                if lit.exploded {
                    exploded = true;
                }
            },
            _ => {},
        }
        k = k + 1;
    }
    if exploded {
        let mut acc: i128 = 0;
        let mut err: Option<ExprError> = None;
        let mut k: usize = 0;
        while k < die.values.len()
            invariant
                k <= vs.len(),
                die.values@ == vs,
                crate::database::die_wf(db@, *die, db@.len() as int),
                match err {
                    None => die_values_sum(db@, vs.take(k as int)) == Ok::<int, ExprError>(
                        acc as int,
                    ),
                    Some(e) => die_values_sum(db@, vs.take(k as int)) == Err::<int, ExprError>(e),
                },
                -(k as int) * (i64::MAX as int + 1) <= acc <= (k as int) * (i64::MAX as int),
            decreases vs.len() - k,
        {
            proof {
                assert(vs.take(k + 1).drop_last() =~= vs.take(k as int));
                assert((k as int) * (i64::MAX as int) + (i64::MAX as int) == ((k + 1) as int) * (
                i64::MAX as int)) by (nonlinear_arith);
                assert(-(k as int) * (i64::MAX as int + 1) - (i64::MAX as int + 1) == -((k
                    + 1) as int) * (i64::MAX as int + 1)) by (nonlinear_arith);
            }
            if err.is_none() {
                let t = total_literal_at(db, die.values[k]);
                match t {
                    Ok(v) => {
                        acc = acc + v as i128;
                    },
                    Err(e) => {
                        err = Some(e);
                    },
                }
            }
            k = k + 1;
        }
        proof {
            assert(vs.take(vs.len() as int) =~= vs);
        }
        match err {
            Some(e) => Err(e),
            None => {
                if acc < i64::MIN as i128 || acc > i64::MAX as i128 {
                    Err(ExprError::Overflow)
                } else {
                    Ok(acc as i64)
                }
            },
        }
    } else {
        total_literal_at(db, die.values[die.values.len() - 1])
    }
}

/// The total of the node at `idx`: the arena is read, never written.
pub fn total(db: &Database, idx: usize) -> (r: Result<i64, ExprError>)
    requires
        arena_wf(db@),
        idx < db@.len(),
    ensures
        totals_match(r, spec_total(db@, idx as int)),
    decreases idx,
{
    proof {
        assert(node_wf(db@, idx as int));
    }
    let node = db.get(idx);
    if !node.kept {
        return Ok(0);
    }
    match &node.kind {
        ExprKind::Missing => Ok(0),
        ExprKind::Literal(_) => total_literal_at(db, idx),
        ExprKind::BinaryExpr(b) => {
            let lt = total(db, b.lhs);
            let rt = total(db, b.rhs);
            let lv = match lt {
                Err(e) => {
                    return Err(e);
                },
                Ok(v) => v,
            };
            let rv = match rt {
                Err(e) => {
                    return Err(e);
                },
                Ok(v) => v,
            };
            match b.op {
                BinaryOp::Add => {
                    let s: i128 = lv as i128 + rv as i128;
                    if s < i64::MIN as i128 || s > i64::MAX as i128 {
                        Err(ExprError::Overflow)
                    } else {
                        Ok(s as i64)
                    }
                },
                BinaryOp::Sub => {
                    let s: i128 = lv as i128 - rv as i128;
                    if s < i64::MIN as i128 || s > i64::MAX as i128 {
                        Err(ExprError::Overflow)
                    } else {
                        Ok(s as i64)
                    }
                },
                BinaryOp::Mul => {
                    proof {
                        assert((lv as i128) * (rv as i128) == (lv as int) * (rv as int)
                            && -0x8000_0000_0000_0000_0000_0000_0000_0000 <= (lv as int) * (
                        rv as int) < 0x8000_0000_0000_0000_0000_0000_0000_0000) by (nonlinear_arith)
                            requires
                                i64::MIN <= lv <= i64::MAX,
                                i64::MIN <= rv <= i64::MAX,
                        ;
                    }
                    let s: i128 = lv as i128 * rv as i128;
                    if s < i64::MIN as i128 || s > i64::MAX as i128 {
                        Err(ExprError::Overflow)
                    } else {
                        Ok(s as i64)
                    }
                },
                BinaryOp::Div => {
                    if rv == 0 {
                        Err(ExprError::DivideByZero)
                    } else if lv == i64::MIN && rv == -1 {
                        proof {
                            assert(vstd::math::abs(lv as int) == 0x8000_0000_0000_0000int);
                            assert(vstd::math::abs(rv as int) == 1int);
                            assert(0x8000_0000_0000_0000int / 1int == 0x8000_0000_0000_0000int)
                                by (nonlinear_arith);
                            assert(spec_div_trunc(lv as int, rv as int)
                                == 0x8000_0000_0000_0000int);
                        }
                        Err(ExprError::Overflow)
                    } else {
                        Ok(div_trunc(lv, rv))
                    }
                },
            }
        },
        ExprKind::UnaryExpr(u) => {
            match total(db, u.expr) {
                Err(e) => Err(e),
                Ok(v) => {
                    if v == i64::MIN {
                        Err(ExprError::Overflow)
                    } else {
                        Ok(-v)
                    }
                },
            }
        },
        ExprKind::Dice(d) => {
            let ghost ds = d.values@;
            let mut acc: i128 = 0;
            let mut err: Option<ExprError> = None;
            let mut k: usize = 0;
            while k < d.values.len()
                invariant
                    k <= ds.len(),
                    d.values@ == ds,
                    crate::database::dice_wf(db@, *d, db@.len() as int),
                    idx < db@.len(),
                    match err {
                        None => dice_values_sum(db@, ds.take(k as int)) == Ok::<int, ExprError>(
                            acc as int,
                        ),
                        Some(e) => dice_values_sum(db@, ds.take(k as int)) == Err::<
                            int,
                            ExprError,
                        >(e),
                    },
                    -(k as int) * (i64::MAX as int + 1) <= acc <= (k as int) * (i64::MAX as int),
                decreases ds.len() - k,
            {
                proof {
                    assert(ds.take(k + 1).drop_last() =~= ds.take(k as int));
                    assert((k as int) * (i64::MAX as int) + (i64::MAX as int) == ((k + 1) as int)
                        * (i64::MAX as int)) by (nonlinear_arith);
                    assert(-(k as int) * (i64::MAX as int + 1) - (i64::MAX as int + 1) == -((k
                        + 1) as int) * (i64::MAX as int + 1)) by (nonlinear_arith);
                    assert(crate::database::die_wf(db@, ds[k as int], db@.len() as int));
                }
                if err.is_none() {
                    let t = total_die(db, &d.values[k]);
                    match t {
                        Ok(v) => {
                            acc = acc + v as i128;
                        },
                        Err(e) => {
                            err = Some(e);
                        },
                    }
                }
                k = k + 1;
            }
            proof {
                assert(ds.take(ds.len() as int) =~= ds);
            }
            match err {
                Some(e) => Err(e),
                None => {
                    if acc < i64::MIN as i128 || acc > i64::MAX as i128 {
                        Err(ExprError::Overflow)
                    } else {
                        Ok(acc as i64)
                    }
                },
            }
        },
        ExprKind::SetExpr(s) => {
            let ghost is = s.items@;
            let mut acc: i128 = 0;
            let mut err: Option<ExprError> = None;
            let mut k: usize = 0;
            while k < s.items.len()
                invariant
                    k <= is.len(),
                    s.items@ == is,
                    arena_wf(db@),
                    idx < db@.len(),
                    forall|j: int| 0 <= j < is.len() ==> #[trigger] is[j] < idx,
                    match err {
                        None => set_items_sum(db@, is.take(k as int), idx as int) == Ok::<
                            int,
                            ExprError,
                        >(acc as int),
                        Some(e) => set_items_sum(db@, is.take(k as int), idx as int) == Err::<
                            int,
                            ExprError,
                        >(e),
                    },
                    -(k as int) * (i64::MAX as int + 1) <= acc <= (k as int) * (i64::MAX as int),
                decreases is.len() - k,
            {
                proof {
                    assert(is.take(k + 1).drop_last() =~= is.take(k as int));
                    assert((k as int) * (i64::MAX as int) + (i64::MAX as int) == ((k + 1) as int)
                        * (i64::MAX as int)) by (nonlinear_arith);
                    assert(-(k as int) * (i64::MAX as int + 1) - (i64::MAX as int + 1) == -((k
                        + 1) as int) * (i64::MAX as int + 1)) by (nonlinear_arith);
                }
                if err.is_none() {
                    let t = total(db, s.items[k]);
                    match t {
                        Ok(v) => {
                            acc = acc + v as i128;
                        },
                        Err(e) => {
                            err = Some(e);
                        },
                    }
                }
                k = k + 1;
            }
            proof {
                assert(is.take(is.len() as int) =~= is);
            }
            match err {
                Some(e) => Err(e),
                None => {
                    if acc < i64::MIN as i128 || acc > i64::MAX as i128 {
                        Err(ExprError::Overflow)
                    } else {
                        Ok(acc as i64)
                    }
                },
            }
        },
    }
}

} // verus!
