//! The set-operation resolution engine.
//!
//! Given a dice group or a set and its ordered list of operations, the
//! engine applies each operation in declared order: keep and drop flip
//! `kept` flags, reroll and explode push fresh rolls onto a die's history,
//! min and max force a die's live value against a threshold. Selection is
//! recomputed fresh before every operation from the targets' current totals.

use vstd::prelude::*;
use crate::ast::{SetOp, SetSel};
use crate::database::{
    arena_wf, dice_values_distinct, dice_wf, die_wf, is_literal, node_wf, Database, Dice, Die,
    ExprIdx, ExprKind, Expression, Literal, SetOperation,
};
use crate::total::{
    die_total, spec_total, total, total_die, ExprError,
};

verus! {

// ---------------------------------------------------------------------------
// Validation
// ---------------------------------------------------------------------------

/// The incompatibility table: `Reroll` cannot pair with a rank selector, and
/// `Min`/`Max` always work against a fixed threshold, so they pair with no
/// selector but `Number`.
pub open spec fn op_sel_compatible(op: SetOp, sel: SetSel) -> bool {
    match op {
        SetOp::Reroll => sel != SetSel::Highest && sel != SetSel::Lowest,
        SetOp::Min => sel == SetSel::Number,
        SetOp::Max => sel == SetSel::Number,
        _ => true,
    }
}

/// Whether an operation may be applied to a set node: only keep and drop
/// are legal there.
pub open spec fn set_op_allowed(op: SetOp) -> bool {
    op == SetOp::Keep || op == SetOp::Drop
}

impl SetOperation {
    /// Whether this operation's operator and selector are a legal pairing.
    pub fn validate(&self) -> (r: bool)
        ensures
            r == op_sel_compatible(self.op, self.sel),
    {
        match self.op {
            SetOp::Reroll => !(matches!(self.sel, SetSel::Highest) || matches!(
                self.sel,
                SetSel::Lowest,
            )),
            SetOp::Min | SetOp::Max => matches!(self.sel, SetSel::Number),
            _ => true,
        }
    }
}

// ---------------------------------------------------------------------------
// Selection
// ---------------------------------------------------------------------------

/// Whether a target with total `v` is eligible under the selector: rank
/// selectors admit every target, value selectors compare against `num`.
pub open spec fn sel_eligible(sel: SetSel, num: u64, v: int) -> bool {
    match sel {
        SetSel::Number => v == num,
        SetSel::Greater => v > num,
        SetSel::Less => v < num,
        SetSel::Highest => true,
        SetSel::Lowest => true,
    }
}

/// Whether target `j` comes before target `i` in the selector's order:
/// by descending (`Highest`) or ascending (`Lowest`) total with ties broken
/// by original position, and by original position alone for the value
/// selectors.
pub open spec fn sel_prior(sel: SetSel, t: Seq<int>, j: int, i: int) -> bool {
    match sel {
        SetSel::Highest => t[j] > t[i] || (t[j] == t[i] && j < i),
        SetSel::Lowest => t[j] < t[i] || (t[j] == t[i] && j < i),
        _ => j < i,
    }
}

/// How many eligible targets among the first `n` come before target `i`.
pub open spec fn sel_rank_upto(sel: SetSel, num: u64, t: Seq<int>, i: int, n: int) -> int
    decreases n,
{
    if n <= 0 {
        0
    } else {
        sel_rank_upto(sel, num, t, i, n - 1) + if sel_eligible(sel, num, t[n - 1]) && sel_prior(
            sel,
            t,
            n - 1,
            i,
        ) {
            1int
        } else {
            0int
        }
    }
}

/// How many eligible targets come before target `i` in the selector's
/// order.
pub open spec fn sel_rank(sel: SetSel, num: u64, t: Seq<int>, i: int) -> int {
    sel_rank_upto(sel, num, t, i, t.len() as int)
}

/// Whether the operation selects target `i` of a group with totals `t`:
/// the target is eligible and fewer than `num` eligible targets come before
/// it. For `Highest`/`Lowest` this takes the `num` best-ranked targets; for
/// the value selectors it takes the matching targets in original order,
/// capped at `num`.
pub open spec fn selected(op: SetOperation, t: Seq<int>, i: int) -> bool {
    &&& sel_eligible(op.sel, op.num, t[i])
    &&& sel_rank(op.sel, op.num, t, i) < op.num
}

/// The totals of a group's dice, assuming each one evaluates cleanly.
pub open spec fn die_totals(arena: Seq<Expression>, dies: Seq<Die>) -> Seq<int> {
    Seq::new(dies.len(), |k: int| die_total(arena, dies[k])->Ok_0)
}

/// Whether every die of the group evaluates cleanly.
pub open spec fn all_die_totals_ok(arena: Seq<Expression>, dies: Seq<Die>) -> bool {
    forall|k: int| 0 <= k < dies.len() ==> (#[trigger] die_total(arena, dies[k])) is Ok
}

/// The totals of a set's items, assuming each one evaluates cleanly.
pub open spec fn item_totals(arena: Seq<Expression>, items: Seq<ExprIdx>) -> Seq<int> {
    Seq::new(items.len(), |k: int| spec_total(arena, items[k] as int)->Ok_0)
}

/// Whether every item of the set evaluates cleanly.
pub open spec fn all_item_totals_ok(arena: Seq<Expression>, items: Seq<ExprIdx>) -> bool {
    forall|k: int| 0 <= k < items.len() ==> (#[trigger] spec_total(arena, items[k] as int)) is Ok
}

/// Whether the executable error `e` is the first failure among the
/// group's die totals, in order.
pub open spec fn first_die_error(
    arena: Seq<Expression>,
    dies: Seq<Die>,
    e: ExprError,
) -> bool {
    exists|k: int|
        {
            &&& 0 <= k < dies.len()
            &&& #[trigger] die_total(arena, dies[k]) == Err::<int, ExprError>(e)
            &&& forall|j: int| 0 <= j < k ==> (#[trigger] die_total(arena, dies[j])) is Ok
        }
}

/// Whether the executable error `e` is the first failure among the set's
/// item totals.
pub open spec fn first_item_error(
    arena: Seq<Expression>,
    items: Seq<ExprIdx>,
    e: ExprError,
) -> bool {
    exists|k: int|
        {
            &&& 0 <= k < items.len()
            &&& #[trigger] spec_total(arena, items[k] as int) == Err::<int, ExprError>(e)
            &&& forall|j: int| 0 <= j < k ==> (#[trigger] spec_total(arena, items[j] as int)) is Ok
        }
}

/// Whether `v` is an eligible total under the selector.
fn is_eligible(sel: SetSel, num: u64, v: i64) -> (r: bool)
    ensures
        r == sel_eligible(sel, num, v as int),
{
    match sel {
        SetSel::Number => v >= 0 && v as u64 == num,
        SetSel::Greater => v > 0 && v as u64 > num,
        SetSel::Less => v < 0 || (v as u64) < num,
        SetSel::Highest => true,
        SetSel::Lowest => true,
    }
}

/// Whether target `j` comes before target `i` in the selector's order.
fn is_prior(sel: SetSel, t: &Vec<i64>, j: usize, i: usize) -> (r: bool)
    requires
        j < t@.len(),
        i < t@.len(),
    ensures
        r == sel_prior(sel, int_totals(t@), j as int, i as int),
{
    match sel {
        SetSel::Highest => t[j] > t[i] || (t[j] == t[i] && j < i),
        SetSel::Lowest => t[j] < t[i] || (t[j] == t[i] && j < i),
        _ => j < i,
    }
}

/// The mathematical totals behind a vector of executable totals.
pub open spec fn int_totals(s: Seq<i64>) -> Seq<int> {
    Seq::new(s.len(), |k: int| s[k] as int)
}

/// Computes which targets the operation selects, from the targets' current
/// totals: `sel[i]` holds exactly when target `i` is selected.
fn select_by_totals(op: &SetOperation, t: &Vec<i64>) -> (sel: Vec<bool>)
    ensures
        sel@.len() == t@.len(),
        forall|i: int| 0 <= i < sel@.len() ==> sel@[i] == selected(*op, int_totals(t@), i),
{
    let ghost ti = int_totals(t@);
    let mut sel: Vec<bool> = Vec::new();
    let mut i: usize = 0;
    while i < t.len()
        invariant
            i <= t@.len(),
            sel@.len() == i,
            ti == int_totals(t@),
            forall|x: int| 0 <= x < i ==> sel@[x] == selected(*op, ti, x),
        decreases t@.len() - i,
    {
        let elig = is_eligible(op.sel, op.num, t[i]);
        let mut picked = false;
        if elig {
            let mut rank: u64 = 0;
            let mut j: usize = 0;
            while j < t.len()
                invariant
                    j <= t@.len(),
                    i < t@.len(),
                    ti == int_totals(t@),
                    rank == sel_rank_upto(op.sel, op.num, ti, i as int, j as int),
                    rank <= j,
                decreases t@.len() - j,
            {
                let ej = is_eligible(op.sel, op.num, t[j]);
                if ej && is_prior(op.sel, t, j, i) {
                    rank = rank + 1;
                }
                j = j + 1;
            }
            picked = rank < op.num;
        }
        sel.push(picked);
        i = i + 1;
    }
    sel
}

/// Computes each die's current total for selection; fails with the first
/// die's evaluation error, if any.
pub fn select_dice(op: &SetOperation, dice: &Dice, db: &Database) -> (r: Result<
    Vec<bool>,
    ExprError,
>)
    requires
        dice_wf(db@, *dice, db@.len() as int),
    ensures
        r matches Ok(sel) ==> {
            &&& all_die_totals_ok(db@, dice.values@)
            &&& sel@.len() == dice.values@.len()
            &&& forall|i: int|
                0 <= i < sel@.len() ==> sel@[i] == selected(
                    *op,
                    die_totals(db@, dice.values@),
                    i,
                )
        },
        r is Ok <==> all_die_totals_ok(db@, dice.values@),
        r matches Err(e) ==> first_die_error(db@, dice.values@, e),
{
    let ghost ds = dice.values@;
    let mut t: Vec<i64> = Vec::new();
    let mut k: usize = 0;
    while k < dice.values.len()
        invariant
            k <= ds.len(),
            dice.values@ == ds,
            dice_wf(db@, *dice, db@.len() as int),
            t@.len() == k,
            forall|j: int|
                0 <= j < k ==> #[trigger] die_total(db@, ds[j]) == Ok::<int, ExprError>(
                    t@[j] as int,
                ),
        decreases ds.len() - k,
    {
        proof {
            assert(die_wf(db@, ds[k as int], db@.len() as int));
        }
        match total_die(db, &dice.values[k]) {
            Ok(v) => {
                t.push(v);
            },
            Err(e) => {
                return Err(e);
            },
        }
        k = k + 1;
    }
    proof {
        assert(int_totals(t@) =~= die_totals(db@, ds));
    }
    Ok(select_by_totals(op, &t))
}

/// Computes each item's current total for selection; fails with the first
/// item's evaluation error, if any.
pub fn select_set(op: &SetOperation, items: &Vec<ExprIdx>, db: &Database) -> (r: Result<
    Vec<bool>,
    ExprError,
>)
    requires
        arena_wf(db@),
        forall|k: int| 0 <= k < items@.len() ==> #[trigger] items@[k] < db@.len(),
    ensures
        r matches Ok(sel) ==> {
            &&& all_item_totals_ok(db@, items@)
            &&& sel@.len() == items@.len()
            &&& forall|i: int|
                0 <= i < sel@.len() ==> sel@[i] == selected(*op, item_totals(db@, items@), i)
        },
        r is Ok <==> all_item_totals_ok(db@, items@),
        r matches Err(e) ==> first_item_error(db@, items@, e),
{
    let ghost is = items@;
    let mut t: Vec<i64> = Vec::new();
    let mut k: usize = 0;
    while k < items.len()
        invariant
            k <= is.len(),
            items@ == is,
            arena_wf(db@),
            forall|j: int| 0 <= j < is.len() ==> #[trigger] is[j] < db@.len(),
            t@.len() == k,
            forall|j: int|
                0 <= j < k ==> #[trigger] spec_total(db@, is[j] as int) == Ok::<int, ExprError>(
                    t@[j] as int,
                ),
        decreases is.len() - k,
    {
        match total(db, items[k]) {
            Ok(v) => {
                t.push(v);
            },
            Err(e) => {
                return Err(e);
            },
        }
        k = k + 1;
    }
    proof {
        assert(int_totals(t@) =~= item_totals(db@, is));
    }
    Ok(select_by_totals(op, &t))
}

// ---------------------------------------------------------------------------
// Keep and drop
// ---------------------------------------------------------------------------

/// The same die with its `kept` flag set to `b`.
pub open spec fn die_with_kept(d: Die, b: bool) -> Die {
    Die { sides: d.sides, values: d.values, kept: b }
}

/// Whether, after a keep or drop with selection `sel` over old state
/// `old_dies`, the die at `k` carries the right flag: a keep drops every
/// unselected die, a drop drops every selected one; a dropped die is never
/// re-kept.
pub open spec fn kept_after(is_drop: bool, was_kept: bool, sel: bool) -> bool {
    was_kept && (if is_drop {
        !sel
    } else {
        sel
    })
}

/// Applies a keep or drop to a dice group: selection is computed from the
/// dice's current totals, then every die's `kept` flag is lowered
/// accordingly. The arena is only read.
pub fn keep_or_drop_dice(op: &SetOperation, dice: &mut Dice, db: &Database) -> (r: Result<
    (),
    ExprError,
>)
    requires
        dice_wf(db@, *old(dice), db@.len() as int),
        op.op == SetOp::Keep || op.op == SetOp::Drop,
    ensures
        final(dice).count == old(dice).count,
        final(dice).sides == old(dice).sides,
        final(dice).ops == old(dice).ops,
        dice_wf(db@, *final(dice), db@.len() as int),
        r is Ok <==> all_die_totals_ok(db@, old(dice).values@),
        r matches Err(e) ==> *final(dice) == *old(dice) && first_die_error(
            db@,
            old(dice).values@,
            e,
        ),
        r is Ok ==> {
            &&& final(dice).values@.len() == old(dice).values@.len()
            &&& forall|k: int|
                0 <= k < old(dice).values@.len() ==> final(dice).values@[k] == die_with_kept(
                    old(dice).values@[k],
                    kept_after(
                        op.op == SetOp::Drop,
                        old(dice).values@[k].kept,
                        selected(*op, die_totals(db@, old(dice).values@), k),
                    ),
                )
        },
{
    let sel = match select_dice(op, dice, db) {
        Ok(s) => s,
        Err(e) => {
            return Err(e);
        },
    };
    let is_drop = matches!(op.op, SetOp::Drop);
    let ghost ds = dice.values@;
    let mut k: usize = 0;
    while k < dice.values.len()
        invariant
            k <= ds.len(),
            dice.values@.len() == ds.len(),
            dice.count == old(dice).count,
            dice.sides == old(dice).sides,
            dice.ops == old(dice).ops,
            sel@.len() == ds.len(),
            is_drop == (op.op == SetOp::Drop),
            forall|j: int|
                0 <= j < sel@.len() ==> sel@[j] == selected(*op, die_totals(db@, ds), j),
            forall|j: int| k <= j < ds.len() ==> dice.values@[j] == ds[j],
            forall|j: int|
                0 <= j < k ==> dice.values@[j] == die_with_kept(
                    ds[j],
                    kept_after(is_drop, ds[j].kept, sel@[j]),
                ),
        decreases ds.len() - k,
    {
        let keep_it = if is_drop {
            !sel[k]
        } else {
            sel[k]
        };
        let dref = &mut dice.values[k];
        dref.kept = dref.kept && keep_it;
        k = k + 1;
    }
    proof {
        assert forall|j: int|
            0 <= j < dice.values@.len() implies die_wf(
            db@,
            #[trigger] dice.values@[j],
            db@.len() as int,
        ) by {
            assert(die_wf(db@, ds[j], db@.len() as int));
        }
        assert forall|k1: int, k2: int, i1: int, i2: int|
            0 <= k1 < dice.values@.len() && 0 <= k2 < dice.values@.len() && k1 != k2 && 0 <= i1
                < dice.values@[k1].values.len() && 0 <= i2
                < dice.values@[k2].values.len() implies #[trigger] dice.values@[k1].values[i1]
            != #[trigger] dice.values@[k2].values[i2] by {
            assert(dice_values_distinct(ds));
            assert(dice.values@[k1].values == ds[k1].values);
            assert(dice.values@[k2].values == ds[k2].values);
        }
    }
    Ok(())
}

/// Applies a keep or drop to a set node: selection is computed from the
/// items' current totals, then each selected (for drop) or unselected (for
/// keep) item node is marked dropped in the arena. Nothing else in the
/// arena changes.
pub fn operate_on_set(op: &SetOperation, items: &Vec<ExprIdx>, db: &mut Database) -> (r: Result<
    (),
    ExprError,
>)
    requires
        arena_wf(old(db)@),
        op.op == SetOp::Keep || op.op == SetOp::Drop,
        forall|k: int| 0 <= k < items@.len() ==> #[trigger] items@[k] < old(db)@.len(),
        forall|k1: int, k2: int|
            0 <= k1 < k2 < items@.len() ==> items@[k1] != items@[k2],
    ensures
        arena_wf(final(db)@),
        final(db)@.len() == old(db)@.len(),
        wf_evolved(old(db)@, final(db)@),
        r is Ok <==> all_item_totals_ok(old(db)@, items@),
        r matches Err(e) ==> final(db)@ == old(db)@ && first_item_error(old(db)@, items@, e),
        forall|i: int|
            0 <= i < old(db)@.len() && !items@.contains(i as usize) ==> final(db)@[i] == old(
                db,
            )@[i],
        r is Ok ==> forall|k: int|
            0 <= k < items@.len() ==> final(db)@[items@[k] as int] == (Expression {
                kind: old(db)@[items@[k] as int].kind,
                kept: kept_after(
                    op.op == SetOp::Drop,
                    old(db)@[items@[k] as int].kept,
                    selected(*op, item_totals(old(db)@, items@), k),
                ),
            }),
{
    let sel = match select_set(op, items, db) {
        Ok(s) => s,
        Err(e) => {
            proof {
                lemma_wf_evolved_refl(db@);
            }
            return Err(e);
        },
    };
    let is_drop = matches!(op.op, SetOp::Drop);
    let ghost a0 = db@;
    let mut k: usize = 0;
    while k < items.len()
        invariant
            k <= items@.len(),
            db@.len() == a0.len(),
            sel@.len() == items@.len(),
            is_drop == (op.op == SetOp::Drop),
            forall|j: int| 0 <= j < items@.len() ==> #[trigger] items@[j] < a0.len(),
            forall|j1: int, j2: int|
                0 <= j1 < j2 < items@.len() ==> items@[j1] != items@[j2],
            forall|j: int|
                0 <= j < sel@.len() ==> sel@[j] == selected(*op, item_totals(a0, items@), j),
            forall|i: int|
                0 <= i < a0.len() && !items@.take(k as int).contains(i as usize) ==> db@[i]
                    == a0[i],
            forall|j: int|
                0 <= j < k ==> db@[items@[j] as int] == (Expression {
                    kind: a0[items@[j] as int].kind,
                    kept: kept_after(
                        is_drop,
                        a0[items@[j] as int].kept,
                        sel@[j],
                    ),
                }),
        decreases items@.len() - k,
    {
        let idx = items[k];
        let keep_it = if is_drop {
            !sel[k]
        } else {
            sel[k]
        };
        let ghost before = db@;
        let node = db.get_mut(idx);
        node.kept = node.kept && keep_it;
        proof {
            assert(items@.take(k + 1)[k as int] == items@[k as int]);
            assert(items@.take(k + 1).contains(items@[k as int]));
            assert forall|i: int|
                0 <= i < a0.len() && !items@.take(k + 1).contains(i as usize) implies db@[i]
                == a0[i] by {
                if !items@.take(k as int).contains(i as usize) && i != idx {
                    assert(before[i] == a0[i]);
                }
                assert forall|x: usize| items@.take(k as int).contains(x) implies items@.take(
                    k + 1,
                ).contains(x) by {
                    let w = choose|w: int| 0 <= w < k && items@.take(k as int)[w] == x;
                    assert(items@.take(k + 1)[w] == x);
                }
            }
            assert(before[idx as int] == a0[idx as int]) by {
                if items@.take(k as int).contains(idx) {
                    let w = choose|w: int|
                        0 <= w < k && items@.take(k as int)[w] == idx;
                    assert(items@[w] == items@[k as int]);
                    assert(false);
                }
                assert(!items@.take(k as int).contains(idx));
            }
        }
        k = k + 1;
    }
    proof {
        db.lemma_len_bound();
        assert(items@.take(items@.len() as int) =~= items@);
        assert forall|j: int| 0 <= j < db@.len() implies (#[trigger] db@[j]).kind
            == a0[j].kind by {
            if items@.contains(j as usize) {
                let w = choose|w: int| 0 <= w < items@.len() && items@[w] == j as usize;
                assert(db@[items@[w] as int] == (Expression {
                    kind: a0[items@[w] as int].kind,
                    kept: kept_after(is_drop, a0[items@[w] as int].kept, sel@[w]),
                }));
                assert(items@[w] as int == j);
            } else {
                assert(!items@.take(items@.len() as int).contains(j as usize));
                assert(db@[j] == a0[j]);
            }
        }
        assert forall|i: int| 0 <= i < db@.len() implies #[trigger] node_wf(db@, i) by {
            assert(node_wf(a0, i));
            lemma_node_wf_kinds(a0, db@, i);
        }
    }
    Ok(())
}

// ---------------------------------------------------------------------------
// Arena evolution
// ---------------------------------------------------------------------------

/// How one node's payload may change under rule application: a literal only
/// accumulates values (no recorded roll is ever deleted); any other node
/// keeps its kind exactly.
pub open spec fn literal_or_same(k1: ExprKind, k2: ExprKind) -> bool {
    match k1 {
        ExprKind::Literal(l1) => k2 matches ExprKind::Literal(l2) && l1.values@.is_prefix_of(
            l2.values@,
        ),
        _ => k2 == k1,
    }
}

/// How the arena may change while one dice group's rules run: existing
/// nodes evolve by `literal_or_same`, and everything appended is a
/// non-empty literal.
pub open spec fn wf_evolved(a1: Seq<Expression>, a2: Seq<Expression>) -> bool {
    &&& a1.len() <= a2.len()
    &&& forall|i: int| 0 <= i < a1.len() ==> literal_or_same(a1[i].kind, (#[trigger] a2[i]).kind)
    &&& forall|i: int|
        a1.len() <= i < a2.len() ==> ((#[trigger] a2[i]).kind matches ExprKind::Literal(l)
            && l.values.len() > 0)
}

/// Arena evolution preserves well-formedness.
pub proof fn lemma_wf_evolved(a1: Seq<Expression>, a2: Seq<Expression>)
    requires
        arena_wf(a1),
        wf_evolved(a1, a2),
    ensures
        arena_wf(a2),
{
    assert forall|i: int| 0 <= i < a2.len() implies #[trigger] node_wf(a2, i) by {
        if i < a1.len() {
            assert(node_wf(a1, i));
            assert(literal_or_same(a1[i].kind, a2[i].kind));
            match a1[i].kind {
                ExprKind::Dice(d) => {
                    assert(a2[i].kind == a1[i].kind);
                    assert forall|k: int| 0 <= k < d.values.len() implies die_wf(
                        a2,
                        #[trigger] d.values[k],
                        a2.len() as int,
                    ) by {
                        assert(die_wf(a1, d.values[k], a1.len() as int));
                        lemma_die_wf_evolved(a1, a2, d.values[k]);
                    }
                },
                _ => {},
            }
        }
    }
}

/// Arena evolution preserves a die's structure: its values still point at
/// non-empty literal nodes.
pub proof fn lemma_die_wf_evolved(a1: Seq<Expression>, a2: Seq<Expression>, d: Die)
    requires
        die_wf(a1, d, a1.len() as int),
        wf_evolved(a1, a2),
    ensures
        die_wf(a2, d, a2.len() as int),
{
    assert forall|k: int| 0 <= k < d.values.len() implies #[trigger] d.values[k] < a2.len()
        && is_literal(a2, d.values[k] as int) by {
        assert(d.values[k] < a1.len());
        assert(is_literal(a1, d.values[k] as int));
        assert(literal_or_same(a1[d.values[k] as int].kind, a2[d.values[k] as int].kind));
    }
}

/// Arena evolution preserves a whole dice group's structure.
pub proof fn lemma_dice_wf_evolved(a1: Seq<Expression>, a2: Seq<Expression>, d: Dice)
    requires
        dice_wf(a1, d, a1.len() as int),
        wf_evolved(a1, a2),
    ensures
        dice_wf(a2, d, a2.len() as int),
{
    assert forall|k: int| 0 <= k < d.values.len() implies die_wf(
        a2,
        #[trigger] d.values[k],
        a2.len() as int,
    ) by {
        assert(die_wf(a1, d.values[k], a1.len() as int));
        lemma_die_wf_evolved(a1, a2, d.values[k]);
    }
}

/// Two arenas of equal length whose nodes carry the same kinds make the
/// same nodes well-formed: the `kept` flag plays no part in structure.
proof fn lemma_node_wf_kinds(a1: Seq<Expression>, a2: Seq<Expression>, i: int)
    requires
        a1.len() == a2.len(),
        forall|j: int| 0 <= j < a1.len() ==> (#[trigger] a2[j]).kind == a1[j].kind,
        0 <= i < a1.len(),
        node_wf(a1, i),
    ensures
        node_wf(a2, i),
{
    match a1[i].kind {
        ExprKind::Dice(d) => {
            assert forall|k: int| 0 <= k < d.values.len() implies die_wf(
                a2,
                #[trigger] d.values[k],
                a2.len() as int,
            ) by {
                assert(die_wf(a1, d.values[k], a1.len() as int));
            }
        },
        _ => {},
    }
}

// ---------------------------------------------------------------------------
// Reroll, explode, min, max
// ---------------------------------------------------------------------------

/// How many rounds an unbounded `Reroll` may run before the engine gives
/// up: plain rerolling has no structural termination guarantee, so the
/// engine imposes this cap and reports `RerollLimit` when it is reached.
pub const REROLL_LIMIT: u64 = 1000;

/// A resolution failure: an illegal operator/selector pairing or an
/// operator a set cannot take, a reroll that never settled, or an
/// evaluation failure while computing a selection total.
#[derive(Debug, Copy, Clone, PartialEq, Eq, Structural)]
pub enum ResolveError {
    InvalidOperation,
    RerollLimit,
    Expr(ExprError),
}

/// The literal `l` with one more value pushed.
pub open spec fn lit_pushed(e1: Expression, e2: Expression, value: u64) -> bool {
    &&& e1.kind matches ExprKind::Literal(l1) && e2.kind matches ExprKind::Literal(l2)
        && l2.values@ == l1.values@.push(value) && l2.exploded == l1.exploded
    &&& e2.kept == e1.kept
}

/// The literal `l` with its exploded flag raised.
pub open spec fn lit_marked(e1: Expression, e2: Expression) -> bool {
    &&& e1.kind matches ExprKind::Literal(l1) && (e2.kind matches ExprKind::Literal(l2)
        && l2.values@ == l1.values@ && l2.exploded)
    &&& e2.kept == e1.kept
}

/// A freshly appended roll node for a `sides`-sided die.
pub open spec fn fresh_roll_node(e: Expression, sides: u64) -> bool {
    &&& e.kind matches ExprKind::Literal(l) && l.values@.len() == 1 && 1 <= l.values@[0] <= sides
        && !l.exploded
    &&& e.kept
}

/// Pushes one fresh roll onto the die's history: a new literal node is
/// allocated and its index appended to the die's values, so the old value
/// stays readable but is no longer live.
fn die_add_roll(die: &mut Die, db: &mut Database, ctx: &mut crate::rng::RollContext)
    requires
        die_wf(old(db)@, *old(die), old(db)@.len() as int),
        old(die).sides >= 1,
    ensures
        final(db)@.len() == old(db)@.len() + 1,
        final(db)@.take(old(db)@.len() as int) == old(db)@,
        fresh_roll_node(final(db)@.last(), old(die).sides),
        final(die).sides == old(die).sides,
        final(die).kept == old(die).kept,
        final(die).values@ == old(die).values@.push((old(db)@.len() as usize) as ExprIdx),
        die_wf(final(db)@, *final(die), final(db)@.len() as int),
        final(ctx).seed() == old(ctx).seed(),
{
    proof {
        db.lemma_len_bound();
    }
    let roll = ctx.roll(die.sides);
    let values = vec![roll];
    proof {
        assert(values@ =~= seq![roll]);
    }
    let ghost before = db@;
    let li = db.allocate(
        Expression { kind: ExprKind::Literal(Literal { values, exploded: false }), kept: true },
    );
    die.values.push(li);
    proof {
        assert(db@.take(before.len() as int) =~= before);
        assert(wf_evolved(before, db@));
        lemma_die_wf_evolved(before, db@, *old(die));
        assert forall|k: int| 0 <= k < die.values@.len() implies #[trigger] die.values@[k]
            < db@.len() && is_literal(db@, die.values@[k] as int) by {
            if k < old(die).values@.len() {
                assert(die.values@[k] == old(die).values@[k]);
            } else {
                assert(die.values@[k] == li);
            }
        }
    }
}

/// Explodes the die once: its live value's literal is marked exploded, and
/// one fresh roll is appended, so that all accumulated values sum.
fn die_explode(die: &mut Die, db: &mut Database, ctx: &mut crate::rng::RollContext)
    requires
        die_wf(old(db)@, *old(die), old(db)@.len() as int),
        old(die).sides >= 1,
    ensures
        final(db)@.len() == old(db)@.len() + 1,
        fresh_roll_node(final(db)@.last(), old(die).sides),
        ({
            let last = old(die).values@.last() as int;
            &&& lit_marked(old(db)@[last], final(db)@[last])
            &&& forall|i: int|
                0 <= i < old(db)@.len() && i != last ==> final(db)@[i] == old(db)@[i]
        }),
        final(die).sides == old(die).sides,
        final(die).kept == old(die).kept,
        final(die).values@ == old(die).values@.push((old(db)@.len() as usize) as ExprIdx),
        die_wf(final(db)@, *final(die), final(db)@.len() as int),
        crate::total::die_exploded(final(db)@, *final(die)),
        final(ctx).seed() == old(ctx).seed(),
{
    proof {
        db.lemma_len_bound();
    }
    let last = die.values[die.values.len() - 1];
    let placeholder = Expression { kind: ExprKind::Missing, kept: false };
    let prev = db.replace(last, placeholder);
    let marked = match prev {
        Expression { kind: ExprKind::Literal(l), kept } => Expression {
            kind: ExprKind::Literal(Literal { values: l.values, exploded: true }),
            kept,
        },
        other => other,
    };
    let _ = db.replace(last, marked);
    let ghost mid = db@;
    proof {
        assert(mid =~= old(db)@.update(
            old(die).values@.last() as int,
            mid[old(die).values@.last() as int],
        ));
    }
    let roll = ctx.roll(die.sides);
    let values = vec![roll];
    proof {
        assert(values@ =~= seq![roll]);
    }
    let li = db.allocate(
        Expression { kind: ExprKind::Literal(Literal { values, exploded: false }), kept: true },
    );
    die.values.push(li);
    proof {
        assert(wf_evolved(old(db)@, db@)) by {
            assert forall|i: int|
                0 <= i < old(db)@.len() implies literal_or_same(
                old(db)@[i].kind,
                (#[trigger] db@[i]).kind,
            ) by {
                assert(is_literal(old(db)@, old(die).values@.last() as int));
            }
        }
        lemma_die_wf_evolved(old(db)@, db@, *old(die));
        assert forall|k: int| 0 <= k < die.values@.len() implies #[trigger] die.values@[k]
            < db@.len() && is_literal(db@, die.values@[k] as int) by {
            if k < old(die).values@.len() {
                assert(die.values@[k] == old(die).values@[k]);
            } else {
                assert(die.values@[k] == li);
            }
        }
        let lastk = old(die).values@.len() - 1;
        assert(die.values@[lastk] == old(die).values@.last());
        assert(crate::total::lit_exploded_at(db@, die.values@[lastk] as int));
    }
}

/// Whether the die's current total is strictly below (`Min`) or above
/// (`Max`) the operation's number, so that its live value must be forced.
pub open spec fn force_qualifies(is_max: bool, t: int, num: u64) -> bool {
    if is_max {
        t > num
    } else {
        t < num
    }
}

/// Applies `Min` or `Max` to a dice group: every die whose current total is
/// below (for `Min`) or above (for `Max`) the operation's number gets the
/// number pushed onto its live value's literal, so the forced value counts
/// and the rolled one stays in the history. Dice sharing no literal, each
/// die's qualification is judged on the state before the operation.
fn force_dice(op: &SetOperation, is_max: bool, dice: &Dice, db: &mut Database) -> (r: Result<
    (),
    ExprError,
>)
    requires
        dice_wf(old(db)@, *dice, old(db)@.len() as int),
    ensures
        final(db)@.len() == old(db)@.len(),
        wf_evolved(old(db)@, final(db)@),
        arena_wf(old(db)@) ==> arena_wf(final(db)@),
        dice_wf(final(db)@, *dice, final(db)@.len() as int),
        r is Ok <==> all_die_totals_ok(old(db)@, dice.values@),
        r matches Err(e) ==> final(db)@ == old(db)@ && first_die_error(
            old(db)@,
            dice.values@,
            e,
        ),
        r is Ok ==> {
            &&& forall|k: int|
                0 <= k < dice.values@.len() && force_qualifies(
                    is_max,
                    die_totals(old(db)@, dice.values@)[k],
                    op.num,
                ) ==> lit_pushed(
                    old(db)@[#[trigger] dice.values@[k].values@.last() as int],
                    final(db)@[dice.values@[k].values@.last() as int],
                    op.num,
                )
            &&& forall|i: int|
                0 <= i < old(db)@.len() && !(exists|k: int|
                    0 <= k < dice.values@.len() && force_qualifies(
                        is_max,
                        die_totals(old(db)@, dice.values@)[k],
                        op.num,
                    ) && i == #[trigger] dice.values@[k].values@.last() as int)
                    ==> final(db)@[i] == old(db)@[i]
        },
{
    let ghost a0 = db@;
    let ghost ds = dice.values@;
    // Compute every die's total before any mutation.
    let mut t: Vec<i64> = Vec::new();
    let mut k: usize = 0;
    while k < dice.values.len()
        invariant
            k <= ds.len(),
            dice.values@ == ds,
            db@ == a0,
            dice_wf(db@, *dice, db@.len() as int),
            t@.len() == k,
            forall|j: int|
                0 <= j < k ==> #[trigger] die_total(a0, ds[j]) == Ok::<int, ExprError>(
                    t@[j] as int,
                ),
        decreases ds.len() - k,
    {
        proof {
            assert(die_wf(db@, ds[k as int], db@.len() as int));
        }
        match total_die(db, &dice.values[k]) {
            Ok(v) => {
                t.push(v);
            },
            Err(e) => {
                proof {
                    lemma_wf_evolved_refl(db@);
                }
                return Err(e);
            },
        }
        k = k + 1;
    }
    // Push the forced value onto each qualifying die's live literal.
    let mut k: usize = 0;
    while k < dice.values.len()
        invariant
            k <= ds.len(),
            dice.values@ == ds,
            dice_wf(a0, *dice, a0.len() as int),
            db@.len() == a0.len(),
            t@.len() == ds.len(),
            forall|j: int|
                0 <= j < ds.len() ==> #[trigger] die_total(a0, ds[j]) == Ok::<int, ExprError>(
                    t@[j] as int,
                ),
            forall|j: int|
                0 <= j < k && force_qualifies(is_max, t@[j] as int, op.num) ==> lit_pushed(
                    a0[#[trigger] ds[j].values@.last() as int],
                    db@[ds[j].values@.last() as int],
                    op.num,
                ),
            forall|i: int|
                0 <= i < a0.len() && !(exists|j: int|
                    0 <= j < k && force_qualifies(is_max, t@[j] as int, op.num) && i
                        == #[trigger] ds[j].values@.last() as int) ==> db@[i] == a0[i],
            wf_evolved(a0, db@),
        decreases ds.len() - k,
    {
        let qualifies = if is_max {
            t[k] > 0 && t[k] as u64 > op.num
        } else {
            t[k] < 0 || (t[k] as u64) < op.num
        };
        if qualifies {
            proof {
                assert(die_wf(a0, ds[k as int], a0.len() as int));
                assert(is_literal(a0, ds[k as int].values@.last() as int));
            }
            let die_ref = &dice.values[k];
            let last = die_ref.values[die_ref.values.len() - 1];
            let ghost before = db@;
            let placeholder = Expression { kind: ExprKind::Missing, kept: false };
            let prev = db.replace(last, placeholder);
            let forced = match prev {
                Expression { kind: ExprKind::Literal(l), kept } => {
                    let mut values = l.values;
                    values.push(op.num);
                    Expression {
                        kind: ExprKind::Literal(Literal { values, exploded: l.exploded }),
                        kept,
                    }
                },
                other => other,
            };
            let _ = db.replace(last, forced);
            proof {
                assert(db@ =~= before.update(last as int, db@[last as int]));
                assert(literal_or_same(a0[last as int].kind, before[last as int].kind));
                assert(lit_pushed(a0[last as int], db@[last as int], op.num)) by {
                    assert(!(exists|j: int|
                        0 <= j < k && force_qualifies(is_max, t@[j] as int, op.num) && last as int
                            == #[trigger] ds[j].values@.last() as int)) by {
                        if exists|j: int|
                            0 <= j < k && force_qualifies(is_max, t@[j] as int, op.num) && (
                            last as int) == #[trigger] ds[j].values@.last() as int {
                            let j = choose|j: int|
                                0 <= j < k && force_qualifies(is_max, t@[j] as int, op.num) && (
                                last as int) == #[trigger] ds[j].values@.last() as int;
                            assert(dice_values_distinct(ds));
                            let li1 = ds[j].values@.len() - 1;
                            let li2 = ds[k as int].values@.len() - 1;
                            assert(ds[j].values@[li1] != ds[k as int].values@[li2]);
                        }
                    }
                    assert(before[last as int] == a0[last as int]);
                }
                assert forall|i: int|
                    0 <= i < a0.len() && !(exists|j: int|
                        0 <= j < k + 1 && force_qualifies(is_max, t@[j] as int, op.num) && i
                            == #[trigger] ds[j].values@.last() as int) implies db@[i] == a0[i] by {
                    if i != last as int {
                        assert(!(exists|j: int|
                            0 <= j < k && force_qualifies(is_max, t@[j] as int, op.num) && i
                                == #[trigger] ds[j].values@.last() as int));
                        assert(before[i] == a0[i]);
                    } else {
                        assert(ds[k as int].values@.last() as int == i);
                        assert(false);
                    }
                }
                assert forall|j: int|
                    0 <= j < k + 1 && force_qualifies(is_max, t@[j] as int, op.num) implies lit_pushed(
                    a0[#[trigger] ds[j].values@.last() as int],
                    db@[ds[j].values@.last() as int],
                    op.num,
                ) by {
                    if j < k {
                        assert(ds[j].values@.last() as int != last as int) by {
                            assert(dice_values_distinct(ds));
                            let li1 = ds[j].values@.len() - 1;
                            let li2 = ds[k as int].values@.len() - 1;
                            assert(ds[j].values@[li1] != ds[k as int].values@[li2]);
                        }
                        assert(db@[ds[j].values@.last() as int] == before[ds[j].values@.last() as int]);
                    }
                }
            }
        }
        k = k + 1;
    }
    proof {
        assert(t@.take(ds.len() as int) =~= t@);
        lemma_dice_wf_evolved(a0, db@, *dice);
        if arena_wf(a0) {
            lemma_wf_evolved(a0, db@);
        }
    }
    Ok(())
}

/// Arena evolution composes.
pub proof fn lemma_wf_evolved_trans(a1: Seq<Expression>, a2: Seq<Expression>, a3: Seq<Expression>)
    requires
        wf_evolved(a1, a2),
        wf_evolved(a2, a3),
    ensures
        wf_evolved(a1, a3),
{
    assert forall|i: int| 0 <= i < a1.len() implies literal_or_same(
        a1[i].kind,
        (#[trigger] a3[i]).kind,
    ) by {
        assert(literal_or_same(a1[i].kind, a2[i].kind));
        assert(literal_or_same(a2[i].kind, a3[i].kind));
        match a1[i].kind {
            ExprKind::Literal(l1) => {
                if let ExprKind::Literal(l3) = a3[i].kind {
                    if let ExprKind::Literal(l2) = a2[i].kind {
                        assert(l3.values@.take(l1.values@.len() as int) =~= l1.values@) by {
                            assert(l2.values@.take(l1.values@.len() as int) == l1.values@);
                            assert(l3.values@.take(l2.values@.len() as int) == l2.values@);
                            assert forall|v: int| 0 <= v < l1.values@.len() implies l3.values@[v]
                                == l1.values@[v] by {
                                assert(l2.values@.take(l1.values@.len() as int)[v] == l2.values@[v]);
                                assert(l3.values@.take(l2.values@.len() as int)[v] == l3.values@[v]);
                            }
                        }
                    }
                }
            },
            _ => {},
        }
    }
    assert forall|i: int| a1.len() <= i < a3.len() implies ((#[trigger] a3[i]).kind
        matches ExprKind::Literal(l) && l.values.len() > 0) by {
        if i < a2.len() {
            assert(literal_or_same(a2[i].kind, a3[i].kind));
        }
    }
}

/// Whether the node at `v` holds one accumulated roll of a `sides`-sided
/// die: a kept literal with exactly one value in `[1, sides]`.
pub open spec fn roll_node_at(arena: Seq<Expression>, v: int, sides: u64) -> bool {
    &&& 0 <= v < arena.len()
    &&& arena[v].kind matches ExprKind::Literal(l) && l.values@.len() == 1 && 1 <= l.values@[0]
        <= sides
    &&& arena[v].kept
}

/// Whether some die of the group owns the arena node at `i`: one of its
/// recorded values points there.
pub open spec fn die_node_owned(dies: Seq<Die>, i: int) -> bool {
    exists|k: int, j: int|
        0 <= k < dies.len() && 0 <= j < dies[k].values@.len() && #[trigger] dies[k].values@[j]
            == i
}

/// Whether, on the way from `d1` to `d2` with the arena now at `a2`, the
/// selected dice each gained exactly one fresh roll in `[1, sides]` appended
/// after their retained history, and the others stayed exactly as they were.
pub open spec fn dies_rerolled(
    a2: Seq<Expression>,
    d1: Seq<Die>,
    d2: Seq<Die>,
    sel: Seq<bool>,
    lo: int,
    hi: int,
) -> bool {
    &&& d2.len() == d1.len()
    &&& forall|k: int| 0 <= k < d1.len() && !sel[k] ==> #[trigger] d2[k] == d1[k]
    &&& forall|k: int|
        0 <= k < d1.len() && sel[k] ==> {
            &&& (#[trigger] d2[k]).sides == d1[k].sides
            &&& d2[k].kept == d1[k].kept
            &&& d2[k].values@.len() == d1[k].values@.len() + 1
            &&& d2[k].values@ == d1[k].values@.push(d2[k].values@.last())
            &&& lo <= d2[k].values@.last() < hi
            &&& crate::lower::fresh_roll_at(a2, d2[k].values@.last() as int, d1[k].sides)
        }
}

/// Rerolls every selected die once: a fresh roll is pushed onto the die's
/// history, so the old value is retained but no longer live. Selection is
/// computed once, before any reroll.
fn reroll_dice_once(
    op: &SetOperation,
    dice: &mut Dice,
    db: &mut Database,
    ctx: &mut crate::rng::RollContext,
) -> (r: Result<(), ExprError>)
    requires
        dice_wf(old(db)@, *old(dice), old(db)@.len() as int),
    ensures
        old(db)@.len() <= final(db)@.len(),
        final(db)@.take(old(db)@.len() as int) == old(db)@,
        wf_evolved(old(db)@, final(db)@),
        final(dice).count == old(dice).count,
        final(dice).sides == old(dice).sides,
        final(dice).ops == old(dice).ops,
        dice_wf(final(db)@, *final(dice), final(db)@.len() as int),
        final(ctx).seed() == old(ctx).seed(),
        r is Ok <==> all_die_totals_ok(old(db)@, old(dice).values@),
        r matches Err(e) ==> *final(dice) == *old(dice) && final(db)@ == old(db)@
            && first_die_error(old(db)@, old(dice).values@, e),
        r is Ok ==> dies_rerolled(
            final(db)@,
            old(dice).values@,
            final(dice).values@,
            Seq::new(
                old(dice).values@.len(),
                |k: int| selected(*op, die_totals(old(db)@, old(dice).values@), k),
            ),
            old(db)@.len() as int,
            final(db)@.len() as int,
        ),
{
    let sel = match select_dice(op, dice, db) {
        Ok(s) => s,
        Err(e) => {
            return Err(e);
        },
    };
    let ghost a0 = db@;
    let ghost ds = dice.values@;
    let ghost sel0 = Seq::new(ds.len(), |k: int| selected(*op, die_totals(a0, ds), k));
    proof {
        assert(sel@ =~= sel0);
    }
    let mut k: usize = 0;
    while k < dice.values.len()
        invariant
            k <= ds.len(),
            dice.values@.len() == ds.len(),
            dice.count == old(dice).count,
            dice.sides == old(dice).sides,
            dice.ops == old(dice).ops,
            sel@ == sel0,
            sel0.len() == ds.len(),
            a0.len() <= db@.len(),
            db@.take(a0.len() as int) == a0,
            wf_evolved(a0, db@),
            ctx.seed() == old(ctx).seed(),
            forall|j: int| k <= j < ds.len() ==> #[trigger] dice.values@[j] == ds[j],
            forall|j: int| 0 <= j < ds.len() ==> die_wf(a0, #[trigger] ds[j], a0.len() as int),
            dice_values_distinct(ds),
            forall|j: int|
                0 <= j < dice.values@.len() ==> die_wf(
                    db@,
                    #[trigger] dice.values@[j],
                    db@.len() as int,
                ),
            dies_rerolled(
                db@,
                ds.take(k as int),
                dice.values@.take(k as int),
                sel0,
                a0.len() as int,
                db@.len() as int,
            ),
            dice_values_distinct(dice.values@),
            forall|j: int, i: int|
                0 <= j < dice.values@.len() && 0 <= i < dice.values@[j].values.len() ==> (
                #[trigger] dice.values@[j].values[i]) < db@.len(),
        decreases ds.len() - k,
    {
        if sel[k] {
            proof {
                assert(die_wf(db@, dice.values@[k as int], db@.len() as int));
                assert(die_wf(a0, ds[k as int], a0.len() as int));
            }
            let ghost before = db@;
            let ghost dies_before = dice.values@;
            let die_ref = &mut dice.values[k];
            proof {
                assert(die_ref.sides >= 1) by {
                    assert(is_literal(a0, ds[k as int].values@[0] as int));
                }
            }
            die_add_roll(die_ref, db, ctx);
            proof {
                db.lemma_len_bound();
                assert(dice.values@ =~= dies_before.update(k as int, dice.values@[k as int]));
                assert(dice.values@[k as int].values@ == dies_before[k as int].values@.push(
                    (before.len() as usize) as ExprIdx,
                ));
                assert(db@.take(a0.len() as int) =~= a0);
                assert(wf_evolved(before, db@));
                lemma_wf_evolved_trans(a0, before, db@);
                assert forall|j: int|
                    0 <= j < dice.values@.len() implies die_wf(
                    db@,
                    #[trigger] dice.values@[j],
                    db@.len() as int,
                ) by {
                    if j != k {
                        assert(dice.values@[j] == dies_before[j]);
                        assert(die_wf(before, dies_before[j], before.len() as int));
                        lemma_die_wf_evolved(before, db@, dies_before[j]);
                    }
                }
                assert forall|k1: int, k2: int, i1: int, i2: int|
                    0 <= k1 < dice.values@.len() && 0 <= k2 < dice.values@.len() && k1 != k2 && 0
                        <= i1 < dice.values@[k1].values.len() && 0 <= i2
                        < dice.values@[k2].values.len() implies #[trigger] dice.values@[k1].values[i1]
                    != #[trigger] dice.values@[k2].values[i2] by {
                    assert(dice_values_distinct(dies_before));
                    if k1 == k as int && i1 == dice.values@[k1].values.len() - 1 {
                        assert(dice.values@[k1].values[i1] == before.len());
                        assert(dies_before[k2].values[i2] < before.len());
                    } else if k2 == k as int && i2 == dice.values@[k2].values.len() - 1 {
                        assert(dice.values@[k2].values[i2] == before.len());
                        assert(dies_before[k1].values[i1] < before.len());
                    } else {
                        assert(dice.values@[k1].values[i1] == dies_before[k1].values[i1]);
                        assert(dice.values@[k2].values[i2] == dies_before[k2].values[i2]);
                    }
                }
                assert(dies_rerolled(
                    db@,
                    ds.take(k + 1),
                    dice.values@.take(k + 1),
                    sel0,
                    a0.len() as int,
                    db@.len() as int,
                )) by {
                    let d1 = ds.take(k + 1);
                    let d2 = dice.values@.take(k + 1);
                    assert forall|j: int| 0 <= j < d1.len() && !sel0[j] implies #[trigger] d2[j]
                        == d1[j] by {
                        assert(d1[j] == ds[j]);
                        assert(d2[j] == dice.values@[j]);
                        assert(ds.take(k as int)[j] == ds[j]);
                        assert(dice.values@[j] == dies_before[j]);
                        assert(dies_before.take(k as int)[j] == dies_before[j]);
                    }
                    assert forall|j: int|
                        0 <= j < d1.len() && sel0[j] implies {
                        &&& (#[trigger] d2[j]).sides == d1[j].sides
                        &&& d2[j].kept == d1[j].kept
                        &&& d2[j].values@.len() == d1[j].values@.len() + 1
                        &&& d2[j].values@ == d1[j].values@.push(d2[j].values@.last())
                        &&& a0.len() <= d2[j].values@.last() < db@.len()
                        &&& crate::lower::fresh_roll_at(db@, d2[j].values@.last() as int, d1[j].sides)
                    } by {
                        assert(d1[j] == ds[j]);
                        assert(d2[j] == dice.values@[j]);
                        if j < k {
                            assert(ds.take(k as int)[j] == ds[j]);
                            assert(dies_before.take(k as int)[j] == dies_before[j]);
                            assert(dice.values@[j] == dies_before[j]);
                            assert(crate::lower::fresh_roll_at(
                                before,
                                dies_before[j].values@.last() as int,
                                ds[j].sides,
                            ));
                            assert(db@[dies_before[j].values@.last() as int] == before[dies_before[
                                j
                            ].values@.last() as int]) by {
                                assert(db@.take(before.len() as int)[dies_before[j].values@.last() as int]
                                    == db@[dies_before[j].values@.last() as int]);
                            }
                        } else {
                            assert(d2[j].values@.last() == before.len());
                            assert(db@.last() == db@[before.len() as int]);
                            assert(fresh_roll_node(db@[before.len() as int], ds[j].sides));
                        }
                    }
                }
            }
        } else {
            proof {
                assert(dice.values@.take(k + 1) =~= dice.values@.take(k as int).push(
                    dice.values@[k as int],
                ));
                assert(ds.take(k + 1) =~= ds.take(k as int).push(ds[k as int]));
                assert(dice.values@[k as int] == ds[k as int]);
                assert(dies_rerolled(
                    db@,
                    ds.take(k + 1),
                    dice.values@.take(k + 1),
                    sel0,
                    a0.len() as int,
                    db@.len() as int,
                )) by {
                    let d1 = ds.take(k + 1);
                    let d2 = dice.values@.take(k + 1);
                    assert forall|j: int| 0 <= j < d1.len() && !sel0[j] implies #[trigger] d2[j]
                        == d1[j] by {
                        if j < k {
                            assert(ds.take(k as int)[j] == ds[j]);
                            assert(dice.values@.take(k as int)[j] == dice.values@[j]);
                        }
                        assert(d1[j] == ds[j]);
                        assert(d2[j] == dice.values@[j]);
                    }
                    assert forall|j: int|
                        0 <= j < d1.len() && sel0[j] implies {
                        &&& (#[trigger] d2[j]).sides == d1[j].sides
                        &&& d2[j].kept == d1[j].kept
                        &&& d2[j].values@.len() == d1[j].values@.len() + 1
                        &&& d2[j].values@ == d1[j].values@.push(d2[j].values@.last())
                        &&& a0.len() <= d2[j].values@.last() < db@.len()
                        &&& crate::lower::fresh_roll_at(db@, d2[j].values@.last() as int, d1[j].sides)
                    } by {
                        assert(j < k);
                        assert(ds.take(k as int)[j] == ds[j]);
                        assert(dice.values@.take(k as int)[j] == dice.values@[j]);
                        assert(d1[j] == ds[j]);
                        assert(d2[j] == dice.values@[j]);
                    }
                }
            }
        }
        k = k + 1;
    }
    proof {
        assert(ds.take(ds.len() as int) =~= ds);
        assert(dice.values@.take(ds.len() as int) =~= dice.values@);
    }
    Ok(())
}

/// How one literal may change while an explode runs: its values stay exactly
/// as they were (explode marks and appends fresh nodes, never edits a
/// recorded roll) and the exploded flag is never lowered.
pub open spec fn lit_monotone(k1: ExprKind, k2: ExprKind) -> bool {
    match k1 {
        ExprKind::Literal(l1) => k2 matches ExprKind::Literal(l2) && l2.values@ == l1.values@ && (
        l1.exploded ==> l2.exploded),
        _ => k2 == k1,
    }
}

/// How the arena may change while an explode runs: existing nodes keep their
/// values and their `kept` flags; everything appended is a non-empty literal.
pub open spec fn explode_evolved(a1: Seq<Expression>, a2: Seq<Expression>) -> bool {
    &&& a1.len() <= a2.len()
    &&& forall|i: int| 0 <= i < a1.len() ==> lit_monotone(a1[i].kind, (#[trigger] a2[i]).kind)
    &&& forall|i: int| 0 <= i < a1.len() ==> (#[trigger] a2[i]).kept == a1[i].kept
    &&& forall|i: int|
        a1.len() <= i < a2.len() ==> ((#[trigger] a2[i]).kind matches ExprKind::Literal(l)
            && l.values.len() > 0)
}

/// Explode evolution is a special case of arena evolution.
pub proof fn lemma_explode_evolved_wf(a1: Seq<Expression>, a2: Seq<Expression>)
    requires
        explode_evolved(a1, a2),
    ensures
        wf_evolved(a1, a2),
{
    assert forall|i: int| 0 <= i < a1.len() implies literal_or_same(
        a1[i].kind,
        (#[trigger] a2[i]).kind,
    ) by {
        assert(lit_monotone(a1[i].kind, a2[i].kind));
        match a1[i].kind {
            ExprKind::Literal(l1) => {
                if let ExprKind::Literal(l2) = a2[i].kind {
                    assert(l2.values@.take(l1.values@.len() as int) =~= l1.values@);
                }
            },
            _ => {},
        }
    }
}

/// Explode evolution composes.
pub proof fn lemma_explode_evolved_trans(
    a1: Seq<Expression>,
    a2: Seq<Expression>,
    a3: Seq<Expression>,
)
    requires
        explode_evolved(a1, a2),
        explode_evolved(a2, a3),
    ensures
        explode_evolved(a1, a3),
{
    assert forall|i: int| 0 <= i < a1.len() implies lit_monotone(
        a1[i].kind,
        (#[trigger] a3[i]).kind,
    ) by {
        assert(lit_monotone(a1[i].kind, a2[i].kind));
        assert(lit_monotone(a2[i].kind, a3[i].kind));
    }
    assert forall|i: int| 0 <= i < a1.len() implies (#[trigger] a3[i]).kept == a1[i].kept by {
        assert(a2[i].kept == a1[i].kept);
        assert(a3[i].kept == a2[i].kept);
    }
    assert forall|i: int| a1.len() <= i < a3.len() implies ((#[trigger] a3[i]).kind
        matches ExprKind::Literal(l) && l.values.len() > 0) by {
        if i < a2.len() {
            assert(lit_monotone(a2[i].kind, a3[i].kind));
        }
    }
}

/// A die once exploded stays exploded as the arena evolves and its history
/// grows.
pub proof fn lemma_die_exploded_monotone(
    a1: Seq<Expression>,
    a2: Seq<Expression>,
    d1: Die,
    d2: Die,
)
    requires
        crate::total::die_exploded(a1, d1),
        explode_evolved(a1, a2),
        die_wf(a1, d1, a1.len() as int),
        d1.values@.is_prefix_of(d2.values@),
    ensures
        crate::total::die_exploded(a2, d2),
{
    let k = choose|k: int|
        0 <= k < d1.values.len() && crate::total::lit_exploded_at(
            a1,
            #[trigger] d1.values[k] as int,
        );
    assert(d2.values@[k] == d1.values@[k]);
    assert(lit_monotone(a1[d1.values[k] as int].kind, a2[d1.values[k] as int].kind));
    assert(crate::total::lit_exploded_at(a2, d2.values[k] as int));
}

/// Explodes every die of `to_explode` once, marking each one's live literal
/// and pushing a fresh roll onto its history.
fn explode_marked(
    to_explode: &Vec<bool>,
    dice: &mut Dice,
    db: &mut Database,
    ctx: &mut crate::rng::RollContext,
)
    requires
        dice_wf(old(db)@, *old(dice), old(db)@.len() as int),
        to_explode@.len() == old(dice).values@.len(),
    ensures
        old(db)@.len() <= final(db)@.len(),
        explode_evolved(old(db)@, final(db)@),
        final(dice).count == old(dice).count,
        final(dice).sides == old(dice).sides,
        final(dice).ops == old(dice).ops,
        final(dice).values@.len() == old(dice).values@.len(),
        dice_wf(final(db)@, *final(dice), final(db)@.len() as int),
        final(ctx).seed() == old(ctx).seed(),
        forall|k: int|
            0 <= k < old(dice).values@.len() && !to_explode@[k]
                ==> #[trigger] final(dice).values@[k] == old(dice).values@[k],
        forall|k: int|
            0 <= k < old(dice).values@.len() ==> {
                &&& (#[trigger] final(dice).values@[k]).sides == old(dice).values@[k].sides
                &&& final(dice).values@[k].kept == old(dice).values@[k].kept
                &&& old(dice).values@[k].values@.is_prefix_of(final(dice).values@[k].values@)
            },
        forall|k: int|
            0 <= k < old(dice).values@.len() && to_explode@[k]
                ==> crate::total::die_exploded(final(db)@, #[trigger] final(dice).values@[k]),
        forall|k: int|
            0 <= k < old(dice).values@.len() && to_explode@[k] ==> {
                &&& (#[trigger] final(dice).values@[k]).values@ == old(
                    dice,
                ).values@[k].values@.push(final(dice).values@[k].values@.last())
                &&& old(db)@.len() <= final(dice).values@[k].values@.last() < final(db)@.len()
                &&& roll_node_at(
                    final(db)@,
                    final(dice).values@[k].values@.last() as int,
                    old(dice).values@[k].sides,
                )
            },
        forall|i: int|
            0 <= i < old(db)@.len() && !(exists|k: int|
                0 <= k < old(dice).values@.len() && to_explode@[k] && i == (#[trigger] old(
                    dice,
                ).values@[k]).values@.last() as int) ==> final(db)@[i] == old(db)@[i],
{
    let ghost a0 = db@;
    let ghost ds = dice.values@;
    let mut k: usize = 0;
    while k < dice.values.len()
        invariant
            k <= ds.len(),
            to_explode@.len() == ds.len(),
            dice.values@.len() == ds.len(),
            dice.count == old(dice).count,
            dice.sides == old(dice).sides,
            dice.ops == old(dice).ops,
            a0.len() <= db@.len(),
            explode_evolved(a0, db@),
            ctx.seed() == old(ctx).seed(),
            forall|j: int| k <= j < ds.len() ==> #[trigger] dice.values@[j] == ds[j],
            forall|j: int| 0 <= j < k && !to_explode@[j] ==> #[trigger] dice.values@[j] == ds[j],
            forall|j: int| 0 <= j < ds.len() ==> die_wf(a0, #[trigger] ds[j], a0.len() as int),
            dice_values_distinct(ds),
            forall|j: int|
                0 <= j < dice.values@.len() ==> die_wf(
                    db@,
                    #[trigger] dice.values@[j],
                    db@.len() as int,
                ),
            dice_values_distinct(dice.values@),
            forall|j: int|
                0 <= j < ds.len() ==> {
                    &&& (#[trigger] dice.values@[j]).sides == ds[j].sides
                    &&& dice.values@[j].kept == ds[j].kept
                    &&& ds[j].values@.is_prefix_of(dice.values@[j].values@)
                },
            forall|j: int|
                0 <= j < k && to_explode@[j] ==> crate::total::die_exploded(
                    db@,
                    #[trigger] dice.values@[j],
                ),
            forall|j: int, i: int|
                0 <= j < dice.values@.len() && 0 <= i < dice.values@[j].values.len() ==> (
                #[trigger] dice.values@[j].values[i]) < db@.len(),
            forall|j: int|
                0 <= j < k && to_explode@[j] ==> {
                    &&& (#[trigger] dice.values@[j]).values@ == ds[j].values@.push(
                        dice.values@[j].values@.last(),
                    )
                    &&& a0.len() <= dice.values@[j].values@.last() < db@.len()
                    &&& roll_node_at(db@, dice.values@[j].values@.last() as int, ds[j].sides)
                },
            forall|i: int|
                0 <= i < a0.len() && !(exists|j: int|
                    0 <= j < k && to_explode@[j] && i == (#[trigger] ds[j]).values@.last() as int)
                    ==> db@[i] == a0[i],
        decreases ds.len() - k,
    {
        if to_explode[k] {
            proof {
                assert(die_wf(db@, dice.values@[k as int], db@.len() as int));
            }
            let ghost before = db@;
            let ghost dies_before = dice.values@;
            let die_ref = &mut dice.values[k];
            die_explode(die_ref, db, ctx);
            proof {
                db.lemma_len_bound();
                assert(dice.values@ =~= dies_before.update(k as int, dice.values@[k as int]));
                let lastv = dies_before[k as int].values@.last() as int;
                assert(explode_evolved(before, db@)) by {
                    assert forall|i: int|
                        0 <= i < before.len() implies lit_monotone(
                        before[i].kind,
                        (#[trigger] db@[i]).kind,
                    ) by {
                        if i == lastv {
                            assert(lit_marked(before[i], db@[i]));
                        } else {
                            assert(db@[i] == before[i]);
                        }
                    }
                    assert forall|i: int|
                        0 <= i < before.len() implies (#[trigger] db@[i]).kept
                        == before[i].kept by {
                        if i == lastv {
                            assert(lit_marked(before[i], db@[i]));
                        } else {
                            assert(db@[i] == before[i]);
                        }
                    }
                }
                lemma_explode_evolved_trans(a0, before, db@);
                assert forall|j: int|
                    0 <= j < dice.values@.len() implies die_wf(
                    db@,
                    #[trigger] dice.values@[j],
                    db@.len() as int,
                ) by {
                    if j != k {
                        assert(dice.values@[j] == dies_before[j]);
                        assert(die_wf(before, dies_before[j], before.len() as int));
                        lemma_explode_evolved_wf(before, db@);
                        lemma_die_wf_evolved(before, db@, dies_before[j]);
                    }
                }
                assert forall|k1: int, k2: int, i1: int, i2: int|
                    0 <= k1 < dice.values@.len() && 0 <= k2 < dice.values@.len() && k1 != k2 && 0
                        <= i1 < dice.values@[k1].values.len() && 0 <= i2
                        < dice.values@[k2].values.len() implies #[trigger] dice.values@[k1].values[i1]
                    != #[trigger] dice.values@[k2].values[i2] by {
                    assert(dice_values_distinct(dies_before));
                    if k1 == k as int && i1 == dice.values@[k1].values.len() - 1 {
                        assert(dice.values@[k1].values[i1] == before.len());
                        assert(dies_before[k2].values[i2] < before.len());
                    } else if k2 == k as int && i2 == dice.values@[k2].values.len() - 1 {
                        assert(dice.values@[k2].values[i2] == before.len());
                        assert(dies_before[k1].values[i1] < before.len());
                    } else {
                        assert(dice.values@[k1].values[i1] == dies_before[k1].values[i1]);
                        assert(dice.values@[k2].values[i2] == dies_before[k2].values[i2]);
                    }
                }
                assert forall|j: int|
                    0 <= j < ds.len() implies {
                    &&& (#[trigger] dice.values@[j]).sides == ds[j].sides
                    &&& dice.values@[j].kept == ds[j].kept
                    &&& ds[j].values@.is_prefix_of(dice.values@[j].values@)
                } by {
                    if j == k {
                        assert(dies_before[j].values@.is_prefix_of(dice.values@[j].values@));
                    }
                }
                assert forall|j: int|
                    0 <= j < k + 1 && to_explode@[j] implies crate::total::die_exploded(
                    db@,
                    #[trigger] dice.values@[j],
                ) by {
                    if j < k {
                        assert(crate::total::die_exploded(before, dies_before[j]));
                        assert(die_wf(before, dies_before[j], before.len() as int));
                        lemma_die_exploded_monotone(
                            before,
                            db@,
                            dies_before[j],
                            dice.values@[j],
                        );
                    }
                }
                assert(ds[k as int].values@.last() < a0.len()) by {
                    assert(die_wf(a0, ds[k as int], a0.len() as int));
                }
                assert forall|j: int|
                    0 <= j < k + 1 && to_explode@[j] implies {
                    &&& (#[trigger] dice.values@[j]).values@ == ds[j].values@.push(
                        dice.values@[j].values@.last(),
                    )
                    &&& a0.len() <= dice.values@[j].values@.last() < db@.len()
                    &&& roll_node_at(db@, dice.values@[j].values@.last() as int, ds[j].sides)
                } by {
                    if j == k {
                        assert(dies_before[k as int] == ds[k as int]);
                        assert(dice.values@[k as int].values@ == ds[k as int].values@.push(
                            (before.len() as usize) as ExprIdx,
                        ));
                        assert(db@.last() == db@[before.len() as int]);
                        assert(fresh_roll_node(db@[before.len() as int], ds[k as int].sides));
                    } else {
                        assert(dice.values@[j] == dies_before[j]);
                        let lv = dies_before[j].values@.last() as int;
                        assert(roll_node_at(before, lv, ds[j].sides));
                        assert(lv != ds[k as int].values@.last() as int);
                        assert(db@[lv] == before[lv]);
                    }
                }
                assert forall|i: int|
                    0 <= i < a0.len() && !(exists|j: int|
                        0 <= j < k + 1 && to_explode@[j] && i == (#[trigger] ds[j]).values@.last() as int)
                        implies db@[i] == a0[i] by {
                    assert(i != ds[k as int].values@.last() as int) by {
                        if i == ds[k as int].values@.last() as int {
                            assert(0 <= k < k + 1 && to_explode@[k as int] && i == (
                            ds[k as int]).values@.last() as int);
                        }
                    }
                    assert(!(exists|j: int|
                        0 <= j < k && to_explode@[j] && i == (#[trigger] ds[j]).values@.last() as int)) by {
                        if exists|j: int|
                            0 <= j < k && to_explode@[j] && i == (#[trigger] ds[j]).values@.last() as int {
                            let j = choose|j: int|
                                0 <= j < k && to_explode@[j] && i == (#[trigger] ds[j]).values@.last() as int;
                            assert(0 <= j < k + 1 && to_explode@[j] && i == ds[j].values@.last() as int);
                        }
                    }
                    assert(before[i] == a0[i]);
                    assert(db@[i] == before[i]);
                }
            }
        }
        k = k + 1;
    }
}

/// How many entries of the tracking vector are still unset.
pub open spec fn count_false(s: Seq<bool>) -> int
    decreases s.len(),
{
    if s.len() == 0 {
        0int
    } else {
        count_false(s.drop_last()) + if s.last() {
            0int
        } else {
            1int
        }
    }
}

/// The count of unset entries is bounded by the length.
proof fn lemma_count_false_bounds(s: Seq<bool>)
    ensures
        0 <= count_false(s) <= s.len(),
    decreases s.len(),
{
    if s.len() > 0 {
        lemma_count_false_bounds(s.drop_last());
    }
}

/// Setting entries only lowers the count of unset entries; setting one
/// that was unset lowers it strictly.
proof fn lemma_count_false_mono(s1: Seq<bool>, s2: Seq<bool>)
    requires
        s1.len() == s2.len(),
        forall|j: int| 0 <= j < s1.len() && s1[j] ==> #[trigger] s2[j],
    ensures
        count_false(s2) <= count_false(s1),
    decreases s1.len(),
{
    if s1.len() > 0 {
        assert forall|j: int|
            0 <= j < s1.drop_last().len() && s1.drop_last()[j] implies #[trigger] s2.drop_last()[j] by {
            assert(s1[j]);
            assert(s2[j]);
        }
        lemma_count_false_mono(s1.drop_last(), s2.drop_last());
        assert(s1.last() ==> s2.last());
    }
}

/// See `lemma_count_false_mono`: one strict flip gives a strict drop.
proof fn lemma_count_false_strict(s1: Seq<bool>, s2: Seq<bool>, i: int)
    requires
        s1.len() == s2.len(),
        forall|j: int| 0 <= j < s1.len() && s1[j] ==> #[trigger] s2[j],
        0 <= i < s1.len(),
        !s1[i],
        s2[i],
    ensures
        count_false(s2) < count_false(s1),
    decreases s1.len(),
{
    if i == s1.len() - 1 {
        lemma_count_false_mono(s1.drop_last(), s2.drop_last());
    } else {
        assert forall|j: int|
            0 <= j < s1.drop_last().len() && s1.drop_last()[j] implies #[trigger] s2.drop_last()[j] by {
            assert(s1[j]);
            assert(s2[j]);
        }
        lemma_count_false_strict(s1.drop_last(), s2.drop_last(), i);
        assert(s1.last() ==> s2.last());
    }
}

/// Applies `Explode` to a dice group to its fixpoint: every round, the
/// qualifying dice that have not yet exploded this resolution each gain one
/// accumulated roll, and selection is recomputed; dice already exploded are
/// permanently excluded, which forces termination. On success every die the
/// final selection still picks carries an exploded value.
fn explode_dice(
    op: &SetOperation,
    dice: &mut Dice,
    db: &mut Database,
    ctx: &mut crate::rng::RollContext,
) -> (r: Result<(), ExprError>)
    requires
        dice_wf(old(db)@, *old(dice), old(db)@.len() as int),
    ensures
        old(db)@.len() <= final(db)@.len(),
        wf_evolved(old(db)@, final(db)@),
        final(dice).count == old(dice).count,
        final(dice).sides == old(dice).sides,
        final(dice).ops == old(dice).ops,
        final(dice).values@.len() == old(dice).values@.len(),
        forall|k: int|
            0 <= k < old(dice).values@.len() ==> (#[trigger] final(dice).values@[k]).kept == old(
                dice,
            ).values@[k].kept,
        dice_wf(final(db)@, *final(dice), final(db)@.len() as int),
        final(ctx).seed() == old(ctx).seed(),
        r is Ok ==> all_die_totals_ok(final(db)@, final(dice).values@) && forall|k: int|
            0 <= k < final(dice).values@.len() && selected(
                *op,
                die_totals(final(db)@, final(dice).values@),
                k,
            ) ==> crate::total::die_exploded(final(db)@, #[trigger] final(dice).values@[k]),
        forall|k: int|
            0 <= k < old(dice).values@.len() ==> {
                &&& (#[trigger] final(dice).values@[k]).sides == old(dice).values@[k].sides
                &&& old(dice).values@[k].values@.is_prefix_of(final(dice).values@[k].values@)
            },
        forall|k: int|
            0 <= k < old(dice).values@.len() ==> #[trigger] final(dice).values@[k] == old(
                dice,
            ).values@[k] || crate::total::die_exploded(final(db)@, final(dice).values@[k]),
        forall|k: int, i: int|
            0 <= k < old(dice).values@.len() && old(dice).values@[k].values@.len() <= i
                < final(dice).values@[k].values@.len() ==> roll_node_at(
                final(db)@,
                #[trigger] final(dice).values@[k].values@[i] as int,
                old(dice).values@[k].sides,
            ),
        forall|i: int|
            0 <= i < old(db)@.len() && !die_node_owned(old(dice).values@, i) ==> final(db)@[i]
                == old(db)@[i],
        !all_die_totals_ok(old(db)@, old(dice).values@) ==> (r matches Err(e) && final(db)@
            == old(db)@ && final(dice).values@ == old(dice).values@ && first_die_error(
            old(db)@,
            old(dice).values@,
            e,
        )),
        all_die_totals_ok(old(db)@, old(dice).values@) && (forall|k: int|
            0 <= k < old(dice).values@.len() ==> !selected(
                *op,
                die_totals(old(db)@, old(dice).values@),
                k,
            )) ==> (r is Ok && final(db)@ == old(db)@ && final(dice).values@ == old(
            dice,
        ).values@),
{
    let n = dice.values.len();
    let mut already: Vec<bool> = Vec::new();
    let mut i: usize = 0;
    while i < n
        invariant
            i <= n,
            already@.len() == i,
            forall|j: int| 0 <= j < i ==> !(#[trigger] already@[j]),
        decreases n - i,
    {
        already.push(false);
        i = i + 1;
    }
    let ghost a0 = db@;
    let ghost mut pristine: bool = true;
    proof {
        assert forall|j: int|
            0 <= j < old(dice).values@.len() implies old(dice).values@[j].values@.is_prefix_of(
            (#[trigger] dice.values@[j]).values@,
        ) by {
            assert(dice.values@[j].values@.take(dice.values@[j].values@.len() as int)
                =~= dice.values@[j].values@);
        }
    }
    loop
        invariant
            n == dice.values@.len(),
            already@.len() == dice.values@.len(),
            dice.values@.len() == old(dice).values@.len(),
            dice.count == old(dice).count,
            dice.sides == old(dice).sides,
            dice.ops == old(dice).ops,
            a0 == old(db)@,
            a0.len() <= db@.len(),
            explode_evolved(a0, db@),
            ctx.seed() == old(ctx).seed(),
            dice_wf(db@, *dice, db@.len() as int),
            forall|k: int|
                0 <= k < old(dice).values@.len() ==> (#[trigger] dice.values@[k]).kept == old(
                    dice,
                ).values@[k].kept,
            forall|j: int|
                0 <= j < already@.len() && already@[j] ==> crate::total::die_exploded(
                    db@,
                    #[trigger] dice.values@[j],
                ),
            pristine ==> db@ == a0 && dice.values@ == old(dice).values@ && (forall|j: int|
                0 <= j < already@.len() ==> !(#[trigger] already@[j])),
            !pristine ==> all_die_totals_ok(a0, old(dice).values@) && (exists|k0: int|
                0 <= k0 < old(dice).values@.len() && selected(
                    *op,
                    die_totals(a0, old(dice).values@),
                    k0,
                )),
            forall|j: int|
                0 <= j < old(dice).values@.len() && !already@[j] ==> #[trigger] dice.values@[j]
                    == old(dice).values@[j],
            forall|j: int|
                0 <= j < old(dice).values@.len() ==> {
                    &&& (#[trigger] dice.values@[j]).sides == old(dice).values@[j].sides
                    &&& old(dice).values@[j].values@.is_prefix_of(dice.values@[j].values@)
                },
            forall|j: int, i: int|
                0 <= j < old(dice).values@.len() && old(dice).values@[j].values@.len() <= i
                    < dice.values@[j].values@.len() ==> roll_node_at(
                    db@,
                    #[trigger] dice.values@[j].values@[i] as int,
                    old(dice).values@[j].sides,
                ),
            forall|i: int|
                0 <= i < a0.len() && !die_node_owned(old(dice).values@, i) ==> db@[i] == a0[i],
        ensures
            all_die_totals_ok(db@, dice.values@),
            forall|k: int|
                0 <= k < dice.values@.len() && selected(
                    *op,
                    die_totals(db@, dice.values@),
                    k,
                ) ==> #[trigger] already@[k],
        decreases count_false(already@),
    {
        proof {
            lemma_count_false_bounds(already@);
        }
        let sel = match select_dice(op, dice, db) {
            Ok(s) => s,
            Err(e) => {
                proof {
                    lemma_explode_evolved_wf(a0, db@);
                    if pristine {
                        assert(first_die_error(a0, old(dice).values@, e));
                    }
                    assert forall|k: int|
                        0 <= k < old(dice).values@.len() implies #[trigger] dice.values@[k]
                        == old(dice).values@[k] || crate::total::die_exploded(
                        db@,
                        dice.values@[k],
                    ) by {
                        if already@[k] {
                        }
                    }
                }
                return Err(e);
            },
        };
        // Exclude dice already exploded this resolution.
        let mut to_explode: Vec<bool> = Vec::new();
        let mut any = false;
        let mut i: usize = 0;
        while i < n
            invariant
                i <= n,
                n == dice.values@.len(),
                sel@.len() == n,
                already@.len() == n,
                to_explode@.len() == i,
                forall|j: int|
                    0 <= j < i ==> #[trigger] to_explode@[j] == (sel@[j] && !already@[j]),
                any == exists|j: int| 0 <= j < i && #[trigger] to_explode@[j],
            decreases n - i,
        {
            let te = sel[i] && !already[i];
            let ghost prev = to_explode@;
            let ghost prev_any = any;
            to_explode.push(te);
            if te {
                any = true;
            }
            proof {
                assert(to_explode@[i as int] == te);
                if te {
                    assert(exists|j: int| 0 <= j < i + 1 && #[trigger] to_explode@[j]) by {
                        assert(to_explode@[i as int]);
                    }
                } else if prev_any {
                    let j = choose|j: int| 0 <= j < i && #[trigger] prev[j];
                    assert(to_explode@[j] == prev[j]);
                    assert(exists|j2: int| 0 <= j2 < i + 1 && #[trigger] to_explode@[j2]) by {
                        assert(to_explode@[j]);
                    }
                } else {
                    if exists|j: int| 0 <= j < i + 1 && #[trigger] to_explode@[j] {
                        let j = choose|j: int| 0 <= j < i + 1 && #[trigger] to_explode@[j];
                        assert(j < i);
                        assert(prev[j]);
                        assert(false);
                    }
                }
            }
            i = i + 1;
        }
        if !any {
            proof {
                assert forall|k: int|
                    0 <= k < dice.values@.len() && selected(
                        *op,
                        die_totals(db@, dice.values@),
                        k,
                    ) implies #[trigger] already@[k] by {
                    assert(sel@[k]);
                    assert(!to_explode@[k]);
                }
            }
            break;
        }
        let ghost already_start = already@;
        let ghost db_start = db@;
        let ghost dies_start = dice.values@;
        explode_marked(&to_explode, dice, db, ctx);
        let mut i: usize = 0;
        while i < n
            invariant
                i <= n,
                n == already@.len(),
                to_explode@.len() == n,
                already@.len() == already_start.len(),
                forall|j: int|
                    0 <= j < n ==> #[trigger] already@[j] == (already_start[j] || (j < i
                        && to_explode@[j])),
            decreases n - i,
        {
            if to_explode[i] {
                already[i] = true;
            }
            i = i + 1;
        }
        proof {
            lemma_explode_evolved_trans(a0, db_start, db@);
            assert forall|j: int|
                0 <= j < already@.len() && already@[j] implies crate::total::die_exploded(
                db@,
                #[trigger] dice.values@[j],
            ) by {
                if to_explode@[j] {
                    assert(crate::total::die_exploded(db@, dice.values@[j]));
                } else {
                    assert(already_start[j]);
                    assert(crate::total::die_exploded(db_start, dies_start[j]));
                    assert(die_wf(db_start, dies_start[j], db_start.len() as int));
                    assert(dies_start[j].values@.is_prefix_of(dice.values@[j].values@));
                    lemma_die_exploded_monotone(db_start, db@, dies_start[j], dice.values@[j]);
                }
            }
            let w = choose|j: int| 0 <= j < n && #[trigger] to_explode@[j];
            assert forall|j: int| 0 <= j < n && already_start[j] implies #[trigger] already@[j] by {}
            assert(!already_start[w]);
            lemma_count_false_strict(already_start, already@, w);
            lemma_count_false_bounds(already@);
            // The first completed round pins the facts a later exit needs of
            // the original state: its totals all evaluate and something was
            // selected there.
            if pristine {
                assert(all_die_totals_ok(a0, old(dice).values@));
                assert(sel@[w]);
                assert(selected(*op, die_totals(a0, old(dice).values@), w));
            }
            pristine = false;
            // Dice never yet exploded are exactly as they began.
            assert forall|j: int|
                0 <= j < old(dice).values@.len() && !already@[j] implies #[trigger] dice.values@[j]
                == old(dice).values@[j] by {
                assert(!already_start[j] && !to_explode@[j]);
                assert(dice.values@[j] == dies_start[j]);
            }
            // Histories only grow, and everything appended is a fresh roll.
            assert forall|j: int|
                0 <= j < old(dice).values@.len() implies {
                &&& (#[trigger] dice.values@[j]).sides == old(dice).values@[j].sides
                &&& old(dice).values@[j].values@.is_prefix_of(dice.values@[j].values@)
            } by {
                assert(dies_start[j].values@.is_prefix_of(dice.values@[j].values@));
                lemma_prefix_trans_idx(
                    old(dice).values@[j].values@,
                    dies_start[j].values@,
                    dice.values@[j].values@,
                );
            }
            assert forall|j: int, i: int|
                0 <= j < old(dice).values@.len() && old(dice).values@[j].values@.len() <= i
                    < dice.values@[j].values@.len() implies roll_node_at(
                db@,
                #[trigger] dice.values@[j].values@[i] as int,
                old(dice).values@[j].sides,
            ) by {
                if i < dies_start[j].values@.len() {
                    assert(dice.values@[j].values@[i] == dies_start[j].values@[i]) by {
                        assert(dies_start[j].values@ =~= dice.values@[j].values@.subrange(
                            0,
                            dies_start[j].values@.len() as int,
                        ));
                    }
                    let v = dies_start[j].values@[i] as int;
                    assert(roll_node_at(db_start, v, old(dice).values@[j].sides));
                    assert(lit_monotone(db_start[v].kind, db@[v].kind));
                    assert(db@[v].kept == db_start[v].kept);
                } else {
                    assert(to_explode@[j]) by {
                        if !to_explode@[j] {
                            assert(dice.values@[j] == dies_start[j]);
                        }
                    }
                    assert(dice.values@[j].values@ == dies_start[j].values@.push(
                        dice.values@[j].values@.last(),
                    ));
                    assert(i == dies_start[j].values@.len());
                    assert(roll_node_at(
                        db@,
                        dice.values@[j].values@.last() as int,
                        dies_start[j].sides,
                    ));
                    assert(dies_start[j].sides == old(dice).values@[j].sides);
                }
            }
            // Nodes outside the group's own histories are untouched.
            assert forall|i: int|
                0 <= i < a0.len() && !die_node_owned(old(dice).values@, i) implies db@[i]
                == a0[i] by {
                assert(db_start[i] == a0[i]);
                assert(!(exists|k: int|
                    0 <= k < dies_start.len() && to_explode@[k] && i == (#[trigger] dies_start[
                        k
                    ]).values@.last() as int)) by {
                    if exists|k: int|
                        0 <= k < dies_start.len() && to_explode@[k] && i == (#[trigger] dies_start[
                            k
                        ]).values@.last() as int {
                        let k = choose|k: int|
                            0 <= k < dies_start.len() && to_explode@[k] && i == (
                            #[trigger] dies_start[k]).values@.last() as int;
                        assert(!already_start[k]);
                        assert(dies_start[k] == old(dice).values@[k]);
                        let jj = old(dice).values@[k].values@.len() - 1;
                        assert(old(dice).values@[k].values@[jj] == i);
                        assert(die_node_owned(old(dice).values@, i));
                    }
                }
                assert(db@[i] == db_start[i]);
            }
        }
    }
    proof {
        lemma_explode_evolved_wf(a0, db@);
        assert forall|k: int|
            0 <= k < old(dice).values@.len() implies #[trigger] dice.values@[k] == old(
            dice,
        ).values@[k] || crate::total::die_exploded(db@, dice.values@[k]) by {
            if already@[k] {
            }
        }
        if pristine {
            assert(db@ == a0 && dice.values@ == old(dice).values@);
        }
    }
    Ok(())
}

/// Nothing changed is a (trivial) arena evolution.
pub proof fn lemma_wf_evolved_refl(a: Seq<Expression>)
    ensures
        wf_evolved(a, a),
{
    assert forall|i: int| 0 <= i < a.len() implies literal_or_same(
        a[i].kind,
        (#[trigger] a[i]).kind,
    ) by {
        match a[i].kind {
            ExprKind::Literal(l) => {
                assert(l.values@.take(l.values@.len() as int) =~= l.values@);
            },
            _ => {},
        }
    }
}

/// A prefix of a prefix is a prefix, for value-index lists.
proof fn lemma_prefix_trans_idx(a: Seq<ExprIdx>, b: Seq<ExprIdx>, c: Seq<ExprIdx>)
    requires
        a.is_prefix_of(b),
        b.is_prefix_of(c),
    ensures
        a.is_prefix_of(c),
{
    assert forall|v: int| 0 <= v < a.len() implies c.take(a.len() as int)[v] == a[v] by {
        assert(b.take(a.len() as int)[v] == b[v]);
        assert(c.take(b.len() as int)[v] == c[v]);
    }
    assert(c.take(a.len() as int) =~= a);
}

/// A prefix of a prefix is a prefix.
proof fn lemma_take_prefix_trans(a: Seq<Expression>, b: Seq<Expression>, c: Seq<Expression>)
    requires
        a.len() <= b.len() <= c.len(),
        b.take(a.len() as int) == a,
        c.take(b.len() as int) == b,
    ensures
        c.take(a.len() as int) == a,
{
    assert forall|i: int| 0 <= i < a.len() implies c.take(a.len() as int)[i] == a[i] by {
        assert(b.take(a.len() as int)[i] == b[i]);
        assert(c.take(b.len() as int)[i] == c[i]);
    }
    assert(c.take(a.len() as int) =~= a);
}

/// Whether any entry of the vector is set.
fn any_true(v: &Vec<bool>) -> (r: bool)
    ensures
        r == exists|k: int| 0 <= k < v@.len() && #[trigger] v@[k],
{
    let mut r = false;
    let mut i: usize = 0;
    while i < v.len()
        invariant
            i <= v@.len(),
            r == exists|k: int| 0 <= k < i && #[trigger] v@[k],
        decreases v@.len() - i,
    {
        if v[i] {
            r = true;
            proof {
                assert(v@[i as int]);
            }
        } else {
            proof {
                if exists|k: int| 0 <= k < i + 1 && #[trigger] v@[k] {
                    let k = choose|k: int| 0 <= k < i + 1 && #[trigger] v@[k];
                    assert(k < i || k == i);
                }
            }
        }
        i = i + 1;
    }
    r
}

/// Applies `Reroll` to a dice group to its fixpoint: every round, each
/// selected die gains one fresh roll and selection is recomputed, until no
/// die qualifies. Plain rerolling has no structural termination guarantee,
/// so after `REROLL_LIMIT` rounds the engine stops with `RerollLimit`
/// rather than spin forever.
fn reroll_dice(
    op: &SetOperation,
    dice: &mut Dice,
    db: &mut Database,
    ctx: &mut crate::rng::RollContext,
) -> (r: Result<(), ResolveError>)
    requires
        dice_wf(old(db)@, *old(dice), old(db)@.len() as int),
    ensures
        old(db)@.len() <= final(db)@.len(),
        final(db)@.take(old(db)@.len() as int) == old(db)@,
        wf_evolved(old(db)@, final(db)@),
        final(dice).count == old(dice).count,
        final(dice).sides == old(dice).sides,
        final(dice).ops == old(dice).ops,
        final(dice).values@.len() == old(dice).values@.len(),
        dice_wf(final(db)@, *final(dice), final(db)@.len() as int),
        final(ctx).seed() == old(ctx).seed(),
        r matches Err(e) ==> e != ResolveError::InvalidOperation,
        r is Ok ==> all_die_totals_ok(final(db)@, final(dice).values@) && forall|k: int|
            0 <= k < final(dice).values@.len() ==> !selected(
                *op,
                die_totals(final(db)@, final(dice).values@),
                k,
            ),
        forall|k: int|
            0 <= k < old(dice).values@.len() ==> {
                &&& (#[trigger] final(dice).values@[k]).sides == old(dice).values@[k].sides
                &&& final(dice).values@[k].kept == old(dice).values@[k].kept
                &&& old(dice).values@[k].values@.is_prefix_of(final(dice).values@[k].values@)
            },
        forall|k: int|
            0 <= k < old(dice).values@.len() ==> #[trigger] final(dice).values@[k] == old(
                dice,
            ).values@[k] || old(dice).values@[k].values@.len()
                < final(dice).values@[k].values@.len(),
        forall|k: int, i: int|
            0 <= k < old(dice).values@.len() && old(dice).values@[k].values@.len() <= i
                < final(dice).values@[k].values@.len() ==> crate::lower::fresh_roll_at(
                final(db)@,
                #[trigger] final(dice).values@[k].values@[i] as int,
                old(dice).values@[k].sides,
            ),
        !all_die_totals_ok(old(db)@, old(dice).values@) ==> (r matches Err(
            ResolveError::Expr(e),
        ) && final(db)@ == old(db)@ && final(dice).values@ == old(dice).values@
            && first_die_error(old(db)@, old(dice).values@, e)),
        all_die_totals_ok(old(db)@, old(dice).values@) && (forall|k: int|
            0 <= k < old(dice).values@.len() ==> !selected(
                *op,
                die_totals(old(db)@, old(dice).values@),
                k,
            )) ==> (r is Ok && final(db)@ == old(db)@ && final(dice).values@ == old(
            dice,
        ).values@),
{
    let ghost a0 = db@;
    let ghost mut pristine: bool = true;
    let mut rounds: u64 = 0;
    proof {
        lemma_wf_evolved_refl(a0);
        assert forall|j: int|
            0 <= j < old(dice).values@.len() implies old(dice).values@[j].values@.is_prefix_of(
            (#[trigger] dice.values@[j]).values@,
        ) by {
            assert(dice.values@[j].values@.take(dice.values@[j].values@.len() as int)
                =~= dice.values@[j].values@);
        }
    }
    while rounds < REROLL_LIMIT
        invariant
            a0 == old(db)@,
            a0.len() <= db@.len(),
            db@.take(a0.len() as int) == a0,
            wf_evolved(a0, db@),
            dice.count == old(dice).count,
            dice.sides == old(dice).sides,
            dice.ops == old(dice).ops,
            dice.values@.len() == old(dice).values@.len(),
            dice_wf(db@, *dice, db@.len() as int),
            ctx.seed() == old(ctx).seed(),
            pristine ==> db@ == a0 && dice.values@ == old(dice).values@ && rounds == 0,
            !pristine ==> all_die_totals_ok(a0, old(dice).values@) && (exists|k0: int|
                0 <= k0 < old(dice).values@.len() && selected(
                    *op,
                    die_totals(a0, old(dice).values@),
                    k0,
                )),
            forall|k: int|
                0 <= k < old(dice).values@.len() ==> {
                    &&& (#[trigger] dice.values@[k]).sides == old(dice).values@[k].sides
                    &&& dice.values@[k].kept == old(dice).values@[k].kept
                    &&& old(dice).values@[k].values@.is_prefix_of(dice.values@[k].values@)
                },
            forall|k: int|
                0 <= k < old(dice).values@.len() ==> #[trigger] dice.values@[k] == old(
                    dice,
                ).values@[k] || old(dice).values@[k].values@.len() < dice.values@[k].values@.len(),
            forall|k: int, i: int|
                0 <= k < old(dice).values@.len() && old(dice).values@[k].values@.len() <= i
                    < dice.values@[k].values@.len() ==> crate::lower::fresh_roll_at(
                    db@,
                    #[trigger] dice.values@[k].values@[i] as int,
                    old(dice).values@[k].sides,
                ),
        decreases REROLL_LIMIT - rounds,
    {
        let sel = match select_dice(op, dice, db) {
            Ok(s) => s,
            Err(e) => {
                proof {
                    if pristine {
                        assert(first_die_error(a0, old(dice).values@, e));
                    }
                }
                return Err(ResolveError::Expr(e));
            },
        };
        if !any_true(&sel) {
            proof {
                assert forall|k: int|
                    0 <= k < dice.values@.len() implies !selected(
                    *op,
                    die_totals(db@, dice.values@),
                    k,
                ) by {
                    assert(!sel@[k]);
                }
            }
            return Ok(());
        }
        let ghost before = db@;
        let ghost prev = dice.values@;
        proof {
            // The first round that reaches a reroll pins what a later exit
            // needs of the original state.
            if pristine {
                assert(all_die_totals_ok(a0, old(dice).values@));
                let w = choose|k0: int| 0 <= k0 < sel@.len() && #[trigger] sel@[k0];
                assert(selected(*op, die_totals(a0, old(dice).values@), w));
            }
            pristine = false;
        }
        match reroll_dice_once(op, dice, db, ctx) {
            Ok(()) => {},
            Err(e) => {
                return Err(ResolveError::Expr(e));
            },
        }
        proof {
            lemma_take_prefix_trans(a0, before, db@);
            lemma_wf_evolved_trans(a0, before, db@);
            let rsel = Seq::new(
                prev.len(),
                |k: int| selected(*op, die_totals(before, prev), k),
            );
            assert(dies_rerolled(db@, prev, dice.values@, rsel, before.len() as int, db@.len() as int));
            assert forall|k: int|
                0 <= k < old(dice).values@.len() implies {
                &&& (#[trigger] dice.values@[k]).sides == old(dice).values@[k].sides
                &&& dice.values@[k].kept == old(dice).values@[k].kept
                &&& old(dice).values@[k].values@.is_prefix_of(dice.values@[k].values@)
            } by {
                if rsel[k] {
                    assert(prev[k].values@.is_prefix_of(dice.values@[k].values@)) by {
                        assert(dice.values@[k].values@ == prev[k].values@.push(
                            dice.values@[k].values@.last(),
                        ));
                        assert(dice.values@[k].values@.take(prev[k].values@.len() as int)
                            =~= prev[k].values@);
                    }
                    lemma_prefix_trans_idx(
                        old(dice).values@[k].values@,
                        prev[k].values@,
                        dice.values@[k].values@,
                    );
                } else {
                    assert(dice.values@[k] == prev[k]);
                }
            }
            assert forall|k: int|
                0 <= k < old(dice).values@.len() implies #[trigger] dice.values@[k] == old(
                dice,
            ).values@[k] || old(dice).values@[k].values@.len() < dice.values@[k].values@.len() by {
                if rsel[k] {
                } else {
                    assert(dice.values@[k] == prev[k]);
                }
            }
            assert forall|k: int, i: int|
                0 <= k < old(dice).values@.len() && old(dice).values@[k].values@.len() <= i
                    < dice.values@[k].values@.len() implies crate::lower::fresh_roll_at(
                db@,
                #[trigger] dice.values@[k].values@[i] as int,
                old(dice).values@[k].sides,
            ) by {
                if i < prev[k].values@.len() {
                    assert(dice.values@[k].values@[i] == prev[k].values@[i]) by {
                        if rsel[k] {
                            assert(dice.values@[k].values@ == prev[k].values@.push(
                                dice.values@[k].values@.last(),
                            ));
                        } else {
                            assert(dice.values@[k] == prev[k]);
                        }
                    }
                    let v = prev[k].values@[i] as int;
                    assert(crate::lower::fresh_roll_at(before, v, old(dice).values@[k].sides));
                    assert(db@[v] == before[v]) by {
                        assert(db@.take(before.len() as int)[v] == db@[v]);
                    }
                } else {
                    assert(rsel[k]) by {
                        if !rsel[k] {
                            assert(dice.values@[k] == prev[k]);
                        }
                    }
                    assert(dice.values@[k].values@ == prev[k].values@.push(
                        dice.values@[k].values@.last(),
                    ));
                    assert(i == prev[k].values@.len());
                    assert(crate::lower::fresh_roll_at(
                        db@,
                        dice.values@[k].values@.last() as int,
                        prev[k].sides,
                    ));
                    assert(prev[k].sides == old(dice).values@[k].sides);
                }
            }
        }
        rounds = rounds + 1;
    }
    Err(ResolveError::RerollLimit)
}

/// Applies `RerollAdd` ("explode once"): every selected die gains one
/// accumulated roll, with no iteration.
fn explode_dice_once(
    op: &SetOperation,
    dice: &mut Dice,
    db: &mut Database,
    ctx: &mut crate::rng::RollContext,
) -> (r: Result<(), ExprError>)
    requires
        dice_wf(old(db)@, *old(dice), old(db)@.len() as int),
    ensures
        old(db)@.len() <= final(db)@.len(),
        wf_evolved(old(db)@, final(db)@),
        final(dice).count == old(dice).count,
        final(dice).sides == old(dice).sides,
        final(dice).ops == old(dice).ops,
        final(dice).values@.len() == old(dice).values@.len(),
        dice_wf(final(db)@, *final(dice), final(db)@.len() as int),
        final(ctx).seed() == old(ctx).seed(),
        r is Ok <==> all_die_totals_ok(old(db)@, old(dice).values@),
        r matches Err(e) ==> *final(dice) == *old(dice) && final(db)@ == old(db)@
            && first_die_error(old(db)@, old(dice).values@, e),
        r is Ok ==> forall|k: int|
            0 <= k < old(dice).values@.len() && selected(
                *op,
                die_totals(old(db)@, old(dice).values@),
                k,
            ) ==> crate::total::die_exploded(final(db)@, #[trigger] final(dice).values@[k]),
        forall|k: int|
            0 <= k < old(dice).values@.len() ==> {
                &&& (#[trigger] final(dice).values@[k]).sides == old(dice).values@[k].sides
                &&& final(dice).values@[k].kept == old(dice).values@[k].kept
                &&& old(dice).values@[k].values@.is_prefix_of(final(dice).values@[k].values@)
            },
        r is Ok ==> forall|k: int|
            0 <= k < old(dice).values@.len() && !selected(
                *op,
                die_totals(old(db)@, old(dice).values@),
                k,
            ) ==> #[trigger] final(dice).values@[k] == old(dice).values@[k],
        r is Ok ==> forall|k: int|
            0 <= k < old(dice).values@.len() && selected(
                *op,
                die_totals(old(db)@, old(dice).values@),
                k,
            ) ==> {
                &&& (#[trigger] final(dice).values@[k]).values@ == old(
                    dice,
                ).values@[k].values@.push(final(dice).values@[k].values@.last())
                &&& roll_node_at(
                    final(db)@,
                    final(dice).values@[k].values@.last() as int,
                    old(dice).values@[k].sides,
                )
            },
        forall|i: int|
            0 <= i < old(db)@.len() && !die_node_owned(old(dice).values@, i) ==> final(db)@[i]
                == old(db)@[i],
{
    let sel = match select_dice(op, dice, db) {
        Ok(s) => s,
        Err(e) => {
            proof {
                lemma_wf_evolved_refl(db@);
                assert forall|j: int|
                    0 <= j < old(dice).values@.len() implies old(
                    dice,
                ).values@[j].values@.is_prefix_of((#[trigger] dice.values@[j]).values@) by {
                    assert(dice.values@[j].values@.take(dice.values@[j].values@.len() as int)
                        =~= dice.values@[j].values@);
                }
            }
            return Err(e);
        },
    };
    explode_marked(&sel, dice, db, ctx);
    proof {
        lemma_explode_evolved_wf(old(db)@, db@);
        assert forall|i: int|
            0 <= i < old(db)@.len() && !die_node_owned(old(dice).values@, i) implies db@[i]
            == old(db)@[i] by {
            assert(!(exists|k: int|
                0 <= k < old(dice).values@.len() && sel@[k] && i == (#[trigger] old(
                    dice,
                ).values@[k]).values@.last() as int)) by {
                if exists|k: int|
                    0 <= k < old(dice).values@.len() && sel@[k] && i == (#[trigger] old(
                        dice,
                    ).values@[k]).values@.last() as int {
                    let k = choose|k: int|
                        0 <= k < old(dice).values@.len() && sel@[k] && i == (#[trigger] old(
                            dice,
                        ).values@[k]).values@.last() as int;
                    let jj = old(dice).values@[k].values@.len() - 1;
                    assert(old(dice).values@[k].values@[jj] == i);
                    assert(die_node_owned(old(dice).values@, i));
                }
            }
        }
    }
    Ok(())
}

/// Every die's history is trivially a prefix of itself.
proof fn lemma_dies_prefix_refl(dies: Seq<Die>)
    ensures
        forall|k: int|
            0 <= k < dies.len() ==> (#[trigger] dies[k]).values@.is_prefix_of(dies[k].values@),
{
    assert forall|k: int|
        0 <= k < dies.len() implies (#[trigger] dies[k]).values@.is_prefix_of(
        dies[k].values@,
    ) by {
        assert(dies[k].values@.take(dies[k].values@.len() as int) =~= dies[k].values@);
    }
}

/// Applies one validated set operation to a dice group, reading and
/// mutating the arena as the operation requires. Whatever the operation:
/// the group keeps its shape, a dropped die is never re-kept (and only keep
/// and drop touch the flags at all), every die's recorded history is
/// retained, and no arena node outside the group's own histories changes.
fn operate_on_dice(
    op: &SetOperation,
    dice: &mut Dice,
    db: &mut Database,
    ctx: &mut crate::rng::RollContext,
) -> (r: Result<(), ResolveError>)
    requires
        dice_wf(old(db)@, *old(dice), old(db)@.len() as int),
        op_sel_compatible(op.op, op.sel),
    ensures
        old(db)@.len() <= final(db)@.len(),
        wf_evolved(old(db)@, final(db)@),
        final(dice).count == old(dice).count,
        final(dice).sides == old(dice).sides,
        final(dice).ops == old(dice).ops,
        final(dice).values@.len() == old(dice).values@.len(),
        dice_wf(final(db)@, *final(dice), final(db)@.len() as int),
        final(ctx).seed() == old(ctx).seed(),
        r matches Err(e) ==> e != ResolveError::InvalidOperation,
        forall|k: int|
            0 <= k < old(dice).values@.len() ==> {
                &&& (#[trigger] final(dice).values@[k]).sides == old(dice).values@[k].sides
                &&& old(dice).values@[k].values@.is_prefix_of(final(dice).values@[k].values@)
                &&& (final(dice).values@[k].kept ==> old(dice).values@[k].kept)
            },
        !(op.op == SetOp::Keep || op.op == SetOp::Drop) ==> forall|k: int|
            0 <= k < old(dice).values@.len() ==> (#[trigger] final(dice).values@[k]).kept == old(
                dice,
            ).values@[k].kept,
        forall|i: int|
            0 <= i < old(db)@.len() && !die_node_owned(old(dice).values@, i) ==> final(db)@[i]
                == old(db)@[i],
{
    match op.op {
        SetOp::Keep | SetOp::Drop => {
            proof {
                lemma_wf_evolved_refl(db@);
            }
            let r = keep_or_drop_dice(op, dice, db);
            proof {
                lemma_dies_prefix_refl(old(dice).values@);
                assert forall|k: int|
                    0 <= k < old(dice).values@.len() implies {
                    &&& (#[trigger] dice.values@[k]).sides == old(dice).values@[k].sides
                    &&& old(dice).values@[k].values@.is_prefix_of(dice.values@[k].values@)
                    &&& (dice.values@[k].kept ==> old(dice).values@[k].kept)
                } by {
                    if r is Ok {
                        assert(dice.values@[k] == die_with_kept(
                            old(dice).values@[k],
                            kept_after(
                                op.op == SetOp::Drop,
                                old(dice).values@[k].kept,
                                selected(*op, die_totals(old(db)@, old(dice).values@), k),
                            ),
                        ));
                    }
                }
            }
            match r {
                Ok(()) => Ok(()),
                Err(e) => Err(ResolveError::Expr(e)),
            }
        },
        SetOp::Reroll => {
            let r = reroll_dice(op, dice, db, ctx);
            proof {
                assert forall|i: int| 0 <= i < old(db)@.len() implies #[trigger] db@[i] == old(
                    db,
                )@[i] by {
                    assert(db@.take(old(db)@.len() as int)[i] == db@[i]);
                }
            }
            r
        },
        SetOp::RerollOnce => {
            let r = reroll_dice_once(op, dice, db, ctx);
            proof {
                assert forall|i: int| 0 <= i < old(db)@.len() implies #[trigger] db@[i] == old(
                    db,
                )@[i] by {
                    assert(db@.take(old(db)@.len() as int)[i] == db@[i]);
                }
                lemma_dies_prefix_refl(old(dice).values@);
                if r is Ok {
                    let rsel = Seq::new(
                        old(dice).values@.len(),
                        |k: int| selected(*op, die_totals(old(db)@, old(dice).values@), k),
                    );
                    assert(dies_rerolled(
                        db@,
                        old(dice).values@,
                        dice.values@,
                        rsel,
                        old(db)@.len() as int,
                        db@.len() as int,
                    ));
                    assert forall|k: int|
                        0 <= k < old(dice).values@.len() implies {
                        &&& (#[trigger] dice.values@[k]).sides == old(dice).values@[k].sides
                        &&& old(dice).values@[k].values@.is_prefix_of(dice.values@[k].values@)
                        &&& dice.values@[k].kept == old(dice).values@[k].kept
                    } by {
                        if rsel[k] {
                            assert(dice.values@[k].values@ == old(dice).values@[k].values@.push(
                                dice.values@[k].values@.last(),
                            ));
                            assert(dice.values@[k].values@.take(
                                old(dice).values@[k].values@.len() as int,
                            ) =~= old(dice).values@[k].values@);
                        } else {
                            assert(dice.values@[k] == old(dice).values@[k]);
                        }
                    }
                }
            }
            match r {
                Ok(()) => Ok(()),
                Err(e) => Err(ResolveError::Expr(e)),
            }
        },
        SetOp::Explode => {
            match explode_dice(op, dice, db, ctx) {
                Ok(()) => Ok(()),
                Err(e) => Err(ResolveError::Expr(e)),
            }
        },
        SetOp::RerollAdd => {
            match explode_dice_once(op, dice, db, ctx) {
                Ok(()) => Ok(()),
                Err(e) => Err(ResolveError::Expr(e)),
            }
        },
        SetOp::Min => {
            proof {
                lemma_wf_evolved_refl(db@);
            }
            let r = force_dice(op, false, dice, db);
            proof {
                lemma_dies_prefix_refl(old(dice).values@);
                assert forall|i: int|
                    0 <= i < old(db)@.len() && !die_node_owned(old(dice).values@, i) implies db@[i]
                    == old(db)@[i] by {
                    if r is Ok {
                        assert forall|k: int|
                            0 <= k < dice.values@.len() implies i
                            != #[trigger] dice.values@[k].values@.last() as int by {
                            if i == dice.values@[k].values@.last() as int {
                                let jj = old(dice).values@[k].values@.len() - 1;
                                assert(old(dice).values@[k].values@[jj] == i);
                                assert(die_node_owned(old(dice).values@, i));
                            }
                        }
                    }
                }
            }
            match r {
                Ok(()) => Ok(()),
                Err(e) => Err(ResolveError::Expr(e)),
            }
        },
        SetOp::Max => {
            proof {
                lemma_wf_evolved_refl(db@);
            }
            let r = force_dice(op, true, dice, db);
            proof {
                lemma_dies_prefix_refl(old(dice).values@);
                assert forall|i: int|
                    0 <= i < old(db)@.len() && !die_node_owned(old(dice).values@, i) implies db@[i]
                    == old(db)@[i] by {
                    if r is Ok {
                        assert forall|k: int|
                            0 <= k < dice.values@.len() implies i
                            != #[trigger] dice.values@[k].values@.last() as int by {
                            if i == dice.values@[k].values@.last() as int {
                                let jj = old(dice).values@[k].values@.len() - 1;
                                assert(old(dice).values@[k].values@[jj] == i);
                                assert(die_node_owned(old(dice).values@, i));
                            }
                        }
                    }
                }
            }
            match r {
                Ok(()) => Ok(()),
                Err(e) => Err(ResolveError::Expr(e)),
            }
        },
    }
}

// ---------------------------------------------------------------------------
// Resolution
// ---------------------------------------------------------------------------

/// Whether every operation of the node is a legal pairing, and legal for
/// the node it sits on.
pub open spec fn node_ops_valid(e: Expression) -> bool {
    match e.kind {
        ExprKind::Dice(d) => forall|k: int|
            0 <= k < d.ops.len() ==> op_sel_compatible((#[trigger] d.ops[k]).op, d.ops[k].sel),
        ExprKind::SetExpr(s) => forall|k: int|
            0 <= k < s.ops.len() ==> op_sel_compatible((#[trigger] s.ops[k]).op, s.ops[k].sel)
                && set_op_allowed(s.ops[k].op),
        _ => true,
    }
}

/// Whether every operation in the arena is legal. Checked before any rule
/// runs; a failure rejects the whole expression's resolution.
pub open spec fn arena_ops_valid(arena: Seq<Expression>) -> bool {
    forall|i: int| 0 <= i < arena.len() ==> node_ops_valid(#[trigger] arena[i])
}

/// Whether the node carries no set operations at all: neither a dice group
/// nor a set.
pub open spec fn node_op_free(e: Expression) -> bool {
    !(e.kind is Dice) && !(e.kind is SetExpr)
}

/// Whether the arena holds no dice group and no set. Resolution has nothing
/// to do on such an arena and leaves it untouched.
pub open spec fn arena_op_free(a: Seq<Expression>) -> bool {
    forall|i: int| 0 <= i < a.len() ==> node_op_free(#[trigger] a[i])
}

/// Checks one operation list.
fn ops_list_valid(ops: &Vec<SetOperation>, for_set: bool) -> (r: bool)
    ensures
        r == forall|k: int|
            0 <= k < ops@.len() ==> op_sel_compatible((#[trigger] ops@[k]).op, ops@[k].sel) && (
            for_set ==> set_op_allowed(ops@[k].op)),
{
    let mut k: usize = 0;
    while k < ops.len()
        invariant
            k <= ops@.len(),
            forall|j: int|
                0 <= j < k ==> op_sel_compatible((#[trigger] ops@[j]).op, ops@[j].sel) && (
                for_set ==> set_op_allowed(ops@[j].op)),
        decreases ops@.len() - k,
    {
        let op = ops[k];
        if !op.validate() {
            return false;
        }
        if for_set && !(matches!(op.op, SetOp::Keep) || matches!(op.op, SetOp::Drop)) {
            return false;
        }
        k = k + 1;
    }
    true
}

/// Checks every operation in the arena against the incompatibility table,
/// and that set nodes carry only keep and drop.
pub fn validate_ops(db: &Database) -> (r: bool)
    ensures
        r == arena_ops_valid(db@),
{
    let n = db.len();
    let mut i: usize = 0;
    while i < n
        invariant
            i <= n,
            n == db@.len(),
            forall|j: int| 0 <= j < i ==> node_ops_valid(#[trigger] db@[j]),
        decreases n - i,
    {
        let node = db.get(i);
        let ok = match &node.kind {
            ExprKind::Dice(d) => ops_list_valid(&d.ops, false),
            ExprKind::SetExpr(s) => ops_list_valid(&s.ops, true),
            _ => true,
        };
        if !ok {
            return false;
        }
        i = i + 1;
    }
    true
}

/// Arena evolution keeps every operation list legal: rules never edit an
/// operation list.
proof fn lemma_ops_valid_evolved(a1: Seq<Expression>, a2: Seq<Expression>)
    requires
        arena_ops_valid(a1),
        wf_evolved(a1, a2),
    ensures
        arena_ops_valid(a2),
{
    assert forall|i: int| 0 <= i < a2.len() implies node_ops_valid(#[trigger] a2[i]) by {
        if i < a1.len() {
            assert(node_ops_valid(a1[i]));
            assert(literal_or_same(a1[i].kind, a2[i].kind));
        }
    }
}

/// Swapping a non-literal node for another well-formed non-literal node
/// keeps the arena well-formed: no die refers to it.
proof fn lemma_wf_update_nonliteral(a: Seq<Expression>, idx: int, e: Expression)
    requires
        arena_wf(a),
        0 <= idx < a.len(),
        !(a[idx].kind is Literal),
        !(e.kind is Literal),
        node_wf(a.update(idx, e), idx),
    ensures
        arena_wf(a.update(idx, e)),
{
    let a2 = a.update(idx, e);
    assert forall|i: int| 0 <= i < a2.len() implies #[trigger] node_wf(a2, i) by {
        if i != idx {
            assert(node_wf(a, i));
            match a[i].kind {
                ExprKind::Dice(d) => {
                    assert forall|k: int| 0 <= k < d.values.len() implies die_wf(
                        a2,
                        #[trigger] d.values[k],
                        a2.len() as int,
                    ) by {
                        assert(die_wf(a, d.values[k], a.len() as int));
                        assert forall|v: int|
                            0 <= v < d.values[k].values.len() implies is_literal(
                            a2,
                            #[trigger] d.values[k].values[v] as int,
                        ) by {
                            assert(is_literal(a, d.values[k].values[v] as int));
                            assert(d.values[k].values[v] != idx);
                        }
                    }
                },
                _ => {},
            }
        }
    }
}

/// What resolving one node does, read out of the node up front.
enum ResolveStep {
    Leaf,
    Two(ExprIdx, ExprIdx),
    One(ExprIdx),
    DiceNode,
    SetNode(Vec<ExprIdx>, Vec<SetOperation>),
}

/// Copies a list of indices.
fn copy_indices(v: &Vec<ExprIdx>) -> (r: Vec<ExprIdx>)
    ensures
        r@ == v@,
{
    let mut r: Vec<ExprIdx> = Vec::new();
    let mut i: usize = 0;
    while i < v.len()
        invariant
            i <= v@.len(),
            r@ == v@.take(i as int),
        decreases v@.len() - i,
    {
        r.push(v[i]);
        proof {
            assert(r@ =~= v@.take(i + 1));
        }
        i = i + 1;
    }
    proof {
        assert(v@.take(v@.len() as int) =~= v@);
    }
    r
}

/// Copies a list of operations.
fn copy_ops(v: &Vec<SetOperation>) -> (r: Vec<SetOperation>)
    ensures
        r@ == v@,
{
    let mut r: Vec<SetOperation> = Vec::new();
    let mut i: usize = 0;
    while i < v.len()
        invariant
            i <= v@.len(),
            r@ == v@.take(i as int),
        decreases v@.len() - i,
    {
        r.push(v[i]);
        proof {
            assert(r@ =~= v@.take(i + 1));
        }
        i = i + 1;
    }
    proof {
        assert(v@.take(v@.len() as int) =~= v@);
    }
    r
}

/// Applies every node's operations, children first, each node's list in
/// declared order. Expects a validated arena.
fn apply_ops(db: &mut Database, ctx: &mut crate::rng::RollContext, idx: ExprIdx) -> (r: Result<
    (),
    ResolveError,
>)
    requires
        arena_wf(old(db)@),
        arena_ops_valid(old(db)@),
        idx < old(db)@.len(),
    ensures
        arena_wf(final(db)@),
        arena_ops_valid(final(db)@),
        old(db)@.len() <= final(db)@.len(),
        final(ctx).seed() == old(ctx).seed(),
        r matches Err(e) ==> e != ResolveError::InvalidOperation,
        arena_op_free(old(db)@) ==> r is Ok && final(db)@ == old(db)@,
    decreases idx,
{
    proof {
        assert(node_wf(db@, idx as int));
    }
    let step = {
        let node = db.get(idx);
        match &node.kind {
            ExprKind::Missing => ResolveStep::Leaf,
            ExprKind::Literal(_) => ResolveStep::Leaf,
            ExprKind::BinaryExpr(b) => ResolveStep::Two(b.lhs, b.rhs),
            ExprKind::UnaryExpr(u) => ResolveStep::One(u.expr),
            ExprKind::Dice(_) => {
                proof {
                    assert(!node_op_free(db@[idx as int]));
                }
                ResolveStep::DiceNode
            },
            ExprKind::SetExpr(s) => {
                proof {
                    assert(!node_op_free(db@[idx as int]));
                }
                ResolveStep::SetNode(copy_indices(&s.items), copy_ops(&s.ops))
            },
        }
    };
    proof {
        assert((step is DiceNode || step is SetNode) ==> !arena_op_free(old(db)@)) by {
            if (step is DiceNode || step is SetNode) && arena_op_free(old(db)@) {
                assert(node_op_free(old(db)@[idx as int]));
            }
        }
    }
    match step {
        ResolveStep::Leaf => Ok(()),
        ResolveStep::Two(lhs, rhs) => {
            match apply_ops(db, ctx, lhs) {
                Ok(()) => {},
                Err(e) => {
                    return Err(e);
                },
            }
            apply_ops(db, ctx, rhs)
        },
        ResolveStep::One(inner) => apply_ops(db, ctx, inner),
        ResolveStep::DiceNode => {
            let ghost a0 = db@;
            let placeholder = Expression { kind: ExprKind::Missing, kept: false };
            let node = db.replace(idx, placeholder);
            proof {
                assert(node_wf(db@, idx as int));
                lemma_wf_update_nonliteral(a0, idx as int, db@[idx as int]);
                assert forall|i: int|
                    0 <= i < db@.len() implies node_ops_valid(#[trigger] db@[i]) by {
                    if i != idx {
                        assert(node_ops_valid(a0[i]));
                    }
                }
            }
            match node {
                Expression { kind: ExprKind::Dice(mut dice), kept } => {
                    let ghost a1 = db@;
                    let ghost dice0 = dice;
                    proof {
                        assert(dice_wf(a0, dice, a0.len() as int));
                        assert forall|k: int|
                            0 <= k < dice.values.len() implies die_wf(
                            db@,
                            #[trigger] dice.values[k],
                            db@.len() as int,
                        ) by {
                            assert(die_wf(a0, dice.values[k], a0.len() as int));
                            assert forall|v: int|
                                0 <= v < dice.values[k].values.len() implies is_literal(
                                db@,
                                #[trigger] dice.values[k].values[v] as int,
                            ) by {
                                assert(is_literal(a0, dice.values[k].values[v] as int));
                                assert(dice.values[k].values[v] != idx);
                            }
                        }
                        lemma_wf_evolved_refl(db@);
                    }
                    let mut k: usize = 0;
                    let nops = dice.ops.len();
                    let mut failed: Option<ResolveError> = None;
                    while k < nops
                        invariant
                            k <= nops,
                            nops == dice.ops@.len(),
                            a0 == old(db)@,
                            a1.len() == a0.len(),
                            a1.len() <= db@.len(),
                            wf_evolved(a1, db@),
                            arena_wf(db@),
                            arena_ops_valid(db@),
                            idx < a1.len(),
                            dice.ops == dice0.ops,
                            ctx.seed() == old(ctx).seed(),
                            dice_wf(db@, dice, db@.len() as int),
                            forall|j: int|
                                0 <= j < dice.ops@.len() ==> op_sel_compatible(
                                    (#[trigger] dice.ops@[j]).op,
                                    dice.ops@[j].sel,
                                ),
                            failed is Some ==> k == nops,
                            failed matches Some(e) ==> e != ResolveError::InvalidOperation,
                        decreases nops - k,
                    {
                        let op = dice.ops[k];
                        let ghost mid = db@;
                        match operate_on_dice(&op, &mut dice, db, ctx) {
                            Ok(()) => {},
                            Err(e) => {
                                failed = Some(e);
                                proof {
                                    lemma_wf_evolved_trans(a1, mid, db@);
                                    lemma_wf_evolved(mid, db@);
                                    lemma_ops_valid_evolved(mid, db@);
                                }
                                k = nops;
                                continue;
                            },
                        }
                        proof {
                            lemma_wf_evolved_trans(a1, mid, db@);
                            lemma_wf_evolved(mid, db@);
                            lemma_ops_valid_evolved(mid, db@);
                        }
                        k = k + 1;
                    }
                    // Put the resolved group back at its index.
                    let ghost a2 = db@;
                    let resolved = Expression { kind: ExprKind::Dice(dice), kept };
                    let _ = db.replace(idx, resolved);
                    proof {
                        assert(node_wf(db@, idx as int)) by {
                            assert forall|j: int|
                                0 <= j < resolved.kind->Dice_0.values.len() implies die_wf(
                                db@,
                                #[trigger] resolved.kind->Dice_0.values[j],
                                db@.len() as int,
                            ) by {
                                assert(die_wf(
                                    a2,
                                    resolved.kind->Dice_0.values[j],
                                    a2.len() as int,
                                ));
                                assert forall|v: int|
                                    0 <= v < resolved.kind->Dice_0.values[j].values.len() implies is_literal(
                                    db@,
                                    #[trigger] resolved.kind->Dice_0.values[j].values[v] as int,
                                ) by {
                                    assert(is_literal(
                                        a2,
                                        resolved.kind->Dice_0.values[j].values[v] as int,
                                    ));
                                    assert(!(a2[idx as int].kind is Literal));
                                    assert(resolved.kind->Dice_0.values[j].values[v] != idx);
                                }
                            }
                        }
                        assert(!(a2[idx as int].kind is Literal));
                        lemma_wf_update_nonliteral(a2, idx as int, resolved);
                        assert forall|i: int|
                            0 <= i < db@.len() implies node_ops_valid(#[trigger] db@[i]) by {
                            if i != idx {
                                assert(node_ops_valid(a2[i]));
                            } else {
                                assert(db@[i] == resolved);
                                assert(forall|j: int|
                                    0 <= j < resolved.kind->Dice_0.ops.len()
                                        ==> op_sel_compatible(
                                        (#[trigger] resolved.kind->Dice_0.ops[j]).op,
                                        resolved.kind->Dice_0.ops[j].sel,
                                    ));
                            }
                        }
                    }
                    match failed {
                        None => Ok(()),
                        Some(e) => Err(e),
                    }
                },
                other => {
                    // Unreachable for a well-formed arena; restore the node.
                    let ghost a1 = db@;
                    let _ = db.replace(idx, other);
                    proof {
                        assert(db@ =~= a0);
                    }
                    Ok(())
                },
            }
        },
        ResolveStep::SetNode(items, ops) => {
            let ghost a0 = db@;
            proof {
                assert forall|k1: int, k2: int|
                    0 <= k1 < k2 < items@.len() implies items@[k1] != items@[k2] by {
                    assert(node_wf(a0, idx as int));
                }
            }
            // Resolve every item first, then apply the set's own rules.
            let mut k: usize = 0;
            while k < items.len()
                invariant
                    k <= items@.len(),
                    arena_wf(db@),
                    arena_ops_valid(db@),
                    a0 == old(db)@,
                    a0.len() <= db@.len(),
                    idx < a0.len(),
                    ctx.seed() == old(ctx).seed(),
                    !arena_op_free(a0),
                    forall|j: int| 0 <= j < items@.len() ==> #[trigger] items@[j] < idx,
                decreases items@.len() - k,
            {
                match apply_ops(db, ctx, items[k]) {
                    Ok(()) => {},
                    Err(e) => {
                        return Err(e);
                    },
                }
                k = k + 1;
            }
            let mut k: usize = 0;
            while k < ops.len()
                invariant
                    k <= ops@.len(),
                    arena_wf(db@),
                    arena_ops_valid(db@),
                    a0 == old(db)@,
                    a0.len() <= db@.len(),
                    idx < a0.len(),
                    ctx.seed() == old(ctx).seed(),
                    !arena_op_free(a0),
                    forall|j: int| 0 <= j < items@.len() ==> #[trigger] items@[j] < idx,
                    forall|j1: int, j2: int|
                        0 <= j1 < j2 < items@.len() ==> items@[j1] != items@[j2],
                    forall|j: int|
                        0 <= j < ops@.len() ==> op_sel_compatible(
                            (#[trigger] ops@[j]).op,
                            ops@[j].sel,
                        ) && set_op_allowed(ops@[j].op),
                decreases ops@.len() - k,
            {
                let op = ops[k];
                let ghost mid = db@;
                match operate_on_set(&op, &items, db) {
                    Ok(()) => {},
                    Err(e) => {
                        proof {
                            lemma_ops_valid_evolved(mid, db@);
                        }
                        return Err(ResolveError::Expr(e));
                    },
                }
                proof {
                    lemma_ops_valid_evolved(mid, db@);
                }
                k = k + 1;
            }
            Ok(())
        },
    }
}

/// Resolves the expression under `root`: first every operation in the
/// arena is checked against the incompatibility table (and set nodes for
/// keep/drop only) — a failure rejects the whole resolution before any
/// mutation — then every node's operations are applied, children first,
/// in declared order.
pub fn resolve(db: &mut Database, ctx: &mut crate::rng::RollContext, root: ExprIdx) -> (r: Result<
    (),
    ResolveError,
>)
    requires
        arena_wf(old(db)@),
        root < old(db)@.len(),
    ensures
        arena_wf(final(db)@),
        old(db)@.len() <= final(db)@.len(),
        final(ctx).seed() == old(ctx).seed(),
        r == Err::<(), ResolveError>(ResolveError::InvalidOperation) <==> !arena_ops_valid(
            old(db)@,
        ),
        !arena_ops_valid(old(db)@) ==> final(db)@ == old(db)@,
        arena_op_free(old(db)@) ==> r is Ok && final(db)@ == old(db)@,
{
    if !validate_ops(db) {
        proof {
            if arena_op_free(db@) {
                assert forall|i: int|
                    0 <= i < db@.len() implies node_ops_valid(#[trigger] db@[i]) by {
                    assert(node_op_free(db@[i]));
                }
            }
        }
        return Err(ResolveError::InvalidOperation);
    }
    apply_ops(db, ctx, root)
}

// ---------------------------------------------------------------------------
// The keep-highest law
// ---------------------------------------------------------------------------

/// The set of positions the operation selects from targets with totals `t`.
pub open spec fn selected_positions(op: SetOperation, t: Seq<int>) -> Set<int> {
    Set::new(|i: int| 0 <= i < t.len() && selected(op, t, i))
}

/// The positions that come before position `i` in the `Highest` order,
/// among the first `n`.
spec fn hi_priors_upto(t: Seq<int>, i: int, n: int) -> Set<int> {
    Set::new(|j: int| 0 <= j < n && sel_prior(SetSel::Highest, t, j, i))
}

/// A `Highest` rank is the size of the set of positions before `i`.
proof fn lemma_hi_rank_card(num: u64, t: Seq<int>, i: int, n: int)
    requires
        0 <= n <= t.len(),
    ensures
        hi_priors_upto(t, i, n).finite(),
        sel_rank_upto(SetSel::Highest, num, t, i, n) == hi_priors_upto(t, i, n).len(),
    decreases n,
{
    if n == 0 {
        assert(hi_priors_upto(t, i, 0) =~= Set::<int>::empty());
    } else {
        lemma_hi_rank_card(num, t, i, n - 1);
        if sel_prior(SetSel::Highest, t, n - 1, i) {
            assert(hi_priors_upto(t, i, n) =~= hi_priors_upto(t, i, n - 1).insert(n - 1));
        } else {
            assert(hi_priors_upto(t, i, n) =~= hi_priors_upto(t, i, n - 1));
        }
    }
}

/// Coming before in the `Highest` order means a strictly smaller rank.
proof fn lemma_hi_rank_monotone(num: u64, t: Seq<int>, a: int, b: int)
    requires
        0 <= a < t.len(),
        0 <= b < t.len(),
        sel_prior(SetSel::Highest, t, a, b),
    ensures
        sel_rank(SetSel::Highest, num, t, a) < sel_rank(SetSel::Highest, num, t, b),
{
    let n = t.len() as int;
    lemma_hi_rank_card(num, t, a, n);
    lemma_hi_rank_card(num, t, b, n);
    let pa = hi_priors_upto(t, a, n);
    let pb = hi_priors_upto(t, b, n);
    assert forall|j: int| pa.insert(a).contains(j) implies pb.contains(j) by {
        if j != a {
            assert(sel_prior(SetSel::Highest, t, j, a));
            assert(sel_prior(SetSel::Highest, t, j, b));
        }
    }
    assert(pa.insert(a).subset_of(pb));
    assert(!pa.contains(a));
    vstd::set_lib::lemma_len_subset(pa.insert(a), pb);
}

/// A `Highest` rank never reaches the group's size: a position never comes
/// before itself.
proof fn lemma_hi_rank_bound(num: u64, t: Seq<int>, i: int)
    requires
        0 <= i < t.len(),
    ensures
        0 <= sel_rank(SetSel::Highest, num, t, i) < t.len(),
{
    let n = t.len() as int;
    lemma_hi_rank_card(num, t, i, n);
    vstd::set_lib::lemma_int_range(0, n);
    let range = vstd::set_lib::set_int_range(0, n);
    assert(hi_priors_upto(t, i, n).subset_of(range.remove(i)));
    assert(range.contains(i));
    vstd::set_lib::lemma_len_subset(hi_priors_upto(t, i, n), range.remove(i));
}

/// Distinct positions have distinct `Highest` ranks: the order is total.
proof fn lemma_hi_rank_injective(num: u64, t: Seq<int>, a: int, b: int)
    requires
        0 <= a < t.len(),
        0 <= b < t.len(),
        a != b,
    ensures
        sel_rank(SetSel::Highest, num, t, a) != sel_rank(SetSel::Highest, num, t, b),
{
    if sel_prior(SetSel::Highest, t, a, b) {
        lemma_hi_rank_monotone(num, t, a, b);
    } else {
        assert(sel_prior(SetSel::Highest, t, b, a));
        lemma_hi_rank_monotone(num, t, b, a);
    }
}

/// The `Highest` order extended to a total order over every position
/// number, so that a least element always exists.
spec fn hi_order(t: Seq<int>) -> spec_fn(int, int) -> bool {
    |a: int, b: int|
        if 0 <= a < t.len() && 0 <= b < t.len() {
            sel_prior(SetSel::Highest, t, a, b) || a == b
        } else if 0 <= a < t.len() {
            true
        } else if 0 <= b < t.len() {
            false
        } else {
            a <= b
        }
}

/// The extended `Highest` order is a total ordering.
proof fn lemma_hi_order_total(t: Seq<int>)
    ensures
        vstd::relations::total_ordering(hi_order(t)),
{
    let r = hi_order(t);
    assert forall|a: int| #[trigger] r(a, a) by {}
    assert forall|a: int, b: int| #[trigger] r(a, b) && #[trigger] r(b, a) implies a == b by {}
    assert forall|a: int, b: int, c: int| #[trigger] r(a, b) && #[trigger] r(b, c) implies r(
        a,
        c,
    ) by {}
    assert forall|a: int, b: int| #[trigger] r(a, b) || #[trigger] r(b, a) by {}
}

/// The positions of rank below `k`.
spec fn hi_rank_below(num: u64, t: Seq<int>, k: int) -> Set<int> {
    Set::new(|i: int| 0 <= i < t.len() && sel_rank(SetSel::Highest, num, t, i) < k)
}

/// Exactly `min(k, n)` positions have rank below `k`: the ranks of a group
/// of `n` targets are exactly the numbers `0` to `n - 1`.
proof fn lemma_hi_rank_below_size(num: u64, t: Seq<int>, k: int)
    requires
        0 <= k,
    ensures
        hi_rank_below(num, t, k).finite(),
        hi_rank_below(num, t, k).len() == vstd::math::min(k, t.len() as int),
    decreases k,
{
    let n = t.len() as int;
    let range = vstd::set_lib::set_int_range(0, n);
    vstd::set_lib::lemma_int_range(0, n);
    assert(hi_rank_below(num, t, k).subset_of(range));
    vstd::set_lib::lemma_len_subset(hi_rank_below(num, t, k), range);
    if k == 0 {
        assert forall|i: int| 0 <= i < n implies !(sel_rank(SetSel::Highest, num, t, i) < 0) by {
            lemma_hi_rank_bound(num, t, i);
        }
        assert(hi_rank_below(num, t, 0) =~= Set::<int>::empty());
    } else {
        lemma_hi_rank_below_size(num, t, k - 1);
        let prev = hi_rank_below(num, t, k - 1);
        if k - 1 >= n {
            // every position already has rank below k - 1
            assert(prev.len() == n);
            vstd::set_lib::lemma_subset_equality(prev, range);
            assert forall|i: int| range.contains(i) implies hi_rank_below(num, t, k).contains(
                i,
            ) by {
                assert(prev.contains(i));
            }
            assert(hi_rank_below(num, t, k) =~= range);
        } else {
            // some position is still unranked below k - 1; the least of
            // them, in the extended order, has rank exactly k - 1
            let rest = range.difference(prev);
            assert(rest.finite()) by {
                vstd::set_lib::lemma_len_subset(rest, range);
            }
            assert(rest.len() > 0) by {
                if rest.len() == 0 {
                    assert(rest =~= Set::<int>::empty()) by {
                        rest.lemma_len0_is_empty();
                    }
                    assert(range.subset_of(prev)) by {
                        assert forall|i: int| range.contains(i) implies prev.contains(i) by {
                            assert(!rest.contains(i));
                        }
                    }
                    vstd::set_lib::lemma_len_subset(range, prev);
                }
            }
            let r = hi_order(t);
            lemma_hi_order_total(t);
            let m0 = rest.find_unique_minimal(r);
            rest.find_unique_minimal_ensures(r);
            assert(rest.contains(m0));
            assert(0 <= m0 < n);
            assert(!(sel_rank(SetSel::Highest, num, t, m0) < k - 1));
            // every position before m0 already ranks below k - 1
            lemma_hi_rank_card(num, t, m0, n);
            assert forall|j: int| hi_priors_upto(t, m0, n).contains(j) implies prev.contains(
                j,
            ) by {
                if !prev.contains(j) {
                    assert(rest.contains(j));
                    assert(r(j, m0));
                    assert(r(m0, j));
                    assert(sel_prior(SetSel::Highest, t, j, m0) && (sel_prior(
                        SetSel::Highest,
                        t,
                        m0,
                        j,
                    ) || m0 == j));
                    assert(false);
                }
            }
            vstd::set_lib::lemma_len_subset(hi_priors_upto(t, m0, n), prev);
            assert(sel_rank(SetSel::Highest, num, t, m0) == k - 1);
            assert forall|i: int| hi_rank_below(num, t, k).contains(i) implies prev.insert(
                m0,
            ).contains(i) by {
                if i != m0 && !(sel_rank(SetSel::Highest, num, t, i) < k - 1) {
                    lemma_hi_rank_injective(num, t, i, m0);
                    assert(false);
                }
            }
            assert forall|i: int| prev.insert(m0).contains(i) implies hi_rank_below(
                num,
                t,
                k,
            ).contains(i) by {}
            assert(hi_rank_below(num, t, k) =~= prev.insert(m0));
            assert(!prev.contains(m0));
        }
    }
}

/// The keep-highest law: a `Highest` selection with number `k` picks
/// exactly `min(k, n)` of the `n` targets, and every selected target's
/// total is at least every unselected one's, ties resolved by original
/// position.
pub proof fn lemma_select_highest_picks_top(op: SetOperation, t: Seq<int>)
    requires
        op.sel == SetSel::Highest,
    ensures
        selected_positions(op, t).finite(),
        selected_positions(op, t).len() == vstd::math::min(op.num as int, t.len() as int),
        forall|i: int, j: int|
            0 <= i < t.len() && 0 <= j < t.len() && selected(op, t, i) && !selected(op, t, j)
                ==> t[i] > t[j] || (t[i] == t[j] && i < j),
{
    lemma_hi_rank_below_size(op.num, t, op.num as int);
    assert(selected_positions(op, t) =~= hi_rank_below(op.num, t, op.num as int));
    assert forall|i: int, j: int|
        0 <= i < t.len() && 0 <= j < t.len() && selected(op, t, i) && !selected(
            op,
            t,
            j,
        ) implies t[i] > t[j] || (t[i] == t[j] && i < j) by {
        if !(t[i] > t[j] || (t[i] == t[j] && i < j)) {
            assert(i != j);
            assert(sel_prior(SetSel::Highest, t, j, i));
            lemma_hi_rank_monotone(op.num, t, j, i);
        }
    }
}

} // verus!
