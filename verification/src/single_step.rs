//! Single-unit operations written as chunked ones, and why rebasing them
//! in either model gives the same operation.

use crate::composite_op::{
    applied, chunk_of, compacted, fits, joined, model, rebased, rebased_steps, shortened,
    trimmed, Step, StepModel,
};
use crate::convergence::{lemma_cons, lemma_used_front, used};
use crate::Op;
use vstd::prelude::*;

verus! {

/// The step `x` at offset `q`: behind a skip, or alone at the start.
pub open spec fn led(q: nat, x: StepModel) -> Seq<StepModel> {
    if q == 0 {
        seq![x]
    } else {
        seq![StepModel::Skip(q), x]
    }
}

/// A single-unit operation as a chunked one in compact form.
pub open spec fn single(op: Op) -> Seq<StepModel> {
    match op {
        Op::Insert(p, c) => led(p as nat, StepModel::Insert(seq![c])),
        Op::Delete(p) => led(p as nat, StepModel::Delete(1)),
        Op::Noop => Seq::empty(),
    }
}

/// The side of the chunked model that stands for a side of the
/// single-unit model.
pub open spec fn side_of(side: crate::Side) -> crate::composite_op::Side {
    match side {
        crate::Side::Left => crate::composite_op::Side::Left,
        crate::Side::Right => crate::composite_op::Side::Right,
    }
}

/// The step inserts one byte or deletes one.
pub open spec fn edits_one(x: StepModel) -> bool {
    (x is Insert && chunk_of(x).len() == 1) || x == StepModel::Delete(1)
}

/// Every step is a skip.
pub open spec fn all_skips(op: Seq<StepModel>) -> bool {
    forall|i: int| 0 <= i < op.len() ==> (#[trigger] op[i]) is Skip
}

/// Writes a single-unit operation as a chunked one.
pub fn single_steps(op: &Op) -> (r: Vec<Step>)
    ensures
        model(r@) == single(*op),
{
    let mut r: Vec<Step> = Vec::new();
    match *op {
        Op::Insert(p, c) => {
            if p > 0 {
                r.push(Step::Skip(p));
            }
            let mut chunk: Vec<u8> = Vec::new();
            chunk.push(c);
            proof {
                assert(chunk@ =~= seq![c]);
            }
            r.push(Step::Insert(chunk));
        },
        Op::Delete(p) => {
            if p > 0 {
                r.push(Step::Skip(p));
            }
            r.push(Step::Delete(1));
        },
        Op::Noop => {},
    }
    proof {
        assert(model(r@) =~= single(*op));
    }
    r
}

/// Two operations that both start with a skip share the shorter skip.
pub proof fn lemma_walk_skips(
    q1: nat,
    x: StepModel,
    q2: nat,
    y: StepModel,
    side: crate::composite_op::Side,
)
    requires
        q1 > 0,
        q2 > 0,
    ensures
        rebased_steps(led(q1, x), led(q2, y), side) == seq![
            StepModel::Skip(if q1 <= q2 {
                q1
            } else {
                q2
            }),
        ] + rebased_steps(
            led(
                (q1 - (if q1 <= q2 {
                    q1
                } else {
                    q2
                })) as nat,
                x,
            ),
            led(
                (q2 - (if q1 <= q2 {
                    q1
                } else {
                    q2
                })) as nat,
                y,
            ),
            side,
        ),
{
    let m = if q1 <= q2 {
        q1
    } else {
        q2
    };
    let a = led(q1, x);
    let b = led(q2, y);
    assert(a[0] == StepModel::Skip(q1));
    assert(b[0] == StepModel::Skip(q2));
    assert(shortened(a, m) =~= led((q1 - m) as nat, x));
    assert(shortened(b, m) =~= led((q2 - m) as nat, y));
}

/// The walk from the place where the first operation edits.
pub proof fn lemma_walk_at(x: StepModel, q2: nat, y: StepModel, side: crate::composite_op::Side)
    requires
        edits_one(x),
        edits_one(y),
    ensures
        rebased_steps(seq![x], led(q2, y), side) == (if q2 > 0 || (x is Insert && (y is Delete
            || side == crate::composite_op::Side::Left)) {
            seq![x]
        } else if y is Insert {
            seq![StepModel::Skip(1), x]
        } else {
            seq![StepModel::Skip(0)]
        }),
{
    let a = seq![x];
    let b = led(q2, y);
    let none = Seq::<StepModel>::empty();
    assert(a[0] == x);
    assert(a.drop_first() =~= none);
    if x is Delete {
        assert(shortened(a, 1) =~= none);
    }
    assert(rebased_steps(none, b, side) =~= none);
    assert(seq![x] + none =~= seq![x]);
    if q2 == 0 {
        assert(b[0] == y);
        assert(b.drop_first() =~= none);
        if y is Delete {
            assert(shortened(b, 1) =~= none);
        }
        assert(rebased_steps(a, none, side) == a);
        assert(rebased_steps(none, none, side) =~= none);
        assert(seq![StepModel::Skip(1)] + a =~= seq![StepModel::Skip(1), x]);
        assert(seq![StepModel::Skip(0)] + none =~= seq![StepModel::Skip(0)]);
    } else {
        assert(b[0] == StepModel::Skip(q2));
        assert(rebased_steps(none, shortened(b, 1), side) =~= none);
    }
}

/// The walk where the second operation edits in front of the first.
pub proof fn lemma_walk_behind(q1: nat, x: StepModel, y: StepModel, side: crate::composite_op::Side)
    requires
        q1 > 0,
        edits_one(x),
        edits_one(y),
    ensures
        rebased_steps(led(q1, x), seq![y], side) == (if y is Insert {
            seq![StepModel::Skip(1), StepModel::Skip(q1), x]
        } else {
            seq![StepModel::Skip(0)] + led((q1 - 1) as nat, x)
        }),
{
    let a = led(q1, x);
    let b = seq![y];
    let none = Seq::<StepModel>::empty();
    assert(a[0] == StepModel::Skip(q1));
    assert(b[0] == y);
    assert(b.drop_first() =~= none);
    if y is Delete {
        assert(shortened(b, 1) =~= none);
    }
    assert(rebased_steps(a, none, side) == a);
    assert(seq![StepModel::Skip(1)] + a =~= seq![StepModel::Skip(1), StepModel::Skip(q1), x]);
    assert(shortened(a, 1) =~= led((q1 - 1) as nat, x));
    assert(rebased_steps(led((q1 - 1) as nat, x), none, side) == led((q1 - 1) as nat, x));
}

/// Skips alone compact to one skip of their joint length, or to nothing.
pub proof fn lemma_compacted_skips(skips: Seq<StepModel>)
    requires
        all_skips(skips),
        used(skips) <= usize::MAX,
    ensures
        compacted(skips) == (if used(skips) == 0 {
            Seq::<StepModel>::empty()
        } else {
            seq![StepModel::Skip(used(skips))]
        }),
    decreases skips.len(),
{
    if skips.len() > 0 {
        let front = skips.drop_last();
        let last = skips.last();
        assert(skips =~= front.push(last));
        lemma_used_front(front, last);
        lemma_compacted_skips(front);
        let acc = compacted(front);
        if last.span() > 0 {
            if used(front) > 0 {
                assert(acc.last() == StepModel::Skip(used(front)));
                assert(acc.drop_last().push(StepModel::Skip(used(skips))) =~= seq![
                    StepModel::Skip(used(skips)),
                ]);
            } else {
                assert(acc.push(last) =~= seq![StepModel::Skip(used(skips))]);
            }
        }
    }
}

/// Skips and one edit behind them compact to the edit at their joint
/// length.
pub proof fn lemma_compacted_edit(skips: Seq<StepModel>, x: StepModel)
    requires
        all_skips(skips),
        used(skips) <= usize::MAX,
        edits_one(x),
    ensures
        trimmed(compacted(skips.push(x))) == led(used(skips), x),
        trimmed(compacted(skips)) == Seq::<StepModel>::empty(),
{
    let raw = skips.push(x);
    assert(raw.drop_last() =~= skips);
    lemma_compacted_skips(skips);
    let acc = compacted(skips);
    assert(compacted(raw) == joined(acc, x));
    if used(skips) == 0 {
        assert(acc.push(x) =~= seq![x]);
    } else {
        assert(acc.push(x) =~= seq![StepModel::Skip(used(skips)), x]);
        assert(acc.drop_last() =~= Seq::<StepModel>::empty());
        assert(trimmed(acc.drop_last()) =~= Seq::<StepModel>::empty());
    }
}

/// The one edit of a single-unit operation as a step.
pub open spec fn edit_of(op: Op) -> StepModel {
    match op {
        Op::Insert(_, c) => StepModel::Insert(seq![c]),
        _ => StepModel::Delete(1),
    }
}

/// Skips put one behind the other stay skips, and their lengths add up.
pub proof fn lemma_more_skips(skips: Seq<StepModel>, n: nat)
    requires
        all_skips(skips),
    ensures
        all_skips(skips.push(StepModel::Skip(n))),
        used(skips.push(StepModel::Skip(n))) == used(skips) + n,
{
    lemma_used_front(skips, StepModel::Skip(n));
}

/// The skips that the walk of an edit at `p1` over an edit at `p2` puts
/// out before it comes to the first edit or ends.
spec fn walk_skips(
    p1: nat,
    x: StepModel,
    p2: nat,
    y: StepModel,
    side: crate::composite_op::Side,
) -> Seq<StepModel> {
    let none = Seq::<StepModel>::empty();
    let m = if p1 <= p2 {
        p1
    } else {
        p2
    };
    let pre = if m == 0 {
        none
    } else {
        none.push(StepModel::Skip(m))
    };
    if p1 <= p2 {
        if p1 < p2 || (x is Insert && (y is Delete || side == crate::composite_op::Side::Left)) {
            pre
        } else if y is Insert {
            pre.push(StepModel::Skip(1))
        } else {
            pre.push(StepModel::Skip(0))
        }
    } else if y is Insert {
        pre.push(StepModel::Skip(1)).push(StepModel::Skip((p1 - p2) as nat))
    } else if p1 - p2 == 1 {
        pre.push(StepModel::Skip(0))
    } else {
        pre.push(StepModel::Skip(0)).push(StepModel::Skip((p1 - p2 - 1) as nat))
    }
}

/// The joint length of those skips.
spec fn walk_total(
    p1: nat,
    x: StepModel,
    p2: nat,
    y: StepModel,
    side: crate::composite_op::Side,
) -> int {
    if p1 <= p2 {
        if p1 < p2 || (x is Insert && (y is Delete || side == crate::composite_op::Side::Left)) {
            p1 as int
        } else if y is Insert {
            (p1 + 1) as int
        } else {
            p1 as int
        }
    } else if y is Insert {
        (p1 + 1) as int
    } else {
        p1 - 1
    }
}

/// The first edit is still to be made when the walk comes to it: the
/// second one has not deleted the same byte.
spec fn walk_keeps(p1: nat, x: StepModel, p2: nat, y: StepModel) -> bool {
    !(p1 == p2 && x is Delete && y is Delete)
}

proof fn lemma_walk_total(
    p1: nat,
    x: StepModel,
    p2: nat,
    y: StepModel,
    side: crate::composite_op::Side,
)
    ensures
        all_skips(walk_skips(p1, x, p2, y, side)),
        used(walk_skips(p1, x, p2, y, side)) == walk_total(p1, x, p2, y, side),
{
    let none = Seq::<StepModel>::empty();
    let m = if p1 <= p2 {
        p1
    } else {
        p2
    };
    let pre = if m == 0 {
        none
    } else {
        none.push(StepModel::Skip(m))
    };
    lemma_more_skips(none, m);
    lemma_more_skips(pre, 0);
    lemma_more_skips(pre, 1);
    if p1 > p2 {
        lemma_more_skips(pre.push(StepModel::Skip(1)), (p1 - p2) as nat);
        lemma_more_skips(pre.push(StepModel::Skip(0)), (p1 - p2 - 1) as nat);
    }
}

proof fn lemma_walk(p1: nat, x: StepModel, p2: nat, y: StepModel, side: crate::composite_op::Side)
    requires
        edits_one(x),
        edits_one(y),
    ensures
        rebased_steps(led(p1, x), led(p2, y), side) == (if walk_keeps(p1, x, p2, y) {
            walk_skips(p1, x, p2, y, side).push(x)
        } else {
            walk_skips(p1, x, p2, y, side)
        }),
{
    let none = Seq::<StepModel>::empty();
    let raw = rebased_steps(led(p1, x), led(p2, y), side);
    let m = if p1 <= p2 {
        p1
    } else {
        p2
    };
    let q1 = (p1 - m) as nat;
    let q2 = (p2 - m) as nat;
    let rest = rebased_steps(led(q1, x), led(q2, y), side);
    let pre = if m == 0 {
        none
    } else {
        none.push(StepModel::Skip(m))
    };
    assert(raw =~= pre + rest) by {
        if m > 0 {
            lemma_walk_skips(p1, x, p2, y, side);
        }
    }
    let skips = walk_skips(p1, x, p2, y, side);
    if q1 == 0 {
        lemma_walk_at(x, q2, y, side);
    } else {
        lemma_walk_behind(q1, x, y, side);
    }
    if walk_keeps(p1, x, p2, y) {
        assert(pre + rest =~= skips.push(x));
    } else {
        assert(pre + rest =~= skips);
    }
}

/// Rebasing two single-unit operations written as chunked ones gives the
/// rebased single-unit operation written as a chunked one.
pub proof fn lemma_single_steps(op1: Op, op2: Op, side: crate::Side)
    requires
        crate::rebase_fits(op1, op2, side),
    ensures
        rebased(single(op1), single(op2), side_of(side)) == single(
            crate::rebased(op1, op2, side),
        ),
{
    let s = side_of(side);
    let none = Seq::<StepModel>::empty();
    let x = edit_of(op1);
    let p1 = op1.position() as nat;
    if op1 is Noop {
        assert(rebased_steps(single(op1), single(op2), s) =~= none);
        assert(compacted(none) =~= none);
    } else if op2 is Noop {
        let skips = if p1 == 0 {
            none
        } else {
            none.push(StepModel::Skip(p1))
        };
        lemma_more_skips(none, p1);
        assert(single(op1) =~= skips.push(x));
        lemma_compacted_edit(skips, x);
    } else {
        let y = edit_of(op2);
        let p2 = op2.position() as nat;
        let skips = walk_skips(p1, x, p2, y, s);
        lemma_walk(p1, x, p2, y, s);
        lemma_walk_total(p1, x, p2, y, s);
        lemma_compacted_edit(skips, x);
        if walk_keeps(p1, x, p2, y) {
            assert(crate::rebased(op1, op2, side).position() == walk_total(p1, x, p2, y, s));
        }
    }
}

/// A single-unit operation written as a chunked one fits the same
/// documents and changes them in the same way.
pub proof fn lemma_single_applied(op: Op, doc: Seq<u8>)
    requires
        op.fits(doc.len()),
    ensures
        fits(single(op), doc.len()),
        applied(single(op), doc) == op.applied(doc),
{
    let none = Seq::<StepModel>::empty();
    let steps = single(op);
    if !(op is Noop) {
        let p = op.position();
        let x = edit_of(op);
        let rest = doc.skip(p);
        lemma_cons(x, none, rest);
        assert(seq![x] + none =~= seq![x]);
        assert(applied(none, rest) == rest);
        assert(applied(none, rest.skip(1)) == rest.skip(1));
        match op {
            Op::Insert(_, c) => {
                assert(doc.take(p) + (seq![c] + rest) =~= doc.insert(p, c));
            },
            _ => {
                assert(doc.take(p) + rest.skip(1) =~= doc.remove(p));
            },
        }
        if p > 0 {
            lemma_cons(StepModel::Skip(p as nat), seq![x], doc);
            assert(seq![StepModel::Skip(p as nat)] + seq![x] =~= steps);
        } else {
            assert(rest =~= doc);
        }
    }
}

} // verus!
