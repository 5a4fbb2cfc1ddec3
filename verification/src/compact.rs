//! The shape of a rebased operation: no step in it is idle, no two
//! neighbours could be one step, and it does not end in a skip.

use crate::composite_op::{
    compacted, joined, mergeable, merged, rebased, rebased_steps, trimmed, Side, StepModel,
};
use vstd::prelude::*;

verus! {

/// No step is idle, and no step can merge with the one before it.
pub open spec fn is_compact(op: Seq<StepModel>) -> bool {
    &&& forall|i: int| 0 <= i < op.len() ==> !(#[trigger] op[i]).is_idle()
    &&& forall|i: int| 0 < i < op.len() ==> !mergeable(op[i - 1], #[trigger] op[i])
}

/// Joining a step to a compact operation leaves it compact.
pub proof fn lemma_joined_compact(acc: Seq<StepModel>, s: StepModel)
    requires
        is_compact(acc),
    ensures
        is_compact(joined(acc, s)),
{
    let r = joined(acc, s);
    if s.is_idle() {
    } else if acc.len() > 0 && mergeable(acc.last(), s) {
        let front = acc.drop_last();
        let m = merged(acc.last(), s);
        assert forall|i: int| 0 <= i < r.len() implies !(#[trigger] r[i]).is_idle() by {
            if i < front.len() {
                assert(r[i] == acc[i]);
            }
        }
        assert forall|i: int| 0 < i < r.len() implies !mergeable(r[i - 1], #[trigger] r[i]) by {
            if i < front.len() {
                assert(r[i] == acc[i]);
                assert(r[i - 1] == acc[i - 1]);
            } else {
                assert(r[i - 1] == acc[i - 1]);
                assert(!mergeable(acc[i - 1], acc[i]));
            }
        }
    } else {
        assert forall|i: int| 0 <= i < r.len() implies !(#[trigger] r[i]).is_idle() by {
            if i < acc.len() {
                assert(r[i] == acc[i]);
            }
        }
        assert forall|i: int| 0 < i < r.len() implies !mergeable(r[i - 1], #[trigger] r[i]) by {
            if i < acc.len() {
                assert(r[i] == acc[i]);
                assert(r[i - 1] == acc[i - 1]);
            }
        }
    }
}

/// Steps joined one after the other are compact.
pub proof fn lemma_compacted_compact(raw: Seq<StepModel>)
    ensures
        is_compact(compacted(raw)),
    decreases raw.len(),
{
    if raw.len() > 0 {
        lemma_compacted_compact(raw.drop_last());
        lemma_joined_compact(compacted(raw.drop_last()), raw.last());
    }
}

/// A compact operation without the skips at its end is compact and does
/// not end in a skip.
pub proof fn lemma_trimmed_compact(op: Seq<StepModel>)
    requires
        is_compact(op),
    ensures
        is_compact(trimmed(op)),
        trimmed(op).len() > 0 ==> !(trimmed(op).last() is Skip),
    decreases op.len(),
{
    if op.len() > 0 && op.last() is Skip {
        let front = op.drop_last();
        assert forall|i: int| 0 <= i < front.len() implies !(#[trigger] front[i]).is_idle() by {
            assert(front[i] == op[i]);
        }
        assert forall|i: int| 0 < i < front.len() implies !mergeable(
            front[i - 1],
            #[trigger] front[i],
        ) by {
            assert(front[i] == op[i]);
            assert(front[i - 1] == op[i - 1]);
        }
        lemma_trimmed_compact(front);
    }
}

/// A rebased operation is compact and does not end in a skip.
pub proof fn lemma_rebased_compact(a: Seq<StepModel>, b: Seq<StepModel>, side: Side)
    ensures
        is_compact(rebased(a, b, side)),
        rebased(a, b, side).len() > 0 ==> !(rebased(a, b, side).last() is Skip),
{
    lemma_compacted_compact(rebased_steps(a, b, side));
    lemma_trimmed_compact(compacted(rebased_steps(a, b, side)));
}

} // verus!
