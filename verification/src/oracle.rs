//! The convergence oracle: it runs two or three operations on a given
//! document in both orders and tells whether the documents agree, and it
//! makes valid operations out of arbitrary numbers, for use with a source
//! of random numbers.

use crate::composite_op::{fits, model, Step, StepModel};
use crate::convergence::lemma_fits_used;
use crate::{Error, Op, Side};
use vstd::prelude::*;

verus! {

/// The operation that [`valid_op_for`] makes of its numbers: a deletion
/// for an odd `kind` where there is a byte to delete, an insertion
/// otherwise, at `at` wrapped into the document.
pub open spec fn picked(len: usize, kind: usize, at: usize, value: u8) -> Op {
    if kind % 2 == 1 && len > 0 {
        Op::Delete((at % len) as usize)
    } else if len == usize::MAX {
        Op::Insert(at, value)
    } else {
        Op::Insert(((at as int) % (len + 1)) as usize, value)
    }
}

/// The document after `op1` and then `op2` rebased over it.
pub open spec fn first_then_second(doc: Seq<u8>, op1: Op, op2: Op) -> Seq<u8> {
    crate::rebased(op2, op1, Side::Right).applied(op1.applied(doc))
}

/// The document after `op2` and then `op1` rebased over it.
pub open spec fn second_then_first(doc: Seq<u8>, op1: Op, op2: Op) -> Seq<u8> {
    crate::rebased(op1, op2, Side::Left).applied(op2.applied(doc))
}

/// A third operation rebased over `op1` and then over the rebased `op2`.
pub open spec fn third_after_first(op1: Op, op2: Op, op3: Op) -> Op {
    crate::rebased(
        crate::rebased(op3, op1, Side::Right),
        crate::rebased(op2, op1, Side::Right),
        Side::Right,
    )
}

/// A third operation rebased over `op2` and then over the rebased `op1`.
pub open spec fn third_after_second(op1: Op, op2: Op, op3: Op) -> Op {
    crate::rebased(
        crate::rebased(op3, op2, Side::Right),
        crate::rebased(op1, op2, Side::Left),
        Side::Right,
    )
}

/// Three operations made on one document leave the same bytes in both
/// orders of the first two.
pub open spec fn three_agree(doc: Seq<u8>, op1: Op, op2: Op, op3: Op) -> bool {
    third_after_first(op1, op2, op3).applied(first_then_second(doc, op1, op2))
        == third_after_second(op1, op2, op3).applied(second_then_first(doc, op1, op2))
}

/// The step that [`valid_step_for`] makes of its numbers.
pub open spec fn picked_step(left: usize, kind: usize, n: usize, chunk: Seq<u8>) -> StepModel {
    let m = if left == usize::MAX {
        n as nat
    } else {
        ((n as int) % (left + 1)) as nat
    };
    if kind % 3 == 0 {
        StepModel::Skip(m)
    } else if kind % 3 == 1 {
        StepModel::Insert(chunk)
    } else {
        StepModel::Delete(m)
    }
}

fn copy_bytes(src: &Vec<u8>) -> (r: Vec<u8>)
    ensures
        r@ == src@,
{
    let mut r: Vec<u8> = Vec::new();
    let mut i: usize = 0;
    while i < src.len()
        invariant
            i <= src@.len(),
            r@ == src@.take(i as int),
        decreases src@.len() - i,
    {
        r.push(src[i]);
        i = i + 1;
        proof {
            assert(r@ =~= src@.take(i as int));
        }
    }
    proof {
        assert(src@.take(i as int) =~= src@);
    }
    r
}

fn same_bytes(a: &Vec<u8>, b: &Vec<u8>) -> (r: bool)
    ensures
        r == (a@ == b@),
{
    if a.len() != b.len() {
        return false;
    }
    let mut i: usize = 0;
    while i < a.len()
        invariant
            i <= a@.len(),
            a@.len() == b@.len(),
            a@.take(i as int) == b@.take(i as int),
        decreases a@.len() - i,
    {
        if a[i] != b[i] {
            return false;
        }
        i = i + 1;
        proof {
            assert(a@.take(i as int) =~= a@.take(i - 1).push(a@[i - 1]));
            assert(b@.take(i as int) =~= b@.take(i - 1).push(b@[i - 1]));
        }
    }
    proof {
        assert(a@.take(i as int) =~= a@);
        assert(b@.take(i as int) =~= b@);
    }
    true
}

/// Makes an operation that fits a document of `len` bytes out of any
/// three numbers.
pub fn valid_op_for(len: usize, kind: usize, at: usize, value: u8) -> (op: Op)
    ensures
        op == picked(len, kind, at, value),
        op.fits(len as nat),
{
    if kind % 2 == 1 && len > 0 {
        Op::Delete(at % len)
    } else if len == usize::MAX {
        Op::Insert(at, value)
    } else {
        Op::Insert(at % (len + 1), value)
    }
}

/// Makes a step that stays inside the `left` bytes behind the cursor out
/// of any numbers and bytes.
pub fn valid_step_for(left: usize, kind: usize, n: usize, chunk: Vec<u8>) -> (step: Step)
    ensures
        step@ == picked_step(left, kind, n, chunk@),
        step@.span() <= left,
{
    let m: usize = if left == usize::MAX {
        n
    } else {
        n % (left + 1)
    };
    if kind % 3 == 0 {
        Step::Skip(m)
    } else if kind % 3 == 1 {
        Step::Insert(chunk)
    } else {
        Step::Delete(m)
    }
}

/// Applies two operations made on `doc` in both orders, each rebased over
/// the other, and tells whether the two documents are the same. They
/// always are; operations that do not fit `doc` are refused.
pub fn converges(doc: &Vec<u8>, op1: &Op, op2: &Op) -> (r: Result<bool, Error>)
    requires
        doc@.len() < usize::MAX,
    ensures
        op1.fits(doc@.len()) && op2.fits(doc@.len()) ==> r == Ok::<bool, Error>(true),
        !(op1.fits(doc@.len()) && op2.fits(doc@.len())) ==> r == Err::<bool, Error>(
            Error::IndexOutOfRange,
        ),
{
    let mut doc1 = copy_bytes(doc);
    let mut doc2 = copy_bytes(doc);
    if crate::apply(&mut doc1, op1).is_err() {
        return Err(Error::IndexOutOfRange);
    }
    if crate::apply(&mut doc2, op2).is_err() {
        return Err(Error::IndexOutOfRange);
    }
    let op2_over_1 = crate::transform(op2, op1, Side::Right);
    let op1_over_2 = crate::transform(op1, op2, Side::Left);
    proof {
        crate::lemma_rebased_fits(doc@, *op2, *op1, Side::Right);
        crate::lemma_rebased_fits(doc@, *op1, *op2, Side::Left);
        crate::lemma_convergence(doc@, *op1, *op2);
    }
    let _ = crate::apply(&mut doc1, &op2_over_1);
    let _ = crate::apply(&mut doc2, &op1_over_2);
    Ok(same_bytes(&doc1, &doc2))
}

/// Applies three operations made on `doc` in the two orders of the first
/// two, the third rebased over both, and tells whether the two documents
/// are the same. Operations that do not fit `doc` are refused.
pub fn converges_three(doc: &Vec<u8>, op1: &Op, op2: &Op, op3: &Op) -> (r: Result<bool, Error>)
    requires
        doc@.len() + 2 <= usize::MAX,
    ensures
        op1.fits(doc@.len()) && op2.fits(doc@.len()) && op3.fits(doc@.len()) ==> r == Ok::<
            bool,
            Error,
        >(three_agree(doc@, *op1, *op2, *op3)),
        !(op1.fits(doc@.len()) && op2.fits(doc@.len()) && op3.fits(doc@.len())) ==> r == Err::<
            bool,
            Error,
        >(Error::IndexOutOfRange),
{
    let mut doc1 = copy_bytes(doc);
    let mut doc2 = copy_bytes(doc);
    if !op3.fits_len(doc.len()) {
        return Err(Error::IndexOutOfRange);
    }
    if crate::apply(&mut doc1, op1).is_err() {
        return Err(Error::IndexOutOfRange);
    }
    if crate::apply(&mut doc2, op2).is_err() {
        return Err(Error::IndexOutOfRange);
    }
    let op2_over_1 = crate::transform(op2, op1, Side::Right);
    let op1_over_2 = crate::transform(op1, op2, Side::Left);
    let op3_over_1 = crate::transform(op3, op1, Side::Right);
    let op3_over_2 = crate::transform(op3, op2, Side::Right);
    proof {
        crate::lemma_rebased_fits(doc@, *op2, *op1, Side::Right);
        crate::lemma_rebased_fits(doc@, *op1, *op2, Side::Left);
        crate::lemma_rebased_fits(doc@, *op3, *op1, Side::Right);
        crate::lemma_rebased_fits(doc@, *op3, *op2, Side::Right);
    }
    let op3_over_1_2 = crate::transform(&op3_over_1, &op2_over_1, Side::Right);
    let op3_over_2_1 = crate::transform(&op3_over_2, &op1_over_2, Side::Right);
    proof {
        crate::lemma_rebased_fits(op1.applied(doc@), op3_over_1, op2_over_1, Side::Right);
        crate::lemma_rebased_fits(op2.applied(doc@), op3_over_2, op1_over_2, Side::Right);
    }
    let _ = crate::apply(&mut doc1, &op2_over_1);
    let _ = crate::apply(&mut doc1, &op3_over_1_2);
    let _ = crate::apply(&mut doc2, &op1_over_2);
    let _ = crate::apply(&mut doc2, &op3_over_2_1);
    Ok(same_bytes(&doc1, &doc2))
}

/// Applies two chunked operations made on `doc` in both orders, each
/// rebased over the other, and tells whether the two documents are the
/// same. They always are; operations that do not fit `doc` are refused.
pub fn steps_converge(doc: &Vec<u8>, op1: &Vec<Step>, op2: &Vec<Step>) -> (r: Result<bool, Error>)
    ensures
        fits(model(op1@), doc@.len()) && fits(model(op2@), doc@.len()) ==> r == Ok::<bool, Error>(
            true,
        ),
        !(fits(model(op1@), doc@.len()) && fits(model(op2@), doc@.len())) ==> r == Err::<
            bool,
            Error,
        >(Error::IndexOutOfRange),
{
    let mut doc1 = copy_bytes(doc);
    let mut doc2 = copy_bytes(doc);
    if crate::composite_op::apply(&mut doc1, op1.as_slice()).is_err() {
        return Err(Error::IndexOutOfRange);
    }
    if crate::composite_op::apply(&mut doc2, op2.as_slice()).is_err() {
        return Err(Error::IndexOutOfRange);
    }
    proof {
        assert(doc@.len() == doc.len());
        lemma_fits_used(model(op1@), doc@.len());
        lemma_fits_used(model(op1@), usize::MAX as nat);
        lemma_fits_used(model(op2@), doc@.len());
        lemma_fits_used(model(op2@), usize::MAX as nat);
        crate::convergence::lemma_convergence(doc@, model(op1@), model(op2@));
    }
    match crate::composite_op::transform(op2, op1, crate::composite_op::Side::Right) {
        Ok(op2_over_1) => {
            match crate::composite_op::transform(op1, op2, crate::composite_op::Side::Left) {
                Ok(op1_over_2) => {
                    let _ = crate::composite_op::apply(&mut doc1, op2_over_1.as_slice());
                    let _ = crate::composite_op::apply(&mut doc2, op1_over_2.as_slice());
                    Ok(same_bytes(&doc1, &doc2))
                },
                Err(e) => Err(e),
            }
        },
        Err(e) => Err(e),
    }
}

/// The operation with an observed-delete count that
/// [`valid_observed_op_for`] makes of its numbers: as [`picked`], with no
/// deletion observed.
pub open spec fn picked_observed(len: usize, kind: usize, at: usize, value: u8) -> crate::single_op::Op {
    match picked(len, kind, at, value) {
        Op::Insert(p, c) => crate::single_op::Op::Insert(p, 0, c),
        Op::Delete(p) => crate::single_op::Op::Delete(p),
        Op::Noop => crate::single_op::Op::Noop,
    }
}

/// Two operations with observed-delete counts leave the same bytes in
/// both orders.
pub open spec fn observed_agree(
    doc: Seq<u8>,
    op1: crate::single_op::Op,
    op2: crate::single_op::Op,
) -> bool {
    crate::single_op::rebased(op2, op1, crate::single_op::Side::Right).applied(op1.applied(doc))
        == crate::single_op::rebased(op1, op2, crate::single_op::Side::Left).applied(
        op2.applied(doc),
    )
}

/// Makes an operation with an observed-delete count of zero that fits a
/// document of `len` bytes out of any three numbers.
pub fn valid_observed_op_for(len: usize, kind: usize, at: usize, value: u8) -> (op:
    crate::single_op::Op)
    ensures
        op == picked_observed(len, kind, at, value),
        op.fits(len as nat),
        op.observed() == 0,
{
    match valid_op_for(len, kind, at, value) {
        Op::Insert(p, c) => crate::single_op::Op::Insert(p, 0, c),
        Op::Delete(p) => crate::single_op::Op::Delete(p),
        Op::Noop => crate::single_op::Op::Noop,
    }
}

/// Applies two operations with observed-delete counts in both orders,
/// each rebased over the other, and tells whether the two documents are
/// the same. They are wherever two insertions rank as their positions do;
/// operations that do not fit `doc` are refused.
pub fn observed_converge(
    doc: &Vec<u8>,
    op1: &crate::single_op::Op,
    op2: &crate::single_op::Op,
) -> (r: Result<bool, Error>)
    requires
        doc@.len() < usize::MAX,
        op1.observed() < usize::MAX,
        op2.observed() < usize::MAX,
    ensures
        op1.fits(doc@.len()) && op2.fits(doc@.len()) ==> r == Ok::<bool, Error>(
            observed_agree(doc@, *op1, *op2),
        ),
        op1.fits(doc@.len()) && op2.fits(doc@.len()) && crate::single_op::ranks_follow_positions(
            *op1,
            *op2,
        ) ==> r == Ok::<bool, Error>(true),
        !(op1.fits(doc@.len()) && op2.fits(doc@.len())) ==> r == Err::<bool, Error>(
            Error::IndexOutOfRange,
        ),
{
    let mut doc1 = copy_bytes(doc);
    let mut doc2 = copy_bytes(doc);
    if crate::single_op::apply(&mut doc1, op1).is_err() {
        return Err(Error::IndexOutOfRange);
    }
    if crate::single_op::apply(&mut doc2, op2).is_err() {
        return Err(Error::IndexOutOfRange);
    }
    let op2_over_1 = crate::single_op::transform(op2, op1, crate::single_op::Side::Right);
    let op1_over_2 = crate::single_op::transform(op1, op2, crate::single_op::Side::Left);
    proof {
        crate::single_op::lemma_rebased_fits(doc@, *op2, *op1, crate::single_op::Side::Right);
        crate::single_op::lemma_rebased_fits(doc@, *op1, *op2, crate::single_op::Side::Left);
        if crate::single_op::ranks_follow_positions(*op1, *op2) {
            crate::single_op::lemma_convergence(doc@, *op1, *op2);
        }
    }
    let _ = crate::single_op::apply(&mut doc1, &op2_over_1);
    let _ = crate::single_op::apply(&mut doc2, &op1_over_2);
    Ok(same_bytes(&doc1, &doc2))
}

/// Three operations with observed-delete counts leave the same bytes in
/// both orders of the first two, the third rebased over both.
pub open spec fn observed_three_agree(
    doc: Seq<u8>,
    op1: crate::single_op::Op,
    op2: crate::single_op::Op,
    op3: crate::single_op::Op,
) -> bool {
    let op2_over_1 = crate::single_op::rebased(op2, op1, crate::single_op::Side::Right);
    let op1_over_2 = crate::single_op::rebased(op1, op2, crate::single_op::Side::Left);
    let op3_over_1 = crate::single_op::rebased(op3, op1, crate::single_op::Side::Right);
    let op3_over_2 = crate::single_op::rebased(op3, op2, crate::single_op::Side::Right);
    crate::single_op::rebased(op3_over_1, op2_over_1, crate::single_op::Side::Right).applied(
        op2_over_1.applied(op1.applied(doc)),
    ) == crate::single_op::rebased(op3_over_2, op1_over_2, crate::single_op::Side::Right).applied(
        op1_over_2.applied(op2.applied(doc)),
    )
}

/// Applies three operations with observed-delete counts in the two orders
/// of the first two, the third rebased over both, and tells whether the
/// two documents are the same. Operations that do not fit `doc` are
/// refused.
pub fn observed_converge_three(
    doc: &Vec<u8>,
    op1: &crate::single_op::Op,
    op2: &crate::single_op::Op,
    op3: &crate::single_op::Op,
) -> (r: Result<bool, Error>)
    requires
        doc@.len() + 2 <= usize::MAX,
        op1.observed() < usize::MAX,
        op2.observed() < usize::MAX,
        op3.observed() + 2 <= usize::MAX,
    ensures
        op1.fits(doc@.len()) && op2.fits(doc@.len()) && op3.fits(doc@.len()) ==> r == Ok::<
            bool,
            Error,
        >(observed_three_agree(doc@, *op1, *op2, *op3)),
        !(op1.fits(doc@.len()) && op2.fits(doc@.len()) && op3.fits(doc@.len())) ==> r == Err::<
            bool,
            Error,
        >(Error::IndexOutOfRange),
{
    let mut doc1 = copy_bytes(doc);
    let mut doc2 = copy_bytes(doc);
    if !op3.fits_len(doc.len()) {
        return Err(Error::IndexOutOfRange);
    }
    if crate::single_op::apply(&mut doc1, op1).is_err() {
        return Err(Error::IndexOutOfRange);
    }
    if crate::single_op::apply(&mut doc2, op2).is_err() {
        return Err(Error::IndexOutOfRange);
    }
    let op2_over_1 = crate::single_op::transform(op2, op1, crate::single_op::Side::Right);
    let op1_over_2 = crate::single_op::transform(op1, op2, crate::single_op::Side::Left);
    let op3_over_1 = crate::single_op::transform(op3, op1, crate::single_op::Side::Right);
    let op3_over_2 = crate::single_op::transform(op3, op2, crate::single_op::Side::Right);
    proof {
        crate::single_op::lemma_rebased_fits(doc@, *op2, *op1, crate::single_op::Side::Right);
        crate::single_op::lemma_rebased_fits(doc@, *op1, *op2, crate::single_op::Side::Left);
        crate::single_op::lemma_rebased_fits(doc@, *op3, *op1, crate::single_op::Side::Right);
        crate::single_op::lemma_rebased_fits(doc@, *op3, *op2, crate::single_op::Side::Right);
    }
    let op3_over_1_2 = crate::single_op::transform(
        &op3_over_1,
        &op2_over_1,
        crate::single_op::Side::Right,
    );
    let op3_over_2_1 = crate::single_op::transform(
        &op3_over_2,
        &op1_over_2,
        crate::single_op::Side::Right,
    );
    proof {
        crate::single_op::lemma_rebased_fits(
            op1.applied(doc@),
            op3_over_1,
            op2_over_1,
            crate::single_op::Side::Right,
        );
        crate::single_op::lemma_rebased_fits(
            op2.applied(doc@),
            op3_over_2,
            op1_over_2,
            crate::single_op::Side::Right,
        );
    }
    let _ = crate::single_op::apply(&mut doc1, &op2_over_1);
    let _ = crate::single_op::apply(&mut doc1, &op3_over_1_2);
    let _ = crate::single_op::apply(&mut doc2, &op1_over_2);
    let _ = crate::single_op::apply(&mut doc2, &op3_over_2_1);
    Ok(same_bytes(&doc1, &doc2))
}

} // verus!
