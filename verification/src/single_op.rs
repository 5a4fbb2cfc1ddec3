//! The single-unit model with an observed-delete count on insertions.
//!
//! An insertion carries the number of deletions before its position that
//! it has been rebased over. Two insertions are ordered by position plus
//! that count, so that an insertion keeps its rank among the others when
//! deletions in front of it pull its position down.

use crate::Error;
use vstd::prelude::*;

verus! {

/// An edit of one element.
#[derive(PartialEq, Eq, Structural, Debug, Clone, Copy)]
pub enum Op {
    /// Put a byte at a position: the position, the observed-delete count,
    /// the byte.
    Insert(usize, usize, u8),
    /// Take out the byte at a position.
    Delete(usize),
    /// Leave the document alone.
    Noop,
}

/// Which of two insertions of equal rank comes first: the one on the
/// `Left`.
#[derive(PartialEq, Eq, Structural, Debug, Clone, Copy)]
pub enum Side {
    Left,
    Right,
}

impl Op {
    /// The operation's offset lies inside a document of `len` bytes.
    pub open spec fn fits(self, len: nat) -> bool {
        match self {
            Op::Insert(p, _, _) => p <= len,
            Op::Delete(p) => p < len,
            Op::Noop => true,
        }
    }

    /// The document after the operation. The observed-delete count has no
    /// part in it.
    pub open spec fn applied(self, doc: Seq<u8>) -> Seq<u8> {
        match self {
            Op::Insert(p, _, c) => doc.insert(p as int, c),
            Op::Delete(p) => doc.remove(p as int),
            Op::Noop => doc,
        }
    }

    /// The offset the operation speaks of; 0 for `Noop`.
    pub open spec fn position(self) -> int {
        match self {
            Op::Insert(p, _, _) => p as int,
            Op::Delete(p) => p as int,
            Op::Noop => 0,
        }
    }

    /// The observed-delete count of an insertion; 0 for the others.
    pub open spec fn observed(self) -> int {
        match self {
            Op::Insert(_, n, _) => n as int,
            _ => 0,
        }
    }

    /// The rank by which insertions are ordered: position plus observed
    /// deletions.
    pub open spec fn rank(self) -> int {
        self.position() + self.observed()
    }
}

impl Op {
    /// Tells whether the operation's offset lies inside a document of
    /// `len` bytes.
    pub fn fits_len(&self, len: usize) -> (r: bool)
        ensures
            r == self.fits(len as nat),
    {
        match *self {
            Op::Insert(p, _, _) => p <= len,
            Op::Delete(p) => p < len,
            Op::Noop => true,
        }
    }
}

/// Both operations delete the same element.
pub open spec fn absorbed(op1: Op, op2: Op) -> bool {
    op1 is Delete && op2 is Delete && op1.position() == op2.position()
}

/// By how much `op2` moves the offset of `op1`.
pub open spec fn shift(op1: Op, op2: Op, side: Side) -> int {
    let p1 = op1.position();
    let p2 = op2.position();
    match (op1, op2) {
        (Op::Insert(..), Op::Insert(..)) => if op2.rank() < op1.rank() || (op2.rank() == op1.rank()
            && side == Side::Right) {
            1
        } else {
            0
        },
        (Op::Insert(..), Op::Delete(_)) => if p2 < p1 {
            -1
        } else {
            0
        },
        (Op::Delete(_), Op::Insert(..)) => if p2 <= p1 {
            1
        } else {
            0
        },
        (Op::Delete(_), Op::Delete(_)) => if p2 < p1 {
            -1
        } else {
            0
        },
        _ => 0,
    }
}

/// How many more deletions `op1` has observed once it is rebased over
/// `op2`: one, where `op1` inserts behind the element that `op2` deletes.
pub open spec fn newly_observed(op1: Op, op2: Op) -> int {
    if op1 is Insert && op2 is Delete && op2.position() < op1.position() {
        1
    } else {
        0
    }
}

/// The rebased offset and count of `op1` are ones that a `usize` can hold.
pub open spec fn rebase_fits(op1: Op, op2: Op, side: Side) -> bool {
    &&& op1.position() + shift(op1, op2, side) <= usize::MAX
    &&& op1.observed() + newly_observed(op1, op2) <= usize::MAX
}

/// `op1` as it reads on the document that `op2` has already changed.
pub open spec fn rebased(op1: Op, op2: Op, side: Side) -> Op {
    let p = (op1.position() + shift(op1, op2, side)) as usize;
    let n = (op1.observed() + newly_observed(op1, op2)) as usize;
    match op1 {
        Op::Insert(_, _, c) => Op::Insert(p, n, c),
        Op::Delete(_) => if absorbed(op1, op2) {
            Op::Noop
        } else {
            Op::Delete(p)
        },
        Op::Noop => Op::Noop,
    }
}

/// Where both operations insert, their ranks stand in the order of their
/// positions. It holds of any two operations with equal counts.
pub open spec fn ranks_follow_positions(op1: Op, op2: Op) -> bool {
    op1 is Insert && op2 is Insert ==> {
        &&& (op1.rank() < op2.rank() <==> op1.position() < op2.position())
        &&& (op1.rank() == op2.rank() <==> op1.position() == op2.position())
    }
}

/// Applies `op` to `doc`, or refuses it and leaves `doc` as it was when the
/// offset lies outside the document.
pub fn apply(doc: &mut Vec<u8>, op: &Op) -> (r: Result<(), Error>)
    ensures
        op.fits(old(doc)@.len()) ==> r is Ok && final(doc)@ == op.applied(old(doc)@),
        !op.fits(old(doc)@.len()) ==> r == Err::<(), Error>(Error::IndexOutOfRange)
            && final(doc)@ == old(doc)@,
{
    if !op.fits_len(doc.len()) {
        return Err(Error::IndexOutOfRange);
    }
    match *op {
        Op::Insert(index, _, c) => {
            doc.insert(index, c);
        },
        Op::Delete(index) => {
            doc.remove(index);
        },
        Op::Noop => {},
    }
    Ok(())
}

/// Takes two operations made on the same document and returns `op1` as it
/// must read to be applied after `op2`.
pub fn transform(op1: &Op, op2: &Op, side: Side) -> (r: Op)
    requires
        rebase_fits(*op1, *op2, side),
    ensures
        r == rebased(*op1, *op2, side),
{
    match *op1 {
        Op::Insert(index, num_deletes, c) => {
            let mut num_deletes: usize = num_deletes;
            let new_index: usize = match *op2 {
                Op::Insert(index2, num_deletes_2, _) => {
                    let rank: u128 = index as u128 + num_deletes as u128;
                    let rank2: u128 = index2 as u128 + num_deletes_2 as u128;
                    if rank2 < rank {
                        index + 1
                    } else if rank2 == rank {
                        match side {
                            Side::Left => index,
                            Side::Right => index + 1,
                        }
                    } else {
                        index
                    }
                },
                Op::Delete(index2) => {
                    if index2 < index {
                        num_deletes = num_deletes + 1;
                        index - 1
                    } else {
                        index
                    }
                },
                Op::Noop => index,
            };
            Op::Insert(new_index, num_deletes, c)
        },
        Op::Delete(index) => {
            let new_index: usize = match *op2 {
                Op::Insert(index2, _, _) => {
                    if index2 <= index {
                        index + 1
                    } else {
                        index
                    }
                },
                Op::Delete(index2) => {
                    if index2 < index {
                        index - 1
                    } else if index2 == index {
                        return Op::Noop;
                    } else {
                        index
                    }
                },
                Op::Noop => index,
            };
            Op::Delete(new_index)
        },
        Op::Noop => Op::Noop,
    }
}

/// Deleting at the place of an insertion undoes it.
pub proof fn lemma_insert_then_delete(doc: Seq<u8>, i: usize, n: usize, c: u8)
    requires
        Op::Insert(i, n, c).fits(doc.len()),
    ensures
        Op::Delete(i).fits(Op::Insert(i, n, c).applied(doc).len()),
        Op::Delete(i).applied(Op::Insert(i, n, c).applied(doc)) == doc,
{
    assert(doc.insert(i as int, c).remove(i as int) =~= doc);
}

/// Two deletions of the same element collapse: the second has nothing left
/// to do, whichever side it is on.
pub proof fn lemma_double_delete(p: usize, side: Side)
    ensures
        rebase_fits(Op::Delete(p), Op::Delete(p), side),
        rebased(Op::Delete(p), Op::Delete(p), side) == Op::Noop,
{
}

/// `Noop` stays `Noop` over any operation, and no operation is changed by
/// a `Noop`.
pub proof fn lemma_noop_identity(op: Op, side: Side)
    ensures
        rebase_fits(Op::Noop, op, side),
        rebased(Op::Noop, op, side) == Op::Noop,
        rebase_fits(op, Op::Noop, side),
        rebased(op, Op::Noop, side) == op,
{
}

/// A rebased operation fits the document that the other operation left.
pub proof fn lemma_rebased_fits(doc: Seq<u8>, op1: Op, op2: Op, side: Side)
    requires
        op1.fits(doc.len()),
        op2.fits(doc.len()),
        rebase_fits(op1, op2, side),
    ensures
        rebased(op1, op2, side).fits(op2.applied(doc).len()),
{
}

/// Pairwise convergence: two operations made on one document, each
/// rebased over the other and applied after it, leave the same bytes,
/// provided that two insertions rank as their positions do.
pub proof fn lemma_convergence(doc: Seq<u8>, op1: Op, op2: Op)
    requires
        op1.fits(doc.len()),
        op2.fits(doc.len()),
        rebase_fits(op1, op2, Side::Left),
        rebase_fits(op2, op1, Side::Right),
        ranks_follow_positions(op1, op2),
    ensures
        rebased(op2, op1, Side::Right).applied(op1.applied(doc)) == rebased(
            op1,
            op2,
            Side::Left,
        ).applied(op2.applied(doc)),
{
    let p1 = op1.position();
    let p2 = op2.position();
    match (op1, op2) {
        (Op::Insert(_, _, c1), Op::Insert(_, _, c2)) => {
            if p1 < p2 {
                crate::commute::lemma_insert_insert(doc, p1, c1, p2, c2);
            } else {
                crate::commute::lemma_insert_insert(doc, p2, c2, p1, c1);
            }
        },
        (Op::Insert(_, _, c1), Op::Delete(_)) => {
            if p1 <= p2 {
                crate::commute::lemma_insert_remove(doc, p1, c1, p2);
            } else {
                crate::commute::lemma_remove_insert(doc, p2, p1, c1);
            }
        },
        (Op::Delete(_), Op::Insert(_, _, c2)) => {
            if p2 <= p1 {
                crate::commute::lemma_insert_remove(doc, p2, c2, p1);
            } else {
                crate::commute::lemma_remove_insert(doc, p1, p2, c2);
            }
        },
        (Op::Delete(_), Op::Delete(_)) => {
            if p1 < p2 {
                crate::commute::lemma_remove_remove(doc, p1, p2);
            } else if p2 < p1 {
                crate::commute::lemma_remove_remove(doc, p2, p1);
            }
        },
        _ => {},
    }
}

} // verus!
