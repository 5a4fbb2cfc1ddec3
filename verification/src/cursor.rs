//! A chunked operation read as edits in place, with a cursor that moves
//! through the document.

use crate::composite_op::{applied, fits, StepModel};
use vstd::prelude::*;

verus! {

/// The document after the steps are made in place, one after the other,
/// from `cursor` on: a skip moves the cursor, an insertion puts its chunk
/// at the cursor and moves behind it, a deletion takes its bytes out at
/// the cursor and leaves the cursor where it is.
pub open spec fn walked(op: Seq<StepModel>, doc: Seq<u8>, cursor: int) -> Seq<u8>
    decreases op.len(),
{
    if op.len() == 0 {
        doc
    } else {
        match op[0] {
            StepModel::Skip(n) => walked(op.drop_first(), doc, cursor + n),
            StepModel::Insert(c) => walked(
                op.drop_first(),
                doc.take(cursor) + c + doc.skip(cursor),
                cursor + c.len(),
            ),
            StepModel::Delete(n) => walked(
                op.drop_first(),
                doc.take(cursor) + doc.skip(cursor + n),
                cursor,
            ),
        }
    }
}

/// Edits in place leave what stood in front of the cursor and make of the
/// rest what the operation makes of it.
pub proof fn lemma_walked_from(op: Seq<StepModel>, doc: Seq<u8>, cursor: int)
    requires
        0 <= cursor <= doc.len(),
        fits(op, (doc.len() - cursor) as nat),
    ensures
        walked(op, doc, cursor) == doc.take(cursor) + applied(op, doc.skip(cursor)),
    decreases op.len(),
{
    let rest = doc.skip(cursor);
    if op.len() == 0 {
        assert(doc =~= doc.take(cursor) + rest);
    } else {
        let tail = op.drop_first();
        match op[0] {
            StepModel::Skip(n) => {
                lemma_walked_from(tail, doc, cursor + n);
                assert(rest.skip(n as int) =~= doc.skip(cursor + n));
                assert(doc.take(cursor + n) + applied(tail, doc.skip(cursor + n)) =~= doc.take(
                    cursor,
                ) + (rest.take(n as int) + applied(tail, doc.skip(cursor + n))));
            },
            StepModel::Insert(c) => {
                let next = doc.take(cursor) + c + rest;
                lemma_walked_from(tail, next, cursor + c.len());
                assert(next.skip(cursor + c.len()) =~= rest);
                assert(next.take(cursor + c.len()) + applied(tail, rest) =~= doc.take(cursor) + (c
                    + applied(tail, rest)));
            },
            StepModel::Delete(n) => {
                let next = doc.take(cursor) + doc.skip(cursor + n);
                lemma_walked_from(tail, next, cursor);
                assert(next.skip(cursor) =~= rest.skip(n as int));
                assert(next.take(cursor) =~= doc.take(cursor));
            },
        }
    }
}

/// What `apply` leaves is the document edited in place from its start.
pub proof fn lemma_walked(op: Seq<StepModel>, doc: Seq<u8>)
    requires
        fits(op, doc.len()),
    ensures
        walked(op, doc, 0) == applied(op, doc),
{
    lemma_walked_from(op, doc, 0);
    assert(doc.skip(0) =~= doc);
    assert(doc.take(0) + applied(op, doc) =~= applied(op, doc));
}

} // verus!
