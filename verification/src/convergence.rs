//! Why two chunked operations converge.
//!
//! An operation is taken apart into the bytes it has written when its last
//! step is done and the number of bytes of the old document it has then
//! used. Compaction changes neither; the walk of two operations side by
//! side is followed stretch by stretch.

use crate::composite_op::{
    applied, chunk_of, compacted, fits, joined, mergeable, merged, paired, rebased,
    rebased_steps, shortened, trimmed, Side, StepModel,
};
use vstd::prelude::*;

verus! {

/// How many bytes of the old document the steps pass over or delete.
pub open spec fn used(op: Seq<StepModel>) -> nat
    decreases op.len(),
{
    if op.len() == 0 {
        0
    } else {
        op[0].span() + used(op.drop_first())
    }
}

/// The bytes that stand in front of the cursor when the last step is done.
pub open spec fn produced(op: Seq<StepModel>, doc: Seq<u8>) -> Seq<u8>
    decreases op.len(),
{
    if op.len() == 0 {
        Seq::empty()
    } else {
        match op[0] {
            StepModel::Skip(n) => doc.take(n as int) + produced(op.drop_first(), doc.skip(n as int)),
            StepModel::Insert(c) => c + produced(op.drop_first(), doc),
            StepModel::Delete(n) => produced(op.drop_first(), doc.skip(n as int)),
        }
    }
}

/// What one step writes when the cursor stands at `at` in the old
/// document.
pub open spec fn piece(s: StepModel, doc: Seq<u8>, at: int) -> Seq<u8> {
    match s {
        StepModel::Skip(n) => doc.subrange(at, at + n),
        StepModel::Insert(c) => c,
        StepModel::Delete(_) => Seq::empty(),
    }
}

/// An operation fits a document exactly when it uses no more bytes than
/// the document has.
pub proof fn lemma_fits_used(op: Seq<StepModel>, len: nat)
    ensures
        fits(op, len) == (used(op) <= len),
    decreases op.len(),
{
    if op.len() > 0 && op[0].span() <= len {
        lemma_fits_used(op.drop_first(), (len - op[0].span()) as nat);
    }
}

/// The document after an operation is what the operation wrote, and behind
/// it what the operation did not reach.
pub proof fn lemma_applied_split(op: Seq<StepModel>, doc: Seq<u8>)
    requires
        used(op) <= doc.len(),
    ensures
        applied(op, doc) == produced(op, doc) + doc.skip(used(op) as int),
    decreases op.len(),
{
    if op.len() == 0 {
        assert(doc =~= Seq::<u8>::empty() + doc.skip(0));
    } else {
        let tail = op.drop_first();
        let u = used(tail) as int;
        match op[0] {
            StepModel::Skip(n) => {
                lemma_applied_split(tail, doc.skip(n as int));
                assert(doc.skip(n as int).skip(u) =~= doc.skip(n + u));
                assert(doc.take(n as int) + (produced(tail, doc.skip(n as int)) + doc.skip(n + u))
                    =~= (doc.take(n as int) + produced(tail, doc.skip(n as int))) + doc.skip(
                    n + u,
                ));
            },
            StepModel::Insert(c) => {
                lemma_applied_split(tail, doc);
                assert(c + (produced(tail, doc) + doc.skip(u)) =~= (c + produced(tail, doc))
                    + doc.skip(u));
            },
            StepModel::Delete(n) => {
                lemma_applied_split(tail, doc.skip(n as int));
                assert(doc.skip(n as int).skip(u) =~= doc.skip(n + u));
            },
        }
    }
}

/// A step put behind an operation writes its piece behind what the
/// operation wrote.
pub proof fn lemma_push(op: Seq<StepModel>, s: StepModel, doc: Seq<u8>)
    requires
        used(op) + s.span() <= doc.len(),
    ensures
        used(op.push(s)) == used(op) + s.span(),
        produced(op.push(s), doc) == produced(op, doc) + piece(s, doc, used(op) as int),
    decreases op.len(),
{
    let longer = op.push(s);
    if op.len() == 0 {
        assert(longer.drop_first() =~= Seq::<StepModel>::empty());
        assert(longer[0] == s);
        assert(used(longer.drop_first()) == 0);
        assert(produced(longer.drop_first(), doc) =~= Seq::<u8>::empty());
        match s {
            StepModel::Skip(n) => {
                assert(produced(longer.drop_first(), doc.skip(n as int)) =~= Seq::<u8>::empty());
                assert(doc.take(n as int) + Seq::<u8>::empty() =~= Seq::<u8>::empty()
                    + doc.subrange(0, n as int));
            },
            StepModel::Insert(c) => {
                assert(c + Seq::<u8>::empty() =~= Seq::<u8>::empty() + c);
            },
            StepModel::Delete(n) => {
                assert(produced(longer.drop_first(), doc.skip(n as int)) =~= Seq::<u8>::empty());
                assert(Seq::<u8>::empty() =~= Seq::<u8>::empty() + Seq::<u8>::empty());
            },
        }
    } else {
        let tail = op.drop_first();
        let u = used(tail) as int;
        assert(longer.drop_first() =~= tail.push(s));
        assert(longer[0] == op[0]);
        match op[0] {
            StepModel::Skip(n) => {
                let rest = doc.skip(n as int);
                lemma_push(tail, s, rest);
                assert(piece(s, rest, u) =~= piece(s, doc, n + u));
                assert(doc.take(n as int) + (produced(tail, rest) + piece(s, rest, u)) =~= (
                doc.take(n as int) + produced(tail, rest)) + piece(s, doc, n + u));
            },
            StepModel::Insert(c) => {
                lemma_push(tail, s, doc);
                assert(c + (produced(tail, doc) + piece(s, doc, u)) =~= (c + produced(tail, doc))
                    + piece(s, doc, u));
            },
            StepModel::Delete(n) => {
                let rest = doc.skip(n as int);
                lemma_push(tail, s, rest);
                assert(piece(s, rest, u) =~= piece(s, doc, n + u));
            },
        }
    }
}

/// Joining a step to an operation writes what putting it behind would.
pub proof fn lemma_joined(acc: Seq<StepModel>, s: StepModel, doc: Seq<u8>)
    requires
        used(acc) + s.span() <= doc.len(),
    ensures
        used(joined(acc, s)) == used(acc) + s.span(),
        produced(joined(acc, s), doc) == produced(acc, doc) + piece(s, doc, used(acc) as int),
{
    if s.is_idle() {
        assert(piece(s, doc, used(acc) as int) =~= Seq::<u8>::empty());
        assert(produced(acc, doc) =~= produced(acc, doc) + Seq::<u8>::empty());
    } else if acc.len() > 0 && mergeable(acc.last(), s) {
        let front = acc.drop_last();
        let last = acc.last();
        let u = used(front) as int;
        assert(acc =~= front.push(last));
        lemma_used_front(front, last);
        lemma_push(front, last, doc);
        lemma_push(front, merged(last, s), doc);
        assert(piece(merged(last, s), doc, u) =~= piece(last, doc, u) + piece(
            s,
            doc,
            u + last.span(),
        ));
        assert(produced(front, doc) + (piece(last, doc, u) + piece(s, doc, u + last.span()))
            =~= (produced(front, doc) + piece(last, doc, u)) + piece(s, doc, u + last.span()));
    } else {
        lemma_push(acc, s, doc);
    }
}

/// The bytes used add up over a step put behind.
pub proof fn lemma_used_front(op: Seq<StepModel>, s: StepModel)
    ensures
        used(op.push(s)) == used(op) + s.span(),
    decreases op.len(),
{
    let longer = op.push(s);
    if op.len() == 0 {
        assert(longer.drop_first() =~= Seq::<StepModel>::empty());
        assert(used(longer.drop_first()) == 0);
    } else {
        assert(longer.drop_first() =~= op.drop_first().push(s));
        lemma_used_front(op.drop_first(), s);
    }
}

/// Compaction changes neither what an operation writes nor how much of
/// the old document it uses.
pub proof fn lemma_compacted(raw: Seq<StepModel>, doc: Seq<u8>)
    requires
        used(raw) <= doc.len(),
    ensures
        used(compacted(raw)) == used(raw),
        produced(compacted(raw), doc) == produced(raw, doc),
    decreases raw.len(),
{
    if raw.len() > 0 {
        let front = raw.drop_last();
        let last = raw.last();
        assert(raw =~= front.push(last));
        lemma_used_front(front, last);
        lemma_push(front, last, doc);
        lemma_compacted(front, doc);
        lemma_joined(compacted(front), last, doc);
    }
}

/// Skips at the end of an operation can go: the document after it is the
/// same.
pub proof fn lemma_trimmed(op: Seq<StepModel>, doc: Seq<u8>)
    requires
        used(op) <= doc.len(),
    ensures
        used(trimmed(op)) <= used(op),
        applied(trimmed(op), doc) == applied(op, doc),
    decreases op.len(),
{
    if op.len() > 0 && op.last() is Skip {
        let front = op.drop_last();
        let last = op.last();
        let u = used(front) as int;
        assert(op =~= front.push(last));
        lemma_used_front(front, last);
        lemma_push(front, last, doc);
        lemma_applied_split(op, doc);
        lemma_applied_split(front, doc);
        assert((produced(front, doc) + doc.subrange(u, u + last.span())) + doc.skip(
            u + last.span(),
        ) =~= produced(front, doc) + doc.skip(u));
        lemma_trimmed(front, doc);
    }
}

/// The compact form of an operation fits where the operation fits and
/// leaves the same document.
pub proof fn lemma_compact_form(raw: Seq<StepModel>, doc: Seq<u8>)
    requires
        fits(raw, doc.len()),
    ensures
        fits(trimmed(compacted(raw)), doc.len()),
        applied(trimmed(compacted(raw)), doc) == applied(raw, doc),
{
    lemma_fits_used(raw, doc.len());
    lemma_compacted(raw, doc);
    lemma_trimmed(compacted(raw), doc);
    lemma_fits_used(trimmed(compacted(raw)), doc.len());
    lemma_applied_split(compacted(raw), doc);
    lemma_applied_split(raw, doc);
}

/// What a step in front of an operation does to a document.
pub proof fn lemma_cons(s: StepModel, rest: Seq<StepModel>, doc: Seq<u8>)
    ensures
        fits(seq![s] + rest, doc.len()) == (s.span() <= doc.len() && fits(
            rest,
            (doc.len() - s.span()) as nat,
        )),
        applied(seq![s] + rest, doc) == match s {
            StepModel::Skip(n) => doc.take(n as int) + applied(rest, doc.skip(n as int)),
            StepModel::Insert(c) => c + applied(rest, doc),
            StepModel::Delete(n) => applied(rest, doc.skip(n as int)),
        },
{
    let op = seq![s] + rest;
    assert(op[0] == s);
    assert(op.drop_first() =~= rest);
}

/// Taking `k` bytes off the first step of an operation leaves an
/// operation for the document behind those bytes; the bytes themselves
/// stay in front where the step skips them.
pub proof fn lemma_shortened(op: Seq<StepModel>, k: nat, doc: Seq<u8>)
    requires
        op.len() > 0,
        !(op[0] is Insert),
        k <= op[0].span(),
        fits(op, doc.len()),
    ensures
        k <= doc.len(),
        fits(shortened(op, k), (doc.len() - k) as nat),
        applied(op, doc) == (if op[0] is Skip {
            doc.take(k as int)
        } else {
            Seq::<u8>::empty()
        }) + applied(shortened(op, k), doc.skip(k as int)),
{
    let n = op[0].span();
    let tail = op.drop_first();
    let short = shortened(op, k);
    let rest = doc.skip(k as int);
    if n == k {
        if op[0] is Delete {
            assert(applied(op, doc) =~= Seq::<u8>::empty() + applied(short, rest));
        }
    } else {
        assert(short[0] == op[0].with_span((n - k) as nat));
        assert(short.drop_first() =~= tail);
        assert(rest.skip(n - k) =~= doc.skip(n as int));
        if op[0] is Skip {
            assert(doc.take(n as int) =~= doc.take(k as int) + rest.take(n - k));
            assert(doc.take(n as int) + applied(tail, doc.skip(n as int)) =~= doc.take(k as int)
                + (rest.take(n - k) + applied(tail, doc.skip(n as int))));
        } else {
            assert(applied(op, doc) =~= Seq::<u8>::empty() + applied(short, rest));
        }
    }
}

/// One side inserts `c` first; the other side skips over it. Where the
/// rest of the two walks agrees, the whole does.
pub proof fn lemma_insert_first(
    c: Seq<u8>,
    kept: Seq<StepModel>,
    over: Seq<StepModel>,
    after_mine: Seq<u8>,
    after_other: Seq<u8>,
)
    requires
        fits(kept, after_other.len()),
        fits(over, after_mine.len()),
        applied(over, after_mine) == applied(kept, after_other),
    ensures
        fits(seq![StepModel::Insert(c)] + kept, after_other.len()),
        fits(seq![StepModel::Skip(c.len())] + over, (c + after_mine).len()),
        applied(seq![StepModel::Skip(c.len())] + over, c + after_mine) == applied(
            seq![StepModel::Insert(c)] + kept,
            after_other,
        ),
{
    let whole = c + after_mine;
    lemma_cons(StepModel::Insert(c), kept, after_other);
    lemma_cons(StepModel::Skip(c.len()), over, whole);
    assert(whole.take(c.len() as int) =~= c);
    assert(whole.skip(c.len() as int) =~= after_mine);
}

/// What a step leaves in front of the cursor over a stretch `kept` of the
/// document: the stretch where it skips, nothing where it deletes.
pub open spec fn front(s: StepModel, kept: Seq<u8>) -> Seq<u8> {
    if s is Skip {
        kept
    } else {
        Seq::empty()
    }
}

/// Over a stretch that both operations cover with one step each, the
/// paired steps agree where the rest of the two walks agrees.
pub proof fn lemma_stretch(
    a0: StepModel,
    b0: StepModel,
    kept: Seq<u8>,
    x1: Seq<StepModel>,
    y1: Seq<StepModel>,
    after_a1: Seq<u8>,
    after_b1: Seq<u8>,
)
    requires
        !(a0 is Insert),
        !(b0 is Insert),
        fits(x1, after_b1.len()),
        fits(y1, after_a1.len()),
        applied(y1, after_a1) == applied(x1, after_b1),
    ensures
        fits(seq![paired(a0, b0, kept.len())] + x1, (front(b0, kept) + after_b1).len()),
        fits(seq![paired(b0, a0, kept.len())] + y1, (front(a0, kept) + after_a1).len()),
        applied(seq![paired(b0, a0, kept.len())] + y1, front(a0, kept) + after_a1) == applied(
            seq![paired(a0, b0, kept.len())] + x1,
            front(b0, kept) + after_b1,
        ),
{
    let k = kept.len();
    let after_a = front(a0, kept) + after_a1;
    let after_b = front(b0, kept) + after_b1;
    lemma_cons(paired(a0, b0, k), x1, after_b);
    lemma_cons(paired(b0, a0, k), y1, after_a);
    lemma_half_stretch(a0, b0, kept, x1, after_b1);
    lemma_half_stretch(b0, a0, kept, y1, after_a1);
}

/// One side of a stretch: the paired step takes the cursor behind what
/// the other operation left of the stretch, and the stretch stays only
/// where both operations skip it.
pub proof fn lemma_half_stretch(
    a0: StepModel,
    b0: StepModel,
    kept: Seq<u8>,
    x1: Seq<StepModel>,
    after_b1: Seq<u8>,
)
    requires
        !(a0 is Insert),
        !(b0 is Insert),
        fits(x1, after_b1.len()),
    ensures
        fits(seq![paired(a0, b0, kept.len())] + x1, (front(b0, kept) + after_b1).len()),
        applied(seq![paired(a0, b0, kept.len())] + x1, front(b0, kept) + after_b1) == (if a0 is Skip
            && b0 is Skip {
            kept
        } else {
            Seq::<u8>::empty()
        }) + applied(x1, after_b1),
{
    let k = kept.len();
    let after_b = front(b0, kept) + after_b1;
    lemma_cons(paired(a0, b0, k), x1, after_b);
    if b0 is Skip {
        assert(after_b.take(k as int) =~= kept);
        assert(after_b.skip(k as int) =~= after_b1);
        if a0 is Delete {
            assert(applied(x1, after_b1) =~= Seq::<u8>::empty() + applied(x1, after_b1));
        }
    } else {
        assert(after_b =~= after_b1);
        assert(after_b.skip(0) =~= after_b1);
        assert(after_b.take(0) =~= Seq::<u8>::empty());
    }
}

/// Two operations made on one document, each walked over the other,
/// leave the same bytes when applied one after the other.
pub proof fn lemma_steps_converge(doc: Seq<u8>, a: Seq<StepModel>, b: Seq<StepModel>)
    requires
        fits(a, doc.len()),
        fits(b, doc.len()),
    ensures
        fits(rebased_steps(a, b, Side::Left), applied(b, doc).len()),
        fits(rebased_steps(b, a, Side::Right), applied(a, doc).len()),
        applied(rebased_steps(b, a, Side::Right), applied(a, doc)) == applied(
            rebased_steps(a, b, Side::Left),
            applied(b, doc),
        ),
    decreases a.len() + b.len(),
{
    if a.len() == 0 || b.len() == 0 {
    } else if a[0] is Insert {
        let a1 = a.drop_first();
        lemma_steps_converge(doc, a1, b);
        lemma_insert_first(
            chunk_of(a[0]),
            rebased_steps(a1, b, Side::Left),
            rebased_steps(b, a1, Side::Right),
            applied(a1, doc),
            applied(b, doc),
        );
    } else if b[0] is Insert {
        let b1 = b.drop_first();
        lemma_steps_converge(doc, a, b1);
        lemma_insert_first(
            chunk_of(b[0]),
            rebased_steps(b1, a, Side::Right),
            rebased_steps(a, b1, Side::Left),
            applied(b1, doc),
            applied(a, doc),
        );
    } else {
        let k = if a[0].span() <= b[0].span() {
            a[0].span()
        } else {
            b[0].span()
        };
        let a1 = shortened(a, k);
        let b1 = shortened(b, k);
        let rest = doc.skip(k as int);
        lemma_shortened(a, k, doc);
        lemma_shortened(b, k, doc);
        lemma_steps_converge(rest, a1, b1);
        lemma_stretch(
            a[0],
            b[0],
            doc.take(k as int),
            rebased_steps(a1, b1, Side::Left),
            rebased_steps(b1, a1, Side::Right),
            applied(a1, rest),
            applied(b1, rest),
        );
    }
}

/// Pairwise convergence: two operations made on one document, each
/// rebased over the other and applied after it, leave the same bytes; and
/// each rebased operation fits the document that the other one left.
pub proof fn lemma_convergence(doc: Seq<u8>, a: Seq<StepModel>, b: Seq<StepModel>)
    requires
        fits(a, doc.len()),
        fits(b, doc.len()),
    ensures
        fits(rebased(a, b, Side::Left), applied(b, doc).len()),
        fits(rebased(b, a, Side::Right), applied(a, doc).len()),
        applied(rebased(b, a, Side::Right), applied(a, doc)) == applied(
            rebased(a, b, Side::Left),
            applied(b, doc),
        ),
{
    lemma_steps_converge(doc, a, b);
    lemma_compact_form(rebased_steps(a, b, Side::Left), applied(b, doc));
    lemma_compact_form(rebased_steps(b, a, Side::Right), applied(a, doc));
}

/// Nothing rebased over any operation stays nothing, and an operation
/// rebased over nothing is its own compact form.
pub proof fn lemma_empty_identity(op: Seq<StepModel>, side: Side)
    ensures
        rebased(Seq::<StepModel>::empty(), op, side) == Seq::<StepModel>::empty(),
        rebased(op, Seq::<StepModel>::empty(), side) == trimmed(compacted(op)),
{
    let none = Seq::<StepModel>::empty();
    assert(rebased_steps(none, op, side) =~= none);
    assert(compacted(none) =~= none);
    assert(rebased_steps(op, none, side) =~= op);
}

} // verus!
