//! The chunked model: an operation is a sequence of steps that a cursor
//! walks over the document from its start.
//!
//! `Skip(n)` passes over `n` bytes, `Insert(chunk)` puts `chunk` at the
//! cursor and moves behind it, `Delete(n)` takes out the `n` bytes at the
//! cursor. What lies behind the last step stays as it is.

use crate::Error;
use vstd::prelude::*;

verus! {

/// One step of a chunked operation.
#[derive(PartialEq, Eq, Debug)]
pub enum Step {
    /// Pass over that many bytes.
    Skip(usize),
    /// Put these bytes at the cursor.
    Insert(Vec<u8>),
    /// Take out that many bytes at the cursor.
    Delete(usize),
}

/// Which of two insertions at one offset comes first: the one on the
/// `Left`.
#[derive(PartialEq, Eq, Structural, Debug, Clone, Copy)]
pub enum Side {
    Left,
    Right,
}

/// What a step is in contracts: lengths as numbers, a chunk as its bytes.
pub enum StepModel {
    Skip(nat),
    Insert(Seq<u8>),
    Delete(nat),
}

impl StepModel {
    /// How many bytes of the document it was made for the step uses up.
    pub open spec fn span(self) -> nat {
        match self {
            StepModel::Skip(n) => n,
            StepModel::Insert(_) => 0,
            StepModel::Delete(n) => n,
        }
    }

    /// The step cut down to `n` bytes of the document; an insertion is
    /// never cut.
    pub open spec fn with_span(self, n: nat) -> StepModel {
        match self {
            StepModel::Skip(_) => StepModel::Skip(n),
            StepModel::Insert(c) => StepModel::Insert(c),
            StepModel::Delete(_) => StepModel::Delete(n),
        }
    }

    /// The step changes nothing and moves nowhere.
    pub open spec fn is_idle(self) -> bool {
        match self {
            StepModel::Skip(n) => n == 0,
            StepModel::Insert(c) => c.len() == 0,
            StepModel::Delete(n) => n == 0,
        }
    }
}

impl View for Step {
    type V = StepModel;

    open spec fn view(&self) -> StepModel {
        match *self {
            Step::Skip(n) => StepModel::Skip(n as nat),
            Step::Insert(c) => StepModel::Insert(c@),
            Step::Delete(n) => StepModel::Delete(n as nat),
        }
    }
}

/// The operation that a sequence of steps stands for.
pub open spec fn model(op: Seq<Step>) -> Seq<StepModel> {
    op.map_values(|s: Step| s@)
}

/// No step reaches past the end of a document of `len` bytes.
pub open spec fn fits(op: Seq<StepModel>, len: nat) -> bool
    decreases op.len(),
{
    if op.len() == 0 {
        true
    } else {
        op[0].span() <= len && fits(op.drop_first(), (len - op[0].span()) as nat)
    }
}

/// The document after the operation, where `doc` is what lies behind the
/// cursor: a skip keeps its bytes in front, an insertion puts its chunk
/// in front, a deletion drops its bytes, and behind the last step all
/// stays as it is.
pub open spec fn applied(op: Seq<StepModel>, doc: Seq<u8>) -> Seq<u8>
    decreases op.len(),
{
    if op.len() == 0 {
        doc
    } else {
        match op[0] {
            StepModel::Skip(n) => doc.take(n as int) + applied(op.drop_first(), doc.skip(n as int)),
            StepModel::Insert(c) => c + applied(op.drop_first(), doc),
            StepModel::Delete(n) => applied(op.drop_first(), doc.skip(n as int)),
        }
    }
}

/// Some document is long enough for the operation.
pub open spec fn well_formed(op: Seq<StepModel>) -> bool {
    fits(op, usize::MAX as nat)
}

/// `op` with `k` bytes taken off its first step; a first step that is
/// used up is dropped.
pub open spec fn shortened(op: Seq<StepModel>, k: nat) -> Seq<StepModel> {
    if op[0].span() == k {
        op.drop_first()
    } else {
        op.update(0, op[0].with_span((op[0].span() - k) as nat))
    }
}

/// What is left of step `a` over a stretch of `k` bytes that `b` covers:
/// skipped bytes that `b` kept are skipped, deleted bytes that `b` kept
/// are deleted, and over bytes that `b` deleted nothing is left to do.
pub open spec fn paired(a: StepModel, b: StepModel, k: nat) -> StepModel {
    match (a, b) {
        (StepModel::Skip(_), StepModel::Skip(_)) => StepModel::Skip(k),
        (StepModel::Delete(_), StepModel::Skip(_)) => StepModel::Delete(k),
        _ => StepModel::Skip(0),
    }
}

/// The bytes a step inserts; none for the other steps.
pub open spec fn chunk_of(s: StepModel) -> Seq<u8> {
    match s {
        StepModel::Insert(c) => c,
        _ => Seq::empty(),
    }
}

/// The steps of `a` rebased over `b`, one for each stretch on which both
/// operations keep to one step. The two are walked side by side by
/// document offset: an insertion of `a` is kept, an insertion of `b` is
/// skipped over, and where both insert at one offset the `Left` one comes
/// first. When `a` ends nothing is left; when `b` ends the rest of `a`
/// stands as it is.
pub open spec fn rebased_steps(a: Seq<StepModel>, b: Seq<StepModel>, side: Side) -> Seq<StepModel>
    decreases a.len() + b.len(),
{
    if a.len() == 0 {
        Seq::empty()
    } else if b.len() == 0 {
        a
    } else if a[0] is Insert && (!(b[0] is Insert) || side == Side::Left) {
        seq![a[0]] + rebased_steps(a.drop_first(), b, side)
    } else if b[0] is Insert {
        seq![StepModel::Skip(chunk_of(b[0]).len())] + rebased_steps(a, b.drop_first(), side)
    } else {
        let k = if a[0].span() <= b[0].span() {
            a[0].span()
        } else {
            b[0].span()
        };
        seq![paired(a[0], b[0], k)] + rebased_steps(shortened(a, k), shortened(b, k), side)
    }
}

/// Two neighbouring steps can become one: they are of one kind, and their
/// joint length is one that a `usize` holds.
pub open spec fn mergeable(last: StepModel, s: StepModel) -> bool {
    match (last, s) {
        (StepModel::Skip(m), StepModel::Skip(n)) => m + n <= usize::MAX,
        (StepModel::Insert(_), StepModel::Insert(_)) => true,
        (StepModel::Delete(m), StepModel::Delete(n)) => m + n <= usize::MAX,
        _ => false,
    }
}

/// The one step that two mergeable steps become.
pub open spec fn merged(last: StepModel, s: StepModel) -> StepModel {
    match (last, s) {
        (StepModel::Skip(m), StepModel::Skip(n)) => StepModel::Skip(m + n),
        (StepModel::Insert(p), StepModel::Insert(c)) => StepModel::Insert(p + c),
        (StepModel::Delete(m), StepModel::Delete(n)) => StepModel::Delete(m + n),
        _ => s,
    }
}

/// `acc` with the step `s` behind it: an idle step is left out, and a
/// step that can merge with the last one does.
pub open spec fn joined(acc: Seq<StepModel>, s: StepModel) -> Seq<StepModel> {
    if s.is_idle() {
        acc
    } else if acc.len() > 0 && mergeable(acc.last(), s) {
        acc.drop_last().push(merged(acc.last(), s))
    } else {
        acc.push(s)
    }
}

/// The steps joined one after the other.
pub open spec fn compacted(raw: Seq<StepModel>) -> Seq<StepModel>
    decreases raw.len(),
{
    if raw.len() == 0 {
        Seq::empty()
    } else {
        joined(compacted(raw.drop_last()), raw.last())
    }
}

/// The operation without the skips at its end.
pub open spec fn trimmed(op: Seq<StepModel>) -> Seq<StepModel>
    decreases op.len(),
{
    if op.len() > 0 && op.last() is Skip {
        trimmed(op.drop_last())
    } else {
        op
    }
}

/// `a` as it reads on the document that `b` has already changed, in
/// compact form.
pub open spec fn rebased(a: Seq<StepModel>, b: Seq<StepModel>, side: Side) -> Seq<StepModel> {
    trimmed(compacted(rebased_steps(a, b, side)))
}

/// What is still to walk of `op` when `left` bytes of step `i` remain.
spec fn pending(op: Seq<StepModel>, i: int, left: nat) -> Seq<StepModel> {
    if i >= op.len() {
        Seq::empty()
    } else {
        op.skip(i).update(0, op[i].with_span(left))
    }
}

fn push_bytes(out: &mut Vec<u8>, src: &[u8], from: usize, to: usize)
    requires
        from <= to <= src@.len(),
    ensures
        final(out)@ == old(out)@ + src@.subrange(from as int, to as int),
{
    let mut t: usize = from;
    while t < to
        invariant
            from <= t <= to <= src@.len(),
            out@ == old(out)@ + src@.subrange(from as int, t as int),
        decreases to - t,
    {
        out.push(src[t]);
        t = t + 1;
        proof {
            assert(out@ =~= old(out)@ + src@.subrange(from as int, t as int));
        }
    }
}

/// Tells whether every step of `op` stays inside a document of `len`
/// bytes.
pub fn fits_len(op: &[Step], len: usize) -> (r: bool)
    ensures
        r == fits(model(op@), len as nat),
{
    let ghost m = model(op@);
    let mut left: usize = len;
    let mut i: usize = 0;
    proof {
        assert(m.skip(0) =~= m);
    }
    while i < op.len()
        invariant
            i <= op@.len(),
            m == model(op@),
            fits(m, len as nat) == fits(m.skip(i as int), left as nat),
        decreases op@.len() - i,
    {
        let n: usize = match &op[i] {
            Step::Skip(n) => *n,
            Step::Insert(_) => 0,
            Step::Delete(n) => *n,
        };
        proof {
            assert(m.skip(i as int)[0] == op@[i as int]@);
            assert(m.skip(i as int).drop_first() =~= m.skip(i + 1));
        }
        if n > left {
            return false;
        }
        left = left - n;
        i = i + 1;
    }
    true
}

/// Applies `op` to `doc`, or refuses it and leaves `doc` as it was when a
/// step reaches past the end of the document.
pub fn apply(doc: &mut Vec<u8>, op: &[Step]) -> (r: Result<(), Error>)
    ensures
        fits(model(op@), old(doc)@.len()) ==> r is Ok && final(doc)@ == applied(
            model(op@),
            old(doc)@,
        ),
        !fits(model(op@), old(doc)@.len()) ==> r == Err::<(), Error>(Error::IndexOutOfRange)
            && final(doc)@ == old(doc)@,
{
    if !fits_len(op, doc.len()) {
        return Err(Error::IndexOutOfRange);
    }
    let ghost m = model(op@);
    let ghost base = doc@;
    let mut out: Vec<u8> = Vec::new();
    let mut pos: usize = 0;
    let mut i: usize = 0;
    proof {
        assert(m.skip(0) =~= m);
        assert(base.skip(0) =~= base);
        assert(out@ + applied(m, base) =~= applied(m, base));
    }
    while i < op.len()
        invariant
            i <= op@.len(),
            pos <= base.len() <= usize::MAX,
            doc@ == base,
            m == model(op@),
            fits(m.skip(i as int), (base.len() - pos) as nat),
            applied(m, base) == out@ + applied(m.skip(i as int), base.skip(pos as int)),
        decreases op@.len() - i,
    {
        let ghost before = out@;
        let ghost rest = base.skip(pos as int);
        proof {
            assert(m.skip(i as int)[0] == op@[i as int]@);
            assert(m.skip(i as int).drop_first() =~= m.skip(i + 1));
            assert(m.skip(i as int)[0].span() <= base.len() - pos);
        }
        match &op[i] {
            Step::Skip(n) => {
                push_bytes(&mut out, doc.as_slice(), pos, pos + *n);
                proof {
                    assert(rest.take(*n as int) =~= base.subrange(pos as int, pos + *n));
                    assert(rest.skip(*n as int) =~= base.skip(pos + *n));
                    assert(before + (rest.take(*n as int) + applied(
                        m.skip(i + 1),
                        rest.skip(*n as int),
                    )) =~= out@ + applied(m.skip(i + 1), base.skip(pos + *n)));
                }
                pos = pos + *n;
            },
            Step::Insert(chunk) => {
                push_bytes(&mut out, chunk.as_slice(), 0, chunk.len());
                proof {
                    assert(chunk@.subrange(0, chunk@.len() as int) =~= chunk@);
                    assert(before + (chunk@ + applied(m.skip(i + 1), rest)) =~= out@ + applied(
                        m.skip(i + 1),
                        rest,
                    ));
                }
            },
            Step::Delete(n) => {
                proof {
                    assert(rest.skip(*n as int) =~= base.skip(pos + *n));
                }
                pos = pos + *n;
            },
        }
        i = i + 1;
    }
    push_bytes(&mut out, doc.as_slice(), pos, doc.len());
    proof {
        assert(m.skip(i as int).len() == 0);
        assert(base.skip(pos as int) =~= base.subrange(pos as int, base.len() as int));
    }
    *doc = out;
    Ok(())
}

fn head_span(op: &Vec<Step>, i: usize) -> (n: usize)
    ensures
        i < op@.len() ==> n == op@[i as int]@.span(),
{
    if i < op.len() {
        match &op[i] {
            Step::Skip(n) => *n,
            Step::Insert(_) => 0,
            Step::Delete(n) => *n,
        }
    } else {
        0
    }
}

impl Clone for Step {
    fn clone(&self) -> (r: Self)
        ensures
            r@ == self@,
    {
        match self {
            Step::Skip(n) => Step::Skip(*n),
            Step::Insert(c) => {
                let mut v: Vec<u8> = Vec::new();
                push_bytes(&mut v, c.as_slice(), 0, c.len());
                proof {
                    assert(v@ =~= c@);
                }
                Step::Insert(v)
            },
            Step::Delete(n) => Step::Delete(*n),
        }
    }
}

fn with_len(s: &Step, n: usize) -> (r: Step)
    ensures
        r@ == s@.with_span(n as nat),
{
    match s {
        Step::Skip(_) => Step::Skip(n),
        Step::Insert(_) => s.clone(),
        Step::Delete(_) => Step::Delete(n),
    }
}

fn join(out: &mut Vec<Step>, s: Step)
    ensures
        model(final(out)@) == joined(model(old(out)@), s@),
{
    let idle = match &s {
        Step::Skip(n) => *n == 0,
        Step::Insert(c) => c.len() == 0,
        Step::Delete(n) => *n == 0,
    };
    if idle {
        return ;
    }
    let ghost acc = model(out@);
    match out.pop() {
        None => {
            out.push(s);
            proof {
                assert(model(out@) =~= acc.push(s@));
            }
        },
        Some(last) => {
            proof {
                assert(last@ == acc.last());
                assert(model(out@) =~= acc.drop_last());
            }
            match (last, s) {
                (Step::Skip(m), Step::Skip(n)) => {
                    if m <= usize::MAX - n {
                        out.push(Step::Skip(m + n));
                        proof {
                            assert(model(out@) =~= acc.drop_last().push(
                                StepModel::Skip((m + n) as nat),
                            ));
                        }
                    } else {
                        out.push(Step::Skip(m));
                        out.push(Step::Skip(n));
                        proof {
                            assert(model(out@) =~= acc.push(StepModel::Skip(n as nat)));
                        }
                    }
                },
                (Step::Delete(m), Step::Delete(n)) => {
                    if m <= usize::MAX - n {
                        out.push(Step::Delete(m + n));
                        proof {
                            assert(model(out@) =~= acc.drop_last().push(
                                StepModel::Delete((m + n) as nat),
                            ));
                        }
                    } else {
                        out.push(Step::Delete(m));
                        out.push(Step::Delete(n));
                        proof {
                            assert(model(out@) =~= acc.push(StepModel::Delete(n as nat)));
                        }
                    }
                },
                (Step::Insert(p), Step::Insert(c)) => {
                    let mut p = p;
                    let mut c = c;
                    let ghost both = p@ + c@;
                    p.append(&mut c);
                    out.push(Step::Insert(p));
                    proof {
                        assert(model(out@) =~= acc.drop_last().push(StepModel::Insert(both)));
                    }
                },
                (last, s) => {
                    let ghost sm = s@;
                    out.push(last);
                    out.push(s);
                    proof {
                        assert(model(out@) =~= acc.push(sm));
                    }
                },
            }
        },
    }
}

fn trim(out: &mut Vec<Step>)
    ensures
        model(final(out)@) == trimmed(model(old(out)@)),
{
    let mut done = false;
    while !done
        invariant
            trimmed(model(out@)) == trimmed(model(old(out)@)),
            done ==> model(out@) == trimmed(model(out@)),
        decreases out@.len() + (if done { 0nat } else { 1nat }),
    {
        let ghost acc = model(out@);
        match out.pop() {
            None => {
                done = true;
            },
            Some(Step::Skip(_)) => {
                proof {
                    assert(model(out@) =~= acc.drop_last());
                }
            },
            Some(other) => {
                out.push(other);
                done = true;
                proof {
                    assert(model(out@) =~= acc);
                }
            },
        }
    }
}

/// Takes two operations made on the same document and returns `op1` as it
/// must read to be applied after `op2`, or refuses the pair when one of
/// them is too long for any document.
pub fn transform(op1: &Vec<Step>, op2: &Vec<Step>, side: Side) -> (r: Result<Vec<Step>, Error>)
    ensures
        match r {
            Ok(v) => well_formed(model(op1@)) && well_formed(model(op2@)) && model(v@) == rebased(
                model(op1@),
                model(op2@),
                side,
            ),
            Err(e) => e == Error::MalformedOperation && !(well_formed(model(op1@)) && well_formed(
                model(op2@),
            )),
        },
{
    if !fits_len(op1.as_slice(), usize::MAX) || !fits_len(op2.as_slice(), usize::MAX) {
        return Err(Error::MalformedOperation);
    }
    let ghost a = model(op1@);
    let ghost b = model(op2@);
    let ghost mut raw: Seq<StepModel> = Seq::empty();
    let mut out: Vec<Step> = Vec::new();
    let mut i: usize = 0;
    let mut j: usize = 0;
    let mut ra: usize = head_span(op1, 0);
    let mut rb: usize = head_span(op2, 0);
    proof {
        assert(pending(a, 0, ra as nat) =~= a);
        assert(pending(b, 0, rb as nat) =~= b);
        assert(raw + rebased_steps(a, b, side) =~= rebased_steps(a, b, side));
        assert(model(out@) =~= compacted(raw));
    }
    while i < op1.len() && j < op2.len()
        invariant
            a == model(op1@),
            b == model(op2@),
            i <= a.len(),
            j <= b.len(),
            i < a.len() ==> ra <= a[i as int].span(),
            j < b.len() ==> rb <= b[j as int].span(),
            rebased_steps(a, b, side) == raw + rebased_steps(
                pending(a, i as int, ra as nat),
                pending(b, j as int, rb as nat),
                side,
            ),
            model(out@) == compacted(raw),
        decreases a.len() - i + b.len() - j,
    {
        let ghost pa = pending(a, i as int, ra as nat);
        let ghost pb = pending(b, j as int, rb as nat);
        let ghost raw0 = raw;
        let a_inserts = match &op1[i] {
            Step::Insert(_) => true,
            _ => false,
        };
        let b_inserts = match &op2[j] {
            Step::Insert(_) => true,
            _ => false,
        };
        let left = match side {
            Side::Left => true,
            Side::Right => false,
        };
        proof {
            assert(pa[0] == a[i as int].with_span(ra as nat));
            assert(pb[0] == b[j as int].with_span(rb as nat));
            assert(a[i as int] == op1@[i as int]@);
            assert(b[j as int] == op2@[j as int]@);
        }
        if a_inserts && (!b_inserts || left) {
            let s = with_len(&op1[i], 0);
            proof {
                raw = raw.push(s@);
                assert(raw.drop_last() =~= raw0);
            }
            join(&mut out, s);
            i = i + 1;
            ra = head_span(op1, i);
            proof {
                assert(pa.drop_first() =~= pending(a, i as int, ra as nat));
                assert(raw0 + (seq![pa[0]] + rebased_steps(pa.drop_first(), pb, side)) =~= raw
                    + rebased_steps(pa.drop_first(), pb, side));
            }
        } else if b_inserts {
            let n: usize = match &op2[j] {
                Step::Insert(d) => d.len(),
                _ => 0,
            };
            let s = Step::Skip(n);
            proof {
                raw = raw.push(s@);
                assert(raw.drop_last() =~= raw0);
            }
            join(&mut out, s);
            j = j + 1;
            rb = head_span(op2, j);
            proof {
                assert(pb.drop_first() =~= pending(b, j as int, rb as nat));
                assert(raw0 + (seq![StepModel::Skip(n as nat)] + rebased_steps(
                    pa,
                    pb.drop_first(),
                    side,
                )) =~= raw + rebased_steps(pa, pb.drop_first(), side));
            }
        } else {
            let k: usize = if ra <= rb {
                ra
            } else {
                rb
            };
            let s = match (&op1[i], &op2[j]) {
                (Step::Skip(_), Step::Skip(_)) => Step::Skip(k),
                (Step::Delete(_), Step::Skip(_)) => Step::Delete(k),
                _ => Step::Skip(0),
            };
            proof {
                assert(s@ == paired(pa[0], pb[0], k as nat));
                raw = raw.push(s@);
                assert(raw.drop_last() =~= raw0);
            }
            join(&mut out, s);
            if ra == k {
                i = i + 1;
                ra = head_span(op1, i);
            } else {
                ra = ra - k;
            }
            if rb == k {
                j = j + 1;
                rb = head_span(op2, j);
            } else {
                rb = rb - k;
            }
            proof {
                assert(shortened(pa, k as nat) =~= pending(a, i as int, ra as nat));
                assert(shortened(pb, k as nat) =~= pending(b, j as int, rb as nat));
                assert(raw0 + (seq![paired(pa[0], pb[0], k as nat)] + rebased_steps(
                    shortened(pa, k as nat),
                    shortened(pb, k as nat),
                    side,
                )) =~= raw + rebased_steps(
                    shortened(pa, k as nat),
                    shortened(pb, k as nat),
                    side,
                ));
            }
        }
    }
    let ghost tail = pending(a, i as int, ra as nat);
    let mut t: usize = i;
    proof {
        assert(tail.skip(0) =~= tail);
    }
    while t < op1.len()
        invariant
            a == model(op1@),
            i <= t <= a.len(),
            tail == pending(a, i as int, ra as nat),
            rebased_steps(a, b, side) == raw + tail.skip(t - i),
            model(out@) == compacted(raw),
        decreases a.len() - t,
    {
        let ghost raw0 = raw;
        let n: usize = if t == i {
            ra
        } else {
            head_span(op1, t)
        };
        let s = with_len(&op1[t], n);
        proof {
            assert(a[t as int] == op1@[t as int]@);
            assert(s@ == tail[t - i]);
            raw = raw.push(s@);
            assert(raw.drop_last() =~= raw0);
            assert(raw0 + tail.skip(t - i) =~= raw + tail.skip(t + 1 - i));
        }
        join(&mut out, s);
        t = t + 1;
    }
    proof {
        assert(raw + tail.skip(t - i) =~= raw);
    }
    trim(&mut out);
    Ok(out)
}

} // verus!
