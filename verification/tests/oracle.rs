use ot_engine::composite_op::Step;
use ot_engine::oracle::{
    converges, converges_three, observed_converge, observed_converge_three, steps_converge,
    valid_observed_op_for, valid_op_for, valid_step_for,
};
use ot_engine::{Error, Op};

fn draw(seed: &mut u64) -> usize {
    *seed = seed
        .wrapping_mul(6364136223846793005)
        .wrapping_add(1442695040888963407);
    (*seed >> 33) as usize
}

fn drawn_doc(seed: &mut u64) -> Vec<u8> {
    let len = draw(seed) % 12;
    let mut doc = Vec::new();
    for _ in 0..len {
        doc.push(b'a' + (draw(seed) % 3) as u8);
    }
    doc
}

fn drawn_steps(seed: &mut u64, len: usize) -> Vec<Step> {
    let mut op = Vec::new();
    let mut left = len;
    for _ in 0..draw(seed) % 7 {
        let mut chunk = Vec::new();
        for _ in 0..draw(seed) % 4 {
            chunk.push(b'p' + (draw(seed) % 3) as u8);
        }
        let step = valid_step_for(left, draw(seed), draw(seed), chunk);
        match &step {
            Step::Skip(n) => left -= *n,
            Step::Delete(n) => left -= *n,
            Step::Insert(_) => {}
        }
        op.push(step);
    }
    op
}

fn every_op(len: usize, value: u8) -> Vec<Op> {
    let mut ops = Vec::new();
    for p in 0..=len {
        ops.push(Op::Insert(p, value));
    }
    for p in 0..len {
        ops.push(Op::Delete(p));
    }
    ops
}

fn with_count(op: &Op) -> ot_engine::single_op::Op {
    match *op {
        Op::Insert(p, c) => ot_engine::single_op::Op::Insert(p, 0, c),
        Op::Delete(p) => ot_engine::single_op::Op::Delete(p),
        Op::Noop => ot_engine::single_op::Op::Noop,
    }
}

#[test]
fn valid_op_for_wraps_into_the_document() {
    assert_eq!(valid_op_for(3, 1, 7, b'x'), Op::Delete(1));
    assert_eq!(valid_op_for(3, 0, 7, b'x'), Op::Insert(3, b'x'));
    assert_eq!(valid_op_for(3, 2, 4, b'y'), Op::Insert(0, b'y'));
    assert_eq!(valid_op_for(0, 1, 5, b'q'), Op::Insert(0, b'q'));
    assert_eq!(valid_op_for(usize::MAX, 0, 9, b'q'), Op::Insert(9, b'q'));
    assert_eq!(
        valid_observed_op_for(3, 0, 6, b'x'),
        ot_engine::single_op::Op::Insert(2, 0, b'x')
    );
    assert_eq!(valid_observed_op_for(3, 5, 5, b'x'), ot_engine::single_op::Op::Delete(2));
}

#[test]
fn valid_step_for_stays_behind_the_cursor() {
    assert_eq!(valid_step_for(4, 0, 7, vec![]), Step::Skip(2));
    assert_eq!(valid_step_for(4, 3, 4, vec![]), Step::Skip(4));
    assert_eq!(valid_step_for(4, 1, 7, b"hi".to_vec()), Step::Insert(b"hi".to_vec()));
    assert_eq!(valid_step_for(4, 2, 9, vec![]), Step::Delete(4));
    assert_eq!(valid_step_for(0, 5, 9, vec![]), Step::Delete(0));
    assert_eq!(valid_step_for(usize::MAX, 0, 9, vec![]), Step::Skip(9));
}

#[test]
fn oracle_refuses_operations_outside() {
    let doc = b"abc".to_vec();
    assert_eq!(
        converges(&doc, &Op::Insert(4, b'x'), &Op::Noop),
        Err(Error::IndexOutOfRange)
    );
    assert_eq!(
        converges(&doc, &Op::Noop, &Op::Delete(3)),
        Err(Error::IndexOutOfRange)
    );
    assert_eq!(
        converges_three(&doc, &Op::Noop, &Op::Noop, &Op::Delete(3)),
        Err(Error::IndexOutOfRange)
    );
    assert_eq!(
        steps_converge(&doc, &vec![Step::Skip(4)], &vec![]),
        Err(Error::IndexOutOfRange)
    );
    assert_eq!(
        observed_converge(
            &doc,
            &ot_engine::single_op::Op::Delete(3),
            &ot_engine::single_op::Op::Noop
        ),
        Err(Error::IndexOutOfRange)
    );
    assert_eq!(converges(&doc, &Op::Insert(3, b'x'), &Op::Delete(2)), Ok(true));
}

#[test]
fn random_pairs_pass_the_oracle() {
    let mut seed: u64 = 0xabcdef;
    for _ in 0..2000 {
        let doc = drawn_doc(&mut seed);
        let op1 = valid_op_for(doc.len(), draw(&mut seed), draw(&mut seed), b'x');
        let op2 = valid_op_for(doc.len(), draw(&mut seed), draw(&mut seed), b'y');
        assert_eq!(converges(&doc, &op1, &op2), Ok(true));
        assert_eq!(
            observed_converge(&doc, &with_count(&op1), &with_count(&op2)),
            Ok(true)
        );
    }
}

#[test]
fn random_chunked_pairs_pass_the_oracle() {
    let mut seed: u64 = 0x1234567;
    for _ in 0..2000 {
        let doc = drawn_doc(&mut seed);
        let op1 = drawn_steps(&mut seed, doc.len());
        let op2 = drawn_steps(&mut seed, doc.len());
        assert_eq!(
            steps_converge(&doc, &op1, &op2),
            Ok(true),
            "doc = {:?}, op1 = {:?}, op2 = {:?}",
            doc,
            op1,
            op2
        );
    }
}

#[test]
fn observed_ranks_out_of_order_diverge() {
    let doc = b"abcd".to_vec();
    let op1 = ot_engine::single_op::Op::Insert(0, 5, b'x');
    let op2 = ot_engine::single_op::Op::Insert(3, 0, b'y');
    assert_eq!(observed_converge(&doc, &op1, &op2), Ok(false));
}

#[test]
fn three_way_baseline() {
    // Three concurrent operations do not always converge: of the 343
    // triples of insertions and deletions on a document of three bytes,
    // six part ways in the model without observed counts, none with them.
    let doc = b"abc".to_vec();
    let mut parted = 0;
    let mut parted_with_counts = 0;
    let mut triples = 0;
    for op1 in every_op(3, b'x').iter() {
        for op2 in every_op(3, b'y').iter() {
            for op3 in every_op(3, b'z').iter() {
                triples += 1;
                if converges_three(&doc, op1, op2, op3) == Ok(false) {
                    parted += 1;
                }
                let agreed = observed_converge_three(
                    &doc,
                    &with_count(op1),
                    &with_count(op2),
                    &with_count(op3),
                );
                if agreed == Ok(false) {
                    parted_with_counts += 1;
                }
            }
        }
    }
    assert_eq!(triples, 343);
    assert_eq!(parted, 6);
    assert_eq!(parted_with_counts, 0);
    assert_eq!(
        converges_three(
            &b"a".to_vec(),
            &Op::Insert(1, b'x'),
            &Op::Delete(0),
            &Op::Insert(0, b'z')
        ),
        Ok(false)
    );
}
