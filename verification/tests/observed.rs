use ot_engine::single_op::{apply, transform, Op, Side};
use ot_engine::Error;

fn step(seed: &mut u64) -> u64 {
    *seed = seed
        .wrapping_mul(6364136223846793005)
        .wrapping_add(1442695040888963407);
    *seed >> 33
}

fn some_doc(seed: &mut u64) -> Vec<u8> {
    let len = (step(seed) % 9) as usize;
    let mut doc = Vec::new();
    for _ in 0..len {
        doc.push(b'a' + (step(seed) % 4) as u8);
    }
    doc
}

fn some_op(seed: &mut u64, doc: &Vec<u8>) -> Op {
    if doc.len() > 0 && step(seed) % 2 == 0 {
        Op::Delete((step(seed) as usize) % doc.len())
    } else {
        Op::Insert(
            (step(seed) as usize) % (doc.len() + 1),
            0,
            b'w' + (step(seed) % 4) as u8,
        )
    }
}

#[test]
fn single_op_test_apply_insert() {
    let mut doc = b"abc".to_vec();
    apply(&mut doc, &Op::Insert(1, 0, b'x')).unwrap();
    assert_eq!(doc, b"axbc");
}

#[test]
fn single_op_test_apply_delete() {
    let mut doc = b"abc".to_vec();
    apply(&mut doc, &Op::Delete(1)).unwrap();
    assert_eq!(doc, b"ac");
}

#[test]
fn observed_apply_refuses_offsets_outside() {
    let mut doc = b"abc".to_vec();
    assert_eq!(apply(&mut doc, &Op::Insert(4, 0, b'x')), Err(Error::IndexOutOfRange));
    assert_eq!(apply(&mut doc, &Op::Delete(3)), Err(Error::IndexOutOfRange));
    assert_eq!(doc, b"abc");
    assert_eq!(apply(&mut doc, &Op::Noop), Ok(()));
    assert_eq!(doc, b"abc");
}

#[test]
fn observed_round_trip() {
    for i in 0..=3usize {
        let mut doc = b"abc".to_vec();
        apply(&mut doc, &Op::Insert(i, 7, b'x')).unwrap();
        apply(&mut doc, &Op::Delete(i)).unwrap();
        assert_eq!(doc, b"abc");
    }
}

#[test]
fn observed_count_grows_over_delete_in_front() {
    let op = Op::Insert(2, 0, b'x');
    assert_eq!(transform(&op, &Op::Delete(1), Side::Left), Op::Insert(1, 1, b'x'));
    assert_eq!(transform(&op, &Op::Delete(2), Side::Left), Op::Insert(2, 0, b'x'));
    assert_eq!(transform(&op, &Op::Delete(3), Side::Right), Op::Insert(2, 0, b'x'));
    assert_eq!(
        transform(&Op::Insert(2, 4, b'x'), &Op::Delete(0), Side::Right),
        Op::Insert(1, 5, b'x')
    );
}

#[test]
fn observed_inserts_order_by_rank() {
    let op = Op::Insert(2, 1, b'x');
    assert_eq!(transform(&op, &Op::Insert(2, 0, b'y'), Side::Left), Op::Insert(3, 1, b'x'));
    assert_eq!(transform(&op, &Op::Insert(3, 0, b'y'), Side::Left), Op::Insert(2, 1, b'x'));
    assert_eq!(transform(&op, &Op::Insert(3, 0, b'y'), Side::Right), Op::Insert(3, 1, b'x'));
    assert_eq!(transform(&op, &Op::Insert(1, 3, b'y'), Side::Right), Op::Insert(2, 1, b'x'));
    assert_eq!(
        transform(
            &Op::Insert(usize::MAX - 1, usize::MAX, b'x'),
            &Op::Insert(usize::MAX, usize::MAX - 1, b'y'),
            Side::Right
        ),
        Op::Insert(usize::MAX, usize::MAX, b'x')
    );
}

#[test]
fn observed_delete_table() {
    let op = Op::Delete(2);
    assert_eq!(transform(&op, &Op::Insert(2, 9, b'y'), Side::Left), Op::Delete(3));
    assert_eq!(transform(&op, &Op::Insert(3, 0, b'y'), Side::Left), Op::Delete(2));
    assert_eq!(transform(&op, &Op::Delete(1), Side::Left), Op::Delete(1));
    assert_eq!(transform(&op, &Op::Delete(2), Side::Right), Op::Noop);
    assert_eq!(transform(&op, &Op::Delete(3), Side::Right), Op::Delete(2));
}

#[test]
fn observed_noop_identity() {
    let ops = [Op::Insert(0, 0, b'x'), Op::Insert(2, 3, b'y'), Op::Delete(0), Op::Noop];
    for op in ops.iter() {
        for side in [Side::Left, Side::Right] {
            assert_eq!(transform(&Op::Noop, op, side), Op::Noop);
            assert_eq!(transform(op, &Op::Noop, side), *op);
        }
    }
}

#[test]
fn observed_random_pairs_converge() {
    let mut seed: u64 = 0xfeed;
    for _ in 0..2000 {
        let doc = some_doc(&mut seed);
        let op1 = some_op(&mut seed, &doc);
        let op2 = some_op(&mut seed, &doc);

        let mut doc1 = doc.clone();
        apply(&mut doc1, &op1).unwrap();
        apply(&mut doc1, &transform(&op2, &op1, Side::Right)).unwrap();

        let mut doc2 = doc.clone();
        apply(&mut doc2, &op2).unwrap();
        apply(&mut doc2, &transform(&op1, &op2, Side::Left)).unwrap();

        assert_eq!(doc1, doc2, "doc = {:?}, op1 = {:?}, op2 = {:?}", doc, op1, op2);
    }
}

#[test]
fn observed_three_concurrent_operations() {
    let op1 = Op::Insert(1, 0, b'x');
    let op2 = Op::Delete(0);
    let op3 = Op::Insert(0, 0, b'z');

    let mut doc1 = b"a".to_vec();
    let op2_over_1 = transform(&op2, &op1, Side::Right);
    apply(&mut doc1, &op1).unwrap();
    apply(&mut doc1, &op2_over_1).unwrap();

    let mut doc2 = b"a".to_vec();
    let op1_over_2 = transform(&op1, &op2, Side::Left);
    assert_eq!(op1_over_2, Op::Insert(0, 1, b'x'));
    apply(&mut doc2, &op2).unwrap();
    apply(&mut doc2, &op1_over_2).unwrap();
    assert_eq!(doc1, b"x");
    assert_eq!(doc2, b"x");

    let op3_by_1_2 = transform(&transform(&op3, &op1, Side::Right), &op2_over_1, Side::Right);
    apply(&mut doc1, &op3_by_1_2).unwrap();
    let op3_by_2_1 = transform(&transform(&op3, &op2, Side::Right), &op1_over_2, Side::Right);
    apply(&mut doc2, &op3_by_2_1).unwrap();

    // The observed count keeps the third insertion in front here, where
    // the model without it lets the two orders part.
    assert_eq!(doc1, b"zx");
    assert_eq!(doc2, b"zx");
}

#[test]
fn observed_fits_len_tells_offsets_inside() {
    assert!(Op::Insert(3, 9, b'x').fits_len(3));
    assert!(!Op::Insert(4, 0, b'x').fits_len(3));
    assert!(Op::Delete(2).fits_len(3));
    assert!(!Op::Delete(3).fits_len(3));
    assert!(Op::Noop.fits_len(0));
}
