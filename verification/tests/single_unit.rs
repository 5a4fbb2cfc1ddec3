use ot_engine::{apply, transform, Error, Op, Side};

fn next(seed: &mut u64) -> u64 {
    *seed = seed
        .wrapping_mul(6364136223846793005)
        .wrapping_add(1442695040888963407);
    *seed >> 33
}

fn random_doc(seed: &mut u64) -> Vec<u8> {
    let len = (next(seed) % 9) as usize;
    let mut doc = Vec::new();
    for _ in 0..len {
        doc.push(b'a' + (next(seed) % 4) as u8);
    }
    doc
}

fn random_op(seed: &mut u64, doc: &Vec<u8>) -> Op {
    if doc.len() > 0 && next(seed) % 2 == 0 {
        Op::Delete((next(seed) as usize) % doc.len())
    } else {
        Op::Insert(
            (next(seed) as usize) % (doc.len() + 1),
            b'w' + (next(seed) % 4) as u8,
        )
    }
}

#[test]
fn lib_test_apply_insert() {
    let mut doc = b"abc".to_vec();
    apply(&mut doc, &Op::Insert(1, b'x')).unwrap();
    assert_eq!(doc, b"axbc");
}

#[test]
fn lib_test_apply_delete() {
    let mut doc = b"abc".to_vec();
    apply(&mut doc, &Op::Delete(1)).unwrap();
    assert_eq!(doc, b"ac");
}

#[test]
fn apply_noop_keeps_document() {
    let mut doc = b"abc".to_vec();
    assert_eq!(apply(&mut doc, &Op::Noop), Ok(()));
    assert_eq!(doc, b"abc");
}

#[test]
fn apply_insert_at_both_ends() {
    let mut doc = b"abc".to_vec();
    apply(&mut doc, &Op::Insert(0, b'x')).unwrap();
    apply(&mut doc, &Op::Insert(4, b'y')).unwrap();
    assert_eq!(doc, b"xabcy");
    let mut empty: Vec<u8> = Vec::new();
    apply(&mut empty, &Op::Insert(0, b'q')).unwrap();
    assert_eq!(empty, b"q");
}

#[test]
fn apply_refuses_offsets_outside() {
    let mut doc = b"abc".to_vec();
    assert_eq!(apply(&mut doc, &Op::Insert(4, b'x')), Err(Error::IndexOutOfRange));
    assert_eq!(doc, b"abc");
    assert_eq!(apply(&mut doc, &Op::Delete(3)), Err(Error::IndexOutOfRange));
    assert_eq!(doc, b"abc");
    let mut empty: Vec<u8> = Vec::new();
    assert_eq!(apply(&mut empty, &Op::Delete(0)), Err(Error::IndexOutOfRange));
    assert!(empty.is_empty());
}

#[test]
fn insert_then_delete_round_trip() {
    for i in 0..=3usize {
        let mut doc = b"abc".to_vec();
        apply(&mut doc, &Op::Insert(i, b'x')).unwrap();
        assert_eq!(doc.len(), 4);
        assert_eq!(doc[i], b'x');
        apply(&mut doc, &Op::Delete(i)).unwrap();
        assert_eq!(doc, b"abc");
    }
}

#[test]
fn transform_insert_over_insert() {
    let op = Op::Insert(2, b'x');
    assert_eq!(transform(&op, &Op::Insert(1, b'y'), Side::Left), Op::Insert(3, b'x'));
    assert_eq!(transform(&op, &Op::Insert(1, b'y'), Side::Right), Op::Insert(3, b'x'));
    assert_eq!(transform(&op, &Op::Insert(2, b'y'), Side::Left), Op::Insert(2, b'x'));
    assert_eq!(transform(&op, &Op::Insert(2, b'y'), Side::Right), Op::Insert(3, b'x'));
    assert_eq!(transform(&op, &Op::Insert(3, b'y'), Side::Left), Op::Insert(2, b'x'));
    assert_eq!(transform(&op, &Op::Insert(3, b'y'), Side::Right), Op::Insert(2, b'x'));
}

#[test]
fn transform_insert_over_delete() {
    let op = Op::Insert(2, b'x');
    assert_eq!(transform(&op, &Op::Delete(1), Side::Left), Op::Insert(1, b'x'));
    assert_eq!(transform(&op, &Op::Delete(2), Side::Left), Op::Insert(2, b'x'));
    assert_eq!(transform(&op, &Op::Delete(3), Side::Right), Op::Insert(2, b'x'));
}

#[test]
fn transform_delete_over_insert() {
    let op = Op::Delete(2);
    assert_eq!(transform(&op, &Op::Insert(1, b'y'), Side::Left), Op::Delete(3));
    assert_eq!(transform(&op, &Op::Insert(2, b'y'), Side::Left), Op::Delete(3));
    assert_eq!(transform(&op, &Op::Insert(2, b'y'), Side::Right), Op::Delete(3));
    assert_eq!(transform(&op, &Op::Insert(3, b'y'), Side::Right), Op::Delete(2));
}

#[test]
fn transform_delete_over_delete() {
    let op = Op::Delete(2);
    assert_eq!(transform(&op, &Op::Delete(1), Side::Left), Op::Delete(1));
    assert_eq!(transform(&op, &Op::Delete(2), Side::Left), Op::Noop);
    assert_eq!(transform(&op, &Op::Delete(3), Side::Right), Op::Delete(2));
}

#[test]
fn double_delete_collapses() {
    assert_eq!(transform(&Op::Delete(1), &Op::Delete(1), Side::Left), Op::Noop);
    assert_eq!(transform(&Op::Delete(1), &Op::Delete(1), Side::Right), Op::Noop);
}

#[test]
fn noop_identity() {
    let ops = [Op::Insert(0, b'x'), Op::Insert(2, b'y'), Op::Delete(0), Op::Delete(5), Op::Noop];
    for op in ops.iter() {
        for side in [Side::Left, Side::Right] {
            assert_eq!(transform(&Op::Noop, op, side), Op::Noop);
            assert_eq!(transform(op, &Op::Noop, side), *op);
        }
    }
}

#[test]
fn concurrent_inserts_at_one_position_converge() {
    let op1 = Op::Insert(1, b'x');
    let op2 = Op::Insert(1, b'y');

    let mut doc1 = b"abc".to_vec();
    apply(&mut doc1, &op1).unwrap();
    apply(&mut doc1, &transform(&op2, &op1, Side::Right)).unwrap();

    let mut doc2 = b"abc".to_vec();
    apply(&mut doc2, &op2).unwrap();
    apply(&mut doc2, &transform(&op1, &op2, Side::Left)).unwrap();

    assert_eq!(doc1, doc2);
    assert_eq!(doc1, b"axybc");
}

#[test]
fn random_pairs_converge() {
    let mut seed: u64 = 0x5eed;
    for _ in 0..2000 {
        let doc = random_doc(&mut seed);
        let op1 = random_op(&mut seed, &doc);
        let op2 = random_op(&mut seed, &doc);

        let mut doc1 = doc.clone();
        apply(&mut doc1, &op1).unwrap();
        apply(&mut doc1, &transform(&op2, &op1, Side::Right)).unwrap();

        let mut doc2 = doc.clone();
        apply(&mut doc2, &op2).unwrap();
        apply(&mut doc2, &transform(&op1, &op2, Side::Left)).unwrap();

        assert_eq!(doc1, doc2, "doc = {:?}, op1 = {:?}, op2 = {:?}", doc, op1, op2);
    }
}

#[test]
fn three_concurrent_operations_diverge() {
    let op1 = Op::Insert(1, b'x');
    let op2 = Op::Delete(0);
    let op3 = Op::Insert(0, b'z');

    let mut doc1 = b"a".to_vec();
    let op2_over_1 = transform(&op2, &op1, Side::Right);
    apply(&mut doc1, &op1).unwrap();
    apply(&mut doc1, &op2_over_1).unwrap();

    let mut doc2 = b"a".to_vec();
    let op1_over_2 = transform(&op1, &op2, Side::Left);
    apply(&mut doc2, &op2).unwrap();
    apply(&mut doc2, &op1_over_2).unwrap();
    assert_eq!(doc1, doc2);

    let op3_by_1_2 = transform(&transform(&op3, &op1, Side::Right), &op2_over_1, Side::Right);
    apply(&mut doc1, &op3_by_1_2).unwrap();
    let op3_by_2_1 = transform(&transform(&op3, &op2, Side::Right), &op1_over_2, Side::Right);
    apply(&mut doc2, &op3_by_2_1).unwrap();

    // Three-way convergence does not hold of this model: the two orders
    // leave different documents.
    assert_eq!(doc1, b"zx");
    assert_eq!(doc2, b"xz");
}

#[test]
fn fits_len_tells_offsets_inside() {
    assert!(Op::Insert(3, b'x').fits_len(3));
    assert!(!Op::Insert(4, b'x').fits_len(3));
    assert!(Op::Delete(2).fits_len(3));
    assert!(!Op::Delete(3).fits_len(3));
    assert!(!Op::Delete(0).fits_len(0));
    assert!(Op::Insert(0, b'x').fits_len(0));
    assert!(Op::Noop.fits_len(0));
}
