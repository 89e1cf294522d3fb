//! The operations over any number of inputs.

use sdset::multi::{OpBuilder, OpBuilderByKey};
use sdset::{KeyValue, SetBuf, SetOperation, SortedSet};

fn kv(a: i64) -> KeyValue {
    KeyValue { a, b: 0 }
}

#[test]
fn union_no_slice() {
    let slices: Vec<SortedSet<i32>> = vec![];
    let union_: SetBuf<i32> = OpBuilder::from_vec(slices).union().into_set_buf();
    assert_eq!(union_.as_slice(), &[]);
}

#[test]
fn union_one_empty_slice() {
    let a = SortedSet::<i32>::new(&[]).unwrap();

    let union_: SetBuf<i32> = OpBuilder::from_vec(vec![a]).union().into_set_buf();
    assert_eq!(union_.as_slice(), &[]);
}

#[test]
fn union_one_slice() {
    let a = SortedSet::new(&[1, 2, 3]).unwrap();

    let union_: SetBuf<i32> = OpBuilder::from_vec(vec![a]).union().into_set_buf();
    assert_eq!(union_.as_slice(), &[1, 2, 3]);
}

#[test]
fn union_two_slices_equal() {
    let a = SortedSet::new(&[1, 2, 3]).unwrap();
    let b = SortedSet::new(&[1, 2, 3]).unwrap();

    let union_: SetBuf<i32> = OpBuilder::from_vec(vec![a, b]).union().into_set_buf();
    assert_eq!(union_.as_slice(), &[1, 2, 3]);
}

#[test]
fn union_two_slices_little() {
    let a = SortedSet::new(&[1]).unwrap();
    let b = SortedSet::new(&[2]).unwrap();

    let union_: SetBuf<i32> = OpBuilder::from_vec(vec![a, b]).union().into_set_buf();
    assert_eq!(union_.as_slice(), &[1, 2]);
}

#[test]
fn union_two_slices() {
    let a = SortedSet::new(&[1, 2, 3]).unwrap();
    let b = SortedSet::new(&[2, 3, 4]).unwrap();

    let union_: SetBuf<i32> = OpBuilder::from_vec(vec![a, b]).union().into_set_buf();
    assert_eq!(union_.as_slice(), &[1, 2, 3, 4]);
}

#[test]
fn union_three_slices() {
    let a = SortedSet::new(&[1, 2, 3]).unwrap();
    let b = SortedSet::new(&[2, 3, 4]).unwrap();
    let c = SortedSet::new(&[3, 4, 5]).unwrap();

    let union_: SetBuf<i32> = OpBuilder::from_vec(vec![a, b, c]).union().into_set_buf();
    assert_eq!(union_.as_slice(), &[1, 2, 3, 4, 5]);
}

#[test]
fn intersection_no_slice() {
    let slices: Vec<SortedSet<i32>> = vec![];
    let intersection_: SetBuf<i32> = OpBuilder::from_vec(slices).intersection().into_set_buf();
    assert_eq!(intersection_.as_slice(), &[]);
}

#[test]
fn intersection_one_empty_slice() {
    let a = SortedSet::<i32>::new(&[]).unwrap();

    let intersection_: SetBuf<i32> = OpBuilder::from_vec(vec![a]).intersection().into_set_buf();
    assert_eq!(intersection_.as_slice(), &[]);
}

#[test]
fn intersection_one_slice() {
    let a = SortedSet::new(&[1, 2, 3]).unwrap();

    let intersection_: SetBuf<i32> = OpBuilder::from_vec(vec![a]).intersection().into_set_buf();
    assert_eq!(intersection_.as_slice(), &[1, 2, 3]);
}

#[test]
fn intersection_three_slices() {
    let a = SortedSet::new(&[1, 2, 3]).unwrap();
    let b = SortedSet::new(&[2, 3, 4]).unwrap();
    let c = SortedSet::new(&[3, 4, 5]).unwrap();

    let intersection_: SetBuf<i32> =
        OpBuilder::from_vec(vec![a, b, c]).intersection().into_set_buf();
    assert_eq!(intersection_.as_slice(), &[3]);
}

#[test]
fn intersection_example() {
    let a = SortedSet::new(&[1, 2, 4]).unwrap();
    let b = SortedSet::new(&[2, 3, 4, 5, 7]).unwrap();
    let c = SortedSet::new(&[2, 4, 6, 7]).unwrap();

    let res: SetBuf<i32> = OpBuilder::from_vec(vec![a, b, c]).intersection().into_set_buf();
    assert_eq!(res.as_slice(), &[2, 4]);
}

#[test]
fn difference_no_slice() {
    let slices: Vec<SortedSet<i32>> = vec![];
    let difference_: SetBuf<i32> = OpBuilder::from_vec(slices).difference().into_set_buf();
    assert_eq!(difference_.as_slice(), &[]);
}

#[test]
fn difference_one_empty_slice() {
    let a = SortedSet::<i32>::new(&[]).unwrap();

    let difference_: SetBuf<i32> = OpBuilder::from_vec(vec![a]).difference().into_set_buf();
    assert_eq!(difference_.as_slice(), &[]);
}

#[test]
fn difference_one_slice() {
    let a = SortedSet::new(&[1, 2, 3]).unwrap();

    let difference_: SetBuf<i32> = OpBuilder::from_vec(vec![a]).difference().into_set_buf();
    assert_eq!(difference_.as_slice(), &[1, 2, 3]);
}

#[test]
fn difference_three_slices() {
    let a = SortedSet::new(&[1, 2, 3, 6, 7]).unwrap();
    let b = SortedSet::new(&[2, 3, 4]).unwrap();
    let c = SortedSet::new(&[3, 4, 5, 7]).unwrap();

    let difference_: SetBuf<i32> = OpBuilder::from_vec(vec![a, b, c]).difference().into_set_buf();
    assert_eq!(difference_.as_slice(), &[1, 6]);
}

#[test]
fn symmetric_difference_three_slices() {
    let a = SortedSet::new(&[1, 2, 4]).unwrap();
    let b = SortedSet::new(&[2, 3, 5, 7]).unwrap();
    let c = SortedSet::new(&[4, 6, 7]).unwrap();

    let res: SetBuf<i32> =
        OpBuilder::from_vec(vec![a, b, c]).symmetric_difference().into_set_buf();
    assert_eq!(res.as_slice(), &[1, 3, 5, 6]);
}

#[test]
fn symmetric_difference_odd_count() {
    let a = SortedSet::new(&[1, 2]).unwrap();
    let b = SortedSet::new(&[1, 2]).unwrap();
    let c = SortedSet::new(&[1, 3]).unwrap();

    let res: SetBuf<i32> =
        OpBuilder::from_vec(vec![a, b, c]).symmetric_difference().into_set_buf();
    assert_eq!(res.as_slice(), &[1, 3]);
}

#[test]
fn builder_push_add_reserve() {
    let a = SortedSet::new(&[1, 2, 4]).unwrap();
    let b = SortedSet::new(&[2, 3, 4, 5, 7]).unwrap();
    let c = SortedSet::new(&[4, 6, 7]).unwrap();

    let mut builder = OpBuilder::with_capacity(3);
    builder.reserve(2);
    builder.push(a);
    let builder = builder.add(b).add(c);

    let res: SetBuf<i32> = builder.union().into_set_buf();
    assert_eq!(res.as_slice(), &[1, 2, 3, 4, 5, 6, 7]);
}

#[test]
fn difference_by_key_one_empty_slice() {
    let base: &[KeyValue] = &[];
    let a = SortedSet::new_unchecked(base);

    let op = OpBuilderByKey::<KeyValue, i32>::new(a).difference();
    let res: SetBuf<KeyValue> = op.into_set_buf();
    assert_eq!(res.as_slice(), &[]);
}

#[test]
fn difference_by_key_one_slice() {
    let elems = [kv(1), kv(2), kv(3)];
    let a = SortedSet::new_unchecked(&elems);

    let op = OpBuilderByKey::<KeyValue, i32>::new(a).difference();
    let res: SetBuf<KeyValue> = op.into_set_buf();
    assert_eq!(res.as_slice(), &[kv(1), kv(2), kv(3)]);
}

#[test]
fn difference_by_key_two_slices() {
    let elems = [kv(1), kv(2), kv(3)];
    let a = SortedSet::new_unchecked(&elems);
    let b = SortedSet::new(&[2i32, 4]).unwrap();

    let op = OpBuilderByKey::new(a).add(b).difference();
    let res: SetBuf<KeyValue> = op.into_set_buf();
    assert_eq!(res.as_slice(), &[kv(1), kv(3)]);
}

#[test]
fn difference_by_key_two_slices_special_case() {
    let elems = [kv(1), kv(2), kv(3)];
    let a = SortedSet::new_unchecked(&elems);
    let b = SortedSet::new(&[3i32]).unwrap();

    let op = OpBuilderByKey::new(a).add(b).difference();
    let res: SetBuf<KeyValue> = op.into_set_buf();
    assert_eq!(res.as_slice(), &[kv(1), kv(2)]);
}

#[test]
fn difference_by_key_three_slices() {
    let elems = [kv(1), kv(2), kv(3), kv(6), kv(7)];
    let a = SortedSet::new_unchecked(&elems);
    let b = SortedSet::new(&[2i32, 3, 4]).unwrap();
    let c = SortedSet::new(&[3i32, 4, 5, 7]).unwrap();

    let op = OpBuilderByKey::from_vec(a, vec![b, c]).difference();
    let res: SetBuf<KeyValue> = op.into_set_buf();
    assert_eq!(res.as_slice(), &[kv(1), kv(6)]);
}

#[test]
fn difference_by_key_duplicate_relations() {
    let a = SortedSet::new_unchecked(&[
        KeyValue { a: 1, b: 6 },
        KeyValue { a: 1, b: 7 },
        KeyValue { a: 1, b: 8 },
        KeyValue { a: 2, b: 9 },
        KeyValue { a: 2, b: 10 },
        KeyValue { a: 4, b: 10 },
    ]);
    let b = SortedSet::new(&[2i32, 3, 5, 7]).unwrap();
    let c = SortedSet::new(&[4i32, 6, 7]).unwrap();

    let op = OpBuilderByKey::from_vec(a, vec![b, c]).difference();
    let res: SetBuf<KeyValue> = op.into_set_buf();
    assert_eq!(
        res.as_slice(),
        &[
            KeyValue { a: 1, b: 6 },
            KeyValue { a: 1, b: 7 },
            KeyValue { a: 1, b: 8 },
        ]
    );
}
