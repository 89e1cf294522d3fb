//! Further exercises of the operations, one per case of input shape.

use sdset::duo;
use sdset::multi;
use sdset::{KeyValue, SetBuf, SetOperation, SortedSet};

#[test]
fn no_slice() {
    let slices: Vec<SortedSet<i32>> = vec![];
    let difference_: SetBuf<i32> = multi::OpBuilder::from_vec(slices).difference().into_set_buf();
    assert_eq!(difference_.as_slice(), &[]);
}

#[test]
fn one_empty_slice() {
    let a = SortedSet::<i32>::new(&[]).unwrap();

    let difference_: SetBuf<i32> =
        multi::OpBuilder::from_vec(vec![a]).difference().into_set_buf();
    assert_eq!(difference_.as_slice(), &[]);
}

#[test]
fn one_slice() {
    let a = SortedSet::new(&[1, 2, 3]).unwrap();

    let difference_: SetBuf<i32> =
        multi::OpBuilder::from_vec(vec![a]).difference().into_set_buf();
    assert_eq!(difference_.as_slice(), &[1, 2, 3]);
}

#[test]
fn two_slices() {
    let a = SortedSet::new(&[1, 2, 3]).unwrap();
    let b = SortedSet::new(&[2, 4]).unwrap();

    let diff: SetBuf<i32> = duo::OpBuilder::new(a, b).difference().into_set_buf();
    assert_eq!(diff.as_slice(), &[1, 3]);
}

#[test]
fn two_slices_special_case() {
    let a = SortedSet::new(&[1, 2, 3]).unwrap();
    let b = SortedSet::new(&[3]).unwrap();

    let diff: SetBuf<i32> = duo::OpBuilder::new(a, b).difference().into_set_buf();
    assert_eq!(diff.as_slice(), &[1, 2]);
}

#[test]
fn three_slices() {
    let a = SortedSet::new(&[1, 2, 3, 6, 7]).unwrap();
    let b = SortedSet::new(&[2, 3, 4]).unwrap();
    let c = SortedSet::new(&[3, 4, 5, 7]).unwrap();

    let difference_: SetBuf<i32> =
        multi::OpBuilder::from_vec(vec![a, b, c]).difference().into_set_buf();
    assert_eq!(difference_.as_slice(), &[1, 6]);
}

#[test]
fn two_slices_equal() {
    let a = SortedSet::new(&[1, 2, 3]).unwrap();
    let b = SortedSet::new(&[1, 2, 3]).unwrap();

    let union_: SetBuf<i32> = multi::OpBuilder::from_vec(vec![a, b]).union().into_set_buf();
    assert_eq!(union_.as_slice(), &[1, 2, 3]);
}

#[test]
fn two_slices_little() {
    let a = SortedSet::new(&[1]).unwrap();
    let b = SortedSet::new(&[2]).unwrap();

    let union_: SetBuf<i32> = multi::OpBuilder::from_vec(vec![a, b]).union().into_set_buf();
    assert_eq!(union_.as_slice(), &[1, 2]);
}

#[test]
fn union_two_slices_easy() {
    let a = SortedSet::new(&[1, 2, 3]).unwrap();
    let b = SortedSet::new(&[2, 3, 4]).unwrap();

    let union_: Vec<i32> = duo::Union::new(a, b).into_set_buf().into_vec();
    assert_eq!(&union_, &[1, 2, 3, 4]);
}

#[test]
fn union_two_slices_second_empty() {
    let a = SortedSet::new(&[1, 2, 3]).unwrap();
    let b = SortedSet::new(&[]).unwrap();

    let union_: Vec<i32> = duo::Union::new(a, b).into_set_buf().into_vec();
    assert_eq!(&union_, &[1, 2, 3]);
}

#[test]
fn union_two_slices_first_empty() {
    let a = SortedSet::new(&[]).unwrap();
    let b = SortedSet::new(&[2, 3, 4]).unwrap();

    let union_: Vec<i32> = duo::Union::new(a, b).into_set_buf().into_vec();
    assert_eq!(&union_, &[2, 3, 4]);
}

#[test]
fn union_two_slices_same_elem() {
    let a = SortedSet::new(&[1]).unwrap();
    let b = SortedSet::new(&[1]).unwrap();

    let union_: Vec<i32> = duo::Union::new(a, b).into_set_buf().into_vec();
    assert_eq!(&union_, &[1]);
}

#[test]
fn difference_empty_no_duplicates() {
    let a = SortedSet::new_unchecked(&[
        KeyValue { a: 1, b: 8 },
        KeyValue { a: 2, b: 9 },
        KeyValue { a: 3, b: 10 },
        KeyValue { a: 4, b: 11 },
        KeyValue { a: 5, b: 12 },
    ]);
    let b = SortedSet::new(&[1i64, 2, 3, 4, 5]).unwrap();

    let difference: SetBuf<KeyValue> = duo::DifferenceByKey::new(a, b).into_set_buf();

    assert!(difference.is_empty());
}

#[test]
fn difference_empty_duplicate_relations() {
    let a = SortedSet::new_unchecked(&[
        KeyValue { a: 1, b: 6 },
        KeyValue { a: 1, b: 7 },
        KeyValue { a: 1, b: 8 },
        KeyValue { a: 2, b: 9 },
        KeyValue { a: 2, b: 10 },
    ]);
    let b = SortedSet::new(&[1i64, 2, 3, 4, 5]).unwrap();

    let difference: SetBuf<KeyValue> = duo::DifferenceByKey::new(a, b).into_set_buf();

    assert!(difference.is_empty());
}

#[test]
fn difference_non_empty_duplicate_relations() {
    let a = SortedSet::new_unchecked(&[
        KeyValue { a: 1, b: 6 },
        KeyValue { a: 1, b: 7 },
        KeyValue { a: 1, b: 8 },
        KeyValue { a: 2, b: 9 },
        KeyValue { a: 2, b: 10 },
    ]);
    let b = SortedSet::new(&[1i64, 3, 4, 5]).unwrap();

    let difference: SetBuf<KeyValue> = duo::DifferenceByKey::new(a, b).into_set_buf();

    assert_eq!(
        difference.as_slice(),
        &[KeyValue { a: 2, b: 9 }, KeyValue { a: 2, b: 10 }][..]
    );
}
