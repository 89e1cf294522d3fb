//! The operations fixed at two inputs.

use sdset::duo::{OpBuilder, OpBuilderByKey};
use sdset::{Counter, KeyValue, SetBuf, SetOperation, SortedSet};

#[test]
fn union_union_two_slices_easy() {
    let a = SortedSet::new(&[1, 2, 3]).unwrap();
    let b = SortedSet::new(&[2, 3, 4]).unwrap();

    let union_: SetBuf<i32> = OpBuilder::new(a, b).union().into_set_buf();

    assert_eq!(union_.as_slice(), &[1, 2, 3, 4]);
}

#[test]
fn union_union_two_slices_second_empty() {
    let a = SortedSet::new(&[1, 2, 3]).unwrap();
    let b = SortedSet::new(&[]).unwrap();

    let union_: SetBuf<i32> = OpBuilder::new(a, b).union().into_set_buf();

    assert_eq!(union_.as_slice(), &[1, 2, 3]);
}

#[test]
fn union_union_two_slices_first_empty() {
    let a = SortedSet::new(&[]).unwrap();
    let b = SortedSet::new(&[2, 3, 4]).unwrap();

    let union_: SetBuf<i32> = OpBuilder::new(a, b).union().into_set_buf();

    assert_eq!(union_.as_slice(), &[2, 3, 4]);
}

#[test]
fn union_union_two_slices_same_elem() {
    let a = SortedSet::new(&[1]).unwrap();
    let b = SortedSet::new(&[1]).unwrap();

    let union_: SetBuf<i32> = OpBuilder::new(a, b).union().into_set_buf();

    assert_eq!(union_.as_slice(), &[1]);
}

#[test]
fn mod_union_two_slices_easy() {
    let a = SortedSet::new(&[1, 2, 3]).unwrap();
    let b = SortedSet::new(&[2, 3, 4]).unwrap();

    let union_: Vec<i32> = OpBuilder::new(a, b).union().into_set_buf().into_vec();

    assert_eq!(&union_, &[1, 2, 3, 4]);
}

#[test]
fn mod_union_two_slices_second_empty() {
    let a = SortedSet::new(&[1, 2, 3]).unwrap();
    let b = SortedSet::new(&[]).unwrap();

    let union_: Vec<i32> = OpBuilder::new(a, b).union().into_set_buf().into_vec();

    assert_eq!(&union_, &[1, 2, 3]);
}

#[test]
fn mod_union_two_slices_first_empty() {
    let a = SortedSet::new(&[]).unwrap();
    let b = SortedSet::new(&[2, 3, 4]).unwrap();

    let union_: Vec<i32> = OpBuilder::new(a, b).union().into_set_buf().into_vec();

    assert_eq!(&union_, &[2, 3, 4]);
}

#[test]
fn mod_union_two_slices_same_elem() {
    let a = SortedSet::new(&[1]).unwrap();
    let b = SortedSet::new(&[1]).unwrap();

    let union_: Vec<i32> = OpBuilder::new(a, b).union().into_set_buf().into_vec();

    assert_eq!(&union_, &[1]);
}

#[test]
fn intersection_two_slices() {
    let a = SortedSet::new(&[1, 2, 3]).unwrap();
    let b = SortedSet::new(&[2, 3, 4]).unwrap();

    let intersection_: SetBuf<i32> = OpBuilder::new(a, b).intersection().into_set_buf();

    assert_eq!(intersection_.as_slice(), &[2, 3]);
}

#[test]
fn difference_two_slices() {
    let a = SortedSet::new(&[1, 2, 3]).unwrap();
    let b = SortedSet::new(&[2, 4]).unwrap();

    let diff: SetBuf<i32> = OpBuilder::new(a, b).difference().into_set_buf();

    assert_eq!(diff.as_slice(), &[1, 3]);
}

#[test]
fn difference_two_slices_special_case() {
    let a = SortedSet::new(&[1, 2, 3]).unwrap();
    let b = SortedSet::new(&[3]).unwrap();

    let diff: SetBuf<i32> = OpBuilder::new(a, b).difference().into_set_buf();

    assert_eq!(diff.as_slice(), &[1, 2]);
}

#[test]
fn union_duo_example() {
    let a = SortedSet::new(&[1, 2, 4, 6, 7]).unwrap();
    let b = SortedSet::new(&[2, 3, 4, 5, 6, 7]).unwrap();

    let res: SetBuf<i32> = OpBuilder::new(a, b).union().into_set_buf();

    assert_eq!(res.as_slice(), &[1, 2, 3, 4, 5, 6, 7]);
}

#[test]
fn intersection_duo_example() {
    let a = SortedSet::new(&[1, 2, 4, 6, 7]).unwrap();
    let b = SortedSet::new(&[2, 3, 4, 5, 6, 7]).unwrap();

    let res: SetBuf<i32> = OpBuilder::new(a, b).intersection().into_set_buf();

    assert_eq!(res.as_slice(), &[2, 4, 6, 7]);
}

#[test]
fn difference_duo_example() {
    let a = SortedSet::new(&[1, 2, 4, 6, 7]).unwrap();
    let b = SortedSet::new(&[2, 3, 4, 5, 6, 7]).unwrap();

    let res: SetBuf<i32> = OpBuilder::new(a, b).difference().into_set_buf();

    assert_eq!(res.as_slice(), &[1]);
}

#[test]
fn symmetric_difference_duo_example() {
    let a = SortedSet::new(&[1, 2, 4, 6, 7]).unwrap();
    let b = SortedSet::new(&[2, 3, 4, 5, 6, 7]).unwrap();

    let res: SetBuf<i32> = OpBuilder::new(a, b).symmetric_difference().into_set_buf();

    assert_eq!(res.as_slice(), &[1, 3, 5]);
}

#[test]
fn symmetric_difference_two_slices() {
    let a = SortedSet::new(&[1, 2, 3]).unwrap();
    let b = SortedSet::new(&[2, 3, 4]).unwrap();

    let res: SetBuf<i32> = OpBuilder::new(a, b).symmetric_difference().into_set_buf();

    assert_eq!(res.as_slice(), &[1, 4]);
}

#[test]
fn counter_on_intersection() {
    let a = SortedSet::new(&[1, 2, 4, 6, 7]).unwrap();
    let b = SortedSet::new(&[2, 3, 4, 5, 6, 7]).unwrap();

    let op = OpBuilder::new(a, b).intersection();

    let mut counter = Counter::<i32>::new();
    op.extend_collection(&mut counter);

    assert_eq!(counter.get(), 4);
}

#[test]
fn counter_on_union() {
    let a = SortedSet::new(&[1, 2, 4, 6, 7]).unwrap();
    let b = SortedSet::new(&[2, 3, 4, 5, 6, 7]).unwrap();

    let op = OpBuilder::new(a, b).union();

    let mut counter = Counter::<i32>::default();
    op.extend_collection(&mut counter);

    assert_eq!(counter.get(), 7);
}

#[test]
fn extend_vec_appends() {
    let a = SortedSet::new(&[1]).unwrap();
    let b = SortedSet::new(&[2]).unwrap();

    let mut out = vec![0];
    OpBuilder::new(a, b).union().extend_vec(&mut out);

    assert_eq!(&out, &[0, 1, 2]);
}

#[test]
fn difference_by_key_difference_empty_no_duplicates() {
    let a = SortedSet::new_unchecked(&[
        KeyValue { a: 1, b: 8 },
        KeyValue { a: 2, b: 9 },
        KeyValue { a: 3, b: 10 },
        KeyValue { a: 4, b: 11 },
        KeyValue { a: 5, b: 12 },
    ]);
    let b = SortedSet::new(&[1i64, 2, 3, 4, 5]).unwrap();

    let difference: SetBuf<KeyValue> = OpBuilderByKey::new(a, b).difference().into_set_buf();

    assert!(difference.is_empty());
}

#[test]
fn difference_by_key_difference_empty_duplicate_relations() {
    let a = SortedSet::new_unchecked(&[
        KeyValue { a: 1, b: 6 },
        KeyValue { a: 1, b: 7 },
        KeyValue { a: 1, b: 8 },
        KeyValue { a: 2, b: 9 },
        KeyValue { a: 2, b: 10 },
    ]);
    let b = SortedSet::new(&[1i64, 2, 3, 4, 5]).unwrap();

    let difference: SetBuf<KeyValue> = OpBuilderByKey::new(a, b).difference().into_set_buf();

    assert!(difference.is_empty());
}

#[test]
fn difference_by_key_difference_non_empty_duplicate_relations() {
    let a = SortedSet::new_unchecked(&[
        KeyValue { a: 1, b: 6 },
        KeyValue { a: 1, b: 7 },
        KeyValue { a: 1, b: 8 },
        KeyValue { a: 2, b: 9 },
        KeyValue { a: 2, b: 10 },
    ]);
    let b = SortedSet::new(&[1i64, 3, 4, 5]).unwrap();

    let difference: SetBuf<KeyValue> = OpBuilderByKey::new(a, b).difference().into_set_buf();

    assert_eq!(
        difference.as_slice(),
        &[KeyValue { a: 2, b: 9 }, KeyValue { a: 2, b: 10 }][..]
    );
}

#[test]
fn difference_difference_empty_no_duplicates() {
    let a = SortedSet::new_unchecked(&[
        KeyValue { a: 1, b: 8 },
        KeyValue { a: 2, b: 9 },
        KeyValue { a: 3, b: 10 },
        KeyValue { a: 4, b: 11 },
        KeyValue { a: 5, b: 12 },
    ]);
    let b = SortedSet::new(&[1u32, 2, 3, 4, 5]).unwrap();

    let difference: SetBuf<KeyValue> =
        sdset::duo::DifferenceByKey::new(a, b).into_set_buf();

    assert!(difference.is_empty());
}

#[test]
fn difference_difference_empty_duplicate_relations() {
    let a = SortedSet::new_unchecked(&[
        KeyValue { a: 1, b: 6 },
        KeyValue { a: 1, b: 7 },
        KeyValue { a: 1, b: 8 },
        KeyValue { a: 2, b: 9 },
        KeyValue { a: 2, b: 10 },
    ]);
    let b = SortedSet::new(&[1u32, 2, 3, 4, 5]).unwrap();

    let difference: SetBuf<KeyValue> =
        sdset::duo::DifferenceByKey::new(a, b).into_set_buf();

    assert!(difference.is_empty());
}

#[test]
fn difference_difference_non_empty_duplicate_relations() {
    let a = SortedSet::new_unchecked(&[
        KeyValue { a: 1, b: 6 },
        KeyValue { a: 1, b: 7 },
        KeyValue { a: 1, b: 8 },
        KeyValue { a: 2, b: 9 },
        KeyValue { a: 2, b: 10 },
    ]);
    let b = SortedSet::new(&[1u32, 3, 4, 5]).unwrap();

    let difference: SetBuf<KeyValue> =
        sdset::duo::DifferenceByKey::new(a, b).into_set_buf();

    assert_eq!(
        difference.as_slice(),
        &[KeyValue { a: 2, b: 9 }, KeyValue { a: 2, b: 10 }][..]
    );
}

#[test]
fn intersection_by_key_two_slices() {
    let a = SortedSet::new_unchecked(&[
        KeyValue { a: 1, b: 23 },
        KeyValue { a: 2, b: 23 },
        KeyValue { a: 3, b: 23 },
    ]);
    let b = SortedSet::new(&[2i32, 3, 4]).unwrap();

    let intersection_: SetBuf<KeyValue> =
        sdset::duo::IntersectionByKey::new(a, b).into_set_buf();

    assert_eq!(
        intersection_.as_slice(),
        &[KeyValue { a: 2, b: 23 }, KeyValue { a: 3, b: 23 }]
    );
}

#[test]
fn intersection_by_key_duplicate_relations() {
    let a = SortedSet::new_unchecked(&[
        KeyValue { a: 1, b: 6 },
        KeyValue { a: 2, b: 7 },
        KeyValue { a: 2, b: 8 },
        KeyValue { a: 3, b: 8 },
        KeyValue { a: 4, b: 9 },
        KeyValue { a: 6, b: 10 },
        KeyValue { a: 7, b: 10 },
    ]);
    let b = SortedSet::new(&[2i64, 3, 4, 5, 6, 7]).unwrap();

    let res: SetBuf<KeyValue> = sdset::duo::IntersectionByKey::new(a, b).into_set_buf();

    assert_eq!(
        res.as_slice(),
        &[
            KeyValue { a: 2, b: 7 },
            KeyValue { a: 2, b: 8 },
            KeyValue { a: 3, b: 8 },
            KeyValue { a: 4, b: 9 },
            KeyValue { a: 6, b: 10 },
            KeyValue { a: 7, b: 10 },
        ][..]
    );
}
