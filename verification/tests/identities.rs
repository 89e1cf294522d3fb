//! The algebraic identities, exercised on concrete values.

use sdset::duo::OpBuilder;
use sdset::multi::OpBuilder as MultiOpBuilder;
use sdset::{Counter, SetBuf, SetOperation, SortedSet};

#[test]
fn union_with_self() {
    let a = SortedSet::new(&[1, 3, 5]).unwrap();
    let res: SetBuf<i32> = OpBuilder::new(a, a).union().into_set_buf();
    assert_eq!(res.as_slice(), &[1, 3, 5]);
}

#[test]
fn union_with_empty() {
    let a = SortedSet::new(&[1, 3, 5]).unwrap();
    let e = SortedSet::new(&[]).unwrap();
    let res: SetBuf<i32> = OpBuilder::new(a, e).union().into_set_buf();
    assert_eq!(res.as_slice(), &[1, 3, 5]);
}

#[test]
fn union_single_input() {
    let a = SortedSet::new(&[1, 3, 5]).unwrap();
    let res: SetBuf<i32> = MultiOpBuilder::from_vec(vec![a]).union().into_set_buf();
    assert_eq!(res.as_slice(), &[1, 3, 5]);
}

#[test]
fn intersection_with_self() {
    let a = SortedSet::new(&[1, 3, 5]).unwrap();
    let res: SetBuf<i32> = OpBuilder::new(a, a).intersection().into_set_buf();
    assert_eq!(res.as_slice(), &[1, 3, 5]);
}

#[test]
fn intersection_with_empty() {
    let a = SortedSet::new(&[1, 3, 5]).unwrap();
    let e = SortedSet::new(&[]).unwrap();
    let res: SetBuf<i32> = OpBuilder::new(a, e).intersection().into_set_buf();
    assert_eq!(res.as_slice(), &[]);
}

#[test]
fn intersection_single_input() {
    let a = SortedSet::new(&[1, 3, 5]).unwrap();
    let res: SetBuf<i32> = MultiOpBuilder::from_vec(vec![a]).intersection().into_set_buf();
    assert_eq!(res.as_slice(), &[1, 3, 5]);
}

#[test]
fn difference_with_empty() {
    let a = SortedSet::new(&[1, 3, 5]).unwrap();
    let e = SortedSet::new(&[]).unwrap();
    let res: SetBuf<i32> = OpBuilder::new(a, e).difference().into_set_buf();
    assert_eq!(res.as_slice(), &[1, 3, 5]);
}

#[test]
fn difference_with_self() {
    let a = SortedSet::new(&[1, 3, 5]).unwrap();
    let res: SetBuf<i32> = OpBuilder::new(a, a).difference().into_set_buf();
    assert_eq!(res.as_slice(), &[]);
}

#[test]
fn difference_of_empty() {
    let e = SortedSet::new(&[]).unwrap();
    let b = SortedSet::new(&[1, 3, 5]).unwrap();
    let res: SetBuf<i32> = OpBuilder::new(e, b).difference().into_set_buf();
    assert_eq!(res.as_slice(), &[]);
}

#[test]
fn symmetric_difference_with_self() {
    let a = SortedSet::new(&[1, 3, 5]).unwrap();
    let res: SetBuf<i32> = OpBuilder::new(a, a).symmetric_difference().into_set_buf();
    assert_eq!(res.as_slice(), &[]);
}

#[test]
fn symmetric_difference_with_empty() {
    let a = SortedSet::new(&[1, 3, 5]).unwrap();
    let e = SortedSet::new(&[]).unwrap();
    let res: SetBuf<i32> = OpBuilder::new(a, e).symmetric_difference().into_set_buf();
    assert_eq!(res.as_slice(), &[1, 3, 5]);
}

#[test]
fn difference_union_intersection_restores_base() {
    let a = SortedSet::new(&[1, 2, 4, 6, 7]).unwrap();
    let b = SortedSet::new(&[2, 3, 4, 5]).unwrap();

    let diff: SetBuf<i32> = OpBuilder::new(a, b).difference().into_set_buf();
    let inter: SetBuf<i32> = OpBuilder::new(a, b).intersection().into_set_buf();

    let restored: SetBuf<i32> =
        OpBuilder::new(diff.as_set(), inter.as_set()).union().into_set_buf();
    assert_eq!(restored.as_slice(), a.as_slice());
}

#[test]
fn symmetric_difference_equals_two_differences() {
    let a = SortedSet::new(&[1, 2, 4, 6, 7]).unwrap();
    let b = SortedSet::new(&[2, 3, 4, 5]).unwrap();

    let sym: SetBuf<i32> = OpBuilder::new(a, b).symmetric_difference().into_set_buf();

    let d1: SetBuf<i32> = OpBuilder::new(a, b).difference().into_set_buf();
    let d2: SetBuf<i32> = OpBuilder::new(b, a).difference().into_set_buf();
    let both: SetBuf<i32> = OpBuilder::new(d1.as_set(), d2.as_set()).union().into_set_buf();

    assert_eq!(sym.as_slice(), both.as_slice());
}

#[test]
fn counter_matches_buffer_length() {
    let a = SortedSet::new(&[1, 2, 4, 6, 7]).unwrap();
    let b = SortedSet::new(&[2, 3, 4, 5]).unwrap();

    let buffered: SetBuf<i32> = OpBuilder::new(a, b).symmetric_difference().into_set_buf();

    let mut counter = Counter::<i32>::new();
    OpBuilder::new(a, b).symmetric_difference().extend_collection(&mut counter);

    assert_eq!(counter.get(), buffered.len());
}
