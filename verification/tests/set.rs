//! The ordered-sequence view, its owned form, the search kernels and the
//! helpers.

use std::borrow::Cow;

use sdset::set::{vec_slices_into_sets, Bound};
use sdset::{
    exponential_search, is_sort_dedup, sort_dedup_vec, two_minimums, Algorithm, Binary, Error,
    Exponential, Linear, Minimums, SetBuf, SortedSet,
};

#[test]
fn range_set() {
    let set = SortedSet::new(&[1, 2, 4, 6, 7]).unwrap();

    let subset = set.range(Bound::Excluded(1), Bound::Unbounded);
    assert_eq!(subset.as_slice(), &[2, 4, 6, 7]);

    let subset = set.range(Bound::Excluded(1), Bound::Included(4));
    assert_eq!(subset.as_slice(), &[2, 4]);

    let subset = set.range(Bound::Excluded(0), Bound::Included(4));
    assert_eq!(subset.as_slice(), &[1, 2, 4]);

    let subset = set.range(Bound::Unbounded, Bound::Excluded(10));
    assert_eq!(subset.as_slice(), &[1, 2, 4, 6, 7]);
}

#[test]
fn range_set_endpoints() {
    let set = SortedSet::new(&[1, 2, 4, 6, 7]).unwrap();

    let subset = set.range(Bound::Included(2), Bound::Included(6));
    assert_eq!(subset.as_slice(), &[2, 4, 6]);

    let subset = set.range(Bound::Included(3), Bound::Excluded(5));
    assert_eq!(subset.as_slice(), &[4]);

    let subset = set.range(Bound::Excluded(2), Bound::Included(7));
    assert_eq!(subset.as_slice(), &[4, 6, 7]);

    let subset = set.range(Bound::Included(5), Bound::Included(3));
    assert_eq!(subset.as_slice(), &[]);
}

#[test]
fn cow_set_setbuf() {
    let set = SortedSet::new(&[1, 2, 4, 6, 7]).unwrap();

    let borrowed_cow: Cow<SortedSet<i32>> = Cow::Borrowed(&set);
    let owned_cow = borrowed_cow.to_owned();

    assert_eq!(&*owned_cow, &set);
}

#[test]
fn new_rejects_unsorted() {
    let slice = &[1, 2, 4, 7, 6];
    let set = SortedSet::new(slice);
    assert_eq!(set, Err(Error::NotSort));
}

#[test]
fn new_rejects_duplicates() {
    let slice = &[1, 2, 2, 6];
    let set = SortedSet::new(slice);
    assert_eq!(set, Err(Error::NotDedup));
}

#[test]
fn set_buf_new_checks() {
    let setbuf = SetBuf::new(vec![1, 2, 4, 6, 7]).unwrap();
    assert_eq!(setbuf.as_slice(), &[1, 2, 4, 6, 7]);

    let setbuf = SetBuf::new(vec![1, 2, 4, 7, 6]);
    assert_eq!(setbuf, Err(Error::NotSort));

    let setbuf = SetBuf::new(vec![1, 1, 2]);
    assert_eq!(setbuf, Err(Error::NotDedup));
}

#[test]
fn is_sort_dedup_reports_first_violation() {
    assert_eq!(is_sort_dedup::<i32>(&[]), Ok(()));
    assert_eq!(is_sort_dedup(&[1, 2, 3]), Ok(()));
    assert_eq!(is_sort_dedup(&[1, 1, 0]), Err(Error::NotDedup));
    assert_eq!(is_sort_dedup(&[2, 1, 1]), Err(Error::NotSort));
}

#[test]
fn exponential_search_outcomes() {
    let s = &[0, 1, 2, 3, 5, 8, 13, 21, 34, 55];

    assert_eq!(exponential_search(s, &13), Ok(6));
    assert_eq!(exponential_search(s, &4), Err(4));
    assert_eq!(exponential_search(s, &100), Err(10));
    assert_eq!(exponential_search(s, &0), Ok(0));
}

#[test]
fn set_exponential_search_and_contains() {
    let set = SortedSet::new(&[1, 2, 4, 6, 7]).unwrap();

    assert_eq!(set.exponential_search(&4), Ok(2));
    assert_eq!(set.exponential_search(&5), Err(3));
    assert!(set.contains(&4));
    assert!(!set.contains(&5));
}

#[test]
fn search_strategies_agree() {
    let s = &[0, 1, 2, 3, 5, 8, 13, 21, 34, 55];

    assert_eq!(Linear::search(s, &13), Ok(6));
    assert_eq!(Binary::search(s, &13), Ok(6));
    assert_eq!(Exponential::search(s, &13), Ok(6));

    assert_eq!(Linear::search(s, &4), Err(4));
    assert_eq!(Binary::search(s, &4), Err(4));
    assert_eq!(Exponential::search(s, &4), Err(4));
}

#[test]
fn offset_ge_skips_to_suffix() {
    let s = &[1, 3, 5, 7];

    assert_eq!(Exponential::offset_ge(s, &4), &[5, 7]);
    assert_eq!(Linear::offset_ge(s, &1), &[1, 3, 5, 7]);
    assert_eq!(Binary::offset_ge(s, &8), &[] as &[i32]);
}

#[test]
fn sort_dedup_vec_normalizes() {
    let mut vec = vec![1, 4, 2, 6, 4];
    sort_dedup_vec(&mut vec);
    assert_eq!(&vec, &[1, 2, 4, 6]);
}

#[test]
fn from_dirty_normalizes() {
    let set = SetBuf::from_dirty(vec![1, 4, 2, 6, 4]);
    let mut iterator = set.into_vec().into_iter();

    assert_eq!(iterator.next(), Some(1));
    assert_eq!(iterator.next(), Some(2));
    assert_eq!(iterator.next(), Some(4));
    assert_eq!(iterator.next(), Some(6));
    assert_eq!(iterator.next(), None);
}

#[test]
fn set_iterators() {
    let x = SortedSet::new_unchecked(&[1, 2, 4]);
    let mut iterator = x.iter();

    assert_eq!(iterator.next(), Some(&1));
    assert_eq!(iterator.next(), Some(&2));
    assert_eq!(iterator.next(), Some(&4));
    assert_eq!(iterator.next(), None);

    let x = SetBuf::new_unchecked(vec![1, 2, 4]);
    let mut iterator = x.iter();

    assert_eq!(iterator.next(), Some(&1));
    assert_eq!(iterator.next(), Some(&2));
    assert_eq!(iterator.next(), Some(&4));
    assert_eq!(iterator.next(), None);
}

#[test]
fn empty_sets() {
    let set: SortedSet<i32> = SortedSet::empty();
    assert_eq!(set.len(), 0);
    assert!(set.is_empty());

    let setbuf: SetBuf<i32> = SetBuf::empty();
    assert_eq!(setbuf.len(), 0);
    assert!(setbuf.is_empty());
}

#[test]
fn set_buf_as_set_round_trip() {
    let vec = vec![1, 2, 4, 6, 7];
    let setbuf = SetBuf::new(vec.clone()).unwrap();

    let set = SortedSet::new(&vec).unwrap();
    assert_eq!(setbuf.as_set(), set);
    assert_eq!(setbuf.into_vec(), vec);
}

#[test]
fn vec_slices_into_sets_outcomes() {
    let a = &[1, 2, 3, 4][..];
    let b = &[1, 4, 6, 7];
    let slices = vec![a, b];

    let sets = vec_slices_into_sets(slices).unwrap();
    assert_eq!(sets.len(), 2);
    assert_eq!(sets[0].as_slice(), a);
    assert_eq!(sets[1].as_slice(), b);

    let bad = &[3, 1][..];
    let (given_back, errors) = vec_slices_into_sets(vec![a, bad]).unwrap_err();
    assert_eq!(given_back.len(), 2);
    assert_eq!(errors, vec![None, Some(Error::NotSort)]);
}

#[test]
fn two_minimums_outcomes() {
    let none: Vec<&[i32]> = vec![&[], &[]];
    assert!(matches!(two_minimums(&none), Minimums::Nothing));

    let a: &[i32] = &[4, 9];
    let empty: &[i32] = &[];
    let one = vec![empty, a];
    match two_minimums(&one) {
        Minimums::One((i, v)) => {
            assert_eq!(i, 1);
            assert_eq!(v, 4);
        },
        _ => panic!("expected a single remaining input"),
    }

    let b: &[i32] = &[5];
    let c: &[i32] = &[5, 6];
    let two = vec![a, b, c];
    match two_minimums(&two) {
        Minimums::Two((i, f), (j, s)) => {
            assert_eq!((i, f), (0, 4));
            assert_eq!((j, s), (1, 5));
        },
        _ => panic!("expected two remaining inputs"),
    }
}
