//! Interchangeable search strategies over ordered sequences.

use vstd::prelude::*;

use crate::model::{has_key, lemma_sorted_implies_nondec, sorted_keys, Element};

verus! {

/// A strategy for locating a key in an ordered sequence.
///
/// Every strategy returns `Ok` with the index of the element carrying the
/// sought key, or `Err` with the insertion point that keeps the keys
/// strictly increasing; [`Algorithm::offset_ge`] derives the suffix of
/// elements at or above the sought key.
pub trait Algorithm {
    /// Locates the key of `elem` in `slice`.
    fn search<T: Element>(slice: &[T], elem: &T) -> (r: Result<usize, usize>)
        requires
            sorted_keys(slice@),
        ensures
            match r {
                Ok(i) => {
                    &&& 0 <= i < slice@.len()
                    &&& slice@[i as int].key() == elem.key()
                    &&& forall|j: int| 0 <= j < i ==> slice@[j].key() < elem.key()
                    &&& forall|j: int| i < j < slice@.len() ==> slice@[j].key() > elem.key()
                },
                Err(i) => {
                    &&& 0 <= i <= slice@.len()
                    &&& !has_key(slice@, elem.key())
                    &&& forall|j: int| 0 <= j < i ==> slice@[j].key() < elem.key()
                    &&& forall|j: int| i <= j < slice@.len() ==> slice@[j].key() > elem.key()
                },
            },
    ;

    /// The suffix of `slice` whose keys are at least the key of `elem`.
    fn offset_ge<'a, T: Element>(slice: &'a [T], elem: &T) -> (r: &'a [T])
        requires
            sorted_keys(slice@),
        ensures
            exists|i: int|
                {
                    &&& 0 <= i <= slice@.len()
                    &&& #[trigger] r@ == slice@.skip(i)
                    &&& forall|j: int| 0 <= j < i ==> slice@[j].key() < elem.key()
                    &&& forall|j: int| i <= j < slice@.len() ==> slice@[j].key() >= elem.key()
                },
    {
        let idx = match Self::search(slice, elem) {
            Ok(i) => i,
            Err(i) => i,
        };
        let r = &slice[idx..slice.len()];
        proof {
            assert(r@ == slice@.skip(idx as int)) by {
                assert(r@ =~= slice@.skip(idx as int));
            }
        }
        r
    }
}

/// Linear scan from the front.
pub struct Linear;

impl Algorithm for Linear {
    #[verifier::loop_isolation(false)]
    fn search<T: Element>(slice: &[T], elem: &T) -> (r: Result<usize, usize>) {
        let k = elem.keyv();
        let len = slice.len();
        let mut i: usize = 0;
        while i < len
            invariant
                len == slice@.len(),
                0 <= i <= len,
                forall|j: int| 0 <= j < i ==> slice@[j].key() < k as int,
            decreases len - i,
        {
            let h = slice[i].keyv();
            if h == k {
                return Ok(i);
            }
            if h > k {
                proof {
                    assert forall|j: int| i <= j < slice@.len() implies slice@[j].key()
                        > elem.key() by {
                        if j > i {
                            assert(slice@[i as int].key() < slice@[j].key());
                        }
                    }
                    assert(!has_key(slice@, elem.key()));
                }
                return Err(i);
            }
            i += 1;
        }
        proof {
            assert(!has_key(slice@, elem.key()));
        }
        Err(len)
    }
}

/// Binary search over the whole sequence.
pub struct Binary;

impl Algorithm for Binary {
    fn search<T: Element>(slice: &[T], elem: &T) -> (r: Result<usize, usize>) {
        let k = elem.keyv();
        proof {
            lemma_sorted_implies_nondec(slice@);
        }
        let idx = crate::binary_lower_bound(slice, 0, slice.len(), k);
        if idx < slice.len() && slice[idx].keyv() == k {
            Ok(idx)
        } else {
            proof {
                assert forall|j: int| idx <= j < slice@.len() implies slice@[j].key()
                    > elem.key() by {
                    if j > idx {
                        assert(slice@[idx as int].key() < slice@[j].key());
                    }
                }
                assert(!has_key(slice@, elem.key()));
            }
            Err(idx)
        }
    }
}

/// Exponential probing followed by binary search; optimal when the answer
/// lies near the front.
pub struct Exponential;

impl Algorithm for Exponential {
    fn search<T: Element>(slice: &[T], elem: &T) -> (r: Result<usize, usize>) {
        crate::exponential_search(slice, elem)
    }
}

} // verus!
