//! Set operations for already sorted and deduplicated sequences.
//!
//! The inputs of every operation are sequences whose keys strictly increase
//! (see [`model::Element`]); on such inputs union, intersection, difference
//! and symmetric difference run in a single advancing pass, skipping runs
//! with exponential search, and emit their result in increasing order.

use vstd::prelude::*;

pub mod algorithm;
pub mod collection;
pub mod duo;
pub mod laws;
pub mod model;
pub mod multi;
pub mod set;
pub mod two_minimums;

pub use collection::{Collection, Counter};
pub use algorithm::{Algorithm, Binary, Exponential, Linear};
pub use model::{Element, KeyValue};
pub use set::{is_sort_dedup, sort_dedup_vec, Error, SetBuf, SortedSet};
pub use two_minimums::{two_minimums, Minimums};
use model::{has_key, nondec_keys, sorted_keys};

verus! {

/// Lower bound by binary search: the first index of `[lo, hi)` whose key is
/// at least `k`, given that smaller keys precede larger ones.
pub(crate) fn binary_lower_bound<T: Element>(slice: &[T], lo: usize, hi: usize, k: i64) -> (idx: usize)
    requires
        nondec_keys(slice@),
        lo <= hi <= slice@.len(),
    ensures
        lo <= idx <= hi,
        forall|j: int| lo <= j < idx ==> slice@[j].key() < k as int,
        forall|j: int| idx <= j < hi ==> slice@[j].key() >= k as int,
{
    let ghost lo0 = lo;
    let ghost hi0 = hi;
    let mut lo = lo;
    let mut hi = hi;
    while lo < hi
        invariant
            nondec_keys(slice@),
            lo0 <= lo <= hi <= hi0 <= slice@.len(),
            forall|j: int| lo0 <= j < lo ==> slice@[j].key() < k as int,
            forall|j: int| hi <= j < hi0 ==> slice@[j].key() >= k as int,
        decreases hi - lo,
    {
        let mid = lo + (hi - lo) / 2;
        if slice[mid].keyv() < k {
            lo = mid + 1;
        } else {
            hi = mid;
        }
    }
    lo
}

/// The first index at or after `from` whose key is at least `k`, found by
/// exponential probing followed by binary search in the bracketed window.
///
/// This is the run-skipping kernel of every operator: it costs time
/// logarithmic in the distance from `from` to the answer.
pub(crate) fn lower_bound_from<T: Element>(slice: &[T], from: usize, k: i64) -> (idx: usize)
    requires
        nondec_keys(slice@),
        from <= slice@.len(),
    ensures
        from <= idx <= slice@.len(),
        forall|j: int| from <= j < idx ==> slice@[j].key() < k as int,
        forall|j: int| idx <= j < slice@.len() ==> slice@[j].key() >= k as int,
{
    let len = slice.len();
    let mut i: usize = 1;
    while i < len - from && slice[from + i].keyv() < k
        invariant
            nondec_keys(slice@),
            from <= len == slice@.len(),
            1 <= i <= len - from || (len - from == 0 && i == 1),
            i > 1 ==> from + i / 2 < len && slice@[from + i / 2].key() < k as int,
        decreases len - from - i,
    {
        if i <= usize::MAX / 2 && i * 2 < len - from {
            i = i * 2;
        } else {
            i = len - from;
        }
    }
    let half = i / 2;
    let bound = if i < len - from {
        from + i + 1
    } else {
        len
    };
    let idx = binary_lower_bound(slice, from + half, bound, k);
    proof {
        if bound < len {
            assert(slice@[from + i].key() >= k as int);
        }
    }
    idx
}

/// Upper bound by binary search: the first index of `[lo, hi)` whose key
/// exceeds `k`, given that smaller keys precede larger ones.
fn binary_upper_bound<T: Element>(slice: &[T], lo: usize, hi: usize, k: i64) -> (idx: usize)
    requires
        nondec_keys(slice@),
        lo <= hi <= slice@.len(),
    ensures
        lo <= idx <= hi,
        forall|j: int| lo <= j < idx ==> slice@[j].key() <= k as int,
        forall|j: int| idx <= j < hi ==> slice@[j].key() > k as int,
{
    let ghost lo0 = lo;
    let ghost hi0 = hi;
    let mut lo = lo;
    let mut hi = hi;
    while lo < hi
        invariant
            nondec_keys(slice@),
            lo0 <= lo <= hi <= hi0 <= slice@.len(),
            forall|j: int| lo0 <= j < lo ==> slice@[j].key() <= k as int,
            forall|j: int| hi <= j < hi0 ==> slice@[j].key() > k as int,
        decreases hi - lo,
    {
        let mid = lo + (hi - lo) / 2;
        if slice[mid].keyv() <= k {
            lo = mid + 1;
        } else {
            hi = mid;
        }
    }
    lo
}

/// The first index at or after `from` whose key exceeds `k`, found by
/// exponential probing followed by binary search in the bracketed window.
pub(crate) fn upper_bound_from<T: Element>(slice: &[T], from: usize, k: i64) -> (idx: usize)
    requires
        nondec_keys(slice@),
        from <= slice@.len(),
    ensures
        from <= idx <= slice@.len(),
        forall|j: int| from <= j < idx ==> slice@[j].key() <= k as int,
        forall|j: int| idx <= j < slice@.len() ==> slice@[j].key() > k as int,
{
    let len = slice.len();
    let mut i: usize = 1;
    while i < len - from && slice[from + i].keyv() <= k
        invariant
            nondec_keys(slice@),
            from <= len == slice@.len(),
            1 <= i <= len - from || (len - from == 0 && i == 1),
            i > 1 ==> from + i / 2 < len && slice@[from + i / 2].key() <= k as int,
        decreases len - from - i,
    {
        if i <= usize::MAX / 2 && i * 2 < len - from {
            i = i * 2;
        } else {
            i = len - from;
        }
    }
    let half = i / 2;
    let bound = if i < len - from {
        from + i + 1
    } else {
        len
    };
    let idx = binary_upper_bound(slice, from + half, bound, k);
    proof {
        if bound < len {
            assert(slice@[from + i].key() > k as int);
        }
    }
    idx
}

/// A set operation, ready to be driven to completion.
///
/// Driving appends the operation's result to a collector of the caller's
/// choice; what the result is, each operation states through
/// [`SetOperation::emits`].
pub trait SetOperation<T: Element>: Sized {
    /// The operation's inputs are in shape.
    spec fn wf(&self) -> bool;

    /// `r` is the sequence this operation emits.
    spec fn emits(&self, r: Seq<T>) -> bool;

    /// Drives the operation, appending its result to `output`.
    fn extend_collection<C: Collection<T>>(self, output: &mut C)
        requires
            self.wf(),
            old(output).inv(),
        ensures
            final(output).inv(),
            exists|r: Seq<T>|
                {
                    &&& final(output).contents() == old(output).contents() + r
                    &&& #[trigger] self.emits(r)
                    &&& nondec_keys(r)
                },
    ;

    /// Drives the operation, appending its result to a growable buffer.
    fn extend_vec(self, output: &mut Vec<T>)
        requires
            self.wf(),
        ensures
            exists|r: Seq<T>|
                {
                    &&& final(output)@ == old(output)@ + r
                    &&& #[trigger] self.emits(r)
                    &&& nondec_keys(r)
                },
    {
        self.extend_collection(output)
    }

    /// Drives the operation into a fresh owned set.
    fn into_set_buf(self) -> (r: SetBuf<T>)
        requires
            self.wf(),
        ensures
            nondec_keys(r@),
            self.emits(r@),
    {
        let mut vec: Vec<T> = Vec::new();
        let ghost op = self;
        self.extend_vec(&mut vec);
        proof {
            let r = choose|r: Seq<T>|
                vec@ == Seq::<T>::empty() + r && #[trigger] op.emits(r) && nondec_keys(r);
            assert(Seq::<T>::empty() + r =~= r);
        }
        SetBuf::new_unchecked(vec)
    }
}

/// Exponential search for an element with the key of `elem`.
///
/// Returns `Ok` with the index of the element carrying that key, or `Err`
/// with the index at which such an element could be inserted while keeping
/// the keys strictly increasing.
pub fn exponential_search<T: Element>(slice: &[T], elem: &T) -> (r: Result<usize, usize>)
    requires
        sorted_keys(slice@),
    ensures
        match r {
            Ok(i) => {
                &&& 0 <= i < slice@.len()
                &&& slice@[i as int].key() == elem.key()
                &&& forall|j: int| 0 <= j < i ==> slice@[j].key() < elem.key()
                &&& forall|j: int| i < j < slice@.len() ==> slice@[j].key() > elem.key()
            },
            Err(i) => {
                &&& 0 <= i <= slice@.len()
                &&& !has_key(slice@, elem.key())
                &&& forall|j: int| 0 <= j < i ==> slice@[j].key() < elem.key()
                &&& forall|j: int| i <= j < slice@.len() ==> slice@[j].key() > elem.key()
            },
        },
{
    let k = elem.keyv();
    proof {
        model::lemma_sorted_implies_nondec(slice@);
    }
    let idx = lower_bound_from(slice, 0, k);
    if idx < slice.len() && slice[idx].keyv() == k {
        Ok(idx)
    } else {
        proof {
            assert forall|j: int| idx <= j < slice@.len() implies slice@[j].key() > elem.key() by {
                if j > idx {
                    assert(slice@[idx as int].key() < slice@[j].key());
                }
            }
            assert(!has_key(slice@, elem.key()));
        }
        Err(idx)
    }
}

} // verus!
