//! The ordered-sequence view [`SortedSet`] and its owned form [`SetBuf`].

use vstd::prelude::*;

use crate::model::{
    has_key, lemma_adjacent_implies_sorted, lemma_filter_interval, lemma_sorted_implies_nondec,
    nondec_keys, sorted_keys, Element,
};
use crate::{exponential_search, lower_bound_from, upper_bound_from};

verus! {

/// The possible failures when validating a would-be set.
#[derive(Debug, Copy, Clone, PartialEq, Eq, Hash, Structural)]
pub enum Error {
    /// The sequence is not sorted.
    NotSort,
    /// The sequence holds duplicates.
    NotDedup,
}

/// The list of outcomes of validating several slices at once.
pub type Errors = Vec<Option<Error>>;

/// `i` is the first adjacency of `s` at which the keys fail to increase.
pub open spec fn first_violation<T: Element>(s: Seq<T>, i: int) -> bool {
    &&& 0 <= i < s.len() - 1
    &&& s[i].key() >= s[i + 1].key()
    &&& forall|j: int| 0 <= j < i ==> (#[trigger] s[j]).key() < s[j + 1].key()
}

/// `e` is the error that validating `s` reports: [`Error::NotDedup`] when the
/// first offending adjacency repeats a key, [`Error::NotSort`] when it goes
/// down.
pub open spec fn validation_error<T: Element>(s: Seq<T>, e: Error) -> bool {
    exists|i: int|
        #[trigger] first_violation(s, i) && e == if s[i].key() == s[i + 1].key() {
            Error::NotDedup
        } else {
            Error::NotSort
        }
}

/// Checks that the keys of `slice` strictly increase, reporting the first
/// offending adjacency otherwise.
pub fn is_sort_dedup<T: Element>(slice: &[T]) -> (r: Result<(), Error>)
    ensures
        match r {
            Ok(_) => sorted_keys(slice@),
            Err(e) => !sorted_keys(slice@) && validation_error(slice@, e),
        },
{
    let len = slice.len();
    let mut i: usize = 1;
    while i < len
        invariant
            len == slice@.len(),
            1 <= i,
            forall|j: int| 0 <= j < i - 1 ==> (#[trigger] slice@[j]).key() < slice@[j + 1].key(),
        decreases len - i,
    {
        let ka = slice[i - 1].keyv();
        let kb = slice[i].keyv();
        if ka >= kb {
            proof {
                assert(first_violation(slice@, i - 1));
            }
            if ka == kb {
                return Err(Error::NotDedup);
            } else {
                return Err(Error::NotSort);
            }
        }
        i += 1;
    }
    proof {
        lemma_adjacent_implies_sorted(slice@);
    }
    Ok(())
}

/// A read-only view over a contiguous run of elements whose keys strictly
/// increase.
///
/// The view borrows its elements and vanishes at runtime; it is the input
/// form of every set operation in this crate.
#[derive(Debug, Clone, Copy, PartialEq, Eq)]
pub struct SortedSet<'a, T: Element> {
    /// The underlying slice.
    pub elems: &'a [T],
}

impl<'a, T: Element> View for SortedSet<'a, T> {
    type V = Seq<T>;

    open spec fn view(&self) -> Seq<T> {
        self.elems@
    }
}

/// An endpoint of a key range.
#[derive(Debug, Clone, Copy, PartialEq, Eq)]
pub enum Bound<T> {
    /// The endpoint's key is part of the range.
    Included(T),
    /// The endpoint's key is just outside the range.
    Excluded(T),
    /// The range extends without limit on this side.
    Unbounded,
}

/// The key `k` lies at or after the start bound `b`.
pub open spec fn above_start<T: Element>(b: Bound<T>, k: int) -> bool {
    match b {
        Bound::Included(x) => k >= x.key(),
        Bound::Excluded(x) => k > x.key(),
        Bound::Unbounded => true,
    }
}

/// The key `k` lies at or before the end bound `b`.
pub open spec fn below_end<T: Element>(b: Bound<T>, k: int) -> bool {
    match b {
        Bound::Included(x) => k <= x.key(),
        Bound::Excluded(x) => k < x.key(),
        Bound::Unbounded => true,
    }
}

impl<'a, T: Element> SortedSet<'a, T> {
    /// The view's invariant: keys strictly increase.
    pub open spec fn wf(self) -> bool {
        sorted_keys(self@)
    }

    /// Wraps `slice` after validating that its keys strictly increase.
    pub fn new(slice: &'a [T]) -> (r: Result<Self, Error>)
        ensures
            match r {
                Ok(s) => s@ == slice@ && s.wf(),
                Err(e) => !sorted_keys(slice@) && validation_error(slice@, e),
            },
    {
        match is_sort_dedup(slice) {
            Ok(_) => Ok(SortedSet { elems: slice }),
            Err(e) => Err(e),
        }
    }

    /// Wraps `slice` without checking it.
    ///
    /// When the keys of `slice` do not strictly increase, every operation on
    /// the result may emit arbitrary elements in arbitrary order.
    pub fn new_unchecked(slice: &'a [T]) -> (r: Self)
        ensures
            r@ == slice@,
    {
        SortedSet { elems: slice }
    }

    /// The view over no elements.
    pub fn empty() -> (r: SortedSet<'static, T>)
        ensures
            r@ == Seq::<T>::empty(),
            r.wf(),
    {
        let elems: &'static [T] = &[];
        proof {
            assert(elems@ =~= Seq::<T>::empty());
        }
        SortedSet { elems }
    }

    /// The number of elements in the view.
    pub fn len(&self) -> (r: usize)
        ensures
            r == self@.len(),
    {
        self.elems.len()
    }

    /// Whether the view holds no element.
    pub fn is_empty(&self) -> (r: bool)
        ensures
            r == (self@.len() == 0),
    {
        self.elems.is_empty()
    }

    /// The slice inside this view.
    pub fn as_slice(&self) -> (r: &'a [T])
        ensures
            r@ == self@,
    {
        self.elems
    }

    /// Exponential search for an element with the key of `elem`; see
    /// [`crate::exponential_search`].
    pub fn exponential_search(&self, elem: &T) -> (r: Result<usize, usize>)
        requires
            self.wf(),
        ensures
            match r {
                Ok(i) => 0 <= i < self@.len() && self@[i as int].key() == elem.key(),
                Err(i) => {
                    &&& 0 <= i <= self@.len()
                    &&& !has_key(self@, elem.key())
                    &&& forall|j: int| 0 <= j < i ==> self@[j].key() < elem.key()
                    &&& forall|j: int| i <= j < self@.len() ==> self@[j].key() > elem.key()
                },
            },
    {
        exponential_search(self.elems, elem)
    }

    /// Whether some element of the view carries the key of `x`.
    pub fn contains(&self, x: &T) -> (r: bool)
        requires
            self.wf(),
        ensures
            r == has_key(self@, x.key()),
    {
        match self.exponential_search(x) {
            Ok(i) => {
                proof {
                    assert(has_key(self@, x.key()));
                }
                true
            },
            Err(_) => false,
        }
    }

    /// The maximal sub-view whose keys lie between `start` and `end`.
    ///
    /// Both endpoints are located with exponential search.
    pub fn range(&self, start: Bound<T>, end: Bound<T>) -> (r: SortedSet<'a, T>)
        requires
            self.wf(),
        ensures
            r@ == self@.filter(|x: T| above_start(start, x.key()) && below_end(end, x.key())),
            r.wf(),
    {
        proof {
            lemma_sorted_implies_nondec(self@);
        }
        let len = self.elems.len();
        let left = match start {
            Bound::Included(x) => lower_bound_from(self.elems, 0, x.keyv()),
            Bound::Excluded(x) => upper_bound_from(self.elems, 0, x.keyv()),
            Bound::Unbounded => 0,
        };
        let right = match end {
            Bound::Included(x) => upper_bound_from(self.elems, 0, x.keyv()),
            Bound::Excluded(x) => lower_bound_from(self.elems, 0, x.keyv()),
            Bound::Unbounded => len,
        };
        let ghost pred = |x: T| above_start(start, x.key()) && below_end(end, x.key());
        if right < left {
            proof {
                crate::model::lemma_filter_all_false(self@, pred);
            }
            let r = SortedSet { elems: &self.elems[left..left] };
            proof {
                assert(r@ =~= Seq::<T>::empty());
            }
            r
        } else {
            proof {
                assert forall|j: int| 0 <= j < self@.len() implies (pred(#[trigger] self@[j])
                    <==> left <= j < right) by {}
                lemma_filter_interval(self@, pred, left as int, right as int);
            }
            SortedSet { elems: &self.elems[left..right] }
        }
    }

    /// An iterator over this view's elements.
    pub fn iter(&self) -> (r: std::slice::Iter<'a, T>)
        ensures
            r == vstd::std_specs::slice::spec_slice_iter(self.elems),
    {
        self.elems.iter()
    }

    /// Clones the view into its owned form.
    pub fn to_set_buf(&self) -> (r: SetBuf<T>)
        ensures
            r@ == self@,
    {
        SetBuf { vec: vstd::slice::slice_to_vec(self.elems) }
    }
}

impl<'a, T: Element> Default for SortedSet<'a, T> {
    /// The view over no elements.
    fn default() -> (r: Self)
        ensures
            r@ == Seq::<T>::empty(),
            r.wf(),
    {
        let elems: &'a [T] = &[];
        proof {
            assert(elems@ =~= Seq::<T>::empty());
        }
        SortedSet { elems }
    }
}

/// The owned form of [`SortedSet`]: a growable buffer whose keys strictly
/// increase.
#[derive(Debug, Clone, PartialEq, Eq)]
pub struct SetBuf<T: Element> {
    /// The underlying buffer.
    pub vec: Vec<T>,
}

impl<T: Element> View for SetBuf<T> {
    type V = Seq<T>;

    open spec fn view(&self) -> Seq<T> {
        self.vec@
    }
}

impl<T: Element> SetBuf<T> {
    /// The buffer's invariant: keys strictly increase.
    pub open spec fn wf(self) -> bool {
        sorted_keys(self@)
    }

    /// Wraps `vec` after validating that its keys strictly increase.
    pub fn new(vec: Vec<T>) -> (r: Result<Self, Error>)
        ensures
            match r {
                Ok(s) => s@ == vec@ && s.wf(),
                Err(e) => !sorted_keys(vec@) && validation_error(vec@, e),
            },
    {
        match is_sort_dedup(vec.as_slice()) {
            Ok(_) => Ok(SetBuf { vec }),
            Err(e) => Err(e),
        }
    }

    /// Wraps `vec` without checking it.
    pub fn new_unchecked(vec: Vec<T>) -> (r: Self)
        ensures
            r@ == vec@,
    {
        SetBuf { vec }
    }

    /// Normalizes an arbitrary buffer: afterwards the keys strictly increase,
    /// every key of the input is kept, and every element comes from the
    /// input.
    pub fn from_dirty(vec: Vec<T>) -> (r: Self)
        ensures
            r.wf(),
            forall|k: int| has_key(r@, k) <==> has_key(vec@, k),
            forall|x: T| r@.contains(x) ==> vec@.contains(x),
    {
        let mut vec = vec;
        sort_dedup_vec(&mut vec);
        SetBuf { vec }
    }

    /// The empty buffer.
    pub fn empty() -> (r: Self)
        ensures
            r@ == Seq::<T>::empty(),
            r.wf(),
    {
        let r = SetBuf { vec: Vec::new() };
        proof {
            assert(r@ =~= Seq::<T>::empty());
        }
        r
    }

    /// The number of elements in the buffer.
    pub fn len(&self) -> (r: usize)
        ensures
            r == self@.len(),
    {
        self.vec.len()
    }

    /// Whether the buffer holds no element.
    pub fn is_empty(&self) -> (r: bool)
        ensures
            r == (self@.len() == 0),
    {
        self.vec.is_empty()
    }

    /// The view over this buffer.
    pub fn as_set<'b>(&'b self) -> (r: SortedSet<'b, T>)
        ensures
            r@ == self@,
    {
        SortedSet { elems: self.vec.as_slice() }
    }

    /// The slice inside this buffer.
    pub fn as_slice(&self) -> (r: &[T])
        ensures
            r@ == self@,
    {
        self.vec.as_slice()
    }

    /// An iterator over this buffer's elements.
    pub fn iter<'b>(&'b self) -> (r: std::slice::Iter<'b, T>) {
        self.vec.as_slice().iter()
    }

    /// The buffer inside this owned set.
    pub fn into_vec(self) -> (r: Vec<T>)
        ensures
            r@ == self@,
    {
        self.vec
    }
}

impl<T: Element> Default for SetBuf<T> {
    /// The empty buffer.
    fn default() -> (r: Self)
        ensures
            r@ == Seq::<T>::empty(),
            r.wf(),
    {
        SetBuf::empty()
    }
}

/// Sorts `vec` by key and removes every repeated key: afterwards the keys
/// strictly increase, every key of the input is kept, and every element comes
/// from the input.
pub fn sort_dedup_vec<T: Element>(vec: &mut Vec<T>)
    ensures
        sorted_keys(final(vec)@),
        forall|k: int| has_key(final(vec)@, k) <==> has_key(old(vec)@, k),
        forall|x: T| final(vec)@.contains(x) ==> old(vec)@.contains(x),
{
    let ghost input = vec@;
    let mut out: Vec<T> = Vec::new();
    let len = vec.len();
    let mut i: usize = 0;
    while i < len
        invariant
            len == vec@.len(),
            vec@ == input,
            0 <= i <= len,
            sorted_keys(out@),
            forall|k: int| has_key(out@, k) <==> has_key(input.take(i as int), k),
            forall|x: T| out@.contains(x) ==> input.contains(x),
        decreases len - i,
    {
        let x = vec[i];
        let k = x.keyv();
        proof {
            lemma_sorted_implies_nondec(out@);
        }
        let idx = lower_bound_from(out.as_slice(), 0, k);
        let ghost out_pre = out@;
        if idx < out.len() && out[idx].keyv() == k {
            proof {
                assert(out@[idx as int].key() == x.key());
                crate::model::lemma_has_key_intro(out@, idx as int);
                assert(has_key(out@, x.key()));
                assert forall|kk: int| has_key(out@, kk) <==> has_key(
                    input.take(i + 1),
                    kk,
                ) by {
                    assert(has_key(out@, kk) <==> has_key(input.take(i as int), kk));
                    crate::model::lemma_has_key_take_step(input, i as int, kk);
                    if kk == x.key() {
                        assert(has_key(out@, kk));
                    }
                }
            }
        } else {
            out.insert(idx, x);
            proof {
                assert forall|j: int| idx <= j < out_pre.len() implies (#[trigger] out_pre[j]).key()
                    > x.key() by {
                    assert(out_pre[idx as int].key() >= k as int);
                    assert(out_pre[idx as int].key() != k as int);
                    if j > idx {
                        assert(out_pre[idx as int].key() < out_pre[j].key());
                    }
                }
                crate::model::lemma_sorted_insert(out_pre, idx as int, x);
                assert(out@ == out_pre.insert(idx as int, x));
                assert(input.contains(x)) by {
                    assert(input[i as int] == x);
                }
                assert forall|kk: int| has_key(out@, kk) <==> has_key(
                    input.take(i + 1),
                    kk,
                ) by {
                    assert(has_key(out_pre, kk) <==> has_key(input.take(i as int), kk));
                    crate::model::lemma_has_key_take_step(input, i as int, kk);
                }
            }
        }
        i += 1;
    }
    proof {
        assert(input.take(len as int) =~= input);
    }
    *vec = out;
}

/// Validates several slices at once: wraps each when all of them pass, or
/// hands the slices back along with each slice's outcome.
pub fn vec_slices_into_sets<'a, T: Element>(vec: Vec<&'a [T]>) -> (r: Result<
    Vec<SortedSet<'a, T>>,
    (Vec<&'a [T]>, Errors),
>)
    ensures
        match r {
            Ok(sets) => {
                &&& sets@.len() == vec@.len()
                &&& forall|i: int|
                    0 <= i < vec@.len() ==> sorted_keys(#[trigger] vec@[i]@) && sets@[i]@ == vec@[i]@
            },
            Err(pair) => {
                &&& pair.0@ == vec@
                &&& pair.1@.len() == vec@.len()
                &&& exists|i: int| 0 <= i < vec@.len() && !sorted_keys(#[trigger] vec@[i]@)
                &&& forall|i: int|
                    0 <= i < vec@.len() ==> match #[trigger] pair.1@[i] {
                        None => sorted_keys(vec@[i]@),
                        Some(e) => !sorted_keys(vec@[i]@) && validation_error(vec@[i]@, e),
                    }
            },
        },
{
    let len = vec.len();
    let mut errors: Errors = Vec::new();
    let mut has_error = false;
    let mut i: usize = 0;
    while i < len
        invariant
            len == vec@.len(),
            0 <= i <= len,
            errors@.len() == i,
            has_error <==> exists|j: int| 0 <= j < i && !sorted_keys(#[trigger] vec@[j]@),
            forall|j: int|
                0 <= j < i ==> match #[trigger] errors@[j] {
                    None => sorted_keys(vec@[j]@),
                    Some(e) => !sorted_keys(vec@[j]@) && validation_error(vec@[j]@, e),
                },
        decreases len - i,
    {
        match is_sort_dedup(vec[i]) {
            Ok(_) => errors.push(None),
            Err(e) => {
                has_error = true;
                errors.push(Some(e));
            },
        }
        i += 1;
    }
    if has_error {
        return Err((vec, errors));
    }
    let mut sets: Vec<SortedSet<'a, T>> = Vec::new();
    let mut i: usize = 0;
    while i < len
        invariant
            len == vec@.len(),
            0 <= i <= len,
            sets@.len() == i,
            forall|j: int| 0 <= j < len ==> sorted_keys(#[trigger] vec@[j]@),
            forall|j: int| 0 <= j < i ==> #[trigger] sets@[j]@ == vec@[j]@,
        decreases len - i,
    {
        sets.push(SortedSet { elems: vec[i] });
        i += 1;
    }
    Ok(sets)
}

} // verus!
