//! The output collector abstraction and the counting collector.

use vstd::prelude::*;

use crate::model::Element;

verus! {

/// A sink that set operations emit into.
///
/// A collector models what it has received as a sequence of elements; a
/// growable buffer keeps that sequence, while [`Counter`] keeps only its
/// length.
pub trait Collection<T: Element> {
    /// The elements received so far, in order.
    spec fn contents(&self) -> Seq<T>;

    /// The collector's internal invariant.
    spec fn inv(&self) -> bool;

    /// Appends one element.
    fn push(&mut self, elem: T)
        requires
            old(self).inv(),
        ensures
            final(self).inv(),
            final(self).contents() == old(self).contents().push(elem),
    ;

    /// Appends a contiguous run of elements.
    fn extend_from_slice(&mut self, elems: &[T])
        requires
            old(self).inv(),
        ensures
            final(self).inv(),
            final(self).contents() == old(self).contents() + elems@,
    ;

    /// A capacity hint; receives nothing.
    fn reserve(&mut self, size: usize)
        requires
            old(self).inv(),
        ensures
            final(self).inv(),
            final(self).contents() == old(self).contents(),
    {
    }
}

impl<T: Element> Collection<T> for Vec<T> {
    open spec fn contents(&self) -> Seq<T> {
        self@
    }

    open spec fn inv(&self) -> bool {
        true
    }

    fn push(&mut self, elem: T) {
        Vec::push(self, elem);
    }

    fn extend_from_slice(&mut self, elems: &[T]) {
        let len = elems.len();
        let mut i: usize = 0;
        while i < len
            invariant
                len == elems@.len(),
                0 <= i <= len,
                self@ == old(self)@ + elems@.take(i as int),
            decreases len - i,
        {
            Vec::push(self, elems[i]);
            proof {
                assert(old(self)@ + elems@.take(i + 1) =~= (old(self)@ + elems@.take(i as int)).push(
                    elems@[i as int],
                ));
            }
            i += 1;
        }
        proof {
            assert(elems@.take(len as int) =~= elems@);
        }
    }

    fn reserve(&mut self, size: usize) {
        Vec::reserve(self, size);
    }
}

/// The length of `s`, clamped to what a machine word can count.
pub open spec fn clamped_len<T>(s: Seq<T>) -> int {
    if s.len() <= usize::MAX {
        s.len() as int
    } else {
        usize::MAX as int
    }
}

/// A collector that discards the elements and keeps only how many arrived,
/// with saturating arithmetic.
pub struct Counter<T: Element> {
    /// How many elements arrived, saturated at the largest machine word.
    pub count: usize,
    /// The elements that arrived, kept only for specification.
    pub elems: Ghost<Seq<T>>,
}

impl<T: Element> Counter<T> {
    /// A counter that has received nothing.
    pub fn new() -> (r: Self)
        ensures
            r.inv(),
            r.contents() == Seq::<T>::empty(),
    {
        Counter { count: 0, elems: Ghost(Seq::empty()) }
    }

    /// How many elements arrived, saturated at the largest machine word.
    pub fn get(&self) -> (r: usize)
        requires
            self.inv(),
        ensures
            r == clamped_len(self.contents()),
    {
        self.count
    }
}

impl<T: Element> Default for Counter<T> {
    fn default() -> (r: Self)
        ensures
            r.inv(),
            r.contents() == Seq::<T>::empty(),
    {
        Counter::new()
    }
}

impl<T: Element> Collection<T> for Counter<T> {
    open spec fn contents(&self) -> Seq<T> {
        self.elems@
    }

    open spec fn inv(&self) -> bool {
        self.count == clamped_len(self.elems@)
    }

    fn push(&mut self, elem: T) {
        self.count = self.count.saturating_add(1);
        proof {
            self.elems@ = self.elems@.push(elem);
        }
    }

    fn extend_from_slice(&mut self, elems: &[T]) {
        self.count = self.count.saturating_add(elems.len());
        proof {
            self.elems@ = self.elems@ + elems@;
        }
    }
}

} // verus!
