//! Set operations over any number of inputs.

mod difference;
mod difference_by_key;
mod intersection;

pub use self::difference::{
    key_in_others, key_not_in_others, multi_difference_emitted, Difference,
};
pub use self::difference_by_key::{
    key_in_any, key_not_in_any, multi_difference_by_key_emitted, DifferenceByKey,
};
pub use self::intersection::{
    key_in_all_others, key_in_every, multi_intersection_emitted, Intersection,
};
pub(crate) use self::intersection::{
    lemma_rem_sum_mono, lemma_rem_sum_nonneg, lemma_rem_sum_strict, rem_sum,
};
mod symmetric_difference;
mod union;

pub use self::symmetric_difference::{
    count_with_key, multi_symmetric_difference_emitted, SymmetricDifference,
};
pub use self::union::{multi_union_emitted, Union};

use vstd::prelude::*;

use crate::model::Element;
use crate::set::SortedSet;

verus! {

/// Acquires any number of ordered sequences and selects a set operation over
/// them.
#[derive(Clone)]
pub struct OpBuilder<'a, T: Element> {
    /// The inputs gathered so far.
    pub slices: Vec<SortedSet<'a, T>>,
}

impl<'a, T: Element> OpBuilder<'a, T> {
    /// Starts with no inputs.
    pub fn new() -> (r: Self)
        ensures
            r.slices@.len() == 0,
    {
        OpBuilder { slices: Vec::new() }
    }

    /// Starts with no inputs and room for `capacity` of them.
    pub fn with_capacity(capacity: usize) -> (r: Self)
        ensures
            r.slices@.len() == 0,
    {
        OpBuilder { slices: Vec::with_capacity(capacity) }
    }

    /// Starts with the given inputs.
    pub fn from_vec(slices: Vec<SortedSet<'a, T>>) -> (r: Self)
        ensures
            r.slices@ == slices@,
    {
        OpBuilder { slices }
    }

    /// Reserves room for `additional` more inputs.
    pub fn reserve(&mut self, additional: usize)
        ensures
            final(self).slices@ == old(self).slices@,
    {
        self.slices.reserve(additional);
    }

    /// Adds one input, consuming and returning the builder.
    pub fn add(self, set: SortedSet<'a, T>) -> (r: Self)
        ensures
            r.slices@ == self.slices@.push(set),
    {
        let mut this = self;
        this.push(set);
        this
    }

    /// Adds one input in place.
    pub fn push(&mut self, set: SortedSet<'a, T>)
        ensures
            final(self).slices@ == old(self).slices@.push(set),
    {
        self.slices.push(set);
    }

    /// Prepares the union of the gathered inputs.
    pub fn union(self) -> (r: Union<'a, T>)
        ensures
            r.slices@.len() == self.slices@.len(),
            forall|i: int|
                0 <= i < self.slices@.len() ==> (#[trigger] r.slices@[i])@ == self.slices@[i]@,
    {
        Union::new(self.slices)
    }

    /// Prepares the intersection of the gathered inputs.
    pub fn intersection(self) -> (r: Intersection<'a, T>)
        ensures
            r.slices@.len() == self.slices@.len(),
            forall|i: int|
                0 <= i < self.slices@.len() ==> (#[trigger] r.slices@[i])@ == self.slices@[i]@,
    {
        Intersection::new(self.slices)
    }

    /// Prepares the difference of the gathered inputs: the first minus the
    /// others.
    pub fn difference(self) -> (r: Difference<'a, T>)
        ensures
            r.slices@.len() == self.slices@.len(),
            forall|i: int|
                0 <= i < self.slices@.len() ==> (#[trigger] r.slices@[i])@ == self.slices@[i]@,
    {
        Difference::new(self.slices)
    }

    /// Prepares the symmetric difference of the gathered inputs.
    pub fn symmetric_difference(self) -> (r: SymmetricDifference<'a, T>)
        ensures
            r.slices@.len() == self.slices@.len(),
            forall|i: int|
                0 <= i < self.slices@.len() ==> (#[trigger] r.slices@[i])@ == self.slices@[i]@,
    {
        SymmetricDifference::new(self.slices)
    }
}

/// Acquires a base relation and any number of ordered key sequences, joined
/// by their keys, and selects a set operation over them.
#[derive(Clone)]
pub struct OpBuilderByKey<'a, T: Element, U: Element> {
    /// The base relation.
    pub base: SortedSet<'a, T>,
    /// The other inputs gathered so far.
    pub others: Vec<SortedSet<'a, U>>,
}

impl<'a, T: Element, U: Element> OpBuilderByKey<'a, T, U> {
    /// Starts with a base and no other inputs.
    pub fn new(base: SortedSet<'a, T>) -> (r: Self)
        ensures
            r.base == base,
            r.others@.len() == 0,
    {
        OpBuilderByKey { base, others: Vec::new() }
    }

    /// Starts with a base and the given other inputs.
    pub fn from_vec(base: SortedSet<'a, T>, others: Vec<SortedSet<'a, U>>) -> (r: Self)
        ensures
            r.base == base,
            r.others@ == others@,
    {
        OpBuilderByKey { base, others }
    }

    /// Adds one other input in place.
    pub fn push(&mut self, set: SortedSet<'a, U>)
        ensures
            final(self).base == old(self).base,
            final(self).others@ == old(self).others@.push(set),
    {
        self.others.push(set);
    }

    /// Adds one other input, consuming and returning the builder.
    pub fn add(self, set: SortedSet<'a, U>) -> (r: Self)
        ensures
            r.base == self.base,
            r.others@ == self.others@.push(set),
    {
        let mut this = self;
        this.push(set);
        this
    }

    /// Prepares the by-key difference of the base and the gathered inputs.
    pub fn difference(self) -> (r: DifferenceByKey<'a, T, U>)
        ensures
            r.base@ == self.base@,
            r.others@.len() == self.others@.len(),
            forall|i: int|
                0 <= i < self.others@.len() ==> (#[trigger] r.others@[i])@ == self.others@[i]@,
    {
        DifferenceByKey::new(self.base, self.others)
    }
}

} // verus!
