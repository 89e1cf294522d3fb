//! Set operations fixed at exactly two inputs.

use vstd::prelude::*;

use crate::model::Element;
use crate::set::SortedSet;

mod difference;
mod difference_by_key;
mod intersection;
mod intersection_by_key;
mod symmetric_difference;
mod union;

pub use self::difference::{difference_emitted, Difference};
pub use self::difference_by_key::{difference_by_key_emitted, DifferenceByKey};
pub use self::intersection::{intersection_emitted, Intersection};
pub use self::intersection_by_key::{intersection_by_key_emitted, IntersectionByKey};
pub use self::symmetric_difference::{symmetric_difference_emitted, SymmetricDifference};
pub use self::union::{union_emitted, Union};

verus! {

/// Captures two ordered sequences and selects a set operation over them.
#[derive(Clone, Copy)]
pub struct OpBuilder<'a, T: Element> {
    /// The first input.
    pub a: SortedSet<'a, T>,
    /// The second input.
    pub b: SortedSet<'a, T>,
}

impl<'a, T: Element> OpBuilder<'a, T> {
    /// Captures two ordered sequences.
    pub fn new(a: SortedSet<'a, T>, b: SortedSet<'a, T>) -> (r: Self)
        ensures
            r.a == a,
            r.b == b,
    {
        OpBuilder { a, b }
    }

    /// Prepares the union of the two sequences.
    pub fn union(self) -> (r: Union<'a, T>)
        ensures
            r.a@ == self.a@,
            r.b@ == self.b@,
    {
        Union::new(self.a, self.b)
    }

    /// Prepares the intersection of the two sequences.
    pub fn intersection(self) -> (r: Intersection<'a, T>)
        ensures
            r.a@ == self.a@,
            r.b@ == self.b@,
    {
        Intersection::new(self.a, self.b)
    }

    /// Prepares the difference of the two sequences.
    pub fn difference(self) -> (r: Difference<'a, T>)
        ensures
            r.a@ == self.a@,
            r.b@ == self.b@,
    {
        Difference::new(self.a, self.b)
    }

    /// Prepares the symmetric difference of the two sequences.
    pub fn symmetric_difference(self) -> (r: SymmetricDifference<'a, T>)
        ensures
            r.a@ == self.a@,
            r.b@ == self.b@,
    {
        SymmetricDifference::new(self.a, self.b)
    }
}

/// Captures two ordered sequences of different element types, joined by
/// their keys, and selects a set operation over them.
#[derive(Clone, Copy)]
pub struct OpBuilderByKey<'a, T: Element, U: Element> {
    /// The base relation.
    pub a: SortedSet<'a, T>,
    /// The other input.
    pub b: SortedSet<'a, U>,
}

impl<'a, T: Element, U: Element> OpBuilderByKey<'a, T, U> {
    /// Captures the two inputs.
    pub fn new(a: SortedSet<'a, T>, b: SortedSet<'a, U>) -> (r: Self)
        ensures
            r.a == a,
            r.b == b,
    {
        OpBuilderByKey { a, b }
    }

    /// Prepares the by-key difference of the two inputs.
    pub fn difference(self) -> (r: DifferenceByKey<'a, T, U>)
        ensures
            r.a@ == self.a@,
            r.b@ == self.b@,
    {
        DifferenceByKey::new(self.a, self.b)
    }
}

} // verus!
