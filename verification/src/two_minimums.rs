//! The two-smallest-heads summary across any number of ordered sequences.

use vstd::prelude::*;

use crate::model::Element;

verus! {

/// A summary of the current heads across several inputs: none left, one
/// input left, or the least and second-least heads.
#[derive(Debug, Clone, Copy, PartialEq, Eq)]
pub enum Minimums<T> {
    /// Every input is empty.
    Nothing,
    /// Exactly one input is non-empty.
    One(T),
    /// At least two inputs are non-empty.
    Two(T, T),
}

/// Scans the heads of `slices` in one pass and returns, with their input
/// indexes: nothing when all inputs are empty; the head of the only
/// non-empty input; or the least head and the second-least head, each at the
/// earliest input attaining it. The two heads may carry equal keys.
pub fn two_minimums<T: Element>(slices: &[&[T]]) -> (r: Minimums<(usize, T)>)
    ensures
        match r {
            Minimums::Nothing => forall|j: int|
                0 <= j < slices@.len() ==> (#[trigger] slices@[j])@.len() == 0,
            Minimums::One(f) => {
                &&& 0 <= f.0 < slices@.len()
                &&& slices@[f.0 as int]@.len() > 0
                &&& f.1 == slices@[f.0 as int]@[0]
                &&& forall|j: int|
                    0 <= j < slices@.len() && j != f.0 ==> (#[trigger] slices@[j])@.len() == 0
            },
            Minimums::Two(f, s) => {
                &&& 0 <= f.0 < slices@.len()
                &&& slices@[f.0 as int]@.len() > 0
                &&& f.1 == slices@[f.0 as int]@[0]
                &&& 0 <= s.0 < slices@.len()
                &&& s.0 != f.0
                &&& slices@[s.0 as int]@.len() > 0
                &&& s.1 == slices@[s.0 as int]@[0]
                &&& f.1.key() <= s.1.key()
                &&& forall|j: int|
                    0 <= j < slices@.len() && (#[trigger] slices@[j])@.len() > 0 ==> f.1.key()
                        <= slices@[j]@[0].key()
                &&& forall|j: int|
                    0 <= j < slices@.len() && j != f.0 && (#[trigger] slices@[j])@.len() > 0
                        ==> s.1.key() <= slices@[j]@[0].key()
                &&& forall|j: int|
                    0 <= j < f.0 ==> (#[trigger] slices@[j])@.len() == 0 || slices@[j]@[0].key()
                        > f.1.key()
                &&& forall|j: int|
                    0 <= j < s.0 && j != f.0 ==> (#[trigger] slices@[j])@.len() == 0
                        || slices@[j]@[0].key() > s.1.key()
            },
        },
{
    let len = slices.len();
    let mut mins: Minimums<(usize, T)> = Minimums::Nothing;
    let mut idx: usize = 0;
    while idx < len
        invariant
            len == slices@.len(),
            0 <= idx <= len,
            match mins {
                Minimums::Nothing => forall|j: int|
                    0 <= j < idx ==> (#[trigger] slices@[j])@.len() == 0,
                Minimums::One(f) => {
                    &&& 0 <= f.0 < idx
                    &&& slices@[f.0 as int]@.len() > 0
                    &&& f.1 == slices@[f.0 as int]@[0]
                    &&& forall|j: int|
                        0 <= j < idx && j != f.0 ==> (#[trigger] slices@[j])@.len() == 0
                },
                Minimums::Two(f, s) => {
                    &&& 0 <= f.0 < idx
                    &&& slices@[f.0 as int]@.len() > 0
                    &&& f.1 == slices@[f.0 as int]@[0]
                    &&& 0 <= s.0 < idx
                    &&& s.0 != f.0
                    &&& slices@[s.0 as int]@.len() > 0
                    &&& s.1 == slices@[s.0 as int]@[0]
                    &&& f.1.key() <= s.1.key()
                    &&& forall|j: int|
                        0 <= j < idx && (#[trigger] slices@[j])@.len() > 0 ==> f.1.key()
                            <= slices@[j]@[0].key()
                    &&& forall|j: int|
                        0 <= j < idx && j != f.0 && (#[trigger] slices@[j])@.len() > 0 ==> s.1.key()
                            <= slices@[j]@[0].key()
                    &&& forall|j: int|
                        0 <= j < f.0 ==> (#[trigger] slices@[j])@.len() == 0 || slices@[j]@[0].key()
                            > f.1.key()
                    &&& forall|j: int|
                        0 <= j < s.0 && j != f.0 ==> (#[trigger] slices@[j])@.len() == 0
                            || slices@[j]@[0].key() > s.1.key()
                },
            },
        decreases len - idx,
    {
        let slice = slices[idx];
        if !slice.is_empty() {
            let v = slice[0];
            mins = match mins {
                Minimums::Nothing => Minimums::One((idx, v)),
                Minimums::One(f) => {
                    if v.keyv() < f.1.keyv() {
                        Minimums::Two((idx, v), f)
                    } else {
                        Minimums::Two(f, (idx, v))
                    }
                },
                Minimums::Two(f, s) => {
                    if v.keyv() < f.1.keyv() {
                        Minimums::Two((idx, v), f)
                    } else if v.keyv() < s.1.keyv() {
                        Minimums::Two(f, (idx, v))
                    } else {
                        Minimums::Two(f, s)
                    }
                },
            };
        }
        idx += 1;
    }
    mins
}

} // verus!
