//! The intersection of two ordered sequences of different element types,
//! joined by their keys.

use vstd::prelude::*;

use crate::collection::Collection;
use crate::model::{
    has_key, key_in, lemma_filter_all_false, lemma_filter_all_true, lemma_filter_nondec,
    lemma_has_key_intro, lemma_has_key_witness, lemma_sorted_implies_nondec, nondec_keys,
    sorted_keys, Element,
};
use crate::set::SortedSet;
use crate::{lower_bound_from, upper_bound_from, SetOperation};

verus! {

/// `r` is the by-key intersection of `a` and `b`: the elements of the base
/// `a` whose key appears in `b`, in order.
pub open spec fn intersection_by_key_emitted<T: Element, U: Element>(
    a: Seq<T>,
    b: Seq<U>,
    r: Seq<T>,
) -> bool {
    r == a.filter(key_in(b))
}

/// The by-key intersection of two ordered sequences of different types.
///
/// The base `a` may hold runs of elements sharing a key; its keys need only
/// be nondecreasing. The filter `b` keeps the strict-increase invariant.
/// Every base element whose key appears in `b` is emitted, in order.
#[derive(Clone, Copy)]
pub struct IntersectionByKey<'a, T: Element, U: Element> {
    /// The base relation.
    pub a: &'a [T],
    /// The key set that selects base elements.
    pub b: &'a [U],
}

impl<'a, T: Element, U: Element> IntersectionByKey<'a, T, U> {
    /// Captures the base and the key set.
    pub fn new(a: SortedSet<'a, T>, b: SortedSet<'a, U>) -> (r: Self)
        ensures
            r.a@ == a@,
            r.b@ == b@,
    {
        IntersectionByKey { a: a.as_slice(), b: b.as_slice() }
    }
}

impl<'a, T: Element, U: Element> SetOperation<T> for IntersectionByKey<'a, T, U> {
    open spec fn wf(&self) -> bool {
        nondec_keys(self.a@) && sorted_keys(self.b@)
    }

    open spec fn emits(&self, r: Seq<T>) -> bool {
        intersection_by_key_emitted(self.a@, self.b@, r)
    }

    #[verifier::loop_isolation(false)]
    fn extend_collection<C: Collection<T>>(self, output: &mut C) {
        let a = self.a;
        let b = self.b;
        let n = a.len();
        let m = b.len();
        let ghost pred = key_in::<T, U>(b@);
        let ghost init = output.contents();
        proof {
            lemma_sorted_implies_nondec(b@);
        }
        let mut ai: usize = 0;
        let mut bi: usize = 0;
        while ai < n && bi < m
            invariant
                0 <= ai <= n,
                0 <= bi <= m,
                output.inv(),
                output.contents() == init + a@.take(ai as int).filter(pred),
                forall|j: int| 0 <= j < bi && ai < n ==> (#[trigger] b@[j]).key() < a@[ai as int].key(),
            decreases m - bi,
        {
            let kb = b[bi].keyv();
            let start = lower_bound_from(a, ai, kb);
            let end = upper_bound_from(a, start, kb);
            output.extend_from_slice(&a[start..end]);
            proof {
                let skipped = a@.subrange(ai as int, start as int);
                let run = a@.subrange(start as int, end as int);
                assert forall|t: int| 0 <= t < skipped.len() implies !pred(
                    #[trigger] skipped[t],
                ) by {
                    assert(skipped[t] == a@[ai + t]);
                    assert(a@[ai as int].key() <= skipped[t].key());
                    assert(skipped[t].key() < kb as int);
                    if has_key(b@, skipped[t].key()) {
                        let w = lemma_has_key_witness(b@, skipped[t].key());
                        if w < bi {
                            assert(b@[w].key() < a@[ai as int].key());
                        } else {
                            assert(b@[bi as int].key() <= b@[w].key());
                        }
                    }
                }
                assert forall|t: int| 0 <= t < run.len() implies pred(#[trigger] run[t]) by {
                    assert(run[t] == a@[start + t]);
                    assert(run[t].key() >= kb as int);
                    assert(run[t].key() <= kb as int);
                    lemma_has_key_intro(b@, bi as int);
                }
                lemma_filter_all_false(skipped, pred);
                lemma_filter_all_true(run, pred);
                assert(a@.take(start as int) =~= a@.take(ai as int) + skipped);
                Seq::filter_distributes_over_add(a@.take(ai as int), skipped, pred);
                assert(a@.take(end as int) =~= a@.take(start as int) + run);
                Seq::filter_distributes_over_add(a@.take(start as int), run, pred);
                assert forall|j: int| 0 <= j < bi + 1 && end < n implies (#[trigger] b@[j]).key()
                    < a@[end as int].key() by {
                    assert(b@[j].key() <= b@[bi as int].key());
                    assert(a@[end as int].key() > kb as int);
                }
            }
            ai = end;
            bi = bi + 1;
        }
        proof {
            if ai < n {
                let rest = a@.subrange(ai as int, n as int);
                assert forall|t: int| 0 <= t < rest.len() implies !pred(#[trigger] rest[t]) by {
                    assert(rest[t] == a@[ai + t]);
                    assert(a@[ai as int].key() <= rest[t].key());
                    if has_key(b@, rest[t].key()) {
                        let w = lemma_has_key_witness(b@, rest[t].key());
                        assert(b@[w].key() < a@[ai as int].key());
                    }
                }
                lemma_filter_all_false(rest, pred);
                assert(a@ =~= a@.take(ai as int) + rest);
                Seq::filter_distributes_over_add(a@.take(ai as int), rest, pred);
            } else {
                assert(a@.take(ai as int) =~= a@);
            }
            lemma_filter_nondec(a@, pred);
            assert(output.contents() == init + a@.filter(pred));
            assert(self.emits(a@.filter(pred)));
        }
    }
}

} // verus!
