//! The difference of exactly two ordered sequences.

use vstd::prelude::*;

use crate::collection::Collection;
use crate::model::{
    has_key, lemma_filter_all_true, lemma_filter_sorted, lemma_filter_take_step, lemma_has_key_intro,
    lemma_has_key_witness, lemma_sorted_implies_nondec, key_not_in, nondec_keys, sorted_keys,
    Element,
};
use crate::set::SortedSet;
use crate::{lower_bound_from, SetOperation};

verus! {

/// `r` is the difference of `a` and `b`: the elements of `a` whose key does
/// not appear in `b`, in order.
pub open spec fn difference_emitted<T: Element>(a: Seq<T>, b: Seq<T>, r: Seq<T>) -> bool {
    r == a.filter(key_not_in(b))
}

/// The difference of two ordered sequences: emits every element of the base
/// `a` whose key does not appear in the subtrahend `b`.
#[derive(Clone, Copy)]
pub struct Difference<'a, T: Element> {
    /// The base.
    pub a: &'a [T],
    /// The subtrahend.
    pub b: &'a [T],
}

impl<'a, T: Element> Difference<'a, T> {
    /// Captures two validated sequences.
    pub fn new(a: SortedSet<'a, T>, b: SortedSet<'a, T>) -> (r: Self)
        ensures
            r.a@ == a@,
            r.b@ == b@,
    {
        Difference { a: a.as_slice(), b: b.as_slice() }
    }
}

impl<'a, T: Element> SetOperation<T> for Difference<'a, T> {
    open spec fn wf(&self) -> bool {
        sorted_keys(self.a@) && sorted_keys(self.b@)
    }

    open spec fn emits(&self, r: Seq<T>) -> bool {
        difference_emitted(self.a@, self.b@, r)
    }

    #[verifier::loop_isolation(false)]
    fn extend_collection<C: Collection<T>>(self, output: &mut C) {
        let a = self.a;
        let b = self.b;
        let n = a.len();
        let m = b.len();
        let ghost pred = key_not_in::<T, T>(b@);
        let ghost init = output.contents();
        proof {
            lemma_sorted_implies_nondec(a@);
            lemma_sorted_implies_nondec(b@);
        }
        let mut ai: usize = 0;
        let mut bi: usize = 0;
        while ai < n
            invariant
                n == a@.len(),
                m == b@.len(),
                sorted_keys(a@),
                sorted_keys(b@),
                nondec_keys(a@),
                nondec_keys(b@),
                0 <= ai <= n,
                0 <= bi <= m,
                output.inv(),
                output.contents() == init + a@.take(ai as int).filter(pred),
                forall|j: int| 0 <= j < bi && ai < n ==> (#[trigger] b@[j]).key() < a@[ai as int].key(),
            decreases n - ai,
        {
            let ka = a[ai].keyv();
            let bi2 = lower_bound_from(b, bi, ka);
            bi = bi2;
            if bi == m {
                output.extend_from_slice(&a[ai..n]);
                proof {
                    let run = a@.subrange(ai as int, n as int);
                    assert forall|t: int| 0 <= t < run.len() implies pred(#[trigger] run[t]) by {
                        assert(run[t] == a@[ai + t]);
                        assert(a@[ai as int].key() <= run[t].key());
                        if has_key(b@, run[t].key()) {
                            let w = lemma_has_key_witness(b@, run[t].key());
                            assert(b@[w].key() < a@[ai as int].key());
                        }
                        assert(!has_key(b@, run[t].key()));
                    }
                    lemma_filter_all_true(run, pred);
                    assert(a@.take(n as int) =~= a@.take(ai as int) + run);
                    Seq::filter_distributes_over_add(a@.take(ai as int), run, pred);
                }
                ai = n;
            } else {
                let kb = b[bi].keyv();
                if kb == ka {
                    proof {
                        lemma_has_key_intro(b@, bi as int);
                        assert(has_key(b@, a@[ai as int].key()));
                        assert(!pred(a@[ai as int]));
                        lemma_filter_take_step(a@, ai as int, pred);
                        assert(output.contents() == init + a@.take(ai + 1).filter(pred));
                    }
                    ai = ai + 1;
                    bi = bi + 1;
                } else {
                    let off = lower_bound_from(a, ai, kb);
                    output.extend_from_slice(&a[ai..off]);
                    proof {
                        assert(a@[ai as int].key() < kb as int);
                        let run = a@.subrange(ai as int, off as int);
                        assert forall|t: int| 0 <= t < run.len() implies pred(#[trigger] run[t]) by {
                            assert(run[t] == a@[ai + t]);
                            assert(a@[ai as int].key() <= run[t].key());
                            assert(run[t].key() < kb as int);
                            if has_key(b@, run[t].key()) {
                                let w = lemma_has_key_witness(b@, run[t].key());
                                if w < bi {
                                    assert(b@[w].key() < a@[ai as int].key());
                                } else {
                                    assert(b@[bi as int].key() <= b@[w].key());
                                }
                            }
                            assert(!has_key(b@, run[t].key()));
                        }
                        lemma_filter_all_true(run, pred);
                        assert(a@.take(off as int) =~= a@.take(ai as int) + run);
                        Seq::filter_distributes_over_add(a@.take(ai as int), run, pred);
                    }
                    ai = off;
                }
            }
        }
        proof {
            assert(a@.take(n as int) =~= a@);
            lemma_filter_sorted(a@, pred);
            assert(output.contents() == init + a@.filter(pred));
            assert(self.emits(a@.filter(pred)));
            crate::model::lemma_sorted_implies_nondec(a@.filter(pred));
        }
    }
}

} // verus!

