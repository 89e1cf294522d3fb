//! The intersection of exactly two ordered sequences.

use vstd::prelude::*;

use crate::collection::Collection;
use crate::model::{
    has_key, key_in, lemma_filter_all_false, lemma_filter_all_true, lemma_filter_sorted,
    lemma_has_key_intro, lemma_has_key_witness, lemma_sorted_implies_nondec, nondec_keys,
    sorted_keys, Element,
};
use crate::set::SortedSet;
use crate::{lower_bound_from, SetOperation};

verus! {

/// `r` is the intersection of `a` and `b`: the elements of `a` whose key
/// also appears in `b`, in order.
pub open spec fn intersection_emitted<T: Element>(a: Seq<T>, b: Seq<T>, r: Seq<T>) -> bool {
    r == a.filter(key_in(b))
}

/// The intersection of two ordered sequences: emits every element of `a`
/// whose key also appears in `b`.
#[derive(Clone, Copy)]
pub struct Intersection<'a, T: Element> {
    /// The first input.
    pub a: &'a [T],
    /// The second input.
    pub b: &'a [T],
}

impl<'a, T: Element> Intersection<'a, T> {
    /// Captures two validated sequences.
    pub fn new(a: SortedSet<'a, T>, b: SortedSet<'a, T>) -> (r: Self)
        ensures
            r.a@ == a@,
            r.b@ == b@,
    {
        Intersection { a: a.as_slice(), b: b.as_slice() }
    }
}

impl<'a, T: Element> SetOperation<T> for Intersection<'a, T> {
    open spec fn wf(&self) -> bool {
        sorted_keys(self.a@) && sorted_keys(self.b@)
    }

    open spec fn emits(&self, r: Seq<T>) -> bool {
        intersection_emitted(self.a@, self.b@, r)
    }

    #[verifier::loop_isolation(false)]
    fn extend_collection<C: Collection<T>>(self, output: &mut C) {
        let a = self.a;
        let b = self.b;
        let n = a.len();
        let m = b.len();
        let ghost pred = key_in::<T, T>(b@);
        let ghost init = output.contents();
        proof {
            lemma_sorted_implies_nondec(a@);
            lemma_sorted_implies_nondec(b@);
        }
        let mut ai: usize = 0;
        let mut bi: usize = 0;
        while ai < n && bi < m
            invariant
                0 <= ai <= n,
                0 <= bi <= m,
                output.inv(),
                output.contents() == init + a@.take(ai as int).filter(pred),
                forall|j: int| 0 <= j < bi && ai < n ==> (#[trigger] b@[j]).key() < a@[ai as int].key(),
            decreases n - ai + m - bi,
        {
            let ka = a[ai].keyv();
            let kb = b[bi].keyv();
            if ka == kb {
                let mut l: usize = 1;
                while ai + l < n && bi + l < m && a[ai + l].keyv() == b[bi + l].keyv()
                    invariant
                        1 <= l,
                        ai + l <= n,
                        bi + l <= m,
                        forall|t: int| 0 <= t < l ==> (#[trigger] a@[ai + t]).key() == b@[bi + t].key(),
                    decreases n - ai - l,
                {
                    l = l + 1;
                }
                output.extend_from_slice(&a[ai..ai + l]);
                proof {
                    let run = a@.subrange(ai as int, ai + l);
                    assert forall|t: int| 0 <= t < run.len() implies pred(#[trigger] run[t]) by {
                        assert(run[t] == a@[ai + t]);
                        assert(a@[ai + t].key() == b@[bi + t].key());
                        lemma_has_key_intro(b@, bi + t);
                    }
                    lemma_filter_all_true(run, pred);
                    assert(a@.take(ai + l) =~= a@.take(ai as int) + run);
                    Seq::filter_distributes_over_add(a@.take(ai as int), run, pred);
                    assert forall|j: int| 0 <= j < bi + l && ai + l < n implies (#[trigger] b@[j]).key()
                        < a@[ai + l].key() by {
                        if j < bi {
                            assert(b@[j].key() < a@[ai as int].key());
                            assert(a@[ai as int].key() <= a@[ai + l].key());
                        } else {
                            assert(b@[j].key() == a@[ai + (j - bi)].key());
                        }
                    }
                }
                ai = ai + l;
                bi = bi + l;
            } else if ka < kb {
                let off = lower_bound_from(a, ai, kb);
                proof {
                    let run = a@.subrange(ai as int, off as int);
                    assert forall|t: int| 0 <= t < run.len() implies !pred(#[trigger] run[t]) by {
                        assert(run[t] == a@[ai + t]);
                        assert(a@[ai as int].key() <= run[t].key());
                        assert(run[t].key() < kb as int);
                        if has_key(b@, run[t].key()) {
                            let w = lemma_has_key_witness(b@, run[t].key());
                            if w < bi {
                                assert(b@[w].key() < a@[ai as int].key());
                            } else {
                                assert(b@[bi as int].key() <= b@[w].key());
                            }
                        }
                    }
                    lemma_filter_all_false(run, pred);
                    assert(a@.take(off as int) =~= a@.take(ai as int) + run);
                    Seq::filter_distributes_over_add(a@.take(ai as int), run, pred);
                }
                ai = off;
            } else {
                let bi2 = lower_bound_from(b, bi, ka);
                bi = bi2;
            }
        }
        proof {
            if ai < n {
                let rest = a@.subrange(ai as int, n as int);
                assert forall|t: int| 0 <= t < rest.len() implies !pred(#[trigger] rest[t]) by {
                    assert(rest[t] == a@[ai + t]);
                    assert(a@[ai as int].key() <= rest[t].key());
                    if has_key(b@, rest[t].key()) {
                        let w = lemma_has_key_witness(b@, rest[t].key());
                        assert(b@[w].key() < a@[ai as int].key());
                    }
                }
                lemma_filter_all_false(rest, pred);
                assert(a@ =~= a@.take(ai as int) + rest);
                Seq::filter_distributes_over_add(a@.take(ai as int), rest, pred);
            } else {
                assert(a@.take(ai as int) =~= a@);
            }
            lemma_filter_sorted(a@, pred);
            assert(output.contents() == init + a@.filter(pred));
            assert(self.emits(a@.filter(pred)));
            crate::model::lemma_sorted_implies_nondec(a@.filter(pred));
        }
    }
}

} // verus!
