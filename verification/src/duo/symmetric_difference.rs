//! The symmetric difference of exactly two ordered sequences.

use vstd::prelude::*;

use crate::collection::Collection;
use crate::model::{
    has_key, lemma_contains_concat, lemma_has_key_intro, lemma_has_key_witness,
    lemma_sorted_append, lemma_sorted_implies_nondec, lemma_subrange_sorted,
    lemma_subrange_witness, lemma_take_split, nondec_keys, sorted_keys, Element,
};
use crate::set::SortedSet;
use crate::{lower_bound_from, SetOperation};

verus! {

/// `r` is the symmetric difference of `a` and `b`: the elements present in
/// exactly one of the two, in increasing key order.
pub open spec fn symmetric_difference_emitted<T: Element>(a: Seq<T>, b: Seq<T>, r: Seq<T>) -> bool {
    &&& sorted_keys(r)
    &&& forall|x: T| #![trigger r.contains(x)] #![trigger a.contains(x)] #![trigger b.contains(x)]
        r.contains(x) <==> ((a.contains(x) && !has_key(b, x.key())) || (b.contains(x) && !has_key(
            a,
            x.key(),
        )))
}

/// Membership of `x` classified against the consumed prefixes `a.take(ai)`
/// and `b.take(bi)`.
spec fn upto_member<T: Element>(a: Seq<T>, b: Seq<T>, ai: int, bi: int, x: T) -> bool {
    ||| a.take(ai).contains(x) && !has_key(b.take(bi), x.key())
    ||| b.take(bi).contains(x) && !has_key(a.take(ai), x.key())
}

/// The symmetric difference of two ordered sequences: emits every element
/// whose key appears in exactly one input.
#[derive(Clone, Copy)]
pub struct SymmetricDifference<'a, T: Element> {
    /// The first input.
    pub a: &'a [T],
    /// The second input.
    pub b: &'a [T],
}

impl<'a, T: Element> SymmetricDifference<'a, T> {
    /// Captures two validated sequences.
    pub fn new(a: SortedSet<'a, T>, b: SortedSet<'a, T>) -> (r: Self)
        ensures
            r.a@ == a@,
            r.b@ == b@,
    {
        SymmetricDifference { a: a.as_slice(), b: b.as_slice() }
    }
}

impl<'a, T: Element> SetOperation<T> for SymmetricDifference<'a, T> {
    open spec fn wf(&self) -> bool {
        sorted_keys(self.a@) && sorted_keys(self.b@)
    }

    open spec fn emits(&self, r: Seq<T>) -> bool {
        symmetric_difference_emitted(self.a@, self.b@, r)
    }

    #[verifier::loop_isolation(false)]
    #[verifier::rlimit(60)]
    fn extend_collection<C: Collection<T>>(self, output: &mut C) {
        let a = self.a;
        let b = self.b;
        let n = a.len();
        let m = b.len();
        let ghost init = output.contents();
        proof {
            lemma_sorted_implies_nondec(a@);
            lemma_sorted_implies_nondec(b@);
        }
        let mut ai: usize = 0;
        let mut bi: usize = 0;
        let ghost mut em: Seq<T> = Seq::empty();
        while ai < n && bi < m
            invariant
                0 <= ai <= n,
                0 <= bi <= m,
                output.inv(),
                output.contents() == init + em,
                sorted_keys(em),
                forall|x: T| #![auto] em.contains(x) <==> upto_member(a@, b@, ai as int, bi as int, x),
                forall|x: T| #![auto] em.contains(x) && ai < n ==> x.key() < a@[ai as int].key(),
                forall|x: T| #![auto] em.contains(x) && bi < m ==> x.key() < b@[bi as int].key(),
                forall|j: int| 0 <= j < ai && bi < m ==> (#[trigger] a@[j]).key() < b@[bi as int].key(),
                forall|j: int| 0 <= j < bi && ai < n ==> (#[trigger] b@[j]).key() < a@[ai as int].key(),
            decreases n - ai + m - bi,
        {
            let ka = a[ai].keyv();
            let kb = b[bi].keyv();
            if ka < kb {
                let off = lower_bound_from(a, ai, kb);
                output.extend_from_slice(&a[ai..off]);
                proof {
                    let run = a@.subrange(ai as int, off as int);
                    let em0 = em;
                    lemma_subrange_sorted(a@, ai as int, off as int);
                    if em0.len() > 0 && run.len() > 0 {
                        assert(em0[em0.len() - 1] == em0.last());
                        assert(em0.contains(em0.last()));
                        assert(run[0] == a@[ai as int]);
                    }
                    lemma_sorted_append(em0, run);
                    em = em0 + run;
                    assert forall|x: T| #![auto] em.contains(x) <==> upto_member(
                        a@,
                        b@,
                        off as int,
                        bi as int,
                        x,
                    ) by {
                        lemma_contains_concat(em0, run, x);
                        lemma_take_split(a@, ai as int, off as int, x);
                        if run.contains(x) {
                            let w = lemma_subrange_witness(a@, ai as int, off as int, x);
                            if has_key(b@.take(bi as int), x.key()) {
                                let v = lemma_has_key_witness(b@.take(bi as int), x.key());
                                assert(b@.take(bi as int)[v] == b@[v]);
                                assert(b@[v].key() < a@[ai as int].key());
                            }
                        }
                        if b@.take(bi as int).contains(x) {
                            let w = lemma_subrange_witness(b@, 0, bi as int, x);
                            assert(b@[w].key() < a@[ai as int].key());
                            if has_key(a@.take(ai as int), x.key()) {
                                let v = lemma_has_key_witness(a@.take(ai as int), x.key());
                                lemma_has_key_intro(a@.take(off as int), v);
                            }
                            if has_key(a@.take(off as int), x.key()) {
                                let v = lemma_has_key_witness(a@.take(off as int), x.key());
                                if v < ai {
                                    lemma_has_key_intro(a@.take(ai as int), v);
                                } else {
                                    assert(a@.take(off as int)[v] == a@[v]);
                                    assert(a@[v].key() >= a@[ai as int].key());
                                }
                            }
                        }
                    }
                    assert forall|x: T| #![auto] em.contains(x) && off < n implies x.key() < a@[off as int].key() by {
                        lemma_contains_concat(em0, run, x);
                        if run.contains(x) {
                            let w = lemma_subrange_witness(a@, ai as int, off as int, x);
                        }
                    }
                    assert forall|x: T| #![auto] em.contains(x) && bi < m implies x.key() < b@[bi as int].key() by {
                        lemma_contains_concat(em0, run, x);
                        if run.contains(x) {
                            let w = lemma_subrange_witness(a@, ai as int, off as int, x);
                        }
                    }
                }
                ai = off;
            } else if kb < ka {
                let off = lower_bound_from(b, bi, ka);
                output.extend_from_slice(&b[bi..off]);
                proof {
                    let run = b@.subrange(bi as int, off as int);
                    let em0 = em;
                    lemma_subrange_sorted(b@, bi as int, off as int);
                    if em0.len() > 0 && run.len() > 0 {
                        assert(em0[em0.len() - 1] == em0.last());
                        assert(em0.contains(em0.last()));
                        assert(run[0] == b@[bi as int]);
                    }
                    lemma_sorted_append(em0, run);
                    em = em0 + run;
                    assert forall|x: T| #![auto] em.contains(x) <==> upto_member(
                        a@,
                        b@,
                        ai as int,
                        off as int,
                        x,
                    ) by {
                        lemma_contains_concat(em0, run, x);
                        lemma_take_split(b@, bi as int, off as int, x);
                        if run.contains(x) {
                            let w = lemma_subrange_witness(b@, bi as int, off as int, x);
                            assert(b@[w].key() < ka as int);
                            if has_key(a@.take(ai as int), x.key()) {
                                let v = lemma_has_key_witness(a@.take(ai as int), x.key());
                                assert(a@.take(ai as int)[v] == a@[v]);
                                assert(a@[v].key() < b@[bi as int].key());
                                assert(b@[bi as int].key() <= x.key());
                            }
                        }
                        if a@.take(ai as int).contains(x) {
                            let w = lemma_subrange_witness(a@, 0, ai as int, x);
                            assert(a@[w].key() < b@[bi as int].key());
                            if has_key(b@.take(bi as int), x.key()) {
                                let v = lemma_has_key_witness(b@.take(bi as int), x.key());
                                lemma_has_key_intro(b@.take(off as int), v);
                            }
                            if has_key(b@.take(off as int), x.key()) {
                                let v = lemma_has_key_witness(b@.take(off as int), x.key());
                                if v < bi {
                                    lemma_has_key_intro(b@.take(bi as int), v);
                                } else {
                                    assert(b@.take(off as int)[v] == b@[v]);
                                    assert(b@[v].key() >= b@[bi as int].key());
                                }
                            }
                        }
                    }
                    assert forall|x: T| #![auto] em.contains(x) && ai < n implies x.key() < a@[ai as int].key() by {
                        lemma_contains_concat(em0, run, x);
                        if run.contains(x) {
                            let w = lemma_subrange_witness(b@, bi as int, off as int, x);
                        }
                    }
                    assert forall|x: T| #![auto] em.contains(x) && off < m implies x.key() < b@[off as int].key() by {
                        lemma_contains_concat(em0, run, x);
                        if run.contains(x) {
                            let w = lemma_subrange_witness(b@, bi as int, off as int, x);
                        }
                    }
                }
                bi = off;
            } else {
                let mut l: usize = 1;
                while ai + l < n && bi + l < m && a[ai + l].keyv() == b[bi + l].keyv()
                    invariant
                        1 <= l,
                        ai + l <= n,
                        bi + l <= m,
                        forall|t: int| 0 <= t < l ==> (#[trigger] a@[ai + t]).key() == b@[bi + t].key(),
                    decreases n - ai - l,
                {
                    l = l + 1;
                }
                proof {
                    assert forall|x: T| #![auto] em.contains(x) <==> upto_member(
                        a@,
                        b@,
                        ai + l,
                        bi + l,
                        x,
                    ) by {
                        lemma_take_split(a@, ai as int, ai + l, x);
                        lemma_take_split(b@, bi as int, bi + l, x);
                        if a@.subrange(ai as int, ai + l).contains(x) {
                            let w = lemma_subrange_witness(a@, ai as int, ai + l, x);
                            assert(a@[ai + (w - ai)].key() == b@[bi + (w - ai)].key());
                            lemma_has_key_intro(b@.take(bi + l), bi + (w - ai));
                        }
                        if b@.subrange(bi as int, bi + l).contains(x) {
                            let w = lemma_subrange_witness(b@, bi as int, bi + l, x);
                            assert(a@[ai + (w - bi)].key() == b@[bi + (w - bi)].key());
                            lemma_has_key_intro(a@.take(ai + l), ai + (w - bi));
                        }
                        if a@.take(ai as int).contains(x) {
                            let w = lemma_subrange_witness(a@, 0, ai as int, x);
                            if has_key(b@.take(bi as int), x.key()) {
                                let v = lemma_has_key_witness(b@.take(bi as int), x.key());
                                lemma_has_key_intro(b@.take(bi + l), v);
                            }
                            if has_key(b@.take(bi + l), x.key()) {
                                let v = lemma_has_key_witness(b@.take(bi + l), x.key());
                                if v < bi {
                                    lemma_has_key_intro(b@.take(bi as int), v);
                                } else {
                                    assert(b@.take(bi + l)[v] == b@[v]);
                                    assert(b@[v].key() >= b@[bi as int].key());
                                    assert(a@[w].key() < a@[ai as int].key());
                                }
                            }
                        }
                        if b@.take(bi as int).contains(x) {
                            let w = lemma_subrange_witness(b@, 0, bi as int, x);
                            if has_key(a@.take(ai as int), x.key()) {
                                let v = lemma_has_key_witness(a@.take(ai as int), x.key());
                                lemma_has_key_intro(a@.take(ai + l), v);
                            }
                            if has_key(a@.take(ai + l), x.key()) {
                                let v = lemma_has_key_witness(a@.take(ai + l), x.key());
                                if v < ai {
                                    lemma_has_key_intro(a@.take(ai as int), v);
                                } else {
                                    assert(a@.take(ai + l)[v] == a@[v]);
                                    assert(a@[v].key() >= a@[ai as int].key());
                                    assert(b@[w].key() < b@[bi as int].key());
                                }
                            }
                        }
                    }
                    assert forall|j: int| 0 <= j < ai + l && bi + l < m implies (#[trigger] a@[j]).key()
                        < b@[bi + l].key() by {
                        if j >= ai {
                            assert(a@[ai + (j - ai)].key() == b@[bi + (j - ai)].key());
                        }
                    }
                    assert forall|j: int| 0 <= j < bi + l && ai + l < n implies (#[trigger] b@[j]).key()
                        < a@[ai + l].key() by {
                        if j >= bi {
                            assert(a@[ai + (j - bi)].key() == b@[bi + (j - bi)].key());
                        }
                    }
                }
                ai = ai + l;
                bi = bi + l;
            }
        }
        if ai < n {
            output.extend_from_slice(&a[ai..n]);
            proof {
                let run = a@.subrange(ai as int, n as int);
                let em0 = em;
                lemma_subrange_sorted(a@, ai as int, n as int);
                if em0.len() > 0 {
                    assert(em0[em0.len() - 1] == em0.last());
                    assert(em0.contains(em0.last()));
                    assert(run[0] == a@[ai as int]);
                }
                lemma_sorted_append(em0, run);
                em = em0 + run;
                assert forall|x: T| #![auto] em.contains(x) <==> ((a@.contains(x) && !has_key(
                    b@,
                    x.key(),
                )) || (b@.contains(x) && !has_key(a@, x.key()))) by {
                    lemma_contains_concat(em0, run, x);
                    lemma_take_split(a@, ai as int, n as int, x);
                    assert(a@.take(n as int) =~= a@);
                    assert(b@.take(bi as int) =~= b@);
                    if run.contains(x) {
                        let w = lemma_subrange_witness(a@, ai as int, n as int, x);
                        if has_key(b@, x.key()) {
                            let v = lemma_has_key_witness(b@, x.key());
                            assert(b@[v].key() < a@[ai as int].key());
                        }
                    }
                    if b@.contains(x) {
                        let w = lemma_subrange_witness(b@, 0, bi as int, x);
                        assert(b@[w].key() < a@[ai as int].key());
                        if has_key(a@, x.key()) && !has_key(a@.take(ai as int), x.key()) {
                            let v = lemma_has_key_witness(a@, x.key());
                            if v >= ai {
                                assert(a@[v].key() >= a@[ai as int].key());
                            } else {
                                lemma_has_key_intro(a@.take(ai as int), v);
                            }
                        }
                        if has_key(a@.take(ai as int), x.key()) {
                            let v = lemma_has_key_witness(a@.take(ai as int), x.key());
                            assert(a@.take(ai as int)[v] == a@[v]);
                            lemma_has_key_intro(a@, v);
                        }
                    }
                    if a@.take(ai as int).contains(x) {
                        let w = lemma_subrange_witness(a@, 0, ai as int, x);
                        if has_key(b@, x.key()) && !has_key(b@.take(bi as int), x.key()) {
                            let v = lemma_has_key_witness(b@, x.key());
                            lemma_has_key_intro(b@.take(bi as int), v);
                        }
                        if has_key(b@.take(bi as int), x.key()) {
                            let v = lemma_has_key_witness(b@.take(bi as int), x.key());
                            assert(b@.take(bi as int)[v] == b@[v]);
                            lemma_has_key_intro(b@, v);
                        }
                    }
                }
            }
        } else if bi < m {
            output.extend_from_slice(&b[bi..m]);
            proof {
                let run = b@.subrange(bi as int, m as int);
                let em0 = em;
                lemma_subrange_sorted(b@, bi as int, m as int);
                if em0.len() > 0 {
                    assert(em0[em0.len() - 1] == em0.last());
                    assert(em0.contains(em0.last()));
                    assert(run[0] == b@[bi as int]);
                }
                lemma_sorted_append(em0, run);
                em = em0 + run;
                assert forall|x: T| #![auto] em.contains(x) <==> ((a@.contains(x) && !has_key(
                    b@,
                    x.key(),
                )) || (b@.contains(x) && !has_key(a@, x.key()))) by {
                    lemma_contains_concat(em0, run, x);
                    lemma_take_split(b@, bi as int, m as int, x);
                    assert(b@.take(m as int) =~= b@);
                    assert(a@.take(ai as int) =~= a@);
                    if run.contains(x) {
                        let w = lemma_subrange_witness(b@, bi as int, m as int, x);
                        assert(b@[w].key() >= b@[bi as int].key());
                        if has_key(a@, x.key()) {
                            let v = lemma_has_key_witness(a@, x.key());
                            assert(a@[v].key() < b@[bi as int].key());
                        }
                    }
                    if a@.contains(x) {
                        let w = lemma_subrange_witness(a@, 0, ai as int, x);
                        assert(a@[w].key() < b@[bi as int].key());
                        if has_key(b@, x.key()) && !has_key(b@.take(bi as int), x.key()) {
                            let v = lemma_has_key_witness(b@, x.key());
                            if v >= bi {
                                assert(b@[v].key() >= b@[bi as int].key());
                            } else {
                                lemma_has_key_intro(b@.take(bi as int), v);
                            }
                        }
                        if has_key(b@.take(bi as int), x.key()) {
                            let v = lemma_has_key_witness(b@.take(bi as int), x.key());
                            assert(b@.take(bi as int)[v] == b@[v]);
                            lemma_has_key_intro(b@, v);
                        }
                    }
                    if b@.take(bi as int).contains(x) {
                        let w = lemma_subrange_witness(b@, 0, bi as int, x);
                        if has_key(a@, x.key()) && !has_key(a@.take(ai as int), x.key()) {
                            let v = lemma_has_key_witness(a@, x.key());
                            lemma_has_key_intro(a@.take(ai as int), v);
                        }
                        if has_key(a@.take(ai as int), x.key()) {
                            let v = lemma_has_key_witness(a@.take(ai as int), x.key());
                            assert(a@.take(ai as int)[v] == a@[v]);
                            lemma_has_key_intro(a@, v);
                        }
                    }
                }
            }
        } else {
            proof {
                assert forall|x: T| #![auto] em.contains(x) <==> ((a@.contains(x) && !has_key(
                    b@,
                    x.key(),
                )) || (b@.contains(x) && !has_key(a@, x.key()))) by {
                    assert(a@.take(ai as int) =~= a@);
                    assert(b@.take(bi as int) =~= b@);
                }
            }
        }
        proof {
            assert(self.emits(em));
            lemma_sorted_implies_nondec(em);
            assert(output.contents() == init + em);
        }
    }
}

} // verus!
