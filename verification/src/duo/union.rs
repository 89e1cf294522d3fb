//! The union of exactly two ordered sequences.

use vstd::prelude::*;

use crate::collection::Collection;
use crate::model::{
    has_key, lemma_contains_concat, lemma_has_key_intro, lemma_has_key_witness,
    lemma_sorted_append, lemma_sorted_implies_nondec, lemma_subrange_sorted,
    lemma_subrange_witness, lemma_take_split, nondec_keys, sorted_keys, Element,
};
use crate::set::SortedSet;
use crate::{lower_bound_from, SetOperation};

verus! {

/// `r` is the union of `a` and `b`: its keys are exactly the keys of both
/// inputs, in increasing order, and each element is drawn from `a` when its
/// key appears there, else from `b`.
pub open spec fn union_emitted<T: Element>(a: Seq<T>, b: Seq<T>, r: Seq<T>) -> bool {
    &&& sorted_keys(r)
    &&& forall|x: T| #![trigger r.contains(x)] #![trigger a.contains(x)] #![trigger b.contains(x)]
        r.contains(x) <==> (a.contains(x) || (b.contains(x) && !has_key(a, x.key())))
}

/// The member of `x` classified against the consumed prefixes `a.take(ai)`
/// and `b.take(bi)`.
spec fn upto_member<T: Element>(a: Seq<T>, b: Seq<T>, ai: int, bi: int, x: T) -> bool {
    a.take(ai).contains(x) || (b.take(bi).contains(x) && !has_key(a.take(ai), x.key()))
}

/// The union of two ordered sequences: emits, in increasing key order, one
/// element for every key of either input, preferring the element of `a`.
#[derive(Clone, Copy)]
pub struct Union<'a, T: Element> {
    /// The first input.
    pub a: &'a [T],
    /// The second input.
    pub b: &'a [T],
}

impl<'a, T: Element> Union<'a, T> {
    /// Captures two validated sequences.
    pub fn new(a: SortedSet<'a, T>, b: SortedSet<'a, T>) -> (r: Self)
        ensures
            r.a@ == a@,
            r.b@ == b@,
    {
        Union { a: a.as_slice(), b: b.as_slice() }
    }
}

impl<'a, T: Element> SetOperation<T> for Union<'a, T> {
    open spec fn wf(&self) -> bool {
        sorted_keys(self.a@) && sorted_keys(self.b@)
    }

    open spec fn emits(&self, r: Seq<T>) -> bool {
        union_emitted(self.a@, self.b@, r)
    }

    #[verifier::loop_isolation(false)]
    #[verifier::rlimit(60)]
    fn extend_collection<C: Collection<T>>(self, output: &mut C) {
        let a = self.a;
        let b = self.b;
        let n = a.len();
        let m = b.len();
        let ghost init = output.contents();
        proof {
            lemma_sorted_implies_nondec(a@);
            lemma_sorted_implies_nondec(b@);
        }
        let reserve_len = if n < m {
            m
        } else {
            n
        };
        output.reserve(reserve_len);
        let mut ai: usize = 0;
        let mut bi: usize = 0;
        let ghost mut em: Seq<T> = Seq::empty();
        while ai < n && bi < m
            invariant
                0 <= ai <= n,
                0 <= bi <= m,
                output.inv(),
                output.contents() == init + em,
                sorted_keys(em),
                forall|x: T| #![auto] em.contains(x) <==> upto_member(a@, b@, ai as int, bi as int, x),
                forall|x: T| #![auto] em.contains(x) && ai < n ==> x.key() < a@[ai as int].key(),
                forall|x: T| #![auto] em.contains(x) && bi < m ==> x.key() < b@[bi as int].key(),
                forall|j: int| 0 <= j < ai && bi < m ==> (#[trigger] a@[j]).key() < b@[bi as int].key(),
                forall|j: int| 0 <= j < bi && ai < n ==> (#[trigger] b@[j]).key() < a@[ai as int].key(),
            decreases n - ai + m - bi,
        {
            let ka = a[ai].keyv();
            let kb = b[bi].keyv();
            if ka < kb {
                let off = lower_bound_from(a, ai, kb);
                output.extend_from_slice(&a[ai..off]);
                proof {
                    let run = a@.subrange(ai as int, off as int);
                    let em0 = em;
                    lemma_subrange_sorted(a@, ai as int, off as int);
                    if em0.len() > 0 && run.len() > 0 {
                        assert(em0[em0.len() - 1] == em0.last());
                        assert(em0.contains(em0.last()));
                        assert(run[0] == a@[ai as int]);
                    }
                    lemma_sorted_append(em0, run);
                    em = em0 + run;
                    assert forall|x: T| #![auto] em.contains(x) <==> upto_member(
                        a@,
                        b@,
                        off as int,
                        bi as int,
                        x,
                    ) by {
                        lemma_contains_concat(em0, run, x);
                        lemma_take_split(a@, ai as int, off as int, x);
                        if run.contains(x) {
                            let w = lemma_subrange_witness(a@, ai as int, off as int, x);
                        }
                        if b@.take(bi as int).contains(x) {
                            let w = lemma_subrange_witness(b@, 0, bi as int, x);
                            assert(b@[w].key() < a@[ai as int].key());
                            if has_key(a@.take(ai as int), x.key()) {
                                let v = lemma_has_key_witness(a@.take(ai as int), x.key());
                                lemma_has_key_intro(a@.take(off as int), v);
                            }
                            if has_key(a@.take(off as int), x.key()) {
                                let v = lemma_has_key_witness(a@.take(off as int), x.key());
                                if v < ai {
                                    lemma_has_key_intro(a@.take(ai as int), v);
                                } else {
                                    assert(a@.take(off as int)[v] == a@[v]);
                                    assert(a@[v].key() >= a@[ai as int].key());
                                }
                            }
                        }
                    }
                    assert forall|x: T| #![auto] em.contains(x) && off < n implies x.key() < a@[off as int].key() by {
                        lemma_contains_concat(em0, run, x);
                        if run.contains(x) {
                            let w = lemma_subrange_witness(a@, ai as int, off as int, x);
                        }
                    }
                    assert forall|x: T| #![auto] em.contains(x) && bi < m implies x.key() < b@[bi as int].key() by {
                        lemma_contains_concat(em0, run, x);
                        if run.contains(x) {
                            let w = lemma_subrange_witness(a@, ai as int, off as int, x);
                        }
                    }
                }
                ai = off;
            } else if kb < ka {
                let off = lower_bound_from(b, bi, ka);
                output.extend_from_slice(&b[bi..off]);
                proof {
                    let run = b@.subrange(bi as int, off as int);
                    let em0 = em;
                    lemma_subrange_sorted(b@, bi as int, off as int);
                    if em0.len() > 0 && run.len() > 0 {
                        assert(em0[em0.len() - 1] == em0.last());
                        assert(em0.contains(em0.last()));
                        assert(run[0] == b@[bi as int]);
                    }
                    lemma_sorted_append(em0, run);
                    em = em0 + run;
                    assert forall|x: T| #![auto] em.contains(x) <==> upto_member(
                        a@,
                        b@,
                        ai as int,
                        off as int,
                        x,
                    ) by {
                        lemma_contains_concat(em0, run, x);
                        lemma_take_split(b@, bi as int, off as int, x);
                        if run.contains(x) {
                            let w = lemma_subrange_witness(b@, bi as int, off as int, x);
                            assert(b@[w].key() < ka as int);
                            if has_key(a@.take(ai as int), x.key()) {
                                let v = lemma_has_key_witness(a@.take(ai as int), x.key());
                                assert(a@.take(ai as int)[v] == a@[v]);
                                assert(a@[v].key() < b@[bi as int].key());
                                assert(b@[bi as int].key() <= x.key());
                            }
                        }
                        if b@.take(bi as int).contains(x) {
                            let w = lemma_subrange_witness(b@, 0, bi as int, x);
                        }
                    }
                    assert forall|x: T| #![auto] em.contains(x) && ai < n implies x.key() < a@[ai as int].key() by {
                        lemma_contains_concat(em0, run, x);
                        if run.contains(x) {
                            let w = lemma_subrange_witness(b@, bi as int, off as int, x);
                        }
                    }
                    assert forall|x: T| #![auto] em.contains(x) && off < m implies x.key() < b@[off as int].key() by {
                        lemma_contains_concat(em0, run, x);
                        if run.contains(x) {
                            let w = lemma_subrange_witness(b@, bi as int, off as int, x);
                        }
                    }
                }
                bi = off;
            } else {
                let mut l: usize = 1;
                while ai + l < n && bi + l < m && a[ai + l].keyv() == b[bi + l].keyv()
                    invariant
                        1 <= l,
                        ai + l <= n,
                        bi + l <= m,
                        forall|t: int| 0 <= t < l ==> (#[trigger] a@[ai + t]).key() == b@[bi + t].key(),
                    decreases n - ai - l,
                {
                    l = l + 1;
                }
                output.extend_from_slice(&a[ai..ai + l]);
                proof {
                    let run = a@.subrange(ai as int, ai + l);
                    let em0 = em;
                    lemma_subrange_sorted(a@, ai as int, ai + l);
                    if em0.len() > 0 {
                        assert(em0[em0.len() - 1] == em0.last());
                        assert(em0.contains(em0.last()));
                        assert(run[0] == a@[ai as int]);
                    }
                    lemma_sorted_append(em0, run);
                    em = em0 + run;
                    assert forall|x: T| #![auto] em.contains(x) <==> upto_member(
                        a@,
                        b@,
                        ai + l,
                        bi + l,
                        x,
                    ) by {
                        lemma_contains_concat(em0, run, x);
                        lemma_take_split(a@, ai as int, ai + l, x);
                        lemma_take_split(b@, bi as int, bi + l, x);
                        if run.contains(x) {
                            let w = lemma_subrange_witness(a@, ai as int, ai + l, x);
                        }
                        if b@.take(bi as int).contains(x) {
                            let w = lemma_subrange_witness(b@, 0, bi as int, x);
                            assert(b@[w].key() < a@[ai as int].key());
                            if has_key(a@.take(ai as int), x.key()) {
                                let v = lemma_has_key_witness(a@.take(ai as int), x.key());
                                lemma_has_key_intro(a@.take(ai + l), v);
                            }
                            if has_key(a@.take(ai + l), x.key()) {
                                let v = lemma_has_key_witness(a@.take(ai + l), x.key());
                                if v < ai {
                                    lemma_has_key_intro(a@.take(ai as int), v);
                                } else {
                                    assert(a@.take(ai + l)[v] == a@[v]);
                                    assert(a@[v].key() >= a@[ai as int].key());
                                }
                            }
                        }
                        if b@.subrange(bi as int, bi + l).contains(x) {
                            let w = lemma_subrange_witness(b@, bi as int, bi + l, x);
                            assert(b@[w].key() == a@[ai + (w - bi)].key());
                            if !has_key(a@.take(ai + l), x.key()) {
                                lemma_has_key_intro(a@.take(ai + l), ai + (w - bi));
                            }
                        }
                    }
                    assert forall|x: T| #![auto] em.contains(x) && ai + l < n implies x.key() < a@[ai
                        + l].key() by {
                        lemma_contains_concat(em0, run, x);
                        if run.contains(x) {
                            let w = lemma_subrange_witness(a@, ai as int, ai + l, x);
                        }
                    }
                    assert forall|x: T| #![auto] em.contains(x) && bi + l < m implies x.key() < b@[bi
                        + l].key() by {
                        lemma_contains_concat(em0, run, x);
                        if run.contains(x) {
                            let w = lemma_subrange_witness(a@, ai as int, ai + l, x);
                            assert(x.key() == a@[w].key());
                            assert(a@[ai + (w - ai)].key() == b@[bi + (w - ai)].key());
                            assert(a@[w].key() == b@[bi + (w - ai)].key());
                        }
                    }
                    assert forall|j: int| 0 <= j < ai + l && bi + l < m implies (#[trigger] a@[j]).key()
                        < b@[bi + l].key() by {
                        if j >= ai {
                            assert(a@[ai + (j - ai)].key() == b@[bi + (j - ai)].key());
                            assert(a@[j].key() == b@[bi + (j - ai)].key());
                        }
                    }
                    assert forall|j: int| 0 <= j < bi + l && ai + l < n implies (#[trigger] b@[j]).key()
                        < a@[ai + l].key() by {
                        if j >= bi {
                            assert(a@[ai + (j - bi)].key() == b@[bi + (j - bi)].key());
                            assert(b@[j].key() == a@[ai + (j - bi)].key());
                        }
                    }
                }
                ai = ai + l;
                bi = bi + l;
            }
        }
        if ai < n {
            output.extend_from_slice(&a[ai..n]);
            proof {
                let run = a@.subrange(ai as int, n as int);
                let em0 = em;
                lemma_subrange_sorted(a@, ai as int, n as int);
                if em0.len() > 0 {
                    assert(em0[em0.len() - 1] == em0.last());
                    assert(em0.contains(em0.last()));
                    assert(run[0] == a@[ai as int]);
                }
                lemma_sorted_append(em0, run);
                em = em0 + run;
                assert forall|x: T| #![auto] em.contains(x) <==> (a@.contains(x) || (b@.contains(x)
                    && !has_key(a@, x.key()))) by {
                    lemma_contains_concat(em0, run, x);
                    lemma_take_split(a@, ai as int, n as int, x);
                    assert(a@.take(n as int) =~= a@);
                    assert(b@.take(bi as int) =~= b@);
                    if run.contains(x) {
                        let w = lemma_subrange_witness(a@, ai as int, n as int, x);
                    }
                    if b@.contains(x) {
                        let w = lemma_subrange_witness(b@, 0, bi as int, x);
                        assert(b@[w].key() < a@[ai as int].key());
                        if has_key(a@, x.key()) && !has_key(a@.take(ai as int), x.key()) {
                            let v = lemma_has_key_witness(a@, x.key());
                            if v >= ai {
                                assert(a@[v].key() >= a@[ai as int].key());
                            } else {
                                lemma_has_key_intro(a@.take(ai as int), v);
                            }
                        }
                        if has_key(a@.take(ai as int), x.key()) {
                            let v = lemma_has_key_witness(a@.take(ai as int), x.key());
                            assert(a@.take(ai as int)[v] == a@[v]);
                            lemma_has_key_intro(a@, v);
                        }
                    }
                }
            }
        } else if bi < m {
            output.extend_from_slice(&b[bi..m]);
            proof {
                let run = b@.subrange(bi as int, m as int);
                let em0 = em;
                lemma_subrange_sorted(b@, bi as int, m as int);
                if em0.len() > 0 {
                    assert(em0[em0.len() - 1] == em0.last());
                    assert(em0.contains(em0.last()));
                    assert(run[0] == b@[bi as int]);
                }
                lemma_sorted_append(em0, run);
                em = em0 + run;
                assert forall|x: T| #![auto] em.contains(x) <==> (a@.contains(x) || (b@.contains(x)
                    && !has_key(a@, x.key()))) by {
                    lemma_contains_concat(em0, run, x);
                    lemma_take_split(b@, bi as int, m as int, x);
                    assert(a@.take(ai as int) =~= a@);
                    assert(b@.take(m as int) =~= b@);
                    if run.contains(x) {
                        let w = lemma_subrange_witness(b@, bi as int, m as int, x);
                        assert(b@[w].key() >= b@[bi as int].key());
                        if has_key(a@, x.key()) {
                            let v = lemma_has_key_witness(a@, x.key());
                            assert(a@[v].key() < b@[bi as int].key());
                        }
                    }
                    if b@.take(bi as int).contains(x) {
                        let w = lemma_subrange_witness(b@, 0, bi as int, x);
                    }
                }
            }
        } else {
            proof {
                assert forall|x: T| #![auto] em.contains(x) <==> (a@.contains(x) || (b@.contains(x)
                    && !has_key(a@, x.key()))) by {
                    assert(a@.take(ai as int) =~= a@);
                    assert(b@.take(bi as int) =~= b@);
                }
            }
        }
        proof {
            assert(self.emits(em));
            lemma_sorted_implies_nondec(em);
            assert(output.contents() == init + em);
        }
    }
}

} // verus!
