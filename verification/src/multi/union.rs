//! The union of any number of ordered sequences.

use vstd::prelude::*;

use crate::collection::Collection;
use crate::model::{
    has_key, lemma_contains_concat, lemma_has_key_intro, lemma_has_key_witness,
    lemma_sorted_append, lemma_sorted_implies_nondec, lemma_subrange_sorted,
    lemma_subrange_witness, nondec_keys, sorted_keys, Element,
};
use crate::multi::{lemma_rem_sum_mono, lemma_rem_sum_nonneg, lemma_rem_sum_strict, rem_sum};
use crate::set::SortedSet;
use crate::two_minimums::{two_minimums, Minimums};
use crate::{lower_bound_from, SetOperation};

verus! {

/// `r` is the union of the inputs `ss`: its keys are exactly the keys
/// appearing in some input, in increasing order, and every element is drawn
/// from some input.
pub open spec fn multi_union_emitted<T: Element>(ss: Seq<&[T]>, r: Seq<T>) -> bool {
    &&& sorted_keys(r)
    &&& forall|x: T|
        #[trigger] r.contains(x) ==> exists|j: int|
            0 <= j < ss.len() && (#[trigger] ss[j])@.contains(x)
    &&& forall|kk: int|
        #[trigger] has_key(r, kk) <==> exists|j: int|
            0 <= j < ss.len() && has_key((#[trigger] ss[j])@, kk)
}

/// The union over any number of ordered sequences: emits, in increasing key
/// order, one element for every key that appears in some input.
#[derive(Clone)]
pub struct Union<'a, T: Element> {
    /// The inputs.
    pub slices: Vec<&'a [T]>,
}

impl<'a, T: Element> Union<'a, T> {
    /// Captures any number of validated sequences.
    pub fn new(slices: Vec<SortedSet<'a, T>>) -> (r: Self)
        ensures
            r.slices@.len() == slices@.len(),
            forall|i: int| 0 <= i < slices@.len() ==> (#[trigger] r.slices@[i])@ == slices@[i]@,
    {
        let mut out: Vec<&'a [T]> = Vec::new();
        let len = slices.len();
        let mut i: usize = 0;
        while i < len
            invariant
                len == slices@.len(),
                0 <= i <= len,
                out@.len() == i,
                forall|j: int| 0 <= j < i ==> (#[trigger] out@[j])@ == slices@[j]@,
            decreases len - i,
        {
            out.push(slices[i].as_slice());
            i += 1;
        }
        Union { slices: out }
    }
}

impl<'a, T: Element> SetOperation<T> for Union<'a, T> {
    open spec fn wf(&self) -> bool {
        forall|j: int| 0 <= j < self.slices@.len() ==> sorted_keys((#[trigger] self.slices@[j])@)
    }

    open spec fn emits(&self, r: Seq<T>) -> bool {
        multi_union_emitted(self.slices@, r)
    }

    #[verifier::loop_isolation(false)]
    #[verifier::rlimit(100)]
    fn extend_collection<C: Collection<T>>(self, output: &mut C) {
        let mut rest = self.slices;
        let ghost ss = rest@;
        let k = rest.len();
        let ghost init = output.contents();
        if k > 0 {
            let l0 = rest[0].len();
            output.reserve(l0);
        }
        let mut lens: Vec<usize> = Vec::new();
        let mut li: usize = 0;
        while li < k
            invariant
                0 <= li <= k,
                lens@.len() == li,
                forall|j: int| 0 <= j < li ==> #[trigger] lens@[j] == ss[j]@.len(),
            decreases k - li,
        {
            lens.push(rest[li].len());
            li += 1;
        }
        let ghost mut cns: Seq<usize> = Seq::new(k as nat, |i: int| 0usize);
        let ghost mut em: Seq<T> = Seq::empty();
        proof {
            assert forall|j: int| 0 <= j < k implies #[trigger] cns[j] <= ss[j]@.len() && rest@[j]@
                == ss[j]@.skip(cns[j] as int) by {
                assert(ss[j]@.skip(0) =~= ss[j]@);
            }
            assert(init + em =~= init);
        }
        let mut done = false;
        while !done
            invariant
                rest@.len() == k == ss.len(),
                cns.len() == k,
                forall|j: int|
                    0 <= j < k ==> #[trigger] cns[j] <= ss[j]@.len() && rest@[j]@ == ss[j]@.skip(
                        cns[j] as int,
                    ),
                output.inv(),
                output.contents() == init + em,
                sorted_keys(em),
                forall|x: T|
                    #[trigger] em.contains(x) ==> exists|j: int|
                        0 <= j < k && (#[trigger] ss[j])@.contains(x),
                forall|kk: int|
                    #[trigger] has_key(em, kk) <==> exists|j: int|
                        0 <= j < k && has_key((#[trigger] ss[j])@.take(cns[j] as int), kk),
                forall|x: T, j: int| #![auto]
                    em.contains(x) && 0 <= j < k && cns[j] < ss[j]@.len() ==> x.key()
                        < ss[j]@[cns[j] as int].key(),
                done ==> forall|j: int| 0 <= j < k ==> #[trigger] cns[j] >= ss[j]@.len(),
            decreases rem_sum(ss, cns, 0) + (if done {
                0int
            } else {
                1int
            }),
        {
            let ghost cns0 = cns;
            let ghost em0 = em;
            let ghost rest0 = rest@;
            proof {
                lemma_rem_sum_nonneg(ss, cns, 0);
            }
            match two_minimums(rest.as_slice()) {
                Minimums::Nothing => {
                    done = true;
                    proof {
                        assert forall|j: int| 0 <= j < k implies #[trigger] cns[j]
                            >= ss[j]@.len() by {
                            assert(rest0[j]@.len() == 0);
                        }
                    }
                },
                Minimums::One(f) => {
                    let fi = f.0;
                    let tail = rest[fi];
                    output.extend_from_slice(tail);
                    let cl = tail.len();
                    rest[fi] = &tail[cl..cl];
                    done = true;
                    proof {
                        let ci = cns0[fi as int] as int;
                        let run = tail@;
                        let li = ss[fi as int]@.len() as int;
                        assert(run == ss[fi as int]@.skip(ci));
                        assert(run =~= ss[fi as int]@.subrange(ci, li));
                        lemma_subrange_sorted(ss[fi as int]@, ci, li);
                        if em0.len() > 0 && run.len() > 0 {
                            assert(em0[em0.len() - 1] == em0.last());
                            assert(em0.contains(em0.last()));
                            assert(run[0] == ss[fi as int]@[ci]);
                        }
                        lemma_sorted_append(em0, run);
                        em = em0 + run;
                        cns = cns.update(fi as int, lens@[fi as int]);
                        assert(cns[fi as int] == ss[fi as int]@.len());
                        assert forall|j: int| 0 <= j < k implies #[trigger] cns[j] <= ss[j]@.len()
                            && rest@[j]@ == ss[j]@.skip(cns[j] as int) by {
                            if j == fi {
                                assert(rest@[j]@ =~= ss[j]@.skip(cns[j] as int));
                            }
                        }
                        assert forall|j: int| 0 <= j < k implies #[trigger] cns[j]
                            >= ss[j]@.len() by {
                            if j != fi {
                                assert(rest0[j]@.len() == 0);
                            }
                        }
                        assert forall|x: T| #[trigger] em.contains(x) implies exists|j: int|
                            0 <= j < k && (#[trigger] ss[j])@.contains(x) by {
                            lemma_contains_concat(em0, run, x);
                            if run.contains(x) {
                                let w = lemma_subrange_witness(ss[fi as int]@, ci, li, x);
                                assert(ss[fi as int]@.contains(x));
                            }
                        }
                        assert forall|kk: int| #[trigger] has_key(em, kk) implies exists|j: int|
                            0 <= j < k && has_key((#[trigger] ss[j])@.take(cns[j] as int), kk) by {
                            let w = lemma_has_key_witness(em, kk);
                            if w < em0.len() {
                                lemma_has_key_intro(em0, w);
                                let j = choose|j: int|
                                    0 <= j < k && has_key(
                                        (#[trigger] ss[j])@.take(cns0[j] as int),
                                        kk,
                                    );
                                let v = lemma_has_key_witness(ss[j]@.take(cns0[j] as int), kk);
                                assert(ss[j]@.take(cns[j] as int)[v].key() == kk);
                                lemma_has_key_intro(ss[j]@.take(cns[j] as int), v);
                            } else {
                                assert(em[w] == run[w - em0.len()]);
                                assert(ss[fi as int]@[ci + (w - em0.len())].key() == kk);
                                assert(ss[fi as int]@.take(cns[fi as int] as int)[ci + (w - em0.len())].key()
                                    == kk);
                                lemma_has_key_intro(
                                    ss[fi as int]@.take(cns[fi as int] as int),
                                    ci + (w - em0.len()),
                                );
                            }
                        }
                        assert forall|kk: int|
                            (exists|j: int|
                                0 <= j < k && has_key(
                                    (#[trigger] ss[j])@.take(cns[j] as int),
                                    kk,
                                )) implies #[trigger] has_key(em, kk) by {
                            let j = choose|j: int|
                                0 <= j < k && has_key((#[trigger] ss[j])@.take(cns[j] as int), kk);
                            let v = lemma_has_key_witness(ss[j]@.take(cns[j] as int), kk);
                            if j != fi || v < ci {
                                assert(ss[j]@.take(cns0[j] as int)[v].key() == kk);
                                lemma_has_key_intro(ss[j]@.take(cns0[j] as int), v);
                                assert(has_key(em0, kk));
                                let w = lemma_has_key_witness(em0, kk);
                                assert(em[w].key() == kk);
                                lemma_has_key_intro(em, w);
                            } else {
                                assert(run[v - ci].key() == kk);
                                assert(em[em0.len() + (v - ci)].key() == kk);
                                lemma_has_key_intro(em, em0.len() + (v - ci));
                            }
                        }
                        lemma_rem_sum_mono(ss, cns0, cns, 0);
                        lemma_rem_sum_nonneg(ss, cns, 0);
                    }
                },
                Minimums::Two(f, s) => {
                    let fi = f.0;
                    let si = s.0;
                    let fk = f.1.keyv();
                    let sk = s.1.keyv();
                    proof {
                        assert(rest0[fi as int]@[0] == ss[fi as int]@[cns0[fi as int] as int]);
                        assert(rest0[si as int]@[0] == ss[si as int]@[cns0[si as int] as int]);
                        assert(cns0[fi as int] < ss[fi as int]@.len());
                        assert(cns0[si as int] < ss[si as int]@.len());
                        assert(f.1 == ss[fi as int]@[cns0[fi as int] as int]);
                        assert(s.1 == ss[si as int]@[cns0[si as int] as int]);
                        assert forall|j: int| 0 <= j < k && cns0[j] < ss[j]@.len() implies (
                        #[trigger] ss[j]@[cns0[j] as int]).key() >= f.1.key() by {
                            assert(rest0[j]@.len() > 0);
                            assert(rest0[j]@[0] == ss[j]@[cns0[j] as int]);
                        }
                        assert forall|j: int|
                            0 <= j < k && j != fi && cns0[j] < ss[j]@.len() implies (
                        #[trigger] ss[j]@[cns0[j] as int]).key() >= s.1.key() by {
                            assert(rest0[j]@.len() > 0);
                            assert(rest0[j]@[0] == ss[j]@[cns0[j] as int]);
                        }
                    }
                    let ghost mut run: Seq<T> = Seq::empty();
                    if fk < sk {
                        let cur = rest[fi];
                        proof {
                            lemma_subrange_sorted(
                                ss[fi as int]@,
                                cns0[fi as int] as int,
                                ss[fi as int]@.len() as int,
                            );
                            lemma_sorted_implies_nondec(cur@);
                        }
                        let off = lower_bound_from(cur, 0, sk);
                        output.extend_from_slice(&cur[0..off]);
                        let cl = cur.len();
                        rest[fi] = &cur[off..cl];
                        proof {
                            let ci = cns0[fi as int] as int;
                            run = cur@.subrange(0, off as int);
                            assert(run =~= ss[fi as int]@.subrange(ci, ci + off));
                            lemma_subrange_sorted(ss[fi as int]@, ci, ci + off);
                            if em0.len() > 0 && run.len() > 0 {
                                assert(em0[em0.len() - 1] == em0.last());
                                assert(em0.contains(em0.last()));
                                assert(run[0] == ss[fi as int]@[ci]);
                            }
                            lemma_sorted_append(em0, run);
                            em = em0 + run;
                            assert(ci + off <= lens@[fi as int]);
                            cns = cns.update(fi as int, (ci + off) as usize);
                            assert forall|j: int|
                                0 <= j < k implies #[trigger] cns[j] <= ss[j]@.len() && rest@[j]@
                                == ss[j]@.skip(cns[j] as int) by {
                                if j == fi {
                                    assert(rest@[j]@ =~= ss[j]@.skip(cns[j] as int));
                                }
                            }
                            assert forall|t: int|
                                cns[fi as int] <= t < ss[fi as int]@.len() implies (
                            #[trigger] ss[fi as int]@[t]).key() >= sk as int by {
                                assert(ss[fi as int]@[t] == cur@[t - ci]);
                            }
                        }
                    } else {
                        proof {
                            assert(init + em =~= init + em0 + run);
                        }
                    }
                    output.push(s.1);
                    proof {
                        let em1 = em;
                        assert(forall|t: int|
                            0 <= t < run.len() ==> (#[trigger] run[t]).key() < sk as int);
                        assert(em1 == em0 + run);
                        assert forall|t: int| 0 <= t < em1.len() implies (#[trigger] em1[t]).key()
                            < sk as int by {
                            if t < em0.len() {
                                assert(em1[t] == em0[t]);
                                assert(em0.contains(em0[t]));
                                assert(em0[t].key() < ss[si as int]@[cns0[si as int] as int].key());
                            } else {
                                assert(em1[t] == run[t - em0.len()]);
                            }
                        }
                        em = em1.push(s.1);
                        assert forall|p: int, q: int| 0 <= p < q < em.len() implies em[p].key()
                            < em[q].key() by {
                            if q < em.len() - 1 {
                                assert(em[p] == em1[p] && em[q] == em1[q]);
                            } else {
                                assert(em[q] == s.1);
                                assert(em[p] == em1[p]);
                            }
                        }
                        assert(sorted_keys(em));
                        assert(output.contents() == init + em) by {
                            assert(init + em1 + seq![s.1] =~= init + em);
                            assert((init + em1).push(s.1) =~= init + em1 + seq![s.1]);
                        }
                    }
                    let ghost cns_mid = cns;
                    let mut j2: usize = 0;
                    while j2 < k
                        invariant
                            0 <= j2 <= k,
                            rest@.len() == k,
                            cns.len() == k,
                            forall|j: int|
                                0 <= j < k ==> #[trigger] cns[j] <= ss[j]@.len() && rest@[j]@
                                    == ss[j]@.skip(cns[j] as int),
                            forall|j: int| j2 <= j < k ==> #[trigger] cns[j] == cns_mid[j],
                            forall|j: int|
                                0 <= j < j2 ==> (#[trigger] cns[j] == cns_mid[j] && (cns_mid[j]
                                    >= ss[j]@.len() || ss[j]@[cns_mid[j] as int].key()
                                    != sk as int)) || (cns[j] == cns_mid[j] + 1 && cns_mid[j]
                                    < ss[j]@.len() && ss[j]@[cns_mid[j] as int].key()
                                    == sk as int),
                        decreases k - j2,
                    {
                        let cur2 = rest[j2];
                        if !cur2.is_empty() && cur2[0].keyv() == sk {
                            let cl2 = cur2.len();
                            rest[j2] = &cur2[1..cl2];
                            proof {
                                let cj = cns[j2 as int] as int;
                                assert(cur2@[0] == ss[j2 as int]@[cj]);
                                assert(cj + 1 <= lens@[j2 as int]);
                                cns = cns.update(j2 as int, (cj + 1) as usize);
                                assert forall|j: int|
                                    0 <= j < k implies #[trigger] cns[j] <= ss[j]@.len()
                                    && rest@[j]@ == ss[j]@.skip(cns[j] as int) by {
                                    if j == j2 {
                                        assert(rest@[j]@ =~= ss[j]@.skip(cns[j] as int));
                                    }
                                }
                            }
                        } else {
                            proof {
                                if cns[j2 as int] < ss[j2 as int]@.len() {
                                    assert(rest@[j2 as int]@[0] == ss[j2 as int]@[cns[j2 as int] as int]);
                                }
                            }
                        }
                        j2 += 1;
                    }
                    proof {
                        assert(cns_mid[si as int] == cns0[si as int]);
                        assert(ss[si as int]@[cns_mid[si as int] as int].key() == sk as int);
                        assert(cns[si as int] == cns_mid[si as int] + 1);
                        let emf = em;
                        assert(emf.len() == em0.len() + run.len() + 1);
                        assert(emf[emf.len() - 1] == s.1);
                        let ci = cns0[fi as int] as int;
                        assert forall|x: T| #[trigger] emf.contains(x) implies exists|j: int|
                            0 <= j < k && (#[trigger] ss[j])@.contains(x) by {
                            let w = choose|w: int| 0 <= w < emf.len() && emf[w] == x;
                            if w < em0.len() {
                                assert(em0[w] == x);
                                assert(em0.contains(x));
                            } else if w < emf.len() - 1 {
                                assert(emf[w] == run[w - em0.len()]);
                                assert(ss[fi as int]@[ci + (w - em0.len())] == x);
                                assert(ss[fi as int]@.contains(x));
                            } else {
                                assert(emf[w] == s.1);
                                assert(ss[si as int]@[cns0[si as int] as int] == x);
                                assert(ss[si as int]@.contains(x));
                            }
                        }
                        assert forall|kk: int| #[trigger] has_key(emf, kk) implies exists|j: int|
                            0 <= j < k && has_key((#[trigger] ss[j])@.take(cns[j] as int), kk) by {
                            let w = lemma_has_key_witness(emf, kk);
                            if w < em0.len() {
                                lemma_has_key_intro(em0, w);
                                let j = choose|j: int|
                                    0 <= j < k && has_key(
                                        (#[trigger] ss[j])@.take(cns0[j] as int),
                                        kk,
                                    );
                                let v = lemma_has_key_witness(ss[j]@.take(cns0[j] as int), kk);
                                assert(cns0[j] <= cns[j]);
                                assert(ss[j]@.take(cns[j] as int)[v].key() == kk);
                                lemma_has_key_intro(ss[j]@.take(cns[j] as int), v);
                            } else if w < emf.len() - 1 {
                                assert(emf[w] == run[w - em0.len()]);
                                assert(ss[fi as int]@[ci + (w - em0.len())].key() == kk);
                                assert(cns[fi as int] >= cns_mid[fi as int]);
                                assert(ss[fi as int]@.take(cns[fi as int] as int)[ci + (w
                                    - em0.len())].key() == kk);
                                lemma_has_key_intro(
                                    ss[fi as int]@.take(cns[fi as int] as int),
                                    ci + (w - em0.len()),
                                );
                            } else {
                                assert(emf[w] == s.1 && kk == s.1.key());
                                assert(ss[si as int]@.take(cns[si as int] as int)[cns_mid[si as int] as int].key()
                                    == kk);
                                lemma_has_key_intro(
                                    ss[si as int]@.take(cns[si as int] as int),
                                    cns_mid[si as int] as int,
                                );
                            }
                        }
                        assert forall|kk: int|
                            (exists|j: int|
                                0 <= j < k && has_key(
                                    (#[trigger] ss[j])@.take(cns[j] as int),
                                    kk,
                                )) implies #[trigger] has_key(emf, kk) by {
                            let j = choose|j: int|
                                0 <= j < k && has_key((#[trigger] ss[j])@.take(cns[j] as int), kk);
                            let v = lemma_has_key_witness(ss[j]@.take(cns[j] as int), kk);
                            if v < cns0[j] {
                                assert(ss[j]@.take(cns0[j] as int)[v].key() == kk);
                                lemma_has_key_intro(ss[j]@.take(cns0[j] as int), v);
                                assert(has_key(em0, kk));
                                let w = lemma_has_key_witness(em0, kk);
                                assert(emf[w].key() == kk);
                                lemma_has_key_intro(emf, w);
                            } else if j == fi && v < cns_mid[fi as int] {
                                assert(run[v - ci].key() == kk);
                                assert(emf[em0.len() + (v - ci)].key() == kk);
                                lemma_has_key_intro(emf, em0.len() + (v - ci));
                            } else {
                                assert(cns[j] == cns_mid[j] + 1 && v == cns_mid[j]);
                                assert(ss[j]@[v].key() == sk as int);
                                assert(s.1.key() == sk as int);
                                assert(emf[emf.len() - 1].key() == kk);
                                lemma_has_key_intro(emf, emf.len() - 1);
                            }
                        }
                        assert forall|x: T, j: int| #![auto]
                            emf.contains(x) && 0 <= j < k && cns[j] < ss[j]@.len() implies x.key()
                            < ss[j]@[cns[j] as int].key() by {
                            assert(x.key() <= sk as int) by {
                                let w = choose|w: int| 0 <= w < emf.len() && emf[w] == x;
                                if w < emf.len() - 1 {
                                    assert(emf[w].key() < emf[emf.len() - 1].key());
                                }
                            }
                            if cns[j] == cns_mid[j] {
                                assert(ss[j]@[cns_mid[j] as int].key() != sk as int);
                                if j != fi {
                                    assert(cns_mid[j] == cns0[j]);
                                    assert(ss[j]@[cns0[j] as int].key() >= s.1.key());
                                } else {
                                    if fk < sk {
                                        assert(ss[j]@[cns[j] as int].key() >= sk as int);
                                    } else {
                                        assert(cns_mid[j] == cns0[j]);
                                        assert(ss[j]@[cns0[j] as int].key() == fk as int);
                                        assert(fk as int >= sk as int);
                                    }
                                }
                            } else {
                                assert(cns_mid[j] < ss[j]@.len());
                                assert(ss[j]@[cns_mid[j] as int].key() == sk as int);
                                assert(ss[j]@[cns_mid[j] as int].key() < ss[j]@[cns[j] as int].key());
                            }
                        }
                        lemma_rem_sum_strict(ss, cns0, cns, 0, si as int);
                        lemma_rem_sum_nonneg(ss, cns, 0);
                    }
                },
            }
        }
        proof {
            assert forall|kk: int| #[trigger] has_key(em, kk) implies exists|j: int|
                0 <= j < k && has_key((#[trigger] ss[j])@, kk) by {
                let j = choose|j: int|
                    0 <= j < k && has_key((#[trigger] ss[j])@.take(cns[j] as int), kk);
                let v = lemma_has_key_witness(ss[j]@.take(cns[j] as int), kk);
                assert(ss[j]@[v].key() == kk);
                lemma_has_key_intro(ss[j]@, v);
            }
            assert forall|kk: int|
                (exists|j: int| 0 <= j < k && has_key((#[trigger] ss[j])@, kk)) implies #[trigger] has_key(
                em,
                kk,
            ) by {
                let j = choose|j: int| 0 <= j < k && has_key((#[trigger] ss[j])@, kk);
                let v = lemma_has_key_witness(ss[j]@, kk);
                assert(ss[j]@.take(cns[j] as int) =~= ss[j]@);
                assert(ss[j]@.take(cns[j] as int)[v].key() == kk);
                lemma_has_key_intro(ss[j]@.take(cns[j] as int), v);
            }
            assert(self.emits(em));
            lemma_sorted_implies_nondec(em);
            assert(output.contents() == init + em);
        }
    }
}

} // verus!
