//! The symmetric difference of any number of ordered sequences.

use vstd::prelude::*;

use crate::collection::Collection;
use crate::model::{
    has_key, lemma_contains_concat, lemma_has_key_intro, lemma_has_key_witness,
    lemma_sorted_append, lemma_sorted_implies_nondec, lemma_subrange_sorted,
    lemma_subrange_witness, nondec_keys, sorted_keys, Element,
};
use crate::multi::{lemma_rem_sum_mono, lemma_rem_sum_nonneg, lemma_rem_sum_strict, rem_sum};
use crate::set::SortedSet;
use crate::two_minimums::{two_minimums, Minimums};
use crate::{lower_bound_from, SetOperation};

verus! {

/// In how many of the inputs at or after position `j` the key `kk` appears.
pub open spec fn count_with_key<T: Element>(ss: Seq<&[T]>, kk: int, j: int) -> int
    decreases ss.len() - j,
{
    if j < 0 || j >= ss.len() {
        0
    } else {
        (if has_key(ss[j]@, kk) {
            1int
        } else {
            0int
        }) + count_with_key(ss, kk, j + 1)
    }
}

/// In how many of the inputs' consumed prefixes at or after position `j` the
/// key `kk` appears.
pub(crate) open spec fn count_in_prefixes<T: Element>(
    ss: Seq<&[T]>,
    cs: Seq<usize>,
    kk: int,
    j: int,
) -> int
    decreases ss.len() - j,
{
    if j < 0 || j >= ss.len() || ss.len() != cs.len() {
        0
    } else {
        (if has_key(ss[j]@.take(cs[j] as int), kk) {
            1int
        } else {
            0int
        }) + count_in_prefixes(ss, cs, kk, j + 1)
    }
}

/// Once every input is fully consumed, the prefix count is the full count.
proof fn lemma_count_full<T: Element>(ss: Seq<&[T]>, cs: Seq<usize>, kk: int, j: int)
    requires
        cs.len() == ss.len(),
        forall|jj: int| 0 <= jj < ss.len() ==> #[trigger] cs[jj] >= ss[jj]@.len(),
        forall|jj: int| 0 <= jj < ss.len() ==> #[trigger] cs[jj] <= ss[jj]@.len(),
    ensures
        count_in_prefixes(ss, cs, kk, j) == count_with_key(ss, kk, j),
    decreases ss.len() - j,
{
    if 0 <= j < ss.len() {
        assert(ss[j]@.take(cs[j] as int) =~= ss[j]@);
        lemma_count_full(ss, cs, kk, j + 1);
    }
}

/// Changing one input's cursor changes the prefix count by that input's
/// indicator difference.
proof fn lemma_count_update<T: Element>(
    ss: Seq<&[T]>,
    cs1: Seq<usize>,
    cs2: Seq<usize>,
    kk: int,
    at: int,
    j: int,
)
    requires
        cs1.len() == ss.len(),
        cs2.len() == ss.len(),
        0 <= at < ss.len(),
        0 <= j,
        forall|jj: int| j <= jj < ss.len() && jj != at ==> #[trigger] cs1[jj] == cs2[jj],
    ensures
        count_in_prefixes(ss, cs2, kk, j) == count_in_prefixes(ss, cs1, kk, j) + if j <= at {
            (if has_key(ss[at]@.take(cs2[at] as int), kk) {
                1int
            } else {
                0int
            }) - (if has_key(ss[at]@.take(cs1[at] as int), kk) {
                1int
            } else {
                0int
            })
        } else {
            0int
        },
    decreases ss.len() - j,
{
    if 0 <= j < ss.len() {
        lemma_count_update(ss, cs1, cs2, kk, at, j + 1);
    }
}

/// `r` is the symmetric difference of the inputs `ss`: its keys are exactly
/// the keys appearing in an odd number of inputs, in increasing order, and
/// every element is drawn from some input.
pub open spec fn multi_symmetric_difference_emitted<T: Element>(ss: Seq<&[T]>, r: Seq<T>) -> bool {
    &&& sorted_keys(r)
    &&& forall|x: T|
        #[trigger] r.contains(x) ==> exists|j: int|
            0 <= j < ss.len() && (#[trigger] ss[j])@.contains(x)
    &&& forall|kk: int| #[trigger] has_key(r, kk) <==> count_with_key(ss, kk, 0) % 2 == 1
}

/// The symmetric difference over any number of ordered sequences: emits, in
/// increasing key order, one element for every key that appears in an odd
/// number of inputs.
#[derive(Clone)]
pub struct SymmetricDifference<'a, T: Element> {
    /// The inputs.
    pub slices: Vec<&'a [T]>,
}

impl<'a, T: Element> SymmetricDifference<'a, T> {
    /// Captures any number of validated sequences.
    pub fn new(slices: Vec<SortedSet<'a, T>>) -> (r: Self)
        ensures
            r.slices@.len() == slices@.len(),
            forall|i: int| 0 <= i < slices@.len() ==> (#[trigger] r.slices@[i])@ == slices@[i]@,
    {
        let mut out: Vec<&'a [T]> = Vec::new();
        let len = slices.len();
        let mut i: usize = 0;
        while i < len
            invariant
                len == slices@.len(),
                0 <= i <= len,
                out@.len() == i,
                forall|j: int| 0 <= j < i ==> (#[trigger] out@[j])@ == slices@[j]@,
            decreases len - i,
        {
            out.push(slices[i].as_slice());
            i += 1;
        }
        SymmetricDifference { slices: out }
    }
}

impl<'a, T: Element> SetOperation<T> for SymmetricDifference<'a, T> {
    open spec fn wf(&self) -> bool {
        forall|j: int| 0 <= j < self.slices@.len() ==> sorted_keys((#[trigger] self.slices@[j])@)
    }

    open spec fn emits(&self, r: Seq<T>) -> bool {
        multi_symmetric_difference_emitted(self.slices@, r)
    }

    #[verifier::loop_isolation(false)]
    #[verifier::rlimit(100)]
    fn extend_collection<C: Collection<T>>(self, output: &mut C) {
        let mut rest = self.slices;
        let ghost ss = rest@;
        let k = rest.len();
        let ghost init = output.contents();
        let mut lens: Vec<usize> = Vec::new();
        let mut li: usize = 0;
        while li < k
            invariant
                0 <= li <= k,
                lens@.len() == li,
                forall|j: int| 0 <= j < li ==> #[trigger] lens@[j] == ss[j]@.len(),
            decreases k - li,
        {
            lens.push(rest[li].len());
            li += 1;
        }
        let ghost mut cns: Seq<usize> = Seq::new(k as nat, |i: int| 0usize);
        let ghost mut em: Seq<T> = Seq::empty();
        proof {
            assert forall|j: int| 0 <= j < k implies #[trigger] cns[j] <= ss[j]@.len() && rest@[j]@
                == ss[j]@.skip(cns[j] as int) by {
                assert(ss[j]@.skip(0) =~= ss[j]@);
            }
            assert(init + em =~= init);
            assert forall|kk: int| #[trigger] has_key(em, kk) <==> count_in_prefixes(
                ss,
                cns,
                kk,
                0,
            ) % 2 == 1 by {
                lemma_count_zero(ss, cns, kk, 0);
            }
        }
        let mut done = false;
        while !done
            invariant
                rest@.len() == k == ss.len(),
                cns.len() == k,
                forall|j: int|
                    0 <= j < k ==> #[trigger] cns[j] <= ss[j]@.len() && rest@[j]@ == ss[j]@.skip(
                        cns[j] as int,
                    ),
                output.inv(),
                output.contents() == init + em,
                sorted_keys(em),
                forall|x: T|
                    #[trigger] em.contains(x) ==> exists|j: int|
                        0 <= j < k && (#[trigger] ss[j])@.contains(x),
                forall|kk: int|
                    #[trigger] has_key(em, kk) <==> count_in_prefixes(ss, cns, kk, 0) % 2 == 1,
                forall|x: T, j: int| #![auto]
                    em.contains(x) && 0 <= j < k && cns[j] < ss[j]@.len() ==> x.key()
                        < ss[j]@[cns[j] as int].key(),
                forall|j: int, t: int, j2: int|
                    #![trigger ss[j]@[t], ss[j2]@[cns[j2] as int]]
                    0 <= j < k && 0 <= t < cns[j] && 0 <= j2 < k && cns[j2] < ss[j2]@.len()
                        ==> ss[j]@[t].key() < ss[j2]@[cns[j2] as int].key(),
                done ==> forall|j: int| 0 <= j < k ==> #[trigger] cns[j] >= ss[j]@.len(),
            decreases rem_sum(ss, cns, 0) + (if done {
                0int
            } else {
                1int
            }),
        {
            let ghost cns0 = cns;
            let ghost em0 = em;
            let ghost rest0 = rest@;
            proof {
                lemma_rem_sum_nonneg(ss, cns, 0);
            }
            match two_minimums(rest.as_slice()) {
                Minimums::Nothing => {
                    done = true;
                    proof {
                        assert forall|j: int| 0 <= j < k implies #[trigger] cns[j]
                            >= ss[j]@.len() by {
                            assert(rest0[j]@.len() == 0);
                        }
                    }
                },
                Minimums::One(f) => {
                    let fi = f.0;
                    let tail = rest[fi];
                    output.extend_from_slice(tail);
                    let cl = tail.len();
                    rest[fi] = &tail[cl..cl];
                    done = true;
                    proof {
                        let ci = cns0[fi as int] as int;
                        let run = tail@;
                        let li2 = ss[fi as int]@.len() as int;
                        assert(run == ss[fi as int]@.skip(ci));
                        assert(run =~= ss[fi as int]@.subrange(ci, li2));
                        lemma_subrange_sorted(ss[fi as int]@, ci, li2);
                        if em0.len() > 0 && run.len() > 0 {
                            assert(em0[em0.len() - 1] == em0.last());
                            assert(em0.contains(em0.last()));
                            assert(run[0] == ss[fi as int]@[ci]);
                        }
                        lemma_sorted_append(em0, run);
                        em = em0 + run;
                        cns = cns.update(fi as int, lens@[fi as int]);
                        assert(cns[fi as int] == ss[fi as int]@.len());
                        assert forall|j: int| 0 <= j < k implies #[trigger] cns[j] <= ss[j]@.len()
                            && rest@[j]@ == ss[j]@.skip(cns[j] as int) by {
                            if j == fi {
                                assert(rest@[j]@ =~= ss[j]@.skip(cns[j] as int));
                            }
                        }
                        assert forall|j: int| 0 <= j < k implies #[trigger] cns[j]
                            >= ss[j]@.len() by {
                            if j != fi {
                                assert(rest0[j]@.len() == 0);
                            }
                        }
                        assert forall|x: T| #[trigger] em.contains(x) implies exists|j: int|
                            0 <= j < k && (#[trigger] ss[j])@.contains(x) by {
                            lemma_contains_concat(em0, run, x);
                            if run.contains(x) {
                                let w = lemma_subrange_witness(ss[fi as int]@, ci, li2, x);
                                assert(ss[fi as int]@.contains(x));
                            }
                        }
                        assert forall|kk: int| #[trigger] has_key(em, kk) <==> count_in_prefixes(
                            ss,
                            cns,
                            kk,
                            0,
                        ) % 2 == 1 by {
                            lemma_count_update(ss, cns0, cns, kk, fi as int, 0);
                            if has_key(em, kk) {
                                let w = lemma_has_key_witness(em, kk);
                                if w < em0.len() {
                                    lemma_has_key_intro(em0, w);
                                    assert(has_key(em0, kk));
                                    assert(!has_key(run, kk)) by {
                                        if has_key(run, kk) {
                                            let v = lemma_has_key_witness(run, kk);
                                            let w2 = lemma_has_key_witness(em0, kk);
                                            assert(em0[w2].key() < ss[fi as int]@[ci].key());
                                            assert(ss[fi as int]@[ci].key() <= ss[fi as int]@[ci
                                                + v].key());
                                        }
                                    }
                                    assert(!has_key(ss[fi as int]@.take(cns[fi as int] as int), kk)
                                        || has_key(ss[fi as int]@.take(ci), kk)) by {
                                        if has_key(
                                            ss[fi as int]@.take(cns[fi as int] as int),
                                            kk,
                                        ) {
                                            let v = lemma_has_key_witness(
                                                ss[fi as int]@.take(cns[fi as int] as int),
                                                kk,
                                            );
                                            if v >= ci {
                                                assert(run[v - ci].key() == kk);
                                                lemma_has_key_intro(run, v - ci);
                                            } else {
                                                lemma_has_key_intro(ss[fi as int]@.take(ci), v);
                                            }
                                        }
                                    }
                                    assert(has_key(ss[fi as int]@.take(ci), kk) <==> has_key(
                                        ss[fi as int]@.take(cns[fi as int] as int),
                                        kk,
                                    )) by {
                                        if has_key(ss[fi as int]@.take(ci), kk) {
                                            let v = lemma_has_key_witness(
                                                ss[fi as int]@.take(ci),
                                                kk,
                                            );
                                            assert(ss[fi as int]@.take(cns[fi as int] as int)[v].key()
                                                == kk);
                                            lemma_has_key_intro(
                                                ss[fi as int]@.take(cns[fi as int] as int),
                                                v,
                                            );
                                        }
                                    }
                                } else {
                                    assert(em[w] == run[w - em0.len()]);
                                    assert(!has_key(em0, kk)) by {
                                        if has_key(em0, kk) {
                                            let w2 = lemma_has_key_witness(em0, kk);
                                            assert(em0[w2].key() < ss[fi as int]@[ci].key());
                                            assert(ss[fi as int]@[ci].key() <= run[w
                                                - em0.len()].key());
                                        }
                                    }
                                    assert(count_in_prefixes(ss, cns0, kk, 0) % 2 != 1);
                                    assert(!has_key(ss[fi as int]@.take(ci), kk)) by {
                                        if has_key(ss[fi as int]@.take(ci), kk) {
                                            let v = lemma_has_key_witness(
                                                ss[fi as int]@.take(ci),
                                                kk,
                                            );
                                            assert(ss[fi as int]@[v].key() < ss[fi as int]@[ci
                                                + (w - em0.len())].key());
                                        }
                                    }
                                    assert(count_in_prefixes(ss, cns0, kk, 0) == 0) by {
                                        lemma_count_nonneg_bound(ss, cns0, kk, 0);
                                        if count_in_prefixes(ss, cns0, kk, 0) > 0 {
                                            let j = lemma_count_witness(ss, cns0, kk, 0);
                                            let v = lemma_has_key_witness(
                                                ss[j]@.take(cns0[j] as int),
                                                kk,
                                            );
                                            assert(ss[j]@[v].key() < ss[fi as int]@[cns0[fi as int] as int].key());
                                            assert(ss[fi as int]@[ci].key() <= ss[fi as int]@[ci
                                                + (w - em0.len())].key());
                                        }
                                    }
                                    assert(ss[fi as int]@.take(cns[fi as int] as int)[ci + (w
                                        - em0.len())].key() == kk);
                                    lemma_has_key_intro(
                                        ss[fi as int]@.take(cns[fi as int] as int),
                                        ci + (w - em0.len()),
                                    );
                                }
                            } else {
                                assert(!has_key(em0, kk)) by {
                                    if has_key(em0, kk) {
                                        let w = lemma_has_key_witness(em0, kk);
                                        assert(em[w].key() == kk);
                                        lemma_has_key_intro(em, w);
                                    }
                                }
                                assert(!has_key(run, kk)) by {
                                    if has_key(run, kk) {
                                        let v = lemma_has_key_witness(run, kk);
                                        assert(em[em0.len() + v].key() == kk);
                                        lemma_has_key_intro(em, em0.len() + v);
                                    }
                                }
                                assert(has_key(ss[fi as int]@.take(cns[fi as int] as int), kk)
                                    <==> has_key(ss[fi as int]@.take(ci), kk)) by {
                                    if has_key(ss[fi as int]@.take(cns[fi as int] as int), kk) {
                                        let v = lemma_has_key_witness(
                                            ss[fi as int]@.take(cns[fi as int] as int),
                                            kk,
                                        );
                                        if v >= ci {
                                            assert(run[v - ci].key() == kk);
                                            lemma_has_key_intro(run, v - ci);
                                        } else {
                                            lemma_has_key_intro(ss[fi as int]@.take(ci), v);
                                        }
                                    }
                                    if has_key(ss[fi as int]@.take(ci), kk) {
                                        let v = lemma_has_key_witness(ss[fi as int]@.take(ci), kk);
                                        assert(ss[fi as int]@.take(cns[fi as int] as int)[v].key()
                                            == kk);
                                        lemma_has_key_intro(
                                            ss[fi as int]@.take(cns[fi as int] as int),
                                            v,
                                        );
                                    }
                                }
                            }
                        }
                        lemma_rem_sum_mono(ss, cns0, cns, 0);
                        lemma_rem_sum_nonneg(ss, cns, 0);
                    }
                },
                Minimums::Two(f, s) => {
                    let fi = f.0;
                    let si = s.0;
                    let fk = f.1.keyv();
                    let sk = s.1.keyv();
                    proof {
                        assert(rest0[fi as int]@[0] == ss[fi as int]@[cns0[fi as int] as int]);
                        assert(rest0[si as int]@[0] == ss[si as int]@[cns0[si as int] as int]);
                        assert(cns0[fi as int] < ss[fi as int]@.len());
                        assert(cns0[si as int] < ss[si as int]@.len());
                        assert(f.1 == ss[fi as int]@[cns0[fi as int] as int]);
                        assert(s.1 == ss[si as int]@[cns0[si as int] as int]);
                        assert forall|j: int| 0 <= j < k && cns0[j] < ss[j]@.len() implies (
                        #[trigger] ss[j]@[cns0[j] as int]).key() >= f.1.key() by {
                            assert(rest0[j]@.len() > 0);
                            assert(rest0[j]@[0] == ss[j]@[cns0[j] as int]);
                        }
                        assert forall|j: int|
                            0 <= j < k && j != fi && cns0[j] < ss[j]@.len() implies (
                        #[trigger] ss[j]@[cns0[j] as int]).key() >= s.1.key() by {
                            assert(rest0[j]@.len() > 0);
                            assert(rest0[j]@[0] == ss[j]@[cns0[j] as int]);
                        }
                    }
                    if fk < sk {
                        let cur = rest[fi];
                        proof {
                            lemma_subrange_sorted(
                                ss[fi as int]@,
                                cns0[fi as int] as int,
                                ss[fi as int]@.len() as int,
                            );
                            lemma_sorted_implies_nondec(cur@);
                        }
                        let off = lower_bound_from(cur, 0, sk);
                        output.extend_from_slice(&cur[0..off]);
                        let cl = cur.len();
                        rest[fi] = &cur[off..cl];
                        proof {
                            let ci = cns0[fi as int] as int;
                            let run = cur@.subrange(0, off as int);
                            assert(run =~= ss[fi as int]@.subrange(ci, ci + off));
                            lemma_subrange_sorted(ss[fi as int]@, ci, ci + off);
                            if em0.len() > 0 && run.len() > 0 {
                                assert(em0[em0.len() - 1] == em0.last());
                                assert(em0.contains(em0.last()));
                                assert(run[0] == ss[fi as int]@[ci]);
                            }
                            lemma_sorted_append(em0, run);
                            em = em0 + run;
                            assert(ci + off <= lens@[fi as int]);
                            cns = cns.update(fi as int, (ci + off) as usize);
                            assert(off > 0) by {
                                assert(cur@[0].key() < sk as int);
                            }
                            assert forall|j: int|
                                0 <= j < k implies #[trigger] cns[j] <= ss[j]@.len() && rest@[j]@
                                == ss[j]@.skip(cns[j] as int) by {
                                if j == fi {
                                    assert(rest@[j]@ =~= ss[j]@.skip(cns[j] as int));
                                }
                            }
                            assert forall|t: int|
                                cns[fi as int] <= t < ss[fi as int]@.len() implies (
                            #[trigger] ss[fi as int]@[t]).key() >= sk as int by {
                                assert(ss[fi as int]@[t] == cur@[t - ci]);
                            }
                            assert forall|x: T| #[trigger] em.contains(x) implies exists|j: int|
                                0 <= j < k && (#[trigger] ss[j])@.contains(x) by {
                                lemma_contains_concat(em0, run, x);
                                if run.contains(x) {
                                    let w = lemma_subrange_witness(ss[fi as int]@, ci, ci + off, x);
                                    assert(ss[fi as int]@.contains(x));
                                }
                            }
                            assert forall|kk: int| #[trigger] has_key(em, kk)
                                <==> count_in_prefixes(ss, cns, kk, 0) % 2 == 1 by {
                                lemma_count_update(ss, cns0, cns, kk, fi as int, 0);
                                if has_key(em, kk) {
                                    let w = lemma_has_key_witness(em, kk);
                                    if w < em0.len() {
                                        lemma_has_key_intro(em0, w);
                                        assert(!has_key(run, kk)) by {
                                            if has_key(run, kk) {
                                                let v = lemma_has_key_witness(run, kk);
                                                assert(em0[w].key() < ss[fi as int]@[ci].key());
                                                assert(ss[fi as int]@[ci].key() <= ss[fi as int]@[ci
                                                    + v].key());
                                            }
                                        }
                                        assert(has_key(
                                            ss[fi as int]@.take(cns[fi as int] as int),
                                            kk,
                                        ) <==> has_key(ss[fi as int]@.take(ci), kk)) by {
                                            if has_key(
                                                ss[fi as int]@.take(cns[fi as int] as int),
                                                kk,
                                            ) {
                                                let v = lemma_has_key_witness(
                                                    ss[fi as int]@.take(cns[fi as int] as int),
                                                    kk,
                                                );
                                                if v >= ci {
                                                    assert(run[v - ci].key() == kk);
                                                    lemma_has_key_intro(run, v - ci);
                                                } else {
                                                    lemma_has_key_intro(
                                                        ss[fi as int]@.take(ci),
                                                        v,
                                                    );
                                                }
                                            }
                                            if has_key(ss[fi as int]@.take(ci), kk) {
                                                let v = lemma_has_key_witness(
                                                    ss[fi as int]@.take(ci),
                                                    kk,
                                                );
                                                assert(ss[fi as int]@.take(
                                                    cns[fi as int] as int,
                                                )[v].key() == kk);
                                                lemma_has_key_intro(
                                                    ss[fi as int]@.take(cns[fi as int] as int),
                                                    v,
                                                );
                                            }
                                        }
                                    } else {
                                        assert(em[w] == run[w - em0.len()]);
                                        assert(run[w - em0.len()].key() == kk);
                                        assert(count_in_prefixes(ss, cns0, kk, 0) == 0) by {
                                            lemma_count_nonneg_bound(ss, cns0, kk, 0);
                                            if count_in_prefixes(ss, cns0, kk, 0) > 0 {
                                                let j = lemma_count_witness(ss, cns0, kk, 0);
                                                let v = lemma_has_key_witness(
                                                    ss[j]@.take(cns0[j] as int),
                                                    kk,
                                                );
                                                assert(ss[j]@[v].key() < ss[fi as int]@[cns0[fi as int] as int].key());
                                                assert(ss[fi as int]@[ci].key()
                                                    <= ss[fi as int]@[ci + (w - em0.len())].key());
                                            }
                                        }
                                        assert(ss[fi as int]@.take(cns[fi as int] as int)[ci + (w
                                            - em0.len())].key() == kk);
                                        lemma_has_key_intro(
                                            ss[fi as int]@.take(cns[fi as int] as int),
                                            ci + (w - em0.len()),
                                        );
                                    }
                                } else {
                                    assert(!has_key(em0, kk)) by {
                                        if has_key(em0, kk) {
                                            let w = lemma_has_key_witness(em0, kk);
                                            assert(em[w].key() == kk);
                                            lemma_has_key_intro(em, w);
                                        }
                                    }
                                    assert(!has_key(run, kk)) by {
                                        if has_key(run, kk) {
                                            let v = lemma_has_key_witness(run, kk);
                                            assert(em[em0.len() + v].key() == kk);
                                            lemma_has_key_intro(em, em0.len() + v);
                                        }
                                    }
                                    assert(has_key(ss[fi as int]@.take(cns[fi as int] as int), kk)
                                        <==> has_key(ss[fi as int]@.take(ci), kk)) by {
                                        if has_key(
                                            ss[fi as int]@.take(cns[fi as int] as int),
                                            kk,
                                        ) {
                                            let v = lemma_has_key_witness(
                                                ss[fi as int]@.take(cns[fi as int] as int),
                                                kk,
                                            );
                                            if v >= ci {
                                                assert(run[v - ci].key() == kk);
                                                lemma_has_key_intro(run, v - ci);
                                            } else {
                                                lemma_has_key_intro(ss[fi as int]@.take(ci), v);
                                            }
                                        }
                                        if has_key(ss[fi as int]@.take(ci), kk) {
                                            let v = lemma_has_key_witness(
                                                ss[fi as int]@.take(ci),
                                                kk,
                                            );
                                            assert(ss[fi as int]@.take(cns[fi as int] as int)[v].key()
                                                == kk);
                                            lemma_has_key_intro(
                                                ss[fi as int]@.take(cns[fi as int] as int),
                                                v,
                                            );
                                        }
                                    }
                                }
                            }
                            assert forall|x: T, j: int| #![auto]
                                em.contains(x) && 0 <= j < k && cns[j] < ss[j]@.len() implies x.key()
                                < ss[j]@[cns[j] as int].key() by {
                                lemma_contains_concat(em0, run, x);
                                if run.contains(x) {
                                    let w = lemma_subrange_witness(ss[fi as int]@, ci, ci + off, x);
                                    assert(x.key() < sk as int);
                                    if j == fi {
                                        assert(ss[j]@[cns[j] as int].key() >= sk as int);
                                    } else {
                                        assert(cns[j] == cns0[j]);
                                        assert(ss[j]@[cns0[j] as int].key() >= s.1.key());
                                    }
                                } else {
                                    if j == fi {
                                        assert(x.key() < ss[j]@[cns0[j] as int].key());
                                        assert(ss[j]@[cns0[j] as int].key() <= ss[j]@[cns[j] as int].key());
                                    }
                                }
                            }
                            assert forall|j: int, t: int, j2: int|
                                #![trigger ss[j]@[t], ss[j2]@[cns[j2] as int]]
                                0 <= j < k && 0 <= t < cns[j] && 0 <= j2 < k && cns[j2]
                                < ss[j2]@.len() implies ss[j]@[t].key() < ss[j2]@[cns[j2] as int].key() by {
                                let newhead = ss[j2]@[cns[j2] as int].key();
                                assert(newhead >= ss[j2]@[cns0[j2] as int].key());
                                if j == fi && t >= ci {
                                    assert(ss[j]@[t] == run[t - ci]);
                                    assert(ss[j]@[t].key() < sk as int);
                                    if j2 == fi {
                                        assert(newhead >= sk as int);
                                    } else {
                                        assert(newhead >= s.1.key());
                                    }
                                } else {
                                    assert(ss[j]@[t].key() < ss[j2]@[cns0[j2] as int].key());
                                }
                            }
                            lemma_rem_sum_strict(ss, cns0, cns, 0, fi as int);
                            lemma_rem_sum_nonneg(ss, cns, 0);
                        }
                    } else {
                        let mut dcount: usize = 0;
                        let ghost cns_mid = cns;
                        let mut j2: usize = 0;
                        while j2 < k
                            invariant
                                0 <= j2 <= k,
                                rest@.len() == k,
                                cns.len() == k,
                                forall|j: int|
                                    0 <= j < k ==> #[trigger] cns[j] <= ss[j]@.len() && rest@[j]@
                                        == ss[j]@.skip(cns[j] as int),
                                forall|j: int| j2 <= j < k ==> #[trigger] cns[j] == cns_mid[j],
                                forall|j: int|
                                    0 <= j < j2 ==> (#[trigger] cns[j] == cns_mid[j] && (cns_mid[j]
                                        >= ss[j]@.len() || ss[j]@[cns_mid[j] as int].key()
                                        != sk as int)) || (cns[j] == cns_mid[j] + 1 && cns_mid[j]
                                        < ss[j]@.len() && ss[j]@[cns_mid[j] as int].key()
                                        == sk as int),
                                dcount <= j2,
                                forall|kk: int|
                                    #[trigger] count_in_prefixes(ss, cns, kk, 0)
                                        == count_in_prefixes(ss, cns_mid, kk, 0) + (if kk
                                        == sk as int {
                                        dcount as int
                                    } else {
                                        0int
                                    }),
                            decreases k - j2,
                        {
                            let cur2 = rest[j2];
                            if !cur2.is_empty() && cur2[0].keyv() == sk {
                                let cl2 = cur2.len();
                                rest[j2] = &cur2[1..cl2];
                                dcount = dcount + 1;
                                proof {
                                    let ghost cns_pre = cns;
                                    let cj = cns[j2 as int] as int;
                                    assert(cur2@[0] == ss[j2 as int]@[cj]);
                                    assert(cj + 1 <= lens@[j2 as int]);
                                    cns = cns.update(j2 as int, (cj + 1) as usize);
                                    assert forall|j: int|
                                        0 <= j < k implies #[trigger] cns[j] <= ss[j]@.len()
                                        && rest@[j]@ == ss[j]@.skip(cns[j] as int) by {
                                        if j == j2 {
                                            assert(rest@[j]@ =~= ss[j]@.skip(cns[j] as int));
                                        }
                                    }
                                    assert forall|kk: int|
                                        #[trigger] count_in_prefixes(ss, cns, kk, 0)
                                        == count_in_prefixes(ss, cns_mid, kk, 0) + (if kk
                                        == sk as int {
                                        dcount as int
                                    } else {
                                        0int
                                    }) by {
                                        lemma_count_update(ss, cns_pre, cns, kk, j2 as int, 0);
                                        crate::model::lemma_has_key_take_step(
                                            ss[j2 as int]@,
                                            cj,
                                            kk,
                                        );
                                        if kk == sk as int {
                                            assert(!has_key(ss[j2 as int]@.take(cj), kk)) by {
                                                if has_key(ss[j2 as int]@.take(cj), kk) {
                                                    let v = lemma_has_key_witness(
                                                        ss[j2 as int]@.take(cj),
                                                        kk,
                                                    );
                                                    assert(ss[j2 as int]@[v].key() < ss[j2 as int]@[cj].key());
                                                }
                                            }
                                            assert(has_key(
                                                ss[j2 as int]@.take(cj + 1),
                                                kk,
                                            )) by {
                                                assert(ss[j2 as int]@.take(cj + 1)[cj].key() == kk);
                                                lemma_has_key_intro(
                                                    ss[j2 as int]@.take(cj + 1),
                                                    cj,
                                                );
                                            }
                                        }
                                    }
                                }
                            } else {
                                proof {
                                    if cns[j2 as int] < ss[j2 as int]@.len() {
                                        assert(rest@[j2 as int]@[0] == ss[j2 as int]@[cns[j2 as int] as int]);
                                    }
                                }
                            }
                            j2 += 1;
                        }
                        if dcount % 2 != 0 {
                            output.push(f.1);
                            proof {
                                let em1 = em;
                                assert forall|t: int| 0 <= t < em1.len() implies (
                                #[trigger] em1[t]).key() < fk as int by {
                                    assert(em1.contains(em1[t]));
                                    assert(em1[t].key() < ss[fi as int]@[cns0[fi as int] as int].key());
                                }
                                em = em1.push(f.1);
                                assert forall|p: int, q: int|
                                    0 <= p < q < em.len() implies em[p].key() < em[q].key() by {
                                    if q < em.len() - 1 {
                                        assert(em[p] == em1[p] && em[q] == em1[q]);
                                    } else {
                                        assert(em[q] == f.1);
                                        assert(em[p] == em1[p]);
                                    }
                                }
                                assert(sorted_keys(em));
                                assert(output.contents() == init + em) by {
                                    assert((init + em1).push(f.1) =~= init + em);
                                }
                            }
                        }
                        proof {
                            assert(cns_mid == cns0);
                            assert(cns[si as int] == cns0[si as int] + 1);
                            assert(count_in_prefixes(ss, cns0, sk as int, 0) == 0) by {
                                lemma_count_nonneg_bound(ss, cns0, sk as int, 0);
                                if count_in_prefixes(ss, cns0, sk as int, 0) > 0 {
                                    let j = lemma_count_witness(ss, cns0, sk as int, 0);
                                    let v = lemma_has_key_witness(ss[j]@.take(cns0[j] as int), sk as int);
                                    assert(ss[j]@[v].key() < ss[si as int]@[cns0[si as int] as int].key());
                                }
                            }
                            assert(dcount >= 1) by {
                                assert(ss[si as int]@.take(cns[si as int] as int)[cns0[si as int] as int].key()
                                    == sk as int);
                                lemma_has_key_intro(
                                    ss[si as int]@.take(cns[si as int] as int),
                                    cns0[si as int] as int,
                                );
                                lemma_count_at_least(ss, cns, sk as int, 0, si as int);
                            }
                            assert forall|x: T| #[trigger] em.contains(x) implies exists|j: int|
                                0 <= j < k && (#[trigger] ss[j])@.contains(x) by {
                                let w = choose|w: int| 0 <= w < em.len() && em[w] == x;
                                if w < em0.len() {
                                    assert(em0[w] == x);
                                    assert(em0.contains(x));
                                } else {
                                    assert(em[w] == f.1);
                                    assert(ss[fi as int]@[cns0[fi as int] as int] == x);
                                    assert(ss[fi as int]@.contains(x));
                                }
                            }
                            assert forall|kk: int| #[trigger] has_key(em, kk)
                                <==> count_in_prefixes(ss, cns, kk, 0) % 2 == 1 by {
                                if kk == sk as int {
                                    assert(count_in_prefixes(ss, cns0, kk, 0) == 0) by {
                                        lemma_count_nonneg_bound(ss, cns0, kk, 0);
                                        if count_in_prefixes(ss, cns0, kk, 0) > 0 {
                                            let j = lemma_count_witness(ss, cns0, kk, 0);
                                            let v = lemma_has_key_witness(
                                                ss[j]@.take(cns0[j] as int),
                                                kk,
                                            );
                                            assert(ss[j]@[v].key() < ss[fi as int]@[cns0[fi as int] as int].key());
                                        }
                                    }
                                    assert(count_in_prefixes(ss, cns, kk, 0) == dcount as int);
                                    assert(!has_key(em0, kk)) by {
                                        if has_key(em0, kk) {
                                            let w = lemma_has_key_witness(em0, kk);
                                            assert(em0[w].key() < ss[fi as int]@[cns0[fi as int] as int].key());
                                        }
                                    }
                                    if dcount % 2 != 0 {
                                        assert(em[em.len() - 1].key() == kk);
                                        lemma_has_key_intro(em, em.len() - 1);
                                    } else {
                                        assert(!has_key(em, kk)) by {
                                            if has_key(em, kk) {
                                                let w = lemma_has_key_witness(em, kk);
                                                lemma_has_key_intro(em0, w);
                                            }
                                        }
                                    }
                                } else {
                                    assert(count_in_prefixes(ss, cns, kk, 0) == count_in_prefixes(
                                        ss,
                                        cns0,
                                        kk,
                                        0,
                                    ));
                                    assert(has_key(em, kk) <==> has_key(em0, kk)) by {
                                        if has_key(em, kk) {
                                            let w = lemma_has_key_witness(em, kk);
                                            if w < em0.len() {
                                                lemma_has_key_intro(em0, w);
                                            } else {
                                                assert(em[w] == f.1);
                                            }
                                        }
                                        if has_key(em0, kk) {
                                            let w = lemma_has_key_witness(em0, kk);
                                            assert(em[w].key() == kk);
                                            lemma_has_key_intro(em, w);
                                        }
                                    }
                                }
                            }
                            assert forall|x: T, j: int| #![auto]
                                em.contains(x) && 0 <= j < k && cns[j] < ss[j]@.len() implies x.key()
                                < ss[j]@[cns[j] as int].key() by {
                                assert(x.key() <= fk as int) by {
                                    let w = choose|w: int| 0 <= w < em.len() && em[w] == x;
                                    if w < em0.len() {
                                        assert(em0[w] == x);
                                        assert(em0.contains(x));
                                        assert(x.key() < ss[fi as int]@[cns0[fi as int] as int].key());
                                    } else {
                                        assert(em[w] == f.1);
                                    }
                                }
                                if cns[j] == cns0[j] {
                                    assert(ss[j]@[cns0[j] as int].key() != sk as int);
                                    if j != fi {
                                        assert(ss[j]@[cns0[j] as int].key() >= s.1.key());
                                    } else {
                                        assert(ss[j]@[cns0[j] as int].key() == fk as int);
                                        assert(false);
                                    }
                                } else {
                                    assert(cns0[j] < ss[j]@.len());
                                    assert(ss[j]@[cns0[j] as int].key() == sk as int);
                                    assert(ss[j]@[cns0[j] as int].key() < ss[j]@[cns[j] as int].key());
                                }
                            }
                            assert forall|j: int, t: int, j2: int|
                                #![trigger ss[j]@[t], ss[j2]@[cns[j2] as int]]
                                0 <= j < k && 0 <= t < cns[j] && 0 <= j2 < k && cns[j2]
                                < ss[j2]@.len() implies ss[j]@[t].key() < ss[j2]@[cns[j2] as int].key() by {
                                let newhead = ss[j2]@[cns[j2] as int].key();
                                assert(newhead > sk as int) by {
                                    if cns[j2] == cns0[j2] {
                                        assert(ss[j2]@[cns0[j2] as int].key() != sk as int);
                                        if j2 != fi {
                                            assert(ss[j2]@[cns0[j2] as int].key() >= s.1.key());
                                        } else {
                                            assert(false);
                                        }
                                    } else {
                                        assert(ss[j2]@[cns0[j2] as int].key() == sk as int);
                                        assert(ss[j2]@[cns0[j2] as int].key() < newhead);
                                    }
                                }
                                if t < cns0[j] {
                                    assert(ss[j]@[t].key() < ss[si as int]@[cns0[si as int] as int].key());
                                } else {
                                    assert(t == cns0[j] && cns[j] == cns0[j] + 1);
                                    assert(ss[j]@[t].key() == sk as int);
                                }
                            }
                            lemma_rem_sum_strict(ss, cns0, cns, 0, si as int);
                            lemma_rem_sum_nonneg(ss, cns, 0);
                        }
                    }
                },
            }
        }
        proof {
            assert forall|kk: int| #[trigger] has_key(em, kk) <==> count_with_key(ss, kk, 0) % 2
                == 1 by {
                lemma_count_full(ss, cns, kk, 0);
            }
            assert(self.emits(em));
            lemma_sorted_implies_nondec(em);
            assert(output.contents() == init + em);
        }
    }
}

/// A consumed prefix holding the key makes the count positive.
proof fn lemma_count_at_least<T: Element>(ss: Seq<&[T]>, cs: Seq<usize>, kk: int, j: int, at: int)
    requires
        cs.len() == ss.len(),
        0 <= j <= at < ss.len(),
        has_key(ss[at]@.take(cs[at] as int), kk),
    ensures
        count_in_prefixes(ss, cs, kk, j) >= 1,
    decreases ss.len() - j,
{
    lemma_count_nonneg_bound(ss, cs, kk, j + 1);
    if j < at {
        lemma_count_at_least(ss, cs, kk, j + 1, at);
        lemma_count_nonneg_bound(ss, cs, kk, j + 1);
    }
}

/// A prefix count is at least zero.
proof fn lemma_count_nonneg_bound<T: Element>(ss: Seq<&[T]>, cs: Seq<usize>, kk: int, j: int)
    ensures
        count_in_prefixes(ss, cs, kk, j) >= 0,
    decreases ss.len() - j,
{
    if 0 <= j < ss.len() {
        lemma_count_nonneg_bound(ss, cs, kk, j + 1);
    }
}

/// A positive prefix count names an input whose consumed prefix has the key.
proof fn lemma_count_witness<T: Element>(ss: Seq<&[T]>, cs: Seq<usize>, kk: int, j: int) -> (w: int)
    requires
        cs.len() == ss.len(),
        count_in_prefixes(ss, cs, kk, j) > 0,
        0 <= j,
    ensures
        j <= w < ss.len(),
        has_key(ss[w]@.take(cs[w] as int), kk),
    decreases ss.len() - j,
{
    if j >= ss.len() {
        j
    } else if has_key(ss[j]@.take(cs[j] as int), kk) {
        j
    } else {
        lemma_count_witness(ss, cs, kk, j + 1)
    }
}

/// An empty set of cursors counts nothing.
proof fn lemma_count_zero<T: Element>(ss: Seq<&[T]>, cs: Seq<usize>, kk: int, j: int)
    requires
        forall|jj: int| 0 <= jj < ss.len() ==> #[trigger] cs[jj] == 0,
    ensures
        count_in_prefixes(ss, cs, kk, j) == 0,
    decreases ss.len() - j,
{
    if 0 <= j < ss.len() {
        lemma_count_zero(ss, cs, kk, j + 1);
    }
}

} // verus!
