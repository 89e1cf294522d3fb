//! The difference of any number of ordered sequences.

use vstd::prelude::*;

use crate::collection::Collection;
use crate::model::{
    has_key, lemma_filter_all_true, lemma_filter_sorted, lemma_filter_take_step,
    lemma_has_key_intro, lemma_has_key_witness, lemma_sorted_implies_nondec, nondec_keys,
    sorted_keys, Element,
};
use crate::set::SortedSet;
use crate::{lower_bound_from, SetOperation};

verus! {

/// The key `k` appears in one of the inputs other than the base.
pub open spec fn key_in_others<T: Element>(ss: Seq<&[T]>, k: int) -> bool {
    exists|j: int| 1 <= j < ss.len() && has_key(ss[j]@, k)
}

/// The predicate satisfied by base elements whose key appears in no other
/// input.
pub open spec fn key_not_in_others<T: Element>(ss: Seq<&[T]>) -> spec_fn(T) -> bool {
    |x: T| !key_in_others(ss, x.key())
}

/// `r` is the difference of the inputs `ss`: the elements of the first input
/// whose key appears in none of the others, in order.
pub open spec fn multi_difference_emitted<T: Element>(ss: Seq<&[T]>, r: Seq<T>) -> bool {
    if ss.len() == 0 {
        r == Seq::<T>::empty()
    } else {
        r == ss[0]@.filter(key_not_in_others(ss))
    }
}

/// The difference over any number of ordered sequences: emits every element
/// of the first input whose key appears in none of the others.
#[derive(Clone)]
pub struct Difference<'a, T: Element> {
    /// The inputs; the first is the base, the rest are subtracted from it.
    pub slices: Vec<&'a [T]>,
}

impl<'a, T: Element> Difference<'a, T> {
    /// Captures any number of validated sequences.
    pub fn new(slices: Vec<SortedSet<'a, T>>) -> (r: Self)
        ensures
            r.slices@.len() == slices@.len(),
            forall|i: int| 0 <= i < slices@.len() ==> (#[trigger] r.slices@[i])@ == slices@[i]@,
    {
        let mut out: Vec<&'a [T]> = Vec::new();
        let len = slices.len();
        let mut i: usize = 0;
        while i < len
            invariant
                len == slices@.len(),
                0 <= i <= len,
                out@.len() == i,
                forall|j: int| 0 <= j < i ==> (#[trigger] out@[j])@ == slices@[j]@,
            decreases len - i,
        {
            out.push(slices[i].as_slice());
            i += 1;
        }
        Difference { slices: out }
    }
}

impl<'a, T: Element> SetOperation<T> for Difference<'a, T> {
    open spec fn wf(&self) -> bool {
        forall|j: int| 0 <= j < self.slices@.len() ==> sorted_keys((#[trigger] self.slices@[j])@)
    }

    open spec fn emits(&self, r: Seq<T>) -> bool {
        multi_difference_emitted(self.slices@, r)
    }

    #[verifier::loop_isolation(false)]
    #[verifier::rlimit(60)]
    fn extend_collection<C: Collection<T>>(self, output: &mut C) {
        let slices = self.slices;
        let ghost ss = slices@;
        let k = slices.len();
        let ghost init = output.contents();
        if k == 0 {
            proof {
                assert(output.contents() == init + Seq::<T>::empty()) by {
                    assert(init + Seq::<T>::empty() =~= init);
                }
                assert(self.emits(Seq::<T>::empty()));
            }
            return ;
        }
        let base = slices[0];
        let n = base.len();
        let ghost pred = key_not_in_others::<T>(ss);
        proof {
            assert(sorted_keys(base@));
            lemma_sorted_implies_nondec(base@);
            assert forall|j: int| 1 <= j < k implies nondec_keys((#[trigger] ss[j])@) by {
                lemma_sorted_implies_nondec(ss[j]@);
            }
        }
        let mut cs: Vec<usize> = vec![0; k];
        let mut ai: usize = 0;
        while ai < n
            invariant
                0 <= ai <= n,
                cs@.len() == k,
                forall|j: int| 1 <= j < k ==> 0 <= #[trigger] cs@[j] <= ss[j]@.len(),
                output.inv(),
                output.contents() == init + base@.take(ai as int).filter(pred),
                forall|j: int, t: int|
                    1 <= j < k && 0 <= t < cs@[j] && ai < n ==> (#[trigger] ss[j]@[t]).key()
                        < base@[ai as int].key(),
            decreases n - ai,
        {
            let ka = base[ai].keyv();
            let mut have = false;
            let mut min_key: i64 = 0;
            let ghost mut min_at: int = 0;
            let mut j: usize = 1;
            while j < k
                invariant
                    1 <= j <= k,
                    cs@.len() == k,
                    forall|jj: int| 1 <= jj < k ==> 0 <= #[trigger] cs@[jj] <= ss[jj]@.len(),
                    forall|jj: int, t: int|
                        1 <= jj < k && 0 <= t < cs@[jj] ==> (#[trigger] ss[jj]@[t]).key()
                            < ka as int,
                    forall|jj: int|
                        1 <= jj < j && #[trigger] cs@[jj] < ss[jj]@.len() ==> ss[jj]@[cs@[jj] as int].key()
                            >= ka as int,
                    !have ==> forall|jj: int| 1 <= jj < j ==> #[trigger] cs@[jj] >= ss[jj]@.len(),
                    have ==> 1 <= min_at < j && cs@[min_at] < ss[min_at]@.len()
                        && ss[min_at]@[cs@[min_at] as int].key() == min_key as int,
                    have ==> forall|jj: int|
                        1 <= jj < j && #[trigger] cs@[jj] < ss[jj]@.len() ==> ss[jj]@[cs@[jj] as int].key()
                            >= min_key as int,
                decreases k - j,
            {
                let c = cs[j];
                let c2 = lower_bound_from(slices[j], c, ka);
                cs[j] = c2;
                if c2 < slices[j].len() {
                    let h = slices[j][c2].keyv();
                    if !have || h < min_key {
                        min_key = h;
                        have = true;
                        proof {
                            min_at = j as int;
                        }
                    }
                }
                j += 1;
            }
            if !have {
                output.extend_from_slice(&base[ai..n]);
                proof {
                    let run = base@.subrange(ai as int, n as int);
                    assert forall|t: int| 0 <= t < run.len() implies pred(#[trigger] run[t]) by {
                        assert(run[t] == base@[ai + t]);
                        assert(base@[ai as int].key() <= run[t].key());
                        if key_in_others(ss, run[t].key()) {
                            let jj = choose|jj: int| 1 <= jj < ss.len() && has_key(
                                ss[jj]@,
                                run[t].key(),
                            );
                            let w = lemma_has_key_witness(ss[jj]@, run[t].key());
                            assert(cs@[jj] == ss[jj]@.len());
                            assert(ss[jj]@[w].key() < ka as int);
                        }
                    }
                    lemma_filter_all_true(run, pred);
                    assert(base@.take(n as int) =~= base@.take(ai as int) + run);
                    Seq::filter_distributes_over_add(base@.take(ai as int), run, pred);
                }
                ai = n;
            } else if min_key == ka {
                proof {
                    lemma_has_key_intro(ss[min_at]@, cs@[min_at] as int);
                    assert(has_key(ss[min_at]@, ka as int));
                    assert(key_in_others(ss, base@[ai as int].key()));
                    assert(!pred(base@[ai as int]));
                    lemma_filter_take_step(base@, ai as int, pred);
                }
                ai = ai + 1;
            } else {
                proof {
                    assert(min_key as int > ka as int);
                }
                let off = lower_bound_from(base, ai, min_key);
                output.extend_from_slice(&base[ai..off]);
                proof {
                    let run = base@.subrange(ai as int, off as int);
                    assert forall|t: int| 0 <= t < run.len() implies pred(#[trigger] run[t]) by {
                        assert(run[t] == base@[ai + t]);
                        assert(base@[ai as int].key() <= run[t].key());
                        assert(run[t].key() < min_key as int);
                        if key_in_others(ss, run[t].key()) {
                            let jj = choose|jj: int| 1 <= jj < ss.len() && has_key(
                                ss[jj]@,
                                run[t].key(),
                            );
                            let w = lemma_has_key_witness(ss[jj]@, run[t].key());
                            if w < cs@[jj] {
                                assert(ss[jj]@[w].key() < ka as int);
                            } else {
                                assert(cs@[jj] < ss[jj]@.len());
                                assert(ss[jj]@[cs@[jj] as int].key() >= min_key as int);
                                assert(ss[jj]@[w].key() >= ss[jj]@[cs@[jj] as int].key());
                            }
                        }
                    }
                    lemma_filter_all_true(run, pred);
                    assert(base@.take(off as int) =~= base@.take(ai as int) + run);
                    Seq::filter_distributes_over_add(base@.take(ai as int), run, pred);
                }
                ai = off;
            }
        }
        proof {
            assert(base@.take(n as int) =~= base@);
            lemma_filter_sorted(base@, pred);
            assert(output.contents() == init + base@.filter(pred));
            assert(self.emits(base@.filter(pred)));
            lemma_sorted_implies_nondec(base@.filter(pred));
        }
    }
}

} // verus!
