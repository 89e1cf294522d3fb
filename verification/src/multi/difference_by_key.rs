//! The difference of a base relation against any number of ordered key
//! sequences, joined by their keys.

use vstd::prelude::*;

use crate::collection::Collection;
use crate::model::{
    has_key, lemma_filter_all_true, lemma_filter_nondec, lemma_filter_take_step,
    lemma_has_key_intro, lemma_has_key_witness, lemma_sorted_implies_nondec, nondec_keys,
    sorted_keys, Element,
};
use crate::set::SortedSet;
use crate::{lower_bound_from, SetOperation};

verus! {

/// The key `k` appears in one of the other inputs.
pub open spec fn key_in_any<U: Element>(os: Seq<&[U]>, k: int) -> bool {
    exists|j: int| 0 <= j < os.len() && has_key(os[j]@, k)
}

/// The predicate satisfied by base elements whose key appears in none of the
/// other inputs.
pub open spec fn key_not_in_any<T: Element, U: Element>(os: Seq<&[U]>) -> spec_fn(T) -> bool {
    |x: T| !key_in_any(os, x.key())
}

/// `r` is the by-key difference of the base `b` and the other inputs `os`:
/// the base elements whose key appears in none of the others, in order.
pub open spec fn multi_difference_by_key_emitted<T: Element, U: Element>(
    b: Seq<T>,
    os: Seq<&[U]>,
    r: Seq<T>,
) -> bool {
    r == b.filter(key_not_in_any(os))
}

/// The by-key difference of a base relation against any number of ordered
/// key sequences.
///
/// The base may hold runs of elements sharing a key; its keys need only be
/// nondecreasing. Every base element whose key appears in some other input
/// is dropped; the rest are emitted in order.
#[derive(Clone)]
pub struct DifferenceByKey<'a, T: Element, U: Element> {
    /// The base relation.
    pub base: &'a [T],
    /// The inputs subtracted from the base.
    pub others: Vec<&'a [U]>,
}

impl<'a, T: Element, U: Element> DifferenceByKey<'a, T, U> {
    /// Captures the base and any number of validated key sequences.
    pub fn new(base: SortedSet<'a, T>, others: Vec<SortedSet<'a, U>>) -> (r: Self)
        ensures
            r.base@ == base@,
            r.others@.len() == others@.len(),
            forall|i: int| 0 <= i < others@.len() ==> (#[trigger] r.others@[i])@ == others@[i]@,
    {
        let mut out: Vec<&'a [U]> = Vec::new();
        let len = others.len();
        let mut i: usize = 0;
        while i < len
            invariant
                len == others@.len(),
                0 <= i <= len,
                out@.len() == i,
                forall|j: int| 0 <= j < i ==> (#[trigger] out@[j])@ == others@[j]@,
            decreases len - i,
        {
            out.push(others[i].as_slice());
            i += 1;
        }
        DifferenceByKey { base: base.as_slice(), others: out }
    }
}

impl<'a, T: Element, U: Element> SetOperation<T> for DifferenceByKey<'a, T, U> {
    open spec fn wf(&self) -> bool {
        nondec_keys(self.base@) && forall|j: int|
            0 <= j < self.others@.len() ==> sorted_keys((#[trigger] self.others@[j])@)
    }

    open spec fn emits(&self, r: Seq<T>) -> bool {
        multi_difference_by_key_emitted(self.base@, self.others@, r)
    }

    #[verifier::loop_isolation(false)]
    #[verifier::rlimit(60)]
    fn extend_collection<C: Collection<T>>(self, output: &mut C) {
        let base = self.base;
        let others = self.others;
        let ghost ss = others@;
        let k = others.len();
        let ghost init = output.contents();
        let n = base.len();
        let ghost pred = key_not_in_any::<T, U>(ss);
        proof {
            assert forall|j: int| 0 <= j < k implies nondec_keys((#[trigger] ss[j])@) by {
                lemma_sorted_implies_nondec(ss[j]@);
            }
        }
        let mut cs: Vec<usize> = vec![0; k];
        let mut ai: usize = 0;
        while ai < n
            invariant
                0 <= ai <= n,
                cs@.len() == k,
                forall|j: int| 0 <= j < k ==> 0 <= #[trigger] cs@[j] <= ss[j]@.len(),
                output.inv(),
                output.contents() == init + base@.take(ai as int).filter(pred),
                forall|j: int, t: int|
                    0 <= j < k && 0 <= t < cs@[j] && ai < n ==> (#[trigger] ss[j]@[t]).key()
                        < base@[ai as int].key(),
            decreases n - ai,
        {
            let ka = base[ai].keyv();
            let mut have = false;
            let mut min_key: i64 = 0;
            let ghost mut min_at: int = 0;
            let mut j: usize = 0;
            while j < k
                invariant
                    0 <= j <= k,
                    cs@.len() == k,
                    forall|jj: int| 0 <= jj < k ==> 0 <= #[trigger] cs@[jj] <= ss[jj]@.len(),
                    forall|jj: int, t: int|
                        0 <= jj < k && 0 <= t < cs@[jj] ==> (#[trigger] ss[jj]@[t]).key()
                            < ka as int,
                    forall|jj: int|
                        0 <= jj < j && #[trigger] cs@[jj] < ss[jj]@.len() ==> ss[jj]@[cs@[jj] as int].key()
                            >= ka as int,
                    !have ==> forall|jj: int| 0 <= jj < j ==> #[trigger] cs@[jj] >= ss[jj]@.len(),
                    have ==> 0 <= min_at < j && cs@[min_at] < ss[min_at]@.len()
                        && ss[min_at]@[cs@[min_at] as int].key() == min_key as int,
                    have ==> forall|jj: int|
                        0 <= jj < j && #[trigger] cs@[jj] < ss[jj]@.len() ==> ss[jj]@[cs@[jj] as int].key()
                            >= min_key as int,
                decreases k - j,
            {
                let c = cs[j];
                let c2 = lower_bound_from(others[j], c, ka);
                cs[j] = c2;
                if c2 < others[j].len() {
                    let h = others[j][c2].keyv();
                    if !have || h < min_key {
                        min_key = h;
                        have = true;
                        proof {
                            min_at = j as int;
                        }
                    }
                }
                j += 1;
            }
            if !have {
                output.extend_from_slice(&base[ai..n]);
                proof {
                    let run = base@.subrange(ai as int, n as int);
                    assert forall|t: int| 0 <= t < run.len() implies pred(#[trigger] run[t]) by {
                        assert(run[t] == base@[ai + t]);
                        assert(base@[ai as int].key() <= run[t].key());
                        if key_in_any(ss, run[t].key()) {
                            let jj = choose|jj: int| 0 <= jj < ss.len() && has_key(
                                ss[jj]@,
                                run[t].key(),
                            );
                            let w = lemma_has_key_witness(ss[jj]@, run[t].key());
                            assert(cs@[jj] == ss[jj]@.len());
                            assert(ss[jj]@[w].key() < ka as int);
                        }
                    }
                    lemma_filter_all_true(run, pred);
                    assert(base@.take(n as int) =~= base@.take(ai as int) + run);
                    Seq::filter_distributes_over_add(base@.take(ai as int), run, pred);
                }
                ai = n;
            } else if min_key == ka {
                proof {
                    lemma_has_key_intro(ss[min_at]@, cs@[min_at] as int);
                    assert(has_key(ss[min_at]@, ka as int));
                    assert(key_in_any(ss, base@[ai as int].key()));
                    assert(!pred(base@[ai as int]));
                    lemma_filter_take_step(base@, ai as int, pred);
                }
                ai = ai + 1;
            } else {
                proof {
                    assert(min_key as int > ka as int);
                }
                let off = lower_bound_from(base, ai, min_key);
                output.extend_from_slice(&base[ai..off]);
                proof {
                    let run = base@.subrange(ai as int, off as int);
                    assert forall|t: int| 0 <= t < run.len() implies pred(#[trigger] run[t]) by {
                        assert(run[t] == base@[ai + t]);
                        assert(base@[ai as int].key() <= run[t].key());
                        assert(run[t].key() < min_key as int);
                        if key_in_any(ss, run[t].key()) {
                            let jj = choose|jj: int| 0 <= jj < ss.len() && has_key(
                                ss[jj]@,
                                run[t].key(),
                            );
                            let w = lemma_has_key_witness(ss[jj]@, run[t].key());
                            if w < cs@[jj] {
                                assert(ss[jj]@[w].key() < ka as int);
                            } else {
                                assert(cs@[jj] < ss[jj]@.len());
                                assert(ss[jj]@[cs@[jj] as int].key() >= min_key as int);
                                assert(ss[jj]@[w].key() >= ss[jj]@[cs@[jj] as int].key());
                            }
                        }
                    }
                    lemma_filter_all_true(run, pred);
                    assert(base@.take(off as int) =~= base@.take(ai as int) + run);
                    Seq::filter_distributes_over_add(base@.take(ai as int), run, pred);
                }
                ai = off;
            }
        }
        proof {
            assert(base@.take(n as int) =~= base@);
            lemma_filter_nondec(base@, pred);
            assert(output.contents() == init + base@.filter(pred));
            assert(self.emits(base@.filter(pred)));
        }
    }
}

} // verus!
