//! The intersection of any number of ordered sequences.

use vstd::prelude::*;

use crate::collection::Collection;
use crate::model::{
    has_key, lemma_filter_all_false, lemma_filter_sorted, lemma_filter_take_step,
    lemma_has_key_intro, lemma_has_key_witness, lemma_sorted_implies_nondec, nondec_keys,
    sorted_keys, Element,
};
use crate::set::SortedSet;
use crate::{lower_bound_from, SetOperation};

verus! {

/// The key `k` appears in every input other than the first.
pub open spec fn key_in_all_others<T: Element>(ss: Seq<&[T]>, k: int) -> bool {
    forall|j: int| 1 <= j < ss.len() ==> has_key((#[trigger] ss[j])@, k)
}

/// The predicate satisfied by base elements whose key appears in every other
/// input.
pub open spec fn key_in_every<T: Element>(ss: Seq<&[T]>) -> spec_fn(T) -> bool {
    |x: T| key_in_all_others(ss, x.key())
}

/// `r` is the intersection of the inputs `ss`: the elements of the first
/// input whose key appears in every other input, in order.
pub open spec fn multi_intersection_emitted<T: Element>(ss: Seq<&[T]>, r: Seq<T>) -> bool {
    if ss.len() == 0 {
        r == Seq::<T>::empty()
    } else {
        r == ss[0]@.filter(key_in_every(ss))
    }
}

/// What remains unconsumed in the inputs at or after position `j`, given one
/// cursor per input.
pub(crate) open spec fn rem_sum<T: Element>(ss: Seq<&[T]>, cs: Seq<usize>, j: int) -> int
    decreases ss.len() - j,
{
    if j < 0 || j >= ss.len() || ss.len() != cs.len() {
        0
    } else {
        (ss[j]@.len() - cs[j]) + rem_sum(ss, cs, j + 1)
    }
}

/// Advancing cursors never grows the remaining sum.
pub(crate) proof fn lemma_rem_sum_mono<T: Element>(
    ss: Seq<&[T]>,
    cs1: Seq<usize>,
    cs2: Seq<usize>,
    j: int,
)
    requires
        cs1.len() == ss.len(),
        cs2.len() == ss.len(),
        forall|jj: int| j <= jj < ss.len() ==> #[trigger] cs1[jj] <= cs2[jj],
    ensures
        rem_sum(ss, cs2, j) <= rem_sum(ss, cs1, j),
    decreases ss.len() - j,
{
    if 0 <= j < ss.len() {
        lemma_rem_sum_mono(ss, cs1, cs2, j + 1);
    }
}

/// Advancing one cursor strictly shrinks the remaining sum.
pub(crate) proof fn lemma_rem_sum_strict<T: Element>(
    ss: Seq<&[T]>,
    cs1: Seq<usize>,
    cs2: Seq<usize>,
    j: int,
    at: int,
)
    requires
        cs1.len() == ss.len(),
        cs2.len() == ss.len(),
        forall|jj: int| j <= jj < ss.len() ==> #[trigger] cs1[jj] <= cs2[jj],
        0 <= j <= at < ss.len(),
        cs1[at] < cs2[at],
    ensures
        rem_sum(ss, cs2, j) < rem_sum(ss, cs1, j),
    decreases ss.len() - j,
{
    if 0 <= j < ss.len() {
        if j == at {
            lemma_rem_sum_mono(ss, cs1, cs2, j + 1);
        } else {
            lemma_rem_sum_strict(ss, cs1, cs2, j + 1, at);
        }
    }
}

/// The remaining sum of in-bounds cursors is not negative.
pub(crate) proof fn lemma_rem_sum_nonneg<T: Element>(ss: Seq<&[T]>, cs: Seq<usize>, j: int)
    requires
        cs.len() == ss.len(),
        forall|jj: int| j <= jj < ss.len() ==> #[trigger] cs[jj] <= ss[jj]@.len(),
    ensures
        rem_sum(ss, cs, j) >= 0,
    decreases ss.len() - j,
{
    if 0 <= j < ss.len() {
        lemma_rem_sum_nonneg(ss, cs, j + 1);
    }
}

/// The intersection over any number of ordered sequences: emits every
/// element of the first input whose key appears in all the others.
#[derive(Clone)]
pub struct Intersection<'a, T: Element> {
    /// The inputs.
    pub slices: Vec<&'a [T]>,
}

impl<'a, T: Element> Intersection<'a, T> {
    /// Captures any number of validated sequences.
    pub fn new(slices: Vec<SortedSet<'a, T>>) -> (r: Self)
        ensures
            r.slices@.len() == slices@.len(),
            forall|i: int| 0 <= i < slices@.len() ==> (#[trigger] r.slices@[i])@ == slices@[i]@,
    {
        let mut out: Vec<&'a [T]> = Vec::new();
        let len = slices.len();
        let mut i: usize = 0;
        while i < len
            invariant
                len == slices@.len(),
                0 <= i <= len,
                out@.len() == i,
                forall|j: int| 0 <= j < i ==> (#[trigger] out@[j])@ == slices@[j]@,
            decreases len - i,
        {
            out.push(slices[i].as_slice());
            i += 1;
        }
        Intersection { slices: out }
    }
}

impl<'a, T: Element> SetOperation<T> for Intersection<'a, T> {
    open spec fn wf(&self) -> bool {
        forall|j: int| 0 <= j < self.slices@.len() ==> sorted_keys((#[trigger] self.slices@[j])@)
    }

    open spec fn emits(&self, r: Seq<T>) -> bool {
        multi_intersection_emitted(self.slices@, r)
    }

    #[verifier::loop_isolation(false)]
    #[verifier::rlimit(60)]
    fn extend_collection<C: Collection<T>>(self, output: &mut C) {
        let slices = self.slices;
        let ghost ss = slices@;
        let k = slices.len();
        let ghost init = output.contents();
        if k == 0 {
            proof {
                assert(output.contents() == init + Seq::<T>::empty()) by {
                    assert(init + Seq::<T>::empty() =~= init);
                }
                assert(self.emits(Seq::<T>::empty()));
            }
            return ;
        }
        let base = slices[0];
        let n = base.len();
        let ghost pred = key_in_every::<T>(ss);
        proof {
            assert(sorted_keys(base@));
            lemma_sorted_implies_nondec(base@);
            assert forall|j: int| 1 <= j < k implies nondec_keys((#[trigger] ss[j])@) by {
                lemma_sorted_implies_nondec(ss[j]@);
            }
        }
        let mut cs: Vec<usize> = vec![0; k];
        let mut ai: usize = 0;
        while ai < n
            invariant
                0 <= ai <= n,
                cs@.len() == k,
                forall|j: int| 1 <= j < k ==> 0 <= #[trigger] cs@[j] <= ss[j]@.len(),
                output.inv(),
                output.contents() == init + base@.take(ai as int).filter(pred),
                forall|j: int, t: int|
                    1 <= j < k && 0 <= t < cs@[j] && ai < n ==> (#[trigger] ss[j]@[t]).key()
                        < base@[ai as int].key(),
            decreases n - ai + rem_sum(ss, cs@, 1),
        {
            let ghost ai0 = ai;
            let ghost cs0 = cs@;
            let ka = base[ai].keyv();
            let mut all_eq = true;
            let mut maxk: i64 = ka;
            let ghost mut max_at: int = 0;
            let mut exhausted = false;
            let ghost mut ex_at: int = 0;
            let ghost mut lt = false;
            let ghost mut lt_at: int = 0;
            let mut j: usize = 1;
            while j < k && !exhausted
                invariant
                    1 <= j <= k,
                    !exhausted ==> forall|jj: int|
                        1 <= jj < j ==> #[trigger] cs@[jj] < ss[jj]@.len(),
                    exhausted ==> 1 <= ex_at < k && cs@[ex_at] == ss[ex_at]@.len(),
                    maxk as int >= ka as int,
                    max_at == 0 ==> maxk == ka,
                    max_at != 0 ==> 1 <= max_at < j && cs@[max_at] < ss[max_at]@.len()
                        && ss[max_at]@[cs@[max_at] as int].key() == maxk as int,
                    forall|jj: int|
                        1 <= jj < j && #[trigger] cs@[jj] < ss[jj]@.len() ==> ss[jj]@[cs@[jj] as int].key()
                            <= maxk as int,
                    all_eq ==> forall|jj: int|
                        1 <= jj < j && #[trigger] cs@[jj] < ss[jj]@.len() ==> ss[jj]@[cs@[jj] as int].key()
                            == ka as int,
                    all_eq ==> maxk == ka,
                    lt ==> 1 <= lt_at < j && cs@[lt_at] < ss[lt_at]@.len()
                        && ss[lt_at]@[cs@[lt_at] as int].key() < ka as int,
                    !all_eq ==> lt || maxk as int > ka as int,
                decreases k - j,
            {
                let c = cs[j];
                if c == slices[j].len() {
                    exhausted = true;
                    proof {
                        ex_at = j as int;
                    }
                } else {
                    let h = slices[j][c].keyv();
                    if h != ka {
                        all_eq = false;
                        proof {
                            if h < ka {
                                lt = true;
                                lt_at = j as int;
                            }
                        }
                    }
                    if h > maxk {
                        maxk = h;
                        proof {
                            max_at = j as int;
                        }
                    }
                }
                j += 1;
            }
            if exhausted {
                proof {
                    let rest = base@.subrange(ai as int, n as int);
                    assert forall|t: int| 0 <= t < rest.len() implies !pred(#[trigger] rest[t]) by {
                        assert(rest[t] == base@[ai + t]);
                        assert(base@[ai as int].key() <= rest[t].key());
                        if has_key(ss[ex_at]@, rest[t].key()) {
                            let w = lemma_has_key_witness(ss[ex_at]@, rest[t].key());
                            assert(ss[ex_at]@[w].key() < base@[ai as int].key());
                        }
                        assert(!key_in_all_others(ss, rest[t].key()));
                    }
                    lemma_filter_all_false(rest, pred);
                    assert(base@.take(n as int) =~= base@.take(ai as int) + rest);
                    Seq::filter_distributes_over_add(base@.take(ai as int), rest, pred);
                    lemma_rem_sum_nonneg(ss, cs@, 1);
                }
                ai = n;
            } else if all_eq {
                output.push(base[ai]);
                proof {
                    assert forall|jj: int| 1 <= jj < k implies has_key(
                        (#[trigger] ss[jj])@,
                        base@[ai as int].key(),
                    ) by {
                        lemma_has_key_intro(ss[jj]@, cs@[jj] as int);
                    }
                    assert(pred(base@[ai as int]));
                    lemma_filter_take_step(base@, ai as int, pred);
                }
                ai = ai + 1;
                proof {
                    assert(forall|jj: int| 1 <= jj < k ==> #[trigger] cs0[jj] < ss[jj]@.len());
                    assert(forall|jj: int|
                        1 <= jj < k ==> (#[trigger] ss[jj]@[cs0[jj] as int]).key() == ka as int);
                }
                let mut j2: usize = 1;
                while j2 < k
                    invariant
                        1 <= j2 <= k,
                        cs@.len() == k,
                        forall|jj: int| 1 <= jj < j2 ==> #[trigger] cs@[jj] == cs0[jj] + 1,
                        forall|jj: int| j2 <= jj < k ==> #[trigger] cs@[jj] == cs0[jj],
                    decreases k - j2,
                {
                    let c = cs[j2];
                    let lj = slices[j2].len();
                    proof {
                        assert(c == cs0[j2 as int] && c < ss[j2 as int]@.len());
                    }
                    cs[j2] = c + 1;
                    j2 += 1;
                }
                proof {
                    assert forall|jj: int, t: int|
                        1 <= jj < k && 0 <= t < cs@[jj] && ai < n implies (#[trigger] ss[jj]@[t]).key()
                            < base@[ai as int].key() by {
                        assert(base@[ai0 as int].key() < base@[ai as int].key());
                        if t < cs0[jj] {
                            assert(ss[jj]@[t].key() < base@[ai0 as int].key());
                        } else {
                            assert(t == cs0[jj]);
                            assert(ss[jj]@[t].key() == ka as int);
                        }
                    }
                    lemma_rem_sum_mono(ss, cs0, cs@, 1);
                    lemma_rem_sum_nonneg(ss, cs@, 1);
                }
            } else {
                let off = lower_bound_from(base, ai, maxk);
                proof {
                    let run = base@.subrange(ai as int, off as int);
                    assert forall|t: int| 0 <= t < run.len() implies !pred(#[trigger] run[t]) by {
                        assert(run[t] == base@[ai + t]);
                        assert(base@[ai as int].key() <= run[t].key());
                        assert(run[t].key() < maxk as int);
                        assert(max_at != 0);
                        if has_key(ss[max_at]@, run[t].key()) {
                            let w = lemma_has_key_witness(ss[max_at]@, run[t].key());
                            if w < cs@[max_at] {
                                assert(ss[max_at]@[w].key() < base@[ai as int].key());
                            } else {
                                assert(ss[max_at]@[w].key() >= ss[max_at]@[cs@[max_at] as int].key());
                            }
                        }
                        assert(!key_in_all_others(ss, run[t].key()));
                    }
                    lemma_filter_all_false(run, pred);
                    assert(base@.take(off as int) =~= base@.take(ai as int) + run);
                    Seq::filter_distributes_over_add(base@.take(ai as int), run, pred);
                    assert(forall|jj: int| 1 <= jj < k ==> #[trigger] cs0[jj] < ss[jj]@.len());
                    assert(forall|jj: int, t: int|
                        1 <= jj < k && 0 <= t < cs0[jj] ==> (#[trigger] ss[jj]@[t]).key() < base@[
                            ai0 as int
                        ].key());
                    assert(forall|jj: int|
                        1 <= jj < k ==> (#[trigger] ss[jj]@[cs0[jj] as int]).key() <= maxk as int);
                    assert(lt ==> ss[lt_at]@[cs0[lt_at] as int].key() < ka as int);
                }
                ai = off;
                let mut j2: usize = 1;
                while j2 < k
                    invariant
                        1 <= j2 <= k,
                        cs@.len() == k,
                        forall|jj: int| 1 <= jj < k ==> 0 <= #[trigger] cs@[jj] <= ss[jj]@.len(),
                        forall|jj: int| 1 <= jj < j2 ==> cs0[jj] <= #[trigger] cs@[jj],
                        forall|jj: int| j2 <= jj < k ==> #[trigger] cs@[jj] == cs0[jj],
                        forall|jj: int, t: int|
                            1 <= jj < j2 && 0 <= t < cs@[jj] ==> (#[trigger] ss[jj]@[t]).key()
                                < maxk as int,
                        forall|jj: int|
                            1 <= jj < j2 && #[trigger] cs@[jj] < ss[jj]@.len() ==> ss[jj]@[cs@[jj] as int].key()
                                >= maxk as int,
                    decreases k - j2,
                {
                    let c = cs[j2];
                    proof {
                        assert forall|t: int| 0 <= t < c implies (#[trigger] ss[j2 as int]@[t]).key()
                            < maxk as int by {
                            assert(c == cs0[j2 as int]);
                            assert(ss[j2 as int]@[t].key() < base@[ai0 as int].key());
                            assert(base@[ai0 as int].key() == ka as int);
                        }
                    }
                    let c2 = lower_bound_from(slices[j2], c, maxk);
                    cs[j2] = c2;
                    j2 += 1;
                }
                proof {
                    assert forall|jj: int, t: int|
                        1 <= jj < k && 0 <= t < cs@[jj] && ai < n implies (#[trigger] ss[jj]@[t]).key()
                            < base@[ai as int].key() by {
                        assert(ss[jj]@[t].key() < maxk as int);
                        assert(base@[ai as int].key() >= maxk as int);
                    }
                    lemma_rem_sum_nonneg(ss, cs@, 1);
                    if ai > ai0 {
                        lemma_rem_sum_mono(ss, cs0, cs@, 1);
                    } else {
                        assert(base@[ai0 as int].key() >= maxk as int);
                        assert(maxk == ka);
                        assert(lt);
                        assert(cs@[lt_at] > cs0[lt_at]) by {
                            if cs@[lt_at] == cs0[lt_at] {
                                assert(ss[lt_at]@[cs@[lt_at] as int].key() >= maxk as int);
                                assert(ss[lt_at]@[cs0[lt_at] as int].key() < ka as int);
                            }
                        }
                        lemma_rem_sum_strict(ss, cs0, cs@, 1, lt_at);
                    }
                }
            }
        }
        proof {
            assert(base@.take(n as int) =~= base@);
            lemma_filter_sorted(base@, pred);
            assert(output.contents() == init + base@.filter(pred));
            assert(self.emits(base@.filter(pred)));
            lemma_sorted_implies_nondec(base@.filter(pred));
        }
    }
}

} // verus!
