//! The algebraic laws of the set operations, proved once and for all from
//! the operations' contracts.

use vstd::prelude::*;

use crate::duo::{
    difference_emitted, intersection_emitted, symmetric_difference_emitted, union_emitted,
};
use crate::model::{
    has_key, key_in, key_not_in, key_set, lemma_filter_all_false, lemma_filter_all_true,
    lemma_filter_mem, lemma_filter_sorted, lemma_has_key_intro, lemma_has_key_witness,
    lemma_sorted_same_members, sorted_keys, Element,
};
use crate::multi::{key_in_every, multi_intersection_emitted, multi_union_emitted};

verus! {

/// The union of a set with the empty set is that set.
pub proof fn lemma_union_identity<T: Element>(a: Seq<T>, r: Seq<T>)
    requires
        sorted_keys(a),
        union_emitted(a, Seq::<T>::empty(), r),
    ensures
        r == a,
{
    assert forall|x: T| r.contains(x) <==> a.contains(x) by {
        assert(!Seq::<T>::empty().contains(x));
    }
    lemma_sorted_same_members(r, a);
}

/// The union of a set with itself is that set.
pub proof fn lemma_union_idempotent<T: Element>(a: Seq<T>, r: Seq<T>)
    requires
        sorted_keys(a),
        union_emitted(a, a, r),
    ensures
        r == a,
{
    assert forall|x: T| r.contains(x) <==> a.contains(x) by {}
    lemma_sorted_same_members(r, a);
}

/// The union of a single input is that input.
pub proof fn lemma_union_single<T: Element>(ss: Seq<&[T]>, r: Seq<T>)
    requires
        ss.len() == 1,
        sorted_keys(ss[0]@),
        multi_union_emitted(ss, r),
    ensures
        r == ss[0]@,
{
    assert forall|x: T| r.contains(x) <==> ss[0]@.contains(x) by {
        if r.contains(x) {
            let j = choose|j: int| 0 <= j < ss.len() && (#[trigger] ss[j])@.contains(x);
            assert(j == 0);
        }
        if ss[0]@.contains(x) {
            let w = choose|w: int| 0 <= w < ss[0]@.len() && ss[0]@[w] == x;
            lemma_has_key_intro(ss[0]@, w);
            assert(has_key(ss[0]@, x.key()));
            assert(has_key(r, x.key()));
            let v = lemma_has_key_witness(r, x.key());
            assert(r.contains(r[v])) by {
                assert(r[v] == r[v]);
            }
            let j = choose|j: int| 0 <= j < ss.len() && (#[trigger] ss[j])@.contains(r[v]);
            let w2 = choose|w2: int| 0 <= w2 < ss[0]@.len() && ss[0]@[w2] == r[v];
            assert(w2 == w) by {
                if w2 < w {
                    assert(ss[0]@[w2].key() < ss[0]@[w].key());
                } else if w < w2 {
                    assert(ss[0]@[w].key() < ss[0]@[w2].key());
                }
            }
            assert(r[v] == x);
        }
    }
    lemma_sorted_same_members(r, ss[0]@);
}

/// The intersection of a set with itself is that set.
pub proof fn lemma_intersection_idempotent<T: Element>(a: Seq<T>, r: Seq<T>)
    requires
        intersection_emitted(a, a, r),
    ensures
        r == a,
{
    let pred = key_in::<T, T>(a);
    assert forall|i: int| 0 <= i < a.len() implies pred(#[trigger] a[i]) by {
        lemma_has_key_intro(a, i);
    }
    lemma_filter_all_true(a, pred);
}

/// The intersection of a set with the empty set is empty.
pub proof fn lemma_intersection_empty<T: Element>(a: Seq<T>, r: Seq<T>)
    requires
        intersection_emitted(a, Seq::<T>::empty(), r),
    ensures
        r == Seq::<T>::empty(),
{
    let pred = key_in::<T, T>(Seq::<T>::empty());
    assert forall|i: int| 0 <= i < a.len() implies !pred(#[trigger] a[i]) by {
        if has_key(Seq::<T>::empty(), a[i].key()) {
            let w = lemma_has_key_witness(Seq::<T>::empty(), a[i].key());
        }
    }
    lemma_filter_all_false(a, pred);
}

/// The intersection of a single input is that input.
pub proof fn lemma_intersection_single<T: Element>(ss: Seq<&[T]>, r: Seq<T>)
    requires
        ss.len() == 1,
        multi_intersection_emitted(ss, r),
    ensures
        r == ss[0]@,
{
    let pred = key_in_every::<T>(ss);
    assert forall|i: int| 0 <= i < ss[0]@.len() implies pred(#[trigger] ss[0]@[i]) by {}
    lemma_filter_all_true(ss[0]@, pred);
}

/// The difference of a set and the empty set is that set.
pub proof fn lemma_difference_identity<T: Element>(a: Seq<T>, r: Seq<T>)
    requires
        difference_emitted(a, Seq::<T>::empty(), r),
    ensures
        r == a,
{
    let pred = key_not_in::<T, T>(Seq::<T>::empty());
    assert forall|i: int| 0 <= i < a.len() implies pred(#[trigger] a[i]) by {
        if has_key(Seq::<T>::empty(), a[i].key()) {
            let w = lemma_has_key_witness(Seq::<T>::empty(), a[i].key());
        }
    }
    lemma_filter_all_true(a, pred);
}

/// The difference of a set and itself is empty.
pub proof fn lemma_difference_self<T: Element>(a: Seq<T>, r: Seq<T>)
    requires
        difference_emitted(a, a, r),
    ensures
        r == Seq::<T>::empty(),
{
    let pred = key_not_in::<T, T>(a);
    assert forall|i: int| 0 <= i < a.len() implies !pred(#[trigger] a[i]) by {
        lemma_has_key_intro(a, i);
    }
    lemma_filter_all_false(a, pred);
}

/// The difference of the empty set and any set is empty.
pub proof fn lemma_difference_empty_base<T: Element>(b: Seq<T>, r: Seq<T>)
    requires
        difference_emitted(Seq::<T>::empty(), b, r),
    ensures
        r == Seq::<T>::empty(),
{
    let pred = key_not_in::<T, T>(b);
    lemma_filter_all_false(Seq::<T>::empty(), pred);
}

/// The symmetric difference of a set with itself is empty.
pub proof fn lemma_symmetric_difference_self<T: Element>(a: Seq<T>, r: Seq<T>)
    requires
        symmetric_difference_emitted(a, a, r),
    ensures
        r == Seq::<T>::empty(),
{
    if r.len() > 0 {
        assert(r.contains(r[0]));
        let x = r[0];
        assert(a.contains(x) && !has_key(a, x.key()) || a.contains(x) && !has_key(a, x.key()));
        let w = choose|w: int| 0 <= w < a.len() && a[w] == x;
        lemma_has_key_intro(a, w);
    }
    assert(r =~= Seq::<T>::empty());
}

/// The symmetric difference of a set with the empty set is that set.
pub proof fn lemma_symmetric_difference_identity<T: Element>(a: Seq<T>, r: Seq<T>)
    requires
        sorted_keys(a),
        symmetric_difference_emitted(a, Seq::<T>::empty(), r),
    ensures
        r == a,
{
    assert forall|x: T| r.contains(x) <==> a.contains(x) by {
        assert(!Seq::<T>::empty().contains(x));
        if a.contains(x) && has_key(Seq::<T>::empty(), x.key()) {
            let w = lemma_has_key_witness(Seq::<T>::empty(), x.key());
        }
    }
    lemma_sorted_same_members(r, a);
}

/// The union of a difference and the matching intersection restores the
/// base: `difference(a, b) ∪ intersection(a, b) = a`.
pub proof fn lemma_difference_union_intersection<T: Element>(
    a: Seq<T>,
    b: Seq<T>,
    d: Seq<T>,
    i: Seq<T>,
    u: Seq<T>,
)
    requires
        sorted_keys(a),
        sorted_keys(b),
        difference_emitted(a, b, d),
        intersection_emitted(a, b, i),
        union_emitted(d, i, u),
    ensures
        u == a,
{
    let out = key_not_in::<T, T>(b);
    let inn = key_in::<T, T>(b);
    assert forall|x: T| u.contains(x) <==> a.contains(x) by {
        lemma_filter_mem(a, out, x);
        lemma_filter_mem(a, inn, x);
        if a.contains(x) {
            if !has_key(b, x.key()) {
                assert(d.contains(x));
            } else {
                assert(i.contains(x));
                if has_key(d, x.key()) {
                    let w = lemma_has_key_witness(d, x.key());
                    assert(d.contains(d[w])) by {
                        assert(d[w] == d[w]);
                    }
                    lemma_filter_mem(a, out, d[w]);
                }
            }
        }
    }
    lemma_filter_sorted(a, out);
    lemma_sorted_same_members(u, a);
}

/// The symmetric difference is the union of the two one-sided differences:
/// `symmetric_difference(a, b) = difference(a, b) ∪ difference(b, a)`.
pub proof fn lemma_symmetric_difference_as_differences<T: Element>(
    a: Seq<T>,
    b: Seq<T>,
    s: Seq<T>,
    d1: Seq<T>,
    d2: Seq<T>,
    u: Seq<T>,
)
    requires
        sorted_keys(a),
        sorted_keys(b),
        symmetric_difference_emitted(a, b, s),
        difference_emitted(a, b, d1),
        difference_emitted(b, a, d2),
        union_emitted(d1, d2, u),
    ensures
        u == s,
{
    let outb = key_not_in::<T, T>(b);
    let outa = key_not_in::<T, T>(a);
    assert forall|x: T| u.contains(x) <==> s.contains(x) by {
        lemma_filter_mem(a, outb, x);
        lemma_filter_mem(b, outa, x);
        if b.contains(x) && !has_key(a, x.key()) {
            assert(d2.contains(x));
            if has_key(d1, x.key()) {
                let w = lemma_has_key_witness(d1, x.key());
                assert(d1.contains(d1[w])) by {
                    assert(d1[w] == d1[w]);
                }
                lemma_filter_mem(a, outb, d1[w]);
                let v = choose|v: int| 0 <= v < a.len() && a[v] == d1[w];
                lemma_has_key_intro(a, v);
            }
        }
        if u.contains(x) && !d1.contains(x) {
            assert(d2.contains(x) && !has_key(d1, x.key()));
        }
    }
    lemma_filter_sorted(a, outb);
    lemma_sorted_same_members(u, s);
}

/// The union's keys are the mathematical union of the inputs' key sets.
pub proof fn lemma_union_key_set<T: Element>(a: Seq<T>, b: Seq<T>, r: Seq<T>)
    requires
        union_emitted(a, b, r),
    ensures
        key_set(r) == key_set(a).union(key_set(b)),
{
    assert forall|k: int| has_key(r, k) <==> has_key(a, k) || has_key(b, k) by {
        if has_key(r, k) {
            let w = lemma_has_key_witness(r, k);
            assert(r.contains(r[w])) by {
                assert(r[w] == r[w]);
            }
            if a.contains(r[w]) {
                let v = choose|v: int| 0 <= v < a.len() && a[v] == r[w];
                lemma_has_key_intro(a, v);
            } else {
                let v = choose|v: int| 0 <= v < b.len() && b[v] == r[w];
                lemma_has_key_intro(b, v);
            }
        }
        if has_key(a, k) {
            let w = lemma_has_key_witness(a, k);
            assert(a.contains(a[w])) by {
                assert(a[w] == a[w]);
            }
            assert(r.contains(a[w]));
            let v = choose|v: int| 0 <= v < r.len() && r[v] == a[w];
            lemma_has_key_intro(r, v);
        } else if has_key(b, k) {
            let w = lemma_has_key_witness(b, k);
            assert(b.contains(b[w])) by {
                assert(b[w] == b[w]);
            }
            assert(r.contains(b[w]));
            let v = choose|v: int| 0 <= v < r.len() && r[v] == b[w];
            lemma_has_key_intro(r, v);
        }
    }
    assert(key_set(r) =~= key_set(a).union(key_set(b)));
}

/// The intersection's keys are the mathematical intersection of the inputs'
/// key sets.
pub proof fn lemma_intersection_key_set<T: Element>(a: Seq<T>, b: Seq<T>, r: Seq<T>)
    requires
        intersection_emitted(a, b, r),
    ensures
        key_set(r) == key_set(a).intersect(key_set(b)),
{
    let pred = key_in::<T, T>(b);
    assert forall|k: int| has_key(r, k) <==> has_key(a, k) && has_key(b, k) by {
        if has_key(r, k) {
            let w = lemma_has_key_witness(r, k);
            assert(r.contains(r[w])) by {
                assert(r[w] == r[w]);
            }
            lemma_filter_mem(a, pred, r[w]);
            let v = choose|v: int| 0 <= v < a.len() && a[v] == r[w];
            lemma_has_key_intro(a, v);
        }
        if has_key(a, k) && has_key(b, k) {
            let w = lemma_has_key_witness(a, k);
            lemma_filter_mem(a, pred, a[w]);
            assert(a.contains(a[w])) by {
                assert(a[w] == a[w]);
            }
            assert(r.contains(a[w]));
            let v = choose|v: int| 0 <= v < r.len() && r[v] == a[w];
            lemma_has_key_intro(r, v);
        }
    }
    assert(key_set(r) =~= key_set(a).intersect(key_set(b)));
}

/// The difference's keys are the mathematical difference of the inputs' key
/// sets.
pub proof fn lemma_difference_key_set<T: Element>(a: Seq<T>, b: Seq<T>, r: Seq<T>)
    requires
        difference_emitted(a, b, r),
    ensures
        key_set(r) == key_set(a).difference(key_set(b)),
{
    let pred = key_not_in::<T, T>(b);
    assert forall|k: int| has_key(r, k) <==> has_key(a, k) && !has_key(b, k) by {
        if has_key(r, k) {
            let w = lemma_has_key_witness(r, k);
            assert(r.contains(r[w])) by {
                assert(r[w] == r[w]);
            }
            lemma_filter_mem(a, pred, r[w]);
            let v = choose|v: int| 0 <= v < a.len() && a[v] == r[w];
            lemma_has_key_intro(a, v);
        }
        if has_key(a, k) && !has_key(b, k) {
            let w = lemma_has_key_witness(a, k);
            lemma_filter_mem(a, pred, a[w]);
            assert(a.contains(a[w])) by {
                assert(a[w] == a[w]);
            }
            assert(r.contains(a[w]));
            let v = choose|v: int| 0 <= v < r.len() && r[v] == a[w];
            lemma_has_key_intro(r, v);
        }
    }
    assert(key_set(r) =~= key_set(a).difference(key_set(b)));
}

/// The symmetric difference's keys are the keys in exactly one input: the
/// mathematical union of the two one-sided differences of the key sets.
pub proof fn lemma_symmetric_difference_key_set<T: Element>(a: Seq<T>, b: Seq<T>, r: Seq<T>)
    requires
        symmetric_difference_emitted(a, b, r),
    ensures
        key_set(r) == key_set(a).difference(key_set(b)).union(
            key_set(b).difference(key_set(a)),
        ),
{
    assert forall|k: int|
        has_key(r, k) <==> ((has_key(a, k) && !has_key(b, k)) || (has_key(b, k) && !has_key(
            a,
            k,
        ))) by {
        if has_key(r, k) {
            let w = lemma_has_key_witness(r, k);
            assert(r.contains(r[w])) by {
                assert(r[w] == r[w]);
            }
            if a.contains(r[w]) {
                let v = choose|v: int| 0 <= v < a.len() && a[v] == r[w];
                lemma_has_key_intro(a, v);
            } else {
                let v = choose|v: int| 0 <= v < b.len() && b[v] == r[w];
                lemma_has_key_intro(b, v);
            }
        }
        if has_key(a, k) && !has_key(b, k) {
            let w = lemma_has_key_witness(a, k);
            assert(a.contains(a[w])) by {
                assert(a[w] == a[w]);
            }
            assert(r.contains(a[w]));
            let v = choose|v: int| 0 <= v < r.len() && r[v] == a[w];
            lemma_has_key_intro(r, v);
        } else if has_key(b, k) && !has_key(a, k) {
            let w = lemma_has_key_witness(b, k);
            assert(b.contains(b[w])) by {
                assert(b[w] == b[w]);
            }
            assert(r.contains(b[w]));
            let v = choose|v: int| 0 <= v < r.len() && r[v] == b[w];
            lemma_has_key_intro(r, v);
        }
    }
    assert(key_set(r) =~= key_set(a).difference(key_set(b)).union(
        key_set(b).difference(key_set(a)),
    ));
}

/// Two key-sorted sequences with the same keys have the same length.
///
/// Each operation's contract pins the emitted keys, so any two sinks driven
/// by the same operation receive equally many elements; in particular the
/// counting collector reports the length of the buffered result.
pub proof fn lemma_same_keys_same_length<T: Element, U: Element>(r1: Seq<T>, r2: Seq<U>)
    requires
        sorted_keys(r1),
        sorted_keys(r2),
        forall|k: int| has_key(r1, k) <==> has_key(r2, k),
    ensures
        r1.len() == r2.len(),
    decreases r1.len(),
{
    if r1.len() == 0 {
        if r2.len() > 0 {
            lemma_has_key_intro(r2, 0);
            let w = lemma_has_key_witness(r1, r2[0].key());
        }
    } else {
        lemma_has_key_intro(r1, 0);
        let w2 = lemma_has_key_witness(r2, r1[0].key());
        lemma_has_key_intro(r2, 0);
        let w1 = lemma_has_key_witness(r1, r2[0].key());
        assert(r1[0].key() == r2[0].key()) by {
            if w2 > 0 {
                assert(r2[0].key() < r2[w2].key());
            }
            if w1 > 0 {
                assert(r1[0].key() < r1[w1].key());
            }
        }
        let t1 = r1.drop_first();
        let t2 = r2.drop_first();
        assert forall|k: int| has_key(t1, k) <==> has_key(t2, k) by {
            lemma_tail_keys(r1, k);
            lemma_tail_keys(r2, k);
        }
        lemma_same_keys_same_length(t1, t2);
    }
}

/// The tail of a key-sorted sequence holds exactly the keys above the head's.
proof fn lemma_tail_keys<T: Element>(s: Seq<T>, k: int)
    requires
        sorted_keys(s),
        s.len() > 0,
    ensures
        has_key(s.drop_first(), k) <==> has_key(s, k) && k > s[0].key(),
{
    if has_key(s.drop_first(), k) {
        let w = lemma_has_key_witness(s.drop_first(), k);
        assert(s[w + 1].key() == k);
        lemma_has_key_intro(s, w + 1);
        assert(s[0].key() < s[w + 1].key());
    }
    if has_key(s, k) && k > s[0].key() {
        let w = lemma_has_key_witness(s, k);
        assert(w > 0);
        assert(s.drop_first()[w - 1].key() == k);
        lemma_has_key_intro(s.drop_first(), w - 1);
    }
}

} // verus!
