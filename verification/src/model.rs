//! The mathematical model of ordered elements.
//!
//! Every set operation in this crate works on elements that carry a totally
//! ordered key. The key is modelled in specifications as a mathematical
//! integer, and compared at runtime through [`Element::keyv`].

use vstd::prelude::*;

verus! {

/// An element of an ordered sequence.
///
/// The element's position in the library-global total order is given by its
/// key. For plain integer elements the key is the value itself; for record
/// elements such as [`KeyValue`] the key is a projection of the record.
pub trait Element: Sized + Copy {
    /// The mathematical key of this element.
    spec fn key(self) -> int;

    /// The runtime key of this element, used for every comparison.
    fn keyv(&self) -> (k: i64)
        ensures
            k as int == self.key(),
    ;
}

impl Element for i64 {
    open spec fn key(self) -> int {
        self as int
    }

    fn keyv(&self) -> (k: i64) {
        *self
    }
}

impl Element for i32 {
    open spec fn key(self) -> int {
        self as int
    }

    fn keyv(&self) -> (k: i64) {
        *self as i64
    }
}

impl Element for i16 {
    open spec fn key(self) -> int {
        self as int
    }

    fn keyv(&self) -> (k: i64) {
        *self as i64
    }
}

impl Element for i8 {
    open spec fn key(self) -> int {
        self as int
    }

    fn keyv(&self) -> (k: i64) {
        *self as i64
    }
}

impl Element for u32 {
    open spec fn key(self) -> int {
        self as int
    }

    fn keyv(&self) -> (k: i64) {
        *self as i64
    }
}

impl Element for u16 {
    open spec fn key(self) -> int {
        self as int
    }

    fn keyv(&self) -> (k: i64) {
        *self as i64
    }
}

impl Element for u8 {
    open spec fn key(self) -> int {
        self as int
    }

    fn keyv(&self) -> (k: i64) {
        *self as i64
    }
}

/// A record element: a key together with a payload.
///
/// This is the element type for the by-key operations, which join a relation
/// (whose rows may share a key) against plain key sets.
#[derive(Clone, Copy, Debug, PartialEq, Eq, Structural)]
pub struct KeyValue {
    /// The key, used for every comparison.
    pub a: i64,
    /// The payload, ignored by comparisons.
    pub b: i64,
}

impl Element for KeyValue {
    open spec fn key(self) -> int {
        self.a as int
    }

    fn keyv(&self) -> (k: i64) {
        self.a
    }
}

/// The keys of `s` are strictly increasing: sorted and deduplicated.
pub open spec fn sorted_keys<T: Element>(s: Seq<T>) -> bool {
    forall|i: int, j: int| 0 <= i < j < s.len() ==> s[i].key() < s[j].key()
}

/// The keys of `s` never decrease; runs of equal keys are permitted.
pub open spec fn nondec_keys<T: Element>(s: Seq<T>) -> bool {
    forall|i: int, j: int| 0 <= i < j < s.len() ==> s[i].key() <= s[j].key()
}

/// Some element of `s` has key `k`.
pub open spec fn has_key<T: Element>(s: Seq<T>, k: int) -> bool {
    exists|i: int| 0 <= i < s.len() && s[i].key() == k
}

/// The mathematical set of keys appearing in `s`.
pub open spec fn key_set<T: Element>(s: Seq<T>) -> Set<int> {
    Set::new(|k: int| has_key(s, k))
}

/// The predicate satisfied by elements whose key appears in `b`.
pub open spec fn key_in<T: Element, U: Element>(b: Seq<U>) -> spec_fn(T) -> bool {
    |x: T| has_key(b, x.key())
}

/// The predicate satisfied by elements whose key does not appear in `b`.
pub open spec fn key_not_in<T: Element, U: Element>(b: Seq<U>) -> spec_fn(T) -> bool {
    |x: T| !has_key(b, x.key())
}

/// An index of `s` that carries the key `k`.
pub proof fn lemma_has_key_witness<T: Element>(s: Seq<T>, k: int) -> (i: int)
    requires
        has_key(s, k),
    ensures
        0 <= i < s.len() && s[i].key() == k,
{
    choose|i: int| 0 <= i < s.len() && s[i].key() == k
}

/// The key at any index of `s` is a key of `s`.
pub proof fn lemma_has_key_intro<T: Element>(s: Seq<T>, i: int)
    requires
        0 <= i < s.len(),
    ensures
        has_key(s, s[i].key()),
{
    assert(0 <= i < s.len() && s[i].key() == s[i].key());
}

/// Taking one more element of `s` adds exactly that element's key.
pub proof fn lemma_has_key_take_step<T: Element>(s: Seq<T>, i: int, k: int)
    requires
        0 <= i < s.len(),
    ensures
        has_key(s.take(i + 1), k) <==> has_key(s.take(i), k) || s[i].key() == k,
{
    if has_key(s.take(i + 1), k) {
        let w = lemma_has_key_witness(s.take(i + 1), k);
        if w < i {
            assert(s.take(i)[w].key() == k);
            lemma_has_key_intro(s.take(i), w);
        }
    }
    if has_key(s.take(i), k) {
        let w = lemma_has_key_witness(s.take(i), k);
        assert(s.take(i + 1)[w].key() == k);
        lemma_has_key_intro(s.take(i + 1), w);
    }
    if s[i].key() == k {
        assert(s.take(i + 1)[i].key() == k);
        lemma_has_key_intro(s.take(i + 1), i);
    }
}

/// Inserting `x` between the keys below and above it keeps the keys strictly
/// increasing, adds exactly the key of `x`, and adds exactly the member `x`.
pub proof fn lemma_sorted_insert<T: Element>(s: Seq<T>, i: int, x: T)
    requires
        sorted_keys(s),
        0 <= i <= s.len(),
        forall|j: int| 0 <= j < i ==> (#[trigger] s[j]).key() < x.key(),
        forall|j: int| i <= j < s.len() ==> (#[trigger] s[j]).key() > x.key(),
    ensures
        sorted_keys(s.insert(i, x)),
        forall|k: int| has_key(s.insert(i, x), k) <==> has_key(s, k) || x.key() == k,
        forall|y: T| s.insert(i, x).contains(y) <==> s.contains(y) || y == x,
{
    s.insert_ensures(i, x);
    let t = s.insert(i, x);
    assert forall|p: int, q: int| 0 <= p < q < t.len() implies t[p].key() < t[q].key() by {
        if q < i {
            assert(t[p] == s[p] && t[q] == s[q]);
        } else if p < i && q == i {
            assert(t[p] == s[p]);
        } else if p < i && q > i {
            assert(t[p] == s[p] && t[q] == s[q - 1]);
        } else if p == i {
            assert(t[q] == s[q - 1]);
        } else {
            assert(t[p] == s[p - 1] && t[q] == s[q - 1]);
        }
    }
    assert forall|k: int| has_key(t, k) implies has_key(s, k) || x.key() == k by {
        let w = lemma_has_key_witness(t, k);
        if w < i {
            assert(t[w] == s[w]);
            lemma_has_key_intro(s, w);
        } else if w > i {
            assert(t[w] == s[w - 1]);
            lemma_has_key_intro(s, w - 1);
        }
    }
    assert forall|k: int| has_key(s, k) implies has_key(t, k) by {
        let w = lemma_has_key_witness(s, k);
        if w < i {
            assert(t[w] == s[w]);
            lemma_has_key_intro(t, w);
        } else {
            assert(t[w + 1] == s[w]);
            lemma_has_key_intro(t, w + 1);
        }
    }
    assert(has_key(t, x.key())) by {
        assert(t[i] == x);
        lemma_has_key_intro(t, i);
    }
    assert forall|y: T| t.contains(y) implies s.contains(y) || y == x by {
        let w = choose|w: int| 0 <= w < t.len() && t[w] == y;
        if w < i {
            assert(s[w] == y);
        } else if w > i {
            assert(s[w - 1] == y);
        }
    }
    assert forall|y: T| s.contains(y) implies t.contains(y) by {
        let w = choose|w: int| 0 <= w < s.len() && s[w] == y;
        if w < i {
            assert(t[w] == y);
        } else {
            assert(t[w + 1] == y);
        }
    }
    assert(t.contains(x)) by {
        assert(t[i] == x);
    }
}

/// A sequence whose adjacent keys strictly increase has strictly increasing
/// keys throughout.
pub proof fn lemma_adjacent_implies_sorted<T: Element>(s: Seq<T>)
    requires
        forall|i: int| 0 <= i < s.len() - 1 ==> (#[trigger] s[i]).key() < s[i + 1].key(),
    ensures
        sorted_keys(s),
{
    assert forall|i: int, j: int| 0 <= i < j < s.len() implies s[i].key() < s[j].key() by {
        lemma_key_mono(s, i, j);
    }
}

/// Transitivity of the adjacent-key order.
proof fn lemma_key_mono<T: Element>(s: Seq<T>, i: int, j: int)
    requires
        forall|m: int| 0 <= m < s.len() - 1 ==> (#[trigger] s[m]).key() < s[m + 1].key(),
        0 <= i < j < s.len(),
    ensures
        s[i].key() < s[j].key(),
    decreases j - i,
{
    if i + 1 < j {
        lemma_key_mono(s, i + 1, j);
    }
}

/// Filtering keeps a sequence whose members all satisfy the predicate.
pub proof fn lemma_filter_all_true<T>(s: Seq<T>, pred: spec_fn(T) -> bool)
    requires
        forall|i: int| 0 <= i < s.len() ==> pred(#[trigger] s[i]),
    ensures
        s.filter(pred) == s,
    decreases s.len(),
{
    reveal(Seq::filter);
    if s.len() > 0 {
        lemma_filter_all_true(s.drop_last(), pred);
        assert(s.drop_last().push(s.last()) =~= s);
    }
}

/// Filtering drops a sequence none of whose members satisfy the predicate.
pub proof fn lemma_filter_all_false<T>(s: Seq<T>, pred: spec_fn(T) -> bool)
    requires
        forall|i: int| 0 <= i < s.len() ==> !pred(#[trigger] s[i]),
    ensures
        s.filter(pred) == Seq::<T>::empty(),
    decreases s.len(),
{
    reveal(Seq::filter);
    if s.len() > 0 {
        lemma_filter_all_false(s.drop_last(), pred);
    }
}

/// One step of filtering a growing prefix: taking one more element appends it
/// to the filtered prefix exactly when it satisfies the predicate.
pub proof fn lemma_filter_take_step<T>(s: Seq<T>, i: int, pred: spec_fn(T) -> bool)
    requires
        0 <= i < s.len(),
    ensures
        s.take(i + 1).filter(pred) == if pred(s[i]) {
            s.take(i).filter(pred).push(s[i])
        } else {
            s.take(i).filter(pred)
        },
{
    reveal(Seq::filter);
    assert(s.take(i + 1).drop_last() =~= s.take(i));
    assert(s.take(i + 1).last() == s[i]);
}

/// A predicate that holds exactly on the indices of `[l, r)` filters a
/// sequence down to that very interval.
pub proof fn lemma_filter_interval<T>(s: Seq<T>, pred: spec_fn(T) -> bool, l: int, r: int)
    requires
        0 <= l <= r <= s.len(),
        forall|j: int| 0 <= j < s.len() ==> (pred(#[trigger] s[j]) <==> l <= j < r),
    ensures
        s.filter(pred) == s.subrange(l, r),
{
    let a = s.take(l);
    let b = s.subrange(l, r);
    let c = s.skip(r);
    assert(s =~= (a + b) + c);
    Seq::filter_distributes_over_add(a + b, c, pred);
    Seq::filter_distributes_over_add(a, b, pred);
    lemma_filter_all_false(a, pred);
    lemma_filter_all_true(b, pred);
    lemma_filter_all_false(c, pred);
    assert(s.filter(pred) =~= b);
}

/// Concatenating two key-sorted sequences, the first ending below the
/// second's start, yields a key-sorted sequence.
pub proof fn lemma_sorted_append<T: Element>(a: Seq<T>, b: Seq<T>)
    requires
        sorted_keys(a),
        sorted_keys(b),
        a.len() > 0 && b.len() > 0 ==> a.last().key() < b[0].key(),
    ensures
        sorted_keys(a + b),
{
    assert forall|i: int, j: int| 0 <= i < j < (a + b).len() implies (a + b)[i].key() < (a
        + b)[j].key() by {
        if j < a.len() {
            assert((a + b)[i] == a[i] && (a + b)[j] == a[j]);
        } else if i >= a.len() {
            assert((a + b)[i] == b[i - a.len()] && (a + b)[j] == b[j - a.len()]);
        } else {
            assert((a + b)[i] == a[i] && (a + b)[j] == b[j - a.len()]);
            assert(a[i].key() <= a.last().key());
            assert(b[0].key() <= b[j - a.len()].key());
        }
    }
}

/// Membership in a concatenation is membership in either part.
pub proof fn lemma_contains_concat<T>(a: Seq<T>, b: Seq<T>, x: T)
    ensures
        (a + b).contains(x) <==> a.contains(x) || b.contains(x),
{
    if (a + b).contains(x) {
        let w = choose|w: int| 0 <= w < (a + b).len() && (a + b)[w] == x;
        if w < a.len() {
            assert(a[w] == x);
        } else {
            assert(b[w - a.len()] == x);
        }
    }
    if a.contains(x) {
        let w = choose|w: int| 0 <= w < a.len() && a[w] == x;
        assert((a + b)[w] == x);
    }
    if b.contains(x) {
        let w = choose|w: int| 0 <= w < b.len() && b[w] == x;
        assert((a + b)[a.len() + w] == x);
    }
}

/// Membership in a longer prefix splits into the shorter prefix and the gap.
pub proof fn lemma_take_split<T>(s: Seq<T>, i: int, j: int, x: T)
    requires
        0 <= i <= j <= s.len(),
    ensures
        s.take(j).contains(x) <==> s.take(i).contains(x) || s.subrange(i, j).contains(x),
{
    assert(s.take(j) =~= s.take(i) + s.subrange(i, j));
    lemma_contains_concat(s.take(i), s.subrange(i, j), x);
}

/// The position in `s` of a member of one of its subranges.
pub proof fn lemma_subrange_witness<T>(s: Seq<T>, i: int, j: int, x: T) -> (w: int)
    requires
        0 <= i <= j <= s.len(),
        s.subrange(i, j).contains(x),
    ensures
        i <= w < j,
        s[w] == x,
{
    let t = choose|t: int| 0 <= t < s.subrange(i, j).len() && s.subrange(i, j)[t] == x;
    i + t
}

/// A subrange of a key-sorted sequence is key-sorted.
pub proof fn lemma_subrange_sorted<T: Element>(s: Seq<T>, i: int, j: int)
    requires
        sorted_keys(s),
        0 <= i <= j <= s.len(),
    ensures
        sorted_keys(s.subrange(i, j)),
{
    assert forall|p: int, q: int| 0 <= p < q < s.subrange(i, j).len() implies s.subrange(
        i,
        j,
    )[p].key() < s.subrange(i, j)[q].key() by {
        assert(s.subrange(i, j)[p] == s[i + p]);
        assert(s.subrange(i, j)[q] == s[i + q]);
    }
}

/// Every member of a filtered sequence is a member of the sequence.
pub proof fn lemma_filter_subset<T>(s: Seq<T>, pred: spec_fn(T) -> bool, x: T)
    requires
        s.filter(pred).contains(x),
    ensures
        s.contains(x),
        pred(x),
    decreases s.len(),
{
    reveal(Seq::filter);
    if s.len() > 0 {
        let dl = s.drop_last();
        if pred(s.last()) && x == s.last() {
            assert(s.contains(x)) by {
                assert(s[s.len() - 1] == x);
            }
        } else {
            assert(dl.filter(pred).contains(x)) by {
                if pred(s.last()) {
                    let w = choose|w: int|
                        0 <= w < s.filter(pred).len() && s.filter(pred)[w] == x;
                    assert(dl.filter(pred)[w] == x);
                }
            }
            lemma_filter_subset(dl, pred, x);
            let w = choose|w: int| 0 <= w < dl.len() && dl[w] == x;
            assert(s[w] == x);
        }
    }
}

/// Membership in a filtered sequence is membership plus the predicate.
pub proof fn lemma_filter_mem<T>(s: Seq<T>, pred: spec_fn(T) -> bool, x: T)
    ensures
        s.filter(pred).contains(x) <==> s.contains(x) && pred(x),
    decreases s.len(),
{
    reveal(Seq::filter);
    if s.filter(pred).contains(x) {
        lemma_filter_subset(s, pred, x);
    }
    if s.len() > 0 && s.contains(x) && pred(x) {
        let dl = s.drop_last();
        if x == s.last() {
            assert(s.filter(pred)[s.filter(pred).len() - 1] == x);
        } else {
            assert(dl.contains(x)) by {
                let w = choose|w: int| 0 <= w < s.len() && s[w] == x;
                assert(dl[w] == x);
            }
            lemma_filter_mem(dl, pred, x);
            let w = choose|w: int| 0 <= w < dl.filter(pred).len() && dl.filter(pred)[w] == x;
            assert(s.filter(pred)[w] == x);
        }
    }
}

/// Filtering a key-sorted sequence yields a key-sorted sequence.
pub proof fn lemma_filter_sorted<T: Element>(s: Seq<T>, pred: spec_fn(T) -> bool)
    requires
        sorted_keys(s),
    ensures
        sorted_keys(s.filter(pred)),
    decreases s.len(),
{
    reveal(Seq::filter);
    if s.len() > 0 {
        let dl = s.drop_last();
        lemma_filter_sorted(dl, pred);
        if pred(s.last()) {
            let f = dl.filter(pred);
            assert forall|i: int, j: int|
                0 <= i < j < f.push(s.last()).len() implies f.push(s.last())[i].key() < f.push(
                s.last(),
            )[j].key() by {
                if j < f.len() {
                    assert(f.push(s.last())[i] == f[i] && f.push(s.last())[j] == f[j]);
                } else {
                    assert(f.push(s.last())[j] == s.last());
                    assert(f.contains(f[i])) by {
                        assert(f[i] == f[i]);
                    }
                    lemma_filter_subset(dl, pred, f[i]);
                    let w = choose|w: int| 0 <= w < dl.len() && dl[w] == f[i];
                    assert(s[w] == f[i]);
                    assert(s[w].key() < s.last().key());
                }
            }
        }
    }
}

/// Filtering a sequence with nondecreasing keys yields a sequence with
/// nondecreasing keys.
pub proof fn lemma_filter_nondec<T: Element>(s: Seq<T>, pred: spec_fn(T) -> bool)
    requires
        nondec_keys(s),
    ensures
        nondec_keys(s.filter(pred)),
    decreases s.len(),
{
    reveal(Seq::filter);
    if s.len() > 0 {
        let dl = s.drop_last();
        lemma_filter_nondec(dl, pred);
        if pred(s.last()) {
            let f = dl.filter(pred);
            assert forall|i: int, j: int|
                0 <= i < j < f.push(s.last()).len() implies f.push(s.last())[i].key() <= f.push(
                s.last(),
            )[j].key() by {
                if j < f.len() {
                    assert(f.push(s.last())[i] == f[i] && f.push(s.last())[j] == f[j]);
                } else {
                    assert(f.push(s.last())[j] == s.last());
                    assert(f.contains(f[i])) by {
                        assert(f[i] == f[i]);
                    }
                    lemma_filter_subset(dl, pred, f[i]);
                    let w = choose|w: int| 0 <= w < dl.len() && dl[w] == f[i];
                    assert(s[w] == f[i]);
                    assert(s[w].key() <= s.last().key());
                }
            }
        }
    }
}

/// Strictly increasing keys never decrease.
pub proof fn lemma_sorted_implies_nondec<T: Element>(s: Seq<T>)
    requires
        sorted_keys(s),
    ensures
        nondec_keys(s),
{
}

/// Two sequences with strictly increasing keys and the same members are equal.
pub proof fn lemma_sorted_same_members<T: Element>(s1: Seq<T>, s2: Seq<T>)
    requires
        sorted_keys(s1),
        sorted_keys(s2),
        forall|x: T| s1.contains(x) <==> s2.contains(x),
    ensures
        s1 == s2,
    decreases s1.len(),
{
    if s1.len() == 0 {
        if s2.len() > 0 {
            assert(s2.contains(s2[0]));
        }
        assert(s1 =~= s2);
    } else if s2.len() == 0 {
        assert(s1.contains(s1[0]));
    } else {
        assert(s1.contains(s1[0]));
        assert(s2.contains(s2[0]));
        let i1 = choose|i: int| 0 <= i < s2.len() && s2[i] == s1[0];
        let i2 = choose|i: int| 0 <= i < s1.len() && s1[i] == s2[0];
        assert(s2[i1] == s1[0] && 0 <= i1 < s2.len());
        assert(s1[i2] == s2[0] && 0 <= i2 < s1.len());
        assert(s1[0] == s2[0]) by {
            if i1 > 0 {
                assert(s2[0].key() < s2[i1].key());
            }
            if i2 > 0 {
                assert(s1[0].key() < s1[i2].key());
            }
        }
        assert forall|x: T| s1.drop_first().contains(x) <==> s2.drop_first().contains(x) by {
            lemma_tail_contains(s1, x);
            lemma_tail_contains(s2, x);
        }
        lemma_sorted_same_members(s1.drop_first(), s2.drop_first());
        assert forall|i: int| 0 <= i < s1.len() implies s1[i] == s2[i] by {
            if i > 0 {
                assert(s1.drop_first()[i - 1] == s2.drop_first()[i - 1]);
            }
        }
        assert(s1 =~= s2);
    }
}

/// In a sequence with strictly increasing keys, the tail holds exactly the
/// members whose key exceeds the head's key.
proof fn lemma_tail_contains<T: Element>(s: Seq<T>, x: T)
    requires
        sorted_keys(s),
        s.len() > 0,
    ensures
        s.drop_first().contains(x) <==> s.contains(x) && x.key() > s[0].key(),
{
    if s.drop_first().contains(x) {
        let i = choose|i: int| 0 <= i < s.drop_first().len() && s.drop_first()[i] == x;
        assert(s[i + 1] == x);
        assert(s.contains(x));
    }
    if s.contains(x) && x.key() > s[0].key() {
        let i = choose|i: int| 0 <= i < s.len() && s[i] == x;
        assert(i > 0);
        assert(s.drop_first()[i - 1] == x);
    }
}

} // verus!
