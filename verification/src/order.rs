//! A stable insertion sort for values that say how they are ordered.

use vstd::prelude::*;
use crate::text::{chars_less, text_less};

verus! {

/// A type with an order used for sorting.
pub trait SortKey {
    /// Whether `self` may stand before `other`.
    spec fn key_le(&self, other: &Self) -> bool;

    /// Exec form of [`SortKey::key_le`].
    fn sorts_before(&self, other: &Self) -> (r: bool)
        ensures
            r == self.key_le(other);
}

/// The first position in `s` whose element must stand after `x` under `le`.
pub open spec fn insert_position_by<T>(s: Seq<T>, x: T, le: spec_fn(T, T) -> bool) -> int
    decreases s.len(),
{
    if s.len() == 0 {
        0
    } else if !le(s[0], x) {
        0
    } else {
        1 + insert_position_by(s.drop_first(), x, le)
    }
}

/// A stable sort under `le`: each element in turn goes after every earlier one
/// that may stand before it.
pub open spec fn stable_sort_by<T>(s: Seq<T>, le: spec_fn(T, T) -> bool) -> Seq<T>
    decreases s.len(),
{
    if s.len() == 0 {
        s
    } else {
        let sorted = stable_sort_by(s.drop_last(), le);
        sorted.insert(insert_position_by(sorted, s.last(), le), s.last())
    }
}

/// The order a [`SortKey`] type states.
pub open spec fn key_order<T: SortKey>() -> spec_fn(T, T) -> bool {
    |a: T, b: T| a.key_le(&b)
}

/// The first position in `s` whose element must stand after `x`.
pub open spec fn insert_position<T: SortKey>(s: Seq<T>, x: T) -> int {
    insert_position_by(s, x, key_order::<T>())
}

/// A stable sort by a [`SortKey`] order.
pub open spec fn stable_sort<T: SortKey>(s: Seq<T>) -> Seq<T> {
    stable_sort_by(s, key_order::<T>())
}

proof fn lemma_insert_position_by<T>(s: Seq<T>, x: T, le: spec_fn(T, T) -> bool)
    ensures
        0 <= insert_position_by(s, x, le) <= s.len(),
    decreases s.len(),
{
    if s.len() > 0 && le(s[0], x) {
        lemma_insert_position_by(s.drop_first(), x, le);
    }
}

proof fn lemma_insert_position<T: SortKey>(s: Seq<T>, x: T)
    ensures
        0 <= insert_position(s, x) <= s.len(),
{
    lemma_insert_position_by(s, x, key_order::<T>());
}

/// Sorting keeps every element.
pub proof fn lemma_stable_sort_keeps<T: SortKey>(s: Seq<T>)
    ensures
        stable_sort(s).to_multiset() == s.to_multiset(),
        stable_sort(s).len() == s.len(),
    decreases s.len(),
{
    broadcast use vstd::seq_lib::group_to_multiset_ensures;
    if s.len() > 0 {
        let prefix = s.drop_last();
        lemma_stable_sort_keeps(prefix);
        let sorted = stable_sort(prefix);
        lemma_insert_position(sorted, s.last());
        assert(s == prefix.push(s.last()));
    }
}

proof fn lemma_insert_position_map<A, B>(
    s: Seq<A>,
    x: A,
    f: spec_fn(A) -> B,
    la: spec_fn(A, A) -> bool,
    lb: spec_fn(B, B) -> bool,
)
    requires
        forall|a1: A, a2: A| #[trigger] la(a1, a2) == lb(f(a1), f(a2)),
    ensures
        insert_position_by(s.map_values(f), f(x), lb) == insert_position_by(s, x, la),
    decreases s.len(),
{
    if s.len() > 0 {
        assert(s.map_values(f).drop_first() =~= s.drop_first().map_values(f));
        assert(la(s[0], x) == lb(f(s[0]), f(x)));
        lemma_insert_position_map(s.drop_first(), x, f, la, lb);
    }
}

/// Sorting commutes with a map that preserves the order.
pub proof fn lemma_stable_sort_map<A, B>(
    s: Seq<A>,
    f: spec_fn(A) -> B,
    la: spec_fn(A, A) -> bool,
    lb: spec_fn(B, B) -> bool,
)
    requires
        forall|a1: A, a2: A| #[trigger] la(a1, a2) == lb(f(a1), f(a2)),
    ensures
        stable_sort_by(s, la).map_values(f) == stable_sort_by(s.map_values(f), lb),
    decreases s.len(),
{
    if s.len() > 0 {
        let prefix = s.drop_last();
        lemma_stable_sort_map(prefix, f, la, lb);
        assert(s.map_values(f).drop_last() =~= prefix.map_values(f));
        let sorted = stable_sort_by(prefix, la);
        lemma_insert_position_map(sorted, s.last(), f, la, lb);
        lemma_insert_position_by(sorted, s.last(), la);
        let p = insert_position_by(sorted, s.last(), la);
        assert(sorted.insert(p, s.last()).map_values(f) =~= sorted.map_values(f).insert(p, f(s.last())));
    }
}

/// Sorts `v` stably.
pub fn sort_stable<T: SortKey>(v: Vec<T>) -> (r: Vec<T>)
    ensures
        r@ == stable_sort(v@),
{
    let ghost all = v@;
    let n = v.len();
    let mut src = v;
    let mut rest: Vec<T> = Vec::new();
    while src.len() > 0
        invariant
            all =~= src@ + rest@.reverse(),
        decreases src.len(),
    {
        let ghost before = rest@;
        let x = src.pop().unwrap();
        rest.push(x);
        assert(rest@.reverse() =~= seq![x] + before.reverse());
    }
    let mut sorted: Vec<T> = Vec::new();
    let mut taken: usize = 0;
    assert(all.take(0) =~= Seq::<T>::empty());
    while taken < n
        invariant
            n == all.len(),
            taken <= n,
            rest@ =~= all.subrange(taken as int, n as int).reverse(),
            sorted@ == stable_sort(all.take(taken as int)),
        decreases n - taken,
    {
        let x = rest.pop().unwrap();
        assert(x == all[taken as int]);
        let ghost prev = sorted@;
        let mut p: usize = 0;
        proof { lemma_insert_position(prev, x); }
        assert(prev.skip(0) =~= prev);
        while p < sorted.len() && sorted[p].sorts_before(&x)
            invariant
                sorted@ == prev,
                p <= prev.len(),
                insert_position(prev, x) == p + insert_position(prev.skip(p as int), x),
            decreases prev.len() - p,
        {
            assert(prev.skip(p as int).drop_first() =~= prev.skip(p + 1));
            p += 1;
        }
        proof {
            if p < prev.len() {
                assert(prev.skip(p as int)[0] == prev[p as int]);
            }
        }
        sorted.insert(p, x);
        assert(all.take(taken + 1).drop_last() =~= all.take(taken as int));
        taken += 1;
    }
    assert(all.take(n as int) =~= all);
    sorted
}


/// Text in character order.
pub open spec fn text_le() -> spec_fn(Seq<char>, Seq<char>) -> bool {
    |a: Seq<char>, b: Seq<char>| !chars_less(b, a)
}

impl SortKey for String {
    open spec fn key_le(&self, other: &Self) -> bool {
        !chars_less(other@, self@)
    }

    fn sorts_before(&self, other: &Self) -> (r: bool) {
        !text_less(other.as_str(), self.as_str())
    }
}

/// Sorts strings stably in character order.
pub fn sort_texts(v: Vec<String>) -> (r: Vec<String>)
    ensures
        r@.map_values(|s: String| s@) == stable_sort_by(v@.map_values(|s: String| s@), text_le()),
{
    let ghost f = |s: String| s@;
    proof {
        assert forall|a1: String, a2: String| #[trigger] key_order::<String>()(a1, a2) == text_le()(f(a1), f(a2)) by {}
        lemma_stable_sort_map(v@, f, key_order::<String>(), text_le());
    }
    let r = sort_stable(v);
    assert(r@.map_values(|s: String| s@) =~= r@.map_values(f));
    assert(v@.map_values(|s: String| s@) =~= v@.map_values(f));
    r
}


/// The elements of `v` in reverse order, so that popping yields them first to
/// last.
pub fn reversed<T>(v: Vec<T>) -> (r: Vec<T>)
    ensures
        r@ == v@.reverse(),
{
    let ghost all = v@;
    let mut src = v;
    let mut rest: Vec<T> = Vec::new();
    while src.len() > 0
        invariant
            all =~= src@ + rest@.reverse(),
        decreases src.len(),
    {
        let ghost before = rest@;
        let x = src.pop().unwrap();
        rest.push(x);
        assert(rest@.reverse() =~= seq![x] + before.reverse());
    }
    assert(rest@.reverse().reverse() =~= rest@);
    rest
}


/// Whether `le` orders every pair and is transitive.
pub open spec fn total_preorder<T>(le: spec_fn(T, T) -> bool) -> bool {
    &&& forall|a: T, b: T| #[trigger] le(a, b) || le(b, a)
    &&& forall|a: T, b: T, c: T| #[trigger] le(a, b) && #[trigger] le(b, c) ==> le(a, c)
}

proof fn lemma_insert_position_split<T>(s: Seq<T>, x: T, le: spec_fn(T, T) -> bool)
    ensures
        forall|i: int| 0 <= i < insert_position_by(s, x, le) ==> le(#[trigger] s[i], x),
        insert_position_by(s, x, le) < s.len() ==> !le(s[insert_position_by(s, x, le)], x),
    decreases s.len(),
{
    lemma_insert_position_by(s, x, le);
    if s.len() > 0 && le(s[0], x) {
        lemma_insert_position_by(s.drop_first(), x, le);
        lemma_insert_position_split(s.drop_first(), x, le);
        assert(s.drop_first().len() == s.len() - 1);
        assert forall|i: int| 0 <= i < insert_position_by(s, x, le) implies le(#[trigger] s[i], x) by {
            if i > 0 {
                assert(s[i] == s.drop_first()[i - 1]);
            }
        }
    }
}

/// A stable sort by a total preorder puts its result in order.
pub proof fn lemma_stable_sort_sorted<T>(s: Seq<T>, le: spec_fn(T, T) -> bool)
    requires
        total_preorder(le),
    ensures
        forall|i: int, j: int| 0 <= i < j < stable_sort_by(s, le).len() ==> le(
            #[trigger] stable_sort_by(s, le)[i],
            #[trigger] stable_sort_by(s, le)[j],
        ),
        stable_sort_by(s, le).len() == s.len(),
    decreases s.len(),
{
    if s.len() > 0 {
        let prefix = s.drop_last();
        lemma_stable_sort_sorted(prefix, le);
        let sorted = stable_sort_by(prefix, le);
        let x = s.last();
        lemma_insert_position_by(sorted, x, le);
        lemma_insert_position_split(sorted, x, le);
        let p = insert_position_by(sorted, x, le);
        let r = sorted.insert(p, x);
        assert(r == stable_sort_by(s, le));
        assert forall|i: int, j: int| 0 <= i < j < r.len() implies le(#[trigger] r[i], #[trigger] r[j]) by {
            if j < p {
                assert(r[i] == sorted[i] && r[j] == sorted[j]);
            } else if j == p {
                assert(r[i] == sorted[i]);
            } else if i == p {
                assert(r[j] == sorted[j - 1]);
                assert(!le(sorted[p], x));
                assert(le(x, sorted[p]));
                if j - 1 > p {
                    assert(le(sorted[p], sorted[j - 1]));
                }
            } else if i < p {
                assert(r[i] == sorted[i] && r[j] == sorted[j - 1]);
            } else {
                assert(r[i] == sorted[i - 1] && r[j] == sorted[j - 1]);
            }
        }
    }
}


/// Sorting by any order keeps every element.
pub proof fn lemma_stable_sort_by_keeps<T>(s: Seq<T>, le: spec_fn(T, T) -> bool)
    ensures
        stable_sort_by(s, le).to_multiset() == s.to_multiset(),
        stable_sort_by(s, le).len() == s.len(),
    decreases s.len(),
{
    broadcast use vstd::seq_lib::group_to_multiset_ensures;
    if s.len() > 0 {
        let prefix = s.drop_last();
        lemma_stable_sort_by_keeps(prefix, le);
        let sorted = stable_sort_by(prefix, le);
        lemma_insert_position_by(sorted, s.last(), le);
        assert(s == prefix.push(s.last()));
        vstd::seq_lib::to_multiset_insert(sorted, insert_position_by(sorted, s.last(), le), s.last());
    }
}

/// Two sequences in order under `le`, holding the same elements, are equal
/// when no two distinct elements are ordered both ways.
pub proof fn lemma_sorted_unique<T>(s1: Seq<T>, s2: Seq<T>, le: spec_fn(T, T) -> bool)
    requires
        s1.to_multiset() == s2.to_multiset(),
        forall|i: int, j: int| 0 <= i < j < s1.len() ==> le(#[trigger] s1[i], #[trigger] s1[j]),
        forall|i: int, j: int| 0 <= i < j < s2.len() ==> le(#[trigger] s2[i], #[trigger] s2[j]),
        forall|a: T, b: T| s1.contains(a) && s1.contains(b) && le(a, b) && le(b, a) ==> a == b,
    ensures
        s1 == s2,
    decreases s1.len(),
{
    broadcast use vstd::seq_lib::group_to_multiset_ensures;
    assert(s1.len() == s1.to_multiset().len());
    assert(s2.len() == s2.to_multiset().len());
    if s1.len() == 0 {
        assert(s1 =~= s2);
    } else {
        let a = s1[0];
        let b = s2[0];
        assert(s1.contains(a));
        assert(s1.to_multiset().count(a) > 0);
        assert(s2.contains(a));
        assert(s2.contains(b));
        assert(s2.to_multiset().count(b) > 0);
        assert(s1.contains(b));
        let ka = choose|k: int| 0 <= k < s2.len() && s2[k] == a;
        let kb = choose|k: int| 0 <= k < s1.len() && s1[k] == b;
        if a != b {
            assert(ka != 0);
            assert(kb != 0);
            assert(le(s2[0], s2[ka]));
            assert(le(s1[0], s1[kb]));
        }
        assert(a == b);
        let t1 = s1.remove(0);
        let t2 = s2.remove(0);
        assert(t1.to_multiset() == s1.to_multiset().remove(a));
        assert(t2.to_multiset() == s2.to_multiset().remove(b));
        assert forall|i: int, j: int| 0 <= i < j < t1.len() implies le(#[trigger] t1[i], #[trigger] t1[j]) by {
            assert(t1[i] == s1[i + 1] && t1[j] == s1[j + 1]);
        }
        assert forall|i: int, j: int| 0 <= i < j < t2.len() implies le(#[trigger] t2[i], #[trigger] t2[j]) by {
            assert(t2[i] == s2[i + 1] && t2[j] == s2[j + 1]);
        }
        assert forall|x: T, y: T| t1.contains(x) && t1.contains(y) && le(x, y) && le(y, x) implies x == y by {
            let ix = choose|k: int| 0 <= k < t1.len() && t1[k] == x;
            let iy = choose|k: int| 0 <= k < t1.len() && t1[k] == y;
            assert(s1[ix + 1] == x);
            assert(s1[iy + 1] == y);
            assert(s1.contains(x));
            assert(s1.contains(y));
        }
        lemma_sorted_unique(t1, t2, le);
        assert(s1 =~= seq![a] + t1);
        assert(s2 =~= seq![b] + t2);
    }
}

/// Stable sorting by a total preorder gives the same result for any
/// arrangement of the same elements, when no two distinct elements are
/// ordered both ways.
pub proof fn lemma_stable_sort_ignores_arrangement<T>(s1: Seq<T>, s2: Seq<T>, le: spec_fn(T, T) -> bool)
    requires
        total_preorder(le),
        s1.to_multiset() == s2.to_multiset(),
        forall|a: T, b: T| s1.contains(a) && s1.contains(b) && le(a, b) && le(b, a) ==> a == b,
    ensures
        stable_sort_by(s1, le) == stable_sort_by(s2, le),
{
    broadcast use vstd::seq_lib::group_to_multiset_ensures;
    lemma_stable_sort_by_keeps(s1, le);
    lemma_stable_sort_by_keeps(s2, le);
    lemma_stable_sort_sorted(s1, le);
    lemma_stable_sort_sorted(s2, le);
    let r1 = stable_sort_by(s1, le);
    let r2 = stable_sort_by(s2, le);
    assert forall|a: T, b: T| r1.contains(a) && r1.contains(b) && le(a, b) && le(b, a) implies a == b by {
        assert(r1.to_multiset().count(a) > 0);
        assert(r1.to_multiset().count(b) > 0);
        assert(s1.contains(a));
        assert(s1.contains(b));
    }
    lemma_sorted_unique(r1, r2, le);
}

} // verus!
