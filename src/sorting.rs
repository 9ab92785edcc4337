//! Stable insertion sort, as a specification.
//!
//! `before(x, y)` says that `x` must come before `y`. Elements are taken in
//! order and each one is placed after every element that it need not
//! precede, so elements that are not ordered either way keep their order.
use vstd::multiset::Multiset;
use vstd::prelude::*;

verus! {

/// `s` with `x` inserted after the last element that `x` need not precede.
pub open spec fn insert_stable<T>(s: Seq<T>, x: T, before: spec_fn(T, T) -> bool) -> Seq<T>
    decreases s.len(),
{
    if s.len() == 0 {
        seq![x]
    } else if before(x, s.last()) {
        insert_stable(s.drop_last(), x, before).push(s.last())
    } else {
        s.push(x)
    }
}

/// The stable sort of `s`.
pub open spec fn sort_stable<T>(s: Seq<T>, before: spec_fn(T, T) -> bool) -> Seq<T>
    decreases s.len(),
{
    if s.len() == 0 {
        Seq::empty()
    } else {
        insert_stable(sort_stable(s.drop_last(), before), s.last(), before)
    }
}

/// Where the insertion lands, given the position found by scanning back.
pub proof fn lemma_insert_stable_at<T>(
    s: Seq<T>,
    x: T,
    before: spec_fn(T, T) -> bool,
    j: int,
)
    requires
        0 <= j <= s.len(),
        forall|k: int| j <= k < s.len() ==> before(x, #[trigger] s[k]),
        j > 0 ==> !before(x, s[j - 1]),
    ensures
        insert_stable(s, x, before) == s.insert(j, x),
    decreases s.len(),
{
    if s.len() == 0 {
        assert(s.insert(j, x) =~= seq![x]);
    } else if j == s.len() {
        assert(s.insert(j, x) =~= s.push(x));
    } else {
        let t = s.drop_last();
        assert(before(x, s[s.len() - 1]));
        assert forall|k: int| j <= k < t.len() implies before(x, #[trigger] t[k]) by {
            assert(t[k] == s[k]);
        }
        if j > 0 {
            assert(t[j - 1] == s[j - 1]);
        }
        lemma_insert_stable_at(t, x, before, j);
        assert(t.insert(j, x).push(s.last()) =~= s.insert(j, x));
    }
}

/// Taking one more element of the input inserts it into the sorted prefix.
pub proof fn lemma_sort_stable_step<T>(s: Seq<T>, i: int, before: spec_fn(T, T) -> bool)
    requires
        0 <= i < s.len(),
    ensures
        sort_stable(s.take(i + 1), before) == insert_stable(sort_stable(s.take(i), before), s[i], before),
{
    assert(s.take(i + 1).drop_last() =~= s.take(i));
}

pub proof fn lemma_insert_stable_preserves<T>(
    s: Seq<T>,
    x: T,
    before: spec_fn(T, T) -> bool,
    p: spec_fn(T) -> bool,
)
    requires
        forall|k: int| 0 <= k < s.len() ==> p(#[trigger] s[k]),
        p(x),
    ensures
        insert_stable(s, x, before).len() == s.len() + 1,
        forall|k: int|
            0 <= k < insert_stable(s, x, before).len() ==> p(#[trigger] insert_stable(s, x, before)[k]),
    decreases s.len(),
{
    if s.len() > 0 && before(x, s.last()) {
        let t = s.drop_last();
        assert forall|k: int| 0 <= k < t.len() implies p(#[trigger] t[k]) by {
            assert(t[k] == s[k]);
        }
        lemma_insert_stable_preserves(t, x, before, p);
        assert(p(s[s.len() - 1]));
    } else if s.len() > 0 {
        assert forall|k: int| 0 <= k < s.len() + 1 implies p(#[trigger] s.push(x)[k]) by {
            if k < s.len() {
                assert(s.push(x)[k] == s[k]);
            }
        }
    }
}

/// Sorting keeps the length, and a property held by every element.
pub proof fn lemma_sort_stable_preserves<T>(
    s: Seq<T>,
    before: spec_fn(T, T) -> bool,
    p: spec_fn(T) -> bool,
)
    requires
        forall|k: int| 0 <= k < s.len() ==> p(#[trigger] s[k]),
    ensures
        sort_stable(s, before).len() == s.len(),
        forall|k: int| 0 <= k < s.len() ==> p(#[trigger] sort_stable(s, before)[k]),
    decreases s.len(),
{
    if s.len() > 0 {
        let t = s.drop_last();
        assert forall|k: int| 0 <= k < t.len() implies p(#[trigger] t[k]) by {
            assert(t[k] == s[k]);
        }
        lemma_sort_stable_preserves(t, before, p);
        assert(p(s[s.len() - 1]));
        lemma_insert_stable_preserves(sort_stable(t, before), s.last(), before, p);
    }
}

/// No element must come before an earlier one.
pub open spec fn sorted_by<T>(s: Seq<T>, before: spec_fn(T, T) -> bool) -> bool {
    forall|i: int, j: int| 0 <= i < j < s.len() ==> !before(#[trigger] s[j], #[trigger] s[i])
}

/// `before` is a strict weak order: asymmetric, and "need not precede" is
/// transitive.
pub open spec fn strict_weak_order<T>(before: spec_fn(T, T) -> bool) -> bool {
    &&& forall|x: T, y: T| #[trigger] before(x, y) ==> !before(y, x)
    &&& forall|x: T, y: T, z: T|
        #![trigger before(x, y), before(y, z)]
        !before(x, y) && !before(y, z) ==> !before(x, z)
}

proof fn lemma_insert_stable_sorted<T>(s: Seq<T>, x: T, before: spec_fn(T, T) -> bool)
    requires
        sorted_by(s, before),
        strict_weak_order(before),
    ensures
        sorted_by(insert_stable(s, x, before), before),
    decreases s.len(),
{
    if s.len() == 0 {
    } else if before(x, s.last()) {
        let t = s.drop_last();
        let l = s.last();
        assert forall|i: int, j: int| 0 <= i < j < t.len() implies !before(#[trigger] t[j], #[trigger] t[i]) by {
            assert(t[j] == s[j] && t[i] == s[i]);
        }
        lemma_insert_stable_sorted(t, x, before);
        assert forall|k: int| 0 <= k < t.len() implies (|e: T| !before(l, e))(#[trigger] t[k]) by {
            assert(t[k] == s[k]);
        }
        lemma_insert_stable_preserves(t, x, before, |e: T| !before(l, e));
        let u = insert_stable(t, x, before);
        assert forall|i: int, j: int| 0 <= i < j < u.len() + 1 implies !before(#[trigger] u.push(l)[j], #[trigger] u.push(l)[i]) by {
            if j < u.len() {
                assert(u.push(l)[j] == u[j] && u.push(l)[i] == u[i]);
            } else {
                assert(u.push(l)[i] == u[i]);
                assert((|e: T| !before(l, e))(u[i]));
            }
        }
    } else {
        let l = s.last();
        assert forall|i: int, j: int| 0 <= i < j < s.len() + 1 implies !before(#[trigger] s.push(x)[j], #[trigger] s.push(x)[i]) by {
            if j < s.len() {
                assert(s.push(x)[j] == s[j] && s.push(x)[i] == s[i]);
            } else {
                assert(s.push(x)[i] == s[i]);
                if i < s.len() - 1 {
                    assert(!before(l, s[i]));
                }
            }
        }
    }
}

/// The stable sort of a sequence is sorted.
pub proof fn lemma_sort_stable_sorted<T>(s: Seq<T>, before: spec_fn(T, T) -> bool)
    requires
        strict_weak_order(before),
    ensures
        sorted_by(sort_stable(s, before), before),
    decreases s.len(),
{
    if s.len() > 0 {
        lemma_sort_stable_sorted(s.drop_last(), before);
        lemma_insert_stable_sorted(sort_stable(s.drop_last(), before), s.last(), before);
    }
}

/// Sorting commutes with a map that keeps the order: `before` on the
/// images says what `before_a` says on the elements.
pub proof fn lemma_sort_stable_map<A, B>(
    s: Seq<A>,
    before_a: spec_fn(A, A) -> bool,
    before_b: spec_fn(B, B) -> bool,
    f: spec_fn(A) -> B,
)
    requires
        forall|x: A, y: A| #[trigger] before_a(x, y) == before_b(f(x), f(y)),
    ensures
        sort_stable(s, before_a).map_values(f) == sort_stable(s.map_values(f), before_b),
    decreases s.len(),
{
    if s.len() > 0 {
        lemma_sort_stable_map(s.drop_last(), before_a, before_b, f);
        assert(s.map_values(f).drop_last() =~= s.drop_last().map_values(f));
        lemma_insert_stable_map(sort_stable(s.drop_last(), before_a), s.last(), before_a, before_b, f);
    } else {
        assert(sort_stable(s, before_a).map_values(f) =~= Seq::<B>::empty());
    }
}

proof fn lemma_insert_stable_map<A, B>(
    s: Seq<A>,
    x: A,
    before_a: spec_fn(A, A) -> bool,
    before_b: spec_fn(B, B) -> bool,
    f: spec_fn(A) -> B,
)
    requires
        forall|x: A, y: A| #[trigger] before_a(x, y) == before_b(f(x), f(y)),
    ensures
        insert_stable(s, x, before_a).map_values(f) == insert_stable(s.map_values(f), f(x), before_b),
    decreases s.len(),
{
    let t = s.map_values(f);
    if s.len() == 0 {
        assert(insert_stable(s, x, before_a).map_values(f) =~= seq![f(x)]);
    } else {
        assert(t.last() == f(s.last()));
        assert(t.drop_last() =~= s.drop_last().map_values(f));
        assert(before_a(x, s.last()) == before_b(f(x), f(s.last())));
        if before_a(x, s.last()) {
            lemma_insert_stable_map(s.drop_last(), x, before_a, before_b, f);
            assert(insert_stable(s.drop_last(), x, before_a).push(s.last()).map_values(f)
                =~= insert_stable(s.drop_last(), x, before_a).map_values(f).push(f(s.last())));
        } else {
            assert(s.push(x).map_values(f) =~= t.push(f(x)));
        }
    }
}

proof fn lemma_insert_stable_multiset<T>(s: Seq<T>, x: T, before: spec_fn(T, T) -> bool)
    ensures
        insert_stable(s, x, before).to_multiset() == s.to_multiset().insert(x),
    decreases s.len(),
{
    broadcast use vstd::seq_lib::group_to_multiset_ensures;

    if s.len() > 0 && before(x, s.last()) {
        let t = s.drop_last();
        lemma_insert_stable_multiset(t, x, before);
        assert(t.push(s.last()) =~= s);
        assert(insert_stable(t, x, before).push(s.last()).to_multiset() =~= s.to_multiset().insert(x));
    }
}

/// A stable sort is a permutation: it holds the same elements, as often.
pub proof fn lemma_sort_stable_permutation<T>(s: Seq<T>, before: spec_fn(T, T) -> bool)
    ensures
        sort_stable(s, before).to_multiset() == s.to_multiset(),
    decreases s.len(),
{
    broadcast use vstd::seq_lib::group_to_multiset_ensures;

    if s.len() > 0 {
        let t = s.drop_last();
        lemma_sort_stable_permutation(t, before);
        lemma_insert_stable_multiset(sort_stable(t, before), s.last(), before);
        assert(t.push(s.last()) =~= s);
    } else {
        assert(s.to_multiset() =~= Multiset::empty());
        assert(sort_stable(s, before).to_multiset() =~= Multiset::empty());
    }
}

/// `s` with each element tagged by its position.
pub open spec fn tagged<T>(s: Seq<T>) -> Seq<(int, T)> {
    Seq::new(s.len(), |i: int| (i, s[i]))
}

/// Neither of two tagged elements need precede the other, yet the one with
/// the later tag comes first.
pub open spec fn out_of_order<T>(a: (int, T), b: (int, T), before: spec_fn(T, T) -> bool) -> bool {
    !before(a.1, b.1) && !before(b.1, a.1) && a.0 > b.0
}

/// No two elements of `u` that need not precede each other are out of
/// their tags' order.
pub open spec fn keeps_order<T>(u: Seq<(int, T)>, before: spec_fn(T, T) -> bool) -> bool {
    forall|i: int, j: int| 0 <= i < j < u.len() ==> !out_of_order(#[trigger] u[i], #[trigger] u[j], before)
}

proof fn lemma_insert_keeps_order<T>(s: Seq<(int, T)>, x: (int, T), before: spec_fn(T, T) -> bool)
    requires
        keeps_order(s, before),
        forall|k: int| 0 <= k < s.len() ==> (#[trigger] s[k]).0 < x.0,
    ensures
        keeps_order(insert_stable(s, x, |a: (int, T), b: (int, T)| before(a.1, b.1)), before),
    decreases s.len(),
{
    let tb = |a: (int, T), b: (int, T)| before(a.1, b.1);
    if s.len() == 0 {
    } else if tb(x, s.last()) {
        let t = s.drop_last();
        let l = s.last();
        assert forall|i: int, j: int| 0 <= i < j < t.len() implies !out_of_order(#[trigger] t[i], #[trigger] t[j], before) by {
            assert(t[i] == s[i] && t[j] == s[j]);
        }
        lemma_insert_keeps_order(t, x, before);
        let p = |e: (int, T)| !out_of_order(e, l, before);
        assert forall|k: int| 0 <= k < t.len() implies p(#[trigger] t[k]) by {
            assert(t[k] == s[k]);
            assert(!out_of_order(s[k], s[s.len() - 1], before));
        }
        lemma_insert_stable_preserves(t, x, tb, p);
        let u = insert_stable(t, x, tb);
        assert forall|i: int, j: int| 0 <= i < j < u.len() + 1 implies !out_of_order(#[trigger] u.push(l)[i], #[trigger] u.push(l)[j], before) by {
            if j < u.len() {
                assert(u.push(l)[j] == u[j] && u.push(l)[i] == u[i]);
            } else {
                assert(u.push(l)[i] == u[i]);
                assert(p(u[i]));
            }
        }
    } else {
        assert forall|i: int, j: int| 0 <= i < j < s.len() + 1 implies !out_of_order(#[trigger] s.push(x)[i], #[trigger] s.push(x)[j], before) by {
            if j < s.len() {
                assert(s.push(x)[j] == s[j] && s.push(x)[i] == s[i]);
            } else {
                assert(s.push(x)[i] == s[i]);
            }
        }
    }
}

/// The sort is stable: sorting the elements tagged by their positions
/// gives the sorted elements, and two of them that need not precede each
/// other keep the order they had in `s`.
pub proof fn lemma_sort_stable_keeps_order<T>(s: Seq<T>, before: spec_fn(T, T) -> bool)
    ensures
        sort_stable(tagged(s), |a: (int, T), b: (int, T)| before(a.1, b.1)).map_values(
            |p: (int, T)| p.1,
        ) == sort_stable(s, before),
        keeps_order(sort_stable(tagged(s), |a: (int, T), b: (int, T)| before(a.1, b.1)), before),
    decreases s.len(),
{
    let tb = |a: (int, T), b: (int, T)| before(a.1, b.1);
    let f = |p: (int, T)| p.1;
    lemma_sort_stable_map(tagged(s), tb, before, f);
    assert(tagged(s).map_values(f) =~= s);
    if s.len() > 0 {
        let t = s.drop_last();
        lemma_sort_stable_keeps_order(t, before);
        assert(tagged(s).drop_last() =~= tagged(t));
        let n = s.len() - 1;
        let low = |e: (int, T)| e.0 < n;
        assert forall|k: int| 0 <= k < tagged(t).len() implies low(#[trigger] tagged(t)[k]) by {}
        lemma_sort_stable_preserves(tagged(t), tb, low);
        let st = sort_stable(tagged(t), tb);
        assert forall|k: int| 0 <= k < st.len() implies (#[trigger] st[k]).0 < tagged(s).last().0 by {
            assert(low(st[k]));
        }
        lemma_insert_keeps_order(st, tagged(s).last(), before);
    }
}

} // verus!
