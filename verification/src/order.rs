//! Sorted sequences over a strict total order, and stable sorting.

use vstd::prelude::*;

verus! {

/// `lt` is irreflexive and transitive, and orders any two different values.
pub open spec fn strict_total<T>(lt: spec_fn(T, T) -> bool) -> bool {
    &&& forall|a: T| !#[trigger] lt(a, a)
    &&& forall|a: T, b: T, c: T| #[trigger] lt(a, b) && #[trigger] lt(b, c) ==> lt(a, c)
    &&& forall|a: T, b: T| a == b || #[trigger] lt(a, b) || lt(b, a)
}

/// Every item stands strictly before each later one.
pub open spec fn rising<T>(s: Seq<T>, lt: spec_fn(T, T) -> bool) -> bool {
    forall|i: int, j: int| 0 <= i < j < s.len() ==> lt(#[trigger] s[i], #[trigger] s[j])
}

/// No item stands strictly after a later one.
pub open spec fn ordered<T>(s: Seq<T>, lt: spec_fn(T, T) -> bool) -> bool {
    forall|i: int, j: int| 0 <= i < j < s.len() ==> !lt(#[trigger] s[j], #[trigger] s[i])
}

/// How many leading items of `s` stand strictly before `x`.
pub open spec fn lower<T>(s: Seq<T>, x: T, lt: spec_fn(T, T) -> bool) -> int
    decreases s.len(),
{
    if s.len() == 0 || !lt(s[0], x) {
        0
    } else {
        1 + lower(s.drop_first(), x, lt)
    }
}

/// How many leading items of `s` do not stand strictly after `x`.
pub open spec fn upper<T>(s: Seq<T>, x: T, lt: spec_fn(T, T) -> bool) -> int
    decreases s.len(),
{
    if s.len() == 0 || lt(x, s[0]) {
        0
    } else {
        1 + upper(s.drop_first(), x, lt)
    }
}

/// Where `lower` points: behind the items that stand before `x`, at an item
/// that does not.
pub proof fn lemma_lower<T>(s: Seq<T>, x: T, lt: spec_fn(T, T) -> bool)
    ensures
        0 <= lower(s, x, lt) <= s.len(),
        forall|i: int| 0 <= i < lower(s, x, lt) ==> lt(#[trigger] s[i], x),
        lower(s, x, lt) < s.len() ==> !lt(s[lower(s, x, lt)], x),
    decreases s.len(),
{
    if s.len() == 0 || !lt(s[0], x) {
    } else {
        let t = s.drop_first();
        lemma_lower(t, x, lt);
        assert forall|i: int| 0 <= i < lower(s, x, lt) implies lt(#[trigger] s[i], x) by {
            if i > 0 {
                assert(t[i - 1] == s[i]);
            }
        }
    }
}

/// A place behind items that stand before `x`, at which the sequence ends
/// or an item does not stand before `x`, is where `lower` points.
pub proof fn lemma_lower_is<T>(s: Seq<T>, x: T, lt: spec_fn(T, T) -> bool, k: int)
    requires
        0 <= k <= s.len(),
        forall|i: int| 0 <= i < k ==> lt(#[trigger] s[i], x),
        k < s.len() ==> !lt(s[k], x),
    ensures
        lower(s, x, lt) == k,
{
    lemma_lower(s, x, lt);
    let r = lower(s, x, lt);
    if r < k {
        assert(lt(s[r], x));
    } else if k < r {
        assert(lt(s[k], x));
    }
}

/// Where `upper` points: behind the items that do not stand after `x`, at
/// an item that does.
pub proof fn lemma_upper<T>(s: Seq<T>, x: T, lt: spec_fn(T, T) -> bool)
    ensures
        0 <= upper(s, x, lt) <= s.len(),
        forall|i: int| 0 <= i < upper(s, x, lt) ==> !lt(x, #[trigger] s[i]),
        upper(s, x, lt) < s.len() ==> lt(x, s[upper(s, x, lt)]),
    decreases s.len(),
{
    if s.len() == 0 || lt(x, s[0]) {
    } else {
        let t = s.drop_first();
        lemma_upper(t, x, lt);
        assert forall|i: int| 0 <= i < upper(s, x, lt) implies !lt(x, #[trigger] s[i]) by {
            if i > 0 {
                assert(t[i - 1] == s[i]);
            }
        }
    }
}

/// A place behind items that do not stand after `x`, at which the sequence
/// ends or an item stands after `x`, is where `upper` points.
pub proof fn lemma_upper_is<T>(s: Seq<T>, x: T, lt: spec_fn(T, T) -> bool, k: int)
    requires
        0 <= k <= s.len(),
        forall|i: int| 0 <= i < k ==> !lt(x, #[trigger] s[i]),
        k < s.len() ==> lt(x, s[k]),
    ensures
        upper(s, x, lt) == k,
{
    lemma_upper(s, x, lt);
    let r = upper(s, x, lt);
    if r < k {
        assert(!lt(x, s[r]));
    } else if k < r {
        assert(!lt(x, s[k]));
    }
}

/// In a rising sequence, `x` occurs at `lower` or nowhere, and what stands
/// from there on and differs from `x` stands after it.
pub proof fn lemma_lower_rising<T>(s: Seq<T>, x: T, lt: spec_fn(T, T) -> bool)
    requires
        strict_total(lt),
        rising(s, lt),
    ensures
        forall|i: int| 0 <= i < s.len() && #[trigger] s[i] == x ==> i == lower(s, x, lt),
        forall|i: int| lower(s, x, lt) <= i < s.len() && #[trigger] s[i] != x ==> lt(x, s[i]),
{
    lemma_lower(s, x, lt);
    let r = lower(s, x, lt);
    assert forall|i: int| 0 <= i < s.len() && #[trigger] s[i] == x implies i == r by {
        if i < r {
            assert(lt(s[i], x));
        } else if r < i {
            assert(lt(s[r], s[i]));
        }
    }
    assert forall|i: int| r <= i < s.len() && #[trigger] s[i] != x implies lt(x, s[i]) by {
        assert(x == s[r] || lt(x, s[r]) || lt(s[r], x));
        if r < i {
            assert(lt(s[r], s[i]));
            if s[r] != x {
                assert(lt(x, s[r]) && lt(s[r], s[i]));
            }
        }
    }
}

/// A rising sequence with a new item put in at its place is rising.
pub proof fn lemma_insert_rising<T>(s: Seq<T>, x: T, lt: spec_fn(T, T) -> bool)
    requires
        strict_total(lt),
        rising(s, lt),
        !s.contains(x),
    ensures
        rising(s.insert(lower(s, x, lt), x), lt),
{
    lemma_lower(s, x, lt);
    lemma_lower_rising(s, x, lt);
    let r = lower(s, x, lt);
    let t = s.insert(r, x);
    assert forall|i: int, j: int| 0 <= i < j < t.len() implies lt(
        #[trigger] t[i],
        #[trigger] t[j],
    ) by {
        if j < r {
            assert(t[i] == s[i] && t[j] == s[j]);
        } else if j == r {
            assert(t[i] == s[i]);
        } else if i < r {
            assert(t[i] == s[i] && t[j] == s[j - 1]);
            assert(s.contains(s[j - 1]));
            assert(lt(s[i], x) && lt(x, s[j - 1]));
        } else if i == r {
            assert(t[j] == s[j - 1]);
            assert(s.contains(s[j - 1]));
        } else {
            assert(t[i] == s[i - 1] && t[j] == s[j - 1]);
        }
    }
}

/// An ordered sequence with `x` put in behind the items that do not stand
/// after it.
pub open spec fn place<T>(s: Seq<T>, x: T, lt: spec_fn(T, T) -> bool) -> Seq<T> {
    s.insert(upper(s, x, lt), x)
}

/// The items of `s` in order; items of which neither stands before the
/// other keep the order in which `s` holds them.
pub open spec fn sort<T>(s: Seq<T>, lt: spec_fn(T, T) -> bool) -> Seq<T>
    decreases s.len(),
{
    if s.len() == 0 {
        s
    } else {
        place(sort(s.drop_last(), lt), s.last(), lt)
    }
}

/// `lt` is irreflexive and transitive, and so is "neither before the other".
pub open spec fn strict_weak<T>(lt: spec_fn(T, T) -> bool) -> bool {
    &&& forall|a: T| !#[trigger] lt(a, a)
    &&& forall|a: T, b: T, c: T| #[trigger] lt(a, b) && #[trigger] lt(b, c) ==> lt(a, c)
    &&& forall|a: T, b: T, c: T| !#[trigger] lt(a, b) && !#[trigger] lt(b, c) ==> !lt(a, c)
}

/// An ordered sequence with an item placed in it is ordered, and holds
/// what it held and the item.
pub proof fn lemma_place_ordered<T>(s: Seq<T>, x: T, lt: spec_fn(T, T) -> bool)
    requires
        strict_weak(lt),
        ordered(s, lt),
    ensures
        ordered(place(s, x, lt), lt),
        place(s, x, lt).len() == s.len() + 1,
        place(s, x, lt).to_multiset() == s.to_multiset().insert(x),
{
    lemma_upper(s, x, lt);
    let r = upper(s, x, lt);
    let t = s.insert(r, x);
    assert forall|i: int, j: int| 0 <= i < j < t.len() implies !lt(
        #[trigger] t[j],
        #[trigger] t[i],
    ) by {
        if j < r {
            assert(t[i] == s[i] && t[j] == s[j]);
        } else if j == r {
            assert(t[i] == s[i]);
        } else if i < r {
            assert(t[i] == s[i] && t[j] == s[j - 1]);
        } else if i == r {
            assert(t[j] == s[j - 1]);
            if j - 1 > r {
                assert(!lt(s[j - 1], s[r]));
                assert(lt(x, s[r]));
                if lt(s[j - 1], x) {
                    assert(lt(s[j - 1], s[r]));
                }
            }
        } else {
            assert(t[i] == s[i - 1] && t[j] == s[j - 1]);
        }
    }
    vstd::seq_lib::lemma_multiset_commutative(s.subrange(0, r), s.subrange(r, s.len() as int));
    assert(s.subrange(0, r) + s.subrange(r, s.len() as int) =~= s);
    assert(t =~= s.subrange(0, r).push(x) + s.subrange(r, s.len() as int));
    vstd::seq_lib::lemma_multiset_commutative(
        s.subrange(0, r).push(x),
        s.subrange(r, s.len() as int),
    );
    s.subrange(0, r).to_multiset_ensures();
    assert(t.to_multiset() =~= s.to_multiset().insert(x));
}

/// A sorted sequence is ordered, and holds what was sorted, each item as
/// often.
pub proof fn lemma_sort<T>(s: Seq<T>, lt: spec_fn(T, T) -> bool)
    requires
        strict_weak(lt),
    ensures
        ordered(sort(s, lt), lt),
        sort(s, lt).len() == s.len(),
        sort(s, lt).to_multiset() == s.to_multiset(),
    decreases s.len(),
{
    if s.len() == 0 {
    } else {
        lemma_sort(s.drop_last(), lt);
        lemma_place_ordered(sort(s.drop_last(), lt), s.last(), lt);
        assert(s.drop_last().push(s.last()) =~= s);
        s.drop_last().to_multiset_ensures();
    }
}

/// Sorting a sequence that is in order leaves it as it is.
pub proof fn lemma_sort_ordered<T>(s: Seq<T>, lt: spec_fn(T, T) -> bool)
    requires
        ordered(s, lt),
    ensures
        sort(s, lt) == s,
    decreases s.len(),
{
    if s.len() > 0 {
        let rest = s.drop_last();
        assert(ordered(rest, lt)) by {
            assert forall|i: int, j: int| 0 <= i < j < rest.len() implies !lt(
                #[trigger] rest[j],
                #[trigger] rest[i],
            ) by {
                assert(rest[i] == s[i] && rest[j] == s[j]);
            }
        }
        lemma_sort_ordered(rest, lt);
        assert forall|i: int| 0 <= i < rest.len() implies !lt(s.last(), #[trigger] rest[i]) by {
            assert(rest[i] == s[i]);
            assert(s.last() == s[s.len() - 1]);
        }
        lemma_upper_is(rest, s.last(), lt, rest.len() as int);
        assert(rest.insert(rest.len() as int, s.last()) =~= s);
    }
}

/// A sequence in which each item stands before the next is rising.
pub proof fn lemma_steps_rising<T>(s: Seq<T>, lt: spec_fn(T, T) -> bool)
    requires
        strict_total(lt),
        forall|k: int| 0 < k < s.len() ==> lt(s[k - 1], #[trigger] s[k]),
    ensures
        rising(s, lt),
{
    assert forall|i: int, j: int| 0 <= i < j < s.len() implies lt(
        #[trigger] s[i],
        #[trigger] s[j],
    ) by {
        lemma_step_chain(s, lt, i, j);
    }
}

/// In a sequence in which each item stands before the next, each stands
/// before every later one.
proof fn lemma_step_chain<T>(s: Seq<T>, lt: spec_fn(T, T) -> bool, i: int, j: int)
    requires
        strict_total(lt),
        forall|k: int| 0 < k < s.len() ==> lt(s[k - 1], #[trigger] s[k]),
        0 <= i < j < s.len(),
    ensures
        lt(s[i], s[j]),
    decreases j - i,
{
    assert(lt(s[j - 1], s[j]));
    if j > i + 1 {
        lemma_step_chain(s, lt, i, j - 1);
        assert(lt(s[i], s[j - 1]) && lt(s[j - 1], s[j]));
    }
}

} // verus!
