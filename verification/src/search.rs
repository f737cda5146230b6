//! Looking up the first element of a list that satisfies a condition.

use vstd::prelude::*;

verus! {

/// The index of the first element that satisfies `p`.
pub open spec fn first_index<T>(s: Seq<T>, p: spec_fn(T) -> bool) -> Option<int>
    decreases s.len(),
{
    if s.len() == 0 {
        None
    } else {
        match first_index(s.drop_last(), p) {
            Some(i) => Some(i),
            None => if p(s.last()) {
                Some(s.len() - 1)
            } else {
                None
            },
        }
    }
}

/// The first element that satisfies `p` satisfies it, and no element before it does; where there is
/// none, no element satisfies `p`.
pub proof fn lemma_first_index<T>(s: Seq<T>, p: spec_fn(T) -> bool)
    ensures
        match first_index(s, p) {
            Some(i) => 0 <= i < s.len() && p(s[i]) && forall|j: int| 0 <= j < i ==> !p(#[trigger] s[j]),
            None => forall|j: int| 0 <= j < s.len() ==> !p(#[trigger] s[j]),
        },
    decreases s.len(),
{
    if s.len() > 0 {
        let front = s.drop_last();
        lemma_first_index(front, p);
        match first_index(front, p) {
            Some(i) => {
                assert forall|j: int| 0 <= j < i implies !p(#[trigger] s[j]) by {
                    assert(front[j] == s[j]);
                }
            },
            None => {
                assert forall|j: int| 0 <= j < s.len() - 1 implies !p(#[trigger] s[j]) by {
                    assert(front[j] == s[j]);
                }
            },
        }
    }
}

/// An element that satisfies `p`, with none before it that does, is the first one.
pub proof fn lemma_first_index_is<T>(s: Seq<T>, p: spec_fn(T) -> bool, i: int)
    requires
        0 <= i < s.len(),
        p(s[i]),
        forall|j: int| 0 <= j < i ==> !p(#[trigger] s[j]),
    ensures
        first_index(s, p) == Some(i),
{
    lemma_first_index(s, p);
    match first_index(s, p) {
        Some(k) => {
            if k < i {
                assert(!p(s[k]));
            }
            if i < k {
                assert(!p(s[i]));
            }
        },
        None => {
            assert(!p(s[i]));
        },
    }
}

/// Where no element satisfies `p`, there is no first one.
pub proof fn lemma_first_index_none<T>(s: Seq<T>, p: spec_fn(T) -> bool)
    requires
        forall|j: int| 0 <= j < s.len() ==> !p(#[trigger] s[j]),
    ensures
        first_index(s, p) is None,
{
    lemma_first_index(s, p);
}

/// The first element of a list.
pub open spec fn first_of<T>(s: Seq<T>) -> Option<T> {
    if s.len() == 0 {
        None
    } else {
        Some(s[0])
    }
}

/// What `filter_map` keeps of the first elements is the start of what it keeps of all of them.
pub proof fn lemma_filter_map_prefix<A, B>(s: Seq<A>, f: spec_fn(A) -> Option<B>, n: int)
    requires
        0 <= n <= s.len(),
    ensures
        s.take(n).filter_map(f).is_prefix_of(s.filter_map(f)),
    decreases s.len() - n,
{
    if n == s.len() {
        assert(s.take(n) =~= s);
    } else {
        lemma_filter_map_prefix(s, f, n + 1);
        s.lemma_filter_map_take_succ(f, n);
        let a = s.take(n).filter_map(f);
        let b = s.take(n + 1).filter_map(f);
        let c = s.filter_map(f);
        assert(a =~= b.subrange(0, a.len() as int));
        assert(a =~= c.subrange(0, a.len() as int));
    }
}

/// What `filter_map` makes of an element is in what it keeps.
pub proof fn lemma_filter_map_holds<A, B>(s: Seq<A>, f: spec_fn(A) -> Option<B>, i: int, b: B)
    requires
        0 <= i < s.len(),
        f(s[i]) == Some(b),
    ensures
        s.filter_map(f).contains(b),
{
    s.lemma_filter_map_take_succ(f, i);
    lemma_filter_map_prefix(s, f, i + 1);
    let a = s.take(i + 1).filter_map(f);
    let c = s.filter_map(f);
    assert(a.last() == b);
    assert(c[a.len() - 1] == a[a.len() - 1]);
}

/// What one of the items gives is among what the first `n` of them give together.
pub proof fn lemma_flat_map_holds<A, B>(s: Seq<A>, f: spec_fn(A) -> Seq<B>, n: int, p: int, i: int)
    requires
        0 <= p < n <= s.len(),
        0 <= i < f(s[p]).len(),
    ensures
        s.take(n).flat_map(f).contains(f(s[p])[i]),
    decreases n,
{
    s.lemma_flat_map_take_append(f, n - 1);
    let before = s.take(n - 1).flat_map(f);
    let after = s.take(n).flat_map(f);
    if p < n - 1 {
        lemma_flat_map_holds(s, f, n - 1, p, i);
        let a = choose|a: int| 0 <= a < before.len() && before[a] == f(s[p])[i];
        assert(after[a] == f(s[p])[i]);
    } else {
        assert(after[before.len() + i] == f(s[p])[i]);
    }
}

} // verus!
