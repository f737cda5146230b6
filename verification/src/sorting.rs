//! Stable sorting.

use crate::search::{first_index, lemma_first_index};
use vstd::prelude::*;

verus! {

/// A total preorder on the values of a type.
pub trait SortOrder: Sized {
    /// `self` may stand before `other` in a sorted list.
    spec fn precedes(self, other: Self) -> bool;

    proof fn total(a: Self, b: Self)
        ensures
            a.precedes(b) || b.precedes(a),
    ;

    proof fn transitive(a: Self, b: Self, c: Self)
        requires
            a.precedes(b),
            b.precedes(c),
        ensures
            a.precedes(c),
    ;

    fn comes_before(&self, other: &Self) -> (r: bool)
        ensures
            r == self.precedes(*other),
    ;
}

/// Every element may stand before each of those that follow it.
pub open spec fn is_sorted<T: SortOrder>(s: Seq<T>) -> bool {
    forall|i: int, j: int| 0 <= i < j < s.len() ==> (#[trigger] s[i]).precedes(#[trigger] s[j])
}

/// The elements of `s` that the order does not tell apart from `k`, in their order in `s`.
pub open spec fn ranked<T: SortOrder>(s: Seq<T>, k: T) -> Seq<T> {
    s.filter(|x: T| x.precedes(k) && k.precedes(x))
}

/// `output` holds the elements of `input`, sorted, and elements that the order does not tell apart
/// stay in the order in which `input` has them.
pub open spec fn is_stable_sort<T: SortOrder>(input: Seq<T>, output: Seq<T>) -> bool {
    &&& is_sorted(output)
    &&& output.to_multiset() == input.to_multiset()
    &&& forall|k: T| #[trigger] ranked(output, k) == ranked(input, k)
}

/// Inserting `x` behind everything that precedes it keeps the list sorted and puts `x` last among
/// its equals.
proof fn lemma_insert_keeps_stable<T: SortOrder>(input: Seq<T>, output: Seq<T>, pos: int, x: T)
    requires
        is_stable_sort(input, output),
        0 <= pos <= output.len(),
        forall|i: int| 0 <= i < pos ==> (#[trigger] output[i]).precedes(x),
        forall|i: int| pos <= i < output.len() ==> !(#[trigger] output[i]).precedes(x),
    ensures
        is_stable_sort(input.push(x), output.insert(pos, x)),
{
    let left = output.subrange(0, pos);
    let right = output.subrange(pos, output.len() as int);
    let result = output.insert(pos, x);
    assert(output =~= left + right);
    assert(result =~= left.push(x) + right);
    assert forall|i: int, j: int| 0 <= i < j < result.len() implies (#[trigger] result[i]).precedes(
        #[trigger] result[j],
    ) by {
        if j == pos {
            assert(result[i] == output[i]);
        } else if i == pos {
            assert(result[j] == output[j - 1]);
            T::total(output[j - 1], x);
        } else {
            let i0 = if i < pos {
                i
            } else {
                i - 1
            };
            let j0 = if j < pos {
                j
            } else {
                j - 1
            };
            assert(result[i] == output[i0] && result[j] == output[j0]);
        }
    }
    assert(result.to_multiset() == input.push(x).to_multiset()) by {
        broadcast use vstd::seq_lib::to_multiset_insert;
        broadcast use vstd::seq_lib::to_multiset_build;

    }
    assert forall|k: T| #[trigger] ranked(result, k) == ranked(input.push(x), k) by {
        let p = |y: T| y.precedes(k) && k.precedes(y);
        Seq::filter_distributes_over_add(left, right, p);
        Seq::filter_distributes_over_add(left.push(x), right, p);
        left.lemma_filter_push(x, p);
        input.lemma_filter_push(x, p);
        assert(ranked(output, k) == ranked(input, k));
        if p(x) {
            assert(right.filter(p) =~= Seq::empty()) by {
                assert forall|i: int| 0 <= i < right.len() implies !p(#[trigger] right[i]) by {
                    assert(right[i] == output[pos + i]);
                    if p(right[i]) {
                        T::transitive(right[i], k, x);
                    }
                }
                assert forall|e: T| #[trigger] right.contains(e) implies !p(e) by {
                    let i = choose|i: int| 0 <= i < right.len() && right[i] == e;
                    assert(!p(right[i]));
                }
                if right.filter(p).len() > 0 {
                    let e = right.filter(p)[0];
                    right.lemma_filter_pred(p, 0);
                    right.lemma_filter_contains_rev(p, e);
                }
            }
            assert(left.filter(p).push(x) + Seq::<T>::empty() =~= (left.filter(p) + Seq::<
                T,
            >::empty()).push(x));
        }
    }
}

/// Sorts `items`; elements that the order does not tell apart keep their order.
pub fn stable_sort<T: SortOrder>(items: Vec<T>) -> (sorted: Vec<T>)
    ensures
        is_stable_sort(items@, sorted@),
        sorted@.len() == items@.len(),
{
    let ghost input = items@;
    let mut items = items;
    let mut rest: Vec<T> = Vec::new();
    let mut sorted: Vec<T> = Vec::new();
    // Reverse the list first, so that the elements can be taken from its end in their order
    while items.len() > 0
        invariant
            items@ == input.subrange(0, items@.len() as int),
            rest@.len() + items@.len() == input.len(),
            forall|i: int|
                0 <= i < rest@.len() ==> #[trigger] rest@[i] == input[input.len() - 1 - i],
        decreases items@.len(),
    {
        if let Some(item) = items.pop() {
            rest.push(item);
        }
        assert(items@ =~= input.subrange(0, items@.len() as int));
    }
    proof {
        assert(sorted@ =~= Seq::<T>::empty());
        assert(input.subrange(0, 0) =~= Seq::<T>::empty());
        assert(is_stable_sort(input.subrange(0, 0), sorted@));
    }
    while rest.len() > 0
        invariant
            sorted@.len() + rest@.len() == input.len(),
            forall|i: int|
                0 <= i < rest@.len() ==> #[trigger] rest@[i] == input[input.len() - 1 - i],
            is_stable_sort(input.subrange(0, sorted@.len() as int), sorted@),
        decreases rest@.len(),
    {
        if let Some(item) = rest.pop() {
            let n: usize = sorted.len();
            assert(item == input[n as int]);
            let mut pos: usize = n;
            while pos > 0 && !sorted[pos - 1].comes_before(&item)
                invariant
                    pos <= n == sorted@.len(),
                    forall|i: int| pos <= i < n ==> !(#[trigger] sorted@[i]).precedes(item),
                decreases pos,
            {
                pos = pos - 1;
            }
            proof {
                assert forall|i: int| 0 <= i < pos implies (#[trigger] sorted@[i]).precedes(item) by {
                    if i < pos - 1 {
                        T::transitive(sorted@[i], sorted@[pos - 1], item);
                    }
                }
                lemma_insert_keeps_stable(
                    input.subrange(0, n as int),
                    sorted@,
                    pos as int,
                    item,
                );
                assert(input.subrange(0, n as int).push(item) =~= input.subrange(0, n + 1));
            }
            sorted.insert(pos, item);
        }
    }
    proof {
        assert(input.subrange(0, input.len() as int) =~= input);
    }
    sorted
}

/// The stable sort of a list; [`lemma_stably_sorted`] shows that there is one, and
/// [`law_stable_sort_is_unique`] that there is no other.
pub open spec fn stably_sorted<T: SortOrder>(items: Seq<T>) -> Seq<T> {
    choose|sorted: Seq<T>| #[trigger] is_stable_sort(items, sorted)
}

/// Every list has a stable sort.
pub proof fn lemma_stably_sorted<T: SortOrder>(items: Seq<T>)
    ensures
        is_stable_sort(items, stably_sorted(items)),
    decreases items.len(),
{
    if items.len() == 0 {
        assert(is_stable_sort(items, items));
    } else {
        let front = items.drop_last();
        let x = items.last();
        lemma_stably_sorted(front);
        let sorted = stably_sorted(front);
        let later = |y: T| !y.precedes(x);
        lemma_first_index(sorted, later);
        let pos = match first_index(sorted, later) {
            Some(i) => i,
            None => sorted.len() as int,
        };
        assert forall|i: int| 0 <= i < pos implies (#[trigger] sorted[i]).precedes(x) by {
            assert(!later(sorted[i]));
        }
        assert forall|i: int| pos <= i < sorted.len() implies !(#[trigger] sorted[i]).precedes(
            x,
        ) by {
            assert(later(sorted[pos]));
            if pos < i && sorted[i].precedes(x) {
                T::transitive(sorted[pos], sorted[i], x);
            }
        }
        lemma_insert_keeps_stable(front, sorted, pos, x);
        assert(front.push(x) =~= items);
        assert(is_stable_sort(items, sorted.insert(pos, x)));
    }
}

/// A stable sort is the stable sort.
pub proof fn lemma_is_stably_sorted<T: SortOrder>(items: Seq<T>, sorted: Seq<T>)
    requires
        is_stable_sort(items, sorted),
    ensures
        sorted == stably_sorted(items),
{
    lemma_stably_sorted(items);
    law_stable_sort_is_unique(items, sorted, stably_sorted(items));
}

/// A list has only one stable sort.
pub proof fn law_stable_sort_is_unique<T: SortOrder>(input: Seq<T>, a: Seq<T>, b: Seq<T>)
    requires
        is_stable_sort(input, a),
        is_stable_sort(input, b),
    ensures
        a == b,
{
    lemma_sorts_agree(a, b);
}

proof fn lemma_sorts_agree<T: SortOrder>(a: Seq<T>, b: Seq<T>)
    requires
        is_sorted(a),
        is_sorted(b),
        a.to_multiset() == b.to_multiset(),
        forall|k: T| #[trigger] ranked(a, k) == ranked(b, k),
    ensures
        a == b,
    decreases a.len(),
{
    broadcast use vstd::seq_lib::to_multiset_len;
    broadcast use vstd::seq_lib::to_multiset_contains;

    assert(a.len() == a.to_multiset().len() && b.len() == b.to_multiset().len());
    if a.len() == 0 {
        assert(a =~= b);
    } else {
        let x = a.last();
        let y = b.last();
        // The two last elements are of the same rank: each list holds the other one's last element
        assert(a.contains(x) && b.contains(y));
        assert(a.to_multiset().count(x) > 0 && b.to_multiset().count(y) > 0);
        assert(b.contains(x) && a.contains(y));
        let i = choose|i: int| 0 <= i < b.len() && b[i] == x;
        let j = choose|j: int| 0 <= j < a.len() && a[j] == y;
        T::total(x, x);
        T::total(y, y);
        assert(x.precedes(y)) by {
            if i < b.len() - 1 {
                assert(b[i].precedes(b[b.len() - 1]));
            }
        }
        assert(y.precedes(x)) by {
            if j < a.len() - 1 {
                assert(a[j].precedes(a[a.len() - 1]));
            }
        }
        let p = |z: T| z.precedes(x) && x.precedes(z);
        a.drop_last().lemma_filter_push(x, p);
        b.drop_last().lemma_filter_push(y, p);
        assert(a.drop_last().push(x) =~= a);
        assert(b.drop_last().push(y) =~= b);
        assert(ranked(a, x) == ranked(b, x));
        assert(ranked(a, x) == a.drop_last().filter(p).push(x));
        assert(ranked(b, x) == b.drop_last().filter(p).push(y));
        assert(x == y) by {
            assert(ranked(a, x).last() == x);
            assert(ranked(b, x).last() == y);
        }
        assert forall|k: T| #[trigger] ranked(a.drop_last(), k) == ranked(b.drop_last(), k) by {
            let q = |z: T| z.precedes(k) && k.precedes(z);
            a.drop_last().lemma_filter_push(x, q);
            b.drop_last().lemma_filter_push(x, q);
            assert(ranked(a, k) == ranked(b, k));
            if q(x) {
                assert(ranked(a, k).drop_last() =~= ranked(a.drop_last(), k));
                assert(ranked(b, k).drop_last() =~= ranked(b.drop_last(), k));
            }
        }
        assert(a.drop_last().to_multiset() == b.drop_last().to_multiset()) by {
            broadcast use vstd::seq_lib::to_multiset_build;

            assert(a.to_multiset() == a.drop_last().to_multiset().insert(x));
            assert(b.to_multiset() == b.drop_last().to_multiset().insert(x));
            assert(a.to_multiset().remove(x) =~= a.drop_last().to_multiset());
            assert(b.to_multiset().remove(x) =~= b.drop_last().to_multiset());
        }
        lemma_sorts_agree(a.drop_last(), b.drop_last());
    }
}

/// The order does not tell the two values apart.
pub open spec fn same_rank<T: SortOrder>(a: T, b: T) -> bool {
    a.precedes(b) && b.precedes(a)
}

/// Every element comes before each of those that follow it.
pub open spec fn is_strictly_sorted<T: SortOrder>(s: Seq<T>) -> bool {
    forall|i: int, j: int|
        0 <= i < j < s.len() ==> (#[trigger] s[i]).precedes(#[trigger] s[j]) && !s[j].precedes(s[i])
}

/// The list holds a value that the order does not tell apart from `x`.
pub open spec fn has_rank<T: SortOrder>(s: Seq<T>, x: T) -> bool {
    exists|i: int| 0 <= i < s.len() && #[trigger] same_rank(s[i], x)
}

/// `output` holds, in order, one element of each rank that occurs in `input`.
pub open spec fn is_sorted_distinct<T: SortOrder>(input: Seq<T>, output: Seq<T>) -> bool {
    &&& is_strictly_sorted(output)
    &&& forall|i: int| 0 <= i < output.len() ==> input.contains(#[trigger] output[i])
    &&& forall|i: int| 0 <= i < input.len() ==> has_rank(output, #[trigger] input[i])
}

/// Sorts `items` and keeps one element of each rank.
pub fn sorted_distinct<T: SortOrder>(items: Vec<T>) -> (r: Vec<T>)
    ensures
        is_sorted_distinct(items@, r@),
{
    let ghost input = items@;
    let mut rest = stable_sort(items);
    let ghost sorted = rest@;
    let mut reversed: Vec<T> = Vec::new();
    while rest.len() > 0
        invariant
            rest@.len() + reversed@.len() == sorted.len(),
            rest@ == sorted.subrange(0, rest@.len() as int),
            forall|i: int|
                0 <= i < reversed@.len() ==> #[trigger] reversed@[i] == sorted[sorted.len() - 1
                    - i],
        decreases rest@.len(),
    {
        if let Some(item) = rest.pop() {
            reversed.push(item);
        }
        assert(rest@ =~= sorted.subrange(0, rest@.len() as int));
    }
    let mut distinct: Vec<T> = Vec::new();
    let ghost mut done: int = 0;
    while reversed.len() > 0
        invariant
            is_sorted(sorted),
            done + reversed@.len() == sorted.len(),
            0 <= done,
            forall|i: int|
                0 <= i < reversed@.len() ==> #[trigger] reversed@[i] == sorted[sorted.len() - 1
                    - i],
            is_strictly_sorted(distinct@),
            forall|i: int| 0 <= i < distinct@.len() ==> sorted.contains(#[trigger] distinct@[i]),
            forall|i: int|
                0 <= i < distinct@.len() ==> (#[trigger] distinct@[i]).precedes(sorted[done - 1]),
            forall|i: int| 0 <= i < done ==> has_rank(distinct@, #[trigger] sorted[i]),
            done == 0 ==> distinct@.len() == 0,
            done > 0 ==> distinct@.len() > 0 && same_rank(
                distinct@[distinct@.len() - 1],
                sorted[done - 1],
            ),
        decreases reversed@.len(),
    {
        if let Some(item) = reversed.pop() {
            proof {
                assert(item == sorted[done]);
                T::total(item, item);
                if done > 0 {
                    assert(sorted[done - 1].precedes(sorted[done]));
                }
            }
            let n: usize = distinct.len();
            let ghost before = distinct@;
            let known = n > 0 && item.comes_before(&distinct[n - 1]);
            if known {
                proof {
                    let last = before[n - 1];
                    T::transitive(last, sorted[done - 1], item);
                    assert(same_rank(before[n - 1], item));
                    assert forall|i: int| 0 <= i < before.len() implies (
                    #[trigger] before[i]).precedes(item) by {
                        T::transitive(before[i], sorted[done - 1], item);
                    }
                }
            } else {
                distinct.push(item);
                proof {
                    let after = distinct@;
                    assert(sorted.contains(item));
                    assert forall|i: int, j: int| 0 <= i < j < after.len() implies (
                    #[trigger] after[i]).precedes(#[trigger] after[j]) && !after[j].precedes(
                        after[i],
                    ) by {
                        if j < before.len() {
                            assert(before[i].precedes(before[j]) && !before[j].precedes(before[i]));
                        } else {
                            T::transitive(before[i], sorted[done - 1], item);
                            let last = before[n - 1];
                            assert(!item.precedes(last));
                            if item.precedes(before[i]) && i < n - 1 {
                                T::transitive(item, before[i], last);
                            }
                        }
                    }
                    assert forall|i: int| 0 <= i < after.len() implies (
                    #[trigger] after[i]).precedes(item) by {
                        if i < before.len() {
                            T::transitive(before[i], sorted[done - 1], item);
                        }
                    }
                    assert forall|i: int| 0 <= i < done implies has_rank(
                        after,
                        #[trigger] sorted[i],
                    ) by {
                        let k = choose|k: int|
                            0 <= k < before.len() && #[trigger] same_rank(before[k], sorted[i]);
                        assert(same_rank(after[k], sorted[i]));
                    }
                    assert(same_rank(after[n as int], item));
                    assert forall|i: int| 0 <= i < after.len() implies sorted.contains(
                        #[trigger] after[i],
                    ) by {
                        if i < before.len() {
                            assert(sorted.contains(before[i]));
                        }
                    }
                }
            }
            proof {
                done = done + 1;
            }
        }
    }
    proof {
        lemma_same_elements(input, sorted);
        assert forall|i: int| 0 <= i < distinct@.len() implies input.contains(
            #[trigger] distinct@[i],
        ) by {
            assert(sorted.contains(distinct@[i]));
        }
        assert forall|i: int| 0 <= i < input.len() implies has_rank(
            distinct@,
            #[trigger] input[i],
        ) by {
            assert(input.contains(input[i]));
            let k = choose|k: int| 0 <= k < sorted.len() && sorted[k] == input[i];
            assert(has_rank(distinct@, sorted[k]));
        }
    }
    distinct
}

/// Sorting neither adds nor removes elements.
pub proof fn lemma_same_elements<T>(a: Seq<T>, b: Seq<T>)
    requires
        a.to_multiset() == b.to_multiset(),
    ensures
        forall|x: T| a.contains(x) <==> b.contains(x),
{
    broadcast use vstd::seq_lib::to_multiset_contains;

    assert forall|x: T| a.contains(x) <==> b.contains(x) by {
        assert(a.contains(x) <==> a.to_multiset().count(x) > 0);
        assert(b.contains(x) <==> b.to_multiset().count(x) > 0);
    }
}

} // verus!
