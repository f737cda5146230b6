//! Helpers.

use crate::text::texts;
use vstd::prelude::*;

verus! {

/// The items that occurred before, in order.
pub open spec fn repeated(items: Seq<Seq<char>>) -> Seq<Seq<char>>
    decreases items.len(),
{
    if items.len() == 0 {
        Seq::empty()
    } else if items.drop_last().contains(items.last()) {
        repeated(items.drop_last()).push(items.last())
    } else {
        repeated(items.drop_last())
    }
}

/// The items that occurred before, in order.
pub fn duplicates(items: &Vec<String>) -> (r: Vec<String>)
    ensures
        texts(r@) == repeated(texts(items@)),
{
    let mut duplicates: Vec<String> = Vec::new();
    let ghost all = texts(items@);
    assert(texts(duplicates@) =~= repeated(all.take(0)));
    for i in 0..items.len()
        invariant
            all == texts(items@),
            texts(duplicates@) == repeated(all.take(i as int)),
    {
        let mut seen = false;
        let ghost before = all.take(i as int);
        for j in 0..i
            invariant
                i < items@.len(),
                all == texts(items@),
                before == all.take(i as int),
                seen == before.take(j as int).contains(all[i as int]),
        {
            assert(before.take(j + 1) =~= before.take(j as int).push(all[j as int]));
            if items[j] == items[i] {
                assert(before.take(j + 1)[j as int] == all[i as int]);
                seen = true;
            }
            proof {
                if before.take(j as int).contains(all[i as int]) {
                    let k = choose|k: int|
                        0 <= k < j && before.take(j as int)[k] == all[i as int];
                    assert(before.take(j + 1)[k] == all[i as int]);
                }
            }
        }
        proof {
            assert(before.take(i as int) =~= before);
            assert(all.take(i + 1).drop_last() =~= before);
            assert(all.take(i + 1).last() == items@[i as int]@);
        }
        if seen {
            let ghost found = texts(duplicates@);
            duplicates.push(items[i].clone());
            assert(texts(duplicates@) =~= found.push(all[i as int]));
        }
    }
    assert(all.take(items@.len() as int) =~= all);
    duplicates
}

/// How often an item occurs.
pub open spec fn occurrences(items: Seq<Seq<char>>, item: Seq<char>) -> nat
    decreases items.len(),
{
    if items.len() == 0 {
        0
    } else {
        occurrences(items.drop_last(), item) + if items.last() == item {
            1nat
        } else {
            0nat
        }
    }
}

proof fn lemma_occurs(items: Seq<Seq<char>>, item: Seq<char>)
    ensures
        items.contains(item) <==> occurrences(items, item) > 0,
    decreases items.len(),
{
    if items.len() > 0 {
        let front = items.drop_last();
        lemma_occurs(front, item);
        if front.contains(item) {
            let k = choose|k: int| 0 <= k < front.len() && front[k] == item;
            assert(items[k] == item);
        }
        if items.last() == item {
            assert(items[items.len() - 1] == item);
        }
        if items.contains(item) && items.last() != item {
            let k = choose|k: int| 0 <= k < items.len() && items[k] == item;
            assert(front[k] == item);
        }
    }
}

/// An item that occurs more than once is reported once for each occurrence but the first one; other
/// items are not reported.
pub proof fn law_duplicates_are_counted(items: Seq<Seq<char>>, item: Seq<char>)
    ensures
        occurrences(repeated(items), item) == if occurrences(items, item) == 0 {
            0
        } else {
            occurrences(items, item) - 1
        },
    decreases items.len(),
{
    if items.len() > 0 {
        let front = items.drop_last();
        law_duplicates_are_counted(front, item);
        lemma_occurs(front, items.last());
        if front.contains(items.last()) {
            assert(repeated(items).drop_last() =~= repeated(front));
        }
    }
}

} // verus!
