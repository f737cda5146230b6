//! Which of several equally expensive routes is preferred.

use crate::network::ip::IpAddr;
use crate::network::link::LinkView;
use crate::network::route::Route;
use crate::network::routing::{
    departures, departures_from, link_for_departure, routed_links, routes_of, stands_before,
    Departure,
};
use crate::search::{lemma_filter_map_holds, lemma_flat_map_holds};
use crate::sorting::{lemma_stably_sorted, ranked, stably_sorted, SortOrder};
use vstd::prelude::*;

verus! {

/// `s` holds `x`, and `y` somewhere behind it.
pub open spec fn in_order<T>(s: Seq<T>, x: T, y: T) -> bool {
    exists|i: int, j: int| 0 <= i < j < s.len() && #[trigger] s[i] == x && #[trigger] s[j] == y
}

/// What is picked from a list stays in order.
proof fn lemma_picked_in_order<T>(s: Seq<T>, p: spec_fn(T) -> bool, x: T, y: T)
    requires
        p(x),
        p(y),
        in_order(s, x, y),
    ensures
        in_order(s.filter(p), x, y),
    decreases s.len(),
{
    let (i, j) = choose|i: int, j: int|
        0 <= i < j < s.len() && #[trigger] s[i] == x && #[trigger] s[j] == y;
    let front = s.drop_last();
    front.lemma_filter_push(s.last(), p);
    assert(front.push(s.last()) =~= s);
    let before = front.filter(p);
    let after = s.filter(p);
    if j < front.len() {
        assert(front[i] == x && front[j] == y);
        lemma_picked_in_order(front, p, x, y);
        let (a, b) = choose|a: int, b: int|
            0 <= a < b < before.len() && #[trigger] before[a] == x && #[trigger] before[b] == y;
        assert(after[a] == x && after[b] == y);
    } else {
        assert(front[i] == x);
        front.lemma_filter_contains(p, i);
        let a = choose|a: int| 0 <= a < before.len() && before[a] == x;
        assert(after[a] == x && after[before.len() as int] == y);
    }
}

/// What is in order among the picked ones is in order in the list.
proof fn lemma_order_of_picked<T>(s: Seq<T>, p: spec_fn(T) -> bool, x: T, y: T)
    requires
        in_order(s.filter(p), x, y),
    ensures
        in_order(s, x, y),
    decreases s.len(),
{
    reveal(Seq::filter);
    if s.len() > 0 {
        let front = s.drop_last();
        front.lemma_filter_push(s.last(), p);
        assert(front.push(s.last()) =~= s);
        let before = front.filter(p);
        let after = s.filter(p);
        let (a, b) = choose|a: int, b: int|
            0 <= a < b < after.len() && #[trigger] after[a] == x && #[trigger] after[b] == y;
        if b < before.len() {
            assert(before[a] == x && before[b] == y);
            lemma_order_of_picked(front, p, x, y);
            let (i, j) = choose|i: int, j: int|
                0 <= i < j < front.len() && #[trigger] front[i] == x && #[trigger] front[j] == y;
            assert(s[i] == x && s[j] == y);
        } else {
            assert(before[a] == x);
            assert(before.contains(x));
            front.lemma_filter_contains_rev(p, x);
            let i = choose|i: int| 0 <= i < front.len() && front[i] == x;
            assert(s[i] == x && s[s.len() - 1] == y);
        }
    }
}

/// What comes from earlier items comes first.
proof fn lemma_parts_in_order<A, B>(
    s: Seq<A>,
    f: spec_fn(A) -> Seq<B>,
    n: int,
    p: int,
    q: int,
    i: int,
    j: int,
)
    requires
        0 <= p <= q < n <= s.len(),
        0 <= i < f(s[p]).len(),
        0 <= j < f(s[q]).len(),
        p == q ==> i < j,
    ensures
        in_order(s.take(n).flat_map(f), f(s[p])[i], f(s[q])[j]),
    decreases n,
{
    s.lemma_flat_map_take_append(f, n - 1);
    let before = s.take(n - 1).flat_map(f);
    let after = s.take(n).flat_map(f);
    let x = f(s[p])[i];
    let y = f(s[q])[j];
    if q < n - 1 {
        lemma_parts_in_order(s, f, n - 1, p, q, i, j);
        let (a, b) = choose|a: int, b: int|
            0 <= a < b < before.len() && #[trigger] before[a] == x && #[trigger] before[b] == y;
        assert(after[a] == x && after[b] == y);
    } else if p < q {
        lemma_flat_map_holds(s, f, n - 1, p, i);
        let a = choose|a: int| 0 <= a < before.len() && before[a] == x;
        assert(after[a] == x && after[before.len() + j] == y);
    } else {
        assert(after[before.len() + i] == x && after[before.len() + j] == y);
    }
}

proof fn lemma_links_in_order(
    sorted: Seq<Departure>,
    links: Seq<LinkView>,
    dest: IpAddr,
    x: Departure,
    y: Departure,
)
    requires
        in_order(sorted, x, y),
        link_for_departure(links, dest)(x) is Some,
        link_for_departure(links, dest)(y) is Some,
    ensures
        stands_before(
            sorted.filter_map(link_for_departure(links, dest)),
            link_for_departure(links, dest)(x)->0,
            link_for_departure(links, dest)(y)->0,
        ),
    decreases sorted.len(),
{
    let f = link_for_departure(links, dest);
    let (i, j) = choose|i: int, j: int|
        0 <= i < j < sorted.len() && #[trigger] sorted[i] == x && #[trigger] sorted[j] == y;
    let front = sorted.drop_last();
    let n = front.len() as int;
    sorted.lemma_filter_map_take_succ(f, n);
    assert(sorted.take(n) =~= front);
    assert(sorted.take(n + 1) =~= sorted);
    let before = front.filter_map(f);
    let after = sorted.filter_map(f);
    let first = f(x)->0;
    let second = f(y)->0;
    if j < n {
        assert(front[i] == x && front[j] == y);
        lemma_links_in_order(front, links, dest, x, y);
        let (a, b) = choose|a: int, b: int|
            0 <= a < b < before.len() && #[trigger] before[a] == first && #[trigger] before[b]
                == second;
        assert(after[a] == first && after[b] == second);
    } else {
        assert(front[i] == x);
        lemma_filter_map_holds(front, f, i, first);
        let a = choose|a: int| 0 <= a < before.len() && before[a] == first;
        assert(after[a] == first && after[before.len() as int] == second);
    }
}

/// Of two equally expensive routes, the one that leaves from the address that the node lists first is
/// preferred, and of two that leave from the same address, the one that is listed first there: its
/// link stands before that of the other one.
pub proof fn law_ties_keep_their_order(
    links: Seq<LinkView>,
    routes_by_addr: Seq<(IpAddr, Seq<Route>)>,
    addresses: Seq<IpAddr>,
    dest: IpAddr,
    p: int,
    q: int,
    i: int,
    j: int,
)
    requires
        0 <= p <= q < addresses.len(),
        0 <= i < routes_of(routes_by_addr, addresses[p]).len(),
        0 <= j < routes_of(routes_by_addr, addresses[q]).len(),
        p == q ==> i < j,
        routes_of(routes_by_addr, addresses[p])[i].cost == routes_of(
            routes_by_addr,
            addresses[q],
        )[j].cost,
        ({
            let x = Departure {
                address: addresses[p],
                route: routes_of(routes_by_addr, addresses[p])[i],
            };
            let y = Departure {
                address: addresses[q],
                route: routes_of(routes_by_addr, addresses[q])[j],
            };
            link_for_departure(links, dest)(x) is Some && link_for_departure(links, dest)(
                y,
            ) is Some
        }),
    ensures
        ({
            let x = Departure {
                address: addresses[p],
                route: routes_of(routes_by_addr, addresses[p])[i],
            };
            let y = Departure {
                address: addresses[q],
                route: routes_of(routes_by_addr, addresses[q])[j],
            };
            stands_before(
                routed_links(links, routes_by_addr, addresses, dest),
                link_for_departure(links, dest)(x)->0,
                link_for_departure(links, dest)(y)->0,
            )
        }),
{
    let x = Departure { address: addresses[p], route: routes_of(routes_by_addr, addresses[p])[i] };
    let y = Departure { address: addresses[q], route: routes_of(routes_by_addr, addresses[q])[j] };
    let f = |a: IpAddr| departures_from(routes_by_addr, a);
    let input = departures(routes_by_addr, addresses);
    let sorted = stably_sorted(input);
    let n = addresses.len() as int;
    assert(f(addresses[p])[i] == x && f(addresses[q])[j] == y);
    lemma_parts_in_order(addresses, f, n, p, q, i, j);
    assert(addresses.take(n) =~= addresses);
    lemma_stably_sorted(input);
    let same = |d: Departure| d.precedes(x) && x.precedes(d);
    lemma_picked_in_order(input, same, x, y);
    assert(ranked(sorted, x) == ranked(input, x));
    lemma_order_of_picked(sorted, same, x, y);
    lemma_links_in_order(sorted, links, dest, x, y);
}

} // verus!
