//! Which links take a packet towards its destination.

use crate::network::ip::IpAddr;
use crate::network::link::LinkView;
use crate::network::route::Route;
use crate::network::{InMemoryNetwork, NetworkView};
use crate::search::{
    first_index, lemma_filter_map_holds, lemma_first_index, lemma_first_index_is,
};
use crate::sorting::{
    is_sorted, lemma_is_stably_sorted, lemma_same_elements, lemma_stably_sorted, stable_sort,
    stably_sorted, SortOrder,
};
use vstd::prelude::*;

verus! {

/// The index of the link between two addresses.
pub open spec fn link_between(links: Seq<LinkView>, source: IpAddr, target: IpAddr) -> Option<
    usize,
> {
    match first_index(links, |l: LinkView| l.source == source && l.target == target) {
        Some(i) => Some(i as usize),
        None => None,
    }
}

/// The routes that leave from an address are known.
pub open spec fn has_routes(routes_by_addr: Seq<(IpAddr, Seq<Route>)>, address: IpAddr) -> bool {
    exists|k: int| 0 <= k < routes_by_addr.len() && (#[trigger] routes_by_addr[k]).0 == address
}

/// The routes that leave from each address are sorted: the cheapest one comes first.
pub open spec fn routes_sorted(routes_by_addr: Seq<(IpAddr, Seq<Route>)>) -> bool {
    forall|k: int| 0 <= k < routes_by_addr.len() ==> is_sorted((#[trigger] routes_by_addr[k]).1)
}

/// The entry is about the given address.
pub open spec fn is_about(address: IpAddr) -> spec_fn((IpAddr, Seq<Route>)) -> bool {
    |r: (IpAddr, Seq<Route>)| r.0 == address
}

/// The routes that leave from an address.
pub open spec fn routes_of(routes_by_addr: Seq<(IpAddr, Seq<Route>)>, address: IpAddr) -> Seq<
    Route,
> {
    routes_by_addr[first_index(routes_by_addr, is_about(address))->0].1
}

/// The link from the address to the route's next hop, if the route leads to `dest`.
pub open spec fn link_for_route(
    links: Seq<LinkView>,
    address: IpAddr,
    route: Route,
    dest: IpAddr,
) -> Option<usize> {
    match route.spec_next_hop_towards_destination(dest) {
        Some(next) => link_between(links, address, next),
        None => None,
    }
}

/// The links that lead straight from one of the addresses to `dest`.
pub open spec fn direct_links(
    links: Seq<LinkView>,
    addresses: Seq<IpAddr>,
    dest: IpAddr,
) -> Seq<usize> {
    addresses.filter_map(|a: IpAddr| link_between(links, a, dest))
}

/// A route as it leaves from one of a node's addresses.
#[derive(Clone, Copy, PartialEq, Eq, Structural, Debug)]
pub struct Departure {
    pub address: IpAddr,
    pub route: Route,
}

/// Cheaper departures come first.
impl SortOrder for Departure {
    open spec fn precedes(self, other: Self) -> bool {
        self.route.cost <= other.route.cost
    }

    proof fn total(a: Self, b: Self) {
    }

    proof fn transitive(a: Self, b: Self, c: Self) {
    }

    fn comes_before(&self, other: &Self) -> (r: bool) {
        self.route.cost <= other.route.cost
    }
}

/// The routes that leave from an address, as departures from there.
pub open spec fn departures_from(
    routes_by_addr: Seq<(IpAddr, Seq<Route>)>,
    address: IpAddr,
) -> Seq<Departure> {
    routes_of(routes_by_addr, address).map_values(|route: Route| Departure { address, route })
}

/// The routes that leave from any of the addresses, address by address.
pub open spec fn departures(
    routes_by_addr: Seq<(IpAddr, Seq<Route>)>,
    addresses: Seq<IpAddr>,
) -> Seq<Departure> {
    addresses.flat_map(|a: IpAddr| departures_from(routes_by_addr, a))
}

/// The link over which the departure leads to `dest`, if it does.
pub open spec fn link_for_departure(links: Seq<LinkView>, dest: IpAddr) -> spec_fn(Departure) -> Option<
    usize,
> {
    |d: Departure| link_for_route(links, d.address, d.route, dest)
}

/// The links to the next hops of all routes that leave from one of the addresses, the cheapest one
/// first; equally expensive ones are in the order of the addresses.
pub open spec fn routed_links(
    links: Seq<LinkView>,
    routes_by_addr: Seq<(IpAddr, Seq<Route>)>,
    addresses: Seq<IpAddr>,
    dest: IpAddr,
) -> Seq<usize> {
    stably_sorted(departures(routes_by_addr, addresses)).filter_map(
        link_for_departure(links, dest),
    )
}

/// The links that could take a packet towards `dest`: direct links first, then those that routes
/// lead over, the cheapest one first.
pub open spec fn walk(
    links: Seq<LinkView>,
    routes_by_addr: Seq<(IpAddr, Seq<Route>)>,
    addresses: Seq<IpAddr>,
    dest: IpAddr,
) -> Seq<usize> {
    direct_links(links, addresses, dest) + routed_links(links, routes_by_addr, addresses, dest)
}

impl InMemoryNetwork {
    fn routes_index(&self, address: IpAddr) -> (r: usize)
        requires
            has_routes(self@.routes_by_addr, address),
        ensures
            r < self.routes_by_addr@.len(),
            self.routes_by_addr@[r as int].1@ == routes_of(self@.routes_by_addr, address),
    {
        let ghost all = self@.routes_by_addr;
        let ghost p = is_about(address);
        let mut i: usize = 0;
        while i < self.routes_by_addr.len()
            invariant
                i <= self.routes_by_addr@.len(),
                all == self@.routes_by_addr,
                has_routes(all, address),
                p == is_about(address),
                forall|j: int| 0 <= j < i ==> !p(#[trigger] all[j]),
            decreases self.routes_by_addr@.len() - i,
        {
            assert(all[i as int] == (
                self.routes_by_addr@[i as int].0,
                self.routes_by_addr@[i as int].1@,
            ));
            if self.routes_by_addr[i].0 == address {
                proof {
                    lemma_first_index_is(all, p, i as int);
                }
                return i;
            }
            i = i + 1;
        }
        proof {
            let k = choose|k: int| 0 <= k < all.len() && (#[trigger] all[k]).0 == address;
            assert(p(all[k]));
        }
        0
    }

    fn push_departures(&self, found: &mut Vec<Departure>, address: IpAddr)
        requires
            has_routes(self@.routes_by_addr, address),
        ensures
            final(found)@ == old(found)@ + departures_from(self@.routes_by_addr, address),
    {
        let index: usize = self.routes_index(address);
        let routes = &self.routes_by_addr[index].1;
        let ghost all = departures_from(self@.routes_by_addr, address);
        for i in 0..routes.len()
            invariant
                all == routes@.map_values(|route: Route| Departure { address, route }),
                found@ == old(found)@ + all.take(i as int),
        {
            found.push(Departure { address, route: routes[i] });
            assert(found@ =~= old(found)@ + all.take(i + 1));
        }
        assert(all.take(all.len() as int) =~= all);
    }

    /// The routes that leave from the node, the cheapest one first.
    fn sorted_departures(&self, node: usize) -> (r: Vec<Departure>)
        requires
            self.wf(),
            node < self@.nodes.len(),
        ensures
            r@ == stably_sorted(
                departures(self@.routes_by_addr, self@.nodes[node as int].addresses),
            ),
    {
        let ghost routes_by_addr = self@.routes_by_addr;
        let addresses = &self.nodes[node].addresses;
        assert(self@.nodes[node as int].addresses == addresses@);
        let mut found: Vec<Departure> = Vec::new();
        let ghost g = |a: IpAddr| departures_from(routes_by_addr, a);
        assert(addresses@.take(0).flat_map(g) =~= Seq::empty());
        for i in 0..addresses.len()
            invariant
                self.wf(),
                node < self@.nodes.len(),
                self@.nodes[node as int].addresses == addresses@,
                routes_by_addr == self@.routes_by_addr,
                g == (|a: IpAddr| departures_from(routes_by_addr, a)),
                found@ == addresses@.take(i as int).flat_map(g),
        {
            assert(has_routes(routes_by_addr, self@.nodes[node as int].addresses[i as int]));
            self.push_departures(&mut found, addresses[i]);
            proof {
                addresses@.lemma_flat_map_take_append(g, i as int);
            }
        }
        assert(addresses@.take(addresses@.len() as int) =~= addresses@);
        let ghost all = found@;
        let sorted = stable_sort(found);
        proof {
            lemma_is_stably_sorted(all, sorted@);
        }
        sorted
    }

    /// The links that could take a packet from the node towards `dest`, the preferred one first.
    ///
    /// Links that are down are among them: in a space setting they are expected to come up again
    /// eventually.
    pub fn walk_links(&self, node: usize, dest: IpAddr) -> (found: Vec<usize>)
        requires
            self.wf(),
            node < self@.nodes.len(),
        ensures
            found@ == self@.walk_links(node as int, dest),
            forall|k: int| 0 <= k < found@.len() ==> #[trigger] found@[k] < self@.links.len(),
    {
        let ghost links = self@.links;
        let ghost routes_by_addr = self@.routes_by_addr;
        let addresses = &self.nodes[node].addresses;
        assert(self@.nodes[node as int].addresses == addresses@);

        // Prefer direct links if available
        let mut found: Vec<usize> = Vec::new();
        let ghost f = |a: IpAddr| link_between(links, a, dest);
        assert(addresses@.take(0).filter_map(f) =~= Seq::empty());
        for i in 0..addresses.len()
            invariant
                links == self@.links,
                f == (|a: IpAddr| link_between(links, a, dest)),
                found@ == addresses@.take(i as int).filter_map(f),
                forall|k: int| 0 <= k < found@.len() ==> #[trigger] found@[k] < links.len(),
        {
            proof {
                addresses@.lemma_filter_map_take_succ(f, i as int);
            }
            if let Some(link) = self.link_between(addresses[i], dest) {
                found.push(link);
            }
            assert(found@ =~= addresses@.take(i + 1).filter_map(f));
        }
        assert(addresses@.take(addresses@.len() as int) =~= addresses@);

        // Use routing otherwise
        let sorted = self.sorted_departures(node);
        let ghost direct = found@;
        let ghost g = link_for_departure(links, dest);
        assert(sorted@.take(0).filter_map(g) =~= Seq::empty());
        assert(found@ =~= direct + sorted@.take(0).filter_map(g));
        for i in 0..sorted.len()
            invariant
                links == self@.links,
                g == link_for_departure(links, dest),
                found@ == direct + sorted@.take(i as int).filter_map(g),
                forall|k: int| 0 <= k < found@.len() ==> #[trigger] found@[k] < links.len(),
        {
            proof {
                sorted@.lemma_filter_map_take_succ(g, i as int);
            }
            if let Some(next) = sorted[i].route.next_hop_towards_destination(dest) {
                if let Some(link) = self.link_between(sorted[i].address, next) {
                    found.push(link);
                }
            }
            assert(found@ =~= direct + sorted@.take(i + 1).filter_map(g));
        }
        assert(sorted@.take(sorted@.len() as int) =~= sorted@);
        found
    }
}

/// A link that connects the two addresses is found between them.
proof fn lemma_link_between(links: Seq<LinkView>, source: IpAddr, target: IpAddr)
    requires
        links.len() <= usize::MAX,
    ensures
        link_between(links, source, target) matches Some(i) ==> i < links.len()
            && links[i as int].source == source && links[i as int].target == target,
{
    lemma_first_index(links, |l: LinkView| l.source == source && l.target == target);
}

/// Departures leave from one of the addresses, on one of the routes from there.
proof fn lemma_departures(
    routes_by_addr: Seq<(IpAddr, Seq<Route>)>,
    addresses: Seq<IpAddr>,
    d: Departure,
)
    ensures
        departures(routes_by_addr, addresses).contains(d) <==> addresses.contains(d.address)
            && routes_of(routes_by_addr, d.address).contains(d.route),
    decreases addresses.len(),
{
    let g = |a: IpAddr| departures_from(routes_by_addr, a);
    let all = departures(routes_by_addr, addresses);
    if addresses.len() == 0 {
        assert(all =~= Seq::empty());
    } else {
        let last = addresses.len() - 1;
        let front = addresses.drop_last();
        assert(addresses.take(last) =~= front);
        assert(addresses.take(last + 1) =~= addresses);
        addresses.lemma_flat_map_take_append(g, last);
        let before = departures(routes_by_addr, front);
        let added = departures_from(routes_by_addr, addresses[last]);
        assert(all == before + added);
        lemma_departures(routes_by_addr, front, d);
        if all.contains(d) {
            let k = choose|k: int| 0 <= k < all.len() && all[k] == d;
            if k < before.len() {
                assert(before[k] == d);
                let a = choose|a: int| 0 <= a < front.len() && front[a] == d.address;
                assert(addresses[a] == d.address);
            } else {
                let r = k - before.len();
                assert(added[r] == d);
                assert(routes_of(routes_by_addr, d.address)[r] == d.route);
                assert(addresses[last] == d.address);
            }
        }
        if addresses.contains(d.address) && routes_of(routes_by_addr, d.address).contains(
            d.route,
        ) {
            let a = choose|a: int| 0 <= a < addresses.len() && addresses[a] == d.address;
            if a < last {
                assert(front[a] == d.address);
                let k = choose|k: int| 0 <= k < before.len() && before[k] == d;
                assert(all[k] == d);
            } else {
                let routes = routes_of(routes_by_addr, d.address);
                let r = choose|r: int| 0 <= r < routes.len() && routes[r] == d.route;
                assert(added[r] == d);
                assert(all[before.len() + r] == d);
            }
        }
    }
}

/// Packets take no other links than those that leave from one of the node's addresses, and either
/// lead straight to the destination or to the next hop of one of the node's routes towards it.
pub proof fn law_links_lead_towards_destination(
    links: Seq<LinkView>,
    routes_by_addr: Seq<(IpAddr, Seq<Route>)>,
    addresses: Seq<IpAddr>,
    dest: IpAddr,
    link: usize,
)
    requires
        links.len() <= usize::MAX,
        walk(links, routes_by_addr, addresses, dest).contains(link),
    ensures
        link < links.len(),
        addresses.contains(links[link as int].source),
        links[link as int].target == dest || exists|r: int|
            0 <= r < routes_of(routes_by_addr, links[link as int].source).len() && {
                let route = #[trigger] routes_of(routes_by_addr, links[link as int].source)[r];
                route.destination.spec_contains(dest) && route.next == links[link as int].target
            },
{
    let direct = direct_links(links, addresses, dest);
    let routed = routed_links(links, routes_by_addr, addresses, dest);
    let all = walk(links, routes_by_addr, addresses, dest);
    let k = choose|k: int| 0 <= k < all.len() && all[k] == link;
    if k < direct.len() {
        let f = |a: IpAddr| link_between(links, a, dest);
        assert(direct[k] == link);
        assert(direct.contains(link));
        addresses.lemma_filter_map_contains(f, link);
        let a = choose|a: IpAddr| addresses.contains(a) && #[trigger] f(a) == Some(link);
        lemma_link_between(links, a, dest);
    } else {
        assert(routed[k - direct.len()] == link);
        assert(routed.contains(link));
        let f = link_for_departure(links, dest);
        let input = departures(routes_by_addr, addresses);
        let sorted = stably_sorted(input);
        sorted.lemma_filter_map_contains(f, link);
        let d = choose|d: Departure| sorted.contains(d) && #[trigger] f(d) == Some(link);
        lemma_stably_sorted(input);
        lemma_same_elements(sorted, input);
        lemma_departures(routes_by_addr, addresses, d);
        let routes = routes_of(routes_by_addr, d.address);
        let r = choose|r: int| 0 <= r < routes.len() && routes[r] == d.route;
        lemma_link_between(links, d.address, d.route.next);
        assert(routes_of(routes_by_addr, links[link as int].source)[r] == d.route);
    }
}

/// The routes that lead, over a link, from one of the addresses towards `dest`, the cheapest one
/// first.
pub open spec fn usable_departures(
    links: Seq<LinkView>,
    routes_by_addr: Seq<(IpAddr, Seq<Route>)>,
    addresses: Seq<IpAddr>,
    dest: IpAddr,
) -> Seq<Departure> {
    stably_sorted(departures(routes_by_addr, addresses)).filter(
        |d: Departure| link_for_departure(links, dest)(d) is Some,
    )
}

proof fn lemma_usable(sorted: Seq<Departure>, links: Seq<LinkView>, dest: IpAddr)
    requires
        is_sorted(sorted),
    ensures
        ({
            let f = link_for_departure(links, dest);
            let usable = sorted.filter(|d: Departure| link_for_departure(links, dest)(d) is Some);
            &&& is_sorted(usable)
            &&& forall|i: int|
                0 <= i < usable.len() ==> sorted.contains(#[trigger] usable[i]) && f(
                    usable[i],
                ) is Some
            &&& sorted.filter_map(f) == usable.map_values(|d: Departure| f(d)->0)
        }),
    decreases sorted.len(),
{
    let f = link_for_departure(links, dest);
    let p = |d: Departure| link_for_departure(links, dest)(d) is Some;
    let to_link = |d: Departure| f(d)->0;
    reveal(Seq::filter);
    if sorted.len() == 0 {
        assert(sorted.filter_map(f) =~= Seq::empty());
        assert(sorted.filter(p) =~= Seq::empty());
        assert(sorted.filter_map(f) =~= sorted.filter(p).map_values(to_link));
    } else {
        let front = sorted.drop_last();
        let last = sorted.len() - 1;
        assert forall|i: int, j: int| 0 <= i < j < front.len() implies (
        #[trigger] front[i]).precedes(#[trigger] front[j]) by {
            assert(sorted[i].precedes(sorted[j]));
        }
        lemma_usable(front, links, dest);
        assert(sorted.take(last) =~= front);
        assert(sorted.take(last + 1) =~= sorted);
        sorted.lemma_filter_map_take_succ(f, last);
        assert(sorted =~= front.push(sorted[last]));
        front.lemma_filter_push(sorted[last], p);
        let before = front.filter(p);
        let after = sorted.filter(p);
        assert(sorted.filter_map(f) =~= after.map_values(to_link));
        assert forall|i: int| 0 <= i < after.len() implies sorted.contains(#[trigger] after[i])
            && f(after[i]) is Some by {
            if i < before.len() {
                assert(front.contains(before[i]));
                let k = choose|k: int| 0 <= k < front.len() && front[k] == before[i];
                assert(sorted[k] == after[i]);
            } else {
                assert(sorted[last] == after[i]);
            }
        }
        assert forall|i: int, j: int| 0 <= i < j < after.len() implies (
        #[trigger] after[i]).precedes(#[trigger] after[j]) by {
            if j < before.len() {
                assert(before[i].precedes(before[j]));
            } else {
                assert(front.contains(before[i]));
                let k = choose|k: int| 0 <= k < front.len() && front[k] == before[i];
                assert(sorted[k].precedes(sorted[last]));
            }
        }
    }
}

/// Cheaper routes are preferred, whichever of the node's addresses they leave from: the links that
/// the routes lead over come in the order of the routes' costs.
pub proof fn law_cheaper_routes_are_preferred(
    links: Seq<LinkView>,
    routes_by_addr: Seq<(IpAddr, Seq<Route>)>,
    addresses: Seq<IpAddr>,
    dest: IpAddr,
    i: int,
    j: int,
)
    requires
        0 <= i < j < routed_links(links, routes_by_addr, addresses, dest).len(),
    ensures
        ({
            let found = routed_links(links, routes_by_addr, addresses, dest);
            let usable = usable_departures(links, routes_by_addr, addresses, dest);
            &&& usable.len() == found.len()
            &&& departures(routes_by_addr, addresses).contains(usable[i])
            &&& departures(routes_by_addr, addresses).contains(usable[j])
            &&& link_for_departure(links, dest)(usable[i]) == Some(found[i])
            &&& link_for_departure(links, dest)(usable[j]) == Some(found[j])
            &&& usable[i].route.cost <= usable[j].route.cost
        }),
{
    let input = departures(routes_by_addr, addresses);
    let sorted = stably_sorted(input);
    lemma_stably_sorted(input);
    lemma_same_elements(sorted, input);
    lemma_usable(sorted, links, dest);
    let usable = usable_departures(links, routes_by_addr, addresses, dest);
    assert(usable[i].precedes(usable[j]));
    assert(sorted.contains(usable[i]) && sorted.contains(usable[j]));
}

/// The list holds the first link, and the second one somewhere behind it.
pub open spec fn stands_before(links: Seq<usize>, first: usize, second: usize) -> bool {
    exists|i: int, j: int|
        0 <= i < j < links.len() && #[trigger] links[i] == first && #[trigger] links[j] == second
}

/// Of two routes that leave from any of a node's addresses and lead over a link, the link of the
/// cheaper one comes first.
pub proof fn law_the_cheaper_link_comes_first(
    links: Seq<LinkView>,
    routes_by_addr: Seq<(IpAddr, Seq<Route>)>,
    addresses: Seq<IpAddr>,
    dest: IpAddr,
    cheap: Departure,
    expensive: Departure,
)
    requires
        departures(routes_by_addr, addresses).contains(cheap),
        departures(routes_by_addr, addresses).contains(expensive),
        link_for_departure(links, dest)(cheap) is Some,
        link_for_departure(links, dest)(expensive) is Some,
        cheap.route.cost < expensive.route.cost,
    ensures
        stands_before(
            routed_links(links, routes_by_addr, addresses, dest),
            link_for_departure(links, dest)(cheap)->0,
            link_for_departure(links, dest)(expensive)->0,
        ),
{
    let input = departures(routes_by_addr, addresses);
    let sorted = stably_sorted(input);
    lemma_stably_sorted(input);
    lemma_same_elements(sorted, input);
    lemma_usable(sorted, links, dest);
    let usable = usable_departures(links, routes_by_addr, addresses, dest);
    let found = routed_links(links, routes_by_addr, addresses, dest);
    let p = |d: Departure| link_for_departure(links, dest)(d) is Some;
    let a = choose|a: int| 0 <= a < sorted.len() && sorted[a] == cheap;
    let b = choose|b: int| 0 <= b < sorted.len() && sorted[b] == expensive;
    sorted.lemma_filter_contains(p, a);
    sorted.lemma_filter_contains(p, b);
    let i = choose|i: int| 0 <= i < usable.len() && usable[i] == cheap;
    let j = choose|j: int| 0 <= j < usable.len() && usable[j] == expensive;
    if j < i {
        assert(usable[j].precedes(usable[i]));
    }
    assert(found[i] == link_for_departure(links, dest)(usable[i])->0);
    assert(found[j] == link_for_departure(links, dest)(usable[j])->0);
}

/// The route, which leaves from the address, leads over the link towards `dest`: it is among those
/// that are known of the address, `dest` lies between the first and the last address that the route
/// leads to, and the link connects the address with the route's next hop.
pub open spec fn leads_over(
    network: NetworkView,
    address: IpAddr,
    route: Route,
    link: int,
    dest: IpAddr,
) -> bool {
    &&& exists|k: int| #[trigger] is_route_of(network.routes_by_addr, k, address, route)
    &&& dest matches IpAddr::V4(number) && route.destination.first <= number
        <= route.destination.last
    &&& 0 <= link < network.links.len()
    &&& network.links[link].source == address
    &&& network.links[link].target == route.next
}

/// The route is in the entry at the given place, which is the first one about the address.
pub open spec fn is_route_of(
    routes_by_addr: Seq<(IpAddr, Seq<Route>)>,
    k: int,
    address: IpAddr,
    route: Route,
) -> bool {
    &&& 0 <= k < routes_by_addr.len()
    &&& routes_by_addr[k].0 == address
    &&& forall|j: int| 0 <= j < k ==> (#[trigger] routes_by_addr[j]).0 != address
    &&& routes_by_addr[k].1.contains(route)
}

proof fn lemma_leads_over(
    network: NetworkView,
    addresses: Seq<IpAddr>,
    address: IpAddr,
    route: Route,
    link: int,
    dest: IpAddr,
)
    requires
        network.wf(),
        network.links.len() <= usize::MAX,
        addresses.contains(address),
        leads_over(network, address, route, link, dest),
    ensures
        departures(network.routes_by_addr, addresses).contains(Departure { address, route }),
        link_for_departure(network.links, dest)(Departure { address, route }) == Some(
            link as usize,
        ),
{
    let all = network.routes_by_addr;
    let k = choose|k: int| #[trigger] is_route_of(all, k, address, route);
    lemma_first_index_is(all, is_about(address), k);
    lemma_departures(all, addresses, Departure { address, route });
    lemma_only_link_between(network, link);
}

/// A link is the one that is found between the addresses that it connects.
proof fn lemma_only_link_between(network: NetworkView, link: int)
    requires
        network.wf(),
        network.links.len() <= usize::MAX,
        0 <= link < network.links.len(),
    ensures
        link_between(
            network.links,
            network.links[link].source,
            network.links[link].target,
        ) == Some(link as usize),
{
    let l = network.links[link];
    let p = |x: LinkView| x.source == l.source && x.target == l.target;
    assert forall|j: int| 0 <= j < link implies !p(#[trigger] network.links[j]) by {
        assert(network.links[j].source != network.links[link].source || network.links[j].target
            != network.links[link].target);
    }
    lemma_first_index_is(network.links, p, link);
}

/// All links that could take a packet are offered it: every link from one of the node's addresses
/// straight to the destination, and every link to the next hop of a route that leaves from one of the
/// node's addresses and leads to the destination, whether or not there are other ones.
pub proof fn law_all_links_are_offered(
    network: NetworkView,
    node: int,
    dest: IpAddr,
    link: int,
    route: Route,
)
    requires
        network.wf(),
        network.links.len() <= usize::MAX,
        0 <= node < network.nodes.len(),
        0 <= link < network.links.len(),
        network.nodes[node].addresses.contains(network.links[link].source),
        network.links[link].target == dest || leads_over(
            network,
            network.links[link].source,
            route,
            link,
            dest,
        ),
    ensures
        network.walk_links(node, dest).contains(link as usize),
{
    let addresses = network.nodes[node].addresses;
    let address = network.links[link].source;
    let found = network.walk_links(node, dest);
    let direct = direct_links(network.links, addresses, dest);
    let routed = routed_links(network.links, network.routes_by_addr, addresses, dest);
    if network.links[link].target == dest {
        let f = |a: IpAddr| link_between(network.links, a, dest);
        lemma_only_link_between(network, link);
        let a = choose|a: int| 0 <= a < addresses.len() && addresses[a] == address;
        lemma_filter_map_holds(addresses, f, a, link as usize);
        let k = choose|k: int| 0 <= k < direct.len() && direct[k] == link as usize;
        assert(found[k] == link as usize);
    } else {
        lemma_leads_over(network, addresses, address, route, link, dest);
        let d = Departure { address, route };
        let input = departures(network.routes_by_addr, addresses);
        let sorted = stably_sorted(input);
        lemma_stably_sorted(input);
        lemma_same_elements(sorted, input);
        let f = link_for_departure(network.links, dest);
        let i = choose|i: int| 0 <= i < sorted.len() && sorted[i] == d;
        lemma_filter_map_holds(sorted, f, i, link as usize);
        let k = choose|k: int| 0 <= k < routed.len() && routed[k] == link as usize;
        assert(found[direct.len() + k] == link as usize);
    }
}

/// Links that lead straight to the destination are preferred: each of them stands before all links
/// that lead elsewhere.
pub proof fn law_direct_links_come_first(
    network: NetworkView,
    node: int,
    dest: IpAddr,
    link: int,
    other: int,
)
    requires
        network.wf(),
        network.links.len() <= usize::MAX,
        0 <= node < network.nodes.len(),
        0 <= link < network.links.len(),
        network.nodes[node].addresses.contains(network.links[link].source),
        network.links[link].target == dest,
        network.walk_links(node, dest).contains(other as usize),
        0 <= other < network.links.len(),
        network.links[other].target != dest,
    ensures
        stands_before(network.walk_links(node, dest), link as usize, other as usize),
        forall|i: int|
            0 <= i < network.walk_links(node, dest).len() && #[trigger] network.walk_links(
                node,
                dest,
            )[i] == other ==> exists|j: int|
                0 <= j < i && #[trigger] network.walk_links(node, dest)[j] == link,
{
    let addresses = network.nodes[node].addresses;
    let address = network.links[link].source;
    let found = network.walk_links(node, dest);
    let direct = direct_links(network.links, addresses, dest);
    let f = |a: IpAddr| link_between(network.links, a, dest);
    lemma_only_link_between(network, link);
    let a = choose|a: int| 0 <= a < addresses.len() && addresses[a] == address;
    lemma_filter_map_holds(addresses, f, a, link as usize);
    let k = choose|k: int| 0 <= k < direct.len() && direct[k] == link as usize;
    assert(found[k] == link as usize);
    assert forall|i: int| 0 <= i < found.len() && #[trigger] found[i] == other implies k < i by {
        if i < direct.len() {
            assert(direct[i] == other as usize);
            assert(direct.contains(other as usize));
            addresses.lemma_filter_map_contains(f, other as usize);
            let a = choose|a: IpAddr|
                addresses.contains(a) && #[trigger] f(a) == Some(other as usize);
            lemma_link_between(network.links, a, dest);
        }
    }
    let i = choose|i: int| 0 <= i < found.len() && found[i] == other as usize;
    assert(found[i] == other);
}

/// Cheaper routes are preferred: of two routes that lead to the destination from any of the node's
/// addresses, the link of the cheaper one stands before that of the more expensive one.
pub proof fn law_links_come_by_cost(
    network: NetworkView,
    node: int,
    dest: IpAddr,
    cheap: (IpAddr, Route, int),
    expensive: (IpAddr, Route, int),
)
    requires
        network.wf(),
        network.links.len() <= usize::MAX,
        0 <= node < network.nodes.len(),
        network.nodes[node].addresses.contains(cheap.0),
        network.nodes[node].addresses.contains(expensive.0),
        leads_over(network, cheap.0, cheap.1, cheap.2, dest),
        leads_over(network, expensive.0, expensive.1, expensive.2, dest),
        cheap.1.cost < expensive.1.cost,
    ensures
        stands_before(
            network.walk_links(node, dest),
            cheap.2 as usize,
            expensive.2 as usize,
        ),
{
    let addresses = network.nodes[node].addresses;
    let found = network.walk_links(node, dest);
    let direct = direct_links(network.links, addresses, dest);
    let routed = routed_links(network.links, network.routes_by_addr, addresses, dest);
    lemma_leads_over(network, addresses, cheap.0, cheap.1, cheap.2, dest);
    lemma_leads_over(network, addresses, expensive.0, expensive.1, expensive.2, dest);
    law_the_cheaper_link_comes_first(
        network.links,
        network.routes_by_addr,
        addresses,
        dest,
        Departure { address: cheap.0, route: cheap.1 },
        Departure { address: expensive.0, route: expensive.1 },
    );
    let (i, j) = choose|i: int, j: int|
        0 <= i < j < routed.len() && #[trigger] routed[i] == cheap.2 as usize
            && #[trigger] routed[j] == expensive.2 as usize;
    assert(found[direct.len() + i] == cheap.2 as usize);
    assert(found[direct.len() + j] == expensive.2 as usize);
}

/// No other links are offered a packet: each of those that are leaves from one of the node's
/// addresses, and leads straight to the destination or over one of the node's routes.
pub proof fn law_only_such_links_are_offered(
    network: NetworkView,
    node: int,
    dest: IpAddr,
    link: usize,
)
    requires
        network.wf(),
        network.links.len() <= usize::MAX,
        0 <= node < network.nodes.len(),
        network.walk_links(node, dest).contains(link),
    ensures
        link < network.links.len(),
        network.nodes[node].addresses.contains(network.links[link as int].source),
        network.links[link as int].target == dest || exists|route: Route|
            #[trigger] leads_over(
                network,
                network.links[link as int].source,
                route,
                link as int,
                dest,
            ),
{
    let addresses = network.nodes[node].addresses;
    law_links_lead_towards_destination(
        network.links,
        network.routes_by_addr,
        addresses,
        dest,
        link,
    );
    let l = network.links[link as int];
    if l.target != dest {
        let all = network.routes_by_addr;
        let routes = routes_of(all, l.source);
        let r = choose|r: int|
            0 <= r < routes.len() && {
                let route = #[trigger] routes[r];
                route.destination.spec_contains(dest) && route.next == l.target
            };
        let a = choose|a: int| 0 <= a < addresses.len() && addresses[a] == l.source;
        assert(has_routes(all, network.nodes[node].addresses[a]));
        let h = choose|h: int| 0 <= h < all.len() && (#[trigger] all[h]).0 == l.source;
        assert(is_about(l.source)(all[h]));
        lemma_first_index(all, is_about(l.source));
        let k = first_index(all, is_about(l.source))->0;
        assert(routes.contains(routes[r]));
        assert forall|j: int| 0 <= j < k implies (#[trigger] all[j]).0 != l.source by {
            assert(!is_about(l.source)(all[j]));
        }
        assert(is_route_of(all, k, l.source, routes[r]));
        assert(leads_over(network, l.source, routes[r], link as int, dest));
    }
}

} // verus!
