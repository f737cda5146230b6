//! Which routes a node knows.

use crate::network::ip::{address_rank, IpAddr, Ipv4Cidr};
use crate::network::node::{
    are_node_routes, are_node_routes_split_at, cidrs, configured_routes, connections,
    from_each_address, interface_routes, is_connected_route, link_target,
};
use crate::network::route::Route;
use crate::network::spec::{NetworkInterface, NetworkNodeSpec};
use crate::search::{lemma_filter_map_holds, lemma_flat_map_holds};
use crate::sorting::{is_stable_sort, lemma_same_elements};
use vstd::arithmetic::power2::lemma_pow2_pos;
use vstd::prelude::*;

verus! {

/// The range of the route holds exactly the addresses that share the prefix of the given one: it holds
/// that address, is as large as a block, and starts where a block starts.
pub open spec fn leads_to_network_of(route: Route, cidr: Ipv4Cidr) -> bool {
    &&& route.destination.first <= cidr.address <= route.destination.last
    &&& route.destination.last - route.destination.first + 1 == cidr.block_size()
    &&& route.destination.first as int % cidr.block_size() as int == 0
}

/// A route that is free of cost leads from the address, over the target, to the address's network.
pub open spec fn is_way_into_network(
    route: (IpAddr, Route),
    cidr: Ipv4Cidr,
    target: IpAddr,
) -> bool {
    &&& route.0 == IpAddr::V4(cidr.address)
    &&& route.1.next == target
    &&& route.1.cost == 0
    &&& leads_to_network_of(route.1, cidr)
}

proof fn lemma_connected(route: (IpAddr, Route), connection: (Ipv4Cidr, IpAddr))
    requires
        is_connected_route(route, connection),
    ensures
        is_way_into_network(route, connection.0, connection.1),
{
    let size = connection.0.block_size() as int;
    let address = connection.0.address as int;
    lemma_pow2_pos((32 - connection.0.prefix_len) as nat);
    vstd::arithmetic::div_mod::lemma_fundamental_div_mod(address, size);
    vstd::arithmetic::div_mod::lemma_mod_bound(address, size);
    vstd::arithmetic::mul::lemma_mul_is_commutative(size, address / size);
    vstd::arithmetic::div_mod::lemma_mod_multiples_basic(address / size, size);
}

proof fn lemma_configured(interfaces: Seq<NetworkInterface>, i: int, a: int, r: int)
    requires
        0 <= i < interfaces.len(),
        0 <= a < interfaces[i].addresses@.len(),
        0 <= r < interfaces[i].routes@.len(),
    ensures
        configured_routes(interfaces).contains(
            (IpAddr::V4(interfaces[i].addresses@[a].address), interfaces[i].routes@[r]),
        ),
{
    let interface = interfaces[i];
    let f = |x: NetworkInterface| interface_routes(x);
    let g = |x: Route| from_each_address(interface.addresses@, x);
    let e = (IpAddr::V4(interface.addresses@[a].address), interface.routes@[r]);
    assert(g(interface.routes@[r])[a] == e);
    lemma_flat_map_holds(interface.routes@, g, interface.routes@.len() as int, r, a);
    assert(interface.routes@.take(interface.routes@.len() as int) =~= interface.routes@);
    let k = choose|k: int|
        0 <= k < interface_routes(interface).len() && interface_routes(interface)[k] == e;
    assert(f(interfaces[i])[k] == e);
    lemma_flat_map_holds(interfaces, f, interfaces.len() as int, i, k);
    assert(interfaces.take(interfaces.len() as int) =~= interfaces);
}

/// A node knows, from each of its addresses, all routes of the address's interface. Where a link
/// leaves from the address, it also knows the way, free of cost, into the address's own network.
pub proof fn law_nodes_know_their_routes(
    routes: Seq<(IpAddr, Route)>,
    node: NetworkNodeSpec,
    links: Seq<(IpAddr, IpAddr)>,
    i: int,
    a: int,
)
    requires
        are_node_routes(routes, node, links),
        0 <= i < node.interfaces@.len(),
        0 <= a < node.interfaces@[i].addresses@.len(),
    ensures
        ({
            let interface = node.interfaces@[i];
            let cidr = interface.addresses@[a];
            &&& forall|r: int|
                0 <= r < interface.routes@.len() ==> routes.contains(
                    (IpAddr::V4(cidr.address), #[trigger] interface.routes@[r]),
                )
            &&& match link_target(links, IpAddr::V4(cidr.address)) {
                Some(target) => exists|k: int|
                    0 <= k < routes.len() && is_way_into_network(
                        #[trigger] routes[k],
                        cidr,
                        target,
                    ),
                None => true,
            }
        }),
{
    let n = choose|n: int| #[trigger] are_node_routes_split_at(routes, node, links, n);
    let interface = node.interfaces@[i];
    let cidr = interface.addresses@[a];
    let configured = configured_routes(node.interfaces@);
    lemma_same_elements(routes.skip(n), configured);
    assert forall|r: int| 0 <= r < interface.routes@.len() implies routes.contains(
        (IpAddr::V4(cidr.address), #[trigger] interface.routes@[r]),
    ) by {
        let e = (IpAddr::V4(cidr.address), interface.routes@[r]);
        lemma_configured(node.interfaces@, i, a, r);
        assert(routes.skip(n).contains(e));
        let k = choose|k: int| 0 <= k < routes.skip(n).len() && routes.skip(n)[k] == e;
        assert(routes[n + k] == e);
    }
    if let Some(target) = link_target(links, IpAddr::V4(cidr.address)) {
        let all = cidrs(node.interfaces@);
        let f = |x: NetworkInterface| x.addresses@;
        let g = |x: Ipv4Cidr|
            match link_target(links, x.spec_as_ip_addr()) {
                Some(target) => Some((x, target)),
                None => None,
            };
        assert(f(node.interfaces@[i])[a] == cidr);
        lemma_flat_map_holds(node.interfaces@, f, node.interfaces@.len() as int, i, a);
        assert(node.interfaces@.take(node.interfaces@.len() as int) =~= node.interfaces@);
        let c = choose|c: int| 0 <= c < all.len() && all[c] == cidr;
        lemma_filter_map_holds(all, g, c, (cidr, target));
        let ways = connections(links, all);
        let k = choose|k: int| 0 <= k < ways.len() && ways[k] == (cidr, target);
        assert(is_connected_route(routes.take(n)[k], ways[k]));
        lemma_connected(routes.take(n)[k], ways[k]);
        assert(is_way_into_network(routes[k], cidr, target));
    }
}

/// A node knows no other routes, and knows them in a fixed order: first the ways into its own
/// networks, which cost nothing, then the configured ones, the cheaper ones first, and those that cost
/// the same by the address that they leave from.
pub proof fn law_nodes_know_no_other_routes(
    routes: Seq<(IpAddr, Route)>,
    node: NetworkNodeSpec,
    links: Seq<(IpAddr, IpAddr)>,
    j: int,
    k: int,
)
    requires
        are_node_routes(routes, node, links),
        0 <= j < k < routes.len(),
    ensures
        ({
            let ways = connections(links, cidrs(node.interfaces@));
            &&& routes.len() == ways.len() + configured_routes(node.interfaces@).len()
            &&& j < ways.len() ==> is_way_into_network(routes[j], ways[j].0, ways[j].1)
            &&& j >= ways.len() ==> {
                &&& routes[j].1.cost <= routes[k].1.cost
                &&& routes[j].1.cost == routes[k].1.cost ==> address_rank(routes[j].0)
                    <= address_rank(routes[k].0)
                &&& configured_routes(node.interfaces@).contains(routes[j])
            }
        }),
{
    let n = choose|n: int| #[trigger] are_node_routes_split_at(routes, node, links, n);
    let ways = connections(links, cidrs(node.interfaces@));
    let configured = configured_routes(node.interfaces@);
    let rest = routes.skip(n);
    lemma_same_elements(rest, configured);
    lemma_same_length(configured, rest);
    if j < n {
        assert(is_connected_route(routes.take(n)[j], ways[j]));
        lemma_connected(routes[j], ways[j]);
    } else {
        assert(rest[j - n] == routes[j] && rest[k - n] == routes[k]);
        assert(rest.contains(rest[j - n]));
    }
}

proof fn lemma_same_length(input: Seq<(IpAddr, Route)>, output: Seq<(IpAddr, Route)>)
    requires
        is_stable_sort(input, output),
    ensures
        input.len() == output.len(),
{
    broadcast use vstd::seq_lib::group_to_multiset_ensures;

    assert(input.to_multiset().len() == output.to_multiset().len());
}

/// Each route of an interface is known once for each address of the interface, and each interface
/// brings its own routes.
pub proof fn law_configured_routes_are_counted(
    interfaces: Seq<NetworkInterface>,
    interface: NetworkInterface,
)
    ensures
        configured_routes(Seq::empty()).len() == 0,
        configured_routes(interfaces.push(interface)).len() == configured_routes(interfaces).len()
            + interface.routes@.len() * interface.addresses@.len(),
{
    let f = |x: NetworkInterface| interface_routes(x);
    let all = interfaces.push(interface);
    let n = interfaces.len() as int;
    assert(Seq::<NetworkInterface>::empty().flat_map(f) =~= Seq::empty());
    all.lemma_flat_map_take_append(f, n);
    assert(all.take(n) =~= interfaces);
    assert(all.take(n + 1) =~= all);
    lemma_routes_counted(interface, interface.routes@.len());
    assert(interface.routes@.take(interface.routes@.len() as int) =~= interface.routes@);
}

proof fn lemma_routes_counted(interface: NetworkInterface, count: nat)
    requires
        count <= interface.routes@.len(),
    ensures
        interface.routes@.take(count as int).flat_map(
            |x: Route| from_each_address(interface.addresses@, x),
        ).len() == count * interface.addresses@.len(),
    decreases count,
{
    let g = |x: Route| from_each_address(interface.addresses@, x);
    if count == 0 {
        assert(interface.routes@.take(0).flat_map(g) =~= Seq::empty());
    } else {
        lemma_routes_counted(interface, (count - 1) as nat);
        interface.routes@.lemma_flat_map_take_append(g, count - 1);
        let m = interface.addresses@.len();
        assert((count - 1) * m + m == count * m) by (nonlinear_arith)
            requires
                count >= 1,
        ;
    }
}

} // verus!
