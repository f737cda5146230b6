//! Routes and the ranges of addresses that they lead to.

use crate::network::ip::{address_rank, IpAddr, Ipv4Cidr};
use crate::sorting::SortOrder;
use vstd::arithmetic::power2::{lemma_pow2_pos, lemma_pow2_strictly_increases, lemma2_to64, pow2};
use vstd::prelude::*;

verus! {

/// The IPv4 addresses from `first` to `last`, both ends included.
#[derive(Clone, Copy, PartialEq, Eq, Structural, Debug)]
pub struct IpRange {
    pub first: u32,
    pub last: u32,
}

fn block_size(host_bits: u8) -> (size: u64)
    requires
        host_bits <= 32,
    ensures
        size == pow2(host_bits as nat),
        0 < size <= 0x1_0000_0000,
{
    let mut size: u64 = 1;
    let mut i: u8 = 0;
    proof {
        lemma2_to64();
    }
    while i < host_bits
        invariant
            i <= host_bits <= 32,
            size == pow2(i as nat),
            0 < size <= 0x1_0000_0000,
        decreases host_bits - i,
    {
        proof {
            lemma2_to64();
            vstd::arithmetic::power2::lemma_pow2_unfold((i + 1) as nat);
            if i + 1 < 32 {
                lemma_pow2_strictly_increases((i + 1) as nat, 32);
            }
        }
        size = size * 2;
        i = i + 1;
    }
    size
}

/// The number of the block of `size` addresses that `address` lies in.
pub open spec fn block_of(address: u32, size: nat) -> int {
    address as int / size as int
}

impl IpRange {
    /// The range holds `ip`.
    pub open spec fn spec_contains(self, ip: IpAddr) -> bool {
        match ip {
            IpAddr::V4(address) => self.first <= address <= self.last,
            IpAddr::V6(_) => false,
        }
    }

    /// Whether the range holds `ip`.
    pub fn contains(&self, ip: IpAddr) -> (r: bool)
        ensures
            r == self.spec_contains(ip),
    {
        match ip {
            IpAddr::V4(address) => self.first <= address && address <= self.last,
            IpAddr::V6(_) => false,
        }
    }

    /// The addresses that share the network prefix of `cidr`.
    pub fn from_cidr(cidr: Ipv4Cidr) -> (range: IpRange)
        requires
            cidr.wf(),
        ensures
            forall|address: u32|
                range.spec_contains(IpAddr::V4(address)) <==> #[trigger] block_of(
                    address,
                    cidr.block_size(),
                ) == block_of(cidr.address, cidr.block_size()),
            range.first == block_of(cidr.address, cidr.block_size()) * cidr.block_size(),
            range.last == range.first + cidr.block_size() - 1,
    {
        let size: u64 = block_size(32 - cidr.prefix_len);
        let address: u64 = cidr.address as u64;
        let block: u64 = address / size;
        proof {
            let s = size as int;
            let a = address as int;
            lemma2_to64();
            vstd::arithmetic::div_mod::lemma_fundamental_div_mod(a, s);
            vstd::arithmetic::div_mod::lemma_mod_bound(a, s);
            vstd::arithmetic::mul::lemma_mul_is_commutative(s, a / s);
            vstd::arithmetic::div_mod::lemma_div_is_ordered(a, 0xffff_ffff, s);
            // The block ends before the next multiple of its size, which is at most 2^32
            assert((a / s) * s + s <= 0x1_0000_0000) by {
                let bits = (32 - cidr.prefix_len) as nat;
                let blocks = pow2((32 - bits) as nat) as int;
                vstd::arithmetic::power2::lemma_pow2_adds((32 - bits) as nat, bits);
                assert(blocks * s == 0x1_0000_0000);
                assert(a / s < blocks) by {
                    lemma_pow2_pos((32 - bits) as nat);
                    vstd::arithmetic::div_mod::lemma_multiply_divide_lt(a, s, blocks);
                }
                vstd::arithmetic::mul::lemma_mul_inequality(a / s + 1, blocks, s);
                vstd::arithmetic::mul::lemma_mul_is_distributive_add_other_way(s, a / s, 1);
            }
            assert forall|x: u32|
                ((a / s) * s <= x <= (a / s) * s + s - 1) <==> #[trigger] block_of(x, size as nat)
                    == a / s by {
                let q = a / s;
                if q * s <= x <= q * s + s - 1 {
                    vstd::arithmetic::div_mod::lemma_fundamental_div_mod_converse(
                        x as int,
                        s,
                        q,
                        x - q * s,
                    );
                }
                if x as int / s == q {
                    vstd::arithmetic::div_mod::lemma_fundamental_div_mod(x as int, s);
                    vstd::arithmetic::div_mod::lemma_mod_bound(x as int, s);
                    vstd::arithmetic::mul::lemma_mul_is_commutative(s, x as int / s);
                }
            }
        }
        let first: u64 = block * size;
        IpRange { first: first as u32, last: (first + (size - 1)) as u32 }
    }
}

/// A route towards a range of addresses.
#[derive(Clone, Copy, PartialEq, Eq, Structural, Debug)]
pub struct Route {
    pub destination: IpRange,
    /// The address of the next hop
    pub next: IpAddr,
    pub cost: u64,
}

impl Route {
    pub open spec fn spec_next_hop_towards_destination(self, dest: IpAddr) -> Option<IpAddr> {
        if self.destination.spec_contains(dest) {
            Some(self.next)
        } else {
            None
        }
    }

    /// The next hop on the way to `dest`, if the route leads there.
    pub fn next_hop_towards_destination(&self, dest: IpAddr) -> (next: Option<IpAddr>)
        ensures
            next == self.spec_next_hop_towards_destination(dest),
    {
        if self.destination.contains(dest) {
            Some(self.next)
        } else {
            None
        }
    }
}

/// Cheaper routes come first.
impl SortOrder for Route {
    open spec fn precedes(self, other: Self) -> bool {
        self.cost <= other.cost
    }

    proof fn total(a: Self, b: Self) {
    }

    proof fn transitive(a: Self, b: Self, c: Self) {
    }

    fn comes_before(&self, other: &Self) -> (r: bool) {
        self.cost <= other.cost
    }
}

/// A route together with the address of the interface that it leaves from. Cheaper routes come
/// first; among equally expensive ones the smaller interface address comes first.
impl SortOrder for (IpAddr, Route) {
    open spec fn precedes(self, other: Self) -> bool {
        self.1.cost < other.1.cost || (self.1.cost == other.1.cost && self.0.at_most(other.0))
    }

    proof fn total(a: Self, b: Self) {
    }

    proof fn transitive(a: Self, b: Self, c: Self) {
    }

    fn comes_before(&self, other: &Self) -> (r: bool) {
        self.1.cost < other.1.cost || (self.1.cost == other.1.cost && self.0.comes_before(&other.0))
    }
}

/// A range holds the IPv4 addresses between its ends, both ends among them, and no IPv6 address. A
/// route leads to its next hop if its range holds the destination, and nowhere otherwise.
pub proof fn law_ranges_hold_what_lies_between(route: Route, address: u32, other: u128)
    ensures
        ({
            let range = route.destination;
            let inside = range.first <= address && address <= range.last;
            &&& range.spec_contains(IpAddr::V4(address)) <==> inside
            &&& !range.spec_contains(IpAddr::V6(other))
            &&& inside ==> route.spec_next_hop_towards_destination(IpAddr::V4(address)) == Some(
                route.next,
            )
            &&& !inside ==> route.spec_next_hop_towards_destination(IpAddr::V4(address)) is None
            &&& route.spec_next_hop_towards_destination(IpAddr::V6(other)) is None
        }),
{
}

/// Routes are ordered by their cost. Those that leave from interfaces are ordered by the interface's
/// address where the cost is the same.
pub proof fn law_routes_are_ordered(a: (IpAddr, Route), b: (IpAddr, Route))
    ensures
        a.1.precedes(b.1) <==> a.1.cost <= b.1.cost,
        a.1.cost < b.1.cost ==> a.precedes(b) && !b.precedes(a),
        a.1.cost == b.1.cost ==> (a.precedes(b) <==> address_rank(a.0) <= address_rank(b.0)),
{
}


} // verus!
