//! IP addresses, address blocks and socket addresses.

use crate::sorting::SortOrder;
use vstd::arithmetic::power2::pow2;
use vstd::prelude::*;

verus! {

/// An IP address, as the number that its octets spell in network byte order.
#[derive(Clone, Copy, PartialEq, Eq, Structural, Debug)]
pub enum IpAddr {
    V4(u32),
    V6(u128),
}

impl IpAddr {
    /// IPv4 addresses come before IPv6 addresses; within a family the smaller number comes first.
    pub open spec fn at_most(self, other: IpAddr) -> bool {
        match (self, other) {
            (IpAddr::V4(a), IpAddr::V4(b)) => a <= b,
            (IpAddr::V4(_), IpAddr::V6(_)) => true,
            (IpAddr::V6(_), IpAddr::V4(_)) => false,
            (IpAddr::V6(a), IpAddr::V6(b)) => a <= b,
        }
    }
}

impl SortOrder for IpAddr {
    open spec fn precedes(self, other: Self) -> bool {
        self.at_most(other)
    }

    proof fn total(a: Self, b: Self) {
    }

    proof fn transitive(a: Self, b: Self, c: Self) {
    }

    fn comes_before(&self, other: &Self) -> (r: bool) {
        match (*self, *other) {
            (IpAddr::V4(a), IpAddr::V4(b)) => a <= b,
            (IpAddr::V4(_), IpAddr::V6(_)) => true,
            (IpAddr::V6(_), IpAddr::V4(_)) => false,
            (IpAddr::V6(a), IpAddr::V6(b)) => a <= b,
        }
    }
}

/// Pairs of addresses are ordered by their first address, then by their second one.
impl SortOrder for (IpAddr, IpAddr) {
    open spec fn precedes(self, other: Self) -> bool {
        if self.0 == other.0 {
            self.1.at_most(other.1)
        } else {
            self.0.at_most(other.0)
        }
    }

    proof fn total(a: Self, b: Self) {
    }

    proof fn transitive(a: Self, b: Self, c: Self) {
    }

    fn comes_before(&self, other: &Self) -> (r: bool) {
        if self.0 == other.0 {
            self.1.comes_before(&other.1)
        } else {
            self.0.comes_before(&other.0)
        }
    }
}

/// The IPv4 address with the given octets.
pub fn ipv4_from_octets(a: u8, b: u8, c: u8, d: u8) -> (address: u32)
    ensures
        address == a * 0x100_0000 + b * 0x1_0000 + c * 0x100 + d,
{
    (a as u32) * 0x100_0000 + (b as u32) * 0x1_0000 + (c as u32) * 0x100 + (d as u32)
}

/// An IP address and a port.
#[derive(Clone, Copy, PartialEq, Eq, Structural, Debug)]
pub struct SocketAddr {
    pub ip: IpAddr,
    pub port: u16,
}

/// An IPv4 address together with the length of its network prefix.
#[derive(Clone, Copy, PartialEq, Eq, Structural, Debug)]
pub struct Ipv4Cidr {
    pub address: u32,
    pub prefix_len: u8,
}

impl Ipv4Cidr {
    pub open spec fn wf(self) -> bool {
        self.prefix_len <= 32
    }

    /// The number of addresses that share the prefix.
    pub open spec fn block_size(self) -> nat {
        pow2((32 - self.prefix_len) as nat)
    }

    pub fn from_ipv4(address: u32, prefix_len: u8) -> (cidr: Ipv4Cidr)
        requires
            prefix_len <= 32,
        ensures
            cidr == (Ipv4Cidr { address, prefix_len }),
            cidr.wf(),
    {
        Ipv4Cidr { address, prefix_len }
    }

    pub open spec fn spec_as_ip_addr(self) -> IpAddr {
        IpAddr::V4(self.address)
    }

    pub fn as_ip_addr(&self) -> (ip: IpAddr)
        ensures
            ip == self.spec_as_ip_addr(),
    {
        IpAddr::V4(self.address)
    }
}

/// A network prefix in text form is split at its first slash: the address comes before it, the length
/// of the prefix after it.
pub fn split_network_prefix(text: &str) -> (r: Option<(&str, &str)>)
    ensures
        match r {
            Some((address, prefix_len)) => text@ == address@.push('/') + prefix_len@
                && !address@.contains('/'),
            None => !text@.contains('/'),
        },
{
    let len: usize = text.unicode_len();
    for i in 0..len
        invariant
            len == text@.len(),
            forall|j: int| 0 <= j < i ==> #[trigger] text@[j] != '/',
    {
        if text.get_char(i) == '/' {
            let address = text.substring_char(0, i);
            let prefix_len = text.substring_char(i + 1, len);
            assert(text@ =~= address@.push('/') + prefix_len@);
            return Some((address, prefix_len));
        }
    }
    None
}

pub open spec fn unexpected_prefix_text(text: Seq<char>) -> Seq<char> {
    "expected network prefix, found `"@ + text + "`"@
}

/// The network prefix that a text stands for, given what its parts are read as: an IPv4 address, and
/// a length of at most 32 bits.
pub fn resolve_network_prefix(text: &str, address: Option<u32>, prefix_len: Option<u8>) -> (r:
    Result<Ipv4Cidr, String>)
    ensures
        match r {
            Ok(cidr) => cidr.wf() && address == Some(cidr.address) && prefix_len == Some(
                cidr.prefix_len,
            ),
            Err(e) => (address is None || prefix_len is None || prefix_len->0 > 32) && e@
                == unexpected_prefix_text(text@),
        },
{
    match (address, prefix_len) {
        (Some(address), Some(prefix_len)) if prefix_len <= 32 => Ok(
            Ipv4Cidr::from_ipv4(address, prefix_len),
        ),
        _ => {
            let mut message = "expected network prefix, found `".to_owned();
            message.append(text);
            message.append("`");
            Err(message)
        },
    }
}

/// The number of an address, with all IPv4 addresses below all IPv6 addresses.
pub open spec fn address_rank(ip: IpAddr) -> int {
    match ip {
        IpAddr::V4(address) => address as int,
        IpAddr::V6(address) => 0x1_0000_0000 + address,
    }
}

/// Addresses are ordered by their numbers, IPv4 addresses first, and pairs of addresses by their
/// first address, then by their second one. Only equal ones stand side by side.
pub proof fn law_addresses_are_ordered(a: IpAddr, b: IpAddr, c: IpAddr, d: IpAddr)
    ensures
        a.precedes(b) <==> address_rank(a) <= address_rank(b),
        address_rank(a) == address_rank(b) ==> a == b,
        (a, b).precedes((c, d)) <==> address_rank(a) < address_rank(c) || (address_rank(a)
            == address_rank(c) && address_rank(b) <= address_rank(d)),
{
}

/// A full prefix stands for a single address, and each bit that it is shorter doubles the number of
/// addresses. The address of a network prefix is kept as it is.
pub proof fn law_shorter_prefixes_hold_more(cidr: Ipv4Cidr)
    requires
        cidr.wf(),
    ensures
        cidr.prefix_len == 32 ==> cidr.block_size() == 1,
        cidr.prefix_len < 32 ==> cidr.block_size() == 2 * (Ipv4Cidr {
            prefix_len: (cidr.prefix_len + 1) as u8,
            ..cidr
        }).block_size(),
        cidr.spec_as_ip_addr() == IpAddr::V4(cidr.address),
{
    if cidr.prefix_len == 32 {
        vstd::arithmetic::power2::lemma2_to64();
    } else {
        vstd::arithmetic::power2::lemma_pow2_unfold((32 - cidr.prefix_len) as nat);
    }
}


/// A text that is no network prefix is quoted in the error.
pub proof fn law_unexpected_prefixes_are_quoted(text: Seq<char>)
    ensures
        unexpected_prefix_text(text) == "expected network prefix, found `"@ + text + "`"@,
{
}


} // verus!
