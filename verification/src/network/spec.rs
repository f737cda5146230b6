//! The specification of a network: its nodes and links.

use crate::network::ip::{IpAddr, Ipv4Cidr};
use crate::network::route::Route;
use crate::random::Ratio;
use crate::time::Nanos;
use vstd::prelude::*;

verus! {

pub struct NetworkSpec {
    pub nodes: Vec<NetworkNodeSpec>,
    pub links: Vec<NetworkLinkSpec>,
}

#[derive(Clone, Copy, PartialEq, Eq, Structural, Debug)]
pub enum NodeKind {
    Router,
    Host,
}

pub struct NetworkNodeSpec {
    pub id: String,
    pub kind: NodeKind,
    pub interfaces: Vec<NetworkInterface>,
    pub buffer_size_bytes: u64,
    /// The ratio of packets that are lost upon arriving to the node
    pub packet_loss_ratio: Ratio,
    /// The ratio of packets that are duplicated upon arriving to the node
    pub packet_duplication_ratio: Ratio,
    /// The sum of the two ratios
    pub packet_loss_or_duplication_ratio: Ratio,
}

pub struct NetworkInterface {
    pub addresses: Vec<Ipv4Cidr>,
    pub routes: Vec<Route>,
}

impl NetworkInterface {
    /// The interface's addresses, in order.
    pub open spec fn spec_addresses(self) -> Seq<IpAddr> {
        self.addresses@.map_values(|a: Ipv4Cidr| a.spec_as_ip_addr())
    }
}

/// The addresses of a list of interfaces, in order.
pub open spec fn interface_addresses(interfaces: Seq<NetworkInterface>) -> Seq<IpAddr> {
    interfaces.flat_map(|i: NetworkInterface| i.spec_addresses())
}

impl NetworkNodeSpec {
    pub open spec fn spec_addresses(self) -> Seq<IpAddr> {
        interface_addresses(self.interfaces@)
    }

    /// The node's addresses: those of its interfaces, in order.
    pub fn addresses(&self) -> (addresses: Vec<IpAddr>)
        ensures
            addresses@ == self.spec_addresses(),
    {
        let mut addresses: Vec<IpAddr> = Vec::new();
        let ghost f = |i: NetworkInterface| i.spec_addresses();
        proof {
            assert(self.interfaces@.take(0).flat_map(f) =~= Seq::empty());
        }
        for i in 0..self.interfaces.len()
            invariant
                f == (|i: NetworkInterface| i.spec_addresses()),
                addresses@ == self.interfaces@.take(i as int).flat_map(f),
        {
            let interface = &self.interfaces[i];
            let ghost before = addresses@;
            for j in 0..interface.addresses.len()
                invariant
                    interface == self.interfaces@[i as int],
                    addresses@ == before + interface.spec_addresses().take(j as int),
            {
                addresses.push(interface.addresses[j].as_ip_addr());
                assert(addresses@ =~= before + interface.spec_addresses().take(j + 1));
            }
            proof {
                assert(interface.spec_addresses().take(interface.addresses@.len() as int)
                    =~= interface.spec_addresses());
                self.interfaces@.lemma_flat_map_take_append(f, i as int);
            }
        }
        assert(self.interfaces@.take(self.interfaces@.len() as int) =~= self.interfaces@);
        addresses
    }
}

pub struct NetworkLinkSpec {
    pub id: String,
    pub source: IpAddr,
    pub target: IpAddr,
    pub delay: Nanos,
    pub bandwidth_bps: u64,
    pub congestion_event_ratio: Ratio,
    pub extra_delay: Nanos,
    pub extra_delay_ratio: Ratio,
}

} // verus!
