//! IP addresses and CIDR networks as plain numbers, and what the `ipnetwork`
//! crate says of them.

use vstd::prelude::*;

verus! {

/// An IP address: the 32 bits of an IPv4 address or the 128 bits of an IPv6
/// address, the first octet in the most significant place.
#[derive(Clone, Copy, Debug, PartialEq, Eq, Structural)]
pub enum IpAddress {
    V4(u32),
    V6(u128),
}

/// A CIDR network: an address and the number of its leading bits that count.
#[allow(inconsistent_fields)]
#[derive(Clone, Copy, Debug, PartialEq, Eq, Structural)]
pub enum Network {
    V4 { addr: u32, prefix: u8 },
    V6 { addr: u128, prefix: u8 },
}

/// The IPv4 netmask of `prefix` leading bits.
pub open spec fn v4_mask(prefix: u8) -> u32 {
    (!(0xffff_ffffu64 >> prefix)) as u32
}

/// The IPv6 netmask of `prefix` leading bits.
pub open spec fn v6_mask(prefix: u8) -> u128 {
    if prefix == 0 {
        0
    } else {
        u128::MAX << ((128 - prefix) as u8)
    }
}

/// The network that `text` denotes in CIDR notation, as `ipnetwork` reads it;
/// none where it refuses the text.
pub uninterp spec fn cidr_network(text: Seq<char>) -> Option<Network>;

impl Network {
    /// The prefix is no longer than an address of its family.
    pub open spec fn wf(self) -> bool {
        match self {
            Network::V4 { prefix, .. } => prefix <= 32,
            Network::V6 { prefix, .. } => prefix <= 128,
        }
    }

    /// Whether `ip` lies in this network: the network is well formed, and the
    /// address is of its family and agrees with its address under the netmask.
    pub open spec fn holds(self, ip: IpAddress) -> bool {
        self.wf() && self.covers(ip)
    }

    /// Whether `ip` is of the family of this network and agrees with its
    /// address under the netmask.
    pub open spec fn covers(self, ip: IpAddress) -> bool {
        match (self, ip) {
            (Network::V4 { addr, prefix }, IpAddress::V4(ip)) => ip & v4_mask(prefix) == addr
                & v4_mask(prefix),
            (Network::V6 { addr, prefix }, IpAddress::V6(ip)) => ip & v6_mask(prefix) == addr
                & v6_mask(prefix),
            _ => false,
        }
    }

    /// Reads a network in CIDR notation.
    ///
    /// Calls `ipnetwork::IpNetwork::from_str`. Trusted: the result is a function
    /// of the text alone, and the prefix of an accepted network is at most 32
    /// for IPv4 and at most 128 for IPv6. On refusal the error's text comes back.
    #[verifier::external_body]
    pub(crate) fn parse(text: &str) -> (out: Result<Network, String>)
        ensures
            out matches Ok(network) ==> cidr_network(text@) == Some(network) && network.wf(),
            out is Err ==> cidr_network(text@) is None,
    {
        match text.parse::<ipnetwork::IpNetwork>() {
            Ok(ipnetwork::IpNetwork::V4(net)) => Ok(
                Network::V4 { addr: u32::from(net.ip()), prefix: net.prefix() },
            ),
            Ok(ipnetwork::IpNetwork::V6(net)) => Ok(
                Network::V6 { addr: u128::from(net.ip()), prefix: net.prefix() },
            ),
            Err(error) => Err(error.to_string()),
        }
    }

    /// Whether `ip` lies in this well-formed network.
    ///
    /// Calls `ipnetwork::IpNetwork::contains` on the network and the address
    /// rebuilt from their bits. Trusted: it compares the address and the
    /// network's address under the netmask, and an address of the other family
    /// is never contained.
    #[verifier::external_body]
    fn contains_address(&self, ip: IpAddress) -> (out: bool)
        requires
            self.wf(),
        ensures
            out == self.covers(ip),
    {
        let network = match *self {
            Network::V4 { addr, prefix } => ipnetwork::IpNetwork::new(From::from(addr.to_be_bytes()), prefix),
            Network::V6 { addr, prefix } => ipnetwork::IpNetwork::new(From::from(addr.to_be_bytes()), prefix),
        };
        let address = match ip {
            IpAddress::V4(bits) => From::from(bits.to_be_bytes()),
            IpAddress::V6(bits) => From::from(bits.to_be_bytes()),
        };
        network.is_ok_and(|net| net.contains(address))
    }

    /// Whether `ip` lies in this network.
    pub fn contains(&self, ip: IpAddress) -> (out: bool)
        ensures
            out == self.holds(ip),
    {
        let bound: u8 = match self {
            Network::V4 { .. } => 32,
            Network::V6 { .. } => 128,
        };
        let prefix: u8 = match self {
            Network::V4 { prefix, .. } => *prefix,
            Network::V6 { prefix, .. } => *prefix,
        };
        if prefix <= bound {
            self.contains_address(ip)
        } else {
            false
        }
    }
}

/// The networks of an optional list.
pub open spec fn listed(list: Option<Vec<Network>>) -> Option<Seq<Network>> {
    match list {
        Some(networks) => Some(networks@),
        None => None,
    }
}

} // verus!
