//! Routers that a DHT can bootstrap from.
use vstd::prelude::*;

use crate::dht::routing::node::NodeAddr;

verus! {

/// A router that can be used to bootstrap a DHT.
#[allow(non_camel_case_types)]
#[derive(Copy, Clone, PartialEq, Eq, Hash, Debug)]
pub enum Router {
    /// Bootstrap server maintained by uTorrent.
    uTorrent,
    /// Bootstrap server maintained by BitComet.
    BitComet,
    /// Bootstrap server maintained by Transmission.
    Transmission,
    /// A bootstrap server of our choice.
    Custom(NodeAddr),
}

impl Router {
    /// The host name and port of a well-known router, to be resolved; `None` for a custom
    /// router, whose address is known.
    pub fn host(&self) -> (r: Option<(&'static str, u16)>)
        ensures
            match *self {
                Router::uTorrent => r matches Some((h, p)) && h@ == "router.utorrent.com"@ && p == 6881,
                Router::BitComet => r matches Some((h, p)) && h@ == "router.bitcomet.com"@ && p == 6881,
                Router::Transmission => r matches Some((h, p)) && h@ == "dht.transmissionbt.com"@ && p == 6881,
                Router::Custom(_) => r is None,
            },
    {
        match self {
            Router::uTorrent => Some(("router.utorrent.com", 6881)),
            Router::BitComet => Some(("router.bitcomet.com", 6881)),
            Router::Transmission => Some(("dht.transmissionbt.com", 6881)),
            Router::Custom(_) => None,
        }
    }
}

/// The octets and port of an IPv4 address.
pub fn map_ipv4(addr: NodeAddr) -> (r: Option<([u8; 4], u16)>)
    ensures
        match addr {
            NodeAddr::V4(ip, port) => r == Some((ip, port)),
            NodeAddr::V6(..) => r is None,
        },
{
    match addr {
        NodeAddr::V4(ip, port) => Some((ip, port)),
        NodeAddr::V6(..) => None,
    }
}

/// The octets and port of an IPv6 address.
pub fn map_ipv6(addr: NodeAddr) -> (r: Option<([u8; 16], u16)>)
    ensures
        match addr {
            NodeAddr::V4(..) => r is None,
            NodeAddr::V6(ip, port) => r == Some((ip, port)),
        },
{
    match addr {
        NodeAddr::V4(..) => None,
        NodeAddr::V6(ip, port) => Some((ip, port)),
    }
}

/// Index of the first IPv4 (`v4`) or IPv6 (`!v4`) address of `addrs` from `i` on.
pub open spec fn first_of_kind(addrs: Seq<NodeAddr>, i: int, v4: bool) -> Option<int>
    decreases addrs.len() - i,
{
    if i < 0 || i >= addrs.len() {
        None
    } else if (addrs[i] is V4) == v4 {
        Some(i)
    } else {
        first_of_kind(addrs, i + 1, v4)
    }
}

/// The first IPv4 address among the addresses `addrs` a router resolved to.
pub fn first_ipv4(addrs: &[NodeAddr]) -> (r: Option<([u8; 4], u16)>)
    ensures
        match first_of_kind(addrs@, 0, true) {
            Some(i) => r matches Some((ip, port)) && addrs@[i] == NodeAddr::V4(ip, port),
            None => r is None,
        },
{
    let mut i: usize = 0;
    while i < addrs.len()
        invariant
            i <= addrs@.len(),
            first_of_kind(addrs@, 0, true) == first_of_kind(addrs@, i as int, true),
        decreases addrs@.len() - i,
    {
        if let Some(a) = map_ipv4(addrs[i]) {
            return Some(a);
        }
        i = i + 1;
    }
    None
}

/// The first IPv6 address among the addresses `addrs` a router resolved to.
pub fn first_ipv6(addrs: &[NodeAddr]) -> (r: Option<([u8; 16], u16)>)
    ensures
        match first_of_kind(addrs@, 0, false) {
            Some(i) => r matches Some((ip, port)) && addrs@[i] == NodeAddr::V6(ip, port),
            None => r is None,
        },
{
    let mut i: usize = 0;
    while i < addrs.len()
        invariant
            i <= addrs@.len(),
            first_of_kind(addrs@, 0, false) == first_of_kind(addrs@, i as int, false),
        decreases addrs@.len() - i,
    {
        if let Some(a) = map_ipv6(addrs[i]) {
            return Some(a);
        }
        i = i + 1;
    }
    None
}

} // verus!
