//! Shared types: peer identifiers, modifier identifiers, protocol versions,
//! connection directions, networks and proxy modes.

use vstd::prelude::*;

verus! {

/// Unique identifier for a connected peer. Wraps a u64 counter.
#[derive(Debug, Clone, Copy, PartialEq, Eq, Hash, Structural)]
pub struct PeerId(pub u64);

/// 32-byte modifier identifier (block, transaction, header, etc.).
pub type ModifierId = [u8; 32];

/// Protocol version as three bytes: major.minor.patch.
#[derive(Debug, Clone, Copy, PartialEq, Eq, PartialOrd, Ord, Hash, Structural)]
pub struct Version {
    pub major: u8,
    pub minor: u8,
    pub patch: u8,
}

/// Lexicographic order on versions: `a < b`.
pub open spec fn version_lt(a: Version, b: Version) -> bool {
    ||| a.major < b.major
    ||| (a.major == b.major && a.minor < b.minor)
    ||| (a.major == b.major && a.minor == b.minor && a.patch < b.patch)
}

/// Protocol version 4.0.100, the EIP-37 minimum.
pub open spec fn eip37_min_version() -> Version {
    Version { major: 4, minor: 0, patch: 100 }
}

impl Version {
    /// The minimum protocol version accepted since the EIP-37 hard fork (4.0.100).
    pub fn eip37_min() -> (v: Self)
        ensures
            v == eip37_min_version(),
    {
        Version { major: 4, minor: 0, patch: 100 }
    }

    pub fn new(major: u8, minor: u8, patch: u8) -> (v: Self)
        ensures
            v == (Version { major, minor, patch }),
    {
        Version { major, minor, patch }
    }

    /// `self < other` in lexicographic (major, minor, patch) order.
    pub fn is_below(&self, other: &Version) -> (b: bool)
        ensures
            b == version_lt(*self, *other),
    {
        if self.major != other.major {
            self.major < other.major
        } else if self.minor != other.minor {
            self.minor < other.minor
        } else {
            self.patch < other.patch
        }
    }
}

/// Direction of a peer connection relative to this node.
#[derive(Debug, Clone, Copy, PartialEq, Eq, Structural)]
pub enum Direction {
    /// We initiated the connection (we connect to them).
    Outbound,
    /// They initiated the connection (they connect to us).
    Inbound,
}

/// Network identifier.
#[derive(Debug, Clone, Copy, PartialEq, Eq, Structural)]
pub enum Network {
    Mainnet,
    Testnet,
}

/// The four magic bytes that identify a network on the wire.
pub open spec fn network_magic(n: Network) -> Seq<u8> {
    match n {
        Network::Mainnet => seq![1u8, 0u8, 2u8, 4u8],
        Network::Testnet => seq![2u8, 3u8, 2u8, 3u8],
    }
}

impl Network {
    pub fn magic(&self) -> (m: [u8; 4])
        ensures
            m@ == network_magic(*self),
    {
        match self {
            Network::Mainnet => [1, 0, 2, 4],
            Network::Testnet => [2, 3, 2, 3],
        }
    }
}

/// Proxy mode for a listener: controls handshake advertising and routing behavior.
#[derive(Debug, Clone, Copy, PartialEq, Eq, Structural)]
pub enum ProxyMode {
    /// Full proxy: forward all messages, advertise as full archival node.
    Full,
    /// Light: gossip only, advertise as NiPoPoW-bootstrapped.
    Light,
}

/// An IP address by its octets.
#[derive(Debug, Clone, Copy, PartialEq, Eq)]
pub enum IpAddress {
    V4([u8; 4]),
    V6([u8; 16]),
}

/// An IP address and a port.
#[derive(Debug, Clone, Copy, PartialEq, Eq)]
pub struct SocketAddress {
    pub ip: IpAddress,
    pub port: u16,
}

/// The octets of an IP address: four for IPv4, sixteen for IPv6.
pub open spec fn ip_octets(ip: IpAddress) -> Seq<u8> {
    match ip {
        IpAddress::V4(a) => a@,
        IpAddress::V6(a) => a@,
    }
}

} // verus!
