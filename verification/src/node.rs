//! The decisions of the proxy's connection loops: whether to accept an inbound
//! connection, whether to dial more outbound peers, how long to wait before the
//! next round, and the handshake configuration of a listener.

use vstd::prelude::*;
use crate::config::IdentityConfig;
use crate::transport::handshake::HandshakeConfig;
use crate::types::{Network, ProxyMode, Version};

verus! {

/// Seconds to wait before the first reconnect round.
pub const INITIAL_BACKOFF_SECS: u64 = 5;

/// The longest wait between reconnect rounds, in seconds.
pub const MAX_BACKOFF_SECS: u64 = 300;

/// An inbound connection is accepted while fewer than `max_inbound` inbound
/// peers are registered.
pub fn admit_inbound(inbound_count: usize, max_inbound: usize) -> (b: bool)
    ensures
        b == (inbound_count < max_inbound),
{
    inbound_count < max_inbound
}

/// More outbound peers are dialled while fewer than `min_peers` are connected.
pub fn wants_outbound(outbound_count: usize, min_peers: usize) -> (b: bool)
    ensures
        b == (outbound_count < min_peers),
{
    outbound_count < min_peers
}

/// The wait after a reconnect round: twice the previous one, at most 300 seconds.
pub fn next_backoff_secs(current: u64) -> (next: u64)
    ensures
        next == if 2 * current >= MAX_BACKOFF_SECS {
            MAX_BACKOFF_SECS as int
        } else {
            2 * current
        },
{
    if current >= MAX_BACKOFF_SECS / 2 {
        MAX_BACKOFF_SECS
    } else {
        current * 2
    }
}

/// The handshake configuration of a listener (or of the outbound side): the
/// configured names, the given version, network and mode, and no declared address.
pub fn make_handshake_config(identity: &IdentityConfig, version: Version, network: Network, mode: ProxyMode) -> (c: HandshakeConfig)
    ensures
        c.agent_name@ == identity.agent_name@,
        c.peer_name@ == identity.peer_name@,
        c.version == version,
        c.network == network,
        c.mode == mode,
        c.declared_address is None,
{
    HandshakeConfig {
        agent_name: identity.agent_name.clone(),
        peer_name: identity.peer_name.clone(),
        version,
        network,
        mode,
        declared_address: None,
    }
}

} // verus!
