//! Proxy configuration: the settings and their checks.
//!
//! Reading the TOML file is left to the caller; `Config::validate` holds the
//! checks a loaded configuration must pass, and `Config::version_bytes` reads
//! the protocol version string.

use vstd::prelude::*;
use vstd::utf8::encode_utf8;
use crate::types::{Network, ProxyMode, SocketAddress};

verus! {

pub struct Config {
    pub proxy: ProxyConfig,
    pub listen: ListenConfig,
    pub outbound: OutboundConfig,
    pub identity: IdentityConfig,
}

pub struct ProxyConfig {
    pub network: Network,
}

pub struct ListenConfig {
    pub ipv6: Option<ListenerConfig>,
    pub ipv4: Option<ListenerConfig>,
}

pub struct ListenerConfig {
    pub address: SocketAddress,
    pub mode: ProxyMode,
    pub max_inbound: usize,
}

pub struct OutboundConfig {
    pub min_peers: usize,
    pub max_peers: usize,
    pub seed_peers: Vec<SocketAddress>,
}

pub struct IdentityConfig {
    pub agent_name: String,
    pub peer_name: String,
    pub protocol_version: String,
}

/// Why a configuration is refused.
#[derive(Debug, Clone, Copy, PartialEq, Eq, Structural)]
pub enum ConfigError {
    /// Neither an IPv4 nor an IPv6 listener is configured.
    NoListener,
    /// No seed peer is configured.
    NoSeedPeer,
    /// `min_peers` is above `max_peers`.
    MinPeersAboveMax,
    /// The protocol version is not three dot-separated numbers from 0 to 255.
    InvalidVersion,
}

/// The verdict on a loaded configuration: at least one listener, at least one
/// seed peer, and `min_peers <= max_peers`, checked in that order.
pub open spec fn spec_validate(c: Config) -> Result<(), ConfigError> {
    if c.listen.ipv4.is_none() && c.listen.ipv6.is_none() {
        Err(ConfigError::NoListener)
    } else if c.outbound.seed_peers@.len() == 0 {
        Err(ConfigError::NoSeedPeer)
    } else if c.outbound.min_peers > c.outbound.max_peers {
        Err(ConfigError::MinPeersAboveMax)
    } else {
        Ok(())
    }
}

/// The pieces of `b` between the dots (`.` is byte 46), as `str::split` gives them.
pub open spec fn split_on_dots(b: Seq<u8>) -> Seq<Seq<u8>>
    decreases b.len(),
{
    if b.len() == 0 {
        seq![seq![]]
    } else {
        let r = split_on_dots(b.drop_last());
        if b.last() == 46u8 {
            r.push(seq![])
        } else {
            r.update(r.len() - 1, r.last().push(b.last()))
        }
    }
}

/// A byte is an ASCII digit.
pub open spec fn is_digit(c: u8) -> bool {
    48 <= c <= 57
}

/// The number that decimal digits stand for.
pub open spec fn decimal_value(d: Seq<u8>) -> nat
    decreases d.len(),
{
    if d.len() == 0 {
        0
    } else {
        decimal_value(d.drop_last()) * 10 + (d.last() - 48) as nat
    }
}

/// The bytes of a number after an optional leading `+` (byte 43).
pub open spec fn unsigned_digits(b: Seq<u8>) -> Seq<u8> {
    if b.len() > 0 && b[0] == 43u8 {
        b.drop_first()
    } else {
        b
    }
}

/// Every byte is an ASCII digit.
pub open spec fn all_digits(d: Seq<u8>) -> bool {
    forall|j: int| 0 <= j < d.len() ==> is_digit(#[trigger] d[j])
}

/// A u8 written in decimal, as `u8::from_str` reads it: an optional `+`, then
/// at least one digit, of value at most 255.
pub open spec fn spec_parse_u8(b: Seq<u8>) -> Option<u8> {
    let digits = unsigned_digits(b);
    if digits.len() == 0 || !all_digits(digits) || decimal_value(digits) > 255 {
        None
    } else {
        Some(decimal_value(digits) as u8)
    }
}

/// A version string "X.Y.Z": exactly three dot-separated u8 values.
pub open spec fn spec_parse_version(b: Seq<u8>) -> Result<(u8, u8, u8), ConfigError> {
    let parts = split_on_dots(b);
    if parts.len() != 3 {
        Err(ConfigError::InvalidVersion)
    } else {
        match (spec_parse_u8(parts[0]), spec_parse_u8(parts[1]), spec_parse_u8(parts[2])) {
            (Some(a), Some(c), Some(d)) => Ok((a, c, d)),
            _ => Err(ConfigError::InvalidVersion),
        }
    }
}

/// Parses a decimal u8 from bytes.
fn parse_u8(b: &[u8]) -> (r: Option<u8>)
    ensures
        r == spec_parse_u8(b@),
{
    let ghost digits = unsigned_digits(b@);
    let start: usize = if b.len() > 0 && b[0] == 43u8 {
        1
    } else {
        0
    };
    assert(digits == b@.skip(start as int));
    if b.len() == start {
        return None;
    }
    let mut acc: u32 = 0;
    let mut i: usize = start;
    assert(digits.take(0) == Seq::<u8>::empty());
    while i < b.len()
        invariant
            start <= i <= b@.len(),
            digits == b@.skip(start as int),
            digits == unsigned_digits(b@),
            digits.len() > 0,
            forall|j: int| 0 <= j < i - start ==> is_digit(#[trigger] digits[j]),
            acc == decimal_value(digits.take(i - start)),
            acc <= 255,
        decreases b.len() - i,
    {
        let c = b[i];
        assert(c == digits[i - start]);
        if c < 48 || c > 57 {
            assert(!is_digit(digits[i - start]));
            assert(!all_digits(digits));
            return None;
        }
        assert(digits.take(i + 1 - start).drop_last() == digits.take(i - start));
        acc = acc * 10 + (c - 48) as u32;
        if acc > 255 {
            proof {
                let k = (i + 1 - start) as int;
                assert(decimal_value(digits.take(k)) > 255);
                lemma_decimal_value_prefix_bound(digits, k);
                if all_digits(digits) {
                    assert(decimal_value(digits) > 255);
                }
            }
            return None;
        }
        i = i + 1;
    }
    assert(digits.take(digits.len() as int) == digits);
    assert(all_digits(digits));
    Some(acc as u8)
}

/// A prefix of digits is worth no more than the whole.
proof fn lemma_decimal_value_prefix_bound(d: Seq<u8>, k: int)
    requires
        0 <= k <= d.len(),
        forall|j: int| 0 <= j < k ==> is_digit(#[trigger] d[j]),
    ensures
        (forall|j: int| 0 <= j < d.len() ==> is_digit(#[trigger] d[j])) ==> decimal_value(d.take(k))
            <= decimal_value(d),
    decreases d.len() - k,
{
    if k < d.len() && forall|j: int| 0 <= j < d.len() ==> is_digit(#[trigger] d[j]) {
        lemma_decimal_value_prefix_bound(d, k + 1);
        assert(d.take(k + 1).drop_last() == d.take(k));
    } else if k == d.len() {
        assert(d.take(k) == d);
    }
}

impl Config {
    /// Checks a loaded configuration: at least one listener, at least one seed
    /// peer, and `min_peers <= max_peers`.
    pub fn validate(&self) -> (r: Result<(), ConfigError>)
        ensures
            r == spec_validate(*self),
    {
        if self.listen.ipv4.is_none() && self.listen.ipv6.is_none() {
            return Err(ConfigError::NoListener);
        }
        if self.outbound.seed_peers.len() == 0 {
            return Err(ConfigError::NoSeedPeer);
        }
        if self.outbound.min_peers > self.outbound.max_peers {
            return Err(ConfigError::MinPeersAboveMax);
        }
        Ok(())
    }

    /// Parses the protocol version string "X.Y.Z" into (major, minor, patch).
    pub fn version_bytes(&self) -> (r: Result<(u8, u8, u8), ConfigError>)
        ensures
            r == spec_parse_version(encode_utf8(self.identity.protocol_version@)),
    {
        let b = self.identity.protocol_version.as_str().as_bytes();
        let ghost s = b@;
        let mut parts: Vec<Vec<u8>> = Vec::new();
        let mut cur: Vec<u8> = Vec::new();
        let mut i: usize = 0;
        assert(s.take(0) == Seq::<u8>::empty());
        while i < b.len()
            invariant
                i <= s.len(),
                s == b@,
                parts@.map_values(|p: Vec<u8>| p@).push(cur@) == split_on_dots(s.take(i as int)),
            decreases b.len() - i,
        {
            let c = b[i];
            let ghost before = parts@.map_values(|p: Vec<u8>| p@);
            let ghost cur_before = cur@;
            assert(s.take(i + 1).drop_last() == s.take(i as int));
            assert(s.take(i + 1).last() == c);
            if c == 46 {
                let mut done: Vec<u8> = Vec::new();
                std::mem::swap(&mut done, &mut cur);
                parts.push(done);
                assert(parts@.map_values(|p: Vec<u8>| p@) == before.push(cur_before));
            } else {
                cur.push(c);
                assert(before.push(cur_before).update(before.len() as int, cur_before.push(c))
                    == before.push(cur@));
            }
            i = i + 1;
        }
        assert(s.take(s.len() as int) == s);
        let ghost pv = parts@.map_values(|p: Vec<u8>| p@).push(cur@);
        if parts.len() != 2 {
            return Err(ConfigError::InvalidVersion);
        }
        assert(pv[0] == parts@[0]@);
        assert(pv[1] == parts@[1]@);
        assert(pv[2] == cur@);
        let major = match parse_u8(parts[0].as_slice()) {
            Some(v) => v,
            None => {
                return Err(ConfigError::InvalidVersion);
            },
        };
        let minor = match parse_u8(parts[1].as_slice()) {
            Some(v) => v,
            None => {
                return Err(ConfigError::InvalidVersion);
            },
        };
        let patch = match parse_u8(cur.as_slice()) {
            Some(v) => v,
            None => {
                return Err(ConfigError::InvalidVersion);
            },
        };
        Ok((major, minor, patch))
    }
}

} // verus!
