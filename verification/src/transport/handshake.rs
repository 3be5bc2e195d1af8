//! Ergo P2P handshake: build, parse, validate.
//!
//! A handshake is raw bytes (no framing):
//! `[timestamp: VLQ][agent: short string][version: 3 bytes][peer name: short string]`
//! `[declared address: option][feature count: 1 byte][features: id, VLQ length, body]`.
//! `build` writes the Mode, Session and Proxy features; `parse` keeps every
//! feature it can read, unknown ids included; `validate_peer` requires version
//! 4.0.100 or above and a session magic that matches the network.

use vstd::prelude::*;
use vstd::utf8::{valid_utf8, decode_utf8, encode_utf8};
use crate::types::{
    Network, ProxyMode, Version, IpAddress, SocketAddress, network_magic, ip_octets, version_lt,
    eip37_min_version,
};
use crate::transport::cursor::{
    ByteCursor, DecodeError, spec_read_u8, spec_read_bytes, append_bytes, holds_at, lemma_holds_at_sub,
};
use crate::transport::vlq::{
    self, vlq_encode, zigzag64, short_string_bytes, spec_read_vlq, spec_read_vlq_length,
    spec_read_short_string, lemma_read_vlq_at, spec_vlq_stop, spec_vlq_length_stop, spec_short_string_stop,
};

verus! {

/// Feature id of the Mode feature.
pub const FEATURE_MODE: u8 = 16;

/// Feature id of the Session feature.
pub const FEATURE_SESSION: u8 = 3;

/// Custom feature identifying this peer as a proxy. JVM nodes ignore unknown features.
/// Other proxies detect this and avoid treating each other as outbound content sources.
pub const FEATURE_PROXY: u8 = 64;

/// Configuration for building a handshake.
pub struct HandshakeConfig {
    pub agent_name: String,
    pub peer_name: String,
    pub version: Version,
    pub network: Network,
    pub mode: ProxyMode,
    pub declared_address: Option<SocketAddress>,
}

/// A parsed peer feature.
#[derive(Debug, Clone, PartialEq, Eq)]
pub struct Feature {
    pub id: u8,
    pub body: Vec<u8>,
}

impl View for Feature {
    type V = (u8, Seq<u8>);

    open spec fn view(&self) -> (u8, Seq<u8>) {
        (self.id, self.body@)
    }
}

/// Parsed peer specification from a handshake.
#[derive(Debug, Clone)]
pub struct PeerSpec {
    pub agent: String,
    pub version: Version,
    pub name: String,
    pub address: Option<SocketAddress>,
    pub features: Vec<Feature>,
}

impl Feature {
    /// A copy of this feature.
    pub fn duplicate(&self) -> (f: Feature)
        ensures
            f@ == self@,
    {
        Feature { id: self.id, body: crate::transport::cursor::copy_bytes(self.body.as_slice()) }
    }
}

impl PeerSpec {
    /// A copy of this peer specification.
    pub fn duplicate(&self) -> (r: PeerSpec)
        ensures
            r@ == self@,
    {
        let mut features: Vec<Feature> = Vec::new();
        let ghost all = self.features@.map_values(|f: Feature| f@);
        let mut i: usize = 0;
        while i < self.features.len()
            invariant
                i <= self.features@.len(),
                all == self.features@.map_values(|f: Feature| f@),
                features@.map_values(|f: Feature| f@) == all.take(i as int),
            decreases self.features.len() - i,
        {
            let f = self.features[i].duplicate();
            let ghost before = features@.map_values(|f: Feature| f@);
            features.push(f);
            assert(features@.map_values(|f: Feature| f@) == before.push(f@));
            assert(all.take(i + 1) == all.take(i as int).push(all[i as int]));
            i = i + 1;
        }
        assert(all.take(self.features@.len() as int) == all);
        PeerSpec {
            agent: self.agent.clone(),
            version: self.version,
            name: self.name.clone(),
            address: self.address,
            features,
        }
    }
}

/// The content of a `PeerSpec`.
pub struct PeerSpecView {
    pub agent: Seq<char>,
    pub version: Version,
    pub name: Seq<char>,
    pub address: Option<SocketAddress>,
    pub features: Seq<(u8, Seq<u8>)>,
}

impl View for PeerSpec {
    type V = PeerSpecView;

    open spec fn view(&self) -> PeerSpecView {
        PeerSpecView {
            agent: self.agent@,
            version: self.version,
            name: self.name@,
            address: self.address,
            features: self.features@.map_values(|f: Feature| f@),
        }
    }
}

/// Why a peer's handshake is refused.
#[derive(Debug, Clone, Copy, PartialEq, Eq)]
pub enum ValidationError {
    /// The peer's version is below 4.0.100 (EIP-37); the version is carried.
    VersionTooLow(Version),
    /// The session feature names another network.
    SessionMagicMismatch,
}

// ---------------------------------------------------------------------------
// Wire layout of what `build` writes
// ---------------------------------------------------------------------------

/// The Mode feature body advertised in each proxy mode.
pub open spec fn mode_body(mode: ProxyMode) -> Seq<u8> {
    match mode {
        // stateType=UTXO(0), verifying=true(1), nipopow=None(0), blocksToKeep=-1(zigzag=1)
        ProxyMode::Full => seq![0x00u8, 0x01u8, 0x00u8, 0x01u8],
        // stateType=UTXO(0), verifying=true(1), nipopow=Some(1)(zigzag=2), blocksToKeep=-1(zigzag=1)
        ProxyMode::Light => seq![0x00u8, 0x01u8, 0x01u8, 0x02u8, 0x01u8],
    }
}

/// The Session feature body: the network magic, then the session id as a
/// signed 64-bit value, ZigZag- and VLQ-encoded.
pub open spec fn session_body(network: Network, session_id: u64) -> Seq<u8> {
    network_magic(network) + vlq_encode(zigzag64(session_id as i64))
}

/// A feature on the wire: id, VLQ body length, body.
pub open spec fn feature_bytes(id: u8, body: Seq<u8>) -> Seq<u8> {
    seq![id] + vlq_encode(body.len() as u64) + body
}

/// A declared address on the wire: `0x00` for none; else `0x01`, the octet
/// count plus four, the octets, and the port as VLQ.
pub open spec fn address_bytes(addr: Option<SocketAddress>) -> Seq<u8> {
    match addr {
        None => seq![0x00u8],
        Some(a) => seq![0x01u8, (ip_octets(a.ip).len() + 4) as u8] + ip_octets(a.ip) + vlq_encode(
            a.port as u64,
        ),
    }
}

/// The handshake bytes `build` writes for `config` at `timestamp_ms` with `session_id`.
pub open spec fn handshake_bytes(config: HandshakeConfig, timestamp_ms: u64, session_id: u64) -> Seq<u8> {
    vlq_encode(timestamp_ms) + short_string_bytes(config.agent_name@) + seq![
        config.version.major,
        config.version.minor,
        config.version.patch,
    ] + short_string_bytes(config.peer_name@) + address_bytes(config.declared_address) + seq![3u8]
        + feature_bytes(FEATURE_MODE, mode_body(config.mode)) + feature_bytes(
        FEATURE_SESSION,
        session_body(config.network, session_id),
    ) + feature_bytes(FEATURE_PROXY, seq![0x01u8])
}

/// Names that fit a short string (at most 255 UTF-8 bytes).
pub open spec fn config_fits(config: HandshakeConfig) -> bool {
    &&& encode_utf8(config.agent_name@).len() <= 255
    &&& encode_utf8(config.peer_name@).len() <= 255
}

// ---------------------------------------------------------------------------
// Building
// ---------------------------------------------------------------------------

/// The Mode feature body for `mode`.
pub fn build_mode_body(mode: ProxyMode) -> (body: Vec<u8>)
    ensures
        body@ == mode_body(mode),
{
    let mut body: Vec<u8> = Vec::new();
    match mode {
        ProxyMode::Full => {
            body.push(0x00);
            body.push(0x01);
            body.push(0x00);
            body.push(0x01);
        },
        ProxyMode::Light => {
            body.push(0x00);
            body.push(0x01);
            body.push(0x01);
            body.push(0x02);
            body.push(0x01);
        },
    }
    body
}

/// The Session feature body for `network` with the given session id.
pub fn build_session_body(network: Network, session_id: u64) -> (body: Vec<u8>)
    ensures
        body@ == session_body(network, session_id),
{
    let mut body: Vec<u8> = Vec::with_capacity(16);
    let magic = network.magic();
    append_bytes(&mut body, magic.as_slice());
    // Session ID is putLong = ZigZag encode then VLQ
    let zigzag = vlq::zigzag_encode_i64(session_id as i64);
    vlq::write_vlq(&mut body, zigzag);
    body
}

fn write_feature(buf: &mut Vec<u8>, id: u8, body: &[u8])
    ensures
        final(buf)@ == old(buf)@ + feature_bytes(id, body@),
{
    buf.push(id);
    // Feature body length is VLQ-encoded (Scorex putUShort -> putUInt -> putULong -> VLQ)
    vlq::write_vlq(buf, body.len() as u64);
    append_bytes(buf, body);
}

fn write_address(buf: &mut Vec<u8>, addr: &Option<SocketAddress>)
    ensures
        final(buf)@ == old(buf)@ + address_bytes(*addr),
{
    match addr {
        None => buf.push(0x00),
        Some(a) => {
            buf.push(0x01);
            let ghost before = buf@;
            match &a.ip {
                IpAddress::V4(octets) => {
                    buf.push(8);
                    append_bytes(buf, octets.as_slice());
                },
                IpAddress::V6(octets) => {
                    buf.push(20);
                    append_bytes(buf, octets.as_slice());
                },
            }
            // Port is VLQ-encoded (Scorex putUInt -> putULong -> VLQ)
            vlq::write_vlq(buf, a.port as u64);
        },
    }
}

/// Builds handshake bytes from `config`, with the given timestamp (milliseconds
/// since the epoch) and session id.
pub fn build(config: &HandshakeConfig, timestamp_ms: u64, session_id: u64) -> (bytes: Vec<u8>)
    requires
        config_fits(*config),
    ensures
        bytes@ == handshake_bytes(*config, timestamp_ms, session_id),
{
    let mut buf: Vec<u8> = Vec::with_capacity(128);
    vlq::write_vlq(&mut buf, timestamp_ms);
    vlq::write_short_string(&mut buf, config.agent_name.as_str());
    buf.push(config.version.major);
    buf.push(config.version.minor);
    buf.push(config.version.patch);
    vlq::write_short_string(&mut buf, config.peer_name.as_str());
    write_address(&mut buf, &config.declared_address);
    // Features: Mode + Session + Proxy
    buf.push(3);
    let mode_body = build_mode_body(config.mode);
    write_feature(&mut buf, FEATURE_MODE, mode_body.as_slice());
    let session = build_session_body(config.network, session_id);
    write_feature(&mut buf, FEATURE_SESSION, session.as_slice());
    // Proxy feature (id=64): proxy protocol version 1
    let mut proxy_body: Vec<u8> = Vec::new();
    proxy_body.push(0x01);
    write_feature(&mut buf, FEATURE_PROXY, proxy_body.as_slice());
    buf
}

// ---------------------------------------------------------------------------
// Parsing
// ---------------------------------------------------------------------------

/// Reading a version (three raw bytes) at position `p` of `s`.
pub open spec fn spec_read_version(s: Seq<u8>, p: nat) -> Result<(Version, nat), DecodeError> {
    match spec_read_bytes(s, p, 3) {
        Ok((b, q)) => Ok((Version { major: b[0], minor: b[1], patch: b[2] }, q)),
        Err(e) => Err(e),
    }
}

/// The IP address that `b` holds: IPv4 for four octets, IPv6 for sixteen, else none.
pub open spec fn octets_to_ip(b: Seq<u8>) -> Option<IpAddress> {
    if b.len() == 4 {
        Some(IpAddress::V4([b[0], b[1], b[2], b[3]]))
    } else if b.len() == 16 {
        Some(
            IpAddress::V6(
                [
                    b[0],
                    b[1],
                    b[2],
                    b[3],
                    b[4],
                    b[5],
                    b[6],
                    b[7],
                    b[8],
                    b[9],
                    b[10],
                    b[11],
                    b[12],
                    b[13],
                    b[14],
                    b[15],
                ],
            ),
        )
    } else {
        None
    }
}

/// Reading an address body at position `p` of `s`: the size byte, that many
/// octets less four (none if it is below four), and the port as VLQ, kept to
/// 16 bits. An octet count other than 4 or 16 gives no address.
pub open spec fn spec_parse_address(s: Seq<u8>, p: nat) -> Result<(Option<SocketAddress>, nat), DecodeError> {
    match spec_read_u8(s, p) {
        Err(e) => Err(e),
        Ok((n, q)) => {
            let ip_len: nat = if n >= 4 {
                (n - 4) as nat
            } else {
                0
            };
            match spec_read_bytes(s, q, ip_len) {
                Err(e) => Err(e),
                Ok((ip, r)) => match spec_read_vlq(s, r) {
                    Err(e) => Err(e),
                    Ok((port, t)) => Ok(
                        (
                            match octets_to_ip(ip) {
                                Some(a) => Some(SocketAddress { ip: a, port: port as u16 }),
                                None => None,
                            },
                            t,
                        ),
                    ),
                },
            }
        },
    }
}

/// Reading a declared address (an option: a flag byte, then the address if the
/// flag is not zero) at position `p` of `s`.
pub open spec fn spec_read_declared_address(s: Seq<u8>, p: nat) -> Result<(Option<SocketAddress>, nat), DecodeError> {
    match spec_read_u8(s, p) {
        Err(e) => Err(e),
        Ok((flag, q)) => if flag != 0 {
            spec_parse_address(s, q)
        } else {
            Ok((None, q))
        },
    }
}

/// Reading at most `remaining` features at position `p` of `s`: each is an id,
/// a VLQ length (at most 256 KiB) and a body. Reading stops, keeping what was
/// read, at the first feature that cannot be read whole; the position is then
/// where that failed read stopped.
pub open spec fn spec_features_loop(s: Seq<u8>, p: nat, remaining: nat) -> (Seq<(u8, Seq<u8>)>, nat)
    decreases remaining,
{
    if remaining == 0 {
        (seq![], p)
    } else {
        match spec_read_u8(s, p) {
            Err(_) => (seq![], s.len()),
            Ok((id, q)) => match spec_read_vlq_length(s, q) {
                Err(_) => (seq![], spec_vlq_length_stop(s, q)),
                Ok((len, r)) => match spec_read_bytes(s, r, len as nat) {
                    Err(_) => (seq![], s.len()),
                    Ok((body, t)) => {
                        let rest = spec_features_loop(s, t, (remaining - 1) as nat);
                        (seq![(id, body)] + rest.0, rest.1)
                    },
                },
            },
        }
    }
}

/// Reading the feature list at position `p` of `s`: a count byte, then the
/// features. A missing count gives no features.
pub open spec fn spec_parse_features(s: Seq<u8>, p: nat) -> (Seq<(u8, Seq<u8>)>, nat) {
    match spec_read_u8(s, p) {
        Err(_) => (seq![], s.len()),
        Ok((n, q)) => spec_features_loop(s, q, n as nat),
    }
}

/// Reading a peer entry (a handshake without its timestamp) at position `p` of `s`.
pub open spec fn spec_parse_peer_entry(s: Seq<u8>, p: nat) -> Result<(PeerSpecView, nat), DecodeError> {
    match spec_read_short_string(s, p) {
        Err(e) => Err(e),
        Ok((agent, p1)) => match spec_read_version(s, p1) {
            Err(e) => Err(e),
            Ok((version, p2)) => match spec_read_short_string(s, p2) {
                Err(e) => Err(e),
                Ok((name, p3)) => match spec_read_declared_address(s, p3) {
                    Err(e) => Err(e),
                    Ok((address, p4)) => {
                        let (features, p5) = spec_parse_features(s, p4);
                        Ok((PeerSpecView { agent, version, name, address, features }, p5))
                    },
                },
            },
        },
    }
}

/// Where a failed address body read at position `p` of `s` stops.
pub open spec fn spec_address_stop(s: Seq<u8>, p: nat) -> nat {
    match spec_read_u8(s, p) {
        Err(_) => s.len(),
        Ok((n, q)) => {
            let ip_len: nat = if n >= 4 {
                (n - 4) as nat
            } else {
                0
            };
            match spec_read_bytes(s, q, ip_len) {
                Err(_) => s.len(),
                Ok((_, r)) => spec_vlq_stop(s, r),
            }
        },
    }
}

/// Where a failed declared-address read at position `p` of `s` stops.
pub open spec fn spec_declared_address_stop(s: Seq<u8>, p: nat) -> nat {
    match spec_read_u8(s, p) {
        Err(_) => s.len(),
        Ok((_, q)) => spec_address_stop(s, q),
    }
}

/// Where a failed peer-entry read at position `p` of `s` stops: where the
/// field that could not be read stopped.
pub open spec fn spec_peer_entry_stop(s: Seq<u8>, p: nat) -> nat {
    match spec_read_short_string(s, p) {
        Err(_) => spec_short_string_stop(s, p),
        Ok((_, p1)) => match spec_read_version(s, p1) {
            Err(_) => s.len(),
            Ok((_, p2)) => match spec_read_short_string(s, p2) {
                Err(_) => spec_short_string_stop(s, p2),
                Ok((_, p3)) => spec_declared_address_stop(s, p3),
            },
        },
    }
}

/// Parsing a handshake: a VLQ timestamp (read and dropped), then a peer entry.
pub open spec fn spec_parse_handshake(s: Seq<u8>) -> Result<PeerSpecView, DecodeError> {
    match spec_read_vlq(s, 0) {
        Err(e) => Err(e),
        Ok((_, p)) => match spec_parse_peer_entry(s, p) {
            Err(e) => Err(e),
            Ok((v, _)) => Ok(v),
        },
    }
}

/// Reads a version (three raw bytes).
fn read_version(cursor: &mut ByteCursor) -> (r: Result<Version, DecodeError>)
    ensures
        final(cursor).bytes() == old(cursor).bytes(),
        match spec_read_version(old(cursor).bytes(), old(cursor).pos()) {
            Ok((v, q)) => r == Ok::<Version, DecodeError>(v) && final(cursor).pos() == q,
            Err(e) => r == Err::<Version, DecodeError>(e) && final(cursor).pos() == old(cursor).bytes().len(),
        },
{
    let ver = cursor.read_bytes(3)?;
    Ok(Version::new(ver[0], ver[1], ver[2]))
}

fn parse_address(cursor: &mut ByteCursor) -> (r: Result<Option<SocketAddress>, DecodeError>)
    ensures
        final(cursor).bytes() == old(cursor).bytes(),
        match spec_parse_address(old(cursor).bytes(), old(cursor).pos()) {
            Ok((a, q)) => r == Ok::<Option<SocketAddress>, DecodeError>(a) && final(cursor).pos() == q,
            Err(e) => r == Err::<Option<SocketAddress>, DecodeError>(e) && final(cursor).pos()
                == spec_address_stop(old(cursor).bytes(), old(cursor).pos()),
        },
{
    let addr_len = cursor.read_u8()?;
    let ip_len = if addr_len >= 4 {
        (addr_len - 4) as usize
    } else {
        0
    };
    let ip_bytes = cursor.read_bytes(ip_len)?;
    // Port is VLQ-encoded (Scorex getUInt -> VLQ)
    let port = vlq::read_vlq(cursor)? as u16;
    let addr = if ip_len == 4 {
        Some(
            SocketAddress {
                ip: IpAddress::V4([ip_bytes[0], ip_bytes[1], ip_bytes[2], ip_bytes[3]]),
                port,
            },
        )
    } else if ip_len == 16 {
        Some(
            SocketAddress {
                ip: IpAddress::V6(
                    [
                        ip_bytes[0],
                        ip_bytes[1],
                        ip_bytes[2],
                        ip_bytes[3],
                        ip_bytes[4],
                        ip_bytes[5],
                        ip_bytes[6],
                        ip_bytes[7],
                        ip_bytes[8],
                        ip_bytes[9],
                        ip_bytes[10],
                        ip_bytes[11],
                        ip_bytes[12],
                        ip_bytes[13],
                        ip_bytes[14],
                        ip_bytes[15],
                    ],
                ),
                port,
            },
        )
    } else {
        None
    };
    Ok(addr)
}

fn read_declared_address(cursor: &mut ByteCursor) -> (r: Result<Option<SocketAddress>, DecodeError>)
    ensures
        final(cursor).bytes() == old(cursor).bytes(),
        match spec_read_declared_address(old(cursor).bytes(), old(cursor).pos()) {
            Ok((a, q)) => r == Ok::<Option<SocketAddress>, DecodeError>(a) && final(cursor).pos() == q,
            Err(e) => r == Err::<Option<SocketAddress>, DecodeError>(e) && final(cursor).pos()
                == spec_declared_address_stop(old(cursor).bytes(), old(cursor).pos()),
        },
{
    let has_addr = cursor.read_u8()?;
    let address = if has_addr != 0 {
        parse_address(cursor)?
    } else {
        None
    };
    Ok(address)
}

fn parse_features(cursor: &mut ByteCursor) -> (features: Vec<Feature>)
    ensures
        final(cursor).bytes() == old(cursor).bytes(),
        features@.map_values(|f: Feature| f@) == spec_parse_features(old(cursor).bytes(), old(cursor).pos()).0,
        final(cursor).pos() == spec_parse_features(old(cursor).bytes(), old(cursor).pos()).1,
{
    let ghost s = cursor.bytes();
    let ghost p0 = cursor.pos();
    let mut features: Vec<Feature> = Vec::new();
    let feat_count = match cursor.read_u8() {
        Ok(n) => n,
        Err(_) => {
            assert(features@.map_values(|f: Feature| f@) == Seq::<(u8, Seq<u8>)>::empty());
            return features;
        },
    };
    let ghost p1 = cursor.pos();
    let mut i: u8 = 0;
    while i < feat_count
        invariant_except_break
            cursor.bytes() == s,
            i <= feat_count,
            features@.map_values(|f: Feature| f@) + spec_features_loop(s, cursor.pos(), (feat_count - i) as nat).0
                == spec_features_loop(s, p1, feat_count as nat).0,
            spec_features_loop(s, cursor.pos(), (feat_count - i) as nat).1 == spec_features_loop(
                s,
                p1,
                feat_count as nat,
            ).1,
        ensures
            cursor.bytes() == s,
            features@.map_values(|f: Feature| f@) == spec_features_loop(s, p1, feat_count as nat).0,
            cursor.pos() == spec_features_loop(s, p1, feat_count as nat).1,
        decreases feat_count - i,
    {
        let ghost cur = cursor.pos();
        let ghost done = features@.map_values(|f: Feature| f@);
        let id = match cursor.read_u8() {
            Ok(b) => b,
            Err(_) => {
                assert(done + Seq::<(u8, Seq<u8>)>::empty() == done);
                break;
            },
        };
        // Feature body length is VLQ-encoded (Scorex getUShort -> VLQ)
        let flen = match vlq::read_vlq_length(cursor) {
            Ok(len) => len,
            Err(_) => {
                assert(done + Seq::<(u8, Seq<u8>)>::empty() == done);
                break;
            },
        };
        let body = match cursor.read_bytes(flen) {
            Ok(b) => b,
            Err(_) => {
                assert(done + Seq::<(u8, Seq<u8>)>::empty() == done);
                break;
            },
        };
        let ghost fv = (id, body@);
        features.push(Feature { id, body });
        assert(features@.map_values(|f: Feature| f@) == done.push(fv));
        assert(done.push(fv) + spec_features_loop(s, cursor.pos(), (feat_count - i - 1) as nat).0
            == done + (seq![fv] + spec_features_loop(s, cursor.pos(), (feat_count - i - 1) as nat).0));
        i = i + 1;
    }
    if i == feat_count {
        assert(features@.map_values(|f: Feature| f@) + Seq::<(u8, Seq<u8>)>::empty()
            == features@.map_values(|f: Feature| f@));
    }
    features
}

/// Parses a peer entry from a Peers message body: the handshake format without
/// the timestamp prefix. On failure the cursor stops where the field that could
/// not be read stopped.
pub fn parse_peer_entry(cursor: &mut ByteCursor) -> (r: Result<PeerSpec, DecodeError>)
    ensures
        final(cursor).bytes() == old(cursor).bytes(),
        match spec_parse_peer_entry(old(cursor).bytes(), old(cursor).pos()) {
            Ok((v, q)) => r matches Ok(ps) && ps@ == v && final(cursor).pos() == q,
            Err(e) => r matches Err(e2) && e2 == e && final(cursor).pos() == spec_peer_entry_stop(
                old(cursor).bytes(),
                old(cursor).pos(),
            ),
        },
{
    let agent = vlq::read_short_string(cursor)?;
    let version = read_version(cursor)?;
    let name = vlq::read_short_string(cursor)?;
    let address = read_declared_address(cursor)?;
    let features = parse_features(cursor);
    Ok(PeerSpec { agent, version, name, address, features })
}

/// Parses handshake bytes into a PeerSpec.
pub fn parse(data: &[u8]) -> (r: Result<PeerSpec, DecodeError>)
    ensures
        match spec_parse_handshake(data@) {
            Ok(v) => r matches Ok(ps) && ps@ == v,
            Err(e) => r matches Err(e2) && e2 == e,
        },
{
    let mut cursor = ByteCursor::new(data);
    // Timestamp (consumed, not used)
    let _timestamp = vlq::read_vlq(&mut cursor)?;
    parse_peer_entry(&mut cursor)
}

/// Reading exactly `remaining` features at position `p` of `s`, failing on the
/// first that cannot be read whole: the position after them.
pub open spec fn spec_features_strict(s: Seq<u8>, p: nat, remaining: nat) -> Result<nat, DecodeError>
    decreases remaining,
{
    if remaining == 0 {
        Ok(p)
    } else {
        match spec_read_u8(s, p) {
            Err(e) => Err(e),
            Ok((_, q)) => match spec_read_vlq_length(s, q) {
                Err(e) => Err(e),
                Ok((len, r)) => match spec_read_bytes(s, r, len as nat) {
                    Err(e) => Err(e),
                    Ok((_, t)) => spec_features_strict(s, t, (remaining - 1) as nat),
                },
            },
        }
    }
}

/// The size of the handshake at the start of `s`: as parsing, but every
/// announced feature must be present whole.
pub open spec fn spec_measure_size(s: Seq<u8>) -> Result<nat, DecodeError> {
    match spec_read_vlq(s, 0) {
        Err(e) => Err(e),
        Ok((_, p0)) => match spec_read_short_string(s, p0) {
            Err(e) => Err(e),
            Ok((_, p1)) => match spec_read_version(s, p1) {
                Err(e) => Err(e),
                Ok((_, p2)) => match spec_read_short_string(s, p2) {
                    Err(e) => Err(e),
                    Ok((_, p3)) => match spec_read_declared_address(s, p3) {
                        Err(e) => Err(e),
                        Ok((_, p4)) => match spec_read_u8(s, p4) {
                            Err(e) => Err(e),
                            Ok((n, p5)) => spec_features_strict(s, p5, n as nat),
                        },
                    },
                },
            },
        },
    }
}

/// Measures the exact byte size of a handshake payload by parsing it.
/// Used by a connection to know how many bytes to consume from its read buffer.
pub fn measure_size(data: &[u8]) -> (r: Result<usize, DecodeError>)
    ensures
        match spec_measure_size(data@) {
            Ok(n) => r == Ok::<usize, DecodeError>(n as usize) && n <= data@.len(),
            Err(e) => r == Err::<usize, DecodeError>(e),
        },
{
    let mut cursor = ByteCursor::new(data);
    vlq::read_vlq(&mut cursor)?;
    vlq::read_short_string(&mut cursor)?;
    read_version(&mut cursor)?;
    vlq::read_short_string(&mut cursor)?;
    read_declared_address(&mut cursor)?;
    let feat_count = cursor.read_u8()?;
    let ghost s = data@;
    let ghost p5 = cursor.pos();
    let mut i: u8 = 0;
    while i < feat_count
        invariant
            cursor.bytes() == s,
            s == data@,
            spec_measure_size(s) == spec_features_strict(s, p5, feat_count as nat),
            i <= feat_count,
            spec_features_strict(s, cursor.pos(), (feat_count - i) as nat) == spec_features_strict(
                s,
                p5,
                feat_count as nat,
            ),
        decreases feat_count - i,
    {
        let ghost cur = cursor.pos();
        let ghost rem = (feat_count - i) as nat;
        assert(spec_features_strict(s, cur, rem) == match spec_read_u8(s, cur) {
            Err(e) => Err(e),
            Ok((_, q)) => match spec_read_vlq_length(s, q) {
                Err(e) => Err(e),
                Ok((len, r)) => match spec_read_bytes(s, r, len as nat) {
                    Err(e) => Err(e),
                    Ok((_, t)) => spec_features_strict(s, t, (rem - 1) as nat),
                },
            },
        });
        match cursor.read_u8() {
            Ok(_) => {},
            Err(e) => {
                return Err(e);
            },
        }
        let flen = match vlq::read_vlq_length(&mut cursor) {
            Ok(n) => n,
            Err(e) => {
                return Err(e);
            },
        };
        match cursor.read_bytes(flen) {
            Ok(_) => {},
            Err(e) => {
                return Err(e);
            },
        }
        i = i + 1;
    }
    Ok(cursor.position())
}

/// The body of the first feature with id `id`, if there is one.
pub open spec fn find_feature(features: Seq<(u8, Seq<u8>)>, id: u8) -> Option<Seq<u8>>
    decreases features.len(),
{
    if features.len() == 0 {
        None
    } else if features[0].0 == id {
        Some(features[0].1)
    } else {
        find_feature(features.drop_first(), id)
    }
}

/// The verdict on a peer: its version must be 4.0.100 or above, and the first
/// session feature, if it has at least four bytes, must open with the network's magic.
pub open spec fn spec_validate_peer(spec: PeerSpecView, network: Network) -> Result<(), ValidationError> {
    if version_lt(spec.version, eip37_min_version()) {
        Err(ValidationError::VersionTooLow(spec.version))
    } else {
        match find_feature(spec.features, FEATURE_SESSION) {
            Some(body) => if body.len() >= 4 && body.subrange(0, 4) != network_magic(network) {
                Err(ValidationError::SessionMagicMismatch)
            } else {
                Ok(())
            },
            None => Ok(()),
        }
    }
}

/// The first feature of `features` with id `id`, if any.
fn find_feature_exec(features: &Vec<Feature>, id: u8) -> (r: Option<&Feature>)
    ensures
        match find_feature(features@.map_values(|f: Feature| f@), id) {
            Some(b) => r matches Some(f) && f.id == id && f.body@ == b,
            None => r is None,
        },
{
    let ghost all = features@.map_values(|f: Feature| f@);
    let mut i: usize = 0;
    assert(all.skip(0) == all);
    while i < features.len()
        invariant
            i <= features@.len(),
            all == features@.map_values(|f: Feature| f@),
            find_feature(all, id) == find_feature(all.skip(i as int), id),
        decreases features.len() - i,
    {
        let ghost rest = all.skip(i as int);
        assert(rest.drop_first() == all.skip(i + 1));
        if features[i].id == id {
            return Some(&features[i]);
        }
        i = i + 1;
    }
    None
}

/// Validates a peer's handshake: Ok if its version is 4.0.100 or above and its
/// session magic (if any) matches the network.
pub fn validate_peer(spec: &PeerSpec, network: &Network) -> (r: Result<(), ValidationError>)
    ensures
        r == spec_validate_peer(spec@, *network),
{
    let min = Version::eip37_min();
    if spec.version.is_below(&min) {
        return Err(ValidationError::VersionTooLow(spec.version));
    }
    if let Some(session) = find_feature_exec(&spec.features, FEATURE_SESSION) {
        if session.body.len() >= 4 {
            let expected = network.magic();
            let b = &session.body;
            if b[0] != expected[0] || b[1] != expected[1] || b[2] != expected[2] || b[3] != expected[3] {
                assert(b@.subrange(0, 4) != network_magic(*network)) by {
                    if b@.subrange(0, 4) == network_magic(*network) {
                        assert(b@.subrange(0, 4)[0] == b@[0]);
                        assert(b@.subrange(0, 4)[1] == b@[1]);
                        assert(b@.subrange(0, 4)[2] == b@[2]);
                        assert(b@.subrange(0, 4)[3] == b@[3]);
                    }
                }
                return Err(ValidationError::SessionMagicMismatch);
            }
            assert(b@.subrange(0, 4) == network_magic(*network));
        }
    }
    Ok(())
}

/// Whether some feature carries the proxy id.
pub open spec fn spec_is_proxy(spec: PeerSpecView) -> bool {
    exists|i: int| 0 <= i < spec.features.len() && #[trigger] spec.features[i].0 == FEATURE_PROXY
}

/// Checks whether a peer's handshake indicates it is a proxy.
pub fn is_proxy(spec: &PeerSpec) -> (b: bool)
    ensures
        b == spec_is_proxy(spec@),
{
    let ghost all = spec.features@.map_values(|f: Feature| f@);
    let mut i: usize = 0;
    while i < spec.features.len()
        invariant
            i <= spec.features@.len(),
            all == spec.features@.map_values(|f: Feature| f@),
            forall|j: int| 0 <= j < i ==> all[j].0 != FEATURE_PROXY,
        decreases spec.features.len() - i,
    {
        if spec.features[i].id == FEATURE_PROXY {
            assert(spec@.features[i as int].0 == FEATURE_PROXY);
            return true;
        }
        i = i + 1;
    }
    false
}

// ---------------------------------------------------------------------------
// What `parse` and `measure_size` make of what `build` writes
// ---------------------------------------------------------------------------

proof fn lemma_read_short_string_at(s: Seq<u8>, p: nat, chars: Seq<char>)
    requires
        encode_utf8(chars).len() <= 255,
        holds_at(s, p, short_string_bytes(chars)),
    ensures
        spec_read_short_string(s, p) == Ok::<(Seq<char>, nat), DecodeError>(
            (chars, p + short_string_bytes(chars).len()),
        ),
{
    let e = encode_utf8(chars);
    let t = short_string_bytes(chars);
    assert(s[p as int] == s.subrange(p as int, (p + t.len()) as int)[0]);
    assert(t.subrange(1, 1 + e.len() as int) == e);
    lemma_holds_at_sub(s, p, t, 1, 1 + e.len());
    vstd::utf8::encode_utf8_valid_utf8(chars);
    vstd::utf8::encode_utf8_decode_utf8(chars);
}

proof fn lemma_read_feature_at(s: Seq<u8>, p: nat, id: u8, body: Seq<u8>)
    requires
        body.len() <= vlq::MAX_VLQ_LENGTH,
        holds_at(s, p, feature_bytes(id, body)),
    ensures
        spec_read_u8(s, p) == Ok::<(u8, nat), DecodeError>((id, p + 1)),
        spec_read_vlq_length(s, p + 1) == Ok::<(u64, nat), DecodeError>(
            (body.len() as u64, p + 1 + vlq_encode(body.len() as u64).len()),
        ),
        spec_read_bytes(s, p + 1 + vlq_encode(body.len() as u64).len(), body.len()) == Ok::<
            (Seq<u8>, nat),
            DecodeError,
        >((body, p + feature_bytes(id, body).len())),
{
    let t = feature_bytes(id, body);
    let e = vlq_encode(body.len() as u64);
    assert(s[p as int] == s.subrange(p as int, (p + t.len()) as int)[0]);
    assert(t.subrange(1, 1 + e.len() as int) == e);
    lemma_holds_at_sub(s, p, t, 1, 1 + e.len());
    lemma_read_vlq_at(s, p + 1, body.len() as u64);
    assert(t.subrange(1 + e.len() as int, t.len() as int) == body);
    lemma_holds_at_sub(s, p, t, 1 + e.len(), t.len());
}

proof fn lemma_read_declared_address_at(s: Seq<u8>, p: nat, addr: Option<SocketAddress>)
    requires
        holds_at(s, p, address_bytes(addr)),
    ensures
        spec_read_declared_address(s, p) == Ok::<(Option<SocketAddress>, nat), DecodeError>(
            (addr, p + address_bytes(addr).len()),
        ),
{
    broadcast use vstd::array::group_array_axioms;

    let t = address_bytes(addr);
    assert(s[p as int] == s.subrange(p as int, (p + t.len()) as int)[0]);
    match addr {
        None => {},
        Some(a) => {
            let o = ip_octets(a.ip);
            let e = vlq_encode(a.port as u64);
            assert(s[p + 1int] == s.subrange(p as int, (p + t.len()) as int)[1]);
            assert(t.subrange(2, 2 + o.len() as int) == o);
            lemma_holds_at_sub(s, p, t, 2, 2 + o.len());
            assert(t.subrange(2 + o.len() as int, t.len() as int) == e);
            lemma_holds_at_sub(s, p, t, 2 + o.len(), t.len());
            lemma_read_vlq_at(s, p + 2 + o.len(), a.port as u64);
            match a.ip {
                IpAddress::V4(arr) => {
                    assert(octets_to_ip(o) == Some(IpAddress::V4(arr))) by {
                        assert([o[0], o[1], o[2], o[3]] =~= arr);
                    }
                },
                IpAddress::V6(arr) => {
                    assert(octets_to_ip(o) == Some(IpAddress::V6(arr))) by {
                        assert([
                            o[0],
                            o[1],
                            o[2],
                            o[3],
                            o[4],
                            o[5],
                            o[6],
                            o[7],
                            o[8],
                            o[9],
                            o[10],
                            o[11],
                            o[12],
                            o[13],
                            o[14],
                            o[15],
                        ] =~= arr);
                    }
                },
            }
        },
    }
}

/// The features `build` writes: Mode, Session and Proxy, in that order.
pub open spec fn built_features(config: HandshakeConfig, session_id: u64) -> Seq<(u8, Seq<u8>)> {
    seq![
        (FEATURE_MODE, mode_body(config.mode)),
        (FEATURE_SESSION, session_body(config.network, session_id)),
        (FEATURE_PROXY, seq![0x01u8]),
    ]
}

/// What parsing gives of the handshake that `build` wrote for `config`.
pub open spec fn built_peer_spec(config: HandshakeConfig, session_id: u64) -> PeerSpecView {
    PeerSpecView {
        agent: config.agent_name@,
        version: config.version,
        name: config.peer_name@,
        address: config.declared_address,
        features: built_features(config, session_id),
    }
}

proof fn lemma_session_body_len(network: Network, session_id: u64)
    ensures
        5 <= session_body(network, session_id).len() <= 14,
{
    vlq::lemma_vlq_encode_len(zigzag64(session_id as i64));
}

/// Where the pieces of a built handshake start: the positions after the
/// timestamp, agent, version, peer name, address, count, and each feature.
spec fn built_offsets(config: HandshakeConfig, ts: u64, sid: u64) -> Seq<nat> {
    let o1 = vlq_encode(ts).len();
    let o2 = o1 + short_string_bytes(config.agent_name@).len();
    let o3 = o2 + 3;
    let o4 = o3 + short_string_bytes(config.peer_name@).len();
    let o5 = o4 + address_bytes(config.declared_address).len();
    let o6 = o5 + 1;
    let o7 = o6 + feature_bytes(FEATURE_MODE, mode_body(config.mode)).len();
    let o8 = o7 + feature_bytes(FEATURE_SESSION, session_body(config.network, sid)).len();
    let o9 = o8 + feature_bytes(FEATURE_PROXY, seq![0x01u8]).len();
    seq![o1, o2, o3, o4, o5, o6, o7, o8, o9]
}

#[verifier::spinoff_prover]
#[verifier::rlimit(50)]
proof fn lemma_built_layout(config: HandshakeConfig, ts: u64, sid: u64, rest: Seq<u8>)
    ensures
        ({
            let s = handshake_bytes(config, ts, sid) + rest;
            let o = built_offsets(config, ts, sid);
            &&& o[8] == handshake_bytes(config, ts, sid).len()
            &&& holds_at(s, 0, vlq_encode(ts))
            &&& holds_at(s, o[0], short_string_bytes(config.agent_name@))
            &&& holds_at(s, o[1], seq![config.version.major, config.version.minor, config.version.patch])
            &&& holds_at(s, o[2], short_string_bytes(config.peer_name@))
            &&& holds_at(s, o[3], address_bytes(config.declared_address))
            &&& holds_at(s, o[4], seq![3u8])
            &&& holds_at(s, o[5], feature_bytes(FEATURE_MODE, mode_body(config.mode)))
            &&& holds_at(s, o[6], feature_bytes(FEATURE_SESSION, session_body(config.network, sid)))
            &&& holds_at(s, o[7], feature_bytes(FEATURE_PROXY, seq![0x01u8]))
        }),
{
    let a = vlq_encode(ts);
    let b = short_string_bytes(config.agent_name@);
    let c = seq![config.version.major, config.version.minor, config.version.patch];
    let d = short_string_bytes(config.peer_name@);
    let e = address_bytes(config.declared_address);
    let f = seq![3u8];
    let g = feature_bytes(FEATURE_MODE, mode_body(config.mode));
    let h = feature_bytes(FEATURE_SESSION, session_body(config.network, sid));
    let i = feature_bytes(FEATURE_PROXY, seq![0x01u8]);
    let s = handshake_bytes(config, ts, sid) + rest;
    assert(handshake_bytes(config, ts, sid) == a + b + c + d + e + f + g + h + i);
    let o1 = a.len();
    let o2 = o1 + b.len();
    let o3 = o2 + c.len();
    let o4 = o3 + d.len();
    let o5 = o4 + e.len();
    let o6 = o5 + f.len();
    let o7 = o6 + g.len();
    let o8 = o7 + h.len();
    assert(s.subrange(0, o1 as int) == a);
    assert(s.subrange(o1 as int, o2 as int) == b);
    assert(s.subrange(o2 as int, o3 as int) == c);
    assert(s.subrange(o3 as int, o4 as int) == d);
    assert(s.subrange(o4 as int, o5 as int) == e);
    assert(s.subrange(o5 as int, o6 as int) == f);
    assert(s.subrange(o6 as int, o7 as int) == g);
    assert(s.subrange(o7 as int, o8 as int) == h);
    assert(s.subrange(o8 as int, (o8 + i.len()) as int) == i);
}

proof fn lemma_three_features(
    s: Seq<u8>,
    p: nat,
    f1: (u8, Seq<u8>),
    f2: (u8, Seq<u8>),
    f3: (u8, Seq<u8>),
)
    requires
        f1.1.len() <= vlq::MAX_VLQ_LENGTH,
        f2.1.len() <= vlq::MAX_VLQ_LENGTH,
        f3.1.len() <= vlq::MAX_VLQ_LENGTH,
        holds_at(s, p, feature_bytes(f1.0, f1.1)),
        holds_at(s, p + feature_bytes(f1.0, f1.1).len(), feature_bytes(f2.0, f2.1)),
        holds_at(
            s,
            p + feature_bytes(f1.0, f1.1).len() + feature_bytes(f2.0, f2.1).len(),
            feature_bytes(f3.0, f3.1),
        ),
    ensures
        ({
            let end = p + feature_bytes(f1.0, f1.1).len() + feature_bytes(f2.0, f2.1).len()
                + feature_bytes(f3.0, f3.1).len();
            &&& spec_features_loop(s, p, 3) == (seq![f1, f2, f3], end)
            &&& spec_features_strict(s, p, 3) == Ok::<nat, DecodeError>(end)
        }),
{
    let q1 = p + feature_bytes(f1.0, f1.1).len();
    let q2 = q1 + feature_bytes(f2.0, f2.1).len();
    let q3 = q2 + feature_bytes(f3.0, f3.1).len();
    lemma_read_feature_at(s, p, f1.0, f1.1);
    lemma_read_feature_at(s, q1, f2.0, f2.1);
    lemma_read_feature_at(s, q2, f3.0, f3.1);
    assert(spec_features_loop(s, q3, 0) == (Seq::<(u8, Seq<u8>)>::empty(), q3));
    assert(spec_features_loop(s, q2, 1) == (seq![f3], q3));
    assert(spec_features_loop(s, q1, 2) == (seq![f2, f3], q3));
    assert(spec_features_loop(s, p, 3) == (seq![f1, f2, f3], q3));
    assert(spec_features_strict(s, q3, 0) == Ok::<nat, DecodeError>(q3));
    assert(spec_features_strict(s, q2, 1) == Ok::<nat, DecodeError>(q3));
    assert(spec_features_strict(s, q1, 2) == Ok::<nat, DecodeError>(q3));
}

proof fn lemma_reads_from_layout(config: HandshakeConfig, ts: u64, sid: u64, s: Seq<u8>, o: Seq<nat>)
    requires
        config_fits(config),
        o == built_offsets(config, ts, sid),
        holds_at(s, 0, vlq_encode(ts)),
        holds_at(s, o[0], short_string_bytes(config.agent_name@)),
        holds_at(s, o[1], seq![config.version.major, config.version.minor, config.version.patch]),
        holds_at(s, o[2], short_string_bytes(config.peer_name@)),
        holds_at(s, o[3], address_bytes(config.declared_address)),
        holds_at(s, o[4], seq![3u8]),
        holds_at(s, o[5], feature_bytes(FEATURE_MODE, mode_body(config.mode))),
        holds_at(s, o[6], feature_bytes(FEATURE_SESSION, session_body(config.network, sid))),
        holds_at(s, o[7], feature_bytes(FEATURE_PROXY, seq![0x01u8])),
    ensures
        spec_read_vlq(s, 0) == Ok::<(u64, nat), DecodeError>((ts, o[0])),
        spec_read_short_string(s, o[0]) == Ok::<(Seq<char>, nat), DecodeError>(
            (config.agent_name@, o[1]),
        ),
        spec_read_version(s, o[1]) == Ok::<(Version, nat), DecodeError>((config.version, o[2])),
        spec_read_short_string(s, o[2]) == Ok::<(Seq<char>, nat), DecodeError>(
            (config.peer_name@, o[3]),
        ),
        spec_read_declared_address(s, o[3]) == Ok::<(Option<SocketAddress>, nat), DecodeError>(
            (config.declared_address, o[4]),
        ),
        spec_read_u8(s, o[4]) == Ok::<(u8, nat), DecodeError>((3u8, o[5])),
        spec_features_loop(s, o[5], 3) == (built_features(config, sid), o[8]),
        spec_features_strict(s, o[5], 3) == Ok::<nat, DecodeError>(o[8]),
{
    lemma_session_body_len(config.network, sid);
    lemma_read_vlq_at(s, 0, ts);
    lemma_read_short_string_at(s, o[0], config.agent_name@);
    let v = seq![config.version.major, config.version.minor, config.version.patch];
    assert(s.subrange(o[1] as int, o[1] + 3int) == v);
    lemma_read_short_string_at(s, o[2], config.peer_name@);
    lemma_read_declared_address_at(s, o[3], config.declared_address);
    assert(s[o[4] as int] == s.subrange(o[4] as int, o[4] + 1int)[0]);
    let bf = built_features(config, sid);
    lemma_three_features(s, o[5], bf[0], bf[1], bf[2]);
    assert(seq![bf[0], bf[1], bf[2]] == bf);
}

/// The reads of a built handshake, piece by piece.
proof fn lemma_built_reads(config: HandshakeConfig, ts: u64, sid: u64, rest: Seq<u8>)
    requires
        config_fits(config),
    ensures
        ({
            let s = handshake_bytes(config, ts, sid) + rest;
            let o = built_offsets(config, ts, sid);
            &&& o[8] == handshake_bytes(config, ts, sid).len()
            &&& spec_read_vlq(s, 0) == Ok::<(u64, nat), DecodeError>((ts, o[0]))
            &&& spec_read_short_string(s, o[0]) == Ok::<(Seq<char>, nat), DecodeError>(
                (config.agent_name@, o[1]),
            )
            &&& spec_read_version(s, o[1]) == Ok::<(Version, nat), DecodeError>((config.version, o[2]))
            &&& spec_read_short_string(s, o[2]) == Ok::<(Seq<char>, nat), DecodeError>(
                (config.peer_name@, o[3]),
            )
            &&& spec_read_declared_address(s, o[3]) == Ok::<(Option<SocketAddress>, nat), DecodeError>(
                (config.declared_address, o[4]),
            )
            &&& spec_read_u8(s, o[4]) == Ok::<(u8, nat), DecodeError>((3u8, o[5]))
            &&& spec_features_loop(s, o[5], 3) == (built_features(config, sid), o[8])
            &&& spec_features_strict(s, o[5], 3) == Ok::<nat, DecodeError>(o[8])
        }),
{
    let s = handshake_bytes(config, ts, sid) + rest;
    let o = built_offsets(config, ts, sid);
    lemma_built_layout(config, ts, sid, rest);
    lemma_reads_from_layout(config, ts, sid, s, o);
}

/// Parsing what `build` wrote gives back the configured agent, version, name and
/// declared address, and exactly the Mode, Session and Proxy features, whatever
/// bytes follow the handshake.
pub proof fn lemma_build_parse_roundtrip(config: HandshakeConfig, ts: u64, sid: u64, rest: Seq<u8>)
    requires
        config_fits(config),
    ensures
        spec_parse_handshake(handshake_bytes(config, ts, sid) + rest) == Ok::<PeerSpecView, DecodeError>(
            built_peer_spec(config, sid),
        ),
{
    lemma_built_reads(config, ts, sid, rest);
}

/// Measuring what `build` wrote, with any bytes after it, gives exactly its
/// length: no byte of what follows a handshake is taken for it.
pub proof fn lemma_build_measure(config: HandshakeConfig, ts: u64, sid: u64, rest: Seq<u8>)
    requires
        config_fits(config),
    ensures
        spec_measure_size(handshake_bytes(config, ts, sid) + rest) == Ok::<nat, DecodeError>(
            handshake_bytes(config, ts, sid).len(),
        ),
{
    lemma_built_reads(config, ts, sid, rest);
}

/// Every handshake that `build` writes carries the proxy feature, so another
/// proxy that parses it recognises it as a proxy.
pub proof fn lemma_built_is_proxy(config: HandshakeConfig, sid: u64)
    ensures
        spec_is_proxy(built_peer_spec(config, sid)),
{
    assert(built_peer_spec(config, sid).features[2].0 == FEATURE_PROXY);
}

/// A handshake that `build` wrote for `config` passes validation on the
/// configured network exactly when the configured version is 4.0.100 or above,
/// and is refused on the other network for its session magic.
pub proof fn lemma_built_validation(config: HandshakeConfig, sid: u64, network: Network)
    ensures
        spec_validate_peer(built_peer_spec(config, sid), network) == if version_lt(
            config.version,
            eip37_min_version(),
        ) {
            Err(ValidationError::VersionTooLow(config.version))
        } else if network == config.network {
            Ok(())
        } else {
            Err(ValidationError::SessionMagicMismatch)
        },
{
    let fs = built_features(config, sid);
    let body = session_body(config.network, sid);
    lemma_session_body_len(config.network, sid);
    assert(fs[0].0 == FEATURE_MODE);
    assert(fs.drop_first()[0] == (FEATURE_SESSION, body));
    assert(find_feature(fs.drop_first(), FEATURE_SESSION) == Some(body));
    assert(find_feature(fs, FEATURE_SESSION) == Some(body));
    assert(body.subrange(0, 4) == network_magic(config.network));
    if network != config.network {
        assert(network_magic(network)[0] != network_magic(config.network)[0]);
    }
}


/// A declared address on the wire, read where it stands: the flag byte 1, the
/// octet count plus four, the octets, and the port as VLQ. Reading it gives
/// exactly that IP address and port, for every IPv4 and IPv6 address and every
/// port, and stops just past the port.
pub proof fn lemma_declared_address_wire(ip: IpAddress, port: u16, s: Seq<u8>, p: nat)
    requires
        holds_at(
            s,
            p,
            seq![0x01u8, (ip_octets(ip).len() + 4) as u8] + ip_octets(ip) + vlq_encode(port as u64),
        ),
    ensures
        spec_read_declared_address(s, p) == Ok::<(Option<SocketAddress>, nat), DecodeError>(
            (
                Some(SocketAddress { ip, port }),
                p + 2 + ip_octets(ip).len() + vlq_encode(port as u64).len(),
            ),
        ),
{
    let a = SocketAddress { ip, port };
    assert(address_bytes(Some(a)) == seq![0x01u8, (ip_octets(ip).len() + 4) as u8] + ip_octets(ip)
        + vlq_encode(port as u64));
    lemma_read_declared_address_at(s, p, Some(a));
}

/// The features laid end to end, in order.
pub open spec fn features_bytes(fs: Seq<(u8, Seq<u8>)>) -> Seq<u8>
    decreases fs.len(),
{
    if fs.len() == 0 {
        seq![]
    } else {
        feature_bytes(fs[0].0, fs[0].1) + features_bytes(fs.drop_first())
    }
}

/// A handshake on the wire with the given fields and any list of features: a
/// VLQ timestamp, agent, three version bytes, name, declared address, the
/// feature count byte, then the features.
pub open spec fn handshake_wire(
    ts: u64,
    agent: Seq<char>,
    version: Version,
    name: Seq<char>,
    address: Option<SocketAddress>,
    fs: Seq<(u8, Seq<u8>)>,
) -> Seq<u8> {
    vlq_encode(ts) + short_string_bytes(agent) + seq![version.major, version.minor, version.patch]
        + short_string_bytes(name) + address_bytes(address) + seq![fs.len() as u8] + features_bytes(fs)
}

proof fn lemma_features_at(s: Seq<u8>, p: nat, fs: Seq<(u8, Seq<u8>)>)
    requires
        forall|i: int| 0 <= i < fs.len() ==> (#[trigger] fs[i]).1.len() <= vlq::MAX_VLQ_LENGTH,
        holds_at(s, p, features_bytes(fs)),
    ensures
        spec_features_loop(s, p, fs.len()) == (fs, p + features_bytes(fs).len()),
        spec_features_strict(s, p, fs.len()) == Ok::<nat, DecodeError>(p + features_bytes(fs).len()),
    decreases fs.len(),
{
    if fs.len() == 0 {
        assert(fs == Seq::<(u8, Seq<u8>)>::empty());
    } else {
        let f = fs[0];
        let r = fs.drop_first();
        let t = features_bytes(fs);
        let g = feature_bytes(f.0, f.1);
        assert(t == g + features_bytes(r));
        assert(t.subrange(0, g.len() as int) == g);
        lemma_holds_at_sub(s, p, t, 0, g.len());
        assert(t.subrange(g.len() as int, t.len() as int) == features_bytes(r));
        lemma_holds_at_sub(s, p, t, g.len(), t.len());
        lemma_read_feature_at(s, p, f.0, f.1);
        assert forall|i: int| 0 <= i < r.len() implies (#[trigger] r[i]).1.len() <= vlq::MAX_VLQ_LENGTH by {
            assert(r[i] == fs[i + 1]);
        }
        lemma_features_at(s, p + g.len(), r);
        assert(seq![f] + r == fs);
        assert(((fs.len() - 1) as nat) == r.len());
    }
}

/// Any handshake, with any number of features (up to the 255 a count byte
/// holds) and any feature ids: parsing it gives exactly its fields and its
/// features in order, and measuring it gives exactly its length, whatever
/// bytes follow it.
#[verifier::spinoff_prover]
#[verifier::rlimit(50)]
pub proof fn lemma_handshake_wire(
    ts: u64,
    agent: Seq<char>,
    version: Version,
    name: Seq<char>,
    address: Option<SocketAddress>,
    fs: Seq<(u8, Seq<u8>)>,
    rest: Seq<u8>,
)
    requires
        encode_utf8(agent).len() <= 255,
        encode_utf8(name).len() <= 255,
        fs.len() <= 255,
        forall|i: int| 0 <= i < fs.len() ==> (#[trigger] fs[i]).1.len() <= vlq::MAX_VLQ_LENGTH,
    ensures
        ({
            let h = handshake_wire(ts, agent, version, name, address, fs);
            &&& spec_measure_size(h + rest) == Ok::<nat, DecodeError>(h.len())
            &&& spec_parse_handshake(h + rest) == Ok::<PeerSpecView, DecodeError>(
                PeerSpecView { agent, version, name, address, features: fs },
            )
        }),
{
    let a = vlq_encode(ts);
    let b = short_string_bytes(agent);
    let c = seq![version.major, version.minor, version.patch];
    let d = short_string_bytes(name);
    let e = address_bytes(address);
    let f = seq![fs.len() as u8];
    let g = features_bytes(fs);
    let h = handshake_wire(ts, agent, version, name, address, fs);
    let s = h + rest;
    assert(h == a + b + c + d + e + f + g);
    let o1 = a.len();
    let o2 = o1 + b.len();
    let o3 = o2 + c.len();
    let o4 = o3 + d.len();
    let o5 = o4 + e.len();
    let o6 = o5 + f.len();
    assert(s.subrange(0, o1 as int) == a);
    assert(s.subrange(o1 as int, o2 as int) == b);
    assert(s.subrange(o2 as int, o3 as int) == c);
    assert(s.subrange(o3 as int, o4 as int) == d);
    assert(s.subrange(o4 as int, o5 as int) == e);
    assert(s.subrange(o5 as int, o6 as int) == f);
    assert(s.subrange(o6 as int, (o6 + g.len()) as int) == g);
    lemma_read_vlq_at(s, 0, ts);
    lemma_read_short_string_at(s, o1, agent);
    lemma_read_short_string_at(s, o3, name);
    lemma_read_declared_address_at(s, o4, address);
    assert(s[o5 as int] == f[0]);
    assert(s.subrange(o2 as int, o2 + 3int) == c);
    lemma_features_at(s, o6, fs);
    assert((fs.len() as u8) as nat == fs.len());
}

} // verus!
