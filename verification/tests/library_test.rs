use ergo_proxy_node::config::{
    Config, ConfigError, IdentityConfig, ListenConfig, ListenerConfig, OutboundConfig, ProxyConfig,
};
use ergo_proxy_node::node;
use ergo_proxy_node::protocol::messages::ProtocolMessage;
use ergo_proxy_node::protocol::peer::{PeerState, PeerStateMachine, ProtocolEvent};
use ergo_proxy_node::transport::cursor::{ByteCursor, DecodeError};
use ergo_proxy_node::transport::frame::{self, Frame, FrameError, HEADER_SIZE};
use ergo_proxy_node::transport::handshake::{self, HandshakeConfig, PeerSpec, ValidationError};
use ergo_proxy_node::transport::vlq;
use ergo_proxy_node::types::{Direction, IpAddress, Network, PeerId, ProxyMode, SocketAddress, Version};

fn listener() -> ListenerConfig {
    ListenerConfig {
        address: SocketAddress { ip: IpAddress::V4([0, 0, 0, 0]), port: 9030 },
        mode: ProxyMode::Full,
        max_inbound: 20,
    }
}

fn sample_config(version: &str) -> Config {
    Config {
        proxy: ProxyConfig { network: Network::Testnet },
        listen: ListenConfig { ipv6: None, ipv4: Some(listener()) },
        outbound: OutboundConfig {
            min_peers: 3,
            max_peers: 10,
            seed_peers: vec![SocketAddress { ip: IpAddress::V4([213, 239, 193, 208]), port: 9023 }],
        },
        identity: IdentityConfig {
            agent_name: "ergo-proxy".into(),
            peer_name: "ergo-proxy-node".into(),
            protocol_version: version.into(),
        },
    }
}

fn hs_config(address: Option<SocketAddress>) -> HandshakeConfig {
    HandshakeConfig {
        agent_name: "ergoref".into(),
        peer_name: "proxy".into(),
        version: Version::new(6, 0, 3),
        network: Network::Mainnet,
        mode: ProxyMode::Full,
        declared_address: address,
    }
}

fn spec_with_version(major: u8, minor: u8, patch: u8) -> PeerSpec {
    PeerSpec {
        agent: "ergoref".into(),
        version: Version::new(major, minor, patch),
        name: "peer".into(),
        address: None,
        features: vec![],
    }
}

// ---------------------------------------------------------------------------
// Configuration
// ---------------------------------------------------------------------------

#[test]
fn config_sample_is_valid() {
    assert_eq!(sample_config("6.0.3").validate(), Ok(()));
}

#[test]
fn config_without_listener_is_refused() {
    let mut c = sample_config("6.0.3");
    c.listen.ipv4 = None;
    assert_eq!(c.validate(), Err(ConfigError::NoListener));
}

#[test]
fn config_with_only_ipv6_listener_is_valid() {
    let mut c = sample_config("6.0.3");
    c.listen.ipv4 = None;
    c.listen.ipv6 = Some(listener());
    assert_eq!(c.validate(), Ok(()));
}

#[test]
fn config_without_seed_is_refused() {
    let mut c = sample_config("6.0.3");
    c.outbound.seed_peers.clear();
    assert_eq!(c.validate(), Err(ConfigError::NoSeedPeer));
}

#[test]
fn config_min_above_max_is_refused() {
    let mut c = sample_config("6.0.3");
    c.outbound.min_peers = 11;
    assert_eq!(c.validate(), Err(ConfigError::MinPeersAboveMax));
}

#[test]
fn config_listener_checked_before_seeds() {
    let mut c = sample_config("6.0.3");
    c.listen.ipv4 = None;
    c.outbound.seed_peers.clear();
    c.outbound.min_peers = 11;
    assert_eq!(c.validate(), Err(ConfigError::NoListener));
}

#[test]
fn config_version_bytes_parses_three_numbers() {
    assert_eq!(sample_config("6.0.3").version_bytes(), Ok((6, 0, 3)));
    assert_eq!(sample_config("255.0.100").version_bytes(), Ok((255, 0, 100)));
    assert_eq!(sample_config("007.1.2").version_bytes(), Ok((7, 1, 2)));
}

#[test]
fn config_version_bytes_accepts_leading_plus() {
    // `u8::from_str` accepts one leading '+'.
    assert_eq!(sample_config("+6.0.3").version_bytes(), Ok((6, 0, 3)));
}

#[test]
fn config_version_bytes_refuses_bad_strings() {
    for v in ["6.0", "6.0.3.1", "6..3", "256.0.0", "a.b.c", "", "6.0.-1", "+.0.0", " 6.0.3"] {
        assert_eq!(sample_config(v).version_bytes(), Err(ConfigError::InvalidVersion), "{}", v);
    }
}

// ---------------------------------------------------------------------------
// Node decisions
// ---------------------------------------------------------------------------

#[test]
fn node_admits_below_limit_only() {
    assert!(node::admit_inbound(0, 20));
    assert!(node::admit_inbound(19, 20));
    assert!(!node::admit_inbound(20, 20));
    assert!(!node::admit_inbound(0, 0));
}

#[test]
fn node_wants_outbound_below_min() {
    assert!(node::wants_outbound(2, 3));
    assert!(!node::wants_outbound(3, 3));
    assert!(!node::wants_outbound(4, 3));
}

#[test]
fn node_backoff_doubles_up_to_cap() {
    assert_eq!(node::next_backoff_secs(node::INITIAL_BACKOFF_SECS), 10);
    assert_eq!(node::next_backoff_secs(10), 20);
    assert_eq!(node::next_backoff_secs(160), 300);
    assert_eq!(node::next_backoff_secs(150), 300);
    assert_eq!(node::next_backoff_secs(149), 298);
    assert_eq!(node::next_backoff_secs(300), 300);
    assert_eq!(node::next_backoff_secs(u64::MAX), 300);
}

#[test]
fn node_handshake_config_copies_identity() {
    let c = sample_config("6.0.3");
    let hs = node::make_handshake_config(&c.identity, Version::new(6, 0, 3), Network::Mainnet, ProxyMode::Light);
    assert_eq!(hs.agent_name, "ergo-proxy");
    assert_eq!(hs.peer_name, "ergo-proxy-node");
    assert_eq!(hs.version, Version::new(6, 0, 3));
    assert_eq!(hs.network, Network::Mainnet);
    assert_eq!(hs.mode, ProxyMode::Light);
    assert!(hs.declared_address.is_none());
}

// ---------------------------------------------------------------------------
// Versions
// ---------------------------------------------------------------------------

#[test]
fn version_order_is_lexicographic() {
    assert!(Version::new(4, 0, 99).is_below(&Version::eip37_min()));
    assert!(Version::new(3, 9, 255).is_below(&Version::new(4, 0, 0)));
    assert!(!Version::eip37_min().is_below(&Version::eip37_min()));
    assert!(!Version::new(5, 0, 0).is_below(&Version::new(4, 255, 255)));
    assert!(Version::new(4, 0, 100).is_below(&Version::new(4, 1, 0)));
}

#[test]
fn network_magic_bytes() {
    assert_eq!(Network::Mainnet.magic(), [1, 0, 2, 4]);
    assert_eq!(Network::Testnet.magic(), [2, 3, 2, 3]);
}

// ---------------------------------------------------------------------------
// Cursor and VLQ
// ---------------------------------------------------------------------------

#[test]
fn cursor_reads_and_stops_at_end() {
    let data = [1u8, 2, 3];
    let mut c = ByteCursor::new(&data);
    assert_eq!(c.read_u8(), Ok(1));
    assert_eq!(c.read_bytes(2), Ok(vec![2, 3]));
    assert_eq!(c.position(), 3);
    assert_eq!(c.read_u8(), Err(DecodeError::UnexpectedEof));
    assert_eq!(c.position(), 3);
}

#[test]
fn cursor_short_read_consumes_the_rest() {
    let data = [1u8, 2, 3];
    let mut c = ByteCursor::new(&data);
    assert_eq!(c.peek(2), Some(3));
    assert_eq!(c.peek(3), None);
    assert_eq!(c.read_bytes(4), Err(DecodeError::UnexpectedEof));
    assert_eq!(c.position(), 3);
    assert_eq!(c.remaining(), 0);
}

#[test]
fn vlq_u64_max_takes_ten_bytes() {
    let mut buf = Vec::new();
    vlq::write_vlq(&mut buf, u64::MAX);
    assert_eq!(buf, vec![0xff, 0xff, 0xff, 0xff, 0xff, 0xff, 0xff, 0xff, 0xff, 0x01]);
    let mut c = ByteCursor::new(&buf);
    assert_eq!(vlq::read_vlq(&mut c), Ok(u64::MAX));
    assert_eq!(c.position(), 10);
}

#[test]
fn vlq_exact_encoding_of_300() {
    let mut buf = Vec::new();
    vlq::write_vlq(&mut buf, 300);
    assert_eq!(buf, vec![0xac, 0x02]);
}

#[test]
fn vlq_truncated_is_eof_and_consumes_the_rest() {
    let data = [0x80u8, 0x80];
    let mut c = ByteCursor::new(&data);
    assert_eq!(vlq::read_vlq(&mut c), Err(DecodeError::UnexpectedEof));
    assert_eq!(c.position(), 2);
}

#[test]
fn vlq_peek_does_not_move() {
    let data = [0xac, 0x02, 0x07];
    let c = ByteCursor::new(&data);
    assert_eq!(vlq::peek_vlq(&c), Ok((300, 2)));
    assert_eq!(c.position(), 0);
}

#[test]
fn vlq_length_limit_is_inclusive() {
    let mut buf = Vec::new();
    vlq::write_vlq(&mut buf, vlq::MAX_VLQ_LENGTH);
    let mut c = ByteCursor::new(&buf);
    assert_eq!(vlq::read_vlq_length(&mut c), Ok(262144));
    let mut buf = Vec::new();
    vlq::write_vlq(&mut buf, vlq::MAX_VLQ_LENGTH + 1);
    let mut c = ByteCursor::new(&buf);
    assert_eq!(vlq::read_vlq_length(&mut c), Err(DecodeError::LengthTooLarge(262145)));
    assert_eq!(c.position(), 3);
}

#[test]
fn zigzag_extremes() {
    assert_eq!(vlq::zigzag_encode(i32::MIN), u32::MAX);
    assert_eq!(vlq::zigzag_encode(i32::MAX), u32::MAX - 1);
    assert_eq!(vlq::zigzag_decode(u32::MAX), i32::MIN);
    assert_eq!(vlq::zigzag_decode(3), -2);
    assert_eq!(vlq::zigzag_encode_i64(-1), 1);
    assert_eq!(vlq::zigzag_encode_i64(1), 2);
    assert_eq!(vlq::zigzag_encode_i64(i64::MIN), u64::MAX);
    assert_eq!(vlq::zigzag_encode_i64(i64::MAX), u64::MAX - 1);
}

#[test]
fn zigzag_is_a_bijection_on_samples() {
    for v in [0i32, 1, -1, 63, -64, 1000, -1000, i32::MAX, i32::MIN] {
        assert_eq!(vlq::zigzag_decode(vlq::zigzag_encode(v)), v);
    }
    for u in [0u32, 1, 2, 127, 128, u32::MAX] {
        assert_eq!(vlq::zigzag_encode(vlq::zigzag_decode(u)), u);
    }
}

#[test]
fn short_string_invalid_utf8_is_refused() {
    let data = [2u8, 0xff, 0xfe];
    let mut c = ByteCursor::new(&data);
    assert_eq!(vlq::read_short_string(&mut c), Err(DecodeError::InvalidUtf8));
    assert_eq!(c.position(), 3);
}

#[test]
fn short_string_truncated_is_eof() {
    let data = [5u8, b'a', b'b'];
    let mut c = ByteCursor::new(&data);
    assert_eq!(vlq::read_short_string(&mut c), Err(DecodeError::UnexpectedEof));
    assert_eq!(c.position(), 3);
    let mut c = ByteCursor::new(&[]);
    assert_eq!(vlq::read_short_string(&mut c), Err(DecodeError::UnexpectedEof));
}

#[test]
fn short_string_multibyte_length_is_in_bytes() {
    let mut buf = Vec::new();
    vlq::write_short_string(&mut buf, "é");
    assert_eq!(buf, vec![2, 0xc3, 0xa9]);
    let mut c = ByteCursor::new(&buf);
    assert_eq!(vlq::read_short_string(&mut c).unwrap(), "é");
}

// ---------------------------------------------------------------------------
// Frames
// ---------------------------------------------------------------------------

#[test]
fn frame_exact_bytes_of_get_peers() {
    let bytes = frame::encode(&Network::Mainnet.magic(), &Frame { code: 1, body: vec![] });
    assert_eq!(bytes.len(), HEADER_SIZE);
    assert_eq!(&bytes[0..9], &[1, 0, 2, 4, 1, 0, 0, 0, 0]);
}

#[test]
fn frame_length_is_big_endian() {
    let body = vec![7u8; 300];
    let bytes = frame::encode(&Network::Testnet.magic(), &Frame { code: 33, body: body.clone() });
    assert_eq!(&bytes[5..9], &[0, 0, 1, 44]);
    assert_eq!(&bytes[13..], body.as_slice());
}

#[test]
fn frame_too_short() {
    let magic = Network::Testnet.magic();
    assert_eq!(frame::decode(&magic, &[2, 3, 2, 3, 1]), Err(FrameError::TooShort));
    assert_eq!(frame::decode_header(&magic, &[]).err(), Some(FrameError::TooShort));
}

#[test]
fn frame_body_too_large() {
    let magic = Network::Testnet.magic();
    let data = [2, 3, 2, 3, 1, 0, 4, 0, 1, 0, 0, 0, 0];
    assert_eq!(frame::decode(&magic, &data), Err(FrameError::BodyTooLarge));
    // exactly the limit is accepted by the header check
    let data = [2, 3, 2, 3, 1, 0, 4, 0, 0, 0, 0, 0, 0];
    let h = frame::decode_header(&magic, &data).unwrap();
    assert_eq!(h.body_len, frame::MAX_BODY_SIZE);
    assert_eq!(frame::decode(&magic, &data), Err(FrameError::Truncated));
}

#[test]
fn frame_truncated_body() {
    let magic = Network::Mainnet.magic();
    let mut bytes = frame::encode(&magic, &Frame { code: 55, body: vec![1, 2, 3, 4] });
    bytes.pop();
    assert_eq!(frame::decode(&magic, &bytes), Err(FrameError::Truncated));
}

#[test]
fn frame_magic_checked_before_length() {
    let magic = Network::Mainnet.magic();
    let data = [2, 3, 2, 3, 1, 0xff, 0xff, 0xff, 0xff, 0, 0, 0, 0];
    assert_eq!(frame::decode(&magic, &data), Err(FrameError::BadMagic));
}

#[test]
fn frame_header_then_body() {
    let magic = Network::Mainnet.magic();
    let bytes = frame::encode(&magic, &Frame { code: 65, body: vec![9, 8, 7] });
    let header = frame::decode_header(&magic, &bytes[..HEADER_SIZE]).unwrap();
    assert_eq!(header.code, 65);
    assert_eq!(header.body_len, 3);
    let f = frame::check_body(&header, bytes[HEADER_SIZE..].to_vec()).unwrap();
    assert_eq!(f, Frame { code: 65, body: vec![9, 8, 7] });
    assert_eq!(frame::check_body(&header, vec![9, 8, 6]), Err(FrameError::ChecksumMismatch));
}

#[test]
fn frame_verify_body_compares_digest_prefix() {
    let magic = Network::Mainnet.magic();
    let bytes = frame::encode_with_checksum(&magic, &Frame { code: 5, body: vec![1] }, &[10, 20, 30, 40, 50]);
    assert_eq!(&bytes[9..13], &[10, 20, 30, 40]);
    let header = frame::decode_header(&magic, &bytes).unwrap();
    assert_eq!(header.checksum, [10, 20, 30, 40]);
    assert_eq!(frame::verify_body(&header, vec![1], &[10, 20, 30, 40]).unwrap().body, vec![1]);
    assert_eq!(frame::verify_body(&header, vec![1], &[10, 20, 30, 41]), Err(FrameError::ChecksumMismatch));
}

// ---------------------------------------------------------------------------
// Handshakes
// ---------------------------------------------------------------------------

#[test]
fn handshake_measure_size_stops_at_end_of_handshake() {
    let bytes = handshake::build(&hs_config(None), 1774907744980, 42);
    let mut with_tail = bytes.clone();
    with_tail.extend_from_slice(&[1, 0, 2, 4, 65, 0, 0, 0, 0]);
    assert_eq!(handshake::measure_size(&bytes), Ok(bytes.len()));
    assert_eq!(handshake::measure_size(&with_tail), Ok(bytes.len()));
}

#[test]
fn handshake_declared_ipv4_address_roundtrips() {
    let addr = SocketAddress { ip: IpAddress::V4([10, 0, 0, 7]), port: 9030 };
    let bytes = handshake::build(&hs_config(Some(addr)), 5, 6);
    let spec = handshake::parse(&bytes).unwrap();
    assert_eq!(spec.address, Some(addr));
    assert_eq!(spec.agent, "ergoref");
    assert_eq!(spec.name, "proxy");
    assert_eq!(spec.version, Version::new(6, 0, 3));
}

#[test]
fn handshake_declared_ipv6_address_roundtrips() {
    let mut octets = [0u8; 16];
    octets[15] = 1;
    let addr = SocketAddress { ip: IpAddress::V6(octets), port: 65535 };
    let bytes = handshake::build(&hs_config(Some(addr)), 5, 6);
    assert_eq!(handshake::parse(&bytes).unwrap().address, Some(addr));
}

#[test]
fn handshake_built_has_three_features() {
    let bytes = handshake::build(&hs_config(None), 0, 0);
    let spec = handshake::parse(&bytes).unwrap();
    let ids: Vec<u8> = spec.features.iter().map(|f| f.id).collect();
    assert_eq!(ids, vec![handshake::FEATURE_MODE, handshake::FEATURE_SESSION, handshake::FEATURE_PROXY]);
    assert_eq!(spec.features[2].body, vec![1]);
    // session id 0: magic then the single VLQ byte 0
    assert_eq!(spec.features[1].body, vec![1, 0, 2, 4, 0]);
}

#[test]
fn handshake_session_body_negative_id() {
    // u64::MAX is -1 as i64, which zigzags to 1
    assert_eq!(handshake::build_session_body(Network::Testnet, u64::MAX), vec![2, 3, 2, 3, 1]);
    assert_eq!(handshake::build_session_body(Network::Mainnet, 1), vec![1, 0, 2, 4, 2]);
}

#[test]
fn handshake_is_proxy_for_built_but_not_bare() {
    let bytes = handshake::build(&hs_config(None), 1, 2);
    assert!(handshake::is_proxy(&handshake::parse(&bytes).unwrap()));
    assert!(!handshake::is_proxy(&spec_with_version(6, 0, 3)));
}

#[test]
fn handshake_other_network_is_refused() {
    let bytes = handshake::build(&hs_config(None), 1, 2);
    let spec = handshake::parse(&bytes).unwrap();
    assert_eq!(handshake::validate_peer(&spec, &Network::Mainnet), Ok(()));
    assert_eq!(handshake::validate_peer(&spec, &Network::Testnet), Err(ValidationError::SessionMagicMismatch));
}

#[test]
fn handshake_version_boundary() {
    assert_eq!(handshake::validate_peer(&spec_with_version(4, 0, 100), &Network::Mainnet), Ok(()));
    assert_eq!(
        handshake::validate_peer(&spec_with_version(4, 0, 99), &Network::Mainnet),
        Err(ValidationError::VersionTooLow(Version::new(4, 0, 99)))
    );
}

#[test]
fn handshake_truncated_is_refused() {
    let bytes = handshake::build(&hs_config(None), 1, 2);
    // cut inside the peer name
    assert_eq!(handshake::parse(&bytes[..12]).err(), Some(DecodeError::UnexpectedEof));
    assert_eq!(handshake::parse(&[]).err(), Some(DecodeError::UnexpectedEof));
}

#[test]
fn handshake_parse_peer_entry_moves_cursor() {
    let bytes = handshake::build(&hs_config(None), 300, 2);
    let mut c = ByteCursor::new(&bytes);
    assert_eq!(vlq::read_vlq(&mut c), Ok(300));
    let spec = handshake::parse_peer_entry(&mut c).unwrap();
    assert_eq!(spec.name, "proxy");
    assert_eq!(c.position(), bytes.len());
}

#[test]
fn handshake_feature_list_cut_short_keeps_read_features() {
    let bytes = handshake::build(&hs_config(None), 1, 2);
    let spec = handshake::parse(&bytes[..bytes.len() - 1]).unwrap();
    assert_eq!(spec.features.len(), 2);
}

// ---------------------------------------------------------------------------
// Messages
// ---------------------------------------------------------------------------

#[test]
fn messages_roundtrip_every_variant() {
    let msgs = vec![
        ProtocolMessage::GetPeers,
        ProtocolMessage::Peers { body: vec![0, 1] },
        ProtocolMessage::Inv { modifier_type: 2, ids: vec![[1; 32], [2; 32]] },
        ProtocolMessage::ModifierRequest { modifier_type: 4, ids: vec![[3; 32]] },
        ProtocolMessage::ModifierResponse { modifier_type: 2, modifiers: vec![([5; 32], vec![1, 2, 3]), ([6; 32], vec![])] },
        ProtocolMessage::SyncInfo { body: vec![9; 10] },
        ProtocolMessage::Unknown { code: 99, body: vec![4] },
    ];
    for m in msgs {
        let f = m.to_frame();
        let back = ProtocolMessage::from_frame(&f).unwrap();
        assert_eq!(format!("{:?}", back), format!("{:?}", m));
        assert_eq!(format!("{:?}", m.duplicate()), format!("{:?}", m));
    }
}

#[test]
fn messages_inv_body_layout() {
    let f = ProtocolMessage::Inv { modifier_type: 2, ids: vec![[0xab; 32]] }.to_frame();
    assert_eq!(f.code, 55);
    assert_eq!(f.body.len(), 1 + 1 + 32);
    assert_eq!(&f.body[..2], &[2, 1]);
}

#[test]
fn messages_truncated_inv_is_refused() {
    let f = Frame { code: 55, body: vec![2, 2, 0xab] };
    assert_eq!(ProtocolMessage::from_frame(&f).err(), Some(DecodeError::UnexpectedEof));
}

#[test]
fn messages_modifier_response_overlong_length_is_refused() {
    let mut body = vec![2u8, 1];
    body.extend_from_slice(&[7u8; 32]);
    let mut len = Vec::new();
    vlq::write_vlq(&mut len, 262145);
    body.extend_from_slice(&len);
    let f = Frame { code: 33, body };
    assert_eq!(ProtocolMessage::from_frame(&f).err(), Some(DecodeError::LengthTooLarge(262145)));
}

// ---------------------------------------------------------------------------
// Peer lifecycle
// ---------------------------------------------------------------------------

#[test]
fn peer_starts_connecting() {
    let m = PeerStateMachine::new(PeerId(1), Direction::Outbound);
    assert_eq!(m.state(), PeerState::Connecting);
    assert_eq!(m.peer_id(), PeerId(1));
    assert_eq!(m.direction(), Direction::Outbound);
    assert!(m.spec().is_none());
}

#[test]
fn peer_full_lifecycle() {
    let mut m = PeerStateMachine::new(PeerId(7), Direction::Inbound);
    m.set_handshaking();
    assert_eq!(m.state(), PeerState::Handshaking);
    let ev = m.set_active(spec_with_version(6, 0, 3));
    assert_eq!(m.state(), PeerState::Active);
    assert_eq!(m.spec().unwrap().version, Version::new(6, 0, 3));
    match ev {
        ProtocolEvent::PeerConnected { peer_id, spec, direction } => {
            assert_eq!(peer_id, PeerId(7));
            assert_eq!(spec.name, "peer");
            assert_eq!(direction, Direction::Inbound);
        }
        _ => panic!("expected PeerConnected"),
    }
    match m.message_event(ProtocolMessage::GetPeers) {
        ProtocolEvent::Message { peer_id, message: ProtocolMessage::GetPeers } => assert_eq!(peer_id, PeerId(7)),
        _ => panic!("expected Message"),
    }
    match m.set_disconnected("bye".into()) {
        ProtocolEvent::PeerDisconnected { peer_id, reason } => {
            assert_eq!(peer_id, PeerId(7));
            assert_eq!(reason, "bye");
        }
        _ => panic!("expected PeerDisconnected"),
    }
    assert_eq!(m.state(), PeerState::Disconnected);
}

#[test]
fn peer_handshake_failure() {
    let mut m = PeerStateMachine::new(PeerId(2), Direction::Outbound);
    m.set_handshaking();
    m.set_failed("timeout".into());
    assert_eq!(m.state(), PeerState::Failed);
    assert!(m.spec().is_none());
}

#[test]
fn messages_survive_the_wire() {
    let magic = Network::Testnet.magic();
    let m = ProtocolMessage::ModifierResponse { modifier_type: 2, modifiers: vec![([8; 32], vec![1, 2, 3, 4])] };
    let bytes = frame::encode(&magic, &m.to_frame());
    let back = ProtocolMessage::from_frame(&frame::decode(&magic, &bytes).unwrap()).unwrap();
    assert_eq!(format!("{:?}", back), format!("{:?}", m));
}

#[test]
fn vlq_wider_than_64_bits_is_overflow() {
    // the VLQ of 2^64: nine continuation bytes, then 0x02
    let data = [0x80u8, 0x80, 0x80, 0x80, 0x80, 0x80, 0x80, 0x80, 0x80, 0x02];
    let mut c = ByteCursor::new(&data);
    assert_eq!(vlq::read_vlq(&mut c), Err(DecodeError::VlqOverflow));
    assert_eq!(c.position(), 10);
    // a tenth byte of 1 is the top bit and still fits
    let data = [0x80u8, 0x80, 0x80, 0x80, 0x80, 0x80, 0x80, 0x80, 0x80, 0x01];
    let mut c = ByteCursor::new(&data);
    assert_eq!(vlq::read_vlq(&mut c), Ok(1u64 << 63));
}

#[test]
fn peer_entry_failure_stops_where_reading_stopped() {
    // agent "ab", version, then a peer name announcing 5 bytes with only 2 there
    let data = [2u8, b'a', b'b', 6, 0, 3, 5, b'x', b'y'];
    let mut c = ByteCursor::new(&data);
    assert_eq!(handshake::parse_peer_entry(&mut c).err(), Some(DecodeError::UnexpectedEof));
    assert_eq!(c.position(), data.len());
}

#[test]
fn peer_entry_cut_feature_leaves_cursor_where_the_feature_stopped() {
    // a full entry whose second feature announces a length above 256 KiB
    let mut data = vec![2u8, b'a', b'b', 6, 0, 3, 1, b'n', 0, 2, 16, 1, 9, 3];
    vlq::write_vlq(&mut data, 262145);
    data.extend_from_slice(&[7, 7]);
    let mut c = ByteCursor::new(&data);
    let spec = handshake::parse_peer_entry(&mut c).unwrap();
    assert_eq!(spec.features.len(), 1);
    // the oversized length was read and refused: the cursor is just past it
    assert_eq!(c.position(), data.len() - 2);
}
