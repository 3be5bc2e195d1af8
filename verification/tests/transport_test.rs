use blake2::digest::consts::U32;
use blake2::{Blake2b, Digest};
use ergo_proxy_node::transport::cursor::{ByteCursor, DecodeError};
use ergo_proxy_node::transport::frame::{self, Frame, FrameError};
use ergo_proxy_node::transport::handshake::{self, HandshakeConfig, ValidationError};
use ergo_proxy_node::transport::vlq;
use ergo_proxy_node::types::{IpAddress, Network, ProxyMode, SocketAddress, Version};

const TIMESTAMP_MS: u64 = 1774907744980;
// A session id whose ZigZag+VLQ encoding takes eight bytes.
const SESSION_ID: u64 = 0x0012_3456_789a_bcde;

#[test]
fn write_short_string_roundtrip() {
    let mut buf = Vec::new();
    vlq::write_short_string(&mut buf, "ergo-proxy");
    let mut cursor = ByteCursor::new(buf.as_slice());
    assert_eq!(vlq::read_short_string(&mut cursor).unwrap(), "ergo-proxy");
}

#[test]
fn vlq_encode_zero() {
    let mut buf = Vec::new();
    vlq::write_vlq(&mut buf, 0);
    assert_eq!(buf, vec![0x00]);
}

#[test]
fn vlq_encode_single_byte() {
    let mut buf = Vec::new();
    vlq::write_vlq(&mut buf, 127);
    assert_eq!(buf, vec![0x7f]);
}

#[test]
fn vlq_encode_two_bytes() {
    let mut buf = Vec::new();
    vlq::write_vlq(&mut buf, 128);
    assert_eq!(buf, vec![0x80, 0x01]);
}

#[test]
fn vlq_encode_large_value() {
    // 300 = 0b100101100 -> low 7: 0101100 = 0x2c | 0x80, high 7: 0000010 = 0x02
    let mut buf = Vec::new();
    vlq::write_vlq(&mut buf, 300);
    assert_eq!(buf, vec![0xac, 0x02]);
}

#[test]
fn vlq_roundtrip() {
    let values = [0u64, 1, 127, 128, 255, 256, 16383, 16384, 1_000_000, u64::MAX >> 1];
    for &val in &values {
        let mut buf = Vec::new();
        vlq::write_vlq(&mut buf, val);
        let mut cursor = ByteCursor::new(buf.as_slice());
        let decoded = vlq::read_vlq(&mut cursor).unwrap();
        assert_eq!(decoded, val, "roundtrip failed for {}", val);
    }
}

#[test]
fn vlq_read_overflow_returns_error() {
    let data = vec![0x80; 10];
    let mut cursor = ByteCursor::new(data.as_slice());
    assert!(vlq::read_vlq(&mut cursor).is_err());
}

#[test]
fn vlq_length_rejects_oversized() {
    let mut buf = Vec::new();
    vlq::write_vlq(&mut buf, 300_000);
    let mut cursor = ByteCursor::new(buf.as_slice());
    assert!(vlq::read_vlq_length(&mut cursor).is_err());
}

#[test]
fn vlq_length_accepts_valid() {
    let mut buf = Vec::new();
    vlq::write_vlq(&mut buf, 1024);
    let mut cursor = ByteCursor::new(buf.as_slice());
    assert_eq!(vlq::read_vlq_length(&mut cursor).unwrap(), 1024);
}

#[test]
fn zigzag_encode_positive() {
    assert_eq!(vlq::zigzag_encode(1), 2);
    assert_eq!(vlq::zigzag_encode(2), 4);
    assert_eq!(vlq::zigzag_encode(1440), 2880);
}

#[test]
fn zigzag_encode_negative() {
    assert_eq!(vlq::zigzag_encode(-1), 1);
    assert_eq!(vlq::zigzag_encode(-2), 3);
}

#[test]
fn zigzag_roundtrip() {
    for val in [-1000i32, -2, -1, 0, 1, 2, 1000, i32::MAX, i32::MIN] {
        let encoded = vlq::zigzag_encode(val);
        let decoded = vlq::zigzag_decode(encoded);
        assert_eq!(decoded, val, "zigzag roundtrip failed for {}", val);
    }
}

// --- Frame tests ---

#[test]
fn frame_encode_decode_roundtrip() {
    let magic = Network::Testnet.magic();
    let original = Frame { code: 55, body: vec![2, 0, 1, 2, 3] };
    let bytes = frame::encode(&magic, &original);
    assert_eq!(bytes.len(), 13 + original.body.len());
    let decoded = frame::decode(&magic, &bytes).unwrap();
    assert_eq!(decoded.code, original.code);
    assert_eq!(decoded.body, original.body);
}

#[test]
fn frame_decode_bad_magic_returns_error() {
    let magic = Network::Testnet.magic();
    let f = Frame { code: 1, body: vec![] };
    let mut bytes = frame::encode(&magic, &f);
    bytes[0] = 0xff;
    assert!(frame::decode(&magic, &bytes).is_err());
}

#[test]
fn frame_decode_bad_checksum_returns_error() {
    let magic = Network::Testnet.magic();
    let f = Frame { code: 1, body: vec![1, 2, 3] };
    let mut bytes = frame::encode(&magic, &f);
    let last = bytes.len() - 1;
    bytes[last] ^= 0xff;
    assert!(frame::decode(&magic, &bytes).is_err());
}

#[test]
fn frame_decode_empty_body() {
    let magic = Network::Testnet.magic();
    let f = Frame { code: 1, body: vec![] };
    let bytes = frame::encode(&magic, &f);
    let decoded = frame::decode(&magic, &bytes).unwrap();
    assert_eq!(decoded.code, 1);
    assert!(decoded.body.is_empty());
}

#[test]
fn frame_encode_checksum_is_blake2b256_prefix() {
    let magic = Network::Testnet.magic();
    let body = vec![0xde, 0xad, 0xbe, 0xef];
    let f = Frame { code: 55, body: body.clone() };
    let bytes = frame::encode(&magic, &f);
    let expected_checksum = &Blake2b::<U32>::digest(&body)[..4];
    assert_eq!(&bytes[9..13], expected_checksum);
}

// --- Handshake tests ---

fn test_config(agent: &str, peer: &str, version: Version, mode: ProxyMode) -> HandshakeConfig {
    HandshakeConfig {
        agent_name: agent.to_string(),
        peer_name: peer.to_string(),
        version,
        network: Network::Testnet,
        mode,
        declared_address: None,
    }
}

#[test]
fn handshake_build_parse_roundtrip() {
    let config = test_config("ergo-proxy", "test-node", Version::new(6, 0, 3), ProxyMode::Full);
    let bytes = handshake::build(&config, TIMESTAMP_MS, SESSION_ID);
    let spec = handshake::parse(&bytes).unwrap();

    assert_eq!(spec.agent, "ergo-proxy");
    assert_eq!(spec.name, "test-node");
    assert_eq!(spec.version, Version::new(6, 0, 3));
    assert_eq!(spec.address, None);
    assert!(spec.features.len() >= 2);
}

#[test]
fn handshake_full_mode_feature() {
    let config = test_config("test", "test", Version::new(6, 0, 3), ProxyMode::Full);
    let bytes = handshake::build(&config, TIMESTAMP_MS, SESSION_ID);
    let spec = handshake::parse(&bytes).unwrap();
    let mode_feat = spec.features.iter().find(|f| f.id == 16).unwrap();
    assert_eq!(mode_feat.body, vec![0x00, 0x01, 0x00, 0x01]);
}

#[test]
fn handshake_light_mode_feature() {
    let config = test_config("test", "test", Version::new(6, 0, 3), ProxyMode::Light);
    let bytes = handshake::build(&config, TIMESTAMP_MS, SESSION_ID);
    let spec = handshake::parse(&bytes).unwrap();
    let mode_feat = spec.features.iter().find(|f| f.id == 16).unwrap();
    assert_eq!(mode_feat.body, vec![0x00, 0x01, 0x01, 0x02, 0x01]);
}

#[test]
fn handshake_session_feature_has_correct_magic() {
    let config = test_config("test", "test", Version::new(6, 0, 3), ProxyMode::Full);
    let bytes = handshake::build(&config, TIMESTAMP_MS, SESSION_ID);
    let spec = handshake::parse(&bytes).unwrap();
    let session_feat = spec.features.iter().find(|f| f.id == 3).unwrap();
    assert_eq!(&session_feat.body[0..4], &[2, 3, 2, 3]);
    assert_eq!(session_feat.body.len(), 12);
}

#[test]
fn handshake_version_validation() {
    let config = test_config("test", "test", Version::new(3, 0, 0), ProxyMode::Full);
    let bytes = handshake::build(&config, TIMESTAMP_MS, SESSION_ID);
    let spec = handshake::parse(&bytes).unwrap();
    assert!(handshake::validate_peer(&spec, &Network::Testnet).is_err());
}

#[test]
fn handshake_valid_peer_accepted() {
    let config = test_config("ergoref", "test-node", Version::new(6, 0, 3), ProxyMode::Full);
    let bytes = handshake::build(&config, TIMESTAMP_MS, SESSION_ID);
    let spec = handshake::parse(&bytes).unwrap();
    assert!(handshake::validate_peer(&spec, &Network::Testnet).is_ok());
}
