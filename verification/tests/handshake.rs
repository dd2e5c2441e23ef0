use yamp::handshake::parse_handshake;
use yamp::handshake::split_segments;
use yamp::mc::decode_varint;
use yamp::mc::DecodeError;
use yamp::sniff::classify;
use yamp::sniff::legacy_markers;
use yamp::sniff::should_relay;
use yamp::sniff::ConnectionKind;
use yamp::util::ByteCursor;
use yamp::util::ByteRead;
use yamp::util::McRead;

fn example_body() -> Vec<u8> {
    // packetId=0, protocolVersion=47, host="localhost", port=25565 big-endian
    let mut body = vec![0x00, 0x2F, 0x09];
    body.extend_from_slice(b"localhost");
    body.extend_from_slice(&[0x63, 0xDD]);
    body
}

#[test]
fn handshake_parse_example() {
    let body = example_body();
    let p = parse_handshake(body).expect("the example handshake must parse");
    assert_eq!(p.packet_id, 0);
    assert_eq!(p.protocol_version, 47);
    assert_eq!(p.server_address, b"localhost".to_vec());
    assert_eq!(p.server_port, 25565);
}

#[test]
fn handshake_outer_length_covers_body() {
    // The outer packet-length varint precedes the body on the wire.
    let body = example_body();
    let mut stream = vec![body.len() as u8];
    stream.extend_from_slice(&body);
    let (len, consumed) = decode_varint(&stream).expect("outer length must decode");
    assert_eq!(consumed, 1);
    assert_eq!(len as usize, body.len());
    let framed = stream[consumed..consumed + len as usize].to_vec();
    let p = parse_handshake(framed).expect("the framed body must parse");
    assert_eq!(p.packet_id, 0);
    assert_eq!(p.protocol_version, 47);
    assert_eq!(p.server_port, 25565);
}

#[test]
fn handshake_residual_bytes_ignored() {
    let mut body = example_body();
    body.extend_from_slice(&[0x01, 0x42]);
    let p = parse_handshake(body).expect("residual bytes must not break parsing");
    assert_eq!(p.packet_id, 0);
    assert_eq!(p.protocol_version, 47);
    assert_eq!(p.server_address, b"localhost".to_vec());
    assert_eq!(p.server_port, 25565);
}

#[test]
fn handshake_truncations_fail_truncated() {
    let body = example_body();
    for cut in 0..body.len() {
        let r = parse_handshake(body[..cut].to_vec());
        assert_eq!(r.err(), Some(DecodeError::TruncatedInput));
    }
}

#[test]
fn handshake_negative_string_length_fails() {
    // packetId=0, protocolVersion=47, then a varint host length of -1.
    let mut body = vec![0x00, 0x2F];
    body.extend_from_slice(&[0xFF, 0xFF, 0xFF, 0xFF, 0x0F]);
    let r = parse_handshake(body);
    assert_eq!(r.err(), Some(DecodeError::MalformedLength));
}

#[test]
fn handshake_malformed_varint_fails() {
    let body = vec![0x80, 0x80, 0x80, 0x80, 0x80, 0x80];
    let r = parse_handshake(body);
    assert_eq!(r.err(), Some(DecodeError::MalformedVarInt));
}

#[test]
fn multi_segment_host() {
    let segs = split_segments(b"play.example.com\0ADDON\0");
    assert_eq!(segs.len(), 2);
    assert_eq!(segs[0], b"play.example.com".to_vec());
    assert_eq!(segs[1], b"ADDON".to_vec());
}

#[test]
fn single_segment_host() {
    let segs = split_segments(b"localhost");
    assert_eq!(segs.len(), 1);
    assert_eq!(segs[0], b"localhost".to_vec());

    let segs = split_segments(b"localhost\0");
    assert_eq!(segs.len(), 1);
    assert_eq!(segs[0], b"localhost".to_vec());

    assert_eq!(split_segments(b"").len(), 0);
}

#[test]
fn classification_of_first_byte() {
    assert_eq!(classify(0xFE), ConnectionKind::Legacy);
    assert_eq!(classify(0x00), ConnectionKind::Modern);
    assert_eq!(classify(0x10), ConnectionKind::Modern);
    assert_eq!(classify(0xFF), ConnectionKind::Modern);
}

#[test]
fn legacy_never_relays() {
    assert!(!should_relay(classify(0xFE)));
    assert!(should_relay(classify(0x10)));
}

#[test]
fn legacy_marker_bytes() {
    assert_eq!(legacy_markers(&[0xFE, 0x01, 0x99]), Some((0xFE, 0x01)));
    assert_eq!(legacy_markers(&[0xFE]), None);
    assert_eq!(legacy_markers(&[]), None);
}

#[test]
fn cursor_reads() {
    let mut cur = ByteCursor::new(vec![1, 2, 3]);
    assert_eq!(cur.read_byte(), Ok(1));
    assert_eq!(cur.read_bytes(2), Ok(vec![2, 3]));
    assert_eq!(cur.read_byte(), Err(DecodeError::TruncatedInput));
}

#[test]
fn cursor_read_bytes_too_many_fails() {
    let mut cur = ByteCursor::new(vec![1, 2, 3]);
    assert_eq!(cur.read_bytes(4), Err(DecodeError::TruncatedInput));
    // Nothing was consumed by the failure.
    assert_eq!(cur.read_bytes(3), Ok(vec![1, 2, 3]));
}

#[test]
fn cursor_read_var_int() {
    let mut cur = ByteCursor::new(vec![0xDD, 0xC7, 0x01, 0x07]);
    assert_eq!(cur.read_var_int(), Ok(25565));
    assert_eq!(cur.read_var_int(), Ok(7));
    assert_eq!(cur.read_var_int(), Err(DecodeError::TruncatedInput));
}

#[test]
fn cursor_read_mc_string() {
    let mut cur = ByteCursor::new(vec![0x03, 0x61, 0x62, 0x63, 0x7F]);
    assert_eq!(cur.read_mc_string(), Ok(b"abc".to_vec()));
    assert_eq!(cur.read_byte(), Ok(0x7F));
}

#[test]
fn cursor_read_mc_string_truncated_body_fails() {
    let mut cur = ByteCursor::new(vec![0x05, 0x61, 0x62]);
    assert_eq!(cur.read_mc_string(), Err(DecodeError::TruncatedInput));
}

#[test]
fn cursor_read_mc_string_negative_length_fails() {
    let mut cur = ByteCursor::new(vec![0xFF, 0xFF, 0xFF, 0xFF, 0x0F]);
    assert_eq!(cur.read_mc_string(), Err(DecodeError::MalformedLength));
}
