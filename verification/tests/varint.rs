use std::io::Cursor;

use mc_varint::VarInt;
use mc_varint::VarIntRead;
use mc_varint::VarIntWrite;

use yamp::mc::decode_varint;
use yamp::mc::encode_varint;
use yamp::mc::DecodeError;

const SAMPLES: [i32; 13] = [
    0,
    1,
    2,
    127,
    128,
    255,
    300,
    25565,
    2097151,
    2147483647,
    -1,
    -255,
    -2147483648,
];

#[test]
fn round_trip_sample_values() {
    for &v in SAMPLES.iter() {
        let enc = encode_varint(v);
        assert!(1 <= enc.len() && enc.len() <= 5);
        let (w, n) = decode_varint(&enc).expect("canonical encoding must decode");
        assert_eq!(w, v);
        assert_eq!(n, enc.len());
    }
}

#[test]
fn known_encodings() {
    assert_eq!(encode_varint(0), vec![0x00]);
    assert_eq!(encode_varint(1), vec![0x01]);
    assert_eq!(encode_varint(127), vec![0x7F]);
    assert_eq!(encode_varint(128), vec![0x80, 0x01]);
    assert_eq!(encode_varint(300), vec![0xAC, 0x02]);
    assert_eq!(encode_varint(25565), vec![0xDD, 0xC7, 0x01]);
    assert_eq!(encode_varint(2097151), vec![0xFF, 0xFF, 0x7F]);
    assert_eq!(encode_varint(2147483647), vec![0xFF, 0xFF, 0xFF, 0xFF, 0x07]);
    assert_eq!(encode_varint(-1), vec![0xFF, 0xFF, 0xFF, 0xFF, 0x0F]);
    assert_eq!(encode_varint(-2147483648), vec![0x80, 0x80, 0x80, 0x80, 0x08]);
}

#[test]
fn known_decodings() {
    assert_eq!(decode_varint(&[0x00]), Ok((0, 1)));
    assert_eq!(decode_varint(&[0x7F]), Ok((127, 1)));
    assert_eq!(decode_varint(&[0x80, 0x01]), Ok((128, 2)));
    assert_eq!(decode_varint(&[0xDD, 0xC7, 0x01]), Ok((25565, 3)));
    assert_eq!(decode_varint(&[0xFF, 0xFF, 0xFF, 0xFF, 0x0F]), Ok((-1, 5)));
    // Consumption stops at the terminating byte; residual bytes are left.
    assert_eq!(decode_varint(&[0x2F, 0x09, 0x6C]), Ok((47, 1)));
}

#[test]
fn overflowing_continuation_fails_malformed() {
    assert_eq!(
        decode_varint(&[0x80, 0x80, 0x80, 0x80, 0x80, 0x80]),
        Err(DecodeError::MalformedVarInt)
    );
    assert_eq!(
        decode_varint(&[0xFF, 0xFF, 0xFF, 0xFF, 0xFF, 0xFF]),
        Err(DecodeError::MalformedVarInt)
    );
    // Five continuing bytes already require a sixth.
    assert_eq!(
        decode_varint(&[0x80, 0x80, 0x80, 0x80, 0x80]),
        Err(DecodeError::MalformedVarInt)
    );
}

#[test]
fn truncated_varint_fails_truncated() {
    assert_eq!(decode_varint(&[]), Err(DecodeError::TruncatedInput));
    assert_eq!(decode_varint(&[0x80]), Err(DecodeError::TruncatedInput));
    assert_eq!(decode_varint(&[0xFF, 0xFF]), Err(DecodeError::TruncatedInput));
    assert_eq!(
        decode_varint(&[0x80, 0x80, 0x80, 0x80]),
        Err(DecodeError::TruncatedInput)
    );
}

#[test]
fn encoding_matches_reference_writer() {
    for &v in SAMPLES.iter() {
        let mut buf: Vec<u8> = Vec::new();
        buf.write_var_int(VarInt::from(v)).expect("write to a vec cannot fail");
        assert_eq!(encode_varint(v), buf);
    }
}

#[test]
fn reference_reader_accepts_our_encoding() {
    for &v in SAMPLES.iter() {
        let mut cur = Cursor::new(encode_varint(v));
        let w = cur.read_var_int().expect("reference reader must accept the encoding");
        assert_eq!(i32::from(w), v);
    }
}

#[test]
fn we_accept_reference_encoding() {
    for &v in SAMPLES.iter() {
        let mut buf: Vec<u8> = Vec::new();
        buf.write_var_int(VarInt::from(v)).expect("write to a vec cannot fail");
        let n = buf.len();
        assert_eq!(decode_varint(&buf), Ok((v, n)));
    }
}
