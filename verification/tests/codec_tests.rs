//! The tagged binary encoding: concrete encodings and round trips.

use ntt_client::cbor::{decode_header, decode_value, encode_header, encode_value, Value};

fn encode(v: &Value) -> Vec<u8> {
    let mut buf = Vec::new();
    encode_value(v, &mut buf);
    buf
}

#[test]
fn uint_encodings_are_minimal() {
    assert_eq!(encode(&Value::U64(0)).as_slice(), &[0x00]);
    assert_eq!(encode(&Value::U64(23)).as_slice(), &[0x17]);
    assert_eq!(encode(&Value::U64(24)).as_slice(), &[0x18, 24]);
    assert_eq!(encode(&Value::U64(255)).as_slice(), &[0x18, 0xff]);
    assert_eq!(encode(&Value::U64(256)).as_slice(), &[0x19, 0x01, 0x00]);
    assert_eq!(encode(&Value::U64(65535)).as_slice(), &[0x19, 0xff, 0xff]);
    assert_eq!(encode(&Value::U64(65536)).as_slice(), &[0x1a, 0x00, 0x01, 0x00, 0x00]);
    assert_eq!(
        encode(&Value::U64(0x100000000)).as_slice(),
        &[0x1b, 0x00, 0x00, 0x00, 0x01, 0x00, 0x00, 0x00, 0x00]
    );
}

#[test]
fn nonminimal_uint_is_rejected() {
    assert!(decode_value(&vec![0x18, 0x05], 0).is_err());
    assert!(decode_value(&vec![0x19, 0x00, 0x30], 0).is_err());
    assert!(decode_value(&vec![0x17], 0).is_ok());
}

#[test]
fn value_round_trips() {
    let samples = vec![
        Value::U64(764824073),
        Value::Bytes(vec![1, 2, 3]),
        Value::Text(vec![b'h', b'i']),
        Value::Array(vec![Value::U64(1), Value::Bytes(vec![9])]),
        Value::IArray(vec![Value::U64(7), Value::U64(300)]),
        Value::Object(vec![(4, Value::U64(5)), (6, Value::U64(7))]),
        Value::Tag(24, Box::new(Value::Bytes(vec![5]))),
    ];
    for v in samples {
        let bytes = encode(&v);
        let (back, end) = decode_value(&bytes, 0).unwrap();
        assert_eq!(end, bytes.len());
        assert_eq!(back, v);
        assert_eq!(encode(&back).as_slice(), bytes.as_slice());
    }
}

#[test]
fn map_with_unsorted_keys_is_rejected() {
    let bytes = vec![0xa2, 0x06, 0x01, 0x04, 0x02];
    assert!(decode_value(&bytes, 0).is_err());
    let sorted = vec![0xa2, 0x04, 0x02, 0x06, 0x01];
    assert!(decode_value(&sorted, 0).is_ok());
}

#[test]
fn header_round_trips() {
    let cases: Vec<(u8, u64)> = vec![(0, 0), (0, 23), (2, 32), (4, 4), (5, 19), (6, 24), (0, 764824073)];
    for (major, n) in cases {
        let mut buf = Vec::new();
        encode_header(major, n, &mut buf);
        let (m2, n2, end) = decode_header(&buf, 0).unwrap();
        assert_eq!(m2, major);
        assert_eq!(n2, n);
        assert_eq!(end, buf.len());
    }
}

#[test]
fn indefinite_array_uses_break() {
    let v = Value::IArray(vec![Value::U64(1)]);
    let bytes = encode(&v);
    assert_eq!(bytes.as_slice(), &[0x9f, 0x01, 0xff]);
    let (back, _) = decode_value(&bytes, 0).unwrap();
    assert_eq!(back, v);
}

#[test]
fn block_header_decoding_extracts_the_previous_hash() {
    let mbh = Value::Array(vec![
        Value::U64(633343913),
        Value::Bytes(vec![0x42; 32]),
        Value::Array(vec![Value::U64(1)]),
        Value::Array(vec![]),
        Value::Array(vec![]),
    ]);
    let decoded = ntt_client::block::MainBlockHeader::decode(mbh).unwrap();
    assert_eq!(decoded.protocol_magic.0, 633343913);
    assert_eq!(decoded.previous_header.bytes(), &[0x42; 32]);
    assert_eq!(decoded.body_proof.len(), 1);

    let bad = Value::Array(vec![Value::U64(1)]);
    assert!(ntt_client::block::MainBlockHeader::decode(bad).is_err());
}

#[test]
fn block_decoding_requires_the_main_tag() {
    let mbh = Value::Array(vec![
        Value::U64(1),
        Value::Bytes(vec![0x42; 32]),
        Value::Array(vec![]),
        Value::Array(vec![]),
        Value::Array(vec![]),
    ]);
    let body = Value::Array(vec![
        Value::IArray(vec![]),
        Value::U64(0),
        Value::U64(0),
        Value::U64(0),
    ]);
    let blk = Value::Array(vec![mbh, body, Value::U64(0)]);
    let tagged = Value::Array(vec![Value::U64(1), blk]);
    let decoded = ntt_client::block::Block::decode(tagged).unwrap();
    match decoded {
        ntt_client::block::Block::MainBlock(b) => {
            assert_eq!(b.header.previous_header.bytes(), &[0x42; 32]);
        },
    }
    let wrong_tag = Value::Array(vec![Value::U64(0), Value::U64(0)]);
    assert!(ntt_client::block::Block::decode(wrong_tag).is_err());
}
