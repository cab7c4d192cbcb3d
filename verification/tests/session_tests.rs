//! The multiplex session and the command layer against scripted
//! streams.

use ntt_client::cbor::{encode_value, Value};
use ntt_client::ntt::{Connection as NttConnection, MemStream};
use ntt_client::packet::{send_handshake, Handshake};
use ntt_client::proto::command::{Command, GetBlock, GetBlockHeader, Subscribe};
use ntt_client::proto::{Connection, LightId};

fn push_u32(buf: &mut Vec<u8>, v: u32) {
    buf.extend_from_slice(&v.to_be_bytes());
}

fn push_control(buf: &mut Vec<u8>, kind: u32, id: u32) {
    push_u32(buf, kind);
    push_u32(buf, id);
}

fn push_data(buf: &mut Vec<u8>, id: u32, payload: &[u8]) {
    push_u32(buf, id);
    push_u32(buf, payload.len() as u32);
    buf.extend_from_slice(payload);
}

fn syn_bytes(nonce: u64) -> Vec<u8> {
    let mut v = vec![0x53];
    v.extend_from_slice(&nonce.to_be_bytes());
    v
}

/// The scripted replies that carry a fresh session through its
/// opening dance on stream 0x400.
fn bootstrap_script(buf: &mut Vec<u8>) {
    push_control(buf, 0, 0x400);
    let hs = send_handshake(&Handshake::default());
    push_data(buf, 0x400, hs.as_slice());
    push_data(buf, 0x400, syn_bytes(0xbeef).as_slice());
}

fn open_session(extra_script: &[u8], seed: u64) -> Connection<MemStream> {
    let mut input = vec![0, 0, 0, 0];
    bootstrap_script(&mut input);
    input.extend_from_slice(extra_script);
    let stream = MemStream::new(input);
    let ntt = NttConnection::handshake(seed, stream).unwrap();
    Connection::new(ntt, &Handshake::default()).unwrap()
}

/// What the session writes while it opens: the transport handshake,
/// then the create/handshake/node-id/close dance on stream 0x400.
fn bootstrap_written(seed: u64) -> Vec<u8> {
    let mut w = vec![0u8; 16];
    push_control(&mut w, 0, 0x400);
    let hs = send_handshake(&Handshake::default());
    push_data(&mut w, 0x400, hs.as_slice());
    push_data(&mut w, 0x400, syn_bytes(seed).as_slice());
    push_control(&mut w, 1, 0x400);
    w
}

#[test]
fn session_bootstrap_writes_the_opening_dance() {
    let seed: u64 = 0x1122334455667788;
    let conn = open_session(&[], seed);
    let written = conn.stream_ref().written();
    assert_eq!(written.as_slice(), bootstrap_written(seed).as_slice());
}

#[test]
fn allocate_id_counts_up_from_0x401() {
    let mut conn = open_session(&[], 7);
    let a = conn.allocate_id();
    let b = conn.allocate_id();
    let c = conn.allocate_id();
    assert_eq!(a.to_u32(), 0x401);
    assert_eq!(b.to_u32(), 0x402);
    assert_eq!(c.to_u32(), 0x403);
}

#[test]
fn broadcast_ignores_close_for_unknown_stream() {
    let mut script = Vec::new();
    push_control(&mut script, 1, 0x999);
    let mut conn = open_session(script.as_slice(), 7);
    conn.broadcast().unwrap();
    assert!(conn.poll().is_none());
}

#[test]
fn broadcast_consumes_payload_for_unknown_stream() {
    let mut script = Vec::new();
    push_data(&mut script, 0x999, &[1, 2, 3]);
    push_control(&mut script, 1, 0x998);
    let mut conn = open_session(script.as_slice(), 7);
    conn.broadcast().unwrap();
    assert!(conn.poll().is_none());
    conn.broadcast().unwrap();
}

#[test]
fn drained_stream_survives_peer_close() {
    let mut script = Vec::new();
    push_control(&mut script, 0, 0x700);
    push_data(&mut script, 0x700, &[5, 6]);
    push_control(&mut script, 1, 0x700);
    let mut conn = open_session(script.as_slice(), 7);
    conn.broadcast().unwrap();
    conn.broadcast().unwrap();
    conn.broadcast().unwrap();
    let (id, bytes) = conn.poll().unwrap();
    assert_eq!(id.to_u32(), 0x700);
    assert_eq!(bytes.as_slice(), &[5, 6]);
    assert!(conn.poll().is_none());
}

#[test]
fn duplicate_server_create_is_fatal() {
    let mut script = Vec::new();
    push_control(&mut script, 0, 0x700);
    push_control(&mut script, 0, 0x700);
    let mut conn = open_session(script.as_slice(), 7);
    conn.broadcast().unwrap();
    assert!(conn.broadcast().is_err());
}

fn header_response_bytes() -> Vec<u8> {
    let mbh = Value::Array(vec![
        Value::U64(764824073),
        Value::Bytes(vec![0x77; 32]),
        Value::Array(vec![]),
        Value::Array(vec![]),
        Value::Array(vec![]),
    ]);
    let header = Value::Array(vec![Value::U64(1), mbh]);
    let response = Value::Array(vec![Value::U64(0), Value::IArray(vec![header])]);
    let mut buf = Vec::new();
    encode_value(&response, &mut buf);
    buf
}

#[test]
fn command_request_framing() {
    let seed: u64 = 0x1122334455667788;
    let mut script = Vec::new();
    push_control(&mut script, 0, 0x401);
    push_data(&mut script, 0x401, syn_bytes(0xcafe).as_slice());
    push_data(&mut script, 0x401, header_response_bytes().as_slice());
    let mut conn = open_session(script.as_slice(), seed);

    let mbh = GetBlockHeader::first().execute(&mut conn).unwrap();
    assert_eq!(mbh.previous_header.bytes(), &[0x77; 32]);

    let mut expected = bootstrap_written(seed);
    push_control(&mut expected, 0, 0x401);
    push_data(&mut expected, 0x401, syn_bytes(seed.wrapping_add(1)).as_slice());
    push_data(&mut expected, 0x401, &[0x04]);
    push_data(&mut expected, 0x401, &[0x82, 0x9f, 0xff, 0x80]);
    push_control(&mut expected, 1, 0x401);

    let written = conn.stream_ref().written();
    assert_eq!(written.as_slice(), expected.as_slice());
}

#[test]
fn get_block_returns_payload_verbatim() {
    let seed: u64 = 9;
    let payload = vec![0xde, 0xad, 0xbe, 0xef, 0x01];
    let mut script = Vec::new();
    push_control(&mut script, 0, 0x401);
    push_data(&mut script, 0x401, syn_bytes(0xcafe).as_slice());
    push_data(&mut script, 0x401, payload.as_slice());
    let mut conn = open_session(script.as_slice(), seed);

    let from = ntt_client::block::HeaderHash::from_bytes([0xaa; 32]);
    let got = GetBlock::only(from).execute(&mut conn).unwrap();
    assert_eq!(got.as_slice(), payload.as_slice());
}

#[test]
fn new_light_connection_announces_and_tags() {
    let seed: u64 = 41;
    let mut conn = open_session(&[], seed);
    let id = LightId::new(0x500);
    conn.new_light_connection(id).unwrap();
    let written = conn.stream_ref().written();
    let base = bootstrap_written(seed).len();
    let mut tail = Vec::new();
    push_control(&mut tail, 0, 0x500);
    push_data(&mut tail, 0x500, syn_bytes(seed.wrapping_add(1)).as_slice());
    assert_eq!(&written[base..], tail.as_slice());
    conn.close_light_connection(id).unwrap();
    let written2 = conn.stream_ref().written();
    assert_eq!(&written2[base + tail.len()..], &[0, 0, 0, 1, 0, 0, 5, 0]);
}

#[test]
fn subscribe_sends_the_flag_and_closes() {
    let seed: u64 = 3;
    let mut script = Vec::new();
    push_control(&mut script, 0, 0x401);
    let mut conn = open_session(script.as_slice(), seed);

    Subscribe::new(true).execute(&mut conn).unwrap();

    let mut expected = bootstrap_written(seed);
    push_control(&mut expected, 0, 0x401);
    push_data(&mut expected, 0x401, syn_bytes(seed.wrapping_add(1)).as_slice());
    push_data(&mut expected, 0x401, &[0x0e]);
    push_data(&mut expected, 0x401, &[0x18, 43]);
    push_control(&mut expected, 1, 0x401);
    let written = conn.stream_ref().written();
    assert_eq!(written.as_slice(), expected.as_slice());
}
