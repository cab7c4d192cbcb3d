//! The frame transport against scripted byte streams.

use ntt_client::error::Error;
use ntt_client::ntt::protocol::{control_header_from_u32, control_header_to_u32, Command, ControlHeader, NodeId};
use ntt_client::ntt::{Connection, EndPoint, MemStream};
use ntt_client::packet::MsgType;

#[test]
fn transport_handshake_ok() {
    let stream = MemStream::new(vec![0x00, 0x00, 0x00, 0x00]);
    let conn = Connection::handshake(7, stream).unwrap();
    let written = conn.stream_ref().written();
    assert_eq!(written.as_slice(), &[0u8; 16]);
}

#[test]
fn transport_handshake_rejected() {
    let stream = MemStream::new(vec![0xff, 0xff, 0xff, 0xff]);
    match Connection::handshake(7, stream) {
        Err(Error::HandshakeRejected(code)) => assert_eq!(code, 0xffffffff),
        _ => panic!("expected a rejection"),
    }
}

#[test]
fn transport_handshake_unknown_status() {
    let stream = MemStream::new(vec![0x00, 0x00, 0x00, 0x09]);
    match Connection::handshake(7, stream) {
        Err(Error::ProtocolError(code)) => assert_eq!(code, 9),
        _ => panic!("expected a protocol error"),
    }
}

#[test]
fn frame_decode_mix() {
    let mut input = vec![0x00, 0x00, 0x00, 0x00];
    input.extend_from_slice(&[0x00, 0x00, 0x00, 0x00, 0x00, 0x00, 0x04, 0x00]);
    input.extend_from_slice(&[0x00, 0x00, 0x04, 0x00, 0x00, 0x00, 0x00, 0x05, 0x01, 0x02, 0x03, 0x04, 0x05]);
    let stream = MemStream::new(input);
    let mut conn = Connection::handshake(7, stream).unwrap();
    match conn.recv().unwrap() {
        Command::Control(ControlHeader::CreatedNewConnection, id) => assert_eq!(id, 1024),
        other => panic!("unexpected frame {:?}", other),
    }
    match conn.recv().unwrap() {
        Command::Data(id, len) => {
            assert_eq!(id, 1024);
            assert_eq!(len, 5);
            let payload = conn.recv_len(len).unwrap();
            assert_eq!(payload.as_slice(), &[1, 2, 3, 4, 5]);
        },
        other => panic!("unexpected frame {:?}", other),
    }
}

#[test]
fn control_header_codes_round_trip() {
    let headers = [
        ControlHeader::CreatedNewConnection,
        ControlHeader::CloseConnection,
        ControlHeader::CloseSocket,
        ControlHeader::CloseEndPoint,
        ControlHeader::ProbeSocket,
        ControlHeader::ProbeSocketAck,
    ];
    let mut code: u32 = 0;
    for h in headers {
        assert_eq!(control_header_to_u32(h), code);
        assert_eq!(control_header_from_u32(code).unwrap(), h);
        code += 1;
    }
    assert!(control_header_from_u32(6).is_err());
    assert!(control_header_from_u32(1023).is_err());
}

#[test]
fn unknown_control_kind_is_an_error() {
    let mut input = vec![0x00, 0x00, 0x00, 0x00];
    input.extend_from_slice(&[0x00, 0x00, 0x00, 0x07, 0x00, 0x00, 0x04, 0x00]);
    let stream = MemStream::new(input);
    let mut conn = Connection::handshake(7, stream).unwrap();
    match conn.recv() {
        Err(Error::ProtocolError(w)) => assert_eq!(w, 7),
        other => panic!("unexpected result {:?}", other),
    }
}

#[test]
fn syn_node_id_bytes_layout() {
    let nid = NodeId::make_syn_nodeid(0x78296ec5d45c9524);
    assert_eq!(nid.as_bytes(), &[0x53, 0x78, 0x29, 0x6e, 0xc5, 0xd4, 0x5c, 0x95, 0x24]);
    let fixed = ntt_client::packet::send_hardcoded_blob_after_handshake();
    assert_eq!(nid.as_bytes(), fixed.as_slice());
}

#[test]
fn light_send_data_frames_payload() {
    let stream = MemStream::new(vec![0x00, 0x00, 0x00, 0x00]);
    let mut conn = Connection::handshake(7, stream).unwrap();
    conn.light_send_data(0x500, &[9, 8, 7]).unwrap();
    let written = conn.stream_ref().written();
    assert_eq!(&written[16..], &[0x00, 0x00, 0x05, 0x00, 0x00, 0x00, 0x00, 0x03, 9, 8, 7]);
}

#[test]
fn message_codes() {
    assert_eq!(MsgType::MsgSubscribe.to_u8(), 0x0e);
    assert_eq!(MsgType::MsgGetHeaders.to_u8(), 0x04);
    assert_eq!(MsgType::MsgGetBlocks.to_u8(), 0x06);
}

#[test]
fn unaddressable_endpoint_sends_a_zero_length() {
    let stream = MemStream::new(vec![0x00, 0x00, 0x00, 0x00]);
    let mut conn = Connection::handshake(7, stream).unwrap();
    conn.send_endpoint(&EndPoint::unaddressable()).unwrap();
    let written = conn.stream_ref().written();
    assert_eq!(&written[16..], &[0, 0, 0, 0]);
}
