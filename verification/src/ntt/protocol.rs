//! Wire encoding of the transport: the initial handshake record, the
//! control and data frame headers, and the 9-byte node ids that open a
//! stream.

use vstd::prelude::*;
use crate::endian::{u32_be_bytes, u32_of_be, u64_be_bytes, push_u32_be, push_u64_be, push_all};

verus! {

/// The transport speaks protocol version zero.
pub const PROTOCOL_VERSION: u32 = 0x00000000;

/// Light connection ids below this bound belong to the transport itself.
pub const LIGHT_ID_MIN: u32 = 1024;

/// The kind of a control frame.
#[derive(Debug, Clone, Copy, PartialEq, Eq, Structural)]
pub enum ControlHeader {
    CreatedNewConnection,
    CloseConnection,
    CloseSocket,
    CloseEndPoint,
    ProbeSocket,
    ProbeSocketAck,
}

/// One frame as read off the wire: a control tuple, or the header of a
/// data frame whose payload follows separately.
#[derive(Debug, Clone, Copy, PartialEq, Eq, Structural)]
pub enum Command {
    Control(ControlHeader, u32),
    Data(u32, u32),
}

/// The 32-bit code of a control header.
pub open spec fn header_code(h: ControlHeader) -> u32 {
    match h {
        ControlHeader::CreatedNewConnection => 0,
        ControlHeader::CloseConnection => 1,
        ControlHeader::CloseSocket => 2,
        ControlHeader::CloseEndPoint => 3,
        ControlHeader::ProbeSocket => 4,
        ControlHeader::ProbeSocketAck => 5,
    }
}

/// The control header of a 32-bit code, where one exists.
pub open spec fn header_of_code(v: u32) -> ControlHeader
    recommends
        v < 6,
{
    if v == 0 {
        ControlHeader::CreatedNewConnection
    } else if v == 1 {
        ControlHeader::CloseConnection
    } else if v == 2 {
        ControlHeader::CloseSocket
    } else if v == 3 {
        ControlHeader::CloseEndPoint
    } else if v == 4 {
        ControlHeader::ProbeSocket
    } else {
        ControlHeader::ProbeSocketAck
    }
}

/// The eight header bytes of a frame. For a data frame these are
/// followed on the wire by the payload, which is not part of the
/// header.
pub open spec fn frame_bytes(c: Command) -> Seq<u8> {
    match c {
        Command::Control(h, id) => u32_be_bytes(header_code(h)) + u32_be_bytes(id),
        Command::Data(id, len) => u32_be_bytes(id) + u32_be_bytes(len),
    }
}

/// A frame header is well formed when a data frame's first word cannot
/// be mistaken for a control kind.
pub open spec fn frame_wf(c: Command) -> bool {
    match c {
        Command::Control(h, id) => true,
        Command::Data(id, len) => id >= LIGHT_ID_MIN,
    }
}

/// The frame spelled by two 32-bit words, where the words spell one:
/// a first word under the reserved bound is a control kind, any other
/// first word heads a data frame.
pub open spec fn frame_of_words(w1: u32, w2: u32) -> Option<Command> {
    if w1 < LIGHT_ID_MIN {
        if w1 < 6 {
            Some(Command::Control(header_of_code(w1), w2))
        } else {
            None
        }
    } else {
        Some(Command::Data(w1, w2))
    }
}

/// Decoding two words and re-serializing the frame yields the words
/// back: framing loses nothing.
pub proof fn lemma_frame_round_trip(w1: u32, w2: u32)
    requires
        frame_of_words(w1, w2) is Some,
    ensures
        frame_bytes(frame_of_words(w1, w2).unwrap()) == u32_be_bytes(w1) + u32_be_bytes(w2),
        frame_wf(frame_of_words(w1, w2).unwrap()),
{
}

/// And in the other direction: a well-formed frame decodes to itself.
pub proof fn lemma_frame_of_frame_bytes(c: Command)
    requires
        frame_wf(c),
    ensures
        ({
            let b = frame_bytes(c);
            frame_of_words(u32_of_be(b.take(4)), u32_of_be(b.skip(4))) == Some(c)
        }),
{
    let b = frame_bytes(c);
    match c {
        Command::Control(h, id) => {
            assert(b.take(4) =~= u32_be_bytes(header_code(h)));
            assert(b.skip(4) =~= u32_be_bytes(id));
            crate::endian::lemma_u32_be_round_trip(header_code(h));
            crate::endian::lemma_u32_be_round_trip(id);
        },
        Command::Data(id, len) => {
            assert(b.take(4) =~= u32_be_bytes(id));
            assert(b.skip(4) =~= u32_be_bytes(len));
            crate::endian::lemma_u32_be_round_trip(id);
            crate::endian::lemma_u32_be_round_trip(len);
        },
    }
}


/// A frame stream: each frame's eight header bytes, and for a data
/// frame its payload right after them.
pub open spec fn frames_bytes(fs: Seq<(Command, Seq<u8>)>) -> Seq<u8>
    decreases fs.len(),
{
    if fs.len() == 0 {
        Seq::<u8>::empty()
    } else {
        frame_entry_bytes(fs[0]) + frames_bytes(fs.drop_first())
    }
}

/// One frame with its payload, as it stands on the wire.
pub open spec fn frame_entry_bytes(f: (Command, Seq<u8>)) -> Seq<u8> {
    frame_bytes(f.0) + f.1
}

/// What a whole byte sequence decodes to when read as one frame after
/// another, the way the receive loop does: nothing, where the bytes
/// run short or a control kind is unknown.
pub open spec fn parse_frames(s: Seq<u8>) -> Option<Seq<(Command, Seq<u8>)>>
    decreases s.len(),
{
    if s.len() == 0 {
        Option::Some(Seq::<(Command, Seq<u8>)>::empty())
    } else if s.len() < 8 {
        Option::None
    } else {
        let w1 = crate::endian::u32_of_be(s.take(4));
        let w2 = crate::endian::u32_of_be(s.subrange(4, 8));
        match frame_of_words(w1, w2) {
            Option::None => Option::None,
            Option::Some(cmd) => match cmd {
                Command::Control(h, id) => match parse_frames(s.skip(8)) {
                    Option::None => Option::None,
                    Option::Some(r) => Option::Some(
                        seq![(cmd, Seq::<u8>::empty())] + r,
                    ),
                },
                Command::Data(id, len) => if s.len() < 8 + len {
                    Option::None
                } else {
                    match parse_frames(s.skip(8 + len as int)) {
                        Option::None => Option::None,
                        Option::Some(r) => Option::Some(
                            seq![(cmd, s.subrange(8, 8 + len as int))] + r,
                        ),
                    }
                },
            },
        }
    }
}

/// Any byte sequence accepted as a frame stream re-serializes, frame
/// by frame, to exactly itself: the framing loses nothing.
pub proof fn lemma_frame_stream_round_trip(s: Seq<u8>)
    requires
        parse_frames(s) is Some,
    ensures
        frames_bytes(parse_frames(s).unwrap()) == s,
    decreases s.len(),
{
    if s.len() == 0 {
        assert(frames_bytes(parse_frames(s).unwrap()) =~= s);
    } else {
        let w1 = crate::endian::u32_of_be(s.take(4));
        let w2 = crate::endian::u32_of_be(s.subrange(4, 8));
        let cmd = frame_of_words(w1, w2).unwrap();
        lemma_frame_round_trip(w1, w2);
        crate::endian::lemma_u32_be_bytes_of(s.take(4));
        crate::endian::lemma_u32_be_bytes_of(s.subrange(4, 8));
        assert(frame_bytes(cmd) =~= s.take(8));
        match cmd {
            Command::Control(h, id) => {
                let r = parse_frames(s.skip(8)).unwrap();
                lemma_frame_stream_round_trip(s.skip(8));
                let fs = parse_frames(s).unwrap();
                assert(fs[0] == (cmd, Seq::<u8>::empty()));
                assert(fs.drop_first() =~= r);
                assert(frames_bytes(fs) =~= s);
            },
            Command::Data(id, len) => {
                let r = parse_frames(s.skip(8 + len as int)).unwrap();
                lemma_frame_stream_round_trip(s.skip(8 + len as int));
                let fs = parse_frames(s).unwrap();
                assert(fs[0] == (cmd, s.subrange(8, 8 + len as int)));
                assert(fs.drop_first() =~= r);
                assert(frames_bytes(fs) =~= s);
            },
        }
    }
}

/// Turn a control header into its 32-bit wire code.
pub fn control_header_to_u32(h: ControlHeader) -> (r: u32)
    ensures
        r == header_code(h),
        r < 6,
{
    match h {
        ControlHeader::CreatedNewConnection => 0,
        ControlHeader::CloseConnection => 1,
        ControlHeader::CloseSocket => 2,
        ControlHeader::CloseEndPoint => 3,
        ControlHeader::ProbeSocket => 4,
        ControlHeader::ProbeSocketAck => 5,
    }
}

/// Turn a 32-bit wire code back into a control header; exactly the
/// codes below six name one.
pub fn control_header_from_u32(v: u32) -> (r: Result<ControlHeader, ()>)
    ensures
        v < 6 <==> r is Ok,
        r matches Ok(h) ==> h == header_of_code(v) && header_code(h) == v,
{
    match v {
        0 => Ok(ControlHeader::CreatedNewConnection),
        1 => Ok(ControlHeader::CloseConnection),
        2 => Ok(ControlHeader::CloseSocket),
        3 => Ok(ControlHeader::CloseEndPoint),
        4 => Ok(ControlHeader::ProbeSocket),
        5 => Ok(ControlHeader::ProbeSocketAck),
        _ => Err(()),
    }
}

/// The sixteen bytes of the initial transport handshake: protocol
/// version zero, an empty handshake payload, endpoint id zero, and a
/// zero-length endpoint address.
pub open spec fn handshake_bytes() -> Seq<u8> {
    u32_be_bytes(0) + u32_be_bytes(0) + u32_be_bytes(0) + u32_be_bytes(0)
}

/// Append the initial transport handshake to `buf`.
pub fn handshake(buf: &mut Vec<u8>)
    ensures
        final(buf)@ == old(buf)@ + handshake_bytes(),
{
    let handshake_length: u32 = 0;
    push_u32_be(buf, PROTOCOL_VERSION);
    push_u32_be(buf, handshake_length);
    push_u32_be(buf, 0);
    push_u32_be(buf, 0);
    assert(buf@ =~= old(buf)@ + handshake_bytes());
}

/// Append a data frame header for `len` payload bytes on stream `cid`.
pub fn append_lightweight_data(cid: u32, len: u32, buf: &mut Vec<u8>)
    requires
        cid >= LIGHT_ID_MIN,
    ensures
        final(buf)@ == old(buf)@ + frame_bytes(Command::Data(cid, len)),
{
    push_u32_be(buf, cid);
    push_u32_be(buf, len);
    assert(buf@ =~= old(buf)@ + frame_bytes(Command::Data(cid, len)));
}

/// Append the control frame that opens light connection `cid`.
pub fn create_conn(cid: u32, buf: &mut Vec<u8>)
    ensures
        final(buf)@ == old(buf)@ + frame_bytes(Command::Control(ControlHeader::CreatedNewConnection, cid)),
{
    push_u32_be(buf, control_header_to_u32(ControlHeader::CreatedNewConnection));
    push_u32_be(buf, cid);
    assert(buf@ =~= old(buf)@ + frame_bytes(
        Command::Control(ControlHeader::CreatedNewConnection, cid),
    ));
}

/// Append the control frame that closes light connection `cid`.
pub fn delete_conn(cid: u32, buf: &mut Vec<u8>)
    ensures
        final(buf)@ == old(buf)@ + frame_bytes(Command::Control(ControlHeader::CloseConnection, cid)),
{
    push_u32_be(buf, control_header_to_u32(ControlHeader::CloseConnection));
    push_u32_be(buf, cid);
    assert(buf@ =~= old(buf)@ + frame_bytes(
        Command::Control(ControlHeader::CloseConnection, cid),
    ));
}

/// Append `dat` preceded by its 32-bit big-endian length.
pub fn append_with_length(dat: &[u8], buf: &mut Vec<u8>)
    requires
        dat@.len() <= u32::MAX,
    ensures
        final(buf)@ == old(buf)@ + u32_be_bytes(dat@.len() as u32) + dat@,
{
    push_u32_be(buf, dat.len() as u32);
    push_all(buf, dat);
}

/// Whether a node id opens a stream (syn) or answers one (ack).
#[derive(Debug, Clone, Copy, PartialEq, Eq, Structural)]
pub enum NodeControlHeader {
    Syn,
    Ack,
}

/// The nine bytes of a syn node id: the byte `'S'` followed by the
/// nonce in big-endian.
pub open spec fn syn_node_id_bytes(nonce: u64) -> Seq<u8> {
    seq![0x53u8] + u64_be_bytes(nonce)
}

/// The 9-byte tag a stream sends first: `'S'` plus a nonce for a
/// request direction, `'A'` plus a nonce for a response direction.
#[derive(Debug, Clone, Copy)]
pub struct NodeId {
    bytes: [u8; 9],
}

impl NodeId {
    /// The bytes of this node id.
    pub closed spec fn view(&self) -> Seq<u8> {
        self.bytes@
    }

    /// Build the syn node id carrying `nonce`.
    pub fn make_syn_nodeid(nonce: u64) -> (r: NodeId)
        ensures
            r@ == syn_node_id_bytes(nonce),
    {
        let v: [u8; 9] = [
            0x53,
            (nonce >> 56) as u8,
            (nonce >> 48) as u8,
            (nonce >> 40) as u8,
            (nonce >> 32) as u8,
            (nonce >> 24) as u8,
            (nonce >> 16) as u8,
            (nonce >> 8) as u8,
            nonce as u8,
        ];
        proof {
            assert(v@ =~= syn_node_id_bytes(nonce));
        }
        NodeId { bytes: v }
    }

    /// Rebuild a node id from nine raw bytes.
    pub fn from_slice(bytes: &[u8]) -> (r: Option<NodeId>)
        ensures
            bytes@.len() == 9 <==> r is Some,
            r matches Some(n) ==> n@ == bytes@,
    {
        if bytes.len() != 9 {
            return None;
        }
        let v: [u8; 9] = [
            bytes[0], bytes[1], bytes[2], bytes[3], bytes[4], bytes[5], bytes[6], bytes[7], bytes[8],
        ];
        proof {
            assert(v@ =~= bytes@);
        }
        Some(NodeId { bytes: v })
    }

    /// The raw bytes, for sending on a stream.
    pub fn as_bytes(&self) -> (r: &[u8])
        ensures
            r@ == self@,
    {
        self.bytes.as_slice()
    }

    /// Whether this id is the syn or the ack form, judged by its first
    /// byte as the peer does.
    pub fn get_control_header(&self) -> (r: NodeControlHeader)
        ensures
            r == (if self@[0] == 0x53u8 {
                NodeControlHeader::Syn
            } else {
                NodeControlHeader::Ack
            }),
    {
        if self.bytes[0] == 0x53 {
            NodeControlHeader::Syn
        } else {
            NodeControlHeader::Ack
        }
    }
}

} // verus!
