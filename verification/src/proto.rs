//! The multiplex session: the set of open light connections on one
//! transport, the translation of incoming frames into per-stream
//! events, and the create/close/send/poll surface the command layer
//! drives.

pub mod command;

use vstd::prelude::*;
use crate::error::Error;
use crate::ntt;
use crate::ntt::Stream;
use crate::ntt::protocol::{Command, ControlHeader, NodeId, frame_bytes, frame_of_words, syn_node_id_bytes, LIGHT_ID_MIN};
use crate::endian::u32_of_be;
use crate::packet::{Handshake, send_handshake, send_hardcoded_blob_after_handshake, serialize_handshake, decode_handshake, handshake_at};

verus! {

/// A light connection id; values under the reserved bound belong to
/// the transport and are never seen here.
#[derive(Debug, Clone, Copy, PartialEq, Eq, Structural, PartialOrd, Ord)]
pub struct LightId(u32);

impl LightId {
    /// The raw 32-bit id.
    pub closed spec fn view(&self) -> u32 {
        self.0
    }

    /// A light id is well formed outside the reserved range.
    pub open spec fn wf(&self) -> bool {
        self@ >= LIGHT_ID_MIN
    }

    /// Wrap a raw id, which must lie outside the reserved range.
    pub fn new(id: u32) -> (r: LightId)
        requires
            id >= LIGHT_ID_MIN,
        ensures
            r@ == id,
            r.wf(),
    {
        LightId(id)
    }

    /// The id one past this one.
    pub fn next(self) -> (r: LightId)
        requires
            self@ < u32::MAX,
        ensures
            r@ == self@ + 1,
    {
        LightId(self.0 + 1)
    }

    /// The raw id, for the frame layer.
    pub fn to_u32(self) -> (r: u32)
        ensures
            r == self@,
    {
        self.0
    }
}

/// One light connection's book-keeping: its id, the node id tag seen
/// or chosen for it, and the bytes received and not yet read.
#[derive(Debug)]
pub struct LightConnection {
    id: LightId,
    node_id: Option<NodeId>,
    received: Option<Vec<u8>>,
}

impl LightConnection {
    /// The raw id of this connection.
    pub closed spec fn id_spec(&self) -> u32 {
        self.id@
    }

    /// The node id bytes, where one is known.
    pub closed spec fn node_id_spec(&self) -> Option<Seq<u8>> {
        match self.node_id {
            Option::Some(n) => Option::Some(n@),
            Option::None => Option::None,
        }
    }

    /// The unread received bytes, where any are buffered.
    pub closed spec fn received_spec(&self) -> Option<Seq<u8>> {
        match self.received {
            Option::Some(ref v) => Option::Some(v@),
            Option::None => Option::None,
        }
    }

    /// A client-opened connection, carrying a fresh syn node id.
    pub fn new_with_nodeid(id: LightId, nonce: u64) -> (r: LightConnection)
        ensures
            r.id_spec() == id@,
            r.node_id_spec() == Option::Some(syn_node_id_bytes(nonce)),
            r.received_spec() is None,
    {
        LightConnection { id, node_id: Some(NodeId::make_syn_nodeid(nonce)), received: None }
    }

    /// A server-opened connection, whose node id will arrive with the
    /// first data frame.
    pub fn new_expecting_nodeid(id: LightId) -> (r: LightConnection)
        ensures
            r.id_spec() == id@,
            r.node_id_spec() is None,
            r.received_spec() is None,
    {
        LightConnection { id, node_id: None, received: None }
    }

    /// The id this connection was opened under.
    pub fn get_id(&self) -> (r: LightId)
        ensures
            r@ == self.id_spec(),
    {
        self.id
    }

    /// Whether unread bytes are buffered.
    pub fn pending_received(&self) -> (r: bool)
        ensures
            r <==> self.received_spec() is Some,
    {
        self.received.is_some()
    }

    /// Take the buffered bytes out, leaving none behind.
    pub fn get_received(&mut self) -> (r: Option<Vec<u8>>)
        ensures
            (r matches Some(v) ==> old(self).received_spec() == Option::Some(v@)),
            r is None <==> old(self).received_spec() is None,
            final(self).received_spec() is None,
            final(self).id_spec() == old(self).id_spec(),
            final(self).node_id_spec() == old(self).node_id_spec(),
    {
        let mut v: Option<Vec<u8>> = None;
        core::mem::swap(&mut self.received, &mut v);
        v
    }

    /// Append arriving bytes to the buffer, opening it if need be.
    fn receive(&mut self, bytes: &Vec<u8>)
        ensures
            final(self).received_spec() == Option::Some(
                match old(self).received_spec() {
                    Option::Some(b) => b + bytes@,
                    Option::None => bytes@,
                },
            ),
            final(self).id_spec() == old(self).id_spec(),
            final(self).node_id_spec() == old(self).node_id_spec(),
    {
        let mut cur: Option<Vec<u8>> = None;
        core::mem::swap(&mut self.received, &mut cur);
        let mut buf = match cur {
            Some(v) => v,
            None => Vec::new(),
        };
        crate::endian::push_all(&mut buf, bytes.as_slice());
        self.received = Some(buf);
    }
}

/// The entries of a connection table carry distinct keys, and each
/// record knows its own key.
pub open spec fn conns_wf(s: Seq<(u32, LightConnection)>) -> bool {
    &&& forall|i: int, j: int| 0 <= i < j < s.len() ==> s[i].0 != s[j].0
    &&& forall|i: int| 0 <= i < s.len() ==> (#[trigger] s[i]).1.id_spec() == s[i].0 && s[i].0
        >= LIGHT_ID_MIN
}

/// Some entry of the table carries key `k`.
pub open spec fn conns_has(s: Seq<(u32, LightConnection)>, k: u32) -> bool {
    exists|i: int| 0 <= i < s.len() && (#[trigger] s[i]).0 == k
}

/// No entry of the table holds unread bytes.
pub open spec fn conns_all_drained(s: Seq<(u32, LightConnection)>) -> bool {
    forall|i: int| 0 <= i < s.len() ==> (#[trigger] s[i]).1.received_spec() is None
}

/// No entry of the table under key `k` holds unread bytes.
pub open spec fn no_pending_for(s: Seq<(u32, LightConnection)>, k: u32) -> bool {
    forall|i: int|
        0 <= i < s.len() && (#[trigger] s[i]).0 == k ==> s[i].1.received_spec() is None
}

/// The entry at `i` holds unread bytes and every entry before it
/// holds none.
pub open spec fn first_pending(s: Seq<(u32, LightConnection)>, i: int) -> bool {
    &&& 0 <= i < s.len()
    &&& s[i].1.received_spec() is Some
    &&& forall|j: int| 0 <= j < i ==> (#[trigger] s[j]).1.received_spec() is None
}

/// Find the index of key `k`.
fn conns_find(v: &Vec<(u32, LightConnection)>, k: u32) -> (r: Option<usize>)
    ensures
        r matches Some(i) ==> i < v@.len() && v@[i as int].0 == k,
        r is None ==> !conns_has(v@, k),
{
    let mut i: usize = 0;
    while i < v.len()
        invariant
            i <= v@.len(),
            forall|j: int| 0 <= j < i ==> (#[trigger] v@[j]).0 != k,
        decreases v@.len() - i,
    {
        if v[i].0 == k {
            return Some(i);
        }
        i = i + 1;
    }
    None
}

/// A session over one transport connection: the tables of client- and
/// server-opened streams, the drained leftovers of closed server
/// streams, and the id allocator.
pub struct Connection<W: Stream> {
    ntt: ntt::Connection<W>,
    server_cons: Vec<(u32, LightConnection)>,
    client_cons: Vec<(u32, LightConnection)>,
    server_dones: Vec<(u32, LightConnection)>,
    next_light_id: LightId,
}

impl<W: Stream> Connection<W> {
    /// Every byte this session has written to its stream.
    pub closed spec fn sent(&self) -> Seq<u8> {
        self.ntt.sent()
    }

    /// The bytes still to be read from the stream.
    pub closed spec fn pending(&self) -> Seq<u8> {
        self.ntt.pending()
    }

    /// The nonce the next new client stream will take.
    pub closed spec fn nonce(&self) -> u64 {
        self.ntt.nonce()
    }

    /// The table of server-opened streams.
    pub closed spec fn server_seq(&self) -> Seq<(u32, LightConnection)> {
        self.server_cons@
    }

    /// The table of client-opened streams.
    pub closed spec fn client_seq(&self) -> Seq<(u32, LightConnection)> {
        self.client_cons@
    }

    /// The closed server streams still holding unread bytes.
    pub closed spec fn dones_seq(&self) -> Seq<(u32, LightConnection)> {
        self.server_dones@
    }

    /// The next client id the allocator will hand out.
    pub closed spec fn next_id(&self) -> u32 {
        self.next_light_id@
    }

    /// The session invariant: all three tables are well formed and
    /// the allocator stays outside the reserved range.
    pub open spec fn wf(&self) -> bool {
        conns_wf(self.server_seq()) && conns_wf(self.client_seq()) && conns_wf(self.dones_seq())
            && self.next_id() >= LIGHT_ID_MIN
    }

    /// Open a session on a connection that has passed the transport
    /// handshake: allocate the reserved initial stream, send the
    /// handshake record and a syn node id on it, drive three
    /// broadcasts to consume the peer's replies, and close the
    /// stream.
    pub fn new(ntt: ntt::Connection<W>, hs: &Handshake) -> (r: Result<Connection<W>, Error>)
        requires
            serialize_handshake(*hs).len() <= u32::MAX,
        ensures
            r matches Ok(c) ==> c.wf() && c.client_seq() == Seq::<(u32, LightConnection)>::empty()
                && c.next_id() == 0x401 && c.sent() == ntt_sent_of(ntt) + frame_bytes(
                Command::Control(ControlHeader::CreatedNewConnection, 0x400)) + frame_bytes(
                Command::Data(0x400, serialize_handshake(*hs).len() as u32)) + serialize_handshake(
                *hs) + frame_bytes(Command::Data(0x400, 9)) + syn_node_id_bytes(ntt_nonce_of(ntt))
                + frame_bytes(Command::Control(ControlHeader::CloseConnection, 0x400)) && (
            exists|s0: Connection<W>| #[trigger] opened_from(s0, ntt) && opening_reads(s0, c)),
            r matches Err(e) ==> (e == Error::IoError || e matches Error::ProtocolError(_) || e
                == Error::DecodeError),
            r == Err::<Connection<W>, Error>(Error::DecodeError) ==> (exists|
                s0: Connection<W>,
                bs: Seq<u8>,
            |
                #[trigger] opened_from(s0, ntt) && #[trigger] opening_reply(s0, bs) && (forall|
                    h: Handshake,
                |
                    !handshake_at(bs, 0, h))),
    {
        let mut conn = Connection {
            ntt,
            server_cons: Vec::new(),
            client_cons: Vec::new(),
            server_dones: Vec::new(),
            next_light_id: LightId::new(0x401),
        };
        let lcid = LightId::new(LIGHT_ID_MIN);
        let nonce = conn.ntt.get_nonce();
        let lc = LightConnection::new_with_nodeid(lcid, nonce);
        if conn.ntt.create_light(lcid.to_u32()).is_err() {
            return Err(Error::IoError);
        }
        conn.client_cons.push((lcid.to_u32(), lc));
        proof {
            assert(conn.wf());
        }
        let hs_bytes = send_handshake(hs);
        if conn.send_bytes_raw(lcid, &hs_bytes).is_err() {
            return Err(Error::IoError);
        }
        let nid = NodeId::make_syn_nodeid(nonce);
        if conn.send_bytes(lcid, nid.as_bytes()).is_err() {
            return Err(Error::IoError);
        }
        let ghost s_start = conn;
        proof {
            assert(opened_from(s_start, ntt)) by {
                assert(s_start.server_seq() =~= Seq::<(u32, LightConnection)>::empty());
                assert(s_start.dones_seq() =~= Seq::<(u32, LightConnection)>::empty());
            }
        }
        if let Err(e) = conn.broadcast() {
            return Err(e);
        }
        let ghost s_ack = conn;
        if let Err(e) = conn.broadcast() {
            return Err(e);
        }
        let ghost s_reply = conn;
        match conn.poll() {
            Some((id, bs)) => {
                if id.to_u32() != lcid.to_u32() {
                    return Err(Error::ProtocolError(id.to_u32()));
                }
                proof {
                    assert(polled_one(s_reply, conn, LIGHT_ID_MIN, bs@));
                    assert(opening_drain(s_reply, conn, LIGHT_ID_MIN));
                }
                match decode_handshake(&bs, 0) {
                    Ok(_) => {},
                    Err(_) => {
                        proof {
                            assert(opening_reply(s_start, bs@)) by {
                                assert(broadcast_ok(s_start, s_ack) && broadcast_ok(s_ack, s_reply)
                                    && polled_one(s_reply, conn, LIGHT_ID_MIN, bs@));
                            }
                            assert(forall|h: Handshake| !handshake_at(bs@, 0, h));
                        }
                        return Err(Error::DecodeError);
                    },
                }
            },
            None => {
                proof {
                    assert(opening_drain(s_reply, conn, LIGHT_ID_MIN));
                }
            },
        }
        let ghost s_d1 = conn;
        if let Err(e) = conn.broadcast() {
            return Err(e);
        }
        let ghost s_b3 = conn;
        match conn.poll() {
            Some((id, bs2)) => {
                if id.to_u32() != lcid.to_u32() {
                    return Err(Error::ProtocolError(id.to_u32()));
                }
                proof {
                    assert(polled_one(s_b3, conn, LIGHT_ID_MIN, bs2@));
                    assert(opening_drain(s_b3, conn, LIGHT_ID_MIN));
                }
            },
            None => {
                proof {
                    assert(opening_drain(s_b3, conn, LIGHT_ID_MIN));
                }
            },
        }
        let ghost s_d2 = conn;
        let ghost client_before_close = conn.client_seq();
        proof {
            assert(client_before_close.len() == 1 && client_before_close[0].0 == 0x400);
        }
        if conn.close_light_connection(lcid).is_err() {
            return Err(Error::IoError);
        }
        proof {
            assert(conn.client_seq() =~= Seq::<(u32, LightConnection)>::empty()) by {
                assert(conns_has(client_before_close, 0x400));
                let i = choose|i: int|
                    0 <= i < client_before_close.len() && (#[trigger] client_before_close[i]).0
                        == 0x400 && conn.client_seq() == client_before_close.remove(i);
                assert(conn.client_seq().len() == 0);
            }
            assert(conn.sent() =~= ntt_sent_of(ntt) + frame_bytes(
                Command::Control(ControlHeader::CreatedNewConnection, 0x400)) + frame_bytes(
                Command::Data(0x400, serialize_handshake(*hs).len() as u32)) + serialize_handshake(
                *hs) + frame_bytes(Command::Data(0x400, 9)) + syn_node_id_bytes(ntt_nonce_of(ntt))
                + frame_bytes(Command::Control(ControlHeader::CloseConnection, 0x400)));
            assert(opening_reads(s_start, conn)) by {
                assert(broadcast_ok(s_start, s_ack) && broadcast_ok(s_ack, s_reply)
                    && opening_drain(s_reply, s_d1, LIGHT_ID_MIN) && broadcast_ok(s_d1, s_b3)
                    && opening_drain(s_b3, s_d2, LIGHT_ID_MIN) && conn.pending() == s_d2.pending()
                    && conn.server_seq() == s_d2.server_seq() && conn.dones_seq()
                    == s_d2.dones_seq());
            }
        }
        Ok(conn)
    }

    /// Borrow the underlying stream, for callers that own it and
    /// want to look at what was exchanged.
    pub fn stream_ref(&self) -> (r: &W)
        ensures
            r.sent() == self.sent(),
            r.pending() == self.pending(),
    {
        self.ntt.stream_ref()
    }

    /// Open a new client stream under `id`: record it, announce it to
    /// the peer, and send its syn node id as the first data frame.
    pub fn new_light_connection(&mut self, id: LightId) -> (r: Result<(), Error>)
        requires
            id.wf(),
            old(self).wf(),
        ensures
            final(self).wf(),
            r is Ok ==> final(self).sent() == old(self).sent() + frame_bytes(
                Command::Control(ControlHeader::CreatedNewConnection, id@)) + frame_bytes(
                Command::Data(id@, 9)) + syn_node_id_bytes(old(self).nonce())
                && final(self).pending() == old(self).pending()
                && final(self).nonce() == old(self).nonce().wrapping_add(1)
                && upserted(old(self).client_seq(), final(self).client_seq(), id@)
                && entry_is_fresh_syn(final(self).client_seq(), id@, old(self).nonce())
                && final(self).server_seq() == old(self).server_seq()
                && final(self).dones_seq() == old(self).dones_seq()
                && final(self).next_id() == old(self).next_id(),
            r is Err ==> r == Err::<(), Error>(Error::IoError),
    {
        if self.ntt.create_light(id.to_u32()).is_err() {
            return Err(Error::IoError);
        }
        let nonce = self.ntt.get_nonce();
        let lc = LightConnection::new_with_nodeid(id, nonce);
        let ghost before = self.client_seq();
        match conns_find(&self.client_cons, id.to_u32()) {
            Some(i) => {
                let _old = self.client_cons.remove(i);
                proof {
                    lemma_conns_remove(before, i as int);
                    assert forall|j: int|
                        0 <= j < self.client_seq().len() implies (#[trigger] self.client_seq()[j]).0
                        != id@ by {
                        if j < i {
                            assert(self.client_seq()[j] == before[j]);
                        } else {
                            assert(self.client_seq()[j] == before[j + 1]);
                        }
                    }
                    assert(before[i as int].0 == id@);
                }
            },
            None => {},
        }
        let ghost pre_push = self.client_seq();
        proof {
            lemma_conns_push(self.client_seq(), id@, lc);
        }
        self.client_cons.push((id.to_u32(), lc));
        proof {
            assert(self.client_seq().last() == (id@, lc));
            assert(entry_is_fresh_syn(self.client_seq(), id@, old(self).nonce()));
            assert(self.client_seq().drop_last() =~= pre_push);
            assert(upserted(old(self).client_seq(), self.client_seq(), id@));
        }
        let nid = NodeId::make_syn_nodeid(nonce);
        match self.ntt.light_send_data(id.to_u32(), nid.as_bytes()) {
            Ok(_) => Ok(()),
            Err(_) => Err(Error::IoError),
        }
    }

    /// Close a client stream: forget its record and tell the peer.
    pub fn close_light_connection(&mut self, id: LightId) -> (r: Result<(), Error>)
        requires
            id.wf(),
            old(self).wf(),
        ensures
            final(self).wf(),
            r is Ok ==> final(self).sent() == old(self).sent() + frame_bytes(
                Command::Control(ControlHeader::CloseConnection, id@))
                && final(self).pending() == old(self).pending()
                && final(self).nonce() == old(self).nonce()
                && !conns_has(final(self).client_seq(), id@)
                && removed(old(self).client_seq(), final(self).client_seq(), id@)
                && final(self).server_seq() == old(self).server_seq()
                && final(self).dones_seq() == old(self).dones_seq()
                && final(self).next_id() == old(self).next_id(),
            r is Err ==> r == Err::<(), Error>(Error::IoError),
    {
        match conns_find(&self.client_cons, id.to_u32()) {
            Some(i) => {
                let _old = self.client_cons.remove(i);
                proof {
                    lemma_conns_remove(old(self).client_seq(), i as int);
                    assert forall|j: int|
                        0 <= j < self.client_seq().len() implies (#[trigger] self.client_seq()[j]).0
                        != id@ by {
                        if j < i {
                            assert(self.client_seq()[j] == old(self).client_seq()[j]);
                        } else {
                            assert(self.client_seq()[j] == old(self).client_seq()[j + 1]);
                        }
                    }
                    assert(old(self).client_seq()[i as int].0 == id@);
                    assert(removed(old(self).client_seq(), self.client_seq(), id@));
                }
            },
            None => {},
        }
        match self.ntt.close_light(id.to_u32()) {
            Ok(_) => Ok(()),
            Err(_) => Err(Error::IoError),
        }
    }

    /// Send one data frame carrying `bytes` on stream `id`.
    pub fn send_bytes(&mut self, id: LightId, bytes: &[u8]) -> (r: Result<(), Error>)
        requires
            id.wf(),
            bytes@.len() <= u32::MAX,
        ensures
            state_unchanged_but_tx(*old(self), *final(self)),
            r is Ok ==> final(self).sent() == old(self).sent() + frame_bytes(
                Command::Data(id@, bytes@.len() as u32)) + bytes@
                && final(self).pending() == old(self).pending(),
            r is Err ==> r == Err::<(), Error>(Error::IoError),
    {
        match self.ntt.light_send_data(id.to_u32(), bytes) {
            Ok(_) => Ok(()),
            Err(_) => Err(Error::IoError),
        }
    }

    /// As `send_bytes`, over a vector.
    fn send_bytes_raw(&mut self, id: LightId, bytes: &Vec<u8>) -> (r: Result<(), Error>)
        requires
            id.wf(),
            bytes@.len() <= u32::MAX,
        ensures
            state_unchanged_but_tx(*old(self), *final(self)),
            r is Ok ==> final(self).sent() == old(self).sent() + frame_bytes(
                Command::Data(id@, bytes@.len() as u32)) + bytes@
                && final(self).pending() == old(self).pending(),
            r is Err ==> r == Err::<(), Error>(Error::IoError),
    {
        self.send_bytes(id, bytes.as_slice())
    }

    /// Send a data frame on a stream this client opened, and hand
    /// back the node id under which the peer will answer. Calling
    /// this for an unknown stream, or one with no node id yet, is a
    /// caller error.
    pub fn send_bytes_ack(&mut self, id: LightId, bytes: &[u8]) -> (r: Result<NodeId, Error>)
        requires
            id.wf(),
            bytes@.len() <= u32::MAX,
            conns_has(old(self).client_seq(), id@),
            forall|i: int|
                0 <= i < old(self).client_seq().len() && (#[trigger] old(self).client_seq()[i]).0
                    == id@ ==> old(self).client_seq()[i].1.node_id_spec() is Some,
        ensures
            state_unchanged_but_tx(*old(self), *final(self)),
            r matches Ok(n) ==> final(self).sent() == old(self).sent() + frame_bytes(
                Command::Data(id@, bytes@.len() as u32)) + bytes@
                && final(self).pending() == old(self).pending()
                && (exists|i: int|
                0 <= i < old(self).client_seq().len() && (#[trigger] old(self).client_seq()[i]).0
                    == id@ && old(self).client_seq()[i].1.node_id_spec() == Option::Some(n@)),
            r is Err ==> r == Err::<NodeId, Error>(Error::IoError),
    {
        let i = match conns_find(&self.client_cons, id.to_u32()) {
            Some(i) => i,
            None => {
                proof {
                    assert(false);
                }
                return Err(Error::IoError);
            },
        };
        let nid = match &self.client_cons[i].1.node_id {
            Some(n) => *n,
            None => {
                proof {
                    assert(old(self).client_seq()[i as int].1.node_id_spec() is Some);
                    assert(false);
                }
                return Err(Error::IoError);
            },
        };
        match self.ntt.light_send_data(id.to_u32(), bytes) {
            Ok(_) => Ok(nid),
            Err(_) => Err(Error::IoError),
        }
    }

    /// Read one frame off the wire and apply it to the tables: a
    /// create opens a server stream (a second create for a live id is
    /// a protocol violation), a close removes one (keeping it among
    /// the drained if bytes remain unread, and doing nothing for an
    /// unknown id), any other control frame is ignored, and a data
    /// frame's payload is buffered on its stream (or discarded, for
    /// an unknown id, with framing kept intact).
    pub fn broadcast(&mut self) -> (r: Result<(), Error>)
        requires
            old(self).wf(),
        ensures
            final(self).wf(),
            r is Ok ==> broadcast_ok(*old(self), *final(self)),
            r is Err ==> (r == Err::<(), Error>(Error::IoError) || r matches Err(
                Error::ProtocolError(_))),
            r matches Err(Error::ProtocolError(w)) ==> old(self).pending().len() >= 4 && ({
                let w1 = u32_of_be(old(self).pending().take(4));
                ||| (6 <= w1 < LIGHT_ID_MIN && w == w1)
                ||| (old(self).pending().len() >= 8 && frame_of_words(
                    w1,
                    u32_of_be(old(self).pending().subrange(4, 8)),
                ) == Some(Command::Control(ControlHeader::CreatedNewConnection, w)) && (w
                    < LIGHT_ID_MIN || conns_has(old(self).server_seq(), w)))
            }),
    {
        let cmd = match self.ntt.recv() {
            Ok(c) => c,
            Err(Error::IoError) => {
                return Err(Error::IoError);
            },
            Err(Error::ProtocolError(w)) => {
                return Err(Error::ProtocolError(w));
            },
            Err(_) => {
                return Err(Error::IoError);
            },
        };
        match cmd {
            Command::Control(ControlHeader::CloseConnection, cid) => {
                match conns_find(&self.server_cons, cid) {
                    Some(i) => {
                        let v = self.server_cons.remove(i);
                        proof {
                            lemma_conns_remove(old(self).server_seq(), i as int);
                            assert(old(self).server_seq()[i as int].0 == cid);
                        }
                        if v.1.pending_received() {
                            let ghost dones_before = self.dones_seq();
                            match conns_find(&self.server_dones, cid) {
                                Some(j) => {
                                    let _o = self.server_dones.remove(j);
                                    proof {
                                        lemma_conns_remove(dones_before, j as int);
                                        assert forall|t: int|
                                            0 <= t < self.dones_seq().len() implies (
                                        #[trigger] self.dones_seq()[t]).0 != cid by {
                                            if t < j {
                                                assert(self.dones_seq()[t] == dones_before[t]);
                                            } else {
                                                assert(self.dones_seq()[t] == dones_before[t + 1]);
                                            }
                                        }
                                        assert(dones_before[j as int].0 == cid);
                                    }
                                },
                                None => {},
                            }
                            proof {
                                lemma_conns_push(self.dones_seq(), cid, v.1);
                            }
                            self.server_dones.push(v);
                            proof {
                                assert(dones_upserted(dones_before, self.dones_seq(), cid, v.1));
                            }
                        }
                        proof {
                            assert(close_applied(
                                old(self).server_seq(),
                                old(self).dones_seq(),
                                self.server_seq(),
                                self.dones_seq(),
                                cid,
                            ));
                        }
                    },
                    None => {},
                }
                Ok(())
            },
            Command::Control(ControlHeader::CreatedNewConnection, cid) => {
                if cid < LIGHT_ID_MIN {
                    return Err(Error::ProtocolError(cid));
                }
                if conns_find(&self.server_cons, cid).is_some() {
                    return Err(Error::ProtocolError(cid));
                }
                let con = LightConnection::new_expecting_nodeid(LightId::new(cid));
                proof {
                    lemma_conns_push(self.server_seq(), cid, con);
                }
                self.server_cons.push((cid, con));
                proof {
                    assert(self.server_seq().drop_last() =~= old(self).server_seq());
                }
                Ok(())
            },
            Command::Control(_, _) => Ok(()),
            Command::Data(cid, len) => {
                let bytes = match self.ntt.recv_len(len) {
                    Ok(b) => b,
                    Err(_) => {
                        return Err(Error::IoError);
                    },
                };
                match conns_find(&self.server_cons, cid) {
                    Some(i) => {
                        let mut entry = self.server_cons.remove(i);
                        entry.1.receive(&bytes);
                        self.server_cons.insert(i, entry);
                        proof {
                            assert(self.server_seq() =~= old(self).server_seq().update(
                                i as int,
                                self.server_seq()[i as int],
                            ));
                            lemma_conns_update(
                                old(self).server_seq(),
                                i as int,
                                self.server_seq()[i as int],
                            );
                            assert(old(self).server_seq()[i as int].0 == cid);
                            assert(data_applied(
                                old(self).server_seq(),
                                self.server_seq(),
                                cid,
                                bytes@,
                            ));
                        }
                    },
                    None => {},
                }
                proof {
                    assert(self.pending() =~= old(self).pending().skip(8 + len as int));
                    assert(old(self).pending().subrange(8, 8 + len as int) =~= bytes@);
                }
                Ok(())
            },
        }
    }

    /// Hand out the bytes of the first stream holding any, scanning
    /// the live server streams and then the drained ones, and leave
    /// that stream's buffer empty. `None` means nothing anywhere is
    /// waiting.
    pub fn poll(&mut self) -> (r: Option<(LightId, Vec<u8>)>)
        requires
            old(self).wf(),
        ensures
            final(self).wf(),
            r is None ==> *final(self) == *old(self) && conns_all_drained(old(self).server_seq())
                && conns_all_drained(old(self).dones_seq()),
            r matches Some(p) ==> polled_one(*old(self), *final(self), p.0@, p.1@) && ((exists|i: int|
                #[trigger] first_pending(old(self).server_seq(), i) && old(self).server_seq()[i].0
                    == p.0@) || (conns_all_drained(old(self).server_seq()) && exists|i: int|
                #[trigger] first_pending(old(self).dones_seq(), i) && old(self).dones_seq()[i].0
                    == p.0@)),
    {
        let n = self.server_cons.len();
        let mut i: usize = 0;
        while i < n
            invariant
                old(self).wf(),
                n == self.server_seq().len(),
                i <= n,
                *self == *old(self),
                forall|j: int|
                    0 <= j < i ==> (#[trigger] self.server_seq()[j]).1.received_spec() is None,
            decreases n - i,
        {
            if self.server_cons[i].1.pending_received() {
                let mut entry = self.server_cons.remove(i);
                let bytes = entry.1.get_received().unwrap();
                let id = entry.1.get_id();
                self.server_cons.insert(i, entry);
                proof {
                    assert(self.server_seq() =~= old(self).server_seq().update(
                        i as int,
                        self.server_seq()[i as int],
                    ));
                    lemma_conns_update(
                        old(self).server_seq(),
                        i as int,
                        self.server_seq()[i as int],
                    );
                    assert(old(self).server_seq()[i as int].0 == id@);
                    assert(first_pending(old(self).server_seq(), i as int));
                }
                return Some((id, bytes));
            }
            i = i + 1;
        }
        let m = self.server_dones.len();
        let mut k: usize = 0;
        while k < m
            invariant
                old(self).wf(),
                m == self.dones_seq().len(),
                k <= m,
                *self == *old(self),
                conns_all_drained(self.server_seq()),
                forall|j: int|
                    0 <= j < k ==> (#[trigger] self.dones_seq()[j]).1.received_spec() is None,
            decreases m - k,
        {
            if self.server_dones[k].1.pending_received() {
                let mut entry = self.server_dones.remove(k);
                let bytes = entry.1.get_received().unwrap();
                let id = entry.1.get_id();
                self.server_dones.insert(k, entry);
                proof {
                    assert(self.dones_seq() =~= old(self).dones_seq().update(
                        k as int,
                        self.dones_seq()[k as int],
                    ));
                    lemma_conns_update(
                        old(self).dones_seq(),
                        k as int,
                        self.dones_seq()[k as int],
                    );
                    assert(old(self).dones_seq()[k as int].0 == id@);
                    assert(first_pending(old(self).dones_seq(), k as int));
                }
                return Some((id, bytes));
            }
            k = k + 1;
        }
        None
    }

    /// As `poll`, restricted to the stream `id`: its buffered bytes,
    /// or `None` when it holds none (or is unknown).
    pub fn poll_id(&mut self, id: LightId) -> (r: Option<Vec<u8>>)
        requires
            old(self).wf(),
        ensures
            final(self).wf(),
            r is None ==> *final(self) == *old(self) && no_pending_for(
                old(self).server_seq(),
                id@,
            ) && no_pending_for(old(self).dones_seq(), id@),
            r matches Some(v) ==> polled_one(*old(self), *final(self), id@, v@),
    {
        match conns_find(&self.server_cons, id.to_u32()) {
            Some(i) => {
                if self.server_cons[i].1.pending_received() {
                    let mut entry = self.server_cons.remove(i);
                    let bytes = entry.1.get_received().unwrap();
                    self.server_cons.insert(i, entry);
                    proof {
                        assert(self.server_seq() =~= old(self).server_seq().update(
                            i as int,
                            self.server_seq()[i as int],
                        ));
                        lemma_conns_update(
                            old(self).server_seq(),
                            i as int,
                            self.server_seq()[i as int],
                        );
                        assert(old(self).server_seq()[i as int].0 == id@);
                    }
                    return Some(bytes);
                }
                proof {
                    assert(no_pending_for(old(self).server_seq(), id@)) by {
                        assert forall|t: int|
                            0 <= t < old(self).server_seq().len() && (
                        #[trigger] old(self).server_seq()[t]).0 == id@ implies old(
                            self,
                        ).server_seq()[t].1.received_spec() is None by {
                            if t != i {
                                assert(old(self).server_seq()[t].0 != old(
                                    self,
                                ).server_seq()[i as int].0);
                            }
                        }
                    }
                }
            },
            None => {},
        }
        match conns_find(&self.server_dones, id.to_u32()) {
            Some(k) => {
                if self.server_dones[k].1.pending_received() {
                    let mut entry = self.server_dones.remove(k);
                    let bytes = entry.1.get_received().unwrap();
                    self.server_dones.insert(k, entry);
                    proof {
                        assert(self.dones_seq() =~= old(self).dones_seq().update(
                            k as int,
                            self.dones_seq()[k as int],
                        ));
                        lemma_conns_update(
                            old(self).dones_seq(),
                            k as int,
                            self.dones_seq()[k as int],
                        );
                        assert(old(self).dones_seq()[k as int].0 == id@);
                    }
                    return Some(bytes);
                }
                proof {
                    assert(no_pending_for(old(self).dones_seq(), id@)) by {
                        assert forall|t: int|
                            0 <= t < old(self).dones_seq().len() && (
                        #[trigger] old(self).dones_seq()[t]).0 == id@ implies old(
                            self,
                        ).dones_seq()[t].1.received_spec() is None by {
                            if t != k {
                                assert(old(self).dones_seq()[t].0 != old(
                                    self,
                                ).dones_seq()[k as int].0);
                            }
                        }
                    }
                }
            },
            None => {},
        }
        None
    }

    /// Hand out the next client stream id and step the allocator, so
    /// that successive calls yield a strictly increasing sequence
    /// starting at 0x401.
    pub fn allocate_id(&mut self) -> (r: LightId)
        requires
            old(self).wf(),
            old(self).next_id() < u32::MAX,
        ensures
            final(self).wf(),
            r@ == old(self).next_id(),
            r.wf(),
            final(self).next_id() == old(self).next_id() + 1,
            final(self).sent() == old(self).sent(),
            final(self).pending() == old(self).pending(),
            final(self).nonce() == old(self).nonce(),
            final(self).client_seq() == old(self).client_seq(),
            final(self).server_seq() == old(self).server_seq(),
            final(self).dones_seq() == old(self).dones_seq(),
    {
        let id = self.next_light_id;
        self.next_light_id = id.next();
        id
    }
}

/// The sent log of a transport connection, for contracts that consume
/// it.
pub open spec fn ntt_sent_of<W: Stream>(c: ntt::Connection<W>) -> Seq<u8> {
    c.sent()
}

/// The session nonce of a transport connection, for contracts that
/// consume it.
pub open spec fn ntt_nonce_of<W: Stream>(c: ntt::Connection<W>) -> u64 {
    c.nonce()
}

/// The unread bytes of a transport connection, for contracts that
/// consume it.
pub open spec fn ntt_pending_of<W: Stream>(c: ntt::Connection<W>) -> Seq<u8> {
    c.pending()
}

/// A fresh session state over the transport connection `ntt`: the
/// peer's unread bytes stand whole, and no server stream is known
/// yet.
pub open spec fn opened_from<W: Stream>(s0: Connection<W>, ntt: ntt::Connection<W>) -> bool {
    &&& s0.pending() == ntt_pending_of(ntt)
    &&& s0.server_seq() == Seq::<(u32, LightConnection)>::empty()
    &&& s0.dones_seq() == Seq::<(u32, LightConnection)>::empty()
}

/// One `poll` step of the opening dance: either nothing anywhere was
/// waiting and the session stands, or the bytes buffered on stream
/// `id` were drained.
pub open spec fn opening_drain<W: Stream>(a: Connection<W>, b: Connection<W>, id: u32) -> bool {
    ||| (b == a && conns_all_drained(a.server_seq()) && conns_all_drained(a.dones_seq()))
    ||| (exists|bytes: Seq<u8>| #[trigger] polled_one(a, b, id, bytes))
}

/// What the session read while opening: from a fresh state, the
/// acknowledgement and the handshake reply are applied and the
/// initial stream drained, then the trailing frame is applied and
/// the stream drained once more. Each step is the exact relation of
/// `broadcast` or `poll`, so a session satisfying this has consumed
/// the peer's replies and stands aligned on the wire.
pub open spec fn opening_reads<W: Stream>(start: Connection<W>, end: Connection<W>) -> bool {
    exists|b: Connection<W>, c: Connection<W>, d: Connection<W>, e: Connection<W>, f: Connection<W>|
        #[trigger] broadcast_ok(start, b) && #[trigger] broadcast_ok(b, c)
            && #[trigger] opening_drain(c, d, LIGHT_ID_MIN) && #[trigger] broadcast_ok(d, e)
            && #[trigger] opening_drain(e, f, LIGHT_ID_MIN) && end.pending() == f.pending()
            && end.server_seq() == f.server_seq() && end.dones_seq() == f.dones_seq()
}

/// The bytes `bs` are what the opening dance drained from the
/// initial stream as the peer's handshake reply: two frames applied,
/// then the stream's buffer taken.
pub open spec fn opening_reply<W: Stream>(start: Connection<W>, bs: Seq<u8>) -> bool {
    exists|b: Connection<W>, c: Connection<W>, d: Connection<W>|
        #[trigger] broadcast_ok(start, b) && #[trigger] broadcast_ok(b, c) && #[trigger] polled_one(
            c,
            d,
            LIGHT_ID_MIN,
            bs,
        )
}

/// The session's tables, allocator and nonce are unchanged; only the
/// byte stream may have moved.
pub open spec fn state_unchanged_but_tx<W: Stream>(a: Connection<W>, b: Connection<W>) -> bool {
    &&& b.nonce() == a.nonce()
    &&& b.client_seq() == a.client_seq()
    &&& b.server_seq() == a.server_seq()
    &&& b.dones_seq() == a.dones_seq()
    &&& b.next_id() == a.next_id()
}

/// After an upsert of key `k`: every other entry is kept (in order),
/// and `k` is present exactly once, at the end.
pub open spec fn upserted(old_s: Seq<(u32, LightConnection)>, new_s: Seq<(u32, LightConnection)>, k: u32) -> bool {
    if conns_has(old_s, k) {
        exists|i: int|
            0 <= i < old_s.len() && (#[trigger] old_s[i]).0 == k && new_s.drop_last() == old_s.remove(
                i,
            )
    } else {
        new_s.drop_last() == old_s
    }
}

/// The last entry of the table is a fresh client record under `k`
/// carrying the syn node id of `nonce`.
pub open spec fn entry_is_fresh_syn(s: Seq<(u32, LightConnection)>, k: u32, nonce: u64) -> bool {
    &&& s.len() > 0
    &&& s.last().0 == k
    &&& s.last().1.id_spec() == k
    &&& s.last().1.node_id_spec() == Option::Some(syn_node_id_bytes(nonce))
    &&& s.last().1.received_spec() is None
}

/// After a removal of key `k`: either it was absent and nothing
/// moved, or exactly its entry left.
pub open spec fn removed(old_s: Seq<(u32, LightConnection)>, new_s: Seq<(u32, LightConnection)>, k: u32) -> bool {
    if conns_has(old_s, k) {
        exists|i: int| 0 <= i < old_s.len() && (#[trigger] old_s[i]).0 == k && new_s == old_s.remove(i)
    } else {
        new_s == old_s
    }
}

/// What one successful `broadcast` does, as a relation between the
/// session before and after: the first frame of the unread bytes is
/// consumed and applied.
pub open spec fn broadcast_ok<W: Stream>(a: Connection<W>, b: Connection<W>) -> bool {
    &&& a.pending().len() >= 8
    &&& b.sent() == a.sent()
    &&& b.nonce() == a.nonce()
    &&& b.client_seq() == a.client_seq()
    &&& b.next_id() == a.next_id()
    &&& ({
        let w1 = u32_of_be(a.pending().take(4));
        let w2 = u32_of_be(a.pending().subrange(4, 8));
        &&& frame_of_words(w1, w2) is Some
        &&& match frame_of_words(w1, w2).unwrap() {
            Command::Control(ControlHeader::CloseConnection, cid) => {
                &&& b.pending() == a.pending().skip(8)
                &&& close_applied(a.server_seq(), a.dones_seq(), b.server_seq(), b.dones_seq(), cid)
            },
            Command::Control(ControlHeader::CreatedNewConnection, cid) => {
                &&& b.pending() == a.pending().skip(8)
                &&& !conns_has(a.server_seq(), cid)
                &&& b.server_seq().drop_last() == a.server_seq()
                &&& b.server_seq().last().0 == cid
                &&& b.server_seq().last().1.node_id_spec() is None
                &&& b.server_seq().last().1.received_spec() is None
                &&& b.dones_seq() == a.dones_seq()
            },
            Command::Control(_, _) => {
                &&& b.pending() == a.pending().skip(8)
                &&& b.server_seq() == a.server_seq()
                &&& b.dones_seq() == a.dones_seq()
            },
            Command::Data(cid, len) => {
                &&& a.pending().len() >= 8 + len
                &&& b.pending() == a.pending().skip(8 + len as int)
                &&& data_applied(
                    a.server_seq(),
                    b.server_seq(),
                    cid,
                    a.pending().subrange(8, 8 + len as int),
                )
                &&& b.dones_seq() == a.dones_seq()
            },
        }
    })
}

/// A close frame's effect on the server tables: an unknown id changes
/// nothing; a known one leaves, and keeps its unread bytes among the
/// drained.
pub open spec fn close_applied(
    old_s: Seq<(u32, LightConnection)>,
    old_d: Seq<(u32, LightConnection)>,
    new_s: Seq<(u32, LightConnection)>,
    new_d: Seq<(u32, LightConnection)>,
    cid: u32,
) -> bool {
    if conns_has(old_s, cid) {
        exists|i: int|
            0 <= i < old_s.len() && (#[trigger] old_s[i]).0 == cid && new_s == old_s.remove(i) && (
            if old_s[i].1.received_spec() is Some {
                dones_upserted(old_d, new_d, cid, old_s[i].1)
            } else {
                new_d == old_d
            })
    } else {
        new_s == old_s && new_d == old_d
    }
}

/// The drained table after keeping `lc` under `cid`: any older entry
/// for `cid` left first, and the new one sits at the end.
pub open spec fn dones_upserted(
    old_d: Seq<(u32, LightConnection)>,
    new_d: Seq<(u32, LightConnection)>,
    cid: u32,
    lc: LightConnection,
) -> bool {
    if conns_has(old_d, cid) {
        exists|j: int|
            0 <= j < old_d.len() && (#[trigger] old_d[j]).0 == cid && new_d == old_d.remove(
                j,
            ).push((cid, lc))
    } else {
        new_d == old_d.push((cid, lc))
    }
}

/// A data frame's effect on the server table: an unknown id changes
/// nothing (the payload is discarded); a known one gets the payload
/// appended to its buffer.
pub open spec fn data_applied(
    old_s: Seq<(u32, LightConnection)>,
    new_s: Seq<(u32, LightConnection)>,
    cid: u32,
    payload: Seq<u8>,
) -> bool {
    if conns_has(old_s, cid) {
        exists|i: int|
            {
                &&& 0 <= i < old_s.len()
                &&& (#[trigger] old_s[i]).0 == cid
                &&& new_s == old_s.update(i, new_s[i])
                &&& new_s[i].0 == cid
                &&& new_s[i].1.id_spec() == old_s[i].1.id_spec()
                &&& new_s[i].1.node_id_spec() == old_s[i].1.node_id_spec()
                &&& new_s[i].1.received_spec() == Option::Some(
                    match old_s[i].1.received_spec() {
                        Option::Some(b) => b + payload,
                        Option::None => payload,
                    },
                )
            }
    } else {
        new_s == old_s
    }
}

/// What one successful `poll` (or `poll_id`) does: a stream that held
/// bytes now holds none, everything else stands, and the bytes came
/// from that stream. The drained table is searched only when no live
/// server stream holds bytes.
pub open spec fn polled_one<W: Stream>(a: Connection<W>, b: Connection<W>, id: u32, bytes: Seq<u8>) -> bool {
    &&& b.sent() == a.sent()
    &&& b.pending() == a.pending()
    &&& b.nonce() == a.nonce()
    &&& b.client_seq() == a.client_seq()
    &&& b.next_id() == a.next_id()
    &&& ({
        ||| (exists|i: int|
            {
                &&& 0 <= i < a.server_seq().len()
                &&& (#[trigger] a.server_seq()[i]).0 == id
                &&& a.server_seq()[i].1.received_spec() == Option::Some(bytes)
                &&& b.server_seq() == a.server_seq().update(i, b.server_seq()[i])
                &&& b.server_seq()[i].0 == id
                &&& b.server_seq()[i].1.received_spec() is None
                &&& b.server_seq()[i].1.node_id_spec() == a.server_seq()[i].1.node_id_spec()
                &&& b.server_seq()[i].1.id_spec() == a.server_seq()[i].1.id_spec()
                &&& b.dones_seq() == a.dones_seq()
            })
        ||| (exists|i: int|
            {
                &&& 0 <= i < a.dones_seq().len()
                &&& (#[trigger] a.dones_seq()[i]).0 == id
                &&& a.dones_seq()[i].1.received_spec() == Option::Some(bytes)
                &&& b.dones_seq() == a.dones_seq().update(i, b.dones_seq()[i])
                &&& b.dones_seq()[i].0 == id
                &&& b.dones_seq()[i].1.received_spec() is None
                &&& b.dones_seq()[i].1.node_id_spec() == a.dones_seq()[i].1.node_id_spec()
                &&& b.dones_seq()[i].1.id_spec() == a.dones_seq()[i].1.id_spec()
                &&& b.server_seq() == a.server_seq()
            })
    })
}


/// Ids below the reserved bound belong to the transport and never
/// name a user stream: every well-formed light id lies at or above
/// it, so no session method can be asked to open or use one. The
/// constructors enforce the bound, so an id under it is rejected at
/// the type's edge before any frame is written.
pub proof fn lemma_light_id_reserved(id: LightId)
    requires
        id.wf(),
    ensures
        id@ >= LIGHT_ID_MIN,
        id@ >= 1024,
{
}

/// A close frame for a stream the session does not know changes no
/// table: the step consumes exactly the 8 header bytes, and the
/// server, client and drained tables all keep their values.
pub proof fn lemma_broadcast_close_unknown<W: Stream>(a: Connection<W>, b: Connection<W>, cid: u32)
    requires
        broadcast_ok(a, b),
        frame_of_words(u32_of_be(a.pending().take(4)), u32_of_be(a.pending().subrange(4, 8)))
            == Some(Command::Control(ControlHeader::CloseConnection, cid)),
        !conns_has(a.server_seq(), cid),
    ensures
        b.pending() == a.pending().skip(8),
        b.server_seq() == a.server_seq(),
        b.client_seq() == a.client_seq(),
        b.dones_seq() == a.dones_seq(),
        b.sent() == a.sent(),
        b.next_id() == a.next_id(),
{
}

/// A data frame for a stream the session does not know is consumed
/// whole — the 8 header bytes and all `len` payload bytes — and its
/// payload discarded: framing stays aligned and no table changes.
pub proof fn lemma_broadcast_data_unknown<W: Stream>(
    a: Connection<W>,
    b: Connection<W>,
    cid: u32,
    len: u32,
)
    requires
        broadcast_ok(a, b),
        frame_of_words(u32_of_be(a.pending().take(4)), u32_of_be(a.pending().subrange(4, 8)))
            == Some(Command::Data(cid, len)),
        !conns_has(a.server_seq(), cid),
    ensures
        a.pending().len() >= 8 + len,
        b.pending() == a.pending().skip(8 + len as int),
        b.server_seq() == a.server_seq(),
        b.client_seq() == a.client_seq(),
        b.dones_seq() == a.dones_seq(),
        b.sent() == a.sent(),
        b.next_id() == a.next_id(),
{
}

/// Removing an entry keeps a connection table well formed, and maps
/// the remaining indexes onto the old ones.
proof fn lemma_conns_remove(s: Seq<(u32, LightConnection)>, i: int)
    requires
        conns_wf(s),
        0 <= i < s.len(),
    ensures
        conns_wf(s.remove(i)),
        forall|j: int| 0 <= j < i ==> s.remove(i)[j] == s[j],
        forall|j: int| i <= j < s.len() - 1 ==> s.remove(i)[j] == s[j + 1],
{
    let t = s.remove(i);
    assert forall|j: int| 0 <= j < t.len() implies (j < i ==> t[j] == s[j]) && (j >= i ==> t[j]
        == s[j + 1]) by {
    }
    assert forall|a: int, b: int| 0 <= a < b < t.len() implies t[a].0 != t[b].0 by {
        if a < i && b < i {
            assert(t[a] == s[a] && t[b] == s[b]);
        } else if a < i {
            assert(t[a] == s[a] && t[b] == s[b + 1]);
        } else {
            assert(t[a] == s[a + 1] && t[b] == s[b + 1]);
        }
    }
    assert forall|j: int| 0 <= j < t.len() implies (#[trigger] t[j]).1.id_spec() == t[j].0 && t[j].0
        >= LIGHT_ID_MIN by {
        if j < i {
            assert(t[j] == s[j]);
        } else {
            assert(t[j] == s[j + 1]);
        }
    }
}

/// Appending a fresh key keeps a connection table well formed.
proof fn lemma_conns_push(s: Seq<(u32, LightConnection)>, k: u32, lc: LightConnection)
    requires
        conns_wf(s),
        !conns_has(s, k),
        lc.id_spec() == k,
        k >= LIGHT_ID_MIN,
    ensures
        conns_wf(s.push((k, lc))),
{
    let t = s.push((k, lc));
    assert forall|a: int, b: int| 0 <= a < b < t.len() implies t[a].0 != t[b].0 by {
        if b < t.len() - 1 {
            assert(t[a] == s[a] && t[b] == s[b]);
        } else {
            assert(t[a] == s[a]);
            assert(t[b] == (k, lc));
        }
    }
    assert forall|j: int| 0 <= j < t.len() implies (#[trigger] t[j]).1.id_spec() == t[j].0 && t[j].0
        >= LIGHT_ID_MIN by {
        if j < t.len() - 1 {
            assert(t[j] == s[j]);
        } else {
            assert(t[j] == (k, lc));
        }
    }
}

/// Replacing an entry under its own key keeps a connection table
/// well formed.
proof fn lemma_conns_update(s: Seq<(u32, LightConnection)>, i: int, e: (u32, LightConnection))
    requires
        conns_wf(s),
        0 <= i < s.len(),
        e.0 == s[i].0,
        e.1.id_spec() == e.0,
    ensures
        conns_wf(s.update(i, e)),
{
    let t = s.update(i, e);
    assert forall|a: int, b: int| 0 <= a < b < t.len() implies t[a].0 != t[b].0 by {
        assert(t[a].0 == s[a].0 && t[b].0 == s[b].0);
    }
    assert forall|j: int| 0 <= j < t.len() implies (#[trigger] t[j]).1.id_spec() == t[j].0 && t[j].0
        >= LIGHT_ID_MIN by {
        if j != i {
            assert(t[j] == s[j]);
        }
    }
}

} // verus!
