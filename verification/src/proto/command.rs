//! The request/response command layer: stateless request templates
//! that borrow a fresh stream from the session, send their request,
//! drive the session until the reply arrives, and release the
//! stream.

use vstd::prelude::*;
use crate::error::Error;
use crate::ntt::Stream;
use crate::ntt::protocol::{Command as Frame, ControlHeader, frame_bytes, syn_node_id_bytes};
use crate::proto::{Connection, LightId, conns_has, no_pending_for, broadcast_ok, polled_one};
use crate::block::{HeaderHash, MainBlockHeader, BlockHeader};
use crate::packet::{getheaders_payload, getblocks_payload, is_bhr_value, BlockHeaderResponse, hash_views};
use crate::cbor::{Value, value_wf, value_at, decode_value, serialize_value};

verus! {

/// A request template: `cmd` performs the request on an already open
/// stream, and `execute` wraps it in the open/acknowledge/close
/// dance.
pub trait Command<W: Stream>: Sized {
    type Output;

    /// Perform the request on stream `id`, which the caller opened.
    fn cmd(&self, connection: &mut Connection<W>, id: LightId) -> (r: Result<Self::Output, Error>)
        requires
            old(connection).wf(),
            id.wf(),
        ensures
            final(connection).wf(),
    ;

    /// Open a fresh stream, wait for the peer's acknowledgement, run
    /// the request, and close the stream.
    fn execute(&self, connection: &mut Connection<W>) -> (r: Result<Self::Output, Error>)
        requires
            old(connection).wf(),
            old(connection).next_id() < u32::MAX,
        ensures
            final(connection).wf(),
    ;
}

/// The view of the optional anchor hash.
pub open spec fn opt_hash_view(o: Option<HeaderHash>) -> Option<Seq<u8>> {
    match o {
        Option::Some(h) => Option::Some(h@),
        Option::None => Option::None,
    }
}

/// What the reply side of a command does: starting from a session
/// state, one frame is applied, the stream's opening echo is drained,
/// a second frame is applied, and `dat` is drained from the same
/// stream. Each step is the exact relation of `broadcast` or
/// `poll_id`, so `dat` is a buffer the session filled from the wire.
pub open spec fn reply_pipeline<W: Stream>(start: Connection<W>, id: u32, dat: Seq<u8>) -> bool {
    exists|b: Connection<W>, c: Connection<W>, d: Connection<W>, e: Connection<W>, echo: Seq<u8>|
        #[trigger] broadcast_ok(start, b) && #[trigger] polled_one(b, c, id, echo)
            && #[trigger] broadcast_ok(c, d) && #[trigger] polled_one(d, e, id, dat)
}

/// The reply pipeline ran from a state whose unread bytes and server
/// tables are those the request left behind in `origin`.
pub open spec fn request_reply<W: Stream>(origin: Connection<W>, id: u32, dat: Seq<u8>) -> bool {
    exists|s0: Connection<W>|
        s0.pending() == origin.pending() && s0.server_seq() == origin.server_seq()
            && s0.dones_seq() == origin.dones_seq() && #[trigger] reply_pipeline(s0, id, dat)
}

/// As `request_reply`, preceded by the acknowledgement frame that
/// `execute` consumes right after opening the stream.
pub open spec fn command_reply<W: Stream>(origin: Connection<W>, id: u32, dat: Seq<u8>) -> bool {
    exists|a: Connection<W>, b: Connection<W>|
        a.pending() == origin.pending() && a.server_seq() == origin.server_seq() && a.dones_seq()
            == origin.dones_seq() && #[trigger] broadcast_ok(a, b) && request_reply(b, id, dat)
}

/// Stream `id` holds no unread bytes, live or drained.
pub open spec fn stream_empty<W: Stream>(c: Connection<W>, id: u32) -> bool {
    no_pending_for(c.server_seq(), id) && no_pending_for(c.dones_seq(), id)
}

/// The reply pipeline stalled: after one applied frame the stream
/// held nothing to read, or after the echo was drained and a second
/// frame applied it held nothing again. This is the exact condition
/// under which a command's polls come back empty.
pub open spec fn pipeline_stalled<W: Stream>(start: Connection<W>, id: u32) -> bool {
    ||| (exists|b: Connection<W>| #[trigger] broadcast_ok(start, b) && stream_empty(b, id))
    ||| (exists|b: Connection<W>, c: Connection<W>, d: Connection<W>, echo: Seq<u8>|
        #[trigger] broadcast_ok(start, b) && #[trigger] polled_one(b, c, id, echo)
            && #[trigger] broadcast_ok(c, d) && stream_empty(d, id))
}

/// The stalled pipeline ran from a state whose unread bytes and
/// server tables are those the request left behind in `origin`.
pub open spec fn reply_stalled<W: Stream>(origin: Connection<W>, id: u32) -> bool {
    exists|s0: Connection<W>|
        s0.pending() == origin.pending() && s0.server_seq() == origin.server_seq()
            && s0.dones_seq() == origin.dones_seq() && #[trigger] pipeline_stalled(s0, id)
}

/// As `reply_stalled`, preceded by the acknowledgement frame that
/// `execute` consumes right after opening the stream.
pub open spec fn command_stalled<W: Stream>(origin: Connection<W>, id: u32) -> bool {
    exists|a: Connection<W>, b: Connection<W>|
        a.pending() == origin.pending() && a.server_seq() == origin.server_seq() && a.dones_seq()
            == origin.dones_seq() && #[trigger] broadcast_ok(a, b) && reply_stalled(b, id)
}

/// `dat` holds no usable header response: no canonical value heads
/// it, or the one that does is not of the response shape.
pub open spec fn response_garbled(dat: Seq<u8>) -> bool {
    ||| (forall|v: Value| !value_at(dat, 0, v))
    ||| (exists|v: Value, n: int|
        0 < n <= dat.len() && #[trigger] serialize_value(v) == #[trigger] dat.subrange(0, n)
            && value_wf(v) && (forall|resp: BlockHeaderResponse| !is_bhr_value(v, resp)))
}

/// `dat` decodes to a header response that carries no header at all.
pub open spec fn response_empty(dat: Seq<u8>) -> bool {
    exists|v: Value, n: int, resp: BlockHeaderResponse|
        0 < n <= dat.len() && #[trigger] serialize_value(v) == #[trigger] dat.subrange(0, n)
            && value_wf(v) && #[trigger] is_bhr_value(v, resp) && (resp->Success_0)@.len() == 0
}

/// `dat` begins with one encoded value: a header response whose first
/// header is `mbh`.
pub open spec fn response_from(dat: Seq<u8>, mbh: MainBlockHeader) -> bool {
    exists|v: Value, n: int, resp: BlockHeaderResponse|
        0 < n <= dat.len() && #[trigger] serialize_value(v) == #[trigger] dat.subrange(0, n)
            && value_wf(v) && #[trigger] is_bhr_value(v, resp) && (resp->Success_0)@.len() > 0 && ((
        resp->Success_0)@[0] matches BlockHeader::MainBlockHeader(m) && m == mbh)
}

/// Fetch one block header: the request names an optional anchor to
/// start from, and the reply's first header is returned.
#[derive(Debug)]
pub struct GetBlockHeader(Option<HeaderHash>);

impl GetBlockHeader {
    /// The anchor this request starts from, if any.
    pub closed spec fn anchor(&self) -> Option<HeaderHash> {
        self.0
    }

    /// Ask for the newest header.
    pub fn first() -> (r: GetBlockHeader)
        ensures
            r.anchor() is None,
    {
        GetBlockHeader(None)
    }

    /// Ask for the header anchored at `hh`.
    pub fn some(hh: HeaderHash) -> (r: GetBlockHeader)
        ensures
            r.anchor() matches Some(h) && h@ == hh@,
    {
        GetBlockHeader(Some(hh))
    }

    /// The two request frames this command sends on stream `id`: the
    /// one-byte message code, then the encoded payload.
    pub open spec fn request_bytes(&self, id: u32) -> Seq<u8> {
        let payload = getheaders_payload(Seq::<Seq<u8>>::empty(), opt_hash_view(self.anchor()));
        frame_bytes(Frame::Data(id, 1)) + seq![0x04u8] + frame_bytes(
            Frame::Data(id, payload.len() as u32),
        ) + payload
    }

    /// Send the request on the open stream `id`, consume the peer's
    /// stream-opening echo, and decode the first header of the reply.
    pub fn run<W: Stream>(&self, connection: &mut Connection<W>, id: LightId) -> (r: Result<
        MainBlockHeader,
        Error,
    >)
        requires
            old(connection).wf(),
            id.wf(),
        ensures
            final(connection).wf(),
            r matches Ok(mbh) ==> final(connection).sent() == old(connection).sent()
                + self.request_bytes(id@) && (exists|dat: Seq<u8>|
                #[trigger] request_reply(*old(connection), id@, dat) && response_from(dat, mbh))
                && final(connection).next_id() == old(connection).next_id()
                && final(connection).client_seq() == old(connection).client_seq()
                && final(connection).nonce() == old(connection).nonce(),
            r matches Err(e) ==> (e == Error::IoError || e matches Error::ProtocolError(_) || e
                == Error::NoData || e == Error::DecodeError || e == Error::NoHeader),
            r == Err::<MainBlockHeader, Error>(Error::NoData) ==> reply_stalled(
                *old(connection),
                id@,
            ),
            r == Err::<MainBlockHeader, Error>(Error::DecodeError) ==> (exists|dat: Seq<u8>|
                #[trigger] request_reply(*old(connection), id@, dat) && response_garbled(dat)),
            r == Err::<MainBlockHeader, Error>(Error::NoHeader) ==> (exists|dat: Seq<u8>|
                #[trigger] request_reply(*old(connection), id@, dat) && response_empty(dat)),
    {
        let froms: Vec<HeaderHash> = Vec::new();
        let (code, dat) = crate::packet::send_msg_getheaders(&froms, &self.0);
        proof {
            assert(hash_views(froms@) =~= Seq::<Seq<u8>>::empty());
            if self.anchor() is Some {
                crate::block::lemma_hash_len(self.anchor().unwrap());
            }
            lemma_getheaders_payload_len(opt_hash_view(self.anchor()));
        }
        let mut code_buf: Vec<u8> = Vec::new();
        code_buf.push(code);
        if connection.send_bytes(id, code_buf.as_slice()).is_err() {
            return Err(Error::IoError);
        }
        if connection.send_bytes(id, dat.as_slice()).is_err() {
            return Err(Error::IoError);
        }
        let ghost s0 = *connection;
        if let Err(e) = connection.broadcast() {
            return Err(e);
        }
        let ghost after_first = *connection;
        let _echo_buf = match connection.poll_id(id) {
            Some(v) => v,
            None => {
                proof {
                    assert(broadcast_ok(s0, after_first) && stream_empty(after_first, id@));
                    assert(pipeline_stalled(s0, id@));
                    assert(reply_stalled(*old(connection), id@));
                }
                return Err(Error::NoData);
            },
        };
        let ghost echo_bytes = _echo_buf@;
        let ghost after_echo = *connection;
        if let Err(e) = connection.broadcast() {
            return Err(e);
        }
        let ghost after_second = *connection;
        let reply = match connection.poll_id(id) {
            Some(bytes) => bytes,
            None => {
                proof {
                    assert(broadcast_ok(s0, after_first) && polled_one(
                        after_first,
                        after_echo,
                        id@,
                        echo_bytes,
                    ) && broadcast_ok(after_echo, after_second) && stream_empty(
                        after_second,
                        id@,
                    ));
                    assert(pipeline_stalled(s0, id@));
                    assert(reply_stalled(*old(connection), id@));
                }
                return Err(Error::NoData);
            },
        };
        let ghost after_reply = *connection;
        proof {
            assert(reply_pipeline(s0, id@, reply@)) by {
                assert(broadcast_ok(s0, after_first) && polled_one(
                    after_first,
                    after_echo,
                    id@,
                    echo_bytes,
                ) && broadcast_ok(after_echo, after_second) && polled_one(
                    after_second,
                    after_reply,
                    id@,
                    reply@,
                ));
            }
            assert(request_reply(*old(connection), id@, reply@));
        }
        let (value, _end) = match decode_value(&reply, 0) {
            Ok(p) => p,
            Err(_) => {
                proof {
                    assert(forall|v: Value| !value_at(reply@, 0, v));
                    assert(response_garbled(reply@));
                }
                return Err(Error::DecodeError);
            },
        };
        let ghost gv = value;
        let resp = match BlockHeaderResponse::decode(value) {
            Ok(resp) => resp,
            Err(_) => {
                proof {
                    assert(response_garbled(reply@)) by {
                        assert(0 < _end <= reply@.len());
                        assert(serialize_value(gv) == reply@.subrange(0, _end as int));
                        assert(value_wf(gv));
                        assert(forall|r2: BlockHeaderResponse| !is_bhr_value(gv, r2));
                    }
                }
                return Err(Error::DecodeError);
            },
        };
        let ghost gresp = resp;
        let BlockHeaderResponse::Success(mut headers) = resp;
        if headers.len() == 0 {
            proof {
                assert(response_empty(reply@)) by {
                    assert(is_bhr_value(gv, gresp) && value_wf(gv));
                    assert(serialize_value(gv) == reply@.subrange(0, _end as int));
                    assert((gresp->Success_0)@.len() == 0);
                }
            }
            return Err(Error::NoHeader);
        }
        let first = headers.remove(0);
        let BlockHeader::MainBlockHeader(mbh) = first;
        proof {
            assert((gresp->Success_0)@[0] == first);
            assert(is_bhr_value(gv, gresp) && value_wf(gv));
            assert(response_from(reply@, mbh)) by {
                assert(serialize_value(gv) == reply@.subrange(0, _end as int));
            }
            assert(final(connection).sent() =~= old(connection).sent() + self.request_bytes(id@));
        }
        Ok(mbh)
    }
}

impl<W: Stream> Command<W> for GetBlockHeader {
    type Output = MainBlockHeader;

    fn cmd(&self, connection: &mut Connection<W>, id: LightId) -> (r: Result<
        MainBlockHeader,
        Error,
    >)
        ensures
            r matches Ok(mbh) ==> final(connection).sent() == old(connection).sent()
                + self.request_bytes(id@) && (exists|dat: Seq<u8>|
                #[trigger] request_reply(*old(connection), id@, dat) && response_from(dat, mbh))
                && final(connection).next_id() == old(connection).next_id()
                && final(connection).client_seq() == old(connection).client_seq()
                && final(connection).nonce() == old(connection).nonce(),
            r matches Err(e) ==> (e == Error::IoError || e matches Error::ProtocolError(_) || e
                == Error::NoData || e == Error::DecodeError || e == Error::NoHeader),
            r == Err::<MainBlockHeader, Error>(Error::NoData) ==> reply_stalled(
                *old(connection),
                id@,
            ),
            r == Err::<MainBlockHeader, Error>(Error::DecodeError) ==> (exists|dat: Seq<u8>|
                #[trigger] request_reply(*old(connection), id@, dat) && response_garbled(dat)),
            r == Err::<MainBlockHeader, Error>(Error::NoHeader) ==> (exists|dat: Seq<u8>|
                #[trigger] request_reply(*old(connection), id@, dat) && response_empty(dat)),
    {
        self.run(connection, id)
    }

    fn execute(&self, connection: &mut Connection<W>) -> (r: Result<MainBlockHeader, Error>)
        ensures
            r matches Ok(mbh) ==> final(connection).sent() == old(connection).sent() + frame_bytes(
                Frame::Control(ControlHeader::CreatedNewConnection, old(connection).next_id()))
                + frame_bytes(Frame::Data(old(connection).next_id(), 9)) + syn_node_id_bytes(
                old(connection).nonce()) + self.request_bytes(old(connection).next_id())
                + frame_bytes(
                Frame::Control(ControlHeader::CloseConnection, old(connection).next_id()))
                && final(connection).next_id() == old(connection).next_id() + 1 && !conns_has(
                final(connection).client_seq(),
                old(connection).next_id(),
            ) && (exists|dat: Seq<u8>|
                #[trigger] command_reply(*old(connection), old(connection).next_id(), dat)
                    && response_from(dat, mbh)),
            r matches Err(e) ==> (e == Error::IoError || e matches Error::ProtocolError(_) || e
                == Error::NoData || e == Error::DecodeError || e == Error::NoHeader),
            r == Err::<MainBlockHeader, Error>(Error::NoData) ==> command_stalled(
                *old(connection),
                old(connection).next_id(),
            ),
            r == Err::<MainBlockHeader, Error>(Error::DecodeError) ==> (exists|dat: Seq<u8>|
                #[trigger] command_reply(*old(connection), old(connection).next_id(), dat)
                    && response_garbled(dat)),
            r == Err::<MainBlockHeader, Error>(Error::NoHeader) ==> (exists|dat: Seq<u8>|
                #[trigger] command_reply(*old(connection), old(connection).next_id(), dat)
                    && response_empty(dat)),
    {
        let id = connection.allocate_id();
        if let Err(e) = connection.new_light_connection(id) {
            return Err(e);
        }
        let ghost opened = *connection;
        if let Err(e) = connection.broadcast() {
            return Err(e);
        }
        let ghost acked = *connection;
        let ret = match self.run(connection, id) {
            Ok(v) => v,
            Err(e) => {
                proof {
                    assert(broadcast_ok(opened, acked));
                    if e == Error::NoData {
                        assert(command_stalled(*old(connection), old(connection).next_id()));
                    }
                    if e == Error::DecodeError {
                        let dat = choose|dat: Seq<u8>|
                            #[trigger] request_reply(acked, id@, dat) && response_garbled(dat);
                        assert(command_reply(*old(connection), old(connection).next_id(), dat));
                    }
                    if e == Error::NoHeader {
                        let dat = choose|dat: Seq<u8>|
                            #[trigger] request_reply(acked, id@, dat) && response_empty(dat);
                        assert(command_reply(*old(connection), old(connection).next_id(), dat));
                    }
                }
                return Err(e);
            },
        };
        if let Err(e) = connection.close_light_connection(id) {
            return Err(e);
        }
        proof {
            let dat = choose|dat: Seq<u8>|
                #[trigger] request_reply(acked, id@, dat) && response_from(dat, ret);
            assert(broadcast_ok(opened, acked));
            assert(command_reply(*old(connection), old(connection).next_id(), dat));
            assert(final(connection).sent() =~= old(connection).sent() + frame_bytes(
                Frame::Control(ControlHeader::CreatedNewConnection, old(connection).next_id()))
                + frame_bytes(Frame::Data(old(connection).next_id(), 9)) + syn_node_id_bytes(
                old(connection).nonce()) + self.request_bytes(old(connection).next_id())
                + frame_bytes(
                Frame::Control(ControlHeader::CloseConnection, old(connection).next_id())));
        }
        Ok(ret)
    }
}

/// Fetch the raw bytes of one block range, bounded by two header
/// hashes.
#[derive(Debug)]
pub struct GetBlock {
    from: HeaderHash,
    to: HeaderHash,
}

impl GetBlock {
    /// The lower bound of the requested range.
    pub closed spec fn from_spec(&self) -> Seq<u8> {
        self.from@
    }

    /// The upper bound of the requested range.
    pub closed spec fn to_spec(&self) -> Seq<u8> {
        self.to@
    }

    /// Ask for the single block named by `hh`.
    pub fn only(hh: HeaderHash) -> (r: GetBlock)
        ensures
            r.from_spec() == hh@ && r.to_spec() == hh@,
    {
        GetBlock::from(hh, hh)
    }

    /// Ask for the range `from..=to`.
    pub fn from(from: HeaderHash, to: HeaderHash) -> (r: GetBlock)
        ensures
            r.from_spec() == from@ && r.to_spec() == to@,
    {
        GetBlock { from, to }
    }

    /// The two request frames this command sends on stream `id`.
    pub open spec fn request_bytes(&self, id: u32) -> Seq<u8> {
        let payload = getblocks_payload(self.from_spec(), self.to_spec());
        frame_bytes(Frame::Data(id, 1)) + seq![0x06u8] + frame_bytes(
            Frame::Data(id, payload.len() as u32),
        ) + payload
    }

    /// Send the request on the open stream `id`, consume the echo,
    /// and hand the reply payload back verbatim.
    pub fn run<W: Stream>(&self, connection: &mut Connection<W>, id: LightId) -> (r: Result<
        Vec<u8>,
        Error,
    >)
        requires
            old(connection).wf(),
            id.wf(),
        ensures
            final(connection).wf(),
            r matches Ok(dat) ==> final(connection).sent() == old(connection).sent()
                + self.request_bytes(id@) && request_reply(*old(connection), id@, dat@)
                && final(connection).next_id() == old(connection).next_id()
                && final(connection).client_seq() == old(connection).client_seq()
                && final(connection).nonce() == old(connection).nonce(),
            r matches Err(e) ==> (e == Error::IoError || e matches Error::ProtocolError(_) || e
                == Error::NoData),
            r == Err::<Vec<u8>, Error>(Error::NoData) ==> reply_stalled(*old(connection), id@),
    {
        let (code, dat) = crate::packet::send_msg_getblocks(&self.from, &self.to);
        proof {
            crate::block::lemma_hash_len(self.from);
            crate::block::lemma_hash_len(self.to);
            lemma_getblocks_payload_len(self.from_spec(), self.to_spec());
        }
        let mut code_buf: Vec<u8> = Vec::new();
        code_buf.push(code);
        if connection.send_bytes(id, code_buf.as_slice()).is_err() {
            return Err(Error::IoError);
        }
        if connection.send_bytes(id, dat.as_slice()).is_err() {
            return Err(Error::IoError);
        }
        let ghost s0 = *connection;
        if let Err(e) = connection.broadcast() {
            return Err(e);
        }
        let ghost after_first = *connection;
        let _echo_buf = match connection.poll_id(id) {
            Some(v) => v,
            None => {
                proof {
                    assert(broadcast_ok(s0, after_first) && stream_empty(after_first, id@));
                    assert(pipeline_stalled(s0, id@));
                    assert(reply_stalled(*old(connection), id@));
                }
                return Err(Error::NoData);
            },
        };
        let ghost echo_bytes = _echo_buf@;
        let ghost after_echo = *connection;
        if let Err(e) = connection.broadcast() {
            return Err(e);
        }
        let ghost after_second = *connection;
        let reply = match connection.poll_id(id) {
            Some(bytes) => bytes,
            None => {
                proof {
                    assert(broadcast_ok(s0, after_first) && polled_one(
                        after_first,
                        after_echo,
                        id@,
                        echo_bytes,
                    ) && broadcast_ok(after_echo, after_second) && stream_empty(
                        after_second,
                        id@,
                    ));
                    assert(pipeline_stalled(s0, id@));
                    assert(reply_stalled(*old(connection), id@));
                }
                return Err(Error::NoData);
            },
        };
        let ghost after_reply = *connection;
        proof {
            assert(reply_pipeline(s0, id@, reply@)) by {
                assert(broadcast_ok(s0, after_first) && polled_one(
                    after_first,
                    after_echo,
                    id@,
                    echo_bytes,
                ) && broadcast_ok(after_echo, after_second) && polled_one(
                    after_second,
                    after_reply,
                    id@,
                    reply@,
                ));
            }
            assert(request_reply(*old(connection), id@, reply@));
            assert(final(connection).sent() =~= old(connection).sent() + self.request_bytes(id@));
        }
        Ok(reply)
    }
}

impl<W: Stream> Command<W> for GetBlock {
    type Output = Vec<u8>;

    fn cmd(&self, connection: &mut Connection<W>, id: LightId) -> (r: Result<Vec<u8>, Error>)
        ensures
            r matches Ok(dat) ==> final(connection).sent() == old(connection).sent()
                + self.request_bytes(id@) && request_reply(*old(connection), id@, dat@)
                && final(connection).next_id() == old(connection).next_id()
                && final(connection).client_seq() == old(connection).client_seq()
                && final(connection).nonce() == old(connection).nonce(),
            r matches Err(e) ==> (e == Error::IoError || e matches Error::ProtocolError(_) || e
                == Error::NoData),
            r == Err::<Vec<u8>, Error>(Error::NoData) ==> reply_stalled(*old(connection), id@),
    {
        self.run(connection, id)
    }

    fn execute(&self, connection: &mut Connection<W>) -> (r: Result<Vec<u8>, Error>)
        ensures
            r matches Ok(dat) ==> final(connection).sent() == old(connection).sent() + frame_bytes(
                Frame::Control(ControlHeader::CreatedNewConnection, old(connection).next_id()))
                + frame_bytes(Frame::Data(old(connection).next_id(), 9)) + syn_node_id_bytes(
                old(connection).nonce()) + self.request_bytes(old(connection).next_id())
                + frame_bytes(
                Frame::Control(ControlHeader::CloseConnection, old(connection).next_id()))
                && final(connection).next_id() == old(connection).next_id() + 1 && command_reply(
                *old(connection),
                old(connection).next_id(),
                dat@,
            ),
            r matches Err(e) ==> (e == Error::IoError || e matches Error::ProtocolError(_) || e
                == Error::NoData),
            r == Err::<Vec<u8>, Error>(Error::NoData) ==> command_stalled(
                *old(connection),
                old(connection).next_id(),
            ),
    {
        let id = connection.allocate_id();
        if let Err(e) = connection.new_light_connection(id) {
            return Err(e);
        }
        let ghost opened = *connection;
        if let Err(e) = connection.broadcast() {
            return Err(e);
        }
        let ghost acked = *connection;
        let ret = match self.run(connection, id) {
            Ok(v) => v,
            Err(e) => {
                proof {
                    assert(broadcast_ok(opened, acked));
                    if e == Error::NoData {
                        assert(command_stalled(*old(connection), old(connection).next_id()));
                    }
                }
                return Err(e);
            },
        };
        if let Err(e) = connection.close_light_connection(id) {
            return Err(e);
        }
        proof {
            assert(broadcast_ok(opened, acked));
            assert(command_reply(*old(connection), old(connection).next_id(), ret@));
            assert(final(connection).sent() =~= old(connection).sent() + frame_bytes(
                Frame::Control(ControlHeader::CreatedNewConnection, old(connection).next_id()))
                + frame_bytes(Frame::Data(old(connection).next_id(), 9)) + syn_node_id_bytes(
                old(connection).nonce()) + self.request_bytes(old(connection).next_id())
                + frame_bytes(
                Frame::Control(ControlHeader::CloseConnection, old(connection).next_id())));
        }
        Ok(ret)
    }
}


/// Subscribe to the peer's pushes: ephemeral, or kept alive. The
/// request expects no response.
#[derive(Debug)]
pub struct Subscribe(bool);

impl Subscribe {
    /// Whether the subscription asks to be kept alive.
    pub closed spec fn keep_alive(&self) -> bool {
        self.0
    }

    /// An ephemeral or kept-alive subscription request.
    pub fn new(keep_alive: bool) -> (r: Subscribe)
        ensures
            r.keep_alive() == keep_alive,
    {
        Subscribe(keep_alive)
    }

    /// The two request frames this command sends on stream `id`.
    pub open spec fn request_bytes(&self, id: u32) -> Seq<u8> {
        let payload = crate::packet::serialize_uint(
            if self.keep_alive() {
                43u64
            } else {
                42u64
            },
        );
        frame_bytes(Frame::Data(id, 1)) + seq![0x0eu8] + frame_bytes(
            Frame::Data(id, payload.len() as u32),
        ) + payload
    }

    /// Send the subscription on the open stream `id`; nothing comes
    /// back.
    pub fn run<W: Stream>(&self, connection: &mut Connection<W>, id: LightId) -> (r: Result<
        (),
        Error,
    >)
        requires
            old(connection).wf(),
            id.wf(),
        ensures
            final(connection).wf(),
            r is Ok ==> final(connection).sent() == old(connection).sent() + self.request_bytes(
                id@,
            ) && final(connection).pending() == old(connection).pending()
                && final(connection).next_id() == old(connection).next_id()
                && final(connection).client_seq() == old(connection).client_seq()
                && final(connection).nonce() == old(connection).nonce(),
            r is Err ==> r == Err::<(), Error>(Error::IoError),
    {
        let (code, dat) = crate::packet::send_msg_subscribe(self.0);
        let mut code_buf: Vec<u8> = Vec::new();
        code_buf.push(code);
        if connection.send_bytes(id, code_buf.as_slice()).is_err() {
            return Err(Error::IoError);
        }
        if connection.send_bytes(id, dat.as_slice()).is_err() {
            return Err(Error::IoError);
        }
        proof {
            assert(final(connection).sent() =~= old(connection).sent() + self.request_bytes(id@));
        }
        Ok(())
    }
}

impl<W: Stream> Command<W> for Subscribe {
    type Output = ();

    fn cmd(&self, connection: &mut Connection<W>, id: LightId) -> (r: Result<(), Error>)
        ensures
            r is Ok ==> final(connection).sent() == old(connection).sent() + self.request_bytes(
                id@,
            ) && final(connection).pending() == old(connection).pending()
                && final(connection).next_id() == old(connection).next_id()
                && final(connection).client_seq() == old(connection).client_seq()
                && final(connection).nonce() == old(connection).nonce(),
            r is Err ==> r == Err::<(), Error>(Error::IoError),
    {
        self.run(connection, id)
    }

    fn execute(&self, connection: &mut Connection<W>) -> (r: Result<(), Error>)
        ensures
            r is Ok ==> final(connection).sent() == old(connection).sent() + frame_bytes(
                Frame::Control(ControlHeader::CreatedNewConnection, old(connection).next_id()))
                + frame_bytes(Frame::Data(old(connection).next_id(), 9)) + syn_node_id_bytes(
                old(connection).nonce()) + self.request_bytes(old(connection).next_id())
                + frame_bytes(
                Frame::Control(ControlHeader::CloseConnection, old(connection).next_id()))
                && final(connection).next_id() == old(connection).next_id() + 1,
            r matches Err(e) ==> (e == Error::IoError || e matches Error::ProtocolError(_)),
    {
        let id = connection.allocate_id();
        if let Err(e) = connection.new_light_connection(id) {
            return Err(e);
        }
        if let Err(e) = connection.broadcast() {
            return Err(e);
        }
        let ret = match self.run(connection, id) {
            Ok(v) => v,
            Err(e) => {
                return Err(e);
            },
        };
        if let Err(e) = connection.close_light_connection(id) {
            return Err(e);
        }
        proof {
            assert(final(connection).sent() =~= old(connection).sent() + frame_bytes(
                Frame::Control(ControlHeader::CreatedNewConnection, old(connection).next_id()))
                + frame_bytes(Frame::Data(old(connection).next_id(), 9)) + syn_node_id_bytes(
                old(connection).nonce()) + self.request_bytes(old(connection).next_id())
                + frame_bytes(
                Frame::Control(ControlHeader::CloseConnection, old(connection).next_id())));
        }
        Ok(ret)
    }
}

/// The get-headers payload with no starting hashes is a few dozen
/// bytes at most.
proof fn lemma_getheaders_payload_len(to: Option<Seq<u8>>)
    requires
        to matches Some(h) ==> h.len() == 32,
    ensures
        getheaders_payload(Seq::<Seq<u8>>::empty(), to).len() <= 64,
{
}

/// The get-blocks payload is exactly its two hashes and framing.
proof fn lemma_getblocks_payload_len(from: Seq<u8>, to: Seq<u8>)
    requires
        from.len() == 32,
        to.len() == 32,
    ensures
        getblocks_payload(from, to).len() == 69,
{
}

} // verus!
