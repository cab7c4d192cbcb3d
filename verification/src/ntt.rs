//! The frame transport: it owns the byte stream, performs the initial
//! transport handshake, and reads and writes control and data frames
//! keyed by a 32-bit light connection id.

pub mod protocol;

use vstd::prelude::*;
use crate::error::Error;
use crate::endian::{u32_of_be, push_all};
use protocol::{Command, frame_bytes, frame_of_words, handshake_bytes, LIGHT_ID_MIN};

verus! {

/// A blocking duplex byte stream, as the transport sees one. The model
/// is the log of bytes written so far (`sent`) and the bytes that
/// remain to be read (`pending`). A real socket decides for itself
/// when a call fails; nothing is promised of the state after an error,
/// and the session treats any error as fatal.
pub trait Stream: Sized {
    /// Every byte written to the stream so far, in order. An impl
    /// outside the verifier's sight may leave the default, which
    /// models nothing.
    open spec fn sent(&self) -> Seq<u8> {
        Seq::<u8>::empty()
    }

    /// The bytes that remain to be read from the stream.
    open spec fn pending(&self) -> Seq<u8> {
        Seq::<u8>::empty()
    }

    /// Write all of `buf` to the stream.
    fn write_bytes(&mut self, buf: &[u8]) -> (r: Result<(), ()>)
        ensures
            r is Ok ==> final(self).sent() == old(self).sent() + buf@ && final(self).pending()
                == old(self).pending(),
    ;

    /// Read exactly `n` bytes from the stream, blocking until they
    /// arrive or the stream fails.
    fn read_bytes(&mut self, n: usize) -> (r: Result<Vec<u8>, ()>)
        ensures
            r matches Ok(v) ==> n <= old(self).pending().len() && v@ == old(self).pending().take(
                n as int) && v@.len() == n
                && final(self).pending() == old(self).pending().skip(n as int) && final(self).sent()
                == old(self).sent(),
    ;
}

/// An in-memory stream: a script of incoming bytes and a log of what
/// was written. It stands in for the socket under test, and shows
/// that the `Stream` contract can be met.
pub struct MemStream {
    input: Vec<u8>,
    rpos: usize,
    output: Vec<u8>,
}

impl MemStream {
    /// A stream that will serve the bytes of `input` and log writes.
    pub fn new(input: Vec<u8>) -> (r: MemStream)
        ensures
            r.pending() == input@,
            r.sent() == Seq::<u8>::empty(),
    {
        let r = MemStream { input, rpos: 0, output: Vec::new() };
        proof {
            assert(r.pending() =~= r.input@);
        }
        r
    }

    /// The bytes written so far.
    pub fn written(&self) -> (r: &Vec<u8>)
        ensures
            r@ == self.sent(),
    {
        &self.output
    }

    /// How many scripted bytes remain unread.
    pub fn remaining(&self) -> (r: usize)
        ensures
            r == self.pending().len(),
    {
        if self.rpos > self.input.len() {
            0
        } else {
            self.input.len() - self.rpos
        }
    }
}

impl Stream for MemStream {
    closed spec fn sent(&self) -> Seq<u8> {
        self.output@
    }

    closed spec fn pending(&self) -> Seq<u8> {
        if self.rpos <= self.input@.len() {
            self.input@.skip(self.rpos as int)
        } else {
            Seq::<u8>::empty()
        }
    }

    fn write_bytes(&mut self, buf: &[u8]) -> (r: Result<(), ()>) {
        push_all(&mut self.output, buf);
        Ok(())
    }

    fn read_bytes(&mut self, n: usize) -> (r: Result<Vec<u8>, ()>) {
        if self.rpos > self.input.len() || n > self.input.len() - self.rpos {
            return Err(());
        }
        let total = self.input.len();
        let mut v: Vec<u8> = Vec::new();
        let mut i: usize = 0;
        while i < n
            invariant
                i <= n,
                *self == *old(self),
                total == self.input@.len(),
                self.rpos + n <= total,
                v@ == self.input@.subrange(self.rpos as int, self.rpos + i),
            decreases n - i,
        {
            v.push(self.input[self.rpos + i]);
            assert(v@ =~= self.input@.subrange(self.rpos as int, self.rpos + i + 1));
            i = i + 1;
        }
        let ghost before = self.pending();
        self.rpos = self.rpos + n;
        proof {
            assert(v@ =~= before.take(n as int));
            assert(self.pending() =~= before.skip(n as int));
        }
        Ok(v)
    }
}

/// The endpoint address this client presents: always unaddressable,
/// an empty byte string.
pub struct EndPoint {
    bytes: Vec<u8>,
}

impl EndPoint {
    /// The bytes of this endpoint address.
    pub closed spec fn view(&self) -> Seq<u8> {
        self.bytes@
    }

    /// The client never listens, so its endpoint has no address.
    pub fn unaddressable() -> (r: EndPoint)
        ensures
            r@ == Seq::<u8>::empty(),
    {
        EndPoint { bytes: Vec::new() }
    }
}

/// A connection that has passed the transport handshake. It owns the
/// byte stream and the session nonce that seeds client node ids.
pub struct Connection<W: Stream> {
    stream: W,
    nonce: u64,
}

impl<W: Stream> Connection<W> {
    /// Every byte this connection has written to its stream.
    pub closed spec fn sent(&self) -> Seq<u8> {
        self.stream.sent()
    }

    /// The bytes still to be read from the stream.
    pub closed spec fn pending(&self) -> Seq<u8> {
        self.stream.pending()
    }

    /// The nonce the next new stream will take.
    pub closed spec fn nonce(&self) -> u64 {
        self.nonce
    }

    /// Perform the transport handshake on `stream`: send the sixteen
    /// zero bytes, then accept status zero, reject the three known
    /// refusal codes, and fail on anything else. `drg_seed` becomes the
    /// session nonce.
    pub fn handshake(drg_seed: u64, stream: W) -> (r: Result<Connection<W>, Error>)
        ensures
            r matches Ok(c) ==> c.sent() == old_sent_of(stream) + handshake_bytes()
                && c.pending() == old_pending_of(stream).skip(4)
                && u32_of_be(old_pending_of(stream).take(4)) == 0
                && c.nonce() == drg_seed,
            r matches Err(e) ==> (e is IoError || e matches Error::HandshakeRejected(_)
                || e matches Error::ProtocolError(_)),
            r matches Err(Error::HandshakeRejected(code)) ==> (code == 0xffffffffu32 || code == 1
                || code == 2) && code == u32_of_be(old_pending_of(stream).take(4)),
            r matches Err(Error::ProtocolError(code)) ==> code == u32_of_be(
                old_pending_of(stream).take(4)) && code != 0 && code != 1 && code != 2
                && code != 0xffffffffu32,
    {
        let mut conn = Connection { stream, nonce: drg_seed };
        let mut buf: Vec<u8> = Vec::new();
        protocol::handshake(&mut buf);
        if conn.stream.write_bytes(buf.as_slice()).is_err() {
            return Err(Error::IoError);
        }
        match conn.recv_u32() {
            Err(e) => Err(e),
            Ok(0x00000000) => Ok(conn),
            Ok(0xffffffff) => Err(Error::HandshakeRejected(0xffffffff)),
            Ok(0x00000001) => Err(Error::HandshakeRejected(0x00000001)),
            Ok(0x00000002) => Err(Error::HandshakeRejected(0x00000002)),
            Ok(code) => Err(Error::ProtocolError(code)),
        }
    }

    /// Borrow the underlying stream, for callers that own it and
    /// want to look at what was exchanged.
    pub fn stream_ref(&self) -> (r: &W)
        ensures
            r.sent() == self.sent(),
            r.pending() == self.pending(),
    {
        &self.stream
    }

    /// Return the session nonce and step it, so that each new client
    /// stream gets a fresh one.
    pub fn get_nonce(&mut self) -> (r: u64)
        ensures
            r == old(self).nonce(),
            final(self).nonce() == old(self).nonce().wrapping_add(1),
            final(self).sent() == old(self).sent(),
            final(self).pending() == old(self).pending(),
    {
        let r = self.nonce;
        self.nonce = self.nonce.wrapping_add(1);
        r
    }

    /// Send the control frame that opens light connection `cid`.
    /// Ids under the reserved bound belong to the transport and are a
    /// caller error.
    pub fn create_light(&mut self, cid: u32) -> (r: Result<(), Error>)
        requires
            cid >= LIGHT_ID_MIN,
        ensures
            r is Ok ==> final(self).sent() == old(self).sent() + frame_bytes(
                Command::Control(protocol::ControlHeader::CreatedNewConnection, cid))
                && final(self).pending() == old(self).pending(),
            final(self).nonce() == old(self).nonce(),
            r is Err ==> r == Err::<(), Error>(Error::IoError),
    {
        let mut buf: Vec<u8> = Vec::new();
        protocol::create_conn(cid, &mut buf);
        self.emit(&buf)
    }

    /// Send the control frame that closes light connection `cid`.
    pub fn close_light(&mut self, cid: u32) -> (r: Result<(), Error>)
        requires
            cid >= LIGHT_ID_MIN,
        ensures
            r is Ok ==> final(self).sent() == old(self).sent() + frame_bytes(
                Command::Control(protocol::ControlHeader::CloseConnection, cid))
                && final(self).pending() == old(self).pending(),
            final(self).nonce() == old(self).nonce(),
            r is Err ==> r == Err::<(), Error>(Error::IoError),
    {
        let mut buf: Vec<u8> = Vec::new();
        protocol::delete_conn(cid, &mut buf);
        self.emit(&buf)
    }

    /// Send this endpoint's address preceded by its length.
    pub fn send_endpoint(&mut self, endpoint: &EndPoint) -> (r: Result<(), Error>)
        requires
            endpoint@.len() <= u32::MAX,
        ensures
            final(self).nonce() == old(self).nonce(),
            r is Ok ==> final(self).sent() == old(self).sent() + crate::endian::u32_be_bytes(
                endpoint@.len() as u32) + endpoint@
                && final(self).pending() == old(self).pending(),
            r is Err ==> r == Err::<(), Error>(Error::IoError),
    {
        let mut buf: Vec<u8> = Vec::new();
        protocol::append_with_length(endpoint.bytes.as_slice(), &mut buf);
        self.emit(&buf)
    }

    /// Send a data frame: the header naming `lwc` and the payload
    /// length, then the payload itself, byte for byte.
    pub fn light_send_data(&mut self, lwc: u32, dat: &[u8]) -> (r: Result<(), Error>)
        requires
            lwc >= LIGHT_ID_MIN,
            dat@.len() <= u32::MAX,
        ensures
            final(self).nonce() == old(self).nonce(),
            r is Ok ==> final(self).sent() == old(self).sent() + frame_bytes(
                Command::Data(lwc, dat@.len() as u32)) + dat@
                && final(self).pending() == old(self).pending(),
            r is Err ==> r == Err::<(), Error>(Error::IoError),
    {
        let mut buf: Vec<u8> = Vec::new();
        protocol::append_lightweight_data(lwc, dat.len() as u32, &mut buf);
        push_all(&mut buf, dat);
        self.emit(&buf)
    }

    /// Write one prepared buffer to the stream.
    fn emit(&mut self, dat: &Vec<u8>) -> (r: Result<(), Error>)
        ensures
            final(self).nonce() == old(self).nonce(),
            r is Ok ==> final(self).sent() == old(self).sent() + dat@ && final(self).pending()
                == old(self).pending(),
            r is Err ==> r == Err::<(), Error>(Error::IoError),
    {
        match self.stream.write_bytes(dat.as_slice()) {
            Ok(_) => Ok(()),
            Err(_) => Err(Error::IoError),
        }
    }

    /// Read one 32-bit big-endian word.
    fn recv_u32(&mut self) -> (r: Result<u32, Error>)
        ensures
            final(self).nonce() == old(self).nonce(),
            r matches Ok(v) ==> old(self).pending().len() >= 4 && v == u32_of_be(
                old(self).pending().take(4)) && final(self).pending() == old(self).pending().skip(4)
                && final(self).sent() == old(self).sent(),
            r is Err ==> r == Err::<u32, Error>(Error::IoError),
    {
        match self.stream.read_bytes(4) {
            Err(_) => Err(Error::IoError),
            Ok(buf) => {
                let v = crate::endian::read_u32_be(&buf, 0);
                proof {
                    assert(buf@.subrange(0, 4) =~= buf@);
                }
                Ok(v)
            },
        }
    }

    /// Read one frame header: a first word under the reserved bound is
    /// a control kind and is followed by the id; any other first word
    /// names a data stream and is followed by the payload length. The
    /// payload of a data frame is not consumed here.
    pub fn recv(&mut self) -> (r: Result<Command, Error>)
        ensures
            final(self).nonce() == old(self).nonce(),
            r matches Ok(cmd) ==> old(self).pending().len() >= 8 && Some(cmd) == frame_of_words(
                u32_of_be(old(self).pending().take(4)),
                u32_of_be(old(self).pending().subrange(4, 8)))
                && frame_bytes(cmd) == old(self).pending().take(8)
                && final(self).pending() == old(self).pending().skip(8)
                && final(self).sent() == old(self).sent(),
            r matches Err(Error::ProtocolError(w)) ==> old(self).pending().len() >= 4 && w
                == u32_of_be(old(self).pending().take(4)) && 6 <= w < LIGHT_ID_MIN,
            r matches Err(e) ==> e is IoError || e matches Error::ProtocolError(_),
    {
        let hdr = match self.recv_u32() {
            Ok(v) => v,
            Err(e) => {
                return Err(e);
            },
        };
        if hdr < LIGHT_ID_MIN {
            match protocol::control_header_from_u32(hdr) {
                Ok(c) => {
                    let id = match self.recv_u32() {
                        Ok(v) => v,
                        Err(e) => {
                            return Err(e);
                        },
                    };
                    let cmd = Command::Control(c, id);
                    proof {
                        lemma_recv_frame(old(self).pending(), cmd);
                    }
                    Ok(cmd)
                },
                Err(_) => Err(Error::ProtocolError(hdr)),
            }
        } else {
            let len = match self.recv_u32() {
                Ok(v) => v,
                Err(e) => {
                    return Err(e);
                },
            };
            let cmd = Command::Data(hdr, len);
            proof {
                lemma_recv_frame(old(self).pending(), cmd);
            }
            Ok(cmd)
        }
    }

    /// Read exactly `len` payload bytes, to be called right after a
    /// data frame header was received.
    pub fn recv_len(&mut self, len: u32) -> (r: Result<Vec<u8>, Error>)
        ensures
            final(self).nonce() == old(self).nonce(),
            r matches Ok(v) ==> old(self).pending().len() >= len && v@ == old(self).pending().take(
                len as int) && v@.len() == len
                && final(self).pending() == old(self).pending().skip(len as int)
                && final(self).sent() == old(self).sent(),
            r is Err ==> r == Err::<Vec<u8>, Error>(Error::IoError),
    {
        match self.stream.read_bytes(len as usize) {
            Err(_) => Err(Error::IoError),
            Ok(v) => Ok(v),
        }
    }
}

/// The sent log of a stream before it was handed to the transport.
pub open spec fn old_sent_of<W: Stream>(w: W) -> Seq<u8> {
    w.sent()
}

/// The unread bytes of a stream before it was handed to the transport.
pub open spec fn old_pending_of<W: Stream>(w: W) -> Seq<u8> {
    w.pending()
}

/// Taking four bytes twice from a pending stream is taking eight once.
proof fn lemma_recv_frame(p: Seq<u8>, cmd: Command)
    requires
        p.len() >= 8,
        frame_of_words(u32_of_be(p.take(4)), u32_of_be(p.skip(4).take(4))) == Some(cmd),
    ensures
        frame_of_words(u32_of_be(p.take(4)), u32_of_be(p.subrange(4, 8))) == Some(cmd),
        frame_bytes(cmd) == p.take(8),
        p.skip(4).skip(4) == p.skip(8),
{
    assert(p.skip(4).take(4) =~= p.subrange(4, 8));
    protocol::lemma_frame_round_trip(u32_of_be(p.take(4)), u32_of_be(p.subrange(4, 8)));
    crate::endian::lemma_u32_be_bytes_of(p.take(4));
    crate::endian::lemma_u32_be_bytes_of(p.subrange(4, 8));
    assert(frame_bytes(cmd) =~= p.take(8));
    assert(p.skip(4).skip(4) =~= p.skip(8));
}

} // verus!
