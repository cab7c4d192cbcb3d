//! The session-level records: the handshake record with its handler
//! tables, and the request messages of the command layer, each with
//! its exact wire form.

use vstd::prelude::*;
use crate::cbor::{Value, len_header_bytes, header_at, encode_header, decode_header, encode_value, serialize_value, value_wf};
use crate::block::{ProtocolMagic, Version, HeaderHash};
use crate::error::Error;
use crate::endian::push_all;
use crate::ntt::protocol::syn_node_id_bytes;

verus! {

/// An unsigned integer in its canonical encoded form.
pub open spec fn serialize_uint(n: u64) -> Seq<u8> {
    len_header_bytes(0, n)
}

/// A handler table entry: the integer code of the peer message that
/// answers a given message.
#[derive(Debug, Clone, Copy, PartialEq, Eq, Structural)]
pub struct HandlerSpec(u16);

impl HandlerSpec {
    /// The answering message code.
    pub closed spec fn view(&self) -> u16 {
        self.0
    }

    /// Wrap a raw handler code.
    pub fn new(c: u16) -> (r: HandlerSpec)
        ensures
            r@ == c,
    {
        HandlerSpec(c)
    }

    /// The raw handler code.
    pub fn code(&self) -> (r: u16)
        ensures
            r == self@,
    {
        self.0
    }
}

/// The encoded form of one handler spec: the sum tag zero, then the
/// code's own encoding embedded in a byte string under tag 24.
pub open spec fn serialize_handler_spec(c: u16) -> Seq<u8> {
    seq![0x82u8, 0x00u8, 0xd8u8, 0x18u8] + len_header_bytes(
        2,
        serialize_uint(c as u64).len() as u64,
    ) + serialize_uint(c as u64)
}

/// The encoded form of a run of handler table entries: each key as an
/// unsigned integer, then its handler spec.
pub open spec fn serialize_spec_pairs(s: Seq<(u32, u16)>) -> Seq<u8>
    decreases s,
{
    if s.len() == 0 {
        Seq::<u8>::empty()
    } else {
        serialize_uint(s[0].0 as u64) + serialize_handler_spec(s[0].1) + serialize_spec_pairs(
            s.drop_first(),
        )
    }
}

/// The keys of a handler table strictly ascend.
pub open spec fn spec_keys_ascending(s: Seq<(u32, u16)>) -> bool {
    forall|i: int, j: int| 0 <= i < j < s.len() ==> s[i].0 < s[j].0
}

/// A handler table: message code to handler spec, keys strictly
/// ascending as the map encoding demands.
#[derive(Debug, PartialEq, Eq)]
pub struct HandlerSpecs(Vec<(u32, HandlerSpec)>);

impl HandlerSpecs {
    /// The entries as (code, handler code) pairs, in key order.
    pub closed spec fn view(&self) -> Seq<(u32, u16)> {
        self.0@.map_values(|p: (u32, HandlerSpec)| (p.0, p.1@))
    }

    /// An empty table.
    pub fn empty() -> (r: HandlerSpecs)
        ensures
            r@ == Seq::<(u32, u16)>::empty(),
    {
        let r = HandlerSpecs(Vec::new());
        proof {
            assert(r@ =~= Seq::<(u32, u16)>::empty());
        }
        r
    }

    /// Append an entry whose key exceeds every present key.
    pub fn push_entry(&mut self, code: u32, spec_code: u16)
        requires
            forall|i: int| 0 <= i < old(self)@.len() ==> #[trigger] old(self)@[i].0 < code,
        ensures
            final(self)@ == old(self)@.push((code, spec_code)),
    {
        self.0.push((code, HandlerSpec(spec_code)));
        proof {
            assert(self@ =~= old(self)@.push((code, spec_code)));
        }
    }

    /// How many entries the table holds.
    pub fn len(&self) -> (r: usize)
        ensures
            r == self@.len(),
    {
        self.0.len()
    }

    /// The entry at `i`.
    pub fn entry_at(&self, i: usize) -> (r: (u32, u16))
        requires
            i < self@.len(),
        ensures
            r == self@[i as int],
    {
        let p = self.0[i];
        (p.0, p.1.code())
    }

    /// The handler tables this endpoint accepts inbound.
    pub fn default_ins() -> (r: HandlerSpecs)
        ensures
            r@ == default_ins_entries(),
            spec_keys_ascending(r@),
    {
        let mut bm = HandlerSpecs::empty();
        bm.push_entry(0x04, 0x05);
        bm.push_entry(0x05, 0x04);
        bm.push_entry(0x06, 0x07);
        bm.push_entry(0x22, 0x5e);
        bm.push_entry(0x25, 0x5e);
        bm.push_entry(0x2b, 0x5d);
        bm.push_entry(0x31, 0x5c);
        bm.push_entry(0x37, 0x62);
        bm.push_entry(0x3d, 0x61);
        bm.push_entry(0x43, 0x60);
        bm.push_entry(0x49, 0x5f);
        bm.push_entry(0x53, 0x00);
        bm.push_entry(0x5c, 0x31);
        bm.push_entry(0x5d, 0x2b);
        bm.push_entry(0x5e, 0x25);
        bm.push_entry(0x5f, 0x49);
        bm.push_entry(0x60, 0x43);
        bm.push_entry(0x61, 0x3d);
        bm.push_entry(0x62, 0x37);
        proof {
            assert(bm@ =~= default_ins_entries());
        }
        bm
    }

    /// The handler tables this endpoint sends outbound.
    pub fn default_outs() -> (r: HandlerSpecs)
        ensures
            r@ == default_outs_entries(),
            spec_keys_ascending(r@),
    {
        let mut bm = HandlerSpecs::empty();
        bm.push_entry(0x04, 0x05);
        bm.push_entry(0x05, 0x04);
        bm.push_entry(0x06, 0x07);
        bm.push_entry(0x0d, 0x00);
        bm.push_entry(0x0e, 0x00);
        bm.push_entry(0x25, 0x5e);
        bm.push_entry(0x2b, 0x5d);
        bm.push_entry(0x31, 0x5c);
        bm.push_entry(0x37, 0x62);
        bm.push_entry(0x3d, 0x61);
        bm.push_entry(0x43, 0x60);
        bm.push_entry(0x49, 0x5f);
        bm.push_entry(0x53, 0x00);
        proof {
            assert(bm@ =~= default_outs_entries());
        }
        bm
    }
}

/// The fixed inbound handler table.
pub open spec fn default_ins_entries() -> Seq<(u32, u16)> {
    seq![
        (0x04u32, 0x05u16),
        (0x05u32, 0x04u16),
        (0x06u32, 0x07u16),
        (0x22u32, 0x5eu16),
        (0x25u32, 0x5eu16),
        (0x2bu32, 0x5du16),
        (0x31u32, 0x5cu16),
        (0x37u32, 0x62u16),
        (0x3du32, 0x61u16),
        (0x43u32, 0x60u16),
        (0x49u32, 0x5fu16),
        (0x53u32, 0x00u16),
        (0x5cu32, 0x31u16),
        (0x5du32, 0x2bu16),
        (0x5eu32, 0x25u16),
        (0x5fu32, 0x49u16),
        (0x60u32, 0x43u16),
        (0x61u32, 0x3du16),
        (0x62u32, 0x37u16),
    ]
}

/// The fixed outbound handler table.
pub open spec fn default_outs_entries() -> Seq<(u32, u16)> {
    seq![
        (0x04u32, 0x05u16),
        (0x05u32, 0x04u16),
        (0x06u32, 0x07u16),
        (0x0du32, 0x00u16),
        (0x0eu32, 0x00u16),
        (0x25u32, 0x5eu16),
        (0x2bu32, 0x5du16),
        (0x31u32, 0x5cu16),
        (0x37u32, 0x62u16),
        (0x3du32, 0x61u16),
        (0x43u32, 0x60u16),
        (0x49u32, 0x5fu16),
        (0x53u32, 0x00u16),
    ]
}

/// The record both endpoints exchange when a session opens: the
/// network magic, the protocol version, and the two handler tables.
#[derive(Debug, PartialEq, Eq)]
pub struct Handshake {
    pub protocol_magic: ProtocolMagic,
    pub version: Version,
    pub in_handlers: HandlerSpecs,
    pub out_handlers: HandlerSpecs,
}

impl Handshake {
    /// Assemble a handshake record.
    pub fn new(pm: ProtocolMagic, v: Version, ins: HandlerSpecs, outs: HandlerSpecs) -> (r: Handshake)
        ensures
            r.protocol_magic == pm && r.version == v && r.in_handlers@ == ins@ && r.out_handlers@
                == outs@,
    {
        Handshake { protocol_magic: pm, version: v, in_handlers: ins, out_handlers: outs }
    }
}

impl Default for Handshake {
    /// The record this client sends: default magic and version, and
    /// the fixed handler tables.
    fn default() -> (r: Handshake)
        ensures
            r.protocol_magic.0 == 764824073,
            r.version == (Version { major: 0u32, minor: 1u32, revision: 0u32 }),
            r.in_handlers@ == default_ins_entries(),
            r.out_handlers@ == default_outs_entries(),
            handshake_wf(r),
    {
        Handshake::new(
            ProtocolMagic::default(),
            Version::default(),
            HandlerSpecs::default_ins(),
            HandlerSpecs::default_outs(),
        )
    }
}

/// A handshake record fit for encoding: both handler tables keep
/// their keys strictly ascending.
pub open spec fn handshake_wf(h: Handshake) -> bool {
    spec_keys_ascending(h.in_handlers@) && spec_keys_ascending(h.out_handlers@)
}

/// The encoded form of the protocol version.
pub open spec fn serialize_version(v: Version) -> Seq<u8> {
    seq![0x83u8] + serialize_uint(v.major as u64) + serialize_uint(v.minor as u64) + serialize_uint(
        v.revision as u64,
    )
}

/// The encoded form of the whole handshake record.
pub open spec fn serialize_handshake(h: Handshake) -> Seq<u8> {
    seq![0x84u8] + serialize_uint(h.protocol_magic.0 as u64) + serialize_version(h.version)
        + len_header_bytes(5, h.in_handlers@.len() as u64) + serialize_spec_pairs(h.in_handlers@)
        + len_header_bytes(5, h.out_handlers@.len() as u64) + serialize_spec_pairs(h.out_handlers@)
}

/// Serializing one more handler table entry appends its bytes.
pub proof fn lemma_spec_pairs_snoc(s: Seq<(u32, u16)>, k: u32, c: u16)
    ensures
        serialize_spec_pairs(s.push((k, c))) == serialize_spec_pairs(s) + serialize_uint(k as u64)
            + serialize_handler_spec(c),
    decreases s.len(),
{
    let p = s.push((k, c));
    assert(p.len() == s.len() + 1);
    if s.len() == 0 {
        reveal_with_fuel(serialize_spec_pairs, 2);
        assert(p[0] == (k, c));
        assert(p.drop_first() =~= Seq::<(u32, u16)>::empty());
        assert(serialize_spec_pairs(s.push((k, c))) =~= serialize_spec_pairs(s) + serialize_uint(
            k as u64,
        ) + serialize_handler_spec(c));
    } else {
        assert(p[0] == s[0]);
        assert(p.drop_first() =~= s.drop_first().push((k, c)));
        lemma_spec_pairs_snoc(s.drop_first(), k, c);
        assert(serialize_spec_pairs(s.push((k, c))) =~= serialize_spec_pairs(s) + serialize_uint(
            k as u64,
        ) + serialize_handler_spec(c));
    }
}

/// Append the canonical encoding of the unsigned integer `n`.
fn encode_uint(n: u64, buf: &mut Vec<u8>)
    ensures
        final(buf)@ == old(buf)@ + serialize_uint(n),
{
    encode_header(0, n, buf);
}

/// Append the encoding of one handler spec.
fn encode_handler_spec(c: u16, buf: &mut Vec<u8>)
    ensures
        final(buf)@ == old(buf)@ + serialize_handler_spec(c),
{
    buf.push(0x82);
    buf.push(0x00);
    buf.push(0xd8);
    buf.push(0x18);
    let mut inner: Vec<u8> = Vec::new();
    encode_uint(c as u64, &mut inner);
    encode_header(2, inner.len() as u64, buf);
    push_all(buf, inner.as_slice());
    proof {
        assert(buf@ =~= old(buf)@ + serialize_handler_spec(c));
    }
}

/// Append the encoding of a handler table's entries, in order.
fn encode_spec_pairs(hs: &HandlerSpecs, buf: &mut Vec<u8>)
    ensures
        final(buf)@ == old(buf)@ + serialize_spec_pairs(hs@),
{
    let n = hs.len();
    let mut i: usize = 0;
    while i < n
        invariant
            i <= n,
            n == hs@.len(),
            buf@ == old(buf)@ + serialize_spec_pairs(hs@.take(i as int)),
        decreases n - i,
    {
        let (k, c) = hs.entry_at(i);
        encode_uint(k as u64, buf);
        encode_handler_spec(c, buf);
        proof {
            lemma_spec_pairs_snoc(hs@.take(i as int), k, c);
            assert(hs@.take(i + 1) =~= hs@.take(i as int).push(hs@[i as int]));
        }
        i = i + 1;
    }
    assert(hs@.take(hs@.len() as int) =~= hs@);
}

/// Encode a handshake record for sending: exactly its canonical
/// bytes.
pub fn send_handshake(hs: &Handshake) -> (r: Vec<u8>)
    ensures
        r@ == serialize_handshake(*hs),
{
    let mut buf: Vec<u8> = Vec::new();
    buf.push(0x84);
    encode_uint(hs.protocol_magic.0 as u64, &mut buf);
    buf.push(0x83);
    encode_uint(hs.version.major as u64, &mut buf);
    encode_uint(hs.version.minor as u64, &mut buf);
    encode_uint(hs.version.revision as u64, &mut buf);
    encode_header(5, hs.in_handlers.len() as u64, &mut buf);
    encode_spec_pairs(&hs.in_handlers, &mut buf);
    encode_header(5, hs.out_handlers.len() as u64, &mut buf);
    encode_spec_pairs(&hs.out_handlers, &mut buf);
    proof {
        assert(buf@ =~= serialize_handshake(*hs));
    }
    buf
}

/// The second chunk of a concatenation placed in `s` begins where the
/// first ends.
pub proof fn lemma_split_at(s: Seq<u8>, pos: int, a: Seq<u8>, b: Seq<u8>)
    requires
        0 <= pos,
        pos + a.len() + b.len() <= s.len(),
        s.subrange(pos, pos + a.len() + b.len()) == a + b,
    ensures
        s.subrange(pos, pos + a.len()) == a,
        s.subrange(pos + a.len(), pos + a.len() + b.len()) == b,
{
    let whole = s.subrange(pos, pos + a.len() + b.len());
    assert forall|k: int| 0 <= k < a.len() implies s.subrange(pos, pos + a.len())[k] == a[k] by {
        assert(whole[k] == (a + b)[k]);
    }
    assert(s.subrange(pos, pos + a.len()) =~= a);
    assert forall|k: int|
        0 <= k < b.len() implies s.subrange(pos + a.len(), pos + a.len() + b.len())[k] == b[k] by {
        assert(whole[a.len() + k] == (a + b)[a.len() + k]);
    }
    assert(s.subrange(pos + a.len(), pos + a.len() + b.len()) =~= b);
}

/// `s` holds at `pos` the canonical encoding of the unsigned integer
/// `n`.
pub open spec fn uint_at(s: Seq<u8>, pos: int, n: u64) -> bool {
    header_at(s, pos, 0, n)
}

/// Read back one canonical unsigned integer.
fn decode_uint(s: &Vec<u8>, pos: usize) -> (r: Result<(u64, usize), Error>)
    requires
        pos <= s@.len(),
    ensures
        r matches Ok(p) ==> pos < p.1 <= s@.len() && serialize_uint(p.0) == s@.subrange(
            pos as int,
            p.1 as int,
        ),
        forall|n: u64|
            uint_at(s@, pos as int, n) ==> r == Ok::<(u64, usize), Error>(
                (n, (pos + serialize_uint(n).len()) as usize),
            ),
{
    let (major, n, end) = match decode_header(s, pos) {
        Ok(h) => h,
        Err(e) => {
            return Err(e);
        },
    };
    if major != 0 {
        return Err(Error::DecodeError);
    }
    Ok((n, end))
}

/// `s` holds at `pos` the encoding of one handler spec with code `c`.
pub open spec fn handler_spec_at(s: Seq<u8>, pos: int, c: u16) -> bool {
    0 <= pos && pos + serialize_handler_spec(c).len() <= s.len() && s.subrange(
        pos,
        pos + serialize_handler_spec(c).len(),
    ) == serialize_handler_spec(c)
}

/// Read back one handler spec.
fn decode_handler_spec(s: &Vec<u8>, pos: usize) -> (r: Result<(u16, usize), Error>)
    requires
        pos <= s@.len(),
    ensures
        r matches Ok(p) ==> pos < p.1 <= s@.len() && serialize_handler_spec(p.0) == s@.subrange(
            pos as int,
            p.1 as int,
        ),
        forall|c: u16|
            handler_spec_at(s@, pos as int, c) ==> r == Ok::<(u16, usize), Error>(
                (c, (pos + serialize_handler_spec(c).len()) as usize),
            ),
{
    proof {
        assert forall|c: u16| handler_spec_at(s@, pos as int, c) implies s@.len() - pos >= 4
            && s@[pos as int] == 0x82 && s@[pos + 1] == 0x00 && s@[pos + 2] == 0xd8
            && s@[pos + 3] == 0x18
            && header_at(s@, pos + 4, 2, serialize_uint(c as u64).len() as u64)
            && uint_at(s@, pos + 5, c as u64) by {
            let body = serialize_handler_spec(c);
            let ulen = serialize_uint(c as u64).len() as int;
            assert(ulen == 1 || ulen == 2 || ulen == 3);
            assert forall|k: int| 0 <= k < body.len() implies s@[pos + k] == body[k] by {
                assert(s@.subrange(pos as int, pos + body.len())[k] == body[k]);
            }
            assert(s@[pos + 0] == body[0] && body[0] == 0x82);
            assert(s@[pos + 1] == body[1] && body[1] == 0x00);
            assert(s@[pos + 2] == body[2] && body[2] == 0xd8);
            assert(s@[pos + 3] == body[3] && body[3] == 0x18);
            assert(len_header_bytes(2, ulen as u64) =~= seq![(0x40 + ulen) as u8]);
            assert(s@[pos + 4] == body[4] && body[4] == len_header_bytes(2, ulen as u64)[0]);
            assert(s@.subrange(pos + 4, pos + 5) =~= len_header_bytes(2, ulen as u64));
            assert forall|j: int|
                0 <= j < ulen implies s@[pos + 5 + j] == #[trigger] serialize_uint(c as u64)[j] by {
                assert(s@[pos + 5 + j] == body[5 + j]);
                assert(body[5 + j] == serialize_uint(c as u64)[j]);
            }
            assert(s@.subrange(pos + 5, pos + 5 + ulen) =~= serialize_uint(c as u64));
        }
    }
    if s.len() - pos < 4 {
        return Err(Error::DecodeError);
    }
    if s[pos] != 0x82 || s[pos + 1] != 0x00 || s[pos + 2] != 0xd8 || s[pos + 3] != 0x18 {
        return Err(Error::DecodeError);
    }
    let (bmajor, blen, bstart) = match decode_header(s, pos + 4) {
        Ok(h) => h,
        Err(e) => {
            return Err(e);
        },
    };
    if bmajor != 2 {
        return Err(Error::DecodeError);
    }
    let (cv, uend) = match decode_uint(s, bstart) {
        Ok(p) => p,
        Err(e) => {
            return Err(e);
        },
    };
    if cv > 0xffff {
        return Err(Error::DecodeError);
    }
    if (uend - bstart) as u64 != blen {
        return Err(Error::DecodeError);
    }
    let c = cv as u16;
    proof {
        assert(serialize_handler_spec(c) =~= s@.subrange(pos as int, uend as int));
    }
    Ok((c, uend))
}

/// `s` holds at `pos` the encoding of the handler table `es`, whose
/// keys ascend and (when `prev` names a bound) stay above it.
pub open spec fn spec_entries_at(s: Seq<u8>, pos: int, es: Seq<(u32, u16)>, prev: Option<u32>) -> bool {
    &&& spec_keys_ascending(es)
    &&& (prev matches Some(p) ==> (es.len() > 0 ==> es[0].0 > p))
    &&& 0 <= pos
    &&& pos + serialize_spec_pairs(es).len() <= s.len()
    &&& s.subrange(pos, pos + serialize_spec_pairs(es).len()) == serialize_spec_pairs(es)
}

/// Read back `count` handler table entries, demanding strictly
/// ascending keys (above `prev`, where given).
#[verifier::rlimit(60)]
fn decode_spec_entries(s: &Vec<u8>, pos: usize, count: u64, prev: Option<u32>) -> (r: Result<
    (HandlerSpecs, usize),
    Error,
>)
    requires
        pos <= s@.len(),
    ensures
        r matches Ok(p) ==> pos <= p.1 <= s@.len() && p.0@.len() == count && spec_keys_ascending(
            p.0@,
        ) && serialize_spec_pairs(p.0@) == s@.subrange(pos as int, p.1 as int) && (prev matches Some(
        pk) ==> (p.0@.len() > 0 ==> p.0@[0].0 > pk)),
        forall|es: Seq<(u32, u16)>|
            es.len() == count && spec_entries_at(s@, pos as int, es, prev) ==> (r matches Ok(p)
                && p.0@ == es && p.1 == pos + serialize_spec_pairs(es).len()),
    decreases count,
{
    if count == 0 {
        let r = (HandlerSpecs::empty(), pos);
        proof {
            assert(serialize_spec_pairs(r.0@) =~= s@.subrange(pos as int, pos as int));
            assert forall|es: Seq<(u32, u16)>|
                es.len() == 0 && spec_entries_at(s@, pos as int, es, prev) implies r.0@ == es by {
                assert(r.0@ =~= es);
            }
        }
        return Ok(r);
    }
    proof {
        assert forall|es: Seq<(u32, u16)>|
            es.len() == count && spec_entries_at(s@, pos as int, es, prev) implies uint_at(
            s@,
            pos as int,
            es[0].0 as u64,
        ) && handler_spec_at(
            s@,
            pos + serialize_uint(es[0].0 as u64).len(),
            es[0].1,
        ) by {
            let a = serialize_uint(es[0].0 as u64);
            let b = serialize_handler_spec(es[0].1);
            let rest = serialize_spec_pairs(es.drop_first());
            assert(serialize_spec_pairs(es) == a + b + rest);
            assert(a + b + rest =~= a + (b + rest));
            lemma_split_at(s@, pos as int, a, b + rest);
            lemma_split_at(s@, pos + a.len(), b, rest);
        }
    }
    let (k64, kend) = match decode_uint(s, pos) {
        Ok(p) => p,
        Err(e) => {
            return Err(e);
        },
    };
    if k64 > 0xffffffff {
        return Err(Error::DecodeError);
    }
    let k = k64 as u32;
    match prev {
        Some(p) => {
            if k <= p {
                return Err(Error::DecodeError);
            }
        },
        None => {},
    }
    let (c, hend) = match decode_handler_spec(s, kend) {
        Ok(p) => p,
        Err(e) => {
            return Err(e);
        },
    };
    proof {
        assert forall|es: Seq<(u32, u16)>|
            es.len() == count && spec_entries_at(s@, pos as int, es, prev) implies spec_entries_at(
            s@,
            hend as int,
            es.drop_first(),
            Some(es[0].0),
        ) && es.drop_first().len() == count - 1 by {
            let a = serialize_uint(es[0].0 as u64);
            let b = serialize_handler_spec(es[0].1);
            let rest = serialize_spec_pairs(es.drop_first());
            assert(serialize_spec_pairs(es) == a + b + rest);
            assert(a + b + rest =~= a + (b + rest));
            lemma_split_at(s@, pos as int, a, b + rest);
            lemma_split_at(s@, pos + a.len(), b, rest);
            assert(spec_keys_ascending(es.drop_first()));
            assert(es.drop_first().len() > 0 ==> es.drop_first()[0].0 > es[0].0);
        }
    }
    let (rest, end) = match decode_spec_entries(s, hend, count - 1, Some(k)) {
        Ok(p) => p,
        Err(e) => {
            return Err(e);
        },
    };
    let mut out = rest;
    out.insert_front(k, HandlerSpec(c));
    proof {
        assert(out@ =~= seq![(k, c)] + rest@);
        assert(serialize_spec_pairs(out@) =~= s@.subrange(pos as int, end as int)) by {
            assert(out@.drop_first() =~= rest@);
            assert(s@.subrange(pos as int, end as int) =~= s@.subrange(pos as int, kend as int)
                + s@.subrange(kend as int, hend as int) + s@.subrange(hend as int, end as int));
        }
        assert(spec_keys_ascending(out@)) by {
            assert forall|i: int, j: int| 0 <= i < j < out@.len() implies out@[i].0 < out@[j].0 by {
                if i == 0 {
                    if j > 1 {
                        assert(rest@[0].0 < rest@[j - 1].0);
                    }
                } else {
                    assert(rest@[i - 1].0 < rest@[j - 1].0);
                }
            }
        }
        assert forall|es: Seq<(u32, u16)>|
            es.len() == count && spec_entries_at(s@, pos as int, es, prev) implies out@ == es
                && end == pos + serialize_spec_pairs(es).len() by {
            let a = serialize_uint(es[0].0 as u64);
            let b = serialize_handler_spec(es[0].1);
            let restb = serialize_spec_pairs(es.drop_first());
            assert(serialize_spec_pairs(es) == a + b + restb);
            assert(a + b + restb =~= a + (b + restb));
            lemma_split_at(s@, pos as int, a, b + restb);
            lemma_split_at(s@, pos + a.len(), b, restb);
            assert(rest@ == es.drop_first());
            assert(out@ =~= es);
        }
    }
    Ok((out, end))
}

impl HandlerSpecs {
    /// Put an entry in front of every present one; its key must sit
    /// below them all.
    fn insert_front(&mut self, code: u32, hs: HandlerSpec)
        ensures
            final(self)@ == seq![(code, hs@)] + old(self)@,
    {
        self.0.insert(0, (code, hs));
        proof {
            assert(self@ =~= seq![(code, hs@)] + old(self)@);
        }
    }
}


/// `s` holds at `pos` the encoding of the version `v`.
pub open spec fn version_at(s: Seq<u8>, pos: int, v: Version) -> bool {
    0 <= pos && pos + serialize_version(v).len() <= s.len() && s.subrange(
        pos,
        pos + serialize_version(v).len(),
    ) == serialize_version(v)
}

/// Slice a version encoding at `pos` into its four pieces.
proof fn lemma_version_pieces(s: Seq<u8>, pos: int, v: Version)
    requires
        version_at(s, pos, v),
    ensures
        ({
            let v1 = serialize_uint(v.major as u64);
            let v2 = serialize_uint(v.minor as u64);
            let v3 = serialize_uint(v.revision as u64);
            &&& header_at(s, pos, 4, 3)
            &&& uint_at(s, pos + 1, v.major as u64)
            &&& uint_at(s, pos + 1 + v1.len(), v.minor as u64)
            &&& uint_at(s, pos + 1 + v1.len() + v2.len(), v.revision as u64)
            &&& pos + 1 + v1.len() + v2.len() + v3.len() == pos + serialize_version(v).len()
        }),
{
    let v1 = serialize_uint(v.major as u64);
    let v2 = serialize_uint(v.minor as u64);
    let v3 = serialize_uint(v.revision as u64);
    assert(serialize_version(v) =~= seq![0x83u8] + (v1 + (v2 + v3)));
    lemma_split_at(s, pos, seq![0x83u8], v1 + (v2 + v3));
    lemma_split_at(s, pos + 1, v1, v2 + v3);
    lemma_split_at(s, pos + 1 + v1.len(), v2, v3);
    assert(seq![0x83u8] =~= len_header_bytes(4, 3));
}

/// Read back a protocol version; an encoded version at `pos` always
/// decodes to itself.
#[verifier::rlimit(100)]
#[verifier::spinoff_prover]
fn decode_version(s: &Vec<u8>, pos: usize) -> (r: Result<(Version, usize), Error>)
    requires
        pos <= s@.len(),
    ensures
        r matches Ok(p) ==> pos < p.1 <= s@.len() && serialize_version(p.0) == s@.subrange(
            pos as int,
            p.1 as int,
        ),
        forall|v: Version|
            version_at(s@, pos as int, v) ==> r == Ok::<(Version, usize), Error>(
                (v, (pos + serialize_version(v).len()) as usize),
            ),
{
    let r0 = decode_header(s, pos);
    let (m0, n0, p1) = match r0 {
        Ok(t) => t,
        Err(e) => {
            proof {
                assert forall|v: Version| !version_at(s@, pos as int, v) by {
                    if version_at(s@, pos as int, v) {
                        lemma_version_pieces(s@, pos as int, v);
                    }
                }
            }
            return Err(e);
        },
    };
    if m0 != 4 || n0 != 3 {
        proof {
            assert forall|v: Version| !version_at(s@, pos as int, v) by {
                if version_at(s@, pos as int, v) {
                    lemma_version_pieces(s@, pos as int, v);
                }
            }
        }
        return Err(Error::DecodeError);
    }
    let r1 = decode_uint(s, p1);
    let (vmaj, p2) = match r1 {
        Ok(t) => t,
        Err(e) => {
            proof {
                assert forall|v: Version| !version_at(s@, pos as int, v) by {
                    if version_at(s@, pos as int, v) {
                        lemma_version_pieces(s@, pos as int, v);
                        assert(p1 == pos + 1);
                    }
                }
            }
            return Err(e);
        },
    };
    let r2 = decode_uint(s, p2);
    let (vmin, p3) = match r2 {
        Ok(t) => t,
        Err(e) => {
            proof {
                assert forall|v: Version| !version_at(s@, pos as int, v) by {
                    if version_at(s@, pos as int, v) {
                        lemma_version_pieces(s@, pos as int, v);
                        assert(p1 == pos + 1);
                        assert(p2 == p1 + serialize_uint(v.major as u64).len());
                    }
                }
            }
            return Err(e);
        },
    };
    let r3 = decode_uint(s, p3);
    let (vrev, p4) = match r3 {
        Ok(t) => t,
        Err(e) => {
            proof {
                assert forall|v: Version| !version_at(s@, pos as int, v) by {
                    if version_at(s@, pos as int, v) {
                        lemma_version_pieces(s@, pos as int, v);
                        assert(p1 == pos + 1);
                        assert(p2 == p1 + serialize_uint(v.major as u64).len());
                        assert(p3 == p2 + serialize_uint(v.minor as u64).len());
                    }
                }
            }
            return Err(e);
        },
    };
    if vmaj > 0xffffffff || vmin > 0xffffffff || vrev > 0xffffffff {
        proof {
            assert forall|v: Version| !version_at(s@, pos as int, v) by {
                if version_at(s@, pos as int, v) {
                    lemma_version_pieces(s@, pos as int, v);
                    assert(p1 == pos + 1);
                    assert(vmaj == v.major as u64);
                    assert(p2 == p1 + serialize_uint(v.major as u64).len());
                    assert(vmin == v.minor as u64);
                    assert(p3 == p2 + serialize_uint(v.minor as u64).len());
                    assert(vrev == v.revision as u64);
                }
            }
        }
        return Err(Error::DecodeError);
    }
    let out = Version::new(vmaj as u32, vmin as u32, vrev as u32);
    proof {
        assert(serialize_version(out) =~= s@.subrange(pos as int, p4 as int));
        assert forall|v: Version| version_at(s@, pos as int, v) implies Ok::<
            (Version, usize),
            Error,
        >((out, p4)) == Ok::<(Version, usize), Error>(
            (v, (pos + serialize_version(v).len()) as usize),
        ) by {
            lemma_version_pieces(s@, pos as int, v);
            assert(p1 == pos + 1);
            assert(vmaj == v.major as u64);
            assert(p2 == p1 + serialize_uint(v.major as u64).len());
            assert(vmin == v.minor as u64);
            assert(p3 == p2 + serialize_uint(v.minor as u64).len());
            assert(vrev == v.revision as u64);
            assert(p4 == p3 + serialize_uint(v.revision as u64).len());
            assert(out == v);
        }
    }
    Ok((out, p4))
}



/// Every handler table entry takes at least seven bytes on the wire.
pub proof fn lemma_spec_pairs_len(s: Seq<(u32, u16)>)
    ensures
        serialize_spec_pairs(s).len() >= 7 * s.len(),
    decreases s.len(),
{
    if s.len() > 0 {
        lemma_spec_pairs_len(s.drop_first());
    }
}

/// The two handler tables as encoded inside the handshake record.
pub open spec fn serialize_tables(ins: Seq<(u32, u16)>, outs: Seq<(u32, u16)>) -> Seq<u8> {
    len_header_bytes(5, ins.len() as u64) + serialize_spec_pairs(ins) + len_header_bytes(
        5,
        outs.len() as u64,
    ) + serialize_spec_pairs(outs)
}

/// `s` holds at `pos` the encoding of the two handler tables.
pub open spec fn tables_at(s: Seq<u8>, pos: int, ins: Seq<(u32, u16)>, outs: Seq<(u32, u16)>) -> bool {
    &&& spec_keys_ascending(ins)
    &&& spec_keys_ascending(outs)
    &&& 0 <= pos
    &&& pos + serialize_tables(ins, outs).len() <= s.len()
    &&& s.subrange(pos, pos + serialize_tables(ins, outs).len()) == serialize_tables(ins, outs)
}

/// Slice a tables encoding at `pos` into its four pieces.
proof fn lemma_tables_pieces(s: Seq<u8>, pos: int, ins: Seq<(u32, u16)>, outs: Seq<(u32, u16)>)
    requires
        tables_at(s, pos, ins, outs),
    ensures
        ({
            let c1 = len_header_bytes(5, ins.len() as u64);
            let c2 = serialize_spec_pairs(ins);
            let c3 = len_header_bytes(5, outs.len() as u64);
            let c4 = serialize_spec_pairs(outs);
            &&& header_at(s, pos, 5, ins.len() as u64)
            &&& spec_entries_at(s, pos + c1.len(), ins, None)
            &&& header_at(s, pos + c1.len() + c2.len(), 5, outs.len() as u64)
            &&& spec_entries_at(s, pos + c1.len() + c2.len() + c3.len(), outs, None)
            &&& pos + c1.len() + c2.len() + c3.len() + c4.len() == pos + serialize_tables(
                ins,
                outs,
            ).len()
        }),
{
    let c1 = len_header_bytes(5, ins.len() as u64);
    let c2 = serialize_spec_pairs(ins);
    let c3 = len_header_bytes(5, outs.len() as u64);
    let c4 = serialize_spec_pairs(outs);
    assert(serialize_tables(ins, outs) =~= c1 + (c2 + (c3 + c4)));
    lemma_split_at(s, pos, c1, c2 + (c3 + c4));
    lemma_split_at(s, pos + c1.len(), c2, c3 + c4);
    lemma_split_at(s, pos + c1.len() + c2.len(), c3, c4);
}

/// Read back the two handler tables; encoded tables at `pos` always
/// decode to themselves.
#[verifier::rlimit(100)]
#[verifier::spinoff_prover]
fn decode_tables(s: &Vec<u8>, pos: usize) -> (r: Result<(HandlerSpecs, HandlerSpecs, usize), Error>)
    requires
        pos <= s@.len(),
    ensures
        r matches Ok(p) ==> pos <= p.2 <= s@.len() && spec_keys_ascending(p.0@)
            && spec_keys_ascending(p.1@) && serialize_tables(p.0@, p.1@) == s@.subrange(
            pos as int,
            p.2 as int,
        ),
        forall|i2: Seq<(u32, u16)>, o2: Seq<(u32, u16)>|
            tables_at(s@, pos as int, i2, o2) ==> (r matches Ok(p) && p.0@ == i2 && p.1@ == o2
                && p.2 == pos + serialize_tables(i2, o2).len()),
{
    let slen: usize = s.len();
    let r0 = decode_header(s, pos);
    let (m0, incnt, p1) = match r0 {
        Ok(t) => t,
        Err(e) => {
            proof {
                assert forall|i2: Seq<(u32, u16)>, o2: Seq<(u32, u16)>| !tables_at(
                    s@,
                    pos as int,
                    i2,
                    o2,
                ) by {
                    if tables_at(s@, pos as int, i2, o2) {
                        lemma_tables_pieces(s@, pos as int, i2, o2);
                        lemma_spec_pairs_len(i2);
                        lemma_spec_pairs_len(o2);
                    }
                }
            }
            return Err(e);
        },
    };
    if m0 != 5 {
        proof {
            assert forall|i2: Seq<(u32, u16)>, o2: Seq<(u32, u16)>| !tables_at(
                s@,
                pos as int,
                i2,
                o2,
            ) by {
                if tables_at(s@, pos as int, i2, o2) {
                    lemma_tables_pieces(s@, pos as int, i2, o2);
                    lemma_spec_pairs_len(i2);
                    lemma_spec_pairs_len(o2);
                }
            }
        }
        return Err(Error::DecodeError);
    }
    let r1 = decode_spec_entries(s, p1, incnt, None);
    let (ins, p2) = match r1 {
        Ok(t) => t,
        Err(e) => {
            proof {
                assert forall|i2: Seq<(u32, u16)>, o2: Seq<(u32, u16)>| !tables_at(
                    s@,
                    pos as int,
                    i2,
                    o2,
                ) by {
                    if tables_at(s@, pos as int, i2, o2) {
                        lemma_tables_pieces(s@, pos as int, i2, o2);
                        lemma_spec_pairs_len(i2);
                        lemma_spec_pairs_len(o2);
                        assert(incnt == i2.len() && p1 == pos + len_header_bytes(
                            5,
                            i2.len() as u64,
                        ).len());
                    }
                }
            }
            return Err(e);
        },
    };
    let r2 = decode_header(s, p2);
    let (m1, outcnt, p3) = match r2 {
        Ok(t) => t,
        Err(e) => {
            proof {
                assert forall|i2: Seq<(u32, u16)>, o2: Seq<(u32, u16)>| !tables_at(
                    s@,
                    pos as int,
                    i2,
                    o2,
                ) by {
                    if tables_at(s@, pos as int, i2, o2) {
                        lemma_tables_pieces(s@, pos as int, i2, o2);
                        lemma_spec_pairs_len(i2);
                        lemma_spec_pairs_len(o2);
                        assert(incnt == i2.len() && p1 == pos + len_header_bytes(
                            5,
                            i2.len() as u64,
                        ).len());
                        assert(ins@ == i2 && p2 == p1 + serialize_spec_pairs(i2).len());
                    }
                }
            }
            return Err(e);
        },
    };
    if m1 != 5 {
        proof {
            assert forall|i2: Seq<(u32, u16)>, o2: Seq<(u32, u16)>| !tables_at(
                s@,
                pos as int,
                i2,
                o2,
            ) by {
                if tables_at(s@, pos as int, i2, o2) {
                    lemma_tables_pieces(s@, pos as int, i2, o2);
                    lemma_spec_pairs_len(i2);
                    lemma_spec_pairs_len(o2);
                    assert(incnt == i2.len() && p1 == pos + len_header_bytes(
                        5,
                        i2.len() as u64,
                    ).len());
                    assert(ins@ == i2 && p2 == p1 + serialize_spec_pairs(i2).len());
                }
            }
        }
        return Err(Error::DecodeError);
    }
    let r3 = decode_spec_entries(s, p3, outcnt, None);
    let (outs, p4) = match r3 {
        Ok(t) => t,
        Err(e) => {
            proof {
                assert forall|i2: Seq<(u32, u16)>, o2: Seq<(u32, u16)>| !tables_at(
                    s@,
                    pos as int,
                    i2,
                    o2,
                ) by {
                    if tables_at(s@, pos as int, i2, o2) {
                        lemma_tables_pieces(s@, pos as int, i2, o2);
                        lemma_spec_pairs_len(i2);
                        lemma_spec_pairs_len(o2);
                        assert(incnt == i2.len() && p1 == pos + len_header_bytes(
                            5,
                            i2.len() as u64,
                        ).len());
                        assert(ins@ == i2 && p2 == p1 + serialize_spec_pairs(i2).len());
                        assert(outcnt == o2.len() && p3 == p2 + len_header_bytes(
                            5,
                            o2.len() as u64,
                        ).len());
                    }
                }
            }
            return Err(e);
        },
    };
    proof {
        assert(serialize_tables(ins@, outs@) =~= s@.subrange(pos as int, p4 as int));
        assert forall|i2: Seq<(u32, u16)>, o2: Seq<(u32, u16)>|
            tables_at(s@, pos as int, i2, o2) implies ins@ == i2 && outs@ == o2 && p4 == pos
            + serialize_tables(i2, o2).len() by {
            lemma_tables_pieces(s@, pos as int, i2, o2);
            lemma_spec_pairs_len(i2);
            lemma_spec_pairs_len(o2);
            assert(incnt == i2.len() && p1 == pos + len_header_bytes(5, i2.len() as u64).len());
            assert(ins@ == i2 && p2 == p1 + serialize_spec_pairs(i2).len());
            assert(outcnt == o2.len() && p3 == p2 + len_header_bytes(5, o2.len() as u64).len());
            assert(outs@ == o2 && p4 == p3 + serialize_spec_pairs(o2).len());
        }
    }
    Ok((ins, outs, p4))
}

/// `s` holds at `pos` the encoding of the handshake record `h`.
pub open spec fn handshake_at(s: Seq<u8>, pos: int, h: Handshake) -> bool {
    &&& handshake_wf(h)
    &&& 0 <= pos
    &&& pos + serialize_handshake(h).len() <= s.len()
    &&& s.subrange(pos, pos + serialize_handshake(h).len()) == serialize_handshake(h)
}

/// Read back a handshake record. Exactly the canonical encodings are
/// accepted, so together with `send_handshake` this is a round trip:
/// what is returned re-encodes to the consumed bytes, and an encoded
/// well-formed record at `pos` always decodes to itself.
#[verifier::rlimit(100)]
#[verifier::spinoff_prover]
pub fn decode_handshake(s: &Vec<u8>, pos: usize) -> (r: Result<(Handshake, usize), Error>)
    requires
        pos <= s@.len(),
    ensures
        r matches Ok(p) ==> pos < p.1 <= s@.len() && handshake_wf(p.0) && serialize_handshake(p.0)
            == s@.subrange(pos as int, p.1 as int),
        forall|h: Handshake|
            handshake_at(s@, pos as int, h) ==> (r matches Ok(p) && p.0.protocol_magic
                == h.protocol_magic && p.0.version == h.version && p.0.in_handlers@
                == h.in_handlers@ && p.0.out_handlers@ == h.out_handlers@ && p.1 == pos
                + serialize_handshake(h).len()),
{
    let r0 = decode_header(s, pos);
    let (m0, n0, p1) = match r0 {
        Ok(t) => t,
        Err(e) => {
            proof {
                assert forall|h: Handshake| !handshake_at(s@, pos as int, h) by {
                    if handshake_at(s@, pos as int, h) {
                        lemma_handshake_pieces(s@, pos as int, h);
                    }
                }
            }
            return Err(e);
        },
    };
    if m0 != 4 || n0 != 4 {
        proof {
            assert forall|h: Handshake| !handshake_at(s@, pos as int, h) by {
                if handshake_at(s@, pos as int, h) {
                    lemma_handshake_pieces(s@, pos as int, h);
                }
            }
        }
        return Err(Error::DecodeError);
    }
    let r1 = decode_uint(s, p1);
    let (pm64, p2) = match r1 {
        Ok(t) => t,
        Err(e) => {
            proof {
                assert forall|h: Handshake| !handshake_at(s@, pos as int, h) by {
                    if handshake_at(s@, pos as int, h) {
                        lemma_handshake_pieces(s@, pos as int, h);
                        assert(p1 == pos + 1);
                    }
                }
            }
            return Err(e);
        },
    };
    if pm64 > 0xffffffff {
        proof {
            assert forall|h: Handshake| !handshake_at(s@, pos as int, h) by {
                if handshake_at(s@, pos as int, h) {
                    lemma_handshake_pieces(s@, pos as int, h);
                    assert(p1 == pos + 1);
                    assert(pm64 == h.protocol_magic.0 as u64);
                }
            }
        }
        return Err(Error::DecodeError);
    }
    let rv = decode_version(s, p2);
    let (ver, p6) = match rv {
        Ok(t) => t,
        Err(e) => {
            proof {
                assert forall|h: Handshake| !handshake_at(s@, pos as int, h) by {
                    if handshake_at(s@, pos as int, h) {
                        lemma_handshake_pieces(s@, pos as int, h);
                        assert(p1 == pos + 1);
                        assert(p2 == p1 + serialize_uint(h.protocol_magic.0 as u64).len());
                    }
                }
            }
            return Err(e);
        },
    };
    let rt = decode_tables(s, p6);
    let (ins, outs, p10) = match rt {
        Ok(t) => t,
        Err(e) => {
            proof {
                assert forall|h: Handshake| !handshake_at(s@, pos as int, h) by {
                    if handshake_at(s@, pos as int, h) {
                        lemma_handshake_pieces(s@, pos as int, h);
                        assert(p1 == pos + 1);
                        assert(p2 == p1 + serialize_uint(h.protocol_magic.0 as u64).len());
                        assert(ver == h.version && p6 == p2 + serialize_version(h.version).len());
                    }
                }
            }
            return Err(e);
        },
    };
    let hs = Handshake::new(ProtocolMagic::new(pm64 as u32), ver, ins, outs);
    proof {
        let a1 = s@.subrange(pos as int, p1 as int);
        let a2 = s@.subrange(p1 as int, p2 as int);
        let a3 = s@.subrange(p2 as int, p6 as int);
        let a4 = s@.subrange(p6 as int, p10 as int);
        assert(s@.subrange(pos as int, p10 as int) =~= a1 + (a2 + (a3 + a4))) by {
            assert forall|t: int| 0 <= t < p10 - pos implies s@.subrange(pos as int, p10 as int)[t]
                == (a1 + (a2 + (a3 + a4)))[t] by {
                if t < p1 - pos {
                    assert(a1[t] == s@[pos + t]);
                } else if t < p2 - pos {
                    assert(a2[t - (p1 - pos)] == s@[pos + t]);
                } else if t < p6 - pos {
                    assert(a3[t - (p2 - pos)] == s@[pos + t]);
                } else {
                    assert(a4[t - (p6 - pos)] == s@[pos + t]);
                }
            }
        }
        assert(a1 == len_header_bytes(4, 4));
        assert(seq![0x84u8] =~= len_header_bytes(4, 4));
        assert((pm64 as u32) as u64 == pm64);
        assert(serialize_handshake(hs) =~= a1 + (a2 + (a3 + a4)));
        assert(serialize_handshake(hs) =~= s@.subrange(pos as int, p10 as int));
        assert forall|h: Handshake| handshake_at(s@, pos as int, h) implies hs.protocol_magic
            == h.protocol_magic && hs.version == h.version && hs.in_handlers@ == h.in_handlers@
            && hs.out_handlers@ == h.out_handlers@ && p10 == pos + serialize_handshake(h).len() by {
            lemma_handshake_pieces(s@, pos as int, h);
            assert(p1 == pos + 1);
            assert(pm64 == h.protocol_magic.0 as u64);
            assert(p2 == p1 + serialize_uint(h.protocol_magic.0 as u64).len());
            assert(ver == h.version && p6 == p2 + serialize_version(h.version).len());
            assert(ins@ == h.in_handlers@ && outs@ == h.out_handlers@ && p10 == p6
                + serialize_tables(h.in_handlers@, h.out_handlers@).len());
            assert((h.protocol_magic.0 as u64) as u32 == h.protocol_magic.0);
            assert(hs.protocol_magic == h.protocol_magic);
        }
    }
    Ok((hs, p10))
}

/// Slice the concatenation that `serialize_handshake` builds into its
/// seven pieces, each sitting at its own offset.
proof fn lemma_handshake_pieces(s: Seq<u8>, pos: int, h: Handshake)
    requires
        handshake_at(s, pos, h),
    ensures
        ({
            let c1 = seq![0x84u8];
            let c2 = serialize_uint(h.protocol_magic.0 as u64);
            let c3 = serialize_version(h.version);
            let c4 = len_header_bytes(5, h.in_handlers@.len() as u64);
            let c5 = serialize_spec_pairs(h.in_handlers@);
            let c6 = len_header_bytes(5, h.out_handlers@.len() as u64);
            let c7 = serialize_spec_pairs(h.out_handlers@);
            let q1 = pos + c1.len();
            let q2 = q1 + c2.len();
            let q3 = q2 + c3.len();
            let q4 = q3 + c4.len();
            let q5 = q4 + c5.len();
            let q6 = q5 + c6.len();
            let q7 = q6 + c7.len();
            &&& header_at(s, pos, 4, 4)
            &&& uint_at(s, q1, h.protocol_magic.0 as u64)
            &&& version_at(s, q2, h.version)
            &&& tables_at(s, q3, h.in_handlers@, h.out_handlers@)
            &&& q7 == pos + serialize_handshake(h).len()
        }),
{
    let c1 = seq![0x84u8];
    let c2 = serialize_uint(h.protocol_magic.0 as u64);
    let c3 = serialize_version(h.version);
    let c4 = len_header_bytes(5, h.in_handlers@.len() as u64);
    let c5 = serialize_spec_pairs(h.in_handlers@);
    let c6 = len_header_bytes(5, h.out_handlers@.len() as u64);
    let c7 = serialize_spec_pairs(h.out_handlers@);
    let q1 = pos + c1.len();
    let q2 = q1 + c2.len();
    let q3 = q2 + c3.len();
    let q4 = q3 + c4.len();
    let q5 = q4 + c5.len();
    let q6 = q5 + c6.len();
    let q7 = q6 + c7.len();
    assert(serialize_handshake(h) =~= c1 + (c2 + (c3 + (c4 + (c5 + (c6 + c7))))));
    lemma_split_at(s, pos, c1, c2 + (c3 + (c4 + (c5 + (c6 + c7)))));
    lemma_split_at(s, q1, c2, c3 + (c4 + (c5 + (c6 + c7))));
    lemma_split_at(s, q2, c3, c4 + (c5 + (c6 + c7)));
    lemma_split_at(s, q3, c4, c5 + (c6 + c7));
    lemma_split_at(s, q4, c5, c6 + c7);
    lemma_split_at(s, q5, c6, c7);
    assert(seq![0x84u8] =~= len_header_bytes(4, 4));
    assert(serialize_tables(h.in_handlers@, h.out_handlers@) =~= c4 + (c5 + (c6 + c7)));
    assert(s.subrange(q3, q7) =~= c4 + (c5 + (c6 + c7))) by {
        assert forall|t: int| 0 <= t < q7 - q3 implies s.subrange(q3, q7)[t] == (c4 + (c5 + (c6
            + c7)))[t] by {
            if t < c4.len() {
                assert(s.subrange(q3, q4)[t] == s[q3 + t]);
            } else if t < c4.len() + c5.len() {
                assert(s.subrange(q4, q5)[t - c4.len()] == s[q3 + t]);
            } else if t < c4.len() + c5.len() + c6.len() {
                assert(s.subrange(q5, q6)[t - c4.len() - c5.len()] == s[q3 + t]);
            } else {
                assert(s.subrange(q6, q7)[t - c4.len() - c5.len() - c6.len()] == s[q3 + t]);
            }
        }
    }
}

/// One message on a stream: its one-byte code, then its encoded
/// payload, sent as two data frames.
pub enum MsgType {
    MsgSubscribe,
    MsgGetHeaders,
    MsgGetBlocks,
}

impl MsgType {
    /// The message's one-byte wire code.
    pub fn to_u8(self) -> (r: u8)
        ensures
            r == (match self {
                MsgType::MsgSubscribe => 0x0eu8,
                MsgType::MsgGetHeaders => 0x04u8,
                MsgType::MsgGetBlocks => 0x06u8,
            }),
    {
        match self {
            MsgType::MsgSubscribe => 0xe,
            MsgType::MsgGetHeaders => 0x4,
            MsgType::MsgGetBlocks => 0x6,
        }
    }
}

/// The fixed nine bytes every new stream sends first: a syn node id
/// carrying the session nonce this client historically used.
pub fn send_hardcoded_blob_after_handshake() -> (r: Vec<u8>)
    ensures
        r@ == syn_node_id_bytes(0x78296ec5d45c9524),
{
    let mut v: Vec<u8> = Vec::new();
    v.push(0x53);
    v.push(0x78);
    v.push(0x29);
    v.push(0x6e);
    v.push(0xc5);
    v.push(0xd4);
    v.push(0x5c);
    v.push(0x95);
    v.push(0x24);
    proof {
        assert(((0x78296ec5d45c9524u64 >> 56) as u8) == 0x78 && ((0x78296ec5d45c9524u64 >> 48) as u8)
            == 0x29 && ((0x78296ec5d45c9524u64 >> 40) as u8) == 0x6e && ((0x78296ec5d45c9524u64
            >> 32) as u8) == 0xc5 && ((0x78296ec5d45c9524u64 >> 24) as u8) == 0xd4 && ((
        0x78296ec5d45c9524u64 >> 16) as u8) == 0x5c && ((0x78296ec5d45c9524u64 >> 8) as u8) == 0x95
            && (0x78296ec5d45c9524u64 as u8) == 0x24) by (bit_vector);
        assert(v@ =~= syn_node_id_bytes(0x78296ec5d45c9524));
    }
    v
}

/// The subscribe message: code then the keep-alive flag as 43, or 42
/// for an ephemeral subscription.
pub fn send_msg_subscribe(keep_alive: bool) -> (r: (u8, Vec<u8>))
    ensures
        r.0 == 0x0eu8,
        r.1@ == serialize_uint(if keep_alive {
            43u64
        } else {
            42u64
        }),
{
    let value: u64 = if keep_alive {
        43
    } else {
        42
    };
    let mut dat: Vec<u8> = Vec::new();
    encode_uint(value, &mut dat);
    (0xe, dat)
}

/// A hash as a 32-byte string in the tagged encoding.
pub open spec fn serialize_hash(h: Seq<u8>) -> Seq<u8>
    recommends
        h.len() == 32,
{
    len_header_bytes(2, h.len() as u64) + h
}

/// The payload of a get-headers request: the starting hashes as an
/// indefinite array, and the target as an array of zero or one hash.
pub open spec fn getheaders_payload(froms: Seq<Seq<u8>>, to: Option<Seq<u8>>) -> Seq<u8> {
    seq![0x82u8] + (seq![0x9fu8] + serialize_hashes(froms) + seq![0xffu8]) + (match to {
        Option::None => seq![0x80u8],
        Option::Some(h) => seq![0x81u8] + serialize_hash(h),
    })
}

/// The concatenation of hashes, each as a byte string.
pub open spec fn serialize_hashes(s: Seq<Seq<u8>>) -> Seq<u8>
    decreases s,
{
    if s.len() == 0 {
        Seq::<u8>::empty()
    } else {
        serialize_hash(s[0]) + serialize_hashes(s.drop_first())
    }
}

/// Serializing one more hash appends its bytes.
pub proof fn lemma_hashes_snoc(s: Seq<Seq<u8>>, h: Seq<u8>)
    ensures
        serialize_hashes(s.push(h)) == serialize_hashes(s) + serialize_hash(h),
    decreases s.len(),
{
    let p = s.push(h);
    if s.len() == 0 {
        reveal_with_fuel(serialize_hashes, 2);
        assert(p[0] == h);
        assert(p.drop_first() =~= Seq::<Seq<u8>>::empty());
        assert(serialize_hashes(s.push(h)) =~= serialize_hashes(s) + serialize_hash(h));
    } else {
        assert(p[0] == s[0]);
        assert(p.drop_first() =~= s.drop_first().push(h));
        lemma_hashes_snoc(s.drop_first(), h);
        assert(serialize_hashes(s.push(h)) =~= serialize_hashes(s) + serialize_hash(h));
    }
}

/// Append a hash as a byte string.
fn encode_hash(h: &HeaderHash, buf: &mut Vec<u8>)
    ensures
        final(buf)@ == old(buf)@ + serialize_hash(h@),
{
    let b = h.bytes();
    encode_header(2, 32, buf);
    push_all(buf, b.as_slice());
    proof {
        assert(buf@ =~= old(buf)@ + serialize_hash(h@));
    }
}

/// The views of a run of hashes.
pub open spec fn hash_views(s: Seq<HeaderHash>) -> Seq<Seq<u8>> {
    s.map_values(|h: HeaderHash| h@)
}

/// Build the get-headers request: its one-byte code, and its payload
/// naming the known starting hashes and the optional target.
pub fn send_msg_getheaders(froms: &Vec<HeaderHash>, to: &Option<HeaderHash>) -> (r: (u8, Vec<u8>))
    ensures
        r.0 == 0x04u8,
        r.1@ == getheaders_payload(
            hash_views(froms@),
            match to {
                Option::None => Option::None::<Seq<u8>>,
                Option::Some(h) => Option::Some(h@),
            },
        ),
{
    let mut dat: Vec<u8> = Vec::new();
    dat.push(0x82);
    dat.push(0x9f);
    let mut i: usize = 0;
    while i < froms.len()
        invariant
            i <= froms@.len(),
            dat@ == seq![0x82u8, 0x9fu8] + serialize_hashes(hash_views(froms@.take(i as int))),
        decreases froms@.len() - i,
    {
        encode_hash(&froms[i], &mut dat);
        proof {
            lemma_hashes_snoc(hash_views(froms@.take(i as int)), froms@[i as int]@);
            assert(hash_views(froms@.take(i + 1)) =~= hash_views(froms@.take(i as int)).push(
                froms@[i as int]@,
            ));
        }
        i = i + 1;
    }
    proof {
        assert(froms@.take(froms@.len() as int) =~= froms@);
    }
    dat.push(0xff);
    match to {
        None => {
            dat.push(0x80);
        },
        Some(h) => {
            dat.push(0x81);
            encode_hash(h, &mut dat);
        },
    }
    proof {
        assert(dat@ =~= getheaders_payload(
            hash_views(froms@),
            match to {
                Option::None => Option::None::<Seq<u8>>,
                Option::Some(h) => Option::Some(h@),
            },
        ));
    }
    (0x4, dat)
}

/// The payload of a get-blocks request: the bounding hashes.
pub open spec fn getblocks_payload(from: Seq<u8>, to: Seq<u8>) -> Seq<u8> {
    seq![0x82u8] + serialize_hash(from) + serialize_hash(to)
}

/// Build the get-blocks request for the range `from..=to`.
pub fn send_msg_getblocks(from: &HeaderHash, to: &HeaderHash) -> (r: (u8, Vec<u8>))
    ensures
        r.0 == 0x06u8,
        r.1@ == getblocks_payload(from@, to@),
{
    let mut dat: Vec<u8> = Vec::new();
    dat.push(0x82);
    encode_hash(from, &mut dat);
    encode_hash(to, &mut dat);
    proof {
        assert(dat@ =~= getblocks_payload(from@, to@));
    }
    (0x6, dat)
}

/// The response to a get-headers request: a list of block headers.
#[derive(Debug)]
pub enum BlockHeaderResponse {
    Success(Vec<crate::block::BlockHeader>),
}

/// `v` is the encoded form of the header response `r`: the sum tag
/// zero, then the headers as an indefinite array.
pub open spec fn is_bhr_value(v: Value, r: BlockHeaderResponse) -> bool {
    &&& v matches Value::Array(a)
    &&& a@.len() == 2
    &&& a@[0] matches Value::U64(c) && c == 0
    &&& a@[1] matches Value::IArray(items)
    &&& r matches BlockHeaderResponse::Success(hs) && hs@.len() == (a@[1])->IArray_0@.len()
    &&& forall|i: int|
        0 <= i < (r->Success_0)@.len() ==> crate::block::is_block_header_value(
            (v->Array_0)@[1]->IArray_0@[i],
            (r->Success_0)@[i],
        )
}

impl BlockHeaderResponse {
    /// Read a header response back from its value form; exactly the
    /// shapes of `is_bhr_value` are accepted.
    pub fn decode(value: Value) -> (r: Result<BlockHeaderResponse, Error>)
        ensures
            r matches Ok(resp) ==> is_bhr_value(value, resp),
            r is Err ==> !exists|resp: BlockHeaderResponse| is_bhr_value(value, resp),
    {
        let mut a = match value {
            Value::Array(a) => a,
            _ => {
                return Err(Error::DecodeError);
            },
        };
        if a.len() != 2 {
            return Err(Error::DecodeError);
        }
        let e1 = a.pop().unwrap();
        let e0 = a.pop().unwrap();
        let code = match e0 {
            Value::U64(c) => c,
            _ => {
                return Err(Error::DecodeError);
            },
        };
        if code != 0 {
            return Err(Error::DecodeError);
        }
        let mut items = match e1 {
            Value::IArray(items) => items,
            _ => {
                return Err(Error::DecodeError);
            },
        };
        let ghost gitems = items@;
        let mut headers: Vec<crate::block::BlockHeader> = Vec::new();
        while items.len() > 0
            invariant
                headers@.len() + items@.len() == gitems.len(),
                items@ == gitems.skip(headers@.len() as int),
                value matches Value::Array(va) && va@.len() == 2 && (va@[1] matches Value::IArray(
                    vi,
                ) && vi@ == gitems),
                forall|i: int|
                    0 <= i < headers@.len() ==> crate::block::is_block_header_value(
                        gitems[i],
                        #[trigger] headers@[i],
                    ),
            decreases items@.len(),
        {
            let ghost done = headers@.len() as int;
            let v = items.remove(0);
            proof {
                assert(v == gitems[done]);
            }
            let h = match crate::block::BlockHeader::decode(v) {
                Ok(h) => h,
                Err(e) => {
                    proof {
                        assert forall|resp: BlockHeaderResponse| !is_bhr_value(value, resp) by {
                            if is_bhr_value(value, resp) {
                                assert(crate::block::is_block_header_value(
                                    gitems[done],
                                    (resp->Success_0)@[done],
                                ));
                            }
                        }
                    }
                    return Err(e);
                },
            };
            headers.push(h);
            proof {
                assert(items@ =~= gitems.skip(headers@.len() as int));
            }
        }
        Ok(BlockHeaderResponse::Success(headers))
    }
}

/// The response to a get-blocks request: one block.
#[derive(Debug)]
pub enum BlockResponse {
    Success(crate::block::Block),
}

/// `v` is the encoded form of the block response `r`: the sum tag
/// zero, then the block.
pub open spec fn is_block_response_value(v: Value, r: BlockResponse) -> bool {
    &&& v matches Value::Array(a)
    &&& a@.len() == 2
    &&& a@[0] matches Value::U64(c) && c == 0
    &&& r matches BlockResponse::Success(b) && crate::block::is_block_value(a@[1], b)
}

impl BlockResponse {
    /// Read a block response back from its value form; exactly the
    /// shapes of `is_block_response_value` are accepted.
    pub fn decode(value: Value) -> (r: Result<BlockResponse, Error>)
        ensures
            r matches Ok(resp) ==> is_block_response_value(value, resp),
            r is Err ==> !exists|resp: BlockResponse| is_block_response_value(value, resp),
    {
        let mut a = match value {
            Value::Array(a) => a,
            _ => {
                return Err(Error::DecodeError);
            },
        };
        if a.len() != 2 {
            return Err(Error::DecodeError);
        }
        let e1 = a.pop().unwrap();
        let e0 = a.pop().unwrap();
        let code = match e0 {
            Value::U64(c) => c,
            _ => {
                return Err(Error::DecodeError);
            },
        };
        if code != 0 {
            return Err(Error::DecodeError);
        }
        let ghost gv = e1;
        match crate::block::Block::decode(e1) {
            Ok(b) => Ok(BlockResponse::Success(b)),
            Err(e) => {
                proof {
                    assert forall|resp: BlockResponse| !is_block_response_value(value, resp) by {
                        if is_block_response_value(value, resp) {
                            let b = resp->Success_0;
                            assert(crate::block::is_block_value(gv, b));
                        }
                    }
                }
                Err(e)
            },
        }
    }
}

} // verus!
