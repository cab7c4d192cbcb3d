//! Block-level records: protocol version, header hashes, and the
//! block headers and blocks decoded from their tagged binary
//! encoding.

pub mod main;

use vstd::prelude::*;
use crate::cbor::Value;
use crate::error::Error;

verus! {

/// The protocol magic number that names the network. The default is
/// the main network's.
#[derive(Debug, Clone, Copy, PartialEq, Eq, Structural)]
pub struct ProtocolMagic(pub u32);

impl ProtocolMagic {
    /// Wrap a raw magic number.
    pub fn new(m: u32) -> (r: ProtocolMagic)
        ensures
            r.0 == m,
    {
        ProtocolMagic(m)
    }
}

impl Default for ProtocolMagic {
    /// The main network's magic number.
    fn default() -> (r: ProtocolMagic)
        ensures
            r.0 == 764824073,
    {
        ProtocolMagic(764824073)
    }
}

/// A three-part protocol version.
#[derive(Debug, Clone, Copy, PartialEq, Eq, Structural)]
pub struct Version {
    pub major: u32,
    pub minor: u32,
    pub revision: u32,
}

impl Version {
    /// Assemble a version from its three parts.
    pub fn new(major: u32, minor: u32, revision: u32) -> (r: Version)
        ensures
            r.major == major && r.minor == minor && r.revision == revision,
    {
        Version { major, minor, revision }
    }
}

impl Default for Version {
    /// The version this client speaks.
    fn default() -> (r: Version)
        ensures
            r.major == 0 && r.minor == 1 && r.revision == 0,
    {
        Version::new(0, 1, 0)
    }
}

/// The number of bytes in a header hash.
pub const HASH_SIZE: usize = 32;

/// A 32-byte hash naming a block by its header.
#[derive(Debug, Clone, Copy)]
pub struct HeaderHash([u8; 32]);

impl HeaderHash {
    /// The bytes of this hash.
    pub closed spec fn view(&self) -> Seq<u8> {
        self.0@
    }

    /// Borrow the raw 32 bytes.
    pub fn bytes(&self) -> (r: &[u8; 32])
        ensures
            r@ == self@,
    {
        &self.0
    }

    /// Wrap 32 raw bytes.
    pub fn from_bytes(bytes: [u8; 32]) -> (r: HeaderHash)
        ensures
            r@ == bytes@,
    {
        HeaderHash(bytes)
    }

    /// Wrap a slice, which must hold exactly 32 bytes.
    pub fn from_slice(bytes: &[u8]) -> (r: Option<HeaderHash>)
        ensures
            bytes@.len() == 32 <==> r is Some,
            r matches Some(h) ==> h@ == bytes@,
    {
        if bytes.len() != 32 {
            return None;
        }
        let mut buf = [0u8; 32];
        let mut i: usize = 0;
        while i < 32
            invariant
                i <= 32,
                bytes@.len() == 32,
                buf@.len() == 32,
                forall|j: int| 0 <= j < i ==> buf@[j] == bytes@[j],
            decreases 32 - i,
        {
            buf[i] = bytes[i];
            i = i + 1;
        }
        let h = HeaderHash(buf);
        proof {
            assert(h@ =~= bytes@);
        }
        Some(h)
    }

    /// Whether two hashes hold the same bytes.
    pub fn equals(&self, other: &HeaderHash) -> (r: bool)
        ensures
            r <==> self@ == other@,
    {
        let mut i: usize = 0;
        while i < 32
            invariant
                i <= 32,
                self@.len() == 32,
                other@.len() == 32,
                forall|j: int| 0 <= j < i ==> self@[j] == other@[j],
            decreases 32 - i,
        {
            if self.0[i] != other.0[i] {
                return false;
            }
            i = i + 1;
        }
        proof {
            assert(self@ =~= other@);
        }
        true
    }
}

/// Every header hash holds exactly 32 bytes.
pub proof fn lemma_hash_len(h: HeaderHash)
    ensures
        h@.len() == 32,
{
}

/// The header of a main block, as far as this client reads it: the
/// network magic and the hash of the previous header, with the proof,
/// consensus and extra sections carried as raw values.
#[derive(Debug)]
pub struct MainBlockHeader {
    pub protocol_magic: ProtocolMagic,
    pub previous_header: HeaderHash,
    pub body_proof: Vec<Value>,
    pub consensus: Vec<Value>,
    pub extra_data: Vec<Value>,
}

impl MainBlockHeader {
    /// Assemble a header from its five fields.
    pub fn new(
        pm: ProtocolMagic,
        pb: HeaderHash,
        bp: Vec<Value>,
        c: Vec<Value>,
        ed: Vec<Value>,
    ) -> (r: MainBlockHeader)
        ensures
            r.protocol_magic == pm && r.previous_header@ == pb@ && r.body_proof@ == bp@
                && r.consensus@ == c@ && r.extra_data@ == ed@,
    {
        MainBlockHeader {
            protocol_magic: pm,
            previous_header: pb,
            body_proof: bp,
            consensus: c,
            extra_data: ed,
        }
    }
}

/// `v` is the encoded form of the main block header `h`: an array of
/// the magic, the previous hash as a 32-byte string, and three arrays
/// carried raw.
pub open spec fn is_mbh_value(v: Value, h: MainBlockHeader) -> bool {
    &&& v matches Value::Array(a)
    &&& a@.len() == 5
    &&& a@[0] matches Value::U64(m) && m == h.protocol_magic.0
    &&& a@[1] matches Value::Bytes(b) && b@ == h.previous_header@ && b@.len() == 32
    &&& a@[2] matches Value::Array(bp) && bp@ == h.body_proof@
    &&& a@[3] matches Value::Array(c) && c@ == h.consensus@
    &&& a@[4] matches Value::Array(ed) && ed@ == h.extra_data@
}

impl MainBlockHeader {
    /// Read a header back from its value form; exactly the shapes of
    /// `is_mbh_value` are accepted.
    pub fn decode(value: Value) -> (r: Result<MainBlockHeader, Error>)
        ensures
            r matches Ok(h) ==> is_mbh_value(value, h),
            r is Err ==> !exists|h: MainBlockHeader| is_mbh_value(value, h),
    {
        let mut a = match value {
            Value::Array(a) => a,
            _ => {
                return Err(Error::DecodeError);
            },
        };
        if a.len() != 5 {
            return Err(Error::DecodeError);
        }
        let e4 = a.pop().unwrap();
        let e3 = a.pop().unwrap();
        let e2 = a.pop().unwrap();
        let e1 = a.pop().unwrap();
        let e0 = a.pop().unwrap();
        let m = match e0 {
            Value::U64(m) => m,
            _ => {
                return Err(Error::DecodeError);
            },
        };
        if m > 0xffffffff {
            return Err(Error::DecodeError);
        }
        let prev_bytes = match e1 {
            Value::Bytes(b) => b,
            _ => {
                return Err(Error::DecodeError);
            },
        };
        let prev = match HeaderHash::from_slice(prev_bytes.as_slice()) {
            Some(p) => p,
            None => {
                return Err(Error::DecodeError);
            },
        };
        let bp = match e2 {
            Value::Array(x) => x,
            _ => {
                return Err(Error::DecodeError);
            },
        };
        let c = match e3 {
            Value::Array(x) => x,
            _ => {
                return Err(Error::DecodeError);
            },
        };
        let ed = match e4 {
            Value::Array(x) => x,
            _ => {
                return Err(Error::DecodeError);
            },
        };
        Ok(MainBlockHeader::new(ProtocolMagic(m as u32), prev, bp, c, ed))
    }
}

/// A block header; this client only reads main-block headers.
#[derive(Debug)]
pub enum BlockHeader {
    MainBlockHeader(MainBlockHeader),
}

/// `v` is the encoded form of the block header `h`: the sum tag `1`
/// followed by the main header.
pub open spec fn is_block_header_value(v: Value, h: BlockHeader) -> bool {
    &&& v matches Value::Array(a)
    &&& a@.len() == 2
    &&& a@[0] matches Value::U64(c) && c == 1
    &&& h matches BlockHeader::MainBlockHeader(mbh) && is_mbh_value(a@[1], mbh)
}

impl BlockHeader {
    /// Read a block header back from its value form.
    pub fn decode(value: Value) -> (r: Result<BlockHeader, Error>)
        ensures
            r matches Ok(h) ==> is_block_header_value(value, h),
            r is Err ==> !exists|h: BlockHeader| is_block_header_value(value, h),
    {
        let mut a = match value {
            Value::Array(a) => a,
            _ => {
                return Err(Error::DecodeError);
            },
        };
        if a.len() != 2 {
            return Err(Error::DecodeError);
        }
        let e1 = a.pop().unwrap();
        let e0 = a.pop().unwrap();
        let code = match e0 {
            Value::U64(c) => c,
            _ => {
                return Err(Error::DecodeError);
            },
        };
        if code != 1 {
            return Err(Error::DecodeError);
        }
        let ghost gv = e1;
        match MainBlockHeader::decode(e1) {
            Ok(mbh) => Ok(BlockHeader::MainBlockHeader(mbh)),
            Err(e) => {
                proof {
                    assert forall|h: BlockHeader| !is_block_header_value(value, h) by {
                        if is_block_header_value(value, h) {
                            let mbh = h->MainBlockHeader_0;
                            assert(is_mbh_value(gv, mbh));
                        }
                    }
                }
                Err(e)
            },
        }
    }
}

/// A block; this client only reads main blocks.
#[derive(Debug)]
pub enum Block {
    MainBlock(main::Block),
}

/// `v` is the encoded form of the block `b`: the sum tag `1`
/// followed by the main block.
pub open spec fn is_block_value(v: Value, b: Block) -> bool {
    &&& v matches Value::Array(a)
    &&& a@.len() == 2
    &&& a@[0] matches Value::U64(c) && c == 1
    &&& b matches Block::MainBlock(blk) && main::is_main_block_value(a@[1], blk)
}

impl Block {
    /// Read a block back from its value form.
    pub fn decode(value: Value) -> (r: Result<Block, Error>)
        ensures
            r matches Ok(b) ==> is_block_value(value, b),
            r is Err ==> !exists|b: Block| is_block_value(value, b),
    {
        let mut a = match value {
            Value::Array(a) => a,
            _ => {
                return Err(Error::DecodeError);
            },
        };
        if a.len() != 2 {
            return Err(Error::DecodeError);
        }
        let e1 = a.pop().unwrap();
        let e0 = a.pop().unwrap();
        let code = match e0 {
            Value::U64(c) => c,
            _ => {
                return Err(Error::DecodeError);
            },
        };
        if code != 1 {
            return Err(Error::DecodeError);
        }
        let ghost gv = e1;
        match main::Block::decode(e1) {
            Ok(blk) => Ok(Block::MainBlock(blk)),
            Err(e) => {
                proof {
                    assert forall|b: Block| !is_block_value(value, b) by {
                        if is_block_value(value, b) {
                            let blk = b->MainBlock_0;
                            assert(main::is_main_block_value(gv, blk));
                        }
                    }
                }
                Err(e)
            },
        }
    }
}

} // verus!
