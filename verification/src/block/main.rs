//! The body of a main block, as far as this client reads it: the
//! transaction payload and three sections carried as raw values.

use vstd::prelude::*;
use crate::cbor::Value;
use crate::error::Error;
use crate::block::{MainBlockHeader, is_mbh_value};

verus! {

/// The transactions of a block, carried as raw values.
#[derive(Debug)]
pub struct TxPayload {
    pub txaux: Vec<Value>,
}

impl TxPayload {
    /// Wrap a list of transactions.
    pub fn new(txaux: Vec<Value>) -> (r: TxPayload)
        ensures
            r.txaux@ == txaux@,
    {
        TxPayload { txaux }
    }

    /// A payload with no transactions.
    pub fn empty() -> (r: TxPayload)
        ensures
            r.txaux@ == Seq::<Value>::empty(),
    {
        TxPayload::new(Vec::new())
    }
}

/// A block body: the transaction payload and the shared-seed,
/// delegation and update sections carried raw.
#[derive(Debug)]
pub struct Body {
    pub tx: TxPayload,
    pub scc: Value,
    pub delegation: Value,
    pub update: Value,
}

impl Body {
    /// Assemble a body from its four sections.
    pub fn new(tx: TxPayload, scc: Value, dlg: Value, upd: Value) -> (r: Body)
        ensures
            r.tx.txaux@ == tx.txaux@ && r.scc == scc && r.delegation == dlg && r.update == upd,
    {
        Body { tx, scc, delegation: dlg, update: upd }
    }
}

/// `v` is the encoded form of the body `b`: an array of the
/// transaction list (indefinite) and three raw sections.
pub open spec fn is_body_value(v: Value, b: Body) -> bool {
    &&& v matches Value::Array(a)
    &&& a@.len() == 4
    &&& a@[0] matches Value::IArray(tx) && tx@ == b.tx.txaux@
    &&& a@[1] == b.scc
    &&& a@[2] == b.delegation
    &&& a@[3] == b.update
}

impl Body {
    /// Read a body back from its value form.
    pub fn decode(value: Value) -> (r: Result<Body, Error>)
        ensures
            r matches Ok(b) ==> is_body_value(value, b),
            r is Err ==> !exists|b: Body| is_body_value(value, b),
    {
        let mut a = match value {
            Value::Array(a) => a,
            _ => {
                return Err(Error::DecodeError);
            },
        };
        if a.len() != 4 {
            return Err(Error::DecodeError);
        }
        let upd = a.pop().unwrap();
        let dlg = a.pop().unwrap();
        let scc = a.pop().unwrap();
        let e0 = a.pop().unwrap();
        let tx = match e0 {
            Value::IArray(tx) => tx,
            _ => {
                return Err(Error::DecodeError);
            },
        };
        Ok(Body::new(TxPayload::new(tx), scc, dlg, upd))
    }
}

/// A main block: its header, its body, and the raw extra section.
#[derive(Debug)]
pub struct Block {
    pub header: MainBlockHeader,
    pub body: Body,
    pub extra: Value,
}

impl Block {
    /// Assemble a block from header, body and extra section.
    pub fn new(h: MainBlockHeader, b: Body, e: Value) -> (r: Block)
        ensures
            r.header == h && r.body == b && r.extra == e,
    {
        Block { header: h, body: b, extra: e }
    }
}

/// `v` is the encoded form of the main block `blk`.
pub open spec fn is_main_block_value(v: Value, blk: Block) -> bool {
    &&& v matches Value::Array(a)
    &&& a@.len() == 3
    &&& is_mbh_value(a@[0], blk.header)
    &&& is_body_value(a@[1], blk.body)
    &&& a@[2] == blk.extra
}

impl Block {
    /// Read a main block back from its value form.
    pub fn decode(value: Value) -> (r: Result<Block, Error>)
        ensures
            r matches Ok(b) ==> is_main_block_value(value, b),
            r is Err ==> !exists|b: Block| is_main_block_value(value, b),
    {
        let mut a = match value {
            Value::Array(a) => a,
            _ => {
                return Err(Error::DecodeError);
            },
        };
        if a.len() != 3 {
            return Err(Error::DecodeError);
        }
        let e2 = a.pop().unwrap();
        let e1 = a.pop().unwrap();
        let e0 = a.pop().unwrap();
        let ghost g0 = e0;
        let ghost g1 = e1;
        let header = match MainBlockHeader::decode(e0) {
            Ok(h) => h,
            Err(e) => {
                proof {
                    assert forall|b: Block| !is_main_block_value(value, b) by {
                        if is_main_block_value(value, b) {
                            assert(is_mbh_value(g0, b.header));
                        }
                    }
                }
                return Err(e);
            },
        };
        let body = match Body::decode(e1) {
            Ok(b) => b,
            Err(e) => {
                proof {
                    assert forall|b: Block| !is_main_block_value(value, b) by {
                        if is_main_block_value(value, b) {
                            assert(is_body_value(g1, b.body));
                        }
                    }
                }
                return Err(e);
            },
        };
        Ok(Block::new(header, body, e2))
    }
}

} // verus!
