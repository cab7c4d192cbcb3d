//! The tagged binary encoding (TBE) of application records: a
//! self-describing encoding with unsigned integers in minimal form,
//! definite byte and text strings, definite and indefinite arrays,
//! integer-keyed maps in ascending key order, and semantic tags.
//!
//! `serialize_value` is the one definition of the wire form; the
//! encoder produces exactly it and the decoder accepts nothing else.

use vstd::prelude::*;
use crate::endian::{u32_be_bytes, u32_of_be, u64_be_bytes, u64_of_be, push_u32_be, push_u64_be, push_all, read_u32_be, read_u64_be};
use crate::error::Error;

verus! {

/// One self-describing value.
#[derive(Debug, PartialEq, Eq)]
pub enum Value {
    /// An unsigned integer (major type 0).
    U64(u64),
    /// A definite-length byte string (major type 2).
    Bytes(Vec<u8>),
    /// A definite-length text string, held as its UTF-8 bytes (major
    /// type 3).
    Text(Vec<u8>),
    /// A definite-length array (major type 4).
    Array(Vec<Value>),
    /// An indefinite-length array, closed by a break byte on the wire.
    IArray(Vec<Value>),
    /// A map from unsigned integers, keys strictly ascending (major
    /// type 5).
    Object(Vec<(u64, Value)>),
    /// A semantic tag wrapping one value (major type 6).
    Tag(u64, Box<Value>),
}

/// The header that introduces a value of major type `major` and
/// carries the number `n` (the value itself for integers, a length
/// for strings, arrays and maps, the tag number for tags), in the
/// shortest of the five forms that can hold `n`.
pub open spec fn len_header_bytes(major: u8, n: u64) -> Seq<u8>
    recommends
        major < 8,
{
    if n < 24 {
        seq![(major * 32 + n) as u8]
    } else if n < 256 {
        seq![(major * 32 + 24) as u8, n as u8]
    } else if n < 65536 {
        seq![(major * 32 + 25) as u8, (n >> 8) as u8, n as u8]
    } else if n < 0x100000000 {
        seq![(major * 32 + 26) as u8] + u32_be_bytes(n as u32)
    } else {
        seq![(major * 32 + 27) as u8] + u64_be_bytes(n)
    }
}

/// The bytes of a value.
pub open spec fn serialize_value(v: Value) -> Seq<u8>
    decreases v,
{
    match v {
        Value::U64(n) => len_header_bytes(0, n),
        Value::Bytes(b) => len_header_bytes(2, b@.len() as u64) + b@,
        Value::Text(t) => len_header_bytes(3, t@.len() as u64) + t@,
        Value::Array(a) => len_header_bytes(4, a@.len() as u64) + serialize_values(a@),
        Value::IArray(a) => seq![0x9fu8] + serialize_values(a@) + seq![0xffu8],
        Value::Object(o) => len_header_bytes(5, o@.len() as u64) + serialize_pairs(o@),
        Value::Tag(t, bv) => len_header_bytes(6, t) + serialize_value(*bv),
    }
}

/// The bytes of a run of values, in order.
pub open spec fn serialize_values(s: Seq<Value>) -> Seq<u8>
    decreases s,
{
    if s.len() == 0 {
        Seq::<u8>::empty()
    } else {
        serialize_value(s[0]) + serialize_values(s.drop_first())
    }
}

/// The bytes of a run of map entries: each key as an unsigned integer
/// header, then its value.
pub open spec fn serialize_pairs(s: Seq<(u64, Value)>) -> Seq<u8>
    decreases s,
{
    if s.len() == 0 {
        Seq::<u8>::empty()
    } else {
        len_header_bytes(0, s[0].0) + serialize_value(s[0].1) + serialize_pairs(s.drop_first())
    }
}

/// A value in canonical form: every map in it keeps its keys strictly
/// ascending. Lengths always fit the word size, so only maps
/// constrain anything.
pub open spec fn value_wf(v: Value) -> bool
    decreases v, 1int,
{
    match v {
        Value::U64(n) => true,
        Value::Bytes(b) => true,
        Value::Text(t) => true,
        Value::Array(a) => values_wf(a@),
        Value::IArray(a) => values_wf(a@),
        Value::Object(o) => keys_ascending(o@) && pair_values_wf(o@),
        Value::Tag(t, bv) => value_wf(*bv),
    }
}

/// Every value of a run is canonical.
pub open spec fn values_wf(s: Seq<Value>) -> bool
    decreases s, 0int,
{
    if s.len() == 0 {
        true
    } else {
        value_wf(s[0]) && values_wf(s.drop_first())
    }
}

/// The keys of a run of entries strictly ascend.
pub open spec fn keys_ascending(s: Seq<(u64, Value)>) -> bool {
    forall|i: int, j: int| 0 <= i < j < s.len() ==> s[i].0 < s[j].0
}

/// The values of a run of entries are canonical.
pub open spec fn pair_values_wf(s: Seq<(u64, Value)>) -> bool
    decreases s, 0int,
{
    if s.len() == 0 {
        true
    } else {
        value_wf(s[0].1) && pair_values_wf(s.drop_first())
    }
}

/// Serializing one more value appends its bytes.
pub proof fn lemma_values_snoc(s: Seq<Value>, v: Value)
    ensures
        serialize_values(s.push(v)) == serialize_values(s) + serialize_value(v),
    decreases s.len(),
{
    let p = s.push(v);
    assert(p.len() == s.len() + 1);
    if s.len() == 0 {
        reveal_with_fuel(serialize_values, 2);
        assert(p[0] == v);
        assert(p.drop_first() =~= Seq::<Value>::empty());
        assert(serialize_values(s.push(v)) =~= serialize_values(s) + serialize_value(v));
    } else {
        assert(p[0] == s[0]);
        assert(p.drop_first() =~= s.drop_first().push(v));
        lemma_values_snoc(s.drop_first(), v);
        assert(serialize_values(s.push(v)) =~= serialize_values(s) + serialize_value(v));
    }
}

/// Serializing one more map entry appends its bytes.
pub proof fn lemma_pairs_snoc(s: Seq<(u64, Value)>, k: u64, v: Value)
    ensures
        serialize_pairs(s.push((k, v))) == serialize_pairs(s) + len_header_bytes(0, k)
            + serialize_value(v),
    decreases s.len(),
{
    let p = s.push((k, v));
    assert(p.len() == s.len() + 1);
    if s.len() == 0 {
        reveal_with_fuel(serialize_pairs, 2);
        assert(p[0] == (k, v));
        assert(p.drop_first() =~= Seq::<(u64, Value)>::empty());
        assert(serialize_pairs(s.push((k, v))) =~= serialize_pairs(s) + len_header_bytes(0, k)
            + serialize_value(v));
    } else {
        assert(p[0] == s[0]);
        assert(p.drop_first() =~= s.drop_first().push((k, v)));
        lemma_pairs_snoc(s.drop_first(), k, v);
        assert(serialize_pairs(s.push((k, v))) =~= serialize_pairs(s) + len_header_bytes(0, k)
            + serialize_value(v));
    }
}

/// Canonicity of one more value in a run.
pub proof fn lemma_values_wf_snoc(s: Seq<Value>, v: Value)
    requires
        values_wf(s),
        value_wf(v),
    ensures
        values_wf(s.push(v)),
    decreases s.len(),
{
    let p = s.push(v);
    if s.len() == 0 {
        reveal_with_fuel(values_wf, 2);
        assert(p[0] == v);
        assert(p.drop_first() =~= Seq::<Value>::empty());
    } else {
        assert(p[0] == s[0]);
        assert(p.drop_first() =~= s.drop_first().push(v));
        lemma_values_wf_snoc(s.drop_first(), v);
    }
}

/// Canonicity of one more entry value in a run.
pub proof fn lemma_pair_values_wf_snoc(s: Seq<(u64, Value)>, k: u64, v: Value)
    requires
        pair_values_wf(s),
        value_wf(v),
    ensures
        pair_values_wf(s.push((k, v))),
    decreases s.len(),
{
    let p = s.push((k, v));
    if s.len() == 0 {
        reveal_with_fuel(pair_values_wf, 2);
        assert(p[0] == (k, v));
        assert(p.drop_first() =~= Seq::<(u64, Value)>::empty());
    } else {
        assert(p[0] == s[0]);
        assert(p.drop_first() =~= s.drop_first().push((k, v)));
        lemma_pair_values_wf_snoc(s.drop_first(), k, v);
    }
}

/// Append the header introducing major type `major` with number `n`.
pub fn encode_header(major: u8, n: u64, buf: &mut Vec<u8>)
    requires
        major < 8,
    ensures
        final(buf)@ == old(buf)@ + len_header_bytes(major, n),
{
    if n < 24 {
        buf.push(major * 32 + n as u8);
        assert(buf@ =~= old(buf)@ + len_header_bytes(major, n));
    } else if n < 256 {
        buf.push(major * 32 + 24);
        buf.push(n as u8);
        assert(buf@ =~= old(buf)@ + len_header_bytes(major, n));
    } else if n < 65536 {
        buf.push(major * 32 + 25);
        buf.push((n >> 8) as u8);
        buf.push(n as u8);
        assert(buf@ =~= old(buf)@ + len_header_bytes(major, n));
    } else if n < 0x100000000 {
        buf.push(major * 32 + 26);
        push_u32_be(buf, n as u32);
        assert(buf@ =~= old(buf)@ + len_header_bytes(major, n));
    } else {
        buf.push(major * 32 + 27);
        push_u64_be(buf, n);
        assert(buf@ =~= old(buf)@ + len_header_bytes(major, n));
    }
}

/// Read back a header at `pos`: its major type, its number, and the
/// position after it. Exactly the canonical (shortest) forms are
/// accepted, so a header round-trips: what this returns re-encodes to
/// the consumed bytes, and an encoded header sitting at `pos` is
/// always found.
/// `s` holds, at `pos`, the canonical header of major type `m` with
/// number `n`.
pub open spec fn header_at(s: Seq<u8>, pos: int, m: u8, n: u64) -> bool {
    m < 8 && 0 <= pos && pos + len_header_bytes(m, n).len() <= s.len() && s.subrange(
        pos,
        pos + len_header_bytes(m, n).len(),
    ) == len_header_bytes(m, n)
}

/// What a header at `pos` forces on the bytes of `s`: its first byte
/// determines the major type, the size class, and thereby `n`.
proof fn lemma_header_inversion(s: Seq<u8>, pos: int, m: u8, n: u64)
    requires
        header_at(s, pos, m, n),
    ensures
        pos < s.len(),
        s[pos] / 32 == m,
        n < 24 ==> s[pos] % 32 == n && len_header_bytes(m, n).len() == 1,
        24 <= n < 256 ==> s[pos] % 32 == 24 && pos + 2 <= s.len() && s[pos + 1] == n as u8
            && s[pos + 1] >= 24 && (s[pos + 1] as u64) == n && len_header_bytes(m, n).len() == 2,
        256 <= n < 65536 ==> s[pos] % 32 == 25 && pos + 3 <= s.len() && (((s[pos + 1] as u64) << 8)
            | (s[pos + 2] as u64)) == n && len_header_bytes(m, n).len() == 3,
        65536 <= n < 0x100000000 ==> s[pos] % 32 == 26 && pos + 5 <= s.len() && (u32_of_be(
            s.subrange(pos + 1, pos + 5),
        ) as u64) == n && len_header_bytes(m, n).len() == 5,
        n >= 0x100000000 ==> s[pos] % 32 == 27 && pos + 9 <= s.len() && u64_of_be(
            s.subrange(pos + 1, pos + 9),
        ) == n && len_header_bytes(m, n).len() == 9,
{
    let h = len_header_bytes(m, n);
    let l = h.len() as int;
    assert forall|k: int| 0 <= k < l implies s[pos + k] == #[trigger] h[k] by {
        assert(s.subrange(pos, pos + l)[k] == s[pos + k]);
    }
    let mm = m;
    if n < 24 {
        assert(s[pos] == h[0] && h[0] == (m * 32 + n) as u8);
        let fb = s[pos];
        let nn = n;
        assert(fb / 32 == mm && (fb % 32) as u64 == nn) by (bit_vector)
            requires
                mm < 8 && nn < 24 && fb == (mm * 32 + nn) as u8,
        ;
    } else if n < 256 {
        assert(s[pos] == h[0] && h[0] == (m * 32 + 24) as u8);
        assert(s[pos + 1] == h[1] && h[1] == n as u8);
        let fb = s[pos];
        let nn = n;
        assert(fb / 32 == mm && fb % 32 == 24) by (bit_vector)
            requires
                mm < 8 && fb == (mm * 32 + 24) as u8,
        ;
        assert((nn as u8) as u64 == nn && nn as u8 >= 24) by (bit_vector)
            requires
                24 <= nn < 256,
        ;
    } else if n < 65536 {
        assert(s[pos] == h[0] && h[0] == (m * 32 + 25) as u8);
        assert(s[pos + 1] == h[1] && h[1] == (n >> 8) as u8);
        assert(s[pos + 2] == h[2] && h[2] == n as u8);
        let fb = s[pos];
        let nn = n;
        assert(fb / 32 == mm && fb % 32 == 25) by (bit_vector)
            requires
                mm < 8 && fb == (mm * 32 + 25) as u8,
        ;
        assert((((((nn >> 8) as u8) as u64) << 8) | ((nn as u8) as u64)) == nn) by (bit_vector)
            requires
                nn < 65536,
        ;
    } else if n < 0x100000000 {
        assert(s[pos] == h[0] && h[0] == (m * 32 + 26) as u8);
        assert(s[pos + 1] == h[1] && s[pos + 2] == h[2] && s[pos + 3] == h[3] && s[pos + 4] == h[4]);
        assert(h[1] == u32_be_bytes(n as u32)[0] && h[2] == u32_be_bytes(n as u32)[1] && h[3]
            == u32_be_bytes(n as u32)[2] && h[4] == u32_be_bytes(n as u32)[3]);
        let fb = s[pos];
        let nn = n;
        assert(fb / 32 == mm && fb % 32 == 26) by (bit_vector)
            requires
                mm < 8 && fb == (mm * 32 + 26) as u8,
        ;
        assert(s.subrange(pos + 1, pos + 5) =~= u32_be_bytes(n as u32));
        crate::endian::lemma_u32_be_round_trip(n as u32);
        assert(((nn as u32) as u64) == nn) by (bit_vector)
            requires
                nn < 0x100000000,
        ;
    } else {
        assert(s[pos] == h[0] && h[0] == (m * 32 + 27) as u8);
        assert(s[pos + 1] == h[1] && s[pos + 2] == h[2] && s[pos + 3] == h[3] && s[pos + 4] == h[4]
            && s[pos + 5] == h[5] && s[pos + 6] == h[6] && s[pos + 7] == h[7] && s[pos + 8] == h[8]);
        assert(h[1] == u64_be_bytes(n)[0] && h[2] == u64_be_bytes(n)[1] && h[3] == u64_be_bytes(n)[2]
            && h[4] == u64_be_bytes(n)[3] && h[5] == u64_be_bytes(n)[4] && h[6] == u64_be_bytes(n)[5]
            && h[7] == u64_be_bytes(n)[6] && h[8] == u64_be_bytes(n)[7]);
        let fb = s[pos];
        assert(fb / 32 == mm && fb % 32 == 27) by (bit_vector)
            requires
                mm < 8 && fb == (mm * 32 + 27) as u8,
        ;
        assert(s.subrange(pos + 1, pos + 9) =~= u64_be_bytes(n));
        crate::endian::lemma_u64_be_round_trip(n);
    }
}

/// Read back a header at `pos`: its major type, its number, and the
/// position after it. Exactly the canonical (shortest) forms are
/// accepted, so a header round-trips: what this returns re-encodes to
/// the consumed bytes, and an encoded header sitting at `pos` is
/// always found.
pub fn decode_header(s: &Vec<u8>, pos: usize) -> (r: Result<(u8, u64, usize), Error>)
    requires
        pos <= s@.len(),
    ensures
        r matches Ok((major, n, end)) ==> major < 8 && pos < end <= s@.len()
            && len_header_bytes(major, n) == s@.subrange(pos as int, end as int),
        forall|m: u8, n: u64|
            header_at(s@, pos as int, m, n) ==> r == Ok::<(u8, u64, usize), Error>(
                (m, n, (pos + len_header_bytes(m, n).len()) as usize),
            ),
{
    if pos >= s.len() {
        proof {
            assert forall|m: u8, n: u64| header_at(s@, pos as int, m, n) implies false by {
                lemma_header_inversion(s@, pos as int, m, n);
            }
        }
        return Err(Error::DecodeError);
    }
    let fb = s[pos];
    let major: u8 = fb / 32;
    let ai: u8 = fb % 32;
    if ai < 24 {
        let rr = (major, ai as u64, pos + 1);
        proof {
            let x = ai;
            let mm = major;
            assert(mm * 32 + x == fb && (x as u64) < 24 && ((x as u64) as u8) == x) by (bit_vector)
                requires
                    mm == fb / 32 && x == fb % 32 && x < 24,
            ;
            assert(len_header_bytes(major, ai as u64) =~= s@.subrange(pos as int, pos + 1));
            assert forall|m: u8, n: u64| header_at(s@, pos as int, m, n) implies Ok::<
                (u8, u64, usize),
                Error,
            >(rr) == Ok::<(u8, u64, usize), Error>(
                (m, n, (pos + len_header_bytes(m, n).len()) as usize),
            ) by {
                lemma_header_inversion(s@, pos as int, m, n);
            }
        }
        return Ok(rr);
    }
    if ai == 24 {
        if s.len() - pos < 2 {
            proof {
                assert forall|m: u8, n: u64| header_at(s@, pos as int, m, n) implies false by {
                    lemma_header_inversion(s@, pos as int, m, n);
                }
            }
            return Err(Error::DecodeError);
        }
        let b = s[pos + 1];
        if b < 24 {
            proof {
                assert forall|m: u8, n: u64| header_at(s@, pos as int, m, n) implies false by {
                    lemma_header_inversion(s@, pos as int, m, n);
                }
            }
            return Err(Error::DecodeError);
        }
        let rr = (major, b as u64, pos + 2);
        proof {
            let mm = major;
            assert(mm * 32 + 24 == fb) by (bit_vector)
                requires
                    mm == fb / 32 && fb % 32 == 24,
            ;
            assert(len_header_bytes(major, b as u64) =~= s@.subrange(pos as int, pos + 2));
            assert forall|m: u8, n: u64| header_at(s@, pos as int, m, n) implies Ok::<
                (u8, u64, usize),
                Error,
            >(rr) == Ok::<(u8, u64, usize), Error>(
                (m, n, (pos + len_header_bytes(m, n).len()) as usize),
            ) by {
                lemma_header_inversion(s@, pos as int, m, n);
            }
        }
        return Ok(rr);
    }
    if ai == 25 {
        if s.len() - pos < 3 {
            proof {
                assert forall|m: u8, n: u64| header_at(s@, pos as int, m, n) implies false by {
                    lemma_header_inversion(s@, pos as int, m, n);
                }
            }
            return Err(Error::DecodeError);
        }
        let b0 = s[pos + 1];
        let b1 = s[pos + 2];
        let n: u64 = ((b0 as u64) << 8) | (b1 as u64);
        if n < 256 {
            proof {
                assert forall|m: u8, n2: u64| header_at(s@, pos as int, m, n2) implies false by {
                    lemma_header_inversion(s@, pos as int, m, n2);
                }
            }
            return Err(Error::DecodeError);
        }
        let rr = (major, n, pos + 3);
        proof {
            let mm = major;
            assert(mm * 32 + 25 == fb) by (bit_vector)
                requires
                    mm == fb / 32 && fb % 32 == 25,
            ;
            let nn = n;
            assert(nn < 65536 && (nn >> 8) as u8 == b0 && nn as u8 == b1) by (bit_vector)
                requires
                    nn == ((b0 as u64) << 8) | (b1 as u64),
            ;
            assert(len_header_bytes(major, n) =~= s@.subrange(pos as int, pos + 3));
            assert forall|m: u8, n2: u64| header_at(s@, pos as int, m, n2) implies Ok::<
                (u8, u64, usize),
                Error,
            >(rr) == Ok::<(u8, u64, usize), Error>(
                (m, n2, (pos + len_header_bytes(m, n2).len()) as usize),
            ) by {
                lemma_header_inversion(s@, pos as int, m, n2);
            }
        }
        return Ok(rr);
    }
    if ai == 26 {
        if s.len() - pos < 5 {
            proof {
                assert forall|m: u8, n: u64| header_at(s@, pos as int, m, n) implies false by {
                    lemma_header_inversion(s@, pos as int, m, n);
                }
            }
            return Err(Error::DecodeError);
        }
        let w = read_u32_be(s, pos + 1);
        let n: u64 = w as u64;
        if n < 65536 {
            proof {
                assert forall|m: u8, n2: u64| header_at(s@, pos as int, m, n2) implies false by {
                    lemma_header_inversion(s@, pos as int, m, n2);
                }
            }
            return Err(Error::DecodeError);
        }
        let rr = (major, n, pos + 5);
        proof {
            let mm = major;
            assert(mm * 32 + 26 == fb) by (bit_vector)
                requires
                    mm == fb / 32 && fb % 32 == 26,
            ;
            crate::endian::lemma_u32_be_bytes_of(s@.subrange(pos + 1, pos + 5));
            assert(len_header_bytes(major, n) =~= s@.subrange(pos as int, pos + 5));
            assert forall|m: u8, n2: u64| header_at(s@, pos as int, m, n2) implies Ok::<
                (u8, u64, usize),
                Error,
            >(rr) == Ok::<(u8, u64, usize), Error>(
                (m, n2, (pos + len_header_bytes(m, n2).len()) as usize),
            ) by {
                lemma_header_inversion(s@, pos as int, m, n2);
            }
        }
        return Ok(rr);
    }
    if ai == 27 {
        if s.len() - pos < 9 {
            proof {
                assert forall|m: u8, n: u64| header_at(s@, pos as int, m, n) implies false by {
                    lemma_header_inversion(s@, pos as int, m, n);
                }
            }
            return Err(Error::DecodeError);
        }
        let n = read_u64_be(s, pos + 1);
        if n < 0x100000000 {
            proof {
                assert forall|m: u8, n2: u64| header_at(s@, pos as int, m, n2) implies false by {
                    lemma_header_inversion(s@, pos as int, m, n2);
                }
            }
            return Err(Error::DecodeError);
        }
        let rr = (major, n, pos + 9);
        proof {
            let mm = major;
            assert(mm * 32 + 27 == fb) by (bit_vector)
                requires
                    mm == fb / 32 && fb % 32 == 27,
            ;
            crate::endian::lemma_u64_be_bytes_of(s@.subrange(pos + 1, pos + 9));
            assert(len_header_bytes(major, n) =~= s@.subrange(pos as int, pos + 9));
            assert forall|m: u8, n2: u64| header_at(s@, pos as int, m, n2) implies Ok::<
                (u8, u64, usize),
                Error,
            >(rr) == Ok::<(u8, u64, usize), Error>(
                (m, n2, (pos + len_header_bytes(m, n2).len()) as usize),
            ) by {
                lemma_header_inversion(s@, pos as int, m, n2);
            }
        }
        return Ok(rr);
    }
    proof {
        assert forall|m: u8, n: u64| header_at(s@, pos as int, m, n) implies false by {
            lemma_header_inversion(s@, pos as int, m, n);
        }
    }
    Err(Error::DecodeError)
}

/// Copy `s[from..to]` into a fresh vector.
pub fn copy_range(s: &Vec<u8>, from: usize, to: usize) -> (r: Vec<u8>)
    requires
        from <= to <= s@.len(),
    ensures
        r@ == s@.subrange(from as int, to as int),
{
    let mut v: Vec<u8> = Vec::new();
    let mut i: usize = from;
    while i < to
        invariant
            from <= i <= to <= s@.len(),
            v@ == s@.subrange(from as int, i as int),
        decreases to - i,
    {
        v.push(s[i]);
        assert(v@ =~= s@.subrange(from as int, i + 1));
        i = i + 1;
    }
    v
}

/// Append the bytes of `v` to `buf`.
pub fn encode_value(v: &Value, buf: &mut Vec<u8>)
    requires
        value_wf(*v),
    ensures
        final(buf)@ == old(buf)@ + serialize_value(*v),
    decreases *v,
{
    match v {
        Value::U64(n) => {
            encode_header(0, *n, buf);
        },
        Value::Bytes(b) => {
            encode_header(2, b.len() as u64, buf);
            push_all(buf, b.as_slice());
        },
        Value::Text(t) => {
            encode_header(3, t.len() as u64, buf);
            push_all(buf, t.as_slice());
        },
        Value::Array(a) => {
            encode_header(4, a.len() as u64, buf);
            encode_values(a, buf);
        },
        Value::IArray(a) => {
            buf.push(0x9f);
            encode_values(a, buf);
            buf.push(0xff);
            assert(buf@ =~= old(buf)@ + serialize_value(*v));
        },
        Value::Object(o) => {
            encode_header(5, o.len() as u64, buf);
            encode_pairs(o, buf);
        },
        Value::Tag(t, bv) => {
            encode_header(6, *t, buf);
            encode_value(&**bv, buf);
        },
    }
}

/// Append the bytes of each value of `a`, in order.
fn encode_values(a: &Vec<Value>, buf: &mut Vec<u8>)
    requires
        values_wf(a@),
    ensures
        final(buf)@ == old(buf)@ + serialize_values(a@),
    decreases a@,
{
    let mut i: usize = 0;
    while i < a.len()
        invariant
            i <= a@.len(),
            values_wf(a@),
            buf@ == old(buf)@ + serialize_values(a@.take(i as int)),
        decreases a@.len() - i,
    {
        proof {
            lemma_values_wf_prefix(a@, i as int);
        }
        encode_value(&a[i], buf);
        proof {
            lemma_values_snoc(a@.take(i as int), a@[i as int]);
            assert(a@.take(i + 1) =~= a@.take(i as int).push(a@[i as int]));
        }
        i = i + 1;
    }
    assert(a@.take(a@.len() as int) =~= a@);
}

/// Append the bytes of each entry of `o`, in order.
fn encode_pairs(o: &Vec<(u64, Value)>, buf: &mut Vec<u8>)
    requires
        pair_values_wf(o@),
    ensures
        final(buf)@ == old(buf)@ + serialize_pairs(o@),
    decreases o@,
{
    let mut i: usize = 0;
    while i < o.len()
        invariant
            i <= o@.len(),
            pair_values_wf(o@),
            buf@ == old(buf)@ + serialize_pairs(o@.take(i as int)),
        decreases o@.len() - i,
    {
        proof {
            lemma_pair_values_wf_prefix(o@, i as int);
        }
        encode_header(0, o[i].0, buf);
        encode_value(&o[i].1, buf);
        proof {
            lemma_pairs_snoc(o@.take(i as int), o@[i as int].0, o@[i as int].1);
            assert(o@.take(i + 1) =~= o@.take(i as int).push(o@[i as int]));
        }
        i = i + 1;
    }
    assert(o@.take(o@.len() as int) =~= o@);
}

/// `s` holds at `pos` the canonical encoding of the value `v`.
pub open spec fn value_at(s: Seq<u8>, pos: int, v: Value) -> bool {
    &&& value_wf(v)
    &&& 0 <= pos
    &&& pos + serialize_value(v).len() <= s.len()
    &&& s.subrange(pos, pos + serialize_value(v).len()) == serialize_value(v)
}

/// `s` holds at `pos` the encodings of the values `vs`, one after
/// another.
pub open spec fn values_at(s: Seq<u8>, pos: int, vs: Seq<Value>) -> bool {
    &&& values_wf(vs)
    &&& 0 <= pos
    &&& pos + serialize_values(vs).len() <= s.len()
    &&& s.subrange(pos, pos + serialize_values(vs).len()) == serialize_values(vs)
}

/// `s` holds at `pos` the encodings of the values `vs` closed by a
/// break byte.
pub open spec fn values_break_at(s: Seq<u8>, pos: int, vs: Seq<Value>) -> bool {
    &&& values_wf(vs)
    &&& 0 <= pos
    &&& pos + serialize_values(vs).len() + 1 <= s.len()
    &&& s.subrange(pos, pos + serialize_values(vs).len()) == serialize_values(vs)
    &&& s[pos + serialize_values(vs).len()] == 0xff
}

/// `s` holds at `pos` the encodings of the map entries `ps`, whose
/// keys strictly ascend (above `prev`, where one is given).
pub open spec fn map_pairs_at(s: Seq<u8>, pos: int, ps: Seq<(u64, Value)>, prev: Option<u64>) -> bool {
    &&& pair_values_wf(ps)
    &&& keys_ascending(ps)
    &&& (prev matches Some(p) ==> (ps.len() > 0 ==> ps[0].0 > p))
    &&& 0 <= pos
    &&& pos + serialize_pairs(ps).len() <= s.len()
    &&& s.subrange(pos, pos + serialize_pairs(ps).len()) == serialize_pairs(ps)
}

/// Two values carry the same content: equal numbers and bytes, and
/// the same shape with like children. This is equality as far as the
/// views reach.
pub open spec fn value_like(a: Value, b: Value) -> bool
    decreases a, 1int,
{
    match (a, b) {
        (Value::U64(x), Value::U64(y)) => x == y,
        (Value::Bytes(x), Value::Bytes(y)) => x@ == y@,
        (Value::Text(x), Value::Text(y)) => x@ == y@,
        (Value::Array(x), Value::Array(y)) => values_like(x@, y@),
        (Value::IArray(x), Value::IArray(y)) => values_like(x@, y@),
        (Value::Object(x), Value::Object(y)) => map_pairs_like(x@, y@),
        (Value::Tag(t, x), Value::Tag(u, y)) => t == u && value_like(*x, *y),
        _ => false,
    }
}

/// Two runs of values are alike, element by element.
pub open spec fn values_like(xs: Seq<Value>, ys: Seq<Value>) -> bool
    decreases xs, 0int,
{
    xs.len() == ys.len() && (xs.len() == 0 || (value_like(xs[0], ys[0]) && values_like(
        xs.drop_first(),
        ys.drop_first(),
    )))
}

/// Two runs of map entries are alike: equal keys and like values.
pub open spec fn map_pairs_like(xs: Seq<(u64, Value)>, ys: Seq<(u64, Value)>) -> bool
    decreases xs, 0int,
{
    xs.len() == ys.len() && (xs.len() == 0 || (xs[0].0 == ys[0].0 && value_like(xs[0].1, ys[0].1)
        && map_pairs_like(xs.drop_first(), ys.drop_first())))
}

/// Every value takes at least one byte on the wire.
pub proof fn lemma_serialize_value_len_pos(v: Value)
    ensures
        serialize_value(v).len() >= 1,
{
}

/// A run of values takes at least one byte per value.
pub proof fn lemma_serialize_values_len_ge(vs: Seq<Value>)
    ensures
        serialize_values(vs).len() >= vs.len(),
    decreases vs.len(),
{
    if vs.len() > 0 {
        lemma_serialize_value_len_pos(vs[0]);
        lemma_serialize_values_len_ge(vs.drop_first());
    }
}

/// A run of map entries takes at least two bytes per entry.
pub proof fn lemma_serialize_pairs_len_ge(ps: Seq<(u64, Value)>)
    ensures
        serialize_pairs(ps).len() >= 2 * ps.len(),
    decreases ps.len(),
{
    if ps.len() > 0 {
        lemma_serialize_value_len_pos(ps[0].1);
        lemma_serialize_pairs_len_ge(ps.drop_first());
    }
}

/// A canonical header byte is never the indefinite-array opener nor
/// the break byte.
proof fn lemma_header_first_byte_class(m: u8, n: u64)
    requires
        m < 8,
    ensures
        len_header_bytes(m, n)[0] != 0x9f,
        len_header_bytes(m, n)[0] != 0xff,
{
    let mm = m;
    if n < 24 {
        let x = n as u8;
        assert(((mm * 32 + x) as u8) != 0x9f && ((mm * 32 + x) as u8) != 0xff) by (bit_vector)
            requires
                mm < 8 && x < 24,
        ;
    } else if n < 256 {
        assert(((mm * 32 + 24) as u8) != 0x9f && ((mm * 32 + 24) as u8) != 0xff) by (bit_vector)
            requires
                mm < 8,
        ;
    } else if n < 65536 {
        assert(((mm * 32 + 25) as u8) != 0x9f && ((mm * 32 + 25) as u8) != 0xff) by (bit_vector)
            requires
                mm < 8,
        ;
    } else if n < 0x100000000 {
        assert(((mm * 32 + 26) as u8) != 0x9f && ((mm * 32 + 26) as u8) != 0xff) by (bit_vector)
            requires
                mm < 8,
        ;
    } else {
        assert(((mm * 32 + 27) as u8) != 0x9f && ((mm * 32 + 27) as u8) != 0xff) by (bit_vector)
            requires
                mm < 8,
        ;
    }
}

/// What an encoded value at `pos` forces on the bytes of `s`: the
/// first byte classifies it, the header pins its number, and its
/// children sit right after the header.
proof fn lemma_value_inversion(s: Seq<u8>, pos: int, v: Value)
    requires
        value_at(s, pos, v),
    ensures
        pos < s.len(),
        serialize_value(v).len() >= 1,
        s[pos] != 0xff,
        (v matches Value::IArray(_)) <==> s[pos] == 0x9f,
        (match v {
            Value::U64(n) => header_at(s, pos, 0, n) && serialize_value(v).len()
                == len_header_bytes(0, n).len(),
            Value::Bytes(b) => header_at(s, pos, 2, b@.len() as u64) && ({
                let e = pos + len_header_bytes(2, b@.len() as u64).len();
                e + b@.len() <= s.len() && s.subrange(e, e + b@.len()) == b@
            }),
            Value::Text(t) => header_at(s, pos, 3, t@.len() as u64) && ({
                let e = pos + len_header_bytes(3, t@.len() as u64).len();
                e + t@.len() <= s.len() && s.subrange(e, e + t@.len()) == t@
            }),
            Value::Array(a) => header_at(s, pos, 4, a@.len() as u64) && values_at(
                s,
                pos + len_header_bytes(4, a@.len() as u64).len(),
                a@,
            ),
            Value::IArray(a) => values_break_at(s, pos + 1, a@),
            Value::Object(o) => header_at(s, pos, 5, o@.len() as u64) && map_pairs_at(
                s,
                pos + len_header_bytes(5, o@.len() as u64).len(),
                o@,
                Option::None,
            ),
            Value::Tag(t, bv) => header_at(s, pos, 6, t) && value_at(
                s,
                pos + len_header_bytes(6, t).len(),
                *bv,
            ),
        }),
{
    match v {
        Value::U64(n) => {
            assert(s.subrange(pos, pos + len_header_bytes(0, n).len()) == len_header_bytes(0, n));
            lemma_header_first_byte_class(0, n);
            assert(s[pos] == len_header_bytes(0, n)[0]);
        },
        Value::Bytes(b) => {
            let h = len_header_bytes(2, b@.len() as u64);
            crate::packet::lemma_split_at(s, pos, h, b@);
            lemma_header_first_byte_class(2, b@.len() as u64);
            assert(s[pos] == h[0]) by {
                assert(s.subrange(pos, pos + h.len())[0] == h[0]);
            }
        },
        Value::Text(t) => {
            let h = len_header_bytes(3, t@.len() as u64);
            crate::packet::lemma_split_at(s, pos, h, t@);
            lemma_header_first_byte_class(3, t@.len() as u64);
            assert(s[pos] == h[0]) by {
                assert(s.subrange(pos, pos + h.len())[0] == h[0]);
            }
        },
        Value::Array(a) => {
            let h = len_header_bytes(4, a@.len() as u64);
            crate::packet::lemma_split_at(s, pos, h, serialize_values(a@));
            lemma_header_first_byte_class(4, a@.len() as u64);
            assert(s[pos] == h[0]) by {
                assert(s.subrange(pos, pos + h.len())[0] == h[0]);
            }
        },
        Value::IArray(a) => {
            let sv = serialize_values(a@);
            assert(serialize_value(v) =~= seq![0x9fu8] + (sv + seq![0xffu8]));
            crate::packet::lemma_split_at(s, pos, seq![0x9fu8], sv + seq![0xffu8]);
            crate::packet::lemma_split_at(s, pos + 1, sv, seq![0xffu8]);
            assert(s[pos] == 0x9f) by {
                assert(s.subrange(pos, pos + 1)[0] == 0x9f);
            }
            assert(s[pos + 1 + sv.len()] == 0xff) by {
                assert(s.subrange(pos + 1 + sv.len(), pos + 1 + sv.len() + 1)[0] == 0xff);
            }
        },
        Value::Object(o) => {
            let h = len_header_bytes(5, o@.len() as u64);
            crate::packet::lemma_split_at(s, pos, h, serialize_pairs(o@));
            lemma_header_first_byte_class(5, o@.len() as u64);
            assert(s[pos] == h[0]) by {
                assert(s.subrange(pos, pos + h.len())[0] == h[0]);
            }
        },
        Value::Tag(t, bv) => {
            let h = len_header_bytes(6, t);
            crate::packet::lemma_split_at(s, pos, h, serialize_value(*bv));
            lemma_header_first_byte_class(6, t);
            assert(s[pos] == h[0]) by {
                assert(s.subrange(pos, pos + h.len())[0] == h[0]);
            }
        },
    }
}

/// Decode one value at `pos`. Only the canonical forms are accepted,
/// so whatever comes back re-serializes to exactly the consumed
/// bytes; and a canonically encoded value at `pos` always decodes to
/// a value with its content.
#[verifier::rlimit(100)]
#[verifier::spinoff_prover]
pub fn decode_value(s: &Vec<u8>, pos: usize) -> (r: Result<(Value, usize), Error>)
    requires
        pos <= s@.len(),
    ensures
        r matches Ok(p) ==> pos < p.1 <= s@.len() && value_wf(p.0) && serialize_value(p.0)
            == s@.subrange(pos as int, p.1 as int),
        forall|v2: Value|
            value_at(s@, pos as int, v2) ==> (r matches Ok(p) && value_like(p.0, v2) && p.1 == pos
                + serialize_value(v2).len()),
    decreases s@.len() - pos, 0int, 3int,
{
    let slen: usize = s.len();
    if pos >= slen {
        proof {
            assert forall|v2: Value| !value_at(s@, pos as int, v2) by {
                if value_at(s@, pos as int, v2) {
                    lemma_value_inversion(s@, pos as int, v2);
                }
            }
        }
        return Err(Error::DecodeError);
    }
    let fb = s[pos];
    if fb == 0xff {
        proof {
            assert forall|v2: Value| !value_at(s@, pos as int, v2) by {
                if value_at(s@, pos as int, v2) {
                    lemma_value_inversion(s@, pos as int, v2);
                }
            }
        }
        return Err(Error::DecodeError);
    }
    if fb == 0x9f {
        let rr = decode_iarray_value(s, pos);
        return rr;
    }
    let rh = decode_header(s, pos);
    let (major, n, hend) = match rh {
        Ok(h) => h,
        Err(e) => {
            proof {
                assert forall|v2: Value| !value_at(s@, pos as int, v2) by {
                    if value_at(s@, pos as int, v2) {
                        lemma_value_inversion(s@, pos as int, v2);
                    }
                }
            }
            return Err(e);
        },
    };
    proof {
        assert forall|m: u8, n2: u64| header_at(s@, pos as int, m, n2) implies m == major && n2
            == n && pos + len_header_bytes(m, n2).len() == hend by {
        }
    }
    decode_value_with_header(s, pos, major, n, hend)
}


/// Decode the indefinite array opening at `pos`.
#[verifier::rlimit(100)]
#[verifier::spinoff_prover]
fn decode_iarray_value(s: &Vec<u8>, pos: usize) -> (r: Result<(Value, usize), Error>)
    requires
        pos < s@.len(),
        s@[pos as int] == 0x9f,
    ensures
        r matches Ok(p) ==> pos < p.1 <= s@.len() && value_wf(p.0) && serialize_value(p.0)
            == s@.subrange(pos as int, p.1 as int),
        forall|v2: Value|
            value_at(s@, pos as int, v2) ==> (r matches Ok(p) && value_like(p.0, v2) && p.1 == pos
                + serialize_value(v2).len()),
    decreases s@.len() - pos, 0int, 2int,
{
    let slen: usize = s.len();
    let rr = decode_values_until_break(s, pos + 1);
    let (elems, end) = match rr {
        Ok(p) => p,
        Err(e) => {
            proof {
                assert forall|v2: Value| !value_at(s@, pos as int, v2) by {
                    if value_at(s@, pos as int, v2) {
                        lemma_value_inversion(s@, pos as int, v2);
                    }
                }
            }
            return Err(e);
        },
    };
    let out = Value::IArray(elems);
    proof {
        let bc = serialize_values(elems@) + seq![0xffu8];
        assert(bc == s@.subrange(pos + 1, end as int));
        assert(serialize_value(out) =~= seq![0x9fu8] + bc);
        assert(serialize_value(out) =~= s@.subrange(pos as int, end as int)) by {
            assert forall|t: int|
                0 <= t < end - pos implies s@.subrange(pos as int, end as int)[t] == (seq![0x9fu8]
                + bc)[t] by {
                if t == 0 {
                    assert(s@[pos as int] == 0x9f);
                } else {
                    assert((seq![0x9fu8] + bc)[t] == bc[t - 1]);
                    assert(bc[t - 1] == s@.subrange(pos + 1, end as int)[t - 1]);
                    assert(s@.subrange(pos + 1, end as int)[t - 1] == s@[pos + t]);
                }
            }
        }
        assert forall|v2: Value| value_at(s@, pos as int, v2) implies value_like(out, v2) && end
            == pos + serialize_value(v2).len() by {
            lemma_value_inversion(s@, pos as int, v2);
            let a2 = v2->IArray_0;
            assert(values_break_at(s@, pos + 1, a2@));
            assert(values_like(elems@, a2@) && end == pos + 1 + serialize_values(a2@).len() + 1);
            assert(value_like(out, v2));
        }
    }
    let result: Result<(Value, usize), Error> = Ok((out, end));
    proof {
        assert(forall|v2: Value|
            value_at(s@, pos as int, v2) ==> (result matches Ok(p) && value_like(p.0, v2) && p.1
                == pos + serialize_value(v2).len()));
    }
    result
}

/// The header at `pos` is already read; finish decoding the value it
/// introduces.
#[verifier::rlimit(100)]
#[verifier::spinoff_prover]
fn decode_value_with_header(s: &Vec<u8>, pos: usize, major: u8, n: u64, hend: usize) -> (r: Result<
    (Value, usize),
    Error,
>)
    requires
        pos < s@.len(),
        s@[pos as int] != 0x9f,
        s@[pos as int] != 0xff,
        major < 8,
        pos < hend <= s@.len(),
        len_header_bytes(major, n) == s@.subrange(pos as int, hend as int),
        forall|m: u8, n2: u64|
            header_at(s@, pos as int, m, n2) ==> (m == major && n2 == n && pos
                + len_header_bytes(m, n2).len() == hend),
    ensures
        r matches Ok(p) ==> pos < p.1 <= s@.len() && value_wf(p.0) && serialize_value(p.0)
            == s@.subrange(pos as int, p.1 as int),
        forall|v2: Value|
            value_at(s@, pos as int, v2) ==> (r matches Ok(p) && value_like(p.0, v2) && p.1 == pos
                + serialize_value(v2).len()),
    decreases s@.len() - pos, 0int, 1int,
{
    let slen: usize = s.len();
    if major == 0 {
        let out = Value::U64(n);
        proof {
            assert forall|v2: Value| value_at(s@, pos as int, v2) implies value_like(out, v2)
                && hend == pos + serialize_value(v2).len() by {
                lemma_value_inversion(s@, pos as int, v2);
            }
        }
        return Ok((out, hend));
    }
    if major == 2 || major == 3 {
        let rr = decode_string_value(s, pos, major, n, hend);
        return rr;
    }
    if major == 4 {
        let rr = decode_array_value(s, pos, major, n, hend);
        return rr;
    }
    if major == 5 {
        let rr = decode_object_value(s, pos, major, n, hend);
        return rr;
    }
    if major == 6 {
        let rr = decode_tag_value(s, pos, major, n, hend);
        return rr;
    }
    proof {
        assert forall|v2: Value| !value_at(s@, pos as int, v2) by {
            if value_at(s@, pos as int, v2) {
                lemma_value_inversion(s@, pos as int, v2);
            }
        }
    }
    Err(Error::DecodeError)
}


/// Finish decoding a string value whose header is already read.
#[verifier::rlimit(100)]
#[verifier::spinoff_prover]
fn decode_string_value(s: &Vec<u8>, pos: usize, major: u8, n: u64, hend: usize) -> (r: Result<
    (Value, usize),
    Error,
>)
    requires
        major == 2 || major == 3,
        pos < s@.len(),
        s@[pos as int] != 0x9f,
        s@[pos as int] != 0xff,
        major < 8,
        pos < hend <= s@.len(),
        len_header_bytes(major, n) == s@.subrange(pos as int, hend as int),
        forall|m: u8, n2: u64|
            header_at(s@, pos as int, m, n2) ==> (m == major && n2 == n && pos
                + len_header_bytes(m, n2).len() == hend),
    ensures
        r matches Ok(p) ==> pos < p.1 <= s@.len() && value_wf(p.0) && serialize_value(p.0)
            == s@.subrange(pos as int, p.1 as int),
        forall|v2: Value|
            value_at(s@, pos as int, v2) ==> (r matches Ok(p) && value_like(p.0, v2) && p.1 == pos
                + serialize_value(v2).len()),
    decreases s@.len() - pos, 0int, 0int,
{
    let slen: usize = s.len();
    if n > (s.len() - hend) as u64 {
            proof {
                assert forall|v2: Value| !value_at(s@, pos as int, v2) by {
                    if value_at(s@, pos as int, v2) {
                        lemma_value_inversion(s@, pos as int, v2);
                        if v2 is Bytes {
                            assert((v2->Bytes_0)@.len() <= slen);
                            assert(n == (v2->Bytes_0)@.len());
                        }
                        if v2 is Text {
                            assert((v2->Text_0)@.len() <= slen);
                            assert(n == (v2->Text_0)@.len());
                        }
                    }
                }
            }
            return Err(Error::DecodeError);
        }
        let stop = hend + n as usize;
        let body = copy_range(s, hend, stop);
        let out = if major == 2 {
            Value::Bytes(body)
        } else {
            Value::Text(body)
        };
        proof {
            assert(serialize_value(out) =~= s@.subrange(pos as int, stop as int));
            assert forall|v2: Value| value_at(s@, pos as int, v2) implies value_like(out, v2)
                && stop == pos + serialize_value(v2).len() by {
                lemma_value_inversion(s@, pos as int, v2);
                if v2 is Bytes {
                    assert((v2->Bytes_0)@.len() <= slen);
                    assert(n == (v2->Bytes_0)@.len());
                    assert(body@ == (v2->Bytes_0)@);
                }
                if v2 is Text {
                    assert((v2->Text_0)@.len() <= slen);
                    assert(n == (v2->Text_0)@.len());
                    assert(body@ == (v2->Text_0)@);
                }
            }
        }
        let result: Result<(Value, usize), Error> = Ok((out, stop));
        proof {
            assert(forall|v2: Value|
                value_at(s@, pos as int, v2) ==> (result matches Ok(p) && value_like(p.0, v2)
                    && p.1 == pos + serialize_value(v2).len()));
        }
        return result;
}

/// Finish decoding a array value whose header is already read.
#[verifier::rlimit(100)]
#[verifier::spinoff_prover]
fn decode_array_value(s: &Vec<u8>, pos: usize, major: u8, n: u64, hend: usize) -> (r: Result<
    (Value, usize),
    Error,
>)
    requires
        major == 4,
        pos < s@.len(),
        s@[pos as int] != 0x9f,
        s@[pos as int] != 0xff,
        major < 8,
        pos < hend <= s@.len(),
        len_header_bytes(major, n) == s@.subrange(pos as int, hend as int),
        forall|m: u8, n2: u64|
            header_at(s@, pos as int, m, n2) ==> (m == major && n2 == n && pos
                + len_header_bytes(m, n2).len() == hend),
    ensures
        r matches Ok(p) ==> pos < p.1 <= s@.len() && value_wf(p.0) && serialize_value(p.0)
            == s@.subrange(pos as int, p.1 as int),
        forall|v2: Value|
            value_at(s@, pos as int, v2) ==> (r matches Ok(p) && value_like(p.0, v2) && p.1 == pos
                + serialize_value(v2).len()),
    decreases s@.len() - pos, 0int, 0int,
{
    let slen: usize = s.len();
    let rr = decode_values_n(s, hend, n);
        let (elems, end) = match rr {
            Ok(p) => p,
            Err(e) => {
                proof {
                    assert forall|v2: Value| !value_at(s@, pos as int, v2) by {
                        if value_at(s@, pos as int, v2) {
                            lemma_value_inversion(s@, pos as int, v2);
                            if v2 is Array {
                                lemma_serialize_values_len_ge((v2->Array_0)@);
                            }
                        }
                    }
                }
                return Err(e);
            },
        };
        let out = Value::Array(elems);
        proof {
            assert(serialize_value(out) =~= s@.subrange(pos as int, end as int));
            assert forall|v2: Value| value_at(s@, pos as int, v2) implies value_like(out, v2)
                && end == pos + serialize_value(v2).len() by {
                lemma_value_inversion(s@, pos as int, v2);
                if v2 is Array {
                    lemma_serialize_values_len_ge((v2->Array_0)@);
                    assert((v2->Array_0)@.len() == n);
                    assert(values_at(s@, hend as int, (v2->Array_0)@));
                    assert(values_like(elems@, (v2->Array_0)@));
                    assert(value_like(out, v2));
                }
            }
        }
        let result: Result<(Value, usize), Error> = Ok((out, end));
        proof {
            assert(forall|v2: Value|
                value_at(s@, pos as int, v2) ==> (result matches Ok(p) && value_like(p.0, v2)
                    && p.1 == pos + serialize_value(v2).len()));
        }
        return result;
}

/// Finish decoding a object value whose header is already read.
#[verifier::rlimit(100)]
#[verifier::spinoff_prover]
fn decode_object_value(s: &Vec<u8>, pos: usize, major: u8, n: u64, hend: usize) -> (r: Result<
    (Value, usize),
    Error,
>)
    requires
        major == 5,
        pos < s@.len(),
        s@[pos as int] != 0x9f,
        s@[pos as int] != 0xff,
        major < 8,
        pos < hend <= s@.len(),
        len_header_bytes(major, n) == s@.subrange(pos as int, hend as int),
        forall|m: u8, n2: u64|
            header_at(s@, pos as int, m, n2) ==> (m == major && n2 == n && pos
                + len_header_bytes(m, n2).len() == hend),
    ensures
        r matches Ok(p) ==> pos < p.1 <= s@.len() && value_wf(p.0) && serialize_value(p.0)
            == s@.subrange(pos as int, p.1 as int),
        forall|v2: Value|
            value_at(s@, pos as int, v2) ==> (r matches Ok(p) && value_like(p.0, v2) && p.1 == pos
                + serialize_value(v2).len()),
    decreases s@.len() - pos, 0int, 0int,
{
    let slen: usize = s.len();
    let rr = decode_pairs_n(s, hend, n, None);
        let (pairs, end) = match rr {
            Ok(p) => p,
            Err(e) => {
                proof {
                    assert forall|v2: Value| !value_at(s@, pos as int, v2) by {
                        if value_at(s@, pos as int, v2) {
                            lemma_value_inversion(s@, pos as int, v2);
                            if v2 is Object {
                                lemma_serialize_pairs_len_ge((v2->Object_0)@);
                            }
                        }
                    }
                }
                return Err(e);
            },
        };
        let out = Value::Object(pairs);
        proof {
            assert(serialize_value(out) =~= s@.subrange(pos as int, end as int));
            assert forall|v2: Value| value_at(s@, pos as int, v2) implies value_like(out, v2)
                && end == pos + serialize_value(v2).len() by {
                lemma_value_inversion(s@, pos as int, v2);
                if v2 is Object {
                    lemma_serialize_pairs_len_ge((v2->Object_0)@);
                    assert((v2->Object_0)@.len() == n);
                    assert(map_pairs_at(s@, hend as int, (v2->Object_0)@, Option::None));
                    assert(map_pairs_like(pairs@, (v2->Object_0)@));
                    assert(value_like(out, v2));
                }
            }
        }
        let result: Result<(Value, usize), Error> = Ok((out, end));
        proof {
            assert(forall|v2: Value|
                value_at(s@, pos as int, v2) ==> (result matches Ok(p) && value_like(p.0, v2)
                    && p.1 == pos + serialize_value(v2).len()));
        }
        return result;
}

/// Finish decoding a tag value whose header is already read.
#[verifier::rlimit(100)]
#[verifier::spinoff_prover]
fn decode_tag_value(s: &Vec<u8>, pos: usize, major: u8, n: u64, hend: usize) -> (r: Result<
    (Value, usize),
    Error,
>)
    requires
        major == 6,
        pos < s@.len(),
        s@[pos as int] != 0x9f,
        s@[pos as int] != 0xff,
        major < 8,
        pos < hend <= s@.len(),
        len_header_bytes(major, n) == s@.subrange(pos as int, hend as int),
        forall|m: u8, n2: u64|
            header_at(s@, pos as int, m, n2) ==> (m == major && n2 == n && pos
                + len_header_bytes(m, n2).len() == hend),
    ensures
        r matches Ok(p) ==> pos < p.1 <= s@.len() && value_wf(p.0) && serialize_value(p.0)
            == s@.subrange(pos as int, p.1 as int),
        forall|v2: Value|
            value_at(s@, pos as int, v2) ==> (r matches Ok(p) && value_like(p.0, v2) && p.1 == pos
                + serialize_value(v2).len()),
    decreases s@.len() - pos, 0int, 0int,
{
    let slen: usize = s.len();
    let rr = decode_value(s, hend);
        let (inner, end) = match rr {
            Ok(p) => p,
            Err(e) => {
                proof {
                    assert forall|v2: Value| !value_at(s@, pos as int, v2) by {
                        if value_at(s@, pos as int, v2) {
                            lemma_value_inversion(s@, pos as int, v2);
                        }
                    }
                }
                return Err(e);
            },
        };
        let out = Value::Tag(n, Box::new(inner));
        proof {
            assert(serialize_value(out) =~= s@.subrange(pos as int, end as int));
            assert forall|v2: Value| value_at(s@, pos as int, v2) implies value_like(out, v2)
                && end == pos + serialize_value(v2).len() by {
                lemma_value_inversion(s@, pos as int, v2);
                if v2 is Tag {
                    assert(value_at(s@, hend as int, *(v2->Tag_1)));
                    assert(value_like(inner, *(v2->Tag_1)));
                    assert(value_like(out, v2));
                }
            }
        }
        return Ok((out, end));
}

/// Decode exactly `n` values, one after another.
#[verifier::rlimit(100)]
#[verifier::spinoff_prover]
fn decode_values_n(s: &Vec<u8>, pos: usize, n: u64) -> (r: Result<(Vec<Value>, usize), Error>)
    requires
        pos <= s@.len(),
    ensures
        r matches Ok(p) ==> pos <= p.1 <= s@.len() && values_wf(p.0@) && p.0@.len() == n
            && serialize_values(p.0@) == s@.subrange(pos as int, p.1 as int),
        forall|vs2: Seq<Value>|
            vs2.len() == n && values_at(s@, pos as int, vs2) ==> (r matches Ok(p) && values_like(
                p.0@,
                vs2,
            ) && p.1 == pos + serialize_values(vs2).len()),
    decreases s@.len() - pos, 1int, n,
{
    if n == 0 {
        let out: Vec<Value> = Vec::new();
        proof {
            assert(serialize_values(out@) =~= s@.subrange(pos as int, pos as int));
        }
        return Ok((out, pos));
    }
    proof {
        assert forall|vs2: Seq<Value>|
            vs2.len() == n && values_at(s@, pos as int, vs2) implies value_at(
            s@,
            pos as int,
            vs2[0],
        ) && values_at(s@, pos + serialize_value(vs2[0]).len(), vs2.drop_first()) by {
            crate::packet::lemma_split_at(
                s@,
                pos as int,
                serialize_value(vs2[0]),
                serialize_values(vs2.drop_first()),
            );
        }
    }
    let rv = decode_value(s, pos);
    let (v, vend) = match rv {
        Ok(p) => p,
        Err(e) => {
            return Err(e);
        },
    };
    let rr = decode_values_n(s, vend, n - 1);
    let (rest, end) = match rr {
        Ok(p) => p,
        Err(e) => {
            proof {
                assert forall|vs2: Seq<Value>|
                    !(vs2.len() == n && values_at(s@, pos as int, vs2)) by {
                    if vs2.len() == n && values_at(s@, pos as int, vs2) {
                        assert(vs2.drop_first().len() == n - 1);
                    }
                }
            }
            return Err(e);
        },
    };
    let mut out = rest;
    out.insert(0, v);
    proof {
        assert(out@.drop_first() =~= rest@);
        assert(out@[0] == v);
        assert(out@.len() == rest@.len() + 1);
        assert(serialize_values(out@) =~= s@.subrange(pos as int, end as int)) by {
            assert(s@.subrange(pos as int, end as int) =~= s@.subrange(pos as int, vend as int)
                + s@.subrange(vend as int, end as int));
        }
        assert(values_wf(out@));
        assert forall|vs2: Seq<Value>|
            vs2.len() == n && values_at(s@, pos as int, vs2) implies values_like(out@, vs2) && end
            == pos + serialize_values(vs2).len() by {
            assert(vs2.drop_first().len() == n - 1);
            assert(value_like(v, vs2[0]));
            assert(values_like(rest@, vs2.drop_first()));
        }
    }
    Ok((out, end))
}

/// A break byte at `pos` means no further value sits there: only the
/// empty run is encoded.
proof fn lemma_break_empty(s: Seq<u8>, pos: int)
    requires
        0 <= pos < s.len(),
        s[pos] == 0xff,
    ensures
        forall|vs2: Seq<Value>| values_break_at(s, pos, vs2) ==> vs2.len() == 0,
{
    assert forall|vs2: Seq<Value>| values_break_at(s, pos, vs2) implies vs2.len() == 0 by {
        if vs2.len() > 0 {
            let a = serialize_value(vs2[0]);
            let b = serialize_values(vs2.drop_first());
            assert(s.subrange(pos, pos + serialize_values(vs2).len()) == a + b);
            crate::packet::lemma_split_at(s, pos, a, b);
            lemma_value_inversion(s, pos, vs2[0]);
        }
    }
}

/// Decode values until the break byte, consuming it too.
#[verifier::rlimit(100)]
#[verifier::spinoff_prover]
fn decode_values_until_break(s: &Vec<u8>, pos: usize) -> (r: Result<(Vec<Value>, usize), Error>)
    requires
        pos <= s@.len(),
    ensures
        r matches Ok(p) ==> pos < p.1 <= s@.len() && values_wf(p.0@) && serialize_values(p.0@)
            + seq![0xffu8] == s@.subrange(pos as int, p.1 as int),
        forall|vs2: Seq<Value>|
            values_break_at(s@, pos as int, vs2) ==> (r matches Ok(p) && values_like(p.0@, vs2)
                && p.1 == pos + serialize_values(vs2).len() + 1),
    decreases s@.len() - pos, 1int, 0int,
{
    if pos >= s.len() {
        proof {
            assert forall|vs2: Seq<Value>| !values_break_at(s@, pos as int, vs2) by {
            }
        }
        return Err(Error::DecodeError);
    }
    if s[pos] == 0xff {
        let out: Vec<Value> = Vec::new();
        proof {
            lemma_break_empty(s@, pos as int);
            assert(serialize_values(out@) + seq![0xffu8] =~= s@.subrange(pos as int, pos + 1));
        }
        return Ok((out, pos + 1));
    }
    proof {
        assert forall|vs2: Seq<Value>|
            values_break_at(s@, pos as int, vs2) implies vs2.len() > 0 && value_at(
            s@,
            pos as int,
            vs2[0],
        ) && values_break_at(s@, pos + serialize_value(vs2[0]).len(), vs2.drop_first()) by {
            if vs2.len() == 0 {
                assert(s@[pos as int] == 0xff);
            } else {
                crate::packet::lemma_split_at(
                    s@,
                    pos as int,
                    serialize_value(vs2[0]),
                    serialize_values(vs2.drop_first()),
                );
            }
        }
    }
    let rv = decode_value(s, pos);
    let (v, vend) = match rv {
        Ok(p) => p,
        Err(e) => {
            return Err(e);
        },
    };
    let rr = decode_values_until_break(s, vend);
    let (rest, end) = match rr {
        Ok(p) => p,
        Err(e) => {
            return Err(e);
        },
    };
    let mut out = rest;
    out.insert(0, v);
    proof {
        assert(out@.drop_first() =~= rest@);
        assert(out@[0] == v);
        assert(out@.len() == rest@.len() + 1);
        assert(serialize_values(out@) + seq![0xffu8] =~= s@.subrange(pos as int, end as int)) by {
            assert(s@.subrange(pos as int, end as int) =~= s@.subrange(pos as int, vend as int)
                + s@.subrange(vend as int, end as int));
        }
        assert(values_wf(out@));
        assert forall|vs2: Seq<Value>|
            values_break_at(s@, pos as int, vs2) implies values_like(out@, vs2) && end == pos
            + serialize_values(vs2).len() + 1 by {
            assert(value_like(v, vs2[0]));
            assert(values_like(rest@, vs2.drop_first()));
        }
    }
    Ok((out, end))
}

/// Decode exactly `n` map entries, demanding strictly ascending keys
/// (above `prev`, where one is given).
#[verifier::rlimit(100)]
#[verifier::spinoff_prover]
fn decode_pairs_n(s: &Vec<u8>, pos: usize, n: u64, prev: Option<u64>) -> (r: Result<
    (Vec<(u64, Value)>, usize),
    Error,
>)
    requires
        pos <= s@.len(),
    ensures
        r matches Ok(p) ==> pos <= p.1 <= s@.len() && pair_values_wf(p.0@) && keys_ascending(p.0@)
            && p.0@.len() == n && (prev matches Some(pk) ==> (p.0@.len() > 0 ==> p.0@[0].0 > pk))
            && serialize_pairs(p.0@) == s@.subrange(pos as int, p.1 as int),
        forall|ps2: Seq<(u64, Value)>|
            ps2.len() == n && map_pairs_at(s@, pos as int, ps2, prev) ==> (r matches Ok(p)
                && map_pairs_like(p.0@, ps2) && p.1 == pos + serialize_pairs(ps2).len()),
    decreases s@.len() - pos, 1int, n,
{
    if n == 0 {
        let out: Vec<(u64, Value)> = Vec::new();
        proof {
            assert(serialize_pairs(out@) =~= s@.subrange(pos as int, pos as int));
        }
        return Ok((out, pos));
    }
    proof {
        assert forall|ps2: Seq<(u64, Value)>|
            ps2.len() == n && map_pairs_at(s@, pos as int, ps2, prev) implies header_at(
            s@,
            pos as int,
            0,
            ps2[0].0,
        ) && value_at(s@, pos + len_header_bytes(0, ps2[0].0).len(), ps2[0].1) && map_pairs_at(
            s@,
            pos + len_header_bytes(0, ps2[0].0).len() + serialize_value(ps2[0].1).len(),
            ps2.drop_first(),
            Some(ps2[0].0),
        ) by {
            let a = len_header_bytes(0, ps2[0].0);
            let b = serialize_value(ps2[0].1);
            let rest = serialize_pairs(ps2.drop_first());
            assert(serialize_pairs(ps2) == a + b + rest);
            assert(a + b + rest =~= a + (b + rest));
            crate::packet::lemma_split_at(s@, pos as int, a, b + rest);
            crate::packet::lemma_split_at(s@, pos + a.len(), b, rest);
            assert(ps2.drop_first().len() > 0 ==> ps2.drop_first()[0].0 > ps2[0].0);
        }
    }
    let rk = decode_header(s, pos);
    let (kmajor, k, kend) = match rk {
        Ok(h) => h,
        Err(e) => {
            return Err(e);
        },
    };
    if kmajor != 0 {
        return Err(Error::DecodeError);
    }
    match prev {
        Some(p) => {
            if k <= p {
                return Err(Error::DecodeError);
            }
        },
        None => {},
    }
    let rv = decode_value(s, kend);
    let (v, vend) = match rv {
        Ok(p) => p,
        Err(e) => {
            return Err(e);
        },
    };
    let rr = decode_pairs_n(s, vend, n - 1, Some(k));
    let (rest, end) = match rr {
        Ok(p) => p,
        Err(e) => {
            proof {
                assert forall|ps2: Seq<(u64, Value)>|
                    !(ps2.len() == n && map_pairs_at(s@, pos as int, ps2, prev)) by {
                    if ps2.len() == n && map_pairs_at(s@, pos as int, ps2, prev) {
                        assert(ps2.drop_first().len() == n - 1);
                    }
                }
            }
            return Err(e);
        },
    };
    let mut out = rest;
    out.insert(0, (k, v));
    proof {
        assert(out@.drop_first() =~= rest@);
        assert(out@[0] == (k, v));
        assert(serialize_pairs(out@) =~= s@.subrange(pos as int, end as int)) by {
            assert(s@.subrange(pos as int, end as int) =~= s@.subrange(pos as int, kend as int)
                + s@.subrange(kend as int, vend as int) + s@.subrange(vend as int, end as int));
        }
        assert(pair_values_wf(out@));
        assert(keys_ascending(out@)) by {
            assert forall|i: int, j: int| 0 <= i < j < out@.len() implies out@[i].0 < out@[j].0 by {
                if i == 0 {
                    if j > 1 {
                        assert(rest@[0].0 < rest@[j - 1].0);
                    }
                } else {
                    assert(rest@[i - 1].0 < rest@[j - 1].0);
                }
            }
        }
        assert forall|ps2: Seq<(u64, Value)>|
            ps2.len() == n && map_pairs_at(s@, pos as int, ps2, prev) implies map_pairs_like(
            out@,
            ps2,
        ) && end == pos + serialize_pairs(ps2).len() by {
            assert(ps2.drop_first().len() == n - 1);
            assert(value_like(v, ps2[0].1));
            assert(map_pairs_like(rest@, ps2.drop_first()));
        }
    }
    Ok((out, end))
}

/// A value at any index of a canonical run is canonical.
proof fn lemma_values_wf_prefix(s: Seq<Value>, i: int)
    requires
        values_wf(s),
        0 <= i < s.len(),
    ensures
        value_wf(s[i]),
    decreases s.len(),
{
    if i > 0 {
        lemma_values_wf_prefix(s.drop_first(), i - 1);
    }
}

/// The value at any index of a canonical entry run is canonical.
proof fn lemma_pair_values_wf_prefix(s: Seq<(u64, Value)>, i: int)
    requires
        pair_values_wf(s),
        0 <= i < s.len(),
    ensures
        value_wf(s[i].1),
    decreases s.len(),
{
    if i > 0 {
        lemma_pair_values_wf_prefix(s.drop_first(), i - 1);
    }
}

} // verus!
