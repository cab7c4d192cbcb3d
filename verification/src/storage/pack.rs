//! Pack files and their indexes: a pack is a run of length-prefixed,
//! 4-byte-aligned entries named by the hash of its raw payloads; its
//! index holds a 256-entry cumulative fanout, the sorted hashes, and
//! the entry offsets.

use vstd::prelude::*;
use crate::endian::{u32_be_bytes, u32_of_be, u64_be_bytes, u64_of_be, push_u32_be, push_u64_be, push_all, push_repeat, read_u32_be, read_u64_be};
use crate::error::Error;
use vstd::multiset::Multiset;
use crate::storage::{BlockHash, PackHash, inflate_bytes, inflate_of};

verus! {

/// The size of an index file header: the 8-byte magic and the
/// 256-entry fanout of 4-byte counts.
pub const HEADER_SIZE: usize = 1032;

/// The 8 magic bytes that open an index file.
pub open spec fn magic_bytes() -> Seq<u8> {
    seq![0x41u8, 0x44u8, 0x41u8, 0x50u8, 0x41u8, 0x43u8, 0x4bu8, 0x31u8]
}

/// Append the index magic.
pub fn push_magic(buf: &mut Vec<u8>)
    ensures
        final(buf)@ == old(buf)@ + magic_bytes(),
{
    buf.push(0x41);
    buf.push(0x44);
    buf.push(0x41);
    buf.push(0x50);
    buf.push(0x41);
    buf.push(0x43);
    buf.push(0x4b);
    buf.push(0x31);
    assert(buf@ =~= old(buf)@ + magic_bytes());
}

/// A position within a pack file.
pub type Offset = u64;

/// The rank of a hash within an index's sorted hash array.
pub type IndexOffset = u32;

/// The 256 cumulative counts of hashes by first byte.
pub struct Fanout(Vec<u32>);

/// The rank of the first hash of a first-byte class.
pub struct FanoutStart(pub u32);

/// How many hashes a first-byte class holds.
pub struct FanoutNb(pub u32);

impl Fanout {
    /// The counts.
    pub closed spec fn view(&self) -> Seq<u32> {
        self.0@
    }

    /// A fanout holds 256 counts that never decrease.
    pub open spec fn wf(&self) -> bool {
        self@.len() == 256 && forall|i: int, j: int| 0 <= i <= j < 256 ==> self@[i] <= self@[j]
    }

    /// Wrap 256 monotone counts.
    pub fn from_counts(counts: Vec<u32>) -> (r: Option<Fanout>)
        ensures
            r matches Some(f) ==> f@ == counts@ && f.wf(),
            r is None ==> counts@.len() != 256 || exists|i: int|
                0 <= i < 255 && #[trigger] counts@[i] > counts@[i + 1],
    {
        if counts.len() != 256 {
            return None;
        }
        let mut i: usize = 0;
        while i < 255
            invariant
                counts@.len() == 256,
                i <= 255,
                forall|j: int| 0 <= j < i ==> #[trigger] counts@[j] <= counts@[j + 1],
            decreases 255 - i,
        {
            if counts[i] > counts[i + 1] {
                return None;
            }
            i = i + 1;
        }
        let f = Fanout(counts);
        proof {
            assert forall|a: int, b: int| 0 <= a <= b < 256 implies f@[a] <= f@[b] by {
                lemma_fanout_monotone(f@, a, b);
            }
        }
        Some(f)
    }

    /// The count at one first-byte class.
    pub fn at(&self, i: usize) -> (r: u32)
        requires
            self.wf(),
            i < 256,
        ensures
            r == self@[i as int],
    {
        self.0[i]
    }

    /// The rank and width of the sorted-hash region that can hold a
    /// hash beginning with `hier`.
    pub fn get_indexer_by_hier(&self, hier: u8) -> (r: (FanoutStart, FanoutNb))
        requires
            self.wf(),
        ensures
            r.0.0 == fanout_start_spec(self@, hier),
            r.1.0 == self@[hier as int] - fanout_start_spec(self@, hier),
    {
        if hier == 0 {
            (FanoutStart(0), FanoutNb(self.0[0]))
        } else {
            let start = self.0[(hier - 1) as usize];
            (FanoutStart(start), FanoutNb(self.0[hier as usize] - start))
        }
    }

    /// As `get_indexer_by_hier`, keyed by a hash's first byte.
    pub fn get_indexer_by_hash(&self, hash: &BlockHash) -> (r: (FanoutStart, FanoutNb))
        requires
            self.wf(),
        ensures
            r.0.0 == fanout_start_spec(self@, hash@[0]),
            r.1.0 == self@[hash@[0] as int] - fanout_start_spec(self@, hash@[0]),
    {
        self.get_indexer_by_hier(hash[0])
    }

    /// How many hashes the whole index holds.
    pub fn get_total(&self) -> (r: FanoutNb)
        requires
            self.wf(),
        ensures
            r.0 == self@[255],
    {
        FanoutNb(self.0[255])
    }
}

/// Where a first-byte class starts: the cumulative count below it.
pub open spec fn fanout_start_spec(f: Seq<u32>, hier: u8) -> u32 {
    if hier == 0 {
        0
    } else {
        f[hier - 1]
    }
}

/// Monotonicity of a stepwise-monotone fanout, by induction on the
/// gap.
proof fn lemma_fanout_monotone(f: Seq<u32>, a: int, b: int)
    requires
        f.len() == 256,
        forall|j: int| 0 <= j < 255 ==> #[trigger] f[j] <= f[j + 1],
        0 <= a <= b < 256,
    ensures
        f[a] <= f[b],
    decreases b - a,
{
    if a < b {
        lemma_fanout_monotone(f, a + 1, b);
    }
}

/// The in-memory index a pack writer accumulates: one hash and one
/// pack-file offset per entry, in append order.
pub struct Index {
    pub hashes: Vec<BlockHash>,
    pub offsets: Vec<Offset>,
}

impl Index {
    /// Both columns always hold one row per entry.
    pub open spec fn wf(&self) -> bool {
        self.hashes@.len() == self.offsets@.len()
    }

    /// An empty index.
    pub fn new() -> (r: Index)
        ensures
            r.hashes@.len() == 0 && r.offsets@.len() == 0 && r.wf(),
    {
        Index { hashes: Vec::new(), offsets: Vec::new() }
    }

    /// Record one entry.
    pub fn append(&mut self, hash: &BlockHash, offset: Offset)
        requires
            old(self).wf(),
        ensures
            final(self).wf(),
            final(self).hashes@ == old(self).hashes@.push(*hash),
            final(self).offsets@ == old(self).offsets@.push(offset),
    {
        self.hashes.push(*hash);
        self.offsets.push(offset);
    }
}

/// Lexicographic order on byte strings.
pub open spec fn lex_le(a: Seq<u8>, b: Seq<u8>) -> bool
    decreases a.len(),
{
    if a.len() == 0 {
        true
    } else if b.len() == 0 {
        false
    } else if a[0] < b[0] {
        true
    } else if a[0] > b[0] {
        false
    } else {
        lex_le(a.drop_first(), b.drop_first())
    }
}

/// Whether `a` sorts at or before `b`.
pub fn hash_lex_le(a: &BlockHash, b: &BlockHash) -> (r: bool)
    ensures
        r == lex_le(a@, b@),
{
    proof {
        assert(a@.skip(0) =~= a@);
        assert(b@.skip(0) =~= b@);
    }
    let mut i: usize = 0;
    while i < 32
        invariant
            i <= 32,
            a@.len() == 32,
            b@.len() == 32,
            lex_le(a@, b@) == lex_le(a@.skip(i as int), b@.skip(i as int)),
            forall|j: int| 0 <= j < i ==> a@[j] == b@[j],
        decreases 32 - i,
    {
        if a[i] < b[i] {
            proof {
                reveal_with_fuel(lex_le, 2);
                assert(a@.skip(i as int)[0] == a@[i as int]);
                assert(b@.skip(i as int)[0] == b@[i as int]);
            }
            return true;
        }
        if a[i] > b[i] {
            proof {
                reveal_with_fuel(lex_le, 2);
                assert(a@.skip(i as int)[0] == a@[i as int]);
                assert(b@.skip(i as int)[0] == b@[i as int]);
            }
            return false;
        }
        proof {
            reveal_with_fuel(lex_le, 2);
            assert(a@.skip(i as int)[0] == a@[i as int]);
            assert(b@.skip(i as int)[0] == b@[i as int]);
            assert(a@.skip(i as int).drop_first() =~= a@.skip(i + 1));
            assert(b@.skip(i as int).drop_first() =~= b@.skip(i + 1));
        }
        i = i + 1;
    }
    proof {
        assert(a@.skip(32) =~= Seq::<u8>::empty());
    }
    true
}

/// Lexicographic order is total on equal-length strings.
pub proof fn lemma_lex_total(a: Seq<u8>, b: Seq<u8>)
    requires
        a.len() == b.len(),
    ensures
        lex_le(a, b) || lex_le(b, a),
    decreases a.len(),
{
    if a.len() > 0 {
        if a[0] == b[0] {
            lemma_lex_total(a.drop_first(), b.drop_first());
        }
    }
}

/// The pairs of an index, row by row.
pub open spec fn pairs_of(hs: Seq<BlockHash>, os: Seq<Offset>) -> Seq<(BlockHash, Offset)> {
    Seq::new(hs.len(), |i: int| (hs[i], os[i]))
}

/// The pairs sort by hash.
pub open spec fn sorted_by_hash(ps: Seq<(BlockHash, Offset)>) -> bool {
    forall|i: int, j: int| 0 <= i <= j < ps.len() ==> lex_le((#[trigger] ps[i]).0@, (#[trigger] ps[j]).0@)
}

/// Sort index rows by hash, by repeatedly extracting a least
/// remaining row: the result is ordered and holds exactly the same
/// rows.
pub fn sort_pairs(hs: &Vec<BlockHash>, os: &Vec<Offset>) -> (r: Vec<(BlockHash, Offset)>)
    requires
        hs@.len() == os@.len(),
    ensures
        sorted_by_hash(r@),
        r@.to_multiset() == pairs_of(hs@, os@).to_multiset(),
        r@.len() == hs@.len(),
    decreases hs@.len(),
{
    broadcast use vstd::seq::Seq::to_multiset_ensures;

    let n = hs.len();
    let mut rest: Vec<(BlockHash, Offset)> = Vec::new();
    let mut i: usize = 0;
    while i < n
        invariant
            n == hs@.len() == os@.len(),
            i <= n,
            rest@ == pairs_of(hs@, os@).take(i as int),
        decreases n - i,
    {
        rest.push((hs[i], os[i]));
        proof {
            assert(rest@ =~= pairs_of(hs@, os@).take(i + 1));
        }
        i = i + 1;
    }
    proof {
        assert(pairs_of(hs@, os@).take(n as int) =~= pairs_of(hs@, os@));
    }
    let mut out: Vec<(BlockHash, Offset)> = Vec::new();
    proof {
        out@.to_multiset_ensures();
        assert forall|x: (BlockHash, Offset)| true implies out@.to_multiset().count(x) == 0 by {
            if out@.to_multiset().count(x) > 0 {
                assert(out@.contains(x));
            }
        }
        assert(out@.to_multiset().add(rest@.to_multiset()) =~= rest@.to_multiset());
    }
    while rest.len() > 0
        invariant
            out@.to_multiset().add(rest@.to_multiset()) == pairs_of(hs@, os@).to_multiset(),
            out@.len() + rest@.len() == hs@.len(),
            sorted_by_hash(out@),
            forall|a: int, b: int|
                0 <= a < out@.len() && 0 <= b < rest@.len() ==> lex_le(
                    (#[trigger] out@[a]).0@,
                    (#[trigger] rest@[b]).0@,
                ),
        decreases rest@.len(),
    {
        proof {
            lemma_lex_refl(rest@[0].0@);
        }
        let mut m: usize = 0;
        let mut j: usize = 1;
        while j < rest.len()
            invariant
                rest@.len() > 0,
                m < j,
                j <= rest@.len(),
                forall|t: int| 0 <= t < j ==> lex_le(rest@[m as int].0@, (#[trigger] rest@[t]).0@),
            decreases rest@.len() - j,
        {
            if !hash_lex_le(&rest[m].0, &rest[j].0) {
                proof {
                    lemma_lex_total(rest@[m as int].0@, rest@[j as int].0@);
                    assert forall|t: int| 0 <= t < j + 1 implies lex_le(
                        rest@[j as int].0@,
                        (#[trigger] rest@[t]).0@,
                    ) by {
                        if t == j {
                            lemma_lex_refl(rest@[j as int].0@);
                        } else {
                            lemma_lex_trans(rest@[j as int].0@, rest@[m as int].0@, rest@[t].0@);
                        }
                    }
                }
                m = j;
            } else {
                proof {
                    lemma_lex_refl(rest@[j as int].0@);
                }
            }
            j = j + 1;
        }
        let ghost out_before = out@;
        let ghost rest_before = rest@;
        let picked = rest.remove(m);
        out.push(picked);
        proof {
            rest_before.to_multiset_ensures();
            out_before.to_multiset_ensures();
            assert(rest@ == rest_before.remove(m as int));
            assert(rest_before.remove(m as int).to_multiset() == rest_before.to_multiset().remove(
                rest_before[m as int],
            ));
            assert(rest_before.contains(picked));
            assert(rest_before.to_multiset().count(picked) > 0);
            assert(out@ == out_before.push(picked));
            assert(out_before.push(picked).to_multiset() == out_before.to_multiset().insert(picked));
            assert(out@.to_multiset().add(rest@.to_multiset()) =~= out_before.to_multiset().add(
                rest_before.to_multiset(),
            ));
            assert forall|a: int, b: int|
                0 <= a < out@.len() && 0 <= b < rest@.len() implies lex_le(
                (#[trigger] out@[a]).0@,
                (#[trigger] rest@[b]).0@,
            ) by {
                let rb = if b < m {
                    b
                } else {
                    b + 1
                };
                assert(rest@[b] == rest_before[rb]);
                if a < out@.len() - 1 {
                    assert(out@[a] == out_before[a]);
                } else {
                    assert(out@[a] == picked);
                }
            }
            assert(sorted_by_hash(out@)) by {
                assert forall|a: int, b: int|
                    0 <= a <= b < out@.len() implies lex_le(
                    (#[trigger] out@[a]).0@,
                    (#[trigger] out@[b]).0@,
                ) by {
                    if b < out@.len() - 1 {
                        assert(out@[a] == out_before[a] && out@[b] == out_before[b]);
                    } else if a < out@.len() - 1 {
                        assert(out@[a] == out_before[a] && out@[b] == picked);
                        assert(lex_le(out_before[a].0@, rest_before[m as int].0@));
                    } else {
                        assert(out@[a] == picked && out@[b] == picked);
                        lemma_lex_refl(picked.0@);
                    }
                }
            }
        }
    }
    proof {
        rest@.to_multiset_ensures();
        assert forall|x: (BlockHash, Offset)| true implies rest@.to_multiset().count(x) == 0 by {
            if rest@.to_multiset().count(x) > 0 {
                assert(rest@.contains(x));
            }
        }
        assert(out@.to_multiset() =~= out@.to_multiset().add(rest@.to_multiset()));
    }
    out
}

/// Reflexivity of the lexicographic order.
pub proof fn lemma_lex_refl(a: Seq<u8>)
    ensures
        lex_le(a, a),
    decreases a.len(),
{
    if a.len() > 0 {
        lemma_lex_refl(a.drop_first());
    }
}

/// Transitivity of the lexicographic order.
pub proof fn lemma_lex_trans(a: Seq<u8>, b: Seq<u8>, c: Seq<u8>)
    requires
        lex_le(a, b),
        lex_le(b, c),
    ensures
        lex_le(a, c),
    decreases a.len(),
{
    if a.len() > 0 && b.len() > 0 && c.len() > 0 {
        if a[0] == b[0] && b[0] == c[0] {
            lemma_lex_trans(a.drop_first(), b.drop_first(), c.drop_first());
        }
    }
}

/// How many of `hs` begin with a byte at or below `b`.
pub open spec fn count_first_le(hs: Seq<BlockHash>, b: int) -> int
    decreases hs.len(),
{
    if hs.len() == 0 {
        0
    } else {
        (if hs[0]@[0] <= b {
            1int
        } else {
            0int
        }) + count_first_le(hs.drop_first(), b)
    }
}

/// One more hash raises the counts of the classes at or above its
/// first byte.
pub proof fn lemma_count_first_le_snoc(hs: Seq<BlockHash>, h: BlockHash, b: int)
    ensures
        count_first_le(hs.push(h), b) == count_first_le(hs, b) + (if h@[0] <= b {
            1int
        } else {
            0int
        }),
    decreases hs.len(),
{
    let p = hs.push(h);
    if hs.len() == 0 {
        reveal_with_fuel(count_first_le, 2);
        assert(p[0] == h);
        assert(p.drop_first() =~= Seq::<BlockHash>::empty());
    } else {
        assert(p[0] == hs[0]);
        assert(p.drop_first() =~= hs.drop_first().push(h));
        lemma_count_first_le_snoc(hs.drop_first(), h, b);
    }
}

/// The count never exceeds the number of hashes.
pub proof fn lemma_count_first_le_bound(hs: Seq<BlockHash>, b: int)
    ensures
        0 <= count_first_le(hs, b) <= hs.len(),
    decreases hs.len(),
{
    if hs.len() > 0 {
        lemma_count_first_le_bound(hs.drop_first(), b);
    }
}

/// The concatenation of 32-bit big-endian counts.
pub open spec fn be32_concat(s: Seq<u32>) -> Seq<u8>
    decreases s.len(),
{
    if s.len() == 0 {
        Seq::<u8>::empty()
    } else {
        u32_be_bytes(s[0]) + be32_concat(s.drop_first())
    }
}

/// The concatenation of hashes.
pub open spec fn hashes_concat(s: Seq<BlockHash>) -> Seq<u8>
    decreases s.len(),
{
    if s.len() == 0 {
        Seq::<u8>::empty()
    } else {
        s[0]@ + hashes_concat(s.drop_first())
    }
}

/// The concatenation of 64-bit big-endian offsets.
pub open spec fn be64_concat(s: Seq<Offset>) -> Seq<u8>
    decreases s.len(),
{
    if s.len() == 0 {
        Seq::<u8>::empty()
    } else {
        u64_be_bytes(s[0]) + be64_concat(s.drop_first())
    }
}

/// The hash column of a run of rows.
pub open spec fn pair_hashes(ps: Seq<(BlockHash, Offset)>) -> Seq<BlockHash> {
    ps.map_values(|p: (BlockHash, Offset)| p.0)
}

/// The offset column of a run of rows.
pub open spec fn pair_offsets(ps: Seq<(BlockHash, Offset)>) -> Seq<Offset> {
    ps.map_values(|p: (BlockHash, Offset)| p.1)
}

/// The whole index file: magic, fanout, sorted hashes, offsets.
pub open spec fn index_file_bytes(fan: Seq<u32>, hs: Seq<BlockHash>, os: Seq<Offset>) -> Seq<u8> {
    magic_bytes() + be32_concat(fan) + hashes_concat(hs) + be64_concat(os)
}

/// `file` is the index file for the rows `(hs, os)`: its fanout
/// counts the hashes by first byte, and its body holds the rows
/// sorted by hash.
pub open spec fn is_index_file_for(file: Seq<u8>, hs: Seq<BlockHash>, os: Seq<Offset>) -> bool {
    exists|fan: Seq<u32>, sp: Seq<(BlockHash, Offset)>|
        sorted_by_hash(sp) && fan.len() == 256 && (forall|b: int|
            0 <= b < 256 ==> fan[b] == count_first_le(hs, b)) && sp.to_multiset() == pairs_of(
            hs,
            os,
        ).to_multiset() && sp.len() == hs.len() && file == #[trigger] index_file_bytes(
            fan,
            pair_hashes(sp),
            pair_offsets(sp),
        )
}

/// Appending to a run appends its count's bytes.
proof fn lemma_be32_concat_snoc(s: Seq<u32>, v: u32)
    ensures
        be32_concat(s.push(v)) == be32_concat(s) + u32_be_bytes(v),
    decreases s.len(),
{
    let p = s.push(v);
    if s.len() == 0 {
        reveal_with_fuel(be32_concat, 2);
        assert(p[0] == v);
        assert(p.drop_first() =~= Seq::<u32>::empty());
        assert(be32_concat(s.push(v)) =~= be32_concat(s) + u32_be_bytes(v));
    } else {
        assert(p[0] == s[0]);
        assert(p.drop_first() =~= s.drop_first().push(v));
        lemma_be32_concat_snoc(s.drop_first(), v);
        assert(be32_concat(s.push(v)) =~= be32_concat(s) + u32_be_bytes(v));
    }
}

/// Appending to a run appends its hash's bytes.
proof fn lemma_hashes_concat_snoc(s: Seq<BlockHash>, h: BlockHash)
    ensures
        hashes_concat(s.push(h)) == hashes_concat(s) + h@,
    decreases s.len(),
{
    let p = s.push(h);
    if s.len() == 0 {
        reveal_with_fuel(hashes_concat, 2);
        assert(p[0] == h);
        assert(p.drop_first() =~= Seq::<BlockHash>::empty());
        assert(hashes_concat(s.push(h)) =~= hashes_concat(s) + h@);
    } else {
        assert(p[0] == s[0]);
        assert(p.drop_first() =~= s.drop_first().push(h));
        lemma_hashes_concat_snoc(s.drop_first(), h);
        assert(hashes_concat(s.push(h)) =~= hashes_concat(s) + h@);
    }
}

/// Appending to a run appends its offset's bytes.
proof fn lemma_be64_concat_snoc(s: Seq<Offset>, v: Offset)
    ensures
        be64_concat(s.push(v)) == be64_concat(s) + u64_be_bytes(v),
    decreases s.len(),
{
    let p = s.push(v);
    if s.len() == 0 {
        reveal_with_fuel(be64_concat, 2);
        assert(p[0] == v);
        assert(p.drop_first() =~= Seq::<Offset>::empty());
        assert(be64_concat(s.push(v)) =~= be64_concat(s) + u64_be_bytes(v));
    } else {
        assert(p[0] == s[0]);
        assert(p.drop_first() =~= s.drop_first().push(v));
        lemma_be64_concat_snoc(s.drop_first(), v);
        assert(be64_concat(s.push(v)) =~= be64_concat(s) + u64_be_bytes(v));
    }
}

/// Build the index file for `index`: the cumulative fanout computed
/// from the hashes' first bytes, then the rows sorted by hash.
/// The fanout at each byte counts exactly the hashes at or below it.
pub fn create_index(index: &Index) -> (r: (Fanout, Vec<u8>))
    requires
        index.wf(),
        index.hashes@.len() <= u32::MAX,
    ensures
        r.0.wf(),
        forall|b: int| 0 <= b < 256 ==> r.0@[b] == count_first_le(index.hashes@, b),
        r.0@[255] == index.hashes@.len(),
        exists|sp: Seq<(BlockHash, Offset)>|
            {
                &&& #[trigger] sorted_by_hash(sp)
                &&& sp.to_multiset() == pairs_of(index.hashes@, index.offsets@).to_multiset()
                &&& sp.len() == index.hashes@.len()
                &&& r.1@ == index_file_bytes(r.0@, pair_hashes(sp), pair_offsets(sp))
            },
{
    let entries = index.hashes.len();
    let mut counts: Vec<u32> = Vec::new();
    let mut b: usize = 0;
    while b < 256
        invariant
            entries == index.hashes@.len(),
            index.wf(),
            index.hashes@.len() <= u32::MAX,
            b <= 256,
            counts@.len() == b,
            forall|t: int| 0 <= t < b ==> #[trigger] counts@[t] == count_first_le(index.hashes@, t),
        decreases 256 - b,
    {
        let mut c: u32 = 0;
        let mut k: usize = 0;
        proof {
            assert(index.hashes@.take(0) =~= Seq::<BlockHash>::empty());
        }
        while k < entries
            invariant
                entries == index.hashes@.len() <= u32::MAX,
                k <= entries,
                b < 256,
                c == count_first_le(index.hashes@.take(k as int), b as int),
            decreases entries - k,
        {
            proof {
                lemma_count_first_le_snoc(index.hashes@.take(k as int), index.hashes@[k as int], b as int);
                assert(index.hashes@.take(k + 1) =~= index.hashes@.take(k as int).push(
                    index.hashes@[k as int],
                ));
                lemma_count_first_le_bound(index.hashes@.take(k + 1), b as int);
            }
            if index.hashes[k][0] <= b as u8 {
                c = c + 1;
            }
            k = k + 1;
        }
        proof {
            assert(index.hashes@.take(entries as int) =~= index.hashes@);
        }
        counts.push(c);
        b = b + 1;
    }
    proof {
        assert forall|i: int, j: int| 0 <= i <= j < 256 implies counts@[i] <= counts@[j] by {
            lemma_count_first_le_mono(index.hashes@, i, j);
        }
        assert forall|h: BlockHash| true implies h@[0] <= 255 by {
        }
        assert(counts@[255] == count_first_le(index.hashes@, 255));
        lemma_count_first_le_all(index.hashes@);
    }
    let fanout = Fanout(counts);
    let sorted = sort_pairs(&index.hashes, &index.offsets);
    let mut file: Vec<u8> = Vec::new();
    push_magic(&mut file);
    let mut t: usize = 0;
    while t < 256
        invariant
            fanout@.len() == 256,
            t <= 256,
            file@ == magic_bytes() + be32_concat(fanout@.take(t as int)),
        decreases 256 - t,
    {
        push_u32_be(&mut file, fanout.0[t]);
        proof {
            lemma_be32_concat_snoc(fanout@.take(t as int), fanout@[t as int]);
            assert(fanout@.take(t + 1) =~= fanout@.take(t as int).push(fanout@[t as int]));
        }
        t = t + 1;
    }
    proof {
        assert(fanout@.take(256) =~= fanout@);
    }
    let mut u: usize = 0;
    while u < sorted.len()
        invariant
            u <= sorted@.len(),
            file@ == magic_bytes() + be32_concat(fanout@) + hashes_concat(
                pair_hashes(sorted@.take(u as int)),
            ),
        decreases sorted@.len() - u,
    {
        push_all(&mut file, sorted[u].0.as_slice());
        proof {
            lemma_hashes_concat_snoc(pair_hashes(sorted@.take(u as int)), sorted@[u as int].0);
            assert(pair_hashes(sorted@.take(u + 1)) =~= pair_hashes(sorted@.take(u as int)).push(
                sorted@[u as int].0,
            ));
        }
        u = u + 1;
    }
    proof {
        assert(sorted@.take(sorted@.len() as int) =~= sorted@);
    }
    let mut w: usize = 0;
    while w < sorted.len()
        invariant
            w <= sorted@.len(),
            file@ == magic_bytes() + be32_concat(fanout@) + hashes_concat(pair_hashes(sorted@))
                + be64_concat(pair_offsets(sorted@.take(w as int))),
        decreases sorted@.len() - w,
    {
        push_u64_be(&mut file, sorted[w].1);
        proof {
            lemma_be64_concat_snoc(pair_offsets(sorted@.take(w as int)), sorted@[w as int].1);
            assert(pair_offsets(sorted@.take(w + 1)) =~= pair_offsets(sorted@.take(w as int)).push(
                sorted@[w as int].1,
            ));
        }
        w = w + 1;
    }
    proof {
        assert(sorted@.take(sorted@.len() as int) =~= sorted@);
        assert(file@ =~= index_file_bytes(fanout@, pair_hashes(sorted@), pair_offsets(sorted@)));
    }
    (fanout, file)
}

/// The count by first byte never shrinks as the byte grows.
proof fn lemma_count_first_le_mono(hs: Seq<BlockHash>, i: int, j: int)
    requires
        i <= j,
    ensures
        count_first_le(hs, i) <= count_first_le(hs, j),
    decreases hs.len(),
{
    if hs.len() > 0 {
        lemma_count_first_le_mono(hs.drop_first(), i, j);
    }
}

/// At byte 255 the count covers every hash.
pub proof fn lemma_count_first_le_all(hs: Seq<BlockHash>)
    ensures
        count_first_le(hs, 255) == hs.len(),
    decreases hs.len(),
{
    if hs.len() > 0 {
        lemma_count_first_le_all(hs.drop_first());
    }
}

/// The hash at rank `i` of an index file.
pub open spec fn hash_at(s: Seq<u8>, i: int) -> Seq<u8> {
    s.subrange(HEADER_SIZE + 32 * i, HEADER_SIZE + 32 * i + 32)
}

/// The offset at rank `i` of an index file of `total` hashes.
pub open spec fn offset_at(s: Seq<u8>, total: int, i: int) -> u64 {
    u64_of_be(s.subrange(HEADER_SIZE + 32 * total + 8 * i, HEADER_SIZE + 32 * total + 8 * i + 8))
}

/// Read an index file's header back: its fanout, which must be
/// monotone under a valid magic.
pub fn index_get_header(s: &Vec<u8>) -> (r: Result<Fanout, Error>)
    ensures
        r matches Ok(f) ==> s@.len() >= HEADER_SIZE && f.wf() && s@.subrange(0, 8) == magic_bytes()
            && f@.len() == 256 && forall|b: int|
            0 <= b < 256 ==> f@[b] == u32_of_be(s@.subrange(8 + 4 * b, 12 + 4 * b)),
        r is Err ==> !crate::storage::index_image_wf(s@),
{
    if s.len() < HEADER_SIZE {
        return Err(Error::DecodeError);
    }
    let magic_ok = s[0] == 0x41 && s[1] == 0x44 && s[2] == 0x41 && s[3] == 0x50 && s[4] == 0x41
        && s[5] == 0x43 && s[6] == 0x4b && s[7] == 0x31;
    if !magic_ok {
        proof {
            assert(!crate::storage::index_image_wf(s@)) by {
                if crate::storage::index_image_wf(s@) {
                    assert(s@[0] == s@.subrange(0, 8)[0] && s@[1] == s@.subrange(0, 8)[1] && s@[2]
                        == s@.subrange(0, 8)[2] && s@[3] == s@.subrange(0, 8)[3] && s@[4]
                        == s@.subrange(0, 8)[4] && s@[5] == s@.subrange(0, 8)[5] && s@[6]
                        == s@.subrange(0, 8)[6] && s@[7] == s@.subrange(0, 8)[7]);
                }
            }
        }
        return Err(Error::DecodeError);
    }
    let mut counts: Vec<u32> = Vec::new();
    let mut b: usize = 0;
    while b < 256
        invariant
            s@.len() >= HEADER_SIZE,
            b <= 256,
            counts@.len() == b,
            forall|t: int| 0 <= t < b ==> #[trigger] counts@[t] == u32_of_be(
                s@.subrange(8 + 4 * t, 12 + 4 * t),
            ),
        decreases 256 - b,
    {
        let w = read_u32_be(s, 8 + 4 * b);
        proof {
            assert(s@.subrange(8 + 4 * b, 8 + 4 * b + 4) =~= s@.subrange(
                8 + 4 * (b as int),
                12 + 4 * (b as int),
            ));
        }
        counts.push(w);
        b = b + 1;
    }
    match Fanout::from_counts(counts) {
        Some(f) => {
            proof {
                assert(s@.subrange(0, 8) =~= magic_bytes());
            }
            Ok(f)
        },
        None => {
            proof {
                assert(!crate::storage::index_image_wf(s@)) by {
                    if crate::storage::index_image_wf(s@) {
                        let i = choose|i: int|
                            0 <= i < 255 && #[trigger] counts@[i] > counts@[i + 1];
                        assert(crate::storage::image_count_at(s@, i) <= crate::storage::image_count_at(
                            s@,
                            i + 1,
                        ));
                        assert(counts@[i] == u32_of_be(s@.subrange(8 + 4 * i, 12 + 4 * i)));
                        assert(counts@[i + 1] == u32_of_be(
                            s@.subrange(8 + 4 * (i + 1), 12 + 4 * (i + 1)),
                        ));
                        assert(s@.subrange(8 + 4 * i, 12 + 4 * i) =~= s@.subrange(
                            8 + 4 * i,
                            8 + 4 * i + 4,
                        ));
                        assert(s@.subrange(8 + 4 * (i + 1), 12 + 4 * (i + 1)) =~= s@.subrange(
                            8 + 4 * (i + 1),
                            8 + 4 * (i + 1) + 4,
                        ));
                    }
                }
            }
            Err(Error::DecodeError)
        },
    }
}

/// Scan the sorted-hash region `[start, start+nb)` of an index file
/// for `blk`: the rank of the first match, or nothing when the region
/// holds no match.
pub fn search_index(s: &Vec<u8>, blk: &BlockHash, start_elements: FanoutStart, hier_elements: FanoutNb) -> (r: Option<IndexOffset>)
    requires
        start_elements.0 + hier_elements.0 <= u32::MAX,
        HEADER_SIZE + 32 * (start_elements.0 + hier_elements.0) <= s@.len(),
    ensures
        r matches Some(i) ==> start_elements.0 <= i < start_elements.0 + hier_elements.0 && hash_at(
            s@,
            i as int,
        ) == blk@,
        r is None ==> forall|i: int|
            start_elements.0 <= i < start_elements.0 + hier_elements.0 ==> hash_at(s@, i) != blk@,
{
    let slen: usize = s.len();
    let mut i: u32 = start_elements.0;
    let stop: u32 = start_elements.0 + hier_elements.0;
    while i < stop
        invariant
            slen == s@.len(),
            stop == start_elements.0 + hier_elements.0,
            start_elements.0 <= i <= stop,
            HEADER_SIZE + 32 * stop <= s@.len(),
            blk@.len() == 32,
            forall|t: int| start_elements.0 <= t < i ==> hash_at(s@, t) != blk@,
        decreases stop - i,
    {
        proof {
            assert(32 * (i as int) < 32 * (stop as int)) by (nonlinear_arith)
                requires
                    i < stop,
            ;
        }
        let base: usize = HEADER_SIZE + 32 * (i as usize);
        let mut k: usize = 0;
        let mut matched: bool = true;
        while k < 32
            invariant
                slen == s@.len(),
                base == HEADER_SIZE + 32 * i,
                HEADER_SIZE + 32 * stop <= s@.len(),
                i < stop,
                blk@.len() == 32,
                k <= 32,
                matched <==> (forall|t: int| 0 <= t < k ==> hash_at(s@, i as int)[t] == blk@[t]),
            decreases 32 - k,
        {
            proof {
                assert(hash_at(s@, i as int)[k as int] == s@[base + k]);
            }
            if s[base + k] != blk[k] {
                matched = false;
                k = 32;
            } else {
                k = k + 1;
            }
        }
        if matched {
            proof {
                assert(hash_at(s@, i as int) =~= blk@);
            }
            return Some(i);
        }
        proof {
            assert(hash_at(s@, i as int) != blk@) by {
                if hash_at(s@, i as int) == blk@ {
                    assert(forall|t: int| 0 <= t < 32 ==> hash_at(s@, i as int)[t] == blk@[t]);
                }
            }
        }
        i = i + 1;
    }
    None
}

/// Read the pack-file offset stored at rank `index_offset`.
pub fn resolve_index_offset(s: &Vec<u8>, fanout: &Fanout, index_offset: IndexOffset) -> (r: Offset)
    requires
        fanout.wf(),
        index_offset < fanout@[255],
        HEADER_SIZE + 32 * fanout@[255] + 8 * (index_offset + 1) <= s@.len(),
    ensures
        r == offset_at(s@, fanout@[255] as int, index_offset as int),
{
    let slen: usize = s.len();
    let total = self_total(fanout);
    proof {
        assert(8 * (index_offset as int) < 8 * (index_offset as int + 1));
    }
    let ofs: usize = HEADER_SIZE + 32 * (total as usize) + 8 * (index_offset as usize);
    let r = read_u64_be(s, ofs);
    proof {
        assert(s@.subrange(ofs as int, ofs + 8) =~= s@.subrange(
            HEADER_SIZE + 32 * (fanout@[255] as int) + 8 * (index_offset as int),
            HEADER_SIZE + 32 * (fanout@[255] as int) + 8 * (index_offset as int) + 8,
        ));
    }
    r
}

/// The total entry count of a fanout.
fn self_total(fanout: &Fanout) -> (r: u32)
    requires
        fanout.wf(),
    ensures
        r == fanout@[255],
{
    fanout.get_total().0
}

/// The raw entry payload stored at `ofs` in a pack file: its 4-byte
/// length, then that many bytes.
pub fn read_block_raw_at(s: &Vec<u8>, ofs: u64) -> (r: Result<Vec<u8>, Error>)
    ensures
        r matches Ok(v) ==> ofs + 4 <= s@.len() && v@.len() == u32_of_be(
            s@.subrange(ofs as int, ofs + 4),
        ) && ofs + 4 + v@.len() <= s@.len() && v@ == s@.subrange(ofs + 4, ofs + 4 + v@.len()),
        r is Err <==> (ofs + 4 > s@.len() || ofs + 4 + u32_of_be(
            s@.subrange(ofs as int, ofs + 4),
        ) > s@.len()),
        r is Err ==> r == Err::<Vec<u8>, Error>(Error::DecodeError),
{
    if s.len() < 4 || ofs > (s.len() - 4) as u64 {
        return Err(Error::DecodeError);
    }
    let start = ofs as usize;
    let sz = read_u32_be(s, start);
    if (sz as u64) > (s.len() - start - 4) as u64 {
        return Err(Error::DecodeError);
    }
    let v = crate::cbor::copy_range(s, start + 4, start + 4 + sz as usize);
    Ok(v)
}

/// The entry payload at `ofs`, inflated: pack entries hold the
/// DEFLATE-compressed blob files.
pub fn read_block_at(s: &Vec<u8>, ofs: u64) -> (r: Result<Vec<u8>, Error>)
    ensures
        r matches Ok(v) ==> ofs + 4 <= s@.len() && ({
            let sz = u32_of_be(s@.subrange(ofs as int, ofs + 4));
            ofs + 4 + sz <= s@.len() && inflate_of(s@.subrange(ofs + 4, ofs + 4 + sz))
                == Option::Some(v@)
        }),
        r is Err <==> (ofs + 4 > s@.len() || ({
            let sz = u32_of_be(s@.subrange(ofs as int, ofs + 4));
            ofs + 4 + sz > s@.len() || inflate_of(s@.subrange(ofs + 4, ofs + 4 + sz)) is None
        })),
        r is Err ==> r == Err::<Vec<u8>, Error>(Error::DecodeError),
{
    let raw = match read_block_raw_at(s, ofs) {
        Ok(v) => v,
        Err(e) => {
            return Err(e);
        },
    };
    match inflate_bytes(raw.as_slice()) {
        Ok(v) => Ok(v),
        Err(e) => Err(e),
    }
}

/// The zero padding that aligns an entry to 4 bytes.
pub open spec fn pad_len(n: int) -> int {
    if n % 4 == 0 {
        0
    } else {
        4 - (n % 4)
    }
}

/// One pack entry: the payload length, the payload, and zero padding
/// to a 4-byte boundary.
pub open spec fn entry_bytes(b: Seq<u8>) -> Seq<u8> {
    u32_be_bytes(b.len() as u32) + b + Seq::new(pad_len(b.len() as int) as nat, |i: int| 0u8)
}

/// A whole pack file: its entries, in order.
pub open spec fn entries_concat(ps: Seq<Seq<u8>>) -> Seq<u8>
    decreases ps.len(),
{
    if ps.len() == 0 {
        Seq::<u8>::empty()
    } else {
        entry_bytes(ps[0]) + entries_concat(ps.drop_first())
    }
}

/// The raw payloads, in order, with no framing: what names the pack.
pub open spec fn payloads_concat(ps: Seq<Seq<u8>>) -> Seq<u8>
    decreases ps.len(),
{
    if ps.len() == 0 {
        Seq::<u8>::empty()
    } else {
        ps[0] + payloads_concat(ps.drop_first())
    }
}

/// One more entry appends its bytes.
pub proof fn lemma_entries_concat_snoc(ps: Seq<Seq<u8>>, b: Seq<u8>)
    ensures
        entries_concat(ps.push(b)) == entries_concat(ps) + entry_bytes(b),
    decreases ps.len(),
{
    let p = ps.push(b);
    if ps.len() == 0 {
        reveal_with_fuel(entries_concat, 2);
        assert(p[0] == b);
        assert(p.drop_first() =~= Seq::<Seq<u8>>::empty());
        assert(entries_concat(ps.push(b)) =~= entries_concat(ps) + entry_bytes(b));
    } else {
        assert(p[0] == ps[0]);
        assert(p.drop_first() =~= ps.drop_first().push(b));
        lemma_entries_concat_snoc(ps.drop_first(), b);
        assert(entries_concat(ps.push(b)) =~= entries_concat(ps) + entry_bytes(b));
    }
}

/// One more payload appends its bytes.
pub proof fn lemma_payloads_concat_snoc(ps: Seq<Seq<u8>>, b: Seq<u8>)
    ensures
        payloads_concat(ps.push(b)) == payloads_concat(ps) + b,
    decreases ps.len(),
{
    let p = ps.push(b);
    if ps.len() == 0 {
        reveal_with_fuel(payloads_concat, 2);
        assert(p[0] == b);
        assert(p.drop_first() =~= Seq::<Seq<u8>>::empty());
        assert(payloads_concat(ps.push(b)) =~= payloads_concat(ps) + b);
    } else {
        assert(p[0] == ps[0]);
        assert(p.drop_first() =~= ps.drop_first().push(b));
        lemma_payloads_concat_snoc(ps.drop_first(), b);
        assert(payloads_concat(ps.push(b)) =~= payloads_concat(ps) + b);
    }
}

/// A rolling 32-byte hash of everything fed to it. The context is an
/// outside hasher held whole; Verus sees it only through the two
/// names below.
#[verifier::external_body]
pub struct Blake2bCtx {
    inner: blake2::Blake2b256,
}

/// The bytes a hash context has absorbed so far.
pub uninterp spec fn hashed_bytes(ctx: Blake2bCtx) -> Seq<u8>;

/// What the BLAKE2b-256 digest of a byte string is: a function of the
/// bytes alone.
pub uninterp spec fn blake2b_of(data: Seq<u8>) -> Seq<u8>;

/// Relies on blake2's Blake2b256 (Digest::new): a fresh context has
/// absorbed nothing.
#[verifier::external_body]
fn blake2b_new() -> (r: Blake2bCtx)
    ensures
        hashed_bytes(r) == Seq::<u8>::empty(),
{
    Blake2bCtx { inner: <blake2::Blake2b256 as blake2::Digest>::new() }
}

/// Relies on blake2's Digest::update: absorbing appends to the
/// absorbed bytes.
#[verifier::external_body]
fn blake2b_update(ctx: &mut Blake2bCtx, data: &[u8])
    ensures
        hashed_bytes(*final(ctx)) == hashed_bytes(*old(ctx)) + data@,
{
    <blake2::Blake2b256 as blake2::Digest>::update(&mut ctx.inner, data);
}

/// Relies on blake2's Digest::finalize: a 32-byte digest of the
/// absorbed bytes alone.
#[verifier::external_body]
fn blake2b_finalize(ctx: Blake2bCtx) -> (r: Vec<u8>)
    ensures
        r@ == blake2b_of(hashed_bytes(ctx)),
        r@.len() == 32,
{
    let out = <blake2::Blake2b256 as blake2::Digest>::finalize(ctx.inner);
    out.as_slice().to_vec()
}

/// Turn a 32-byte vector into a hash.
pub fn hash_from_vec(v: &Vec<u8>) -> (r: BlockHash)
    requires
        v@.len() == 32,
    ensures
        r@ == v@,
{
    let mut buf = [0u8; 32];
    let mut i: usize = 0;
    while i < 32
        invariant
            i <= 32,
            v@.len() == 32,
            buf@.len() == 32,
            forall|j: int| 0 <= j < i ==> buf@[j] == v@[j],
        decreases 32 - i,
    {
        buf[i] = v[i];
        i = i + 1;
    }
    proof {
        assert(buf@ =~= v@);
    }
    buf
}

/// A streaming pack builder: it accumulates the framed entries, the
/// rolling payload hash, and the index rows, and remembers (as ghost
/// state) the payloads themselves, so that its contract can say what
/// each offset points at.
pub struct PackWriter {
    content: Vec<u8>,
    index: Index,
    nb_blobs: u32,
    pos: Offset,
    hash_context: Blake2bCtx,
    payloads: Ghost<Seq<Seq<u8>>>,
}

impl PackWriter {
    /// The pack file bytes built so far.
    pub closed spec fn content_spec(&self) -> Seq<u8> {
        self.content@
    }

    /// The raw payloads appended so far, in order.
    pub closed spec fn payloads_spec(&self) -> Seq<Seq<u8>> {
        self.payloads@
    }

    /// The hashes recorded so far, in append order.
    pub closed spec fn hashes_spec(&self) -> Seq<BlockHash> {
        self.index.hashes@
    }

    /// The offsets recorded so far, in append order.
    pub closed spec fn offsets_spec(&self) -> Seq<Offset> {
        self.index.offsets@
    }

    /// What the hasher has absorbed.
    pub closed spec fn hashed_spec(&self) -> Seq<u8> {
        hashed_bytes(self.hash_context)
    }

    /// The write position: the pack file's current size.
    pub closed spec fn pos_spec(&self) -> u64 {
        self.pos
    }

    /// How many blobs were appended.
    pub closed spec fn nb_spec(&self) -> u32 {
        self.nb_blobs
    }

    /// The writer's invariant: the content is exactly the framed
    /// entries of the payloads, the hasher has absorbed exactly their
    /// concatenation, one index row exists per entry, and each
    /// offset marks where its entry begins.
    pub open spec fn wf(&self) -> bool {
        &&& self.pos_spec() == self.content_spec().len()
        &&& self.content_spec() == entries_concat(self.payloads_spec())
        &&& self.hashed_spec() == payloads_concat(self.payloads_spec())
        &&& self.hashes_spec().len() == self.payloads_spec().len()
        &&& self.offsets_spec().len() == self.payloads_spec().len()
        &&& self.nb_spec() == self.payloads_spec().len()
        &&& forall|k: int|
            0 <= k < self.payloads_spec().len() ==> #[trigger] self.offsets_spec()[k]
                == entries_concat(self.payloads_spec().take(k)).len()
    }

    /// A writer with nothing in it.
    pub fn init() -> (r: PackWriter)
        ensures
            r.wf(),
            r.payloads_spec() == Seq::<Seq<u8>>::empty(),
            r.pos_spec() == 0,
            r.nb_spec() == 0,
    {
        let r = PackWriter {
            content: Vec::new(),
            index: Index::new(),
            nb_blobs: 0,
            pos: 0,
            hash_context: blake2b_new(),
            payloads: Ghost(Seq::empty()),
        };
        r
    }

    /// The pack file's size so far.
    pub fn get_current_size(&self) -> (r: u64)
        ensures
            r == self.pos_spec(),
    {
        self.pos
    }

    /// How many blobs were appended so far.
    pub fn get_current_number_of_blobs(&self) -> (r: u32)
        ensures
            r == self.nb_spec(),
    {
        self.nb_blobs
    }

    /// Append one blob: frame and pad its bytes into the pack, feed
    /// the raw bytes to the hasher, and record its hash and offset.
    pub fn append(&mut self, blockhash: &BlockHash, block: &[u8])
        requires
            old(self).wf(),
            block@.len() <= u32::MAX,
            old(self).content_spec().len() + 4 + block@.len() + 4 <= usize::MAX,
            old(self).nb_spec() < u32::MAX,
        ensures
            final(self).wf(),
            final(self).payloads_spec() == old(self).payloads_spec().push(block@),
            final(self).hashes_spec() == old(self).hashes_spec().push(*blockhash),
            final(self).offsets_spec() == old(self).offsets_spec().push(old(self).pos_spec()),
            final(self).content_spec() == old(self).content_spec() + entry_bytes(block@),
            final(self).pos_spec() == old(self).pos_spec() + entry_bytes(block@).len(),
            final(self).nb_spec() == old(self).nb_spec() + 1,
    {
        let len = block.len() as u32;
        push_u32_be(&mut self.content, len);
        push_all(&mut self.content, block);
        blake2b_update(&mut self.hash_context, block);
        let pad: usize = if len % 4 != 0 {
            (4 - len % 4) as usize
        } else {
            0
        };
        push_repeat(&mut self.content, 0, pad);
        self.index.append(blockhash, self.pos);
        proof {
            assert(self.content@ =~= old(self).content_spec() + entry_bytes(block@));
            lemma_entries_concat_snoc(old(self).payloads_spec(), block@);
            lemma_payloads_concat_snoc(old(self).payloads_spec(), block@);
        }
        self.pos = self.content.len() as u64;
        self.nb_blobs = self.nb_blobs + 1;
        proof {
            let ps = old(self).payloads_spec().push(block@);
            assert(ps.take(ps.len() - 1) =~= old(self).payloads_spec());
        }
        self.payloads = Ghost(self.payloads@.push(block@));
        proof {
            assert forall|k: int|
                0 <= k < self.payloads_spec().len() implies #[trigger] self.offsets_spec()[k]
                == entries_concat(self.payloads_spec().take(k)).len() by {
                if k < self.payloads_spec().len() - 1 {
                    assert(self.offsets_spec()[k] == old(self).offsets_spec()[k]);
                    assert(self.payloads_spec().take(k) =~= old(self).payloads_spec().take(k));
                } else {
                    assert(self.payloads_spec().take(k) =~= old(self).payloads_spec());
                }
            }
        }
    }

    /// Close the pack: the 32-byte digest of the raw payloads names
    /// it; the index and the file bytes come along for writing.
    pub fn finalize(self) -> (r: (PackHash, Index, Vec<u8>))
        requires
            self.wf(),
        ensures
            r.0@ == blake2b_of(payloads_concat(self.payloads_spec())),
            r.1.hashes@ == self.hashes_spec(),
            r.1.offsets@ == self.offsets_spec(),
            r.1.wf(),
            r.2@ == self.content_spec(),
            r.2@ == entries_concat(self.payloads_spec()),
    {
        let digest = blake2b_finalize(self.hash_context);
        let packhash = hash_from_vec(&digest);
        (packhash, self.index, self.content)
    }
}

/// The hashes of a run, each before the next.
pub open spec fn hashes_sorted(hs: Seq<BlockHash>) -> bool {
    forall|a: int, b: int| 0 <= a <= b < hs.len() ==> lex_le((#[trigger] hs[a])@, (#[trigger] hs[b])@)
}

/// Rows sorted by hash have sorted hashes.
pub proof fn lemma_pairs_sorted_hashes(sp: Seq<(BlockHash, Offset)>)
    requires
        sorted_by_hash(sp),
    ensures
        hashes_sorted(pair_hashes(sp)),
{
    assert forall|a: int, b: int|
        0 <= a <= b < pair_hashes(sp).len() implies lex_le(
        (#[trigger] pair_hashes(sp)[a])@,
        (#[trigger] pair_hashes(sp)[b])@,
    ) by {
        assert(pair_hashes(sp)[a] == sp[a].0 && pair_hashes(sp)[b] == sp[b].0);
    }
}

/// The first byte decides the lexicographic order first.
proof fn lemma_lex_first_byte(a: Seq<u8>, b: Seq<u8>)
    requires
        lex_le(a, b),
        a.len() > 0,
        b.len() > 0,
    ensures
        a[0] <= b[0],
{
}

/// The count by first byte splits at any cut.
proof fn lemma_count_split(hs: Seq<BlockHash>, x: int, k: int)
    requires
        0 <= k <= hs.len(),
    ensures
        count_first_le(hs, x) == count_first_le(hs.take(k), x) + count_first_le(hs.skip(k), x),
    decreases k,
{
    if k == 0 {
        assert(hs.take(0) =~= Seq::<BlockHash>::empty());
        assert(hs.skip(0) =~= hs);
    } else {
        let d = hs.drop_first();
        lemma_count_split(d, x, k - 1);
        assert(hs.take(k).drop_first() =~= d.take(k - 1));
        assert(hs.skip(k) =~= d.skip(k - 1));
        assert(hs.take(k)[0] == hs[0]);
        assert(hs.take(k).len() == k);
    }
}

/// Where every first byte stays at or below `x`, the count covers the
/// whole run.
proof fn lemma_count_all(hs: Seq<BlockHash>, x: int)
    requires
        forall|j: int| 0 <= j < hs.len() ==> (#[trigger] hs[j])@[0] <= x,
    ensures
        count_first_le(hs, x) == hs.len(),
    decreases hs.len(),
{
    if hs.len() > 0 {
        assert forall|j: int| 0 <= j < hs.drop_first().len() implies (#[trigger] hs.drop_first()[j])@[0]
            <= x by {
            assert(hs.drop_first()[j] == hs[j + 1]);
        }
        lemma_count_all(hs.drop_first(), x);
    }
}

/// Where every first byte exceeds `x`, the count is empty.
proof fn lemma_count_none(hs: Seq<BlockHash>, x: int)
    requires
        forall|j: int| 0 <= j < hs.len() ==> (#[trigger] hs[j])@[0] > x,
    ensures
        count_first_le(hs, x) == 0,
    decreases hs.len(),
{
    if hs.len() > 0 {
        assert forall|j: int| 0 <= j < hs.drop_first().len() implies (#[trigger] hs.drop_first()[j])@[0]
            > x by {
            assert(hs.drop_first()[j] == hs[j + 1]);
        }
        lemma_count_none(hs.drop_first(), x);
    }
}

/// In a sorted run, each hash sits inside the cumulative-count region
/// of its own first byte: at or past the count below it, and before
/// its own count. This is what lets the fanout probe bound the
/// search.
pub proof fn lemma_member_in_fanout_region(hs: Seq<BlockHash>, i: int)
    requires
        hashes_sorted(hs),
        0 <= i < hs.len(),
    ensures
        ({
            let c = hs[i]@[0] as int;
            (if c == 0 {
                0int
            } else {
                count_first_le(hs, c - 1)
            }) <= i < count_first_le(hs, c)
        }),
{
    let c = hs[i]@[0] as int;
    lemma_count_split(hs, c, i + 1);
    assert(count_first_le(hs.take(i + 1), c) == i + 1) by {
        assert forall|j: int| 0 <= j < hs.take(i + 1).len() implies (#[trigger] hs.take(i + 1)[j])@[0]
            <= c by {
            assert(hs.take(i + 1)[j] == hs[j]);
            lemma_lex_first_byte(hs[j]@, hs[i]@);
        }
        lemma_count_all(hs.take(i + 1), c);
    }
    lemma_count_first_le_bound(hs.skip(i + 1), c);
    if c > 0 {
        lemma_count_split(hs, c - 1, i);
        assert(count_first_le(hs.skip(i), c - 1) == 0) by {
            assert forall|j: int| 0 <= j < hs.skip(i).len() implies (#[trigger] hs.skip(i)[j])@[0] > c
                - 1 by {
                assert(hs.skip(i)[j] == hs[i + j]);
                lemma_lex_first_byte(hs[i]@, hs[i + j]@);
            }
            lemma_count_none(hs.skip(i), c - 1);
        }
        lemma_count_first_le_bound(hs.take(i), c - 1);
    }
}

/// Removing row `j` removes exactly its hash's contribution to the
/// count.
proof fn lemma_count_first_le_remove(hs: Seq<BlockHash>, b: int, j: int)
    requires
        0 <= j < hs.len(),
    ensures
        count_first_le(hs, b) == count_first_le(hs.remove(j), b) + (if hs[j]@[0] <= b {
            1int
        } else {
            0int
        }),
{
    lemma_count_split(hs, b, j);
    lemma_count_split(hs.remove(j), b, j);
    assert(hs.remove(j).take(j) =~= hs.take(j));
    assert(hs.remove(j).skip(j) =~= hs.skip(j + 1));
    assert(hs.skip(j)[0] == hs[j]);
    assert(hs.skip(j).drop_first() =~= hs.skip(j + 1));
}

/// The count by first byte sees only which hashes are present, not
/// their order: two runs with the same rows count the same.
pub proof fn lemma_count_pairs_multiset(ps1: Seq<(BlockHash, Offset)>, ps2: Seq<(BlockHash, Offset)>, b: int)
    requires
        ps1.to_multiset() == ps2.to_multiset(),
    ensures
        count_first_le(pair_hashes(ps1), b) == count_first_le(pair_hashes(ps2), b),
    decreases ps1.len(),
{
    ps1.to_multiset_ensures();
    ps2.to_multiset_ensures();
    if ps1.len() == 0 {
        assert(ps2.len() == 0);
        assert(pair_hashes(ps1) =~= Seq::<BlockHash>::empty());
        assert(pair_hashes(ps2) =~= Seq::<BlockHash>::empty());
    } else {
        let x = ps1[0];
        assert(ps1.contains(x));
        assert(ps2.to_multiset().count(x) > 0);
        assert(ps2.contains(x));
        let j = choose|j: int| 0 <= j < ps2.len() && ps2[j] == x;
        assert(ps1.drop_first() =~= ps1.remove(0));
        assert(ps1.remove(0).to_multiset() == ps1.to_multiset().remove(x));
        assert(ps2.remove(j).to_multiset() == ps2.to_multiset().remove(x));
        lemma_count_pairs_multiset(ps1.drop_first(), ps2.remove(j), b);
        lemma_count_first_le_remove(pair_hashes(ps2), b, j);
        assert(pair_hashes(ps2.remove(j)) =~= pair_hashes(ps2).remove(j));
        lemma_count_first_le_remove(pair_hashes(ps1), b, 0);
        assert(pair_hashes(ps1.drop_first()) =~= pair_hashes(ps1).remove(0));
        assert(pair_hashes(ps1)[0] == x.0);
        assert(pair_hashes(ps2)[j] == x.0);
    }
}

/// The byte size of a run of counts.
pub proof fn lemma_be32_concat_len(s: Seq<u32>)
    ensures
        be32_concat(s).len() == 4 * s.len(),
    decreases s.len(),
{
    if s.len() > 0 {
        lemma_be32_concat_len(s.drop_first());
    }
}

/// The byte size of a run of hashes.
pub proof fn lemma_hashes_concat_len(s: Seq<BlockHash>)
    ensures
        hashes_concat(s).len() == 32 * s.len(),
    decreases s.len(),
{
    if s.len() > 0 {
        lemma_hashes_concat_len(s.drop_first());
    }
}

/// The byte size of a run of offsets.
pub proof fn lemma_be64_concat_len(s: Seq<Offset>)
    ensures
        be64_concat(s).len() == 8 * s.len(),
    decreases s.len(),
{
    if s.len() > 0 {
        lemma_be64_concat_len(s.drop_first());
    }
}

/// The bytes of count `i` within a concatenation of counts.
pub proof fn lemma_be32_concat_at(s: Seq<u32>, i: int)
    requires
        0 <= i < s.len(),
    ensures
        be32_concat(s).subrange(4 * i, 4 * i + 4) == u32_be_bytes(s[i]),
    decreases i,
{
    lemma_be32_concat_len(s);
    lemma_be32_concat_len(s.drop_first());
    if i == 0 {
        assert(be32_concat(s).subrange(0, 4) =~= u32_be_bytes(s[0]));
    } else {
        lemma_be32_concat_at(s.drop_first(), i - 1);
        assert(s.drop_first()[i - 1] == s[i]);
        assert(be32_concat(s).subrange(4 * i, 4 * i + 4) =~= be32_concat(s.drop_first()).subrange(
            4 * (i - 1),
            4 * (i - 1) + 4,
        ));
    }
}

/// The bytes of hash `i` within a concatenation of hashes.
proof fn lemma_hashes_concat_at(s: Seq<BlockHash>, i: int)
    requires
        0 <= i < s.len(),
    ensures
        hashes_concat(s).subrange(32 * i, 32 * i + 32) == s[i]@,
    decreases i,
{
    lemma_hashes_concat_len(s);
    lemma_hashes_concat_len(s.drop_first());
    if i == 0 {
        assert(hashes_concat(s).subrange(0, 32) =~= s[0]@);
    } else {
        lemma_hashes_concat_at(s.drop_first(), i - 1);
        assert(s.drop_first()[i - 1] == s[i]);
        assert(hashes_concat(s).subrange(32 * i, 32 * i + 32) =~= hashes_concat(
            s.drop_first(),
        ).subrange(32 * (i - 1), 32 * (i - 1) + 32));
    }
}

/// The bytes of offset `i` within a concatenation of offsets.
proof fn lemma_be64_concat_at(s: Seq<Offset>, i: int)
    requires
        0 <= i < s.len(),
    ensures
        be64_concat(s).subrange(8 * i, 8 * i + 8) == u64_be_bytes(s[i]),
    decreases i,
{
    lemma_be64_concat_len(s);
    lemma_be64_concat_len(s.drop_first());
    if i == 0 {
        assert(be64_concat(s).subrange(0, 8) =~= u64_be_bytes(s[0]));
    } else {
        lemma_be64_concat_at(s.drop_first(), i - 1);
        assert(s.drop_first()[i - 1] == s[i]);
        assert(be64_concat(s).subrange(8 * i, 8 * i + 8) =~= be64_concat(s.drop_first()).subrange(
            8 * (i - 1),
            8 * (i - 1) + 8,
        ));
    }
}

/// What an index file stores at rank `i`: the `i`-th sorted hash and
/// its pack offset. Together with `lemma_member_in_fanout_region`
/// this is why a lookup that probes the fanout and scans the region
/// finds every stored hash, and nothing that is not stored.
pub proof fn lemma_index_file_row(fan: Seq<u32>, hs: Seq<BlockHash>, os: Seq<Offset>, i: int)
    requires
        fan.len() == 256,
        hs.len() == os.len(),
        0 <= i < hs.len(),
    ensures
        hash_at(index_file_bytes(fan, hs, os), i) == hs[i]@,
        offset_at(index_file_bytes(fan, hs, os), hs.len() as int, i) == os[i],
{
    let file = index_file_bytes(fan, hs, os);
    let fb = be32_concat(fan);
    let hb = hashes_concat(hs);
    let ob = be64_concat(os);
    lemma_be32_concat_len(fan);
    lemma_hashes_concat_len(hs);
    lemma_be64_concat_len(os);
    lemma_hashes_concat_at(hs, i);
    lemma_be64_concat_at(os, i);
    assert(hash_at(file, i) =~= hb.subrange(32 * i, 32 * i + 32)) by {
        assert forall|t: int| 0 <= t < 32 implies hash_at(file, i)[t] == hb.subrange(
            32 * i,
            32 * i + 32,
        )[t] by {
            assert(file[HEADER_SIZE + 32 * i + t] == hb[32 * i + t]);
        }
    }
    let obase = HEADER_SIZE + 32 * hs.len() + 8 * i;
    assert(file[obase + 0] == ob[8 * i + 0] && file[obase + 1] == ob[8 * i + 1] && file[obase + 2]
        == ob[8 * i + 2] && file[obase + 3] == ob[8 * i + 3] && file[obase + 4] == ob[8 * i + 4]
        && file[obase + 5] == ob[8 * i + 5] && file[obase + 6] == ob[8 * i + 6] && file[obase + 7]
        == ob[8 * i + 7]);
    assert(file.subrange(obase as int, obase + 8) =~= ob.subrange(8 * i, 8 * i + 8));
    crate::endian::lemma_u64_be_round_trip(os[i]);
}

/// A run of entries splits at any cut.
proof fn lemma_entries_concat_split(ps: Seq<Seq<u8>>, k: int)
    requires
        0 <= k <= ps.len(),
    ensures
        entries_concat(ps) == entries_concat(ps.take(k)) + entries_concat(ps.skip(k)),
    decreases k,
{
    if k == 0 {
        assert(ps.take(0) =~= Seq::<Seq<u8>>::empty());
        assert(ps.skip(0) =~= ps);
        assert(entries_concat(ps) =~= entries_concat(ps.take(0)) + entries_concat(ps.skip(0)));
    } else {
        let d = ps.drop_first();
        lemma_entries_concat_split(d, k - 1);
        assert(ps.take(k).drop_first() =~= d.take(k - 1));
        assert(ps.skip(k) =~= d.skip(k - 1));
        assert(ps.take(k)[0] == ps[0]);
        assert(ps.take(k).len() == k);
        assert(entries_concat(ps) =~= entries_concat(ps.take(k)) + entries_concat(ps.skip(k)));
    }
}

/// Where a pack's offsets mark the start of each framed entry, the
/// bytes at an offset are exactly that entry: its payload's length
/// word, then the payload. Together with the index lemmas this is
/// why a lookup through the index reads back the payload that was
/// appended under the hash it finds.
pub proof fn lemma_pack_entry_at(payloads: Seq<Seq<u8>>, offsets: Seq<Offset>, k: int)
    requires
        offsets.len() == payloads.len(),
        forall|t: int|
            0 <= t < payloads.len() ==> #[trigger] offsets[t] == entries_concat(
                payloads.take(t),
            ).len(),
        forall|t: int| 0 <= t < payloads.len() ==> (#[trigger] payloads[t]).len() <= u32::MAX,
        0 <= k < payloads.len(),
    ensures
        ({
            let content = entries_concat(payloads);
            let ofs = offsets[k] as int;
            &&& ofs + 4 + payloads[k].len() <= content.len()
            &&& content.subrange(ofs, ofs + 4) == u32_be_bytes(payloads[k].len() as u32)
            &&& content.subrange(ofs + 4, ofs + 4 + payloads[k].len()) == payloads[k]
        }),
{
    let content = entries_concat(payloads);
    let ofs = offsets[k] as int;
    let e = entry_bytes(payloads[k]);
    lemma_entries_concat_split(payloads, k);
    lemma_entries_concat_split(payloads.skip(k), 1);
    assert(payloads.skip(k).take(1) =~= seq![payloads[k]]);
    assert(entries_concat(seq![payloads[k]]) =~= e) by {
        reveal_with_fuel(entries_concat, 2);
        assert(seq![payloads[k]].drop_first() =~= Seq::<Seq<u8>>::empty());
    }
    assert(payloads.skip(k).skip(1) =~= payloads.skip(k + 1));
    assert(content == entries_concat(payloads.take(k)) + (e + entries_concat(payloads.skip(k + 1))));
    assert(content.subrange(ofs, ofs + e.len()) =~= e) by {
        assert forall|t: int| 0 <= t < e.len() implies content.subrange(ofs, ofs + e.len())[t]
            == e[t] by {
            assert(content[ofs + t] == (e + entries_concat(payloads.skip(k + 1)))[t]);
        }
    }
    assert(content.subrange(ofs, ofs + 4) =~= e.subrange(0, 4));
    assert(e.subrange(0, 4) =~= u32_be_bytes(payloads[k].len() as u32));
    assert(content.subrange(ofs + 4, ofs + 4 + payloads[k].len()) =~= e.subrange(
        4,
        4 + payloads[k].len() as int,
    ));
    assert(e.subrange(4, 4 + payloads[k].len() as int) =~= payloads[k]);
}

} // verus!
