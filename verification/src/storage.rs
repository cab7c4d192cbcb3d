//! The content-addressed block store: loose blobs, pack files with
//! sorted-hash indexes, and the oracle that locates a block. The
//! in-memory model holds each pack's index image and the set of loose
//! blob hashes; reading and writing the underlying files is the
//! embedding program's concern.

pub mod pack;

use vstd::prelude::*;
use crate::error::Error;
use std::io::Write;

verus! {

/// A 32-byte content address of one block.
pub type BlockHash = [u8; 32];

/// The 32-byte name of a pack: the hash of its raw payloads.
pub type PackHash = [u8; 32];

/// What `flate2` computes when it decompresses a DEFLATE stream;
/// nothing, where the bytes are not one.
pub uninterp spec fn inflate_of(data: Seq<u8>) -> Option<Seq<u8>>;

/// Relies on flate2's DeflateDecoder: decompression is a function of
/// the input bytes alone, and fails where the decoder rejects them.
#[verifier::external_body]
pub(crate) fn inflate_bytes(data: &[u8]) -> (r: Result<Vec<u8>, Error>)
    ensures
        (match r {
            Result::Ok(v) => inflate_of(data@) == Option::Some(v@),
            Result::Err(e) => inflate_of(data@) is None && e == Error::DecodeError,
        }),
{
    let mut d = flate2::write::DeflateDecoder::new(Vec::new());
    if d.write_all(data).is_err() {
        return Err(Error::DecodeError);
    }
    match d.finish() {
        Ok(v) => Ok(v),
        Err(_) => Err(Error::DecodeError),
    }
}

/// Where a block lives: inside the pack named by the hash, at the
/// given rank of its index, or as a loose blob file.
#[derive(Debug, Clone, Copy)]
pub enum BlockLocation {
    Packed(PackHash, pack::IndexOffset),
    Loose,
}

/// The store's in-memory model: each known pack's name and index
/// image, and the hashes of the loose blobs.
pub struct Storage {
    packs: Vec<(PackHash, Vec<u8>)>,
    loose: Vec<BlockHash>,
}

/// An index image is usable when its header parses, its fanout is
/// monotone, and it is long enough for its hashes and offsets.
pub open spec fn index_image_wf(s: Seq<u8>) -> bool {
    &&& s.len() >= pack::HEADER_SIZE
    &&& s.subrange(0, 8) == pack::magic_bytes()
    &&& ({
        let total = image_count_at(s, 255);
        &&& (forall|i: int, j: int|
            0 <= i <= j < 256 ==> #[trigger] image_count_at(s, i) <= #[trigger] image_count_at(
                s,
                j,
            ))
        &&& pack::HEADER_SIZE + 40 * total <= s.len()
        &&& pack::HEADER_SIZE + 40 * total <= usize::MAX
    })
}

/// The fanout count of first-byte class `b` as stored in an index
/// image.
pub open spec fn image_count_at(s: Seq<u8>, b: int) -> u32 {
    u32_of_be_at(s, 8 + 4 * b)
}

/// The 32-bit count at byte position `p` of an index image.
pub open spec fn u32_of_be_at(s: Seq<u8>, p: int) -> u32 {
    crate::endian::u32_of_be(s.subrange(p, p + 4))
}

impl Storage {
    /// The packs this store knows.
    pub closed spec fn packs_seq(&self) -> Seq<(PackHash, Seq<u8>)> {
        self.packs@.map_values(|p: (PackHash, Vec<u8>)| (p.0, p.1@))
    }

    /// The loose blob hashes this store knows.
    pub closed spec fn loose_seq(&self) -> Seq<BlockHash> {
        self.loose@
    }

    /// Every recorded index image is usable.
    pub open spec fn wf(&self) -> bool {
        forall|i: int|
            0 <= i < self.packs_seq().len() ==> index_image_wf((#[trigger] self.packs_seq()[i]).1)
    }

    /// A store that knows nothing yet.
    pub fn init() -> (r: Storage)
        ensures
            r.wf(),
            r.packs_seq() == Seq::<(PackHash, Seq<u8>)>::empty(),
            r.loose_seq() == Seq::<BlockHash>::empty(),
    {
        let r = Storage { packs: Vec::new(), loose: Vec::new() };
        proof {
            assert(r.packs_seq() =~= Seq::<(PackHash, Seq<u8>)>::empty());
        }
        r
    }

    /// Record one pack's index image; exactly the unusable images are
    /// refused.
    pub fn add_pack(&mut self, hash: PackHash, index: Vec<u8>) -> (r: Result<(), Error>)
        requires
            old(self).wf(),
        ensures
            final(self).wf(),
            final(self).loose_seq() == old(self).loose_seq(),
            r is Ok <==> index_image_wf(index@),
            r is Ok ==> final(self).packs_seq() == old(self).packs_seq().push((hash, index@)),
            r is Err ==> *final(self) == *old(self) && r == Err::<(), Error>(Error::DecodeError),
    {
        let fanout = match pack::index_get_header(&index) {
            Ok(f) => f,
            Err(e) => {
                return Err(Error::DecodeError);
            },
        };
        let total = fanout.get_total().0;
        if index.len() < pack::HEADER_SIZE || ((index.len() - pack::HEADER_SIZE) as u64) < 40u64
            * (total as u64) {
            proof {
                assert(!index_image_wf(index@)) by {
                    if index_image_wf(index@) {
                        assert(fanout@[255] == crate::endian::u32_of_be(
                            index@.subrange(8int + 4 * 255, 12int + 4 * 255),
                        ));
                        assert(image_count_at(index@, 255) == fanout@[255]) by {
                            assert(index@.subrange(8int + 4 * 255, 8int + 4 * 255 + 4)
                                =~= index@.subrange(8int + 4 * 255, 12int + 4 * 255));
                        }
                    }
                }
            }
            return Err(Error::DecodeError);
        }
        proof {
            assert(index_image_wf(index@)) by {
                assert forall|i: int, j: int| 0 <= i <= j < 256 implies #[trigger] image_count_at(
                    index@,
                    i,
                ) <= #[trigger] image_count_at(index@, j) by {
                    assert(fanout@[i] == crate::endian::u32_of_be(
                        index@.subrange(8 + 4 * i, 12 + 4 * i),
                    ));
                    assert(fanout@[j] == crate::endian::u32_of_be(
                        index@.subrange(8 + 4 * j, 12 + 4 * j),
                    ));
                    assert(index@.subrange(8 + 4 * i, 8 + 4 * i + 4) =~= index@.subrange(
                        8 + 4 * i,
                        12 + 4 * i,
                    ));
                    assert(index@.subrange(8 + 4 * j, 8 + 4 * j + 4) =~= index@.subrange(
                        8 + 4 * j,
                        12 + 4 * j,
                    ));
                    assert(fanout@[i] <= fanout@[j]);
                }
                assert(image_count_at(index@, 255) == fanout@[255]) by {
                    assert(index@.subrange(8int + 4 * 255, 8int + 4 * 255 + 4) =~= index@.subrange(
                        8int + 4 * 255,
                        12int + 4 * 255,
                    ));
                }
            }
        }
        self.packs.push((hash, index));
        proof {
            assert(self.packs_seq() =~= old(self).packs_seq().push((hash, index@)));
        }
        Ok(())
    }

    /// How many loose blob hashes are recorded.
    pub fn loose_len(&self) -> (r: usize)
        ensures
            r == self.loose_seq().len(),
    {
        self.loose.len()
    }

    /// The loose blob hash at `i`.
    pub fn loose_at(&self, i: usize) -> (r: BlockHash)
        requires
            i < self.loose_seq().len(),
        ensures
            r == self.loose_seq()[i as int],
    {
        self.loose[i]
    }

    /// Replace the loose table wholesale.
    pub fn set_loose(&mut self, loose: Vec<BlockHash>)
        requires
            old(self).wf(),
        ensures
            final(self).wf(),
            final(self).packs_seq() == old(self).packs_seq(),
            final(self).loose_seq() == loose@,
    {
        self.loose = loose;
        proof {
            assert(self.packs_seq() =~= old(self).packs_seq());
        }
    }

    /// Record one loose blob hash.
    pub fn add_loose(&mut self, hash: BlockHash)
        requires
            old(self).wf(),
        ensures
            final(self).wf(),
            final(self).packs_seq() == old(self).packs_seq(),
            final(self).loose_seq() == old(self).loose_seq().push(hash),
    {
        self.loose.push(hash);
        proof {
            assert(self.packs_seq() =~= old(self).packs_seq());
            assert(self.loose_seq() =~= old(self).loose_seq().push(hash));
        }
    }
}

/// `hash` sits at rank `i` of the pack's index image, inside the
/// fanout region of its first byte.
pub open spec fn found_in_image(img: Seq<u8>, hash: BlockHash, i: int) -> bool {
    let b = hash@[0] as int;
    let start = if b == 0 {
        0
    } else {
        image_count_at(img, b - 1) as int
    };
    let stop = image_count_at(img, b) as int;
    start <= i < stop && pack::hash_at(img, i) == hash@
}

/// Whether the loose table holds `hash`.
pub open spec fn loose_has(ls: Seq<BlockHash>, hash: BlockHash) -> bool {
    exists|i: int| 0 <= i < ls.len() && (#[trigger] ls[i])@ == hash@
}

/// Locate a block: probe each known pack through its fanout, and fall
/// back to the loose blobs. A packed answer names the pack and the
/// rank where the hash sits; nothing means no pack's fanout region
/// holds the hash and it is not loose either.
pub fn block_location(storage: &Storage, hash: &BlockHash) -> (r: Option<BlockLocation>)
    requires
        storage.wf(),
    ensures
        r matches Some(loc) ==> (match loc {
            BlockLocation::Packed(p, i) => exists|k: int|
                0 <= k < storage.packs_seq().len() && (#[trigger] storage.packs_seq()[k]).0 == p
                    && found_in_image(storage.packs_seq()[k].1, *hash, i as int),
            BlockLocation::Loose => loose_has(storage.loose_seq(), *hash),
        }),
        r is None ==> !loose_has(storage.loose_seq(), *hash) && (forall|k: int, i: int|
            0 <= k < storage.packs_seq().len() ==> !(#[trigger] found_in_image(
                storage.packs_seq()[k].1,
                *hash,
                i,
            ))),
{
    let n = storage.packs.len();
    let mut k: usize = 0;
    while k < n
        invariant
            storage.wf(),
            n == storage.packs_seq().len(),
            k <= n,
            forall|t: int, i: int|
                0 <= t < k ==> !(#[trigger] found_in_image(storage.packs_seq()[t].1, *hash, i)),
        decreases n - k,
    {
        let img = &storage.packs[k].1;
        proof {
            assert(storage.packs_seq()[k as int] == (storage.packs@[k as int].0, storage.packs@[k as int].1@));
            assert(storage.packs_seq()[k as int].1 == img@);
            assert(index_image_wf(img@));
        }
        let fanout = match pack::index_get_header(img) {
            Ok(f) => f,
            Err(_) => {
                proof {
                    assert(index_image_wf(storage.packs_seq()[k as int].1));
                    assert(false);
                }
                return None;
            },
        };
        let (start, nb) = fanout.get_indexer_by_hash(hash);
        proof {
            lemma_image_region(img@, fanout@, *hash);
        }
        if nb.0 > 0 {
            match pack::search_index(img, hash, start, nb) {
                Some(iloc) => {
                    let packref = storage.packs[k].0;
                    proof {
                        assert(found_in_image(storage.packs_seq()[k as int].1, *hash, iloc as int));
                        assert(storage.packs_seq()[k as int].0 == packref);
                    }
                    return Some(BlockLocation::Packed(packref, iloc));
                },
                None => {
                    proof {
                        assert forall|i: int| true implies !found_in_image(
                            storage.packs_seq()[k as int].1,
                            *hash,
                            i,
                        ) by {
                        }
                    }
                },
            }
        } else {
            proof {
                assert forall|i: int| true implies !found_in_image(
                    storage.packs_seq()[k as int].1,
                    *hash,
                    i,
                ) by {
                }
            }
        }
        k = k + 1;
    }
    let mut t: usize = 0;
    while t < storage.loose.len()
        invariant
            t <= storage.loose_seq().len(),
            forall|j: int| 0 <= j < t ==> (#[trigger] storage.loose_seq()[j])@ != hash@,
        decreases storage.loose_seq().len() - t,
    {
        if hashes_equal(&storage.loose[t], hash) {
            return Some(BlockLocation::Loose);
        }
        t = t + 1;
    }
    None
}

/// A usable image's fanout region for a hash lies within its hashes
/// section, and the parsed fanout agrees with the stored counts.
proof fn lemma_image_region(img: Seq<u8>, fan: Seq<u32>, hash: BlockHash)
    requires
        index_image_wf(img),
        fan.len() == 256,
        forall|b: int| 0 <= b < 256 ==> fan[b] == crate::endian::u32_of_be(
            img.subrange(8 + 4 * b, 12 + 4 * b),
        ),
    ensures
        forall|b: int| 0 <= b < 256 ==> fan[b] == #[trigger] image_count_at(img, b),
        fan[255] == image_count_at(img, 255),
        pack::HEADER_SIZE + 32 * fan[255] <= img.len(),
        fan[hash@[0] as int] <= fan[255],
{
    assert forall|b: int| 0 <= b < 256 implies fan[b] == #[trigger] image_count_at(img, b) by {
        assert(img.subrange(8 + 4 * b, 12 + 4 * b) =~= img.subrange(8 + 4 * b, 8 + 4 * b + 4));
    }
    assert(fan[hash@[0] as int] <= fan[255]) by {
        assert(image_count_at(img, hash@[0] as int) <= image_count_at(img, 255));
    }
}


/// The stored fanout count of class `b` in an index file built from
/// `fan`, `hs` and `os` is `fan[b]` itself.
proof fn lemma_image_count_is_fanout(fan: Seq<u32>, hs: Seq<BlockHash>, os: Seq<pack::Offset>, b: int)
    requires
        fan.len() == 256,
        0 <= b < 256,
    ensures
        image_count_at(pack::index_file_bytes(fan, hs, os), b) == fan[b],
{
    let file = pack::index_file_bytes(fan, hs, os);
    let fb = pack::be32_concat(fan);
    pack::lemma_be32_concat_len(fan);
    pack::lemma_be32_concat_at(fan, b);
    assert(file.subrange(8 + 4 * b, 8 + 4 * b + 4) =~= fb.subrange(4 * b, 4 * b + 4)) by {
        assert(file[8 + 4 * b + 0] == fb[4 * b + 0] && file[8 + 4 * b + 1] == fb[4 * b + 1]
            && file[8 + 4 * b + 2] == fb[4 * b + 2] && file[8 + 4 * b + 3] == fb[4 * b + 3]);
    }
    crate::endian::lemma_u32_be_round_trip(fan[b]);
}

/// The block-location law for packs built by this library: in an
/// index file whose fanout counts its sorted hashes, a hash is found
/// by the fanout probe exactly when it is one of the pack's hashes.
/// Two packs built from disjoint hash sets therefore each resolve
/// their own hashes and never each other's.
pub proof fn lemma_found_in_image_iff_member(
    fan: Seq<u32>,
    hs: Seq<BlockHash>,
    os: Seq<pack::Offset>,
    h: BlockHash,
)
    requires
        fan.len() == 256,
        forall|b: int| 0 <= b < 256 ==> fan[b] == pack::count_first_le(hs, b),
        pack::hashes_sorted(hs),
        hs.len() == os.len(),
    ensures
        (exists|i: int| found_in_image(pack::index_file_bytes(fan, hs, os), h, i)) <==> (exists|j: int|
            0 <= j < hs.len() && (#[trigger] hs[j])@ == h@),
{
    let file = pack::index_file_bytes(fan, hs, os);
    let c = h@[0] as int;
    lemma_image_count_is_fanout(fan, hs, os, c);
    if c > 0 {
        lemma_image_count_is_fanout(fan, hs, os, c - 1);
    }
    pack::lemma_count_first_le_all(hs);
    if exists|j: int| 0 <= j < hs.len() && (#[trigger] hs[j])@ == h@ {
        let j = choose|j: int| 0 <= j < hs.len() && (#[trigger] hs[j])@ == h@;
        pack::lemma_member_in_fanout_region(hs, j);
        pack::lemma_index_file_row(fan, hs, os, j);
        assert(found_in_image(file, h, j));
    }
    if exists|i: int| found_in_image(file, h, i) {
        let i = choose|i: int| found_in_image(file, h, i);
        assert(fan[c] == pack::count_first_le(hs, c));
        pack::lemma_count_first_le_bound(hs, c);
        assert(0 <= i < hs.len());
        pack::lemma_index_file_row(fan, hs, os, i);
        assert(hs[i]@ == h@);
    }
}


/// The find law for indexes this library builds. `create_index`
/// counts its fanout over the rows as they were appended and sorts
/// the body; the count sees only which hashes are present, so the
/// fanout also counts the sorted hashes, and the fanout probe finds
/// exactly the pack's own hashes: every appended hash is found, and
/// nothing else is. Two packs built from disjoint sets therefore
/// each resolve their own hashes and never each other's.
pub proof fn lemma_built_index_finds(
    fan: Seq<u32>,
    hs: Seq<BlockHash>,
    os: Seq<pack::Offset>,
    sp: Seq<(BlockHash, pack::Offset)>,
    h: BlockHash,
)
    requires
        fan.len() == 256,
        forall|b: int| 0 <= b < 256 ==> fan[b] == pack::count_first_le(hs, b),
        pack::sorted_by_hash(sp),
        sp.to_multiset() == pack::pairs_of(hs, os).to_multiset(),
        sp.len() == hs.len(),
        hs.len() == os.len(),
    ensures
        (exists|i: int|
            found_in_image(
                pack::index_file_bytes(fan, pack::pair_hashes(sp), pack::pair_offsets(sp)),
                h,
                i,
            )) <==> (exists|j: int| 0 <= j < hs.len() && (#[trigger] hs[j])@ == h@),
{
    let shs = pack::pair_hashes(sp);
    assert(pack::pair_hashes(pack::pairs_of(hs, os)) =~= hs);
    assert forall|b: int| 0 <= b < 256 implies fan[b] == pack::count_first_le(shs, b) by {
        pack::lemma_count_pairs_multiset(pack::pairs_of(hs, os), sp, b);
    }
    pack::lemma_pairs_sorted_hashes(sp);
    lemma_found_in_image_iff_member(fan, shs, pack::pair_offsets(sp), h);
    sp.to_multiset_ensures();
    pack::pairs_of(hs, os).to_multiset_ensures();
    if exists|j: int| 0 <= j < hs.len() && (#[trigger] hs[j])@ == h@ {
        let j = choose|j: int| 0 <= j < hs.len() && (#[trigger] hs[j])@ == h@;
        let pr = pack::pairs_of(hs, os)[j];
        assert(pack::pairs_of(hs, os).contains(pr));
        assert(sp.to_multiset().count(pr) > 0);
        assert(sp.contains(pr));
        let i = choose|i: int| 0 <= i < sp.len() && sp[i] == pr;
        assert(shs[i] == pr.0);
        assert(shs[i]@ == h@);
    }
    if exists|i: int| 0 <= i < shs.len() && (#[trigger] shs[i])@ == h@ {
        let i = choose|i: int| 0 <= i < shs.len() && (#[trigger] shs[i])@ == h@;
        let pr = sp[i];
        assert(sp.contains(pr));
        assert(pack::pairs_of(hs, os).to_multiset().count(pr) > 0);
        assert(pack::pairs_of(hs, os).contains(pr));
        let j = choose|j: int| 0 <= j < pack::pairs_of(hs, os).len() && pack::pairs_of(hs, os)[j]
            == pr;
        assert(hs[j] == pr.0);
        assert(hs[j]@ == h@);
    }
}


/// The offset half of the find law: every sorted row of a built
/// index is one of the appended rows, so the offset stored at a
/// found rank is the offset recorded when its hash was appended —
/// with distinct hashes, the one and only entry appended under it,
/// which `lemma_pack_entry_at` ties to its payload.
pub proof fn lemma_built_index_offset(
    hs: Seq<BlockHash>,
    os: Seq<pack::Offset>,
    sp: Seq<(BlockHash, pack::Offset)>,
    i: int,
)
    requires
        hs.len() == os.len(),
        sp.to_multiset() == pack::pairs_of(hs, os).to_multiset(),
        0 <= i < sp.len(),
    ensures
        exists|j: int|
            0 <= j < hs.len() && (#[trigger] hs[j]) == sp[i].0 && os[j] == sp[i].1,
{
    sp.to_multiset_ensures();
    pack::pairs_of(hs, os).to_multiset_ensures();
    let pr = sp[i];
    assert(sp.contains(pr));
    assert(pack::pairs_of(hs, os).to_multiset().count(pr) > 0);
    assert(pack::pairs_of(hs, os).contains(pr));
    let j = choose|j: int|
        0 <= j < pack::pairs_of(hs, os).len() && pack::pairs_of(hs, os)[j] == pr;
    assert(hs[j] == pr.0 && os[j] == pr.1);
}

/// Whether two hashes hold the same bytes.
pub fn hashes_equal(a: &BlockHash, b: &BlockHash) -> (r: bool)
    ensures
        r <==> a@ == b@,
{
    let mut i: usize = 0;
    while i < 32
        invariant
            i <= 32,
            a@.len() == 32,
            b@.len() == 32,
            forall|j: int| 0 <= j < i ==> a@[j] == b@[j],
        decreases 32 - i,
    {
        if a[i] != b[i] {
            return false;
        }
        i = i + 1;
    }
    proof {
        assert(a@ =~= b@);
    }
    true
}

/// The knobs of a packing run: an optional cap on how many blobs to
/// take, a soft cap on the pack file size (honored at entry
/// boundaries), and whether the packed blobs leave the loose store.
pub struct PackParameters {
    pub limit_nb_blobs: Option<u32>,
    pub limit_size: Option<u64>,
    pub delete_blobs_after_pack: bool,
}

/// The payload bytes of a run of blobs.
pub open spec fn blob_payloads(s: Seq<(BlockHash, Vec<u8>)>) -> Seq<Seq<u8>> {
    s.map_values(|p: (BlockHash, Vec<u8>)| p.1@)
}

/// The hashes of a run of blobs.
pub open spec fn blob_hashes(s: Seq<(BlockHash, Vec<u8>)>) -> Seq<BlockHash> {
    s.map_values(|p: (BlockHash, Vec<u8>)| p.0)
}

/// Where each framed entry of a pack built from `ps` begins.
pub open spec fn entry_offsets(ps: Seq<Seq<u8>>) -> Seq<pack::Offset> {
    Seq::new(ps.len(), |t: int| pack::entries_concat(ps.take(t)).len() as u64)
}

/// Whether the first `k` blobs include one named `h`.
pub open spec fn packed_has(s: Seq<(BlockHash, Vec<u8>)>, k: int, h: BlockHash) -> bool {
    exists|i: int| 0 <= i < k && i < s.len() && (#[trigger] s[i]).0@ == h@
}

/// Whether one of the first `k` blobs carries hash `h`.
fn hash_among(blobs: &Vec<(BlockHash, Vec<u8>)>, k: usize, h: &BlockHash) -> (r: bool)
    requires
        k <= blobs@.len(),
    ensures
        r <==> packed_has(blobs@, k as int, *h),
{
    let mut i: usize = 0;
    while i < k
        invariant
            i <= k <= blobs@.len(),
            forall|j: int| 0 <= j < i ==> (#[trigger] blobs@[j]).0@ != h@,
        decreases k - i,
    {
        if hashes_equal(&blobs[i].0, h) {
            proof {
                assert(blobs@[i as int].0@ == h@);
            }
            return true;
        }
        i = i + 1;
    }
    false
}

/// Pack a prefix of the given loose blobs: frame each into a fresh
/// pack, honoring the count and size limits, name the pack by the
/// digest of the raw payloads, build and record its index, and (when
/// asked) drop the packed hashes from the loose table. The pack file
/// and index file bytes come back for the caller to write out.
pub fn pack_blobs(storage: &mut Storage, params: &PackParameters, blobs: &Vec<(BlockHash, Vec<u8>)>) -> (r: Result<
    (PackHash, Vec<u8>, Vec<u8>),
    Error,
>)
    requires
        old(storage).wf(),
    ensures
        final(storage).wf(),
        r matches Ok(out) ==> exists|k: int|
            {
                &&& 0 <= k <= blobs@.len()
                &&& out.0@ == pack::blake2b_of(pack::payloads_concat(#[trigger] blob_payloads(
                    blobs@.take(k),
                )))
                &&& out.1@ == pack::entries_concat(blob_payloads(blobs@.take(k)))
                &&& pack::is_index_file_for(
                    out.2@,
                    blob_hashes(blobs@.take(k)),
                    entry_offsets(blob_payloads(blobs@.take(k))),
                )
                &&& final(storage).packs_seq() == old(storage).packs_seq().push((out.0, out.2@))
                &&& (params.limit_nb_blobs is None && params.limit_size is None ==> k
                    == blobs@.len())
                &&& (params.limit_nb_blobs matches Some(n) ==> k <= n)
                &&& (k < blobs@.len() && (match params.limit_nb_blobs {
                    Option::Some(n) => k < n,
                    Option::None => true,
                }) ==> (params.limit_size matches Some(sz) && pack::entries_concat(
                    blob_payloads(blobs@.take(k)),
                ).len() >= sz))
                &&& (params.limit_size matches Some(sz2) ==> (forall|j: int|
                    0 < j < k ==> pack::entries_concat(
                        blob_payloads(#[trigger] blobs@.take(j)),
                    ).len() < sz2))
                &&& (params.delete_blobs_after_pack ==> forall|j: int|
                    0 <= j < final(storage).loose_seq().len() ==> !packed_has(
                        blobs@,
                        k,
                        #[trigger] final(storage).loose_seq()[j],
                    ))
                &&& (params.delete_blobs_after_pack ==> forall|j: int|
                    0 <= j < old(storage).loose_seq().len() && !packed_has(
                        blobs@,
                        k,
                        #[trigger] old(storage).loose_seq()[j],
                    ) ==> loose_has(final(storage).loose_seq(), old(storage).loose_seq()[j]))
                &&& (!params.delete_blobs_after_pack ==> final(storage).loose_seq() == old(
                    storage,
                ).loose_seq())
            },
        r is Err ==> r == Err::<(PackHash, Vec<u8>, Vec<u8>), Error>(Error::IoError)
            && *final(storage) == *old(storage),
        (blobs@.len() < u32::MAX && (forall|j: int|
            0 <= j < blobs@.len() ==> (#[trigger] blobs@[j]).1@.len() <= u32::MAX) && (forall|j: int|
            0 <= j <= blobs@.len() ==> pack::entries_concat(
                blob_payloads(#[trigger] blobs@.take(j)),
            ).len() + 8 <= usize::MAX)) ==> r is Ok,
{
    let mut writer = pack::PackWriter::init();
    let limit: usize = match params.limit_nb_blobs {
        Some(n) => {
            if (n as usize) < blobs.len() {
                n as usize
            } else {
                blobs.len()
            }
        },
        None => blobs.len(),
    };
    let mut k: usize = 0;
    let mut stop: bool = false;
    proof {
        assert(blob_payloads(blobs@.take(0)) =~= Seq::<Seq<u8>>::empty());
        assert(blob_hashes(blobs@.take(0)) =~= Seq::<BlockHash>::empty());
    }
    while k < limit && !stop
        invariant
            *storage == *old(storage),
            old(storage).wf(),
            limit <= blobs@.len(),
            k <= limit,
            writer.wf(),
            writer.payloads_spec() == blob_payloads(blobs@.take(k as int)),
            writer.hashes_spec() == blob_hashes(blobs@.take(k as int)),
            writer.nb_spec() == k,
            params.limit_size is None ==> !stop,
            params.limit_nb_blobs is None ==> limit == blobs@.len(),
            params.limit_nb_blobs matches Some(n) ==> limit <= n,
            params.limit_size matches Some(sz) ==> ((forall|j: int|
                0 < j < k ==> pack::entries_concat(
                    blob_payloads(#[trigger] blobs@.take(j)),
                ).len() < sz) && (stop ==> pack::entries_concat(
                blob_payloads(blobs@.take(k as int)),
            ).len() >= sz) && (!stop && k > 0 ==> pack::entries_concat(
                blob_payloads(blobs@.take(k as int)),
            ).len() < sz)),
        decreases limit - k,
    {
        let blob = &blobs[k].1;
        proof {
            assert(blob_payloads(blobs@.take(k + 1)) =~= blob_payloads(blobs@.take(k as int)).push(
                blobs@[k as int].1@,
            ));
            pack::lemma_entries_concat_snoc(blob_payloads(blobs@.take(k as int)), blobs@[k as int].1@);
        }
        if blob.len() > 0xffffffffusize {
            return Err(Error::IoError);
        }
        let size_now = writer.get_current_size();
        if size_now > (usize::MAX - 8) as u64 || (blob.len() as u64) > (usize::MAX - 8) as u64
            - size_now {
            return Err(Error::IoError);
        }
        if writer.get_current_number_of_blobs() == 0xffffffffu32 {
            return Err(Error::IoError);
        }
        writer.append(&blobs[k].0, blob.as_slice());
        proof {
            assert(blob_payloads(blobs@.take(k + 1)) =~= blob_payloads(blobs@.take(k as int)).push(
                blobs@[k as int].1@,
            ));
            assert(blob_hashes(blobs@.take(k + 1)) =~= blob_hashes(blobs@.take(k as int)).push(
                blobs@[k as int].0,
            ));
        }
        k = k + 1;
        match params.limit_size {
            None => {},
            Some(sz) => {
                if writer.get_current_size() >= sz {
                    stop = true;
                }
            },
        }
    }
    let ghost taken_count = k as int;
    let ghost taken = writer.payloads_spec();
    proof {
        assert(params.limit_nb_blobs is None && params.limit_size is None ==> k == blobs@.len());
        assert(k < blobs@.len() && (match params.limit_nb_blobs {
            Option::Some(n) => (k as int) < n,
            Option::None => true,
        }) ==> stop);
    }
    let (packhash, index, pack_file) = writer.finalize();
    if index.hashes.len() > 0xffffffffusize {
        return Err(Error::IoError);
    }
    proof {
        assert(index.offsets@ =~= entry_offsets(taken));
    }
    let (fanout_built, index_file) = pack::create_index(&index);
    let idx_copy = crate::cbor::copy_range(&index_file, 0, index_file.len());
    proof {
        assert(idx_copy@ =~= index_file@);
        let sp = choose|sp: Seq<(BlockHash, pack::Offset)>|
            {
                &&& #[trigger] pack::sorted_by_hash(sp)
                &&& sp.to_multiset() == pack::pairs_of(
                    index.hashes@,
                    index.offsets@,
                ).to_multiset()
                &&& sp.len() == index.hashes@.len()
                &&& index_file@ == pack::index_file_bytes(
                    fanout_built@,
                    pack::pair_hashes(sp),
                    pack::pair_offsets(sp),
                )
            };
        assert(pack::is_index_file_for(
            idx_copy@,
            blob_hashes(blobs@.take(taken_count)),
            entry_offsets(taken),
        )) by {
            assert(pack::pairs_of(index.hashes@, index.offsets@) == pack::pairs_of(
                blob_hashes(blobs@.take(taken_count)),
                entry_offsets(taken),
            ));
            assert(forall|b: int|
                0 <= b < 256 ==> fanout_built@[b] == pack::count_first_le(
                    blob_hashes(blobs@.take(taken_count)),
                    b,
                ));
            assert(idx_copy@ == pack::index_file_bytes(
                fanout_built@,
                pack::pair_hashes(sp),
                pack::pair_offsets(sp),
            ));
        }
        assert(index_image_wf(index_file@)) by {
            let fan = fanout_built@;
            let shs = pack::pair_hashes(sp);
            let sos = pack::pair_offsets(sp);
            pack::lemma_be32_concat_len(fan);
            pack::lemma_hashes_concat_len(shs);
            pack::lemma_be64_concat_len(sos);
            assert(index_file@.len() == pack::HEADER_SIZE + 40 * sp.len());
            assert(index_file@.subrange(0, 8) =~= pack::magic_bytes());
            assert forall|b: int| 0 <= b < 256 implies #[trigger] image_count_at(index_file@, b)
                == fan[b] by {
                lemma_image_count_is_fanout(fan, shs, sos, b);
            }
            assert forall|i: int, j: int|
                0 <= i <= j < 256 implies #[trigger] image_count_at(index_file@, i)
                <= #[trigger] image_count_at(index_file@, j) by {
                assert(fan[i] <= fan[j]);
            }
            assert(image_count_at(index_file@, 255) == sp.len());
        }
    }
    if storage.add_pack(packhash, index_file).is_err() {
        return Err(Error::DecodeError);
    }
    if params.delete_blobs_after_pack {
        let ghost snap = *storage;
        let mut kept: Vec<BlockHash> = Vec::new();
        let mut t: usize = 0;
        let total = storage.loose_len();
        while t < total
            invariant
                *storage == snap,
                storage.wf(),
                taken_count <= blobs@.len(),
                total == storage.loose_seq().len(),
                t <= total,
                k == taken_count,
                k <= blobs@.len(),
                forall|j: int|
                    0 <= j < kept@.len() ==> !packed_has(blobs@, taken_count, #[trigger] kept@[j]),
                forall|j: int|
                    0 <= j < t && !packed_has(
                        blobs@,
                        taken_count,
                        #[trigger] snap.loose_seq()[j],
                    ) ==> loose_has(kept@, snap.loose_seq()[j]),
            decreases total - t,
        {
            let h = storage.loose_at(t);
            let ghost kept_before = kept@;
            if !hash_among(blobs, k, &h) {
                kept.push(h);
                proof {
                    assert(kept@[kept@.len() - 1]@ == h@);
                    assert forall|j: int|
                        0 <= j < t + 1 && !packed_has(
                            blobs@,
                            taken_count,
                            #[trigger] snap.loose_seq()[j],
                        ) implies loose_has(kept@, snap.loose_seq()[j]) by {
                        if j < t {
                            let w = choose|w: int|
                                0 <= w < kept_before.len() && (#[trigger] kept_before[w])@
                                    == snap.loose_seq()[j]@;
                            assert(kept@[w]@ == snap.loose_seq()[j]@);
                        } else {
                            assert(kept@[kept@.len() - 1]@ == snap.loose_seq()[j]@);
                        }
                    }
                }
            } else {
                proof {
                    assert forall|j: int|
                        0 <= j < t + 1 && !packed_has(
                            blobs@,
                            taken_count,
                            #[trigger] snap.loose_seq()[j],
                        ) implies loose_has(kept@, snap.loose_seq()[j]) by {
                        if j < t {
                        } else {
                            assert(packed_has(blobs@, taken_count, snap.loose_seq()[j]));
                        }
                    }
                }
            }
            t = t + 1;
        }
        storage.set_loose(kept);
        proof {
            assert(snap.loose_seq() == old(storage).loose_seq());
        }
    }
    proof {
        assert(blob_payloads(blobs@.take(taken_count)) == taken);
    }
    Ok((packhash, pack_file, idx_copy))
}

} // verus!
