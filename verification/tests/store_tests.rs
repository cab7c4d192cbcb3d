//! The pack format, its index, and the block-location oracle.

use ntt_client::storage::pack::{
    create_index, hash_from_vec, index_get_header, read_block_at, read_block_raw_at,
    resolve_index_offset, search_index, Index, PackWriter,
};
use ntt_client::storage::{block_location, pack_blobs, BlockLocation, PackParameters, Storage};
use std::io::Write;

fn find(index_file: &Vec<u8>, hash: &[u8; 32]) -> Option<u32> {
    let fanout = index_get_header(index_file).unwrap();
    let (start, nb) = fanout.get_indexer_by_hash(hash);
    search_index(index_file, hash, start, nb)
}

#[test]
fn pack_round_trip() {
    let h1 = [0x00u8; 32];
    let h2 = [0xffu8; 32];
    let h3 = [0x80u8; 32];
    let mut writer = PackWriter::init();
    writer.append(&h1, b"abc");
    writer.append(&h2, b"wxyz");
    writer.append(&h3, b"");
    let (pack_hash, index, pack_file) = writer.finalize();
    assert_eq!(pack_hash.len(), 32);
    let (_fanout, index_file) = create_index(&index);

    assert_eq!(find(&index_file, &h1), Some(0));
    assert_eq!(find(&index_file, &h2), Some(2));
    assert_eq!(find(&index_file, &h3), Some(1));
    assert_eq!(find(&index_file, &[0x01u8; 32]), None);

    let fanout = index_get_header(&index_file).unwrap();
    let expected: [&[u8]; 3] = [b"abc", b"", b"wxyz"];
    for (rank, want) in expected.iter().enumerate() {
        let ofs = resolve_index_offset(&index_file, &fanout, rank as u32);
        let payload = read_block_raw_at(&pack_file, ofs).unwrap();
        assert_eq!(payload.as_slice(), *want);
    }
}

#[test]
fn pack_entries_are_aligned() {
    let mut writer = PackWriter::init();
    writer.append(&[0x01u8; 32], b"abc");
    writer.append(&[0x02u8; 32], b"wxyz");
    let (_h, index, pack_file) = writer.finalize();
    assert_eq!(index.offsets.as_slice(), &[0u64, 8]);
    assert_eq!(pack_file.len(), 8 + 8);
    assert_eq!(&pack_file[0..4], &[0, 0, 0, 3]);
    assert_eq!(&pack_file[4..7], b"abc");
    assert_eq!(pack_file[7], 0);
    assert_eq!(&pack_file[8..12], &[0, 0, 0, 4]);
    assert_eq!(&pack_file[12..16], b"wxyz");
}

#[test]
fn pack_hash_depends_on_payloads_alone() {
    let mut w1 = PackWriter::init();
    w1.append(&[0x01u8; 32], b"abc");
    let (h1, _, _) = w1.finalize();
    let mut w2 = PackWriter::init();
    w2.append(&[0x02u8; 32], b"abc");
    let (h2, _, _) = w2.finalize();
    let mut w3 = PackWriter::init();
    w3.append(&[0x01u8; 32], b"abd");
    let (h3, _, _) = w3.finalize();
    assert_eq!(h1, h2);
    assert_ne!(h1, h3);
}

#[test]
fn empty_pack_hash_is_the_empty_digest() {
    let writer = PackWriter::init();
    let (hash, _, _) = writer.finalize();
    let expected = [
        0x0eu8, 0x57, 0x51, 0xc0, 0x26, 0xe5, 0x43, 0xb2, 0xe8, 0xab, 0x2e, 0xb0, 0x60, 0x99,
        0xda, 0xa1, 0xd1, 0xe5, 0xdf, 0x47, 0x77, 0x8f, 0x77, 0x87, 0xfa, 0xab, 0x45, 0xcd, 0xf1,
        0x2f, 0xe3, 0xa8,
    ];
    assert_eq!(hash, expected);
}

#[test]
fn read_block_at_inflates_the_entry() {
    let mut enc = flate2::write::DeflateEncoder::new(Vec::new(), flate2::Compression::best());
    enc.write_all(b"hello block").unwrap();
    let compressed = enc.finish().unwrap();
    let mut writer = PackWriter::init();
    writer.append(&[0x10u8; 32], compressed.as_slice());
    let (_h, _index, pack_file) = writer.finalize();
    let inflated = read_block_at(&pack_file, 0).unwrap();
    assert_eq!(inflated.as_slice(), b"hello block");
}

#[test]
fn read_block_at_rejects_garbage() {
    let mut writer = PackWriter::init();
    writer.append(&[0x10u8; 32], &[0x07, 0x00, 0x00]);
    let (_h, _index, pack_file) = writer.finalize();
    assert!(read_block_at(&pack_file, 0).is_err());
    assert!(read_block_raw_at(&pack_file, 999).is_err());
}

#[test]
fn fanout_counts_by_first_byte() {
    let mut index = Index::new();
    index.append(&[0x00u8; 32], 0);
    index.append(&[0x00u8; 32], 8);
    index.append(&[0x05u8; 32], 16);
    index.append(&[0xffu8; 32], 24);
    let (fanout, _file) = create_index(&index);
    assert_eq!(fanout.at(0), 2);
    assert_eq!(fanout.at(4), 2);
    assert_eq!(fanout.at(5), 3);
    assert_eq!(fanout.at(254), 3);
    assert_eq!(fanout.at(255), 4);
    assert_eq!(fanout.get_total().0, 4);
}

#[test]
fn hash_from_vec_round_trips() {
    let v: Vec<u8> = (0..32u8).collect();
    let h = hash_from_vec(&v);
    assert_eq!(h.as_slice(), v.as_slice());
}

fn build_pack(storage: &mut Storage, blobs: Vec<([u8; 32], Vec<u8>)>) -> [u8; 32] {
    let params = PackParameters {
        limit_nb_blobs: None,
        limit_size: None,
        delete_blobs_after_pack: false,
    };
    let (hash, _pack_file, _index_file) = pack_blobs(storage, &params, &blobs).unwrap();
    hash
}

#[test]
fn block_location_resolves_to_the_owning_pack() {
    let mut storage = Storage::init();
    let p1 = build_pack(&mut storage, vec![([0x01u8; 32], vec![1]), ([0x02u8; 32], vec![2])]);
    let p2 = build_pack(&mut storage, vec![([0x03u8; 32], vec![3]), ([0x04u8; 32], vec![4])]);
    assert_ne!(p1, p2);

    match block_location(&storage, &[0x01u8; 32]) {
        Some(BlockLocation::Packed(p, _)) => assert_eq!(p, p1),
        other => panic!("unexpected location {:?}", other),
    }
    match block_location(&storage, &[0x04u8; 32]) {
        Some(BlockLocation::Packed(p, _)) => assert_eq!(p, p2),
        other => panic!("unexpected location {:?}", other),
    }
    assert!(block_location(&storage, &[0x09u8; 32]).is_none());

    storage.add_loose([0x09u8; 32]);
    match block_location(&storage, &[0x09u8; 32]) {
        Some(BlockLocation::Loose) => {},
        other => panic!("unexpected location {:?}", other),
    }
}

#[test]
fn pack_blobs_honors_the_count_limit() {
    let mut storage = Storage::init();
    let params = PackParameters {
        limit_nb_blobs: Some(1),
        limit_size: None,
        delete_blobs_after_pack: false,
    };
    let blobs = vec![([0x01u8; 32], vec![1, 2, 3]), ([0x02u8; 32], vec![4, 5])];
    let (_hash, pack_file, index_file) = pack_blobs(&mut storage, &params, &blobs).unwrap();
    assert_eq!(pack_file.len(), 8);
    assert_eq!(find(&index_file, &[0x01u8; 32]), Some(0));
    assert_eq!(find(&index_file, &[0x02u8; 32]), None);
}

#[test]
fn pack_blobs_can_drop_packed_loose_blobs() {
    let mut storage = Storage::init();
    storage.add_loose([0x01u8; 32]);
    storage.add_loose([0x09u8; 32]);
    let params = PackParameters {
        limit_nb_blobs: None,
        limit_size: None,
        delete_blobs_after_pack: true,
    };
    let blobs = vec![([0x01u8; 32], vec![1, 2, 3])];
    pack_blobs(&mut storage, &params, &blobs).unwrap();
    match block_location(&storage, &[0x01u8; 32]) {
        Some(BlockLocation::Packed(_, _)) => {},
        other => panic!("unexpected location {:?}", other),
    }
    match block_location(&storage, &[0x09u8; 32]) {
        Some(BlockLocation::Loose) => {},
        other => panic!("unexpected location {:?}", other),
    }
}
