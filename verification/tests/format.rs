//! Exact bytes of headers, distances, objects and hashes.
use flate2::read::ZlibDecoder;
use pack_encoder::error::GitError;
use pack_encoder::format::{encode_header, encode_object_header, encode_offset};
use pack_encoder::hash::{HashAlgorithm, HashKind, ObjectHash};
use pack_encoder::names::{idx_file_name, pack_file_name, temp_pack_name};
use pack_encoder::object::{encode_one_object, frame_object, Entry, IndexEntry, ObjectType};
use std::io::Read;

/// Reads a distance: its value and the number of bytes that it takes up.
fn read_offset_encoding(bytes: &[u8]) -> (u64, usize) {
    let mut value: u64 = u64::from(bytes[0] & 0x7f);
    let mut used: usize = 1;
    while bytes[used - 1] & 0x80 != 0 {
        value = ((value + 1) << 7) | u64::from(bytes[used] & 0x7f);
        used += 1;
    }
    (value, used)
}

/// Reads an object header: the type number, the size, and the bytes that it takes up.
fn read_object_header(bytes: &[u8]) -> (u8, usize, usize) {
    let kind: u8 = (bytes[0] >> 4) & 7;
    let mut size: usize = usize::from(bytes[0] & 0x0f);
    let mut used: usize = 1;
    let mut shift: usize = 4;
    while bytes[used - 1] & 0x80 != 0 {
        size |= usize::from(bytes[used] & 0x7f) << shift;
        shift += 7;
        used += 1;
    }
    (kind, size, used)
}

fn entry(obj_type: ObjectType, data: &[u8]) -> Entry {
    Entry { obj_type, data: data.to_vec(), hash: ObjectHash::Sha1([7; 20]), chain_len: 0 }
}

#[test]
fn test_encode_offset() {
    let value = 16389;

    let data = encode_offset(value);
    println!("{data:?}");
    let (result, _) = read_offset_encoding(&data);
    println!("result: {result}");
    assert_eq!(result, value as u64);
}

#[test]
fn offsets_have_exact_bytes() {
    assert_eq!(encode_offset(1), vec![1]);
    assert_eq!(encode_offset(127), vec![0x7f]);
    assert_eq!(encode_offset(128), vec![0x80, 0x00]);
    assert_eq!(encode_offset(255), vec![0x80, 0x7f]);
    assert_eq!(encode_offset(256), vec![0x81, 0x00]);
    assert_eq!(encode_offset(16389), vec![0xff, 0x05]);
    assert_eq!(encode_offset(16511), vec![0xff, 0x7f]);
    assert_eq!(encode_offset(16512), vec![0x80, 0x80, 0x00]);
}

#[test]
fn every_offset_reads_back() {
    let mut value: usize = 1;
    while value < usize::MAX / 3 {
        for near in [value - 1, value, value + 1] {
            if near != 0 {
                let data = encode_offset(near);
                assert_eq!(read_offset_encoding(&data), (near as u64, data.len()));
            }
        }
        value = value * 2 + value / 3;
    }
    let data = encode_offset(usize::MAX);
    assert_eq!(read_offset_encoding(&data), (usize::MAX as u64, data.len()));
}

#[test]
fn pack_header_has_exact_bytes() {
    assert_eq!(encode_header(1), b"PACK\0\0\0\x02\0\0\0\x01".to_vec());
    assert_eq!(encode_header(0x01020304), b"PACK\0\0\0\x02\x01\x02\x03\x04".to_vec());
    assert_eq!(encode_header(u32::MAX as usize), b"PACK\0\0\0\x02\xff\xff\xff\xff".to_vec());
}

#[test]
fn object_headers_have_exact_bytes() {
    // A size below sixteen still takes a second byte.
    assert_eq!(encode_object_header(3, 0), vec![0xb0, 0x00]);
    assert_eq!(encode_object_header(3, 11), vec![0xbb, 0x00]);
    assert_eq!(encode_object_header(1, 16), vec![0x90, 0x01]);
    assert_eq!(encode_object_header(2, 2047), vec![0xaf, 0x7f]);
    assert_eq!(encode_object_header(6, 2048), vec![0xe0, 0x80, 0x01]);
    assert_eq!(encode_object_header(5, 300), vec![0xdc, 0x12]);
}

#[test]
fn every_object_header_reads_back() {
    for kind in 1..8u8 {
        for size in [0usize, 1, 15, 16, 17, 2047, 2048, 262143, 262144, usize::MAX] {
            let header = encode_object_header(kind, size);
            assert_eq!(read_object_header(&header), (kind, size, header.len()));
            assert!(header.len() >= 2);
        }
    }
}

#[test]
fn type_numbers_are_those_of_packs() {
    let numbers = [
        (ObjectType::Commit, 1),
        (ObjectType::Tree, 2),
        (ObjectType::Blob, 3),
        (ObjectType::Tag, 4),
        (ObjectType::OffsetZstdelta, 5),
        (ObjectType::OffsetDelta, 6),
        (ObjectType::HashDelta, 7),
    ];
    for (obj_type, number) in numbers {
        assert_eq!(obj_type.to_pack_type_u8().unwrap(), number);
        assert!(!obj_type.is_ai_object());
    }
    assert!(ObjectType::Task.is_ai_object());
    let GitError::PackEncodeError(reason) = ObjectType::Task.to_pack_type_u8().unwrap_err();
    assert_eq!(reason, "object type `task` has no type number in a pack");
}

#[test]
fn whole_object_is_header_and_zlib_stream() {
    let data = b"hello, word, hello, word, hello, word".repeat(40);
    let bytes = encode_one_object(&entry(ObjectType::Blob, &data), None).unwrap();
    let (kind, size, used) = read_object_header(&bytes);
    assert_eq!((kind, size), (3, data.len()));
    assert!(bytes.len() < data.len());
    let mut inflated = Vec::new();
    let mut decoder = ZlibDecoder::new(&bytes[used..]);
    decoder.read_to_end(&mut inflated).unwrap();
    assert_eq!(inflated, data);
    assert_eq!(decoder.total_in() as usize, bytes.len() - used);
}

#[test]
fn zlib_stream_ends_before_what_follows() {
    for data in [&b""[..], b"x", b"abcabcabc"] {
        let mut bytes = encode_one_object(&entry(ObjectType::Tree, data), None).unwrap();
        let (_, _, used) = read_object_header(&bytes);
        let len = bytes.len();
        bytes.extend_from_slice(b"\x78\x9c more");
        let mut inflated = Vec::new();
        let mut decoder = ZlibDecoder::new(&bytes[used..]);
        decoder.read_to_end(&mut inflated).unwrap();
        assert_eq!(inflated, data);
        assert_eq!(decoder.total_in() as usize, len - used);
    }
}

#[test]
fn delta_object_carries_its_distance() {
    for obj_type in [ObjectType::OffsetDelta, ObjectType::OffsetZstdelta] {
        let bytes = encode_one_object(&entry(obj_type, b"delta"), Some(16389)).unwrap();
        assert_eq!(bytes[0], 0x85 | (obj_type.to_pack_type_u8().unwrap() << 4));
        assert_eq!(&bytes[1..4], &[0x00, 0xff, 0x05]);
        let mut inflated = Vec::new();
        ZlibDecoder::new(&bytes[4..]).read_to_end(&mut inflated).unwrap();
        assert_eq!(inflated, b"delta");
    }
}

#[test]
fn distance_of_whole_object_plays_no_part() {
    let with = encode_one_object(&entry(ObjectType::Blob, b"same"), Some(5)).unwrap();
    let without = encode_one_object(&entry(ObjectType::Blob, b"same"), None).unwrap();
    assert_eq!(with, without);
}

#[test]
fn unnumbered_object_is_refused() {
    let GitError::PackEncodeError(reason) =
        encode_one_object(&entry(ObjectType::Task, b"ai"), None).unwrap_err();
    assert_eq!(reason, "object type `task` has no type number in a pack");
}

#[test]
fn framing_puts_parts_in_order() {
    assert_eq!(
        frame_object(ObjectType::OffsetDelta, 300, Some(128), vec![9, 8, 7]),
        vec![0xec, 0x12, 0x80, 0x00, 9, 8, 7]
    );
    assert_eq!(frame_object(ObjectType::Commit, 2, None, vec![1]), vec![0x92, 0x00, 1]);
}

#[test]
fn index_entry_keeps_hash_and_position() {
    let index = IndexEntry::new(&entry(ObjectType::Blob, b"x"), 99);
    assert!(index.hash == ObjectHash::Sha1([7; 20]));
    assert_eq!(index.offset, 99);
}

#[test]
fn digests_are_those_of_the_standards() {
    let mut sha1 = HashAlgorithm::new(HashKind::Sha1);
    assert_eq!(sha1.finalize().to_hex(), "da39a3ee5e6b4b0d3255bfef95601890afd80709");
    sha1.update(b"a");
    sha1.update(b"bc");
    assert_eq!(sha1.finalize().to_hex(), "a9993e364706816aba3e25717850c26c9cd0d89d");
    assert_eq!(sha1.finalize().to_vec().len(), 20);
    let mut sha256 = HashAlgorithm::new(HashKind::Sha256);
    sha256.update(b"abc");
    assert_eq!(
        sha256.finalize().to_hex(),
        "ba7816bf8f01cfea414140de5dae2223b00361a396177a9cb410ff61f20015ad"
    );
    assert_eq!(sha256.finalize().kind(), HashKind::Sha256);
}

#[test]
fn finalizing_leaves_the_hasher_usable() {
    let mut hasher = HashAlgorithm::new(HashKind::Sha1);
    hasher.update(b"ab");
    let _ = hasher.finalize();
    hasher.update(b"c");
    assert_eq!(hasher.finalize().to_hex(), "a9993e364706816aba3e25717850c26c9cd0d89d");
}

#[test]
fn hashes_compare_by_function_and_bytes() {
    assert!(ObjectHash::Sha1([1; 20]) == ObjectHash::Sha1([1; 20]));
    assert!(ObjectHash::Sha1([1; 20]) != ObjectHash::Sha1([2; 20]));
    assert!(ObjectHash::Sha256([1; 32]) == ObjectHash::Sha256([1; 32]));
    assert!(ObjectHash::Sha1([0; 20]) != ObjectHash::Sha256([0; 32]));
}

#[test]
fn file_names_carry_the_hash() {
    let hash = ObjectHash::Sha1([0xab; 20]);
    assert_eq!(pack_file_name(&hash), format!("pack-{}.pack", "ab".repeat(20)));
    assert_eq!(idx_file_name(&hash), format!("pack-{}.idx", "ab".repeat(20)));
    assert_eq!(temp_pack_name("20251209235959.123"), "20251209235959.123objects.pack.tmp");
}
