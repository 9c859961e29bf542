//! Whole packs, read back.
use flate2::read::ZlibDecoder;
use pack_encoder::buckets::{EntryBuckets, Incoming};
use pack_encoder::encoder::PackEncoder;
use pack_encoder::error::GitError;
use pack_encoder::hash::{HashAlgorithm, HashKind, ObjectHash};
use pack_encoder::object::{Entry, EntryMeta, IndexEntry, MetaAttached, ObjectType};
use pack_encoder::parallel::{batch_size, encode_whole, ParallelRun};
use pack_encoder::window::{RateOrder, RateQuery};
use sha1::Digest;
use std::io::Read;

/// The hash of an object as a repository names it.
fn object_hash(kind: HashKind, name: &str, data: &[u8]) -> ObjectHash {
    let mut hasher = HashAlgorithm::new(kind);
    hasher.update(format!("{name} {}\0", data.len()).as_bytes());
    hasher.update(data);
    hasher.finalize()
}

fn incoming(obj_type: ObjectType, data: &[u8], kind: HashKind) -> Incoming {
    MetaAttached {
        inner: Entry {
            obj_type,
            data: data.to_vec(),
            hash: object_hash(kind, obj_type.name(), data),
            chain_len: 0,
        },
        meta: EntryMeta { file_path: None },
    }
}

fn blob(text: &str) -> Incoming {
    incoming(ObjectType::Blob, text.as_bytes(), HashKind::Sha1)
}

fn push_size(bytes: &mut Vec<u8>, mut size: usize) {
    while size >= 0x80 {
        bytes.push((size & 0x7f) as u8 | 0x80);
        size >>= 7;
    }
    bytes.push(size as u8);
}

fn read_size(bytes: &[u8], at: &mut usize) -> usize {
    let mut size = 0;
    let mut shift = 0;
    loop {
        let byte = bytes[*at];
        *at += 1;
        size |= usize::from(byte & 0x7f) << shift;
        shift += 7;
        if byte & 0x80 == 0 {
            return size;
        }
    }
}

/// A delta that copies the common front and holds the rest. A zstd delta is marked.
fn diff(base: &[u8], data: &[u8], zstdelta: bool) -> Vec<u8> {
    let mut delta = Vec::new();
    if zstdelta {
        delta.push(b'z');
    }
    push_size(&mut delta, base.len());
    push_size(&mut delta, data.len());
    let common = base.iter().zip(data).take_while(|(a, b)| a == b).count();
    let mut copied = 0;
    while copied < common {
        let size = (common - copied).min(0xffff);
        delta.push(0x80 | 0x0f | 0x30);
        delta.extend_from_slice(&(copied as u32).to_le_bytes());
        delta.extend_from_slice(&(size as u16).to_le_bytes());
        copied += size;
    }
    for rest in data[common..].chunks(127) {
        delta.push(rest.len() as u8);
        delta.extend_from_slice(rest);
    }
    delta
}

fn patch(base: &[u8], delta: &[u8]) -> Vec<u8> {
    let mut at = 0;
    assert_eq!(read_size(delta, &mut at), base.len());
    let len = read_size(delta, &mut at);
    let mut data = Vec::new();
    while at < delta.len() {
        let op = delta[at];
        at += 1;
        if op & 0x80 != 0 {
            let from = u32::from_le_bytes(delta[at..at + 4].try_into().unwrap()) as usize;
            let size = u16::from_le_bytes(delta[at + 4..at + 6].try_into().unwrap()) as usize;
            at += 6;
            data.extend_from_slice(&base[from..from + size]);
        } else {
            data.extend_from_slice(&delta[at..at + usize::from(op)]);
            at += usize::from(op);
        }
    }
    assert_eq!(data.len(), len);
    data
}

fn rate(queries: &Vec<RateQuery<'_>>, data: &[u8]) -> Vec<Option<f64>> {
    queries
        .iter()
        .map(|query| {
            let saved = 1.0 - diff(query.base, data, false).len() as f64 / data.len() as f64;
            if saved > 0.5 {
                Some(saved)
            } else {
                None
            }
        })
        .collect()
}

fn order(rate: &f64, best: &f64) -> RateOrder {
    if *rate > *best + 0.15 {
        RateOrder::Higher
    } else if (*rate - *best).abs() <= 0.15 {
        RateOrder::Tied
    } else {
        RateOrder::Lower
    }
}

/// An object found in a pack.
struct Found {
    at: usize,
    stored: u8,
    kind: u8,
    data: Vec<u8>,
}

/// Reads a pack to its end, and checks its header and checksum.
fn check_format(pack: &[u8], kind: HashKind) -> Vec<Found> {
    let sum_len = match kind {
        HashKind::Sha1 => 20,
        HashKind::Sha256 => 32,
    };
    let (body, sum) = pack.split_at(pack.len() - sum_len);
    let expected = match kind {
        HashKind::Sha1 => sha1::Sha1::digest(body).to_vec(),
        HashKind::Sha256 => sha2::Sha256::digest(body).to_vec(),
    };
    assert_eq!(sum, expected);
    assert_eq!(&body[..8], b"PACK\0\0\0\x02");
    let count = u32::from_be_bytes(body[8..12].try_into().unwrap()) as usize;
    let mut found: Vec<Found> = Vec::new();
    let mut at = 12;
    while at < body.len() {
        let start = at;
        let stored = (body[at] >> 4) & 7;
        let mut size = usize::from(body[at] & 0x0f);
        let mut shift = 4;
        while body[at] & 0x80 != 0 {
            at += 1;
            size |= usize::from(body[at] & 0x7f) << shift;
            shift += 7;
        }
        at += 1;
        let mut base = None;
        if stored == 5 || stored == 6 {
            let mut distance = usize::from(body[at] & 0x7f);
            while body[at] & 0x80 != 0 {
                at += 1;
                distance = ((distance + 1) << 7) | usize::from(body[at] & 0x7f);
            }
            at += 1;
            base = Some(found.iter().position(|object| object.at == start - distance).unwrap());
        }
        let mut payload = Vec::new();
        let mut decoder = ZlibDecoder::new(&body[at..]);
        decoder.read_to_end(&mut payload).unwrap();
        at += decoder.total_in() as usize;
        assert_eq!(payload.len(), size);
        let (kind, data) = match base {
            None => (stored, payload),
            Some(base) => {
                let delta = if stored == 5 {
                    assert_eq!(payload[0], b'z');
                    &payload[1..]
                } else {
                    &payload[..]
                };
                (found[base].kind, patch(&found[base].data, delta))
            }
        };
        found.push(Found { at: start, stored, kind, data });
    }
    assert_eq!(found.len(), count);
    found
}

fn encode(encoder: &mut PackEncoder, entries: Vec<Incoming>) -> Vec<u8> {
    let mut out = Vec::new();
    assert!(encoder.encode(entries, 100, &rate, &order, &diff, &mut out).unwrap());
    out.concat()
}

fn encode_once(window_size: usize, kind: HashKind) -> Vec<u8> {
    let texts = vec!["hello, word", "hello, world.", "!", "123141251251"];
    let mut encoder = PackEncoder::new(texts.len(), window_size, kind);
    let entries =
        texts.into_iter().map(|text| incoming(ObjectType::Blob, text.as_bytes(), kind)).collect();
    encode(&mut encoder, entries)
}

#[test]
fn test_pack_encoder() {
    // without delta
    let pack_without_delta = encode_once(0, HashKind::Sha1);
    let pack_without_delta_size = pack_without_delta.len();
    check_format(&pack_without_delta, HashKind::Sha1);

    // with delta
    let pack_with_delta = encode_once(4, HashKind::Sha1);
    assert!(pack_with_delta.len() <= pack_without_delta_size);
    check_format(&pack_with_delta, HashKind::Sha1);
}

#[test]
fn test_pack_encoder_sha256() {
    // without delta
    let pack_without_delta = encode_once(0, HashKind::Sha256);
    let pack_without_delta_size = pack_without_delta.len();
    check_format(&pack_without_delta, HashKind::Sha256);

    // with delta
    let pack_with_delta = encode_once(4, HashKind::Sha256);
    assert!(pack_with_delta.len() <= pack_without_delta_size);
    check_format(&pack_with_delta, HashKind::Sha256);
}

#[test]
fn test_pack_encoder_rejects_unencodable_ai_type_parallel() {
    let mut encoder = PackEncoder::new(1, 0, HashKind::Sha1);
    let mut entry = blob("ai");
    entry.inner.obj_type = ObjectType::Task;
    let err = encoder
        .encode(vec![entry], 1, &rate, &order, &diff, &mut Vec::new())
        .expect_err("must reject AI pack type");
    assert!(matches!(err, GitError::PackEncodeError(_)));
    let GitError::PackEncodeError(reason) = err;
    assert_eq!(reason, "AI object type `task` cannot be encoded in a pack file");
}

#[test]
fn test_pack_encoder_rejects_unencodable_ai_type_delta_window() {
    let mut encoder = PackEncoder::new(1, 10, HashKind::Sha1);
    let mut entry = blob("ai");
    entry.inner.obj_type = ObjectType::Task;
    let err = encoder
        .encode(vec![entry], 1, &rate, &order, &diff, &mut Vec::new())
        .expect_err("must reject AI pack type");
    assert!(matches!(err, GitError::PackEncodeError(_)));
    let GitError::PackEncodeError(reason) = err;
    assert_eq!(reason, "object type `task` is not supported by delta-window pack encoding");
}

#[test]
fn new_test_pack_encoder() {
    // without delta
    let pack_without_delta = encode_once(0, HashKind::Sha1);
    let pack_without_delta_size = pack_without_delta.len();
    check_format(&pack_without_delta, HashKind::Sha1);
    // with one
    let pack_with_delta = encode_once(1, HashKind::Sha1);
    assert!(pack_with_delta.len() <= pack_without_delta_size);
    check_format(&pack_with_delta, HashKind::Sha1);
    // with delta
    let pack_with_delta = encode_once(4, HashKind::Sha1);
    assert!(pack_with_delta.len() <= pack_without_delta_size);
    check_format(&pack_with_delta, HashKind::Sha1);
}

#[test]
fn out_test_pack_encoder() {
    let pack_out = encode_once(5, HashKind::Sha1);
    check_format(&pack_out, HashKind::Sha1);

    let pack_large = encode_once(1000, HashKind::Sha1);
    check_format(&pack_large, HashKind::Sha1);
}

/// Entries of all four kinds, many of which resemble each other.
fn mixed_entries(count: usize) -> Vec<Incoming> {
    let kinds = [ObjectType::Tag, ObjectType::Blob, ObjectType::Commit, ObjectType::Tree];
    (0..count)
        .map(|n| {
            let mut data = format!("kind {} of a long and common front, ", n % 4).repeat(8);
            data.push_str(&format!("object number {n}"));
            let mut entry = incoming(kinds[n % 4], data.as_bytes(), HashKind::Sha1);
            if n % 3 == 0 {
                entry.meta.file_path = Some(format!("dir{}/file{}", n % 5, n));
            }
            entry
        })
        .collect()
}

/// Whether the index of a finished encoder leads to the objects of its pack.
fn check_index(encoder: &PackEncoder, found: &[Found], entries: &[Incoming]) -> Vec<IndexEntry> {
    let index = encoder.generate_idx_file().unwrap().entries;
    assert_eq!(index.len(), found.len());
    for (place, object) in index.iter().zip(found) {
        assert_eq!(place.offset as usize, object.at);
        let source = entries
            .iter()
            .find(|entry| entry.inner.hash == place.hash)
            .expect("hash of an entry");
        assert_eq!(source.inner.obj_type.to_pack_type_u8().unwrap(), object.kind);
        assert_eq!(source.inner.data, object.data);
    }
    index
}

#[test]
fn window_pack_reads_back() {
    for zstdelta in [false, true] {
        let entries = mixed_entries(60);
        let mut encoder = PackEncoder::new_with_idx(60, 10, HashKind::Sha1);
        let mut out = Vec::new();
        let done = if zstdelta {
            encoder.encode_with_zstdelta(mixed_entries(60), &rate, &order, &diff, &mut out)
        } else {
            encoder.encode(mixed_entries(60), 100, &rate, &order, &diff, &mut out)
        };
        assert!(done.unwrap());
        let pack = out.concat();
        let found = check_format(&pack, HashKind::Sha1);
        check_index(&encoder, &found, &entries);
        let delta_kind = if zstdelta { 5 } else { 6 };
        assert!(found.iter().filter(|object| object.stored == delta_kind).count() > 40);
        assert!(found.windows(2).all(|pair| pair[0].kind <= pair[1].kind));
        let hash = encoder.get_hash().unwrap();
        assert_eq!(hash.to_vec(), pack[pack.len() - 20..]);
    }
}

#[test]
fn zstd_deltas_always_have_a_window() {
    let stored = |window_size: usize| -> Vec<u8> {
        let mut encoder = PackEncoder::new(60, window_size, HashKind::Sha1);
        let mut out = Vec::new();
        let entries = mixed_entries(60);
        assert!(encoder
            .encode_with_zstdelta(entries, &rate, &order, &diff, &mut out)
            .unwrap());
        check_format(&out.concat(), HashKind::Sha1).iter().map(|object| object.stored).collect()
    };
    assert!(stored(0).contains(&5));
    assert_eq!(stored(0), stored(10));
}

#[test]
fn default_window_of_zstd_deltas_reaches_back_ten() {
    // The last object resembles the first only, which stands `gap` places before it.
    let deltas = |gap: usize| -> usize {
        let mut entries: Vec<Incoming> = vec![blob(&"a common front ".repeat(20))];
        for n in 1..gap {
            let letter = (b'b' + n as u8) as char;
            entries.push(blob(&letter.to_string().repeat(299)));
        }
        entries.push(blob(&"a common front ".repeat(20)[..298]));
        let mut encoder = PackEncoder::new(entries.len(), 0, HashKind::Sha1);
        let mut out = Vec::new();
        assert!(encoder
            .encode_with_zstdelta(entries, &rate, &order, &diff, &mut out)
            .unwrap());
        let found = check_format(&out.concat(), HashKind::Sha1);
        found.iter().filter(|object| object.stored == 5).count()
    };
    assert_eq!(deltas(10), 1);
    assert_eq!(deltas(11), 0);
}

#[test]
fn parallel_pack_reads_back_in_order() {
    let entries = mixed_entries(50);
    let mut encoder = PackEncoder::new_with_idx(50, 0, HashKind::Sha256);
    let pack = encode(&mut encoder, mixed_entries(50));
    let found = check_format(&pack, HashKind::Sha256);
    let index = check_index(&encoder, &found, &entries);
    for n in 0..50 {
        assert!(index[n].hash == entries[n].inner.hash);
        assert_eq!(found[n].data, entries[n].inner.data);
        assert!(found[n].stored < 5);
    }
    assert_eq!(encoder.process_index(), 50);
    assert_eq!(encoder.get_hash().unwrap().to_vec(), pack[pack.len() - 32..]);
}

#[test]
fn batches_leave_no_trace() {
    let texts: Vec<String> = (0..2500).map(|n| format!("object {n}")).collect();
    let pack_of = |max_capacity: usize| {
        let mut encoder = PackEncoder::new(2500, 0, HashKind::Sha1);
        let mut out = Vec::new();
        let entries = texts.iter().map(|text| blob(text)).collect();
        assert!(encoder.parallel_encode(entries, max_capacity, &mut out).unwrap());
        assert_eq!(out.len(), 2502);
        (out.concat(), encoder.get_hash().unwrap().to_hex())
    };
    let small = pack_of(1);
    let large = pack_of(1_000_000);
    assert_eq!(small, large);
    let found = check_format(&small.0, HashKind::Sha1);
    for (object, text) in found.iter().zip(&texts) {
        assert_eq!(object.data, text.as_bytes());
    }
}

#[test]
fn batches_have_a_least_size() {
    assert_eq!(batch_size(0), 1000);
    assert_eq!(batch_size(10_000), 1000);
    assert_eq!(batch_size(10_009), 1000);
    assert_eq!(batch_size(10_010), 1001);
    assert_eq!(batch_size(1_000_000), 100_000);
}

#[test]
fn refused_ai_object_takes_its_batch_along() {
    let mut entries: Vec<Incoming> = (0..1500).map(|n| blob(&format!("object {n}"))).collect();
    entries[1200].inner.obj_type = ObjectType::Task;
    let mut encoder = PackEncoder::new(1500, 0, HashKind::Sha1);
    let mut out = Vec::new();
    assert!(encoder.parallel_encode(entries, 1, &mut out).is_err());
    assert_eq!(out.len(), 1001);
    assert_eq!(encoder.process_index(), 1200);
    assert!(encoder.get_hash().is_none());
    assert!(encoder.generate_idx_file().is_err());
}

#[test]
fn early_ai_object_leaves_the_header() {
    // Delta kinds beside an AI object are never encoded.
    for before in [0usize, 1, 999] {
        let mut entries: Vec<Incoming> = (0..before).map(|n| blob(&format!("{n}"))).collect();
        if before > 0 {
            entries[0].inner.obj_type = ObjectType::OffsetDelta;
        }
        let mut task = blob("ai");
        task.inner.obj_type = ObjectType::Task;
        entries.push(task);
        let mut behind = blob("behind");
        behind.inner.obj_type = ObjectType::HashDelta;
        entries.push(behind);
        let mut encoder = PackEncoder::new_with_idx(7, 0, HashKind::Sha1);
        let mut out = Vec::new();
        let GitError::PackEncodeError(reason) =
            encoder.encode(entries, 1, &rate, &order, &diff, &mut out).unwrap_err();
        assert_eq!(reason, "AI object type `task` cannot be encoded in a pack file");
        assert_eq!(out, vec![b"PACK\0\0\0\x02\0\0\0\x07".to_vec()]);
        assert!(encoder.get_hash().is_none());
        assert!(encoder.encode_idx_file().is_err());
        assert!(encoder.has_room(usize::MAX - 12));
    }
}

#[test]
fn run_step_by_step_is_parallel_encoding() {
    let texts: Vec<String> = (0..1200).map(|n| format!("object {n}")).collect();
    let mut whole = Vec::new();
    let mut encoder = PackEncoder::new(1200, 0, HashKind::Sha1);
    let entries = texts.iter().map(|text| blob(text)).collect();
    assert!(encoder.parallel_encode(entries, 1, &mut whole).unwrap());

    let mut out = Vec::new();
    let mut encoder = PackEncoder::new(1200, 0, HashKind::Sha1);
    assert!(encoder.begin_parallel(&mut out).is_ok());
    let mut run = ParallelRun::new(1);
    for (n, text) in texts.iter().enumerate() {
        let entry = blob(text);
        assert!(run.can_receive(&encoder, &entry));
        assert!(!run.can_close(&encoder));
        assert!(run.receive(&mut encoder, entry, &mut out).unwrap());
        // Nothing is sent until a batch is full.
        assert_eq!(out.len(), if n < 999 { 1 } else { 1001 });
    }
    assert!(run.can_close(&encoder));
    assert!(run.close(&mut encoder, &mut out).unwrap());
    assert_eq!(out, whole);
}

#[test]
fn run_refuses_what_cannot_be_stored() {
    let mut encoder = PackEncoder::new(1000, 0, HashKind::Sha1);
    let mut out = Vec::new();
    assert!(encoder.begin_parallel(&mut out).is_ok());
    let mut run = ParallelRun::new(1);
    let mut delta = blob("delta");
    delta.inner.obj_type = ObjectType::HashDelta;
    assert!(run.can_receive(&encoder, &delta));
    assert!(run.receive(&mut encoder, delta, &mut out).unwrap());
    for n in 0..998 {
        assert!(run.receive(&mut encoder, blob(&format!("{n}")), &mut out).unwrap());
    }
    // The batch would be full and come to be encoded.
    assert!(!run.can_receive(&encoder, &blob("last")));
    let mut task = blob("ai");
    task.inner.obj_type = ObjectType::Task;
    assert!(run.can_receive(&encoder, &task));
    assert!(run.receive(&mut encoder, task, &mut out).is_err());
    assert!(!run.can_close(&encoder));
}

#[test]
fn arrival_leaves_no_trace() {
    let mut entries = mixed_entries(40);
    for (n, entry) in entries.iter_mut().enumerate() {
        entry.meta.file_path = None;
        entry.inner.data.extend(std::iter::repeat(b'.').take(n));
    }
    let again = |turned: bool| {
        let mut list: Vec<Incoming> = entries
            .iter()
            .map(|entry| MetaAttached {
                inner: Entry {
                    obj_type: entry.inner.obj_type,
                    data: entry.inner.data.clone(),
                    hash: entry.inner.hash,
                    chain_len: 0,
                },
                meta: EntryMeta { file_path: None },
            })
            .collect();
        if turned {
            list.reverse();
            list.rotate_left(7);
        }
        let mut encoder = PackEncoder::new(40, 10, HashKind::Sha1);
        let pack = encode(&mut encoder, list);
        let places: Vec<u64> =
            encoder.generate_idx_file().unwrap().entries.iter().map(|place| place.offset).collect();
        (pack, encoder.get_hash().unwrap().to_hex(), places)
    };
    assert_eq!(again(false), again(true));
    check_format(&again(false).0, HashKind::Sha1);
}

#[test]
fn refused_entry_leaves_a_window_pack_with_its_header() {
    let mut entries = vec![blob("a"), blob("b")];
    entries[1].inner.obj_type = ObjectType::HashDelta;
    let mut encoder = PackEncoder::new(2, 10, HashKind::Sha1);
    let mut out = Vec::new();
    let GitError::PackEncodeError(reason) =
        encoder.inner_encode(entries, false, &rate, &order, &diff, &mut out).unwrap_err();
    assert_eq!(reason, "object type `HashDelta` is not supported by delta-window pack encoding");
    assert_eq!(out, vec![b"PACK\0\0\0\x02\0\0\0\x02".to_vec()]);
}

#[test]
fn parallel_encoding_needs_no_window() {
    let mut encoder = PackEncoder::new(1, 1, HashKind::Sha1);
    let mut out = Vec::new();
    let GitError::PackEncodeError(reason) =
        encoder.parallel_encode(vec![blob("a")], 1, &mut out).unwrap_err();
    assert_eq!(reason, "parallel encode only works when window_size == 0");
    assert!(out.is_empty());
}

#[test]
fn second_encoding_is_refused() {
    for window_size in [0, 10] {
        let mut encoder = PackEncoder::new(1, window_size, HashKind::Sha1);
        encode(&mut encoder, vec![blob("a")]);
        let hash = encoder.get_hash().unwrap().to_hex();
        let mut out = Vec::new();
        let GitError::PackEncodeError(reason) = encoder
            .encode(vec![blob("b")], 1, &rate, &order, &diff, &mut out)
            .unwrap_err();
        assert_eq!(reason, "encoding operation is already in progress");
        assert!(out.is_empty());
        assert_eq!(encoder.get_hash().unwrap().to_hex(), hash);
    }
}

#[test]
fn either_way_encodes_once() {
    let mut encoder = PackEncoder::new(1, 0, HashKind::Sha1);
    encode(&mut encoder, vec![blob("a")]);
    let mut out = Vec::new();
    assert!(encoder
        .encode_with_zstdelta(vec![blob("a")], &rate, &order, &diff, &mut out)
        .is_err());
    let mut encoder = PackEncoder::new(1, 0, HashKind::Sha1);
    assert!(encoder
        .encode_with_zstdelta(vec![blob("a")], &rate, &order, &diff, &mut out)
        .unwrap());
    assert!(encoder.parallel_encode(vec![blob("a")], 1, &mut out).is_err());
    assert_eq!(out.len(), 3);
}

#[test]
fn encoding_that_failed_is_not_taken_up_again() {
    let mut entry = blob("ai");
    entry.inner.obj_type = ObjectType::Task;
    let mut encoder = PackEncoder::new(1, 10, HashKind::Sha1);
    let mut out = Vec::new();
    assert!(encoder.encode(vec![entry], 1, &rate, &order, &diff, &mut out).is_err());
    let GitError::PackEncodeError(reason) =
        encoder.encode(vec![blob("a")], 1, &rate, &order, &diff, &mut out).unwrap_err();
    assert_eq!(reason, "encoding operation is already in progress");
    assert!(encoder.get_hash().is_none());
}

#[test]
fn hash_comes_at_the_end() {
    let mut encoder = PackEncoder::new(1, 0, HashKind::Sha1);
    assert!(encoder.get_hash().is_none());
    let pack = encode(&mut encoder, vec![blob("a")]);
    assert_eq!(encoder.get_hash().unwrap().to_vec(), pack[pack.len() - 20..]);
}

#[test]
fn index_needs_a_sender_and_a_finished_pack() {
    let mut encoder = PackEncoder::new(1, 0, HashKind::Sha1);
    encode(&mut encoder, vec![blob("a")]);
    let Err(GitError::PackEncodeError(reason)) = encoder.encode_idx_file() else {
        panic!("an index without a sender");
    };
    assert_eq!(reason, "idx sender is none");

    let mut encoder = PackEncoder::new_with_idx(1, 0, HashKind::Sha1);
    let Err(GitError::PackEncodeError(reason)) = encoder.encode_idx_file() else {
        panic!("an index without a pack");
    };
    assert_eq!(
        reason,
        "final_hash is missing,The pack file must be generated before the index file is produced."
    );
    encode(&mut encoder, vec![blob("a")]);
    let Ok(request) = encoder.encode_idx_file() else {
        panic!("no index of a finished pack");
    };
    assert_eq!(request.object_number, 1);
    assert_eq!(request.entries.len(), 1);
    assert_eq!(request.entries[0].offset, 12);
    assert!(request.entries[0].hash == blob("a").inner.hash);
    assert!(request.final_hash == encoder.get_hash().unwrap());
    // While the index could not be sent, it can be asked for again.
    assert_eq!(encoder.finish_idx_file(Err("closed")), Err("closed"));
    assert!(encoder.encode_idx_file().is_ok());
    assert_eq!(encoder.finish_idx_file::<&str>(Ok(())), Ok(()));
    let Err(GitError::PackEncodeError(reason)) = encoder.encode_idx_file() else {
        panic!("a second index");
    };
    assert_eq!(reason, "idx sender is none");
    assert!(encoder.get_hash().is_some());
    assert!(encoder.generate_idx_file().is_ok());
}

#[test]
fn dropped_sender_sends_no_more() {
    let mut encoder = PackEncoder::new(1, 0, HashKind::Sha1);
    encoder.drop_sender();
    let mut out = Vec::new();
    encoder.send_data(vec![1, 2, 3], &mut out);
    assert!(out.is_empty());
    assert!(encoder.parallel_encode(vec![blob("a")], 1, &mut out).unwrap());
    assert!(out.is_empty());
    assert!(encoder.get_hash().is_some());
}

#[test]
fn written_data_is_sent_as_it_is() {
    let mut encoder = PackEncoder::new(1, 0, HashKind::Sha1);
    let mut out = Vec::new();
    encoder.write_all_and_update(b"abc", &mut out);
    let mut index = Vec::new();
    let place = encode_whole(&blob("a").inner).unwrap().1;
    encoder.write_object(&(vec![9, 9], place), &mut index, &mut out);
    assert_eq!(out, vec![b"abc".to_vec(), vec![9, 9]]);
    assert_eq!(index[0].offset, 15);
    encoder.seal(index, &mut out);
    assert_eq!(out[2], sha1::Sha1::digest(b"abc\x09\x09").to_vec());
}

#[test]
fn header_comes_first() {
    let mut encoder = PackEncoder::new(3, 2, HashKind::Sha1);
    let mut out = Vec::new();
    assert!(encoder.begin(&mut out).is_ok());
    assert_eq!(out, vec![b"PACK\0\0\0\x02\0\0\0\x03".to_vec()]);
    assert!(encoder.begin(&mut out).is_err());
    assert_eq!((encoder.object_number(), encoder.window_size()), (3, 2));
}

#[test]
fn room_ends_with_the_machine_word() {
    let encoder = PackEncoder::new(1, 0, HashKind::Sha1);
    assert!(encoder.has_room(usize::MAX - 12));
    assert!(!encoder.has_room(usize::MAX - 11));
}

#[test]
fn buckets_keep_kinds_apart() {
    let mut buckets = EntryBuckets::new();
    for entry in mixed_entries(9) {
        assert!(buckets.add_entry(entry).is_ok());
    }
    let (commits, trees, blobs, tags) = buckets.into_parts();
    assert_eq!((commits.len(), trees.len(), blobs.len(), tags.len()), (2, 2, 2, 3));
    assert!(commits.iter().all(|entry| entry.inner.obj_type == ObjectType::Commit));
    assert!(tags.iter().all(|entry| entry.inner.obj_type == ObjectType::Tag));
    assert!(blobs[0].inner.data.ends_with(b"object number 1"));
    assert!(blobs[1].inner.data.ends_with(b"object number 5"));
}

#[test]
fn large_window_pack_stays_small() {
    let whole: usize = mixed_entries(400).iter().map(|entry| entry.inner.data.len()).sum();
    let mut encoder = PackEncoder::new(400, 10, HashKind::Sha1);
    let with_delta = encode(&mut encoder, mixed_entries(400));
    check_format(&with_delta, HashKind::Sha1);
    let mut encoder = PackEncoder::new(400, 0, HashKind::Sha1);
    let without_delta = encode(&mut encoder, mixed_entries(400));
    check_format(&without_delta, HashKind::Sha1);
    assert!(with_delta.len() <= without_delta.len());
    assert!(without_delta.len() < whole);
}
