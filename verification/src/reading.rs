//! Reading a pack back. Nothing here is executed: a specification of a reader, and
//! the laws that it finds in a finished pack what the encoder was given.
#![allow(unused_imports)]
use vstd::prelude::*;

use crate::buckets::{arranged, sorted_from, Incoming};
use crate::delta::{bucket_encoded, lemma_entry_in_log, log_follows};
use crate::encoder::{
    bodies, hashes, joined, lemma_joined_concat, lemma_joined_front, lemma_joined_step, placed,
    EncoderView,
};
use crate::format::{
    distance_bytes, law_distance_reads_back, law_object_header_reads_back, object_header_bytes,
    read_distance, read_header, read_object_header,
};
use crate::hash::{sha1_digest, sha256_digest, HashKind, ObjectHash};
use crate::object::{
    object_bytes, zlib_compressed, zlib_inflated, zlib_round_trips, Entry, IndexEntry, ObjectType,
};
use crate::order::{in_order, lemma_permuted_multiset, lists_once, permuted, sort_views};
use crate::parallel::inners;
use crate::window::{holds_log, log_end, log_right, packed_right, Packed, RateOrder, RateQuery};
use crate::windowed::bucket_done;

verus! {

/// What a reader finds at a position of a pack: the kind and the data of the object
/// there. A delta is applied by `patch`, which is given its kind, what is found at
/// its base, and the delta.
pub open spec fn read_object(
    pack: Seq<u8>,
    pos: int,
    patch: spec_fn(nat, Seq<u8>, Seq<u8>) -> Seq<u8>,
) -> Option<(nat, Seq<u8>)>
    decreases pos,
{
    match read_object_header(pack.skip(pos)) {
        None => None,
        Some((kind, len, header_len)) => {
            let rest = pack.skip(pos).skip(header_len as int);
            if kind == 5 || kind == 6 {
                match read_distance(rest) {
                    None => None,
                    Some((distance, distance_len)) => match zlib_inflated(
                        rest.skip(distance_len as int),
                    ) {
                        None => None,
                        Some((delta, _)) => if delta.len() == len && 0 < distance <= pos {
                            match read_object(pack, pos - distance, patch) {
                                Some((base_kind, base)) => Some(
                                    (base_kind, patch(kind, base, delta)),
                                ),
                                None => None,
                            }
                        } else {
                            None
                        },
                    },
                }
            } else {
                match zlib_inflated(rest) {
                    Some((data, _)) => if data.len() == len {
                        Some((kind, data))
                    } else {
                        None
                    },
                    None => None,
                }
            }
        },
    }
}

/// The number that a reader knows a kind of object by.
pub open spec fn kind_number(obj_type: ObjectType) -> nat {
    match obj_type {
        ObjectType::Commit => 1,
        ObjectType::Tree => 2,
        ObjectType::Blob => 3,
        ObjectType::Tag => 4,
        _ => 0,
    }
}

/// Whether an index entry names an entry's hash, and the reader finds the entry's
/// kind and data where it points.
pub open spec fn reads_as(
    pack: Seq<u8>,
    index: IndexEntry,
    entry: Entry,
    patch: spec_fn(nat, Seq<u8>, Seq<u8>) -> Seq<u8>,
) -> bool {
    &&& index.hash == entry.hash
    &&& read_object(pack, index.offset as int, patch) == Some(
        (kind_number(entry.obj_type), entry.data@),
    )
}

/// The bytes of each object of a log.
pub open spec fn log_bodies(log: Seq<Packed>) -> Seq<Seq<u8>> {
    Seq::new(log.len(), |i: int| log[i].bytes())
}

/// The number that a reader knows a delta by.
pub open spec fn delta_number(zstdelta: bool) -> nat {
    if zstdelta {
        5
    } else {
        6
    }
}

/// Whether `patch` turns every delta of a log back into the data of its object.
pub open spec fn patches(
    patch: spec_fn(nat, Seq<u8>, Seq<u8>) -> Seq<u8>,
    log: Seq<Packed>,
    zstdelta: bool,
) -> bool {
    forall|i: int|
        0 <= i < log.len() ==> ((#[trigger] log[i]).base matches Some(b) ==> patch(
            delta_number(zstdelta),
            log[b].data,
            log[i].payload,
        ) == log[i].data)
}

/// Each object of a log starts behind those before it.
pub proof fn lemma_starts(log: Seq<Packed>, window_size: nat, zstdelta: bool, i: int)
    requires
        log_right(log, window_size, zstdelta),
        0 <= i <= log.len(),
    ensures
        joined(log_bodies(log).take(i)).len() == log_end(log.take(i)),
    decreases i,
{
    if i > 0 {
        lemma_starts(log, window_size, zstdelta, i - 1);
        lemma_joined_step(log_bodies(log), i - 1);
        assert(packed_right(log, i - 1, window_size, zstdelta));
        assert(log.take(i).last() == log[i - 1]);
    }
}

/// What stands at the start of an object, in bytes that hold the objects of a log.
pub proof fn lemma_object_at(
    front: Seq<u8>,
    chunks: Seq<Seq<u8>>,
    back: Seq<u8>,
    i: int,
) -> (tail: Seq<u8>)
    requires
        0 <= i < chunks.len(),
    ensures
        (front + joined(chunks) + back).skip(
            (front.len() + joined(chunks.take(i)).len()) as int,
        ) == chunks[i] + tail,
{
    let after = chunks.skip(i + 1);
    let tail = joined(after) + back;
    lemma_joined_step(chunks, i);
    assert(chunks =~= chunks.take(i + 1) + after);
    lemma_joined_concat(chunks.take(i + 1), after);
    assert((front + joined(chunks) + back).skip(
        (front.len() + joined(chunks.take(i)).len()) as int,
    ) =~= chunks[i] + tail);
    tail
}

/// An object that is stored whole is found where it starts.
pub proof fn lemma_whole_reads_back(
    pack: Seq<u8>,
    pos: int,
    obj_type: ObjectType,
    data: Seq<u8>,
    tail: Seq<u8>,
    patch: spec_fn(nat, Seq<u8>, Seq<u8>) -> Seq<u8>,
)
    requires
        obj_type.pack_number() is Some,
        !obj_type.has_distance(),
        zlib_round_trips(data),
        pack.skip(pos) == object_bytes(obj_type, data, None) + tail,
    ensures
        read_object(pack, pos, patch) == Some((obj_type.pack_number()->0 as nat, data)),
{
    let kind = obj_type.pack_number()->0 as nat;
    let header = object_header_bytes(kind, data.len());
    let compressed = zlib_compressed(data);
    law_object_header_reads_back(kind, data.len(), compressed + tail);
    assert(pack.skip(pos) =~= header + (compressed + tail));
    assert(pack.skip(pos).skip(header.len() as int) =~= compressed + tail);
    assert(zlib_inflated(compressed + tail) == Some((data, compressed.len())));
}

/// A delta is found where it starts, if its base is found where the distance leads.
proof fn lemma_delta_reads_back(
    pack: Seq<u8>,
    pos: int,
    obj_type: ObjectType,
    delta: Seq<u8>,
    distance: nat,
    tail: Seq<u8>,
    patch: spec_fn(nat, Seq<u8>, Seq<u8>) -> Seq<u8>,
)
    requires
        obj_type.has_distance(),
        zlib_round_trips(delta),
        0 < distance <= pos,
        pack.skip(pos) == object_bytes(obj_type, delta, Some(distance)) + tail,
    ensures
        read_object(pack, pos, patch) == match read_object(pack, pos - distance, patch) {
            Some((base_kind, base)) => Some(
                (base_kind, patch(obj_type.pack_number()->0 as nat, base, delta)),
            ),
            None => None,
        },
{
    let kind = obj_type.pack_number()->0 as nat;
    let header = object_header_bytes(kind, delta.len());
    let jump = distance_bytes(distance);
    let compressed = zlib_compressed(delta);
    law_object_header_reads_back(kind, delta.len(), jump + compressed + tail);
    assert(pack.skip(pos) =~= header + (jump + compressed + tail));
    let rest = pack.skip(pos).skip(header.len() as int);
    assert(rest =~= jump + (compressed + tail));
    law_distance_reads_back(distance, compressed + tail);
    assert(rest.skip(jump.len() as int) =~= compressed + tail);
    assert(zlib_inflated(compressed + tail) == Some((delta, compressed.len())));
}

/// In bytes that hold the objects of a log one behind the other, whatever stands
/// before and behind them, the reader finds at the start of each object its kind and
/// its data, provided that `patch` undoes the deltas.
pub proof fn law_log_reads_back(
    front: Seq<u8>,
    log: Seq<Packed>,
    back: Seq<u8>,
    window_size: nat,
    zstdelta: bool,
    patch: spec_fn(nat, Seq<u8>, Seq<u8>) -> Seq<u8>,
    i: int,
)
    requires
        log_right(log, window_size, zstdelta),
        patches(patch, log, zstdelta),
        0 <= i < log.len(),
    ensures
        read_object(
            front + joined(log_bodies(log)) + back,
            (front.len() + log[i].start) as int,
            patch,
        ) == Some((kind_number(log[i].obj_type), log[i].data)),
    decreases i,
{
    let chunks = log_bodies(log);
    let pack = front + joined(chunks) + back;
    let packed = log[i];
    let pos = (front.len() + packed.start) as int;
    assert(packed_right(log, i, window_size, zstdelta));
    lemma_starts(log, window_size, zstdelta, i);
    let tail = lemma_object_at(front, chunks, back, i);
    assert(pack.skip(pos) == packed.bytes() + tail);
    match packed.base {
        None => {
            lemma_whole_reads_back(pack, pos, packed.obj_type, packed.data, tail, patch);
        },
        Some(b) => {
            law_log_reads_back(front, log, back, window_size, zstdelta, patch, b);
            let distance = packed.distance->0;
            assert(pos - distance == front.len() + log[b].start);
            lemma_delta_reads_back(
                pack,
                pos,
                packed.stored_type,
                packed.payload,
                distance,
                tail,
                patch,
            );
        },
    }
}

/// Whether `patch` makes out of a base and any delta that `diff` can answer for the base
/// and some data, each in full, that data again.
pub open spec fn undoes<D: Fn(&[u8], &[u8], bool) -> Vec<u8>>(
    patch: spec_fn(nat, Seq<u8>, Seq<u8>) -> Seq<u8>,
    diff: D,
    zstdelta: bool,
) -> bool {
    forall|base: &[u8], data: &[u8], delta: Vec<u8>| #[trigger]
        call_ensures(diff, (base, data, zstdelta), delta) ==> patch(
            delta_number(zstdelta),
            base@,
            delta@,
        ) == data@
}

/// Whether each index entry names one of the objects in turn and points to where the
/// reader finds it.
pub open spec fn index_reads_as(
    pack: Seq<u8>,
    index: Seq<IndexEntry>,
    objects: Seq<Entry>,
    patch: spec_fn(nat, Seq<u8>, Seq<u8>) -> Seq<u8>,
) -> bool {
    &&& index.len() == objects.len()
    &&& forall|i: int|
        0 <= i < index.len() ==> #[trigger] reads_as(pack, index[i], objects[i], patch)
}

/// Whether `pack` is a finished pack of the encoder: its header reads back with the
/// number of objects, and it ends in the checksum of all that stands before, which
/// is the hash that the encoder has of it.
pub open spec fn framed_right(pack: Seq<u8>, view: EncoderView) -> bool {
    &&& read_header(pack) == Some((2nat, view.object_number))
    &&& view.final_hash matches Some(hash)
    &&& match (view.kind, hash) {
        (HashKind::Sha1, ObjectHash::Sha1(sum)) => {
            &&& pack.len() >= 20
            &&& sum@ == pack.skip(pack.len() - 20)
            &&& sum@ == sha1_digest(pack.take(pack.len() - 20))
        },
        (HashKind::Sha256, ObjectHash::Sha256(sum)) => {
            &&& pack.len() >= 32
            &&& sum@ == pack.skip(pack.len() - 32)
            &&& sum@ == sha256_digest(pack.take(pack.len() - 32))
        },
        _ => false,
    }
}

/// The objects of entries.
pub open spec fn objects_in(entries: Seq<Incoming>) -> Seq<Entry> {
    Seq::new(entries.len(), |i: int| entries[i].inner)
}

/// Chunks one behind the other.
pub proof fn lemma_joined_is_flat(chunks: Seq<Seq<u8>>)
    ensures
        joined(chunks) == chunks.flatten(),
    decreases chunks.len(),
{
    chunks.lemma_flatten_and_flatten_alt_are_equivalent();
    if chunks.len() > 0 {
        lemma_joined_is_flat(chunks.drop_last());
        chunks.drop_last().lemma_flatten_and_flatten_alt_are_equivalent();
    }
}

/// Sorting a bucket neither loses an entry nor adds one.
pub proof fn law_sorting_keeps_entries(bucket: Seq<Incoming>, sorted: Seq<Entry>)
    requires
        sorted_from(bucket, sorted),
    ensures
        sorted.to_multiset() == objects_in(bucket).to_multiset(),
{
    assert(objects_in(bucket) =~= inners(bucket));
    let places = choose|places: Seq<usize>|
        {
            &&& lists_once(places, 0, bucket.len() as int)
            &&& in_order(sort_views(bucket), places)
            &&& sorted == #[trigger] arranged(bucket, places)
        };
    lemma_permuted_multiset(inners(bucket), places);
    assert(arranged(bucket, places) =~= permuted(inners(bucket), places)) by {
        assert forall|i: int| 0 <= i < places.len() implies arranged(bucket, places)[i]
            == permuted(inners(bucket), places)[i] by {
            assert(places.contains(places[i]));
        }
    }
}

/// The entries of a log are found where the index says.
proof fn lemma_log_index_reads_back<
    K,
    R: Fn(&Vec<RateQuery<'_>>, &[u8]) -> Vec<Option<K>>,
    O: Fn(&K, &K) -> RateOrder,
    D: Fn(&[u8], &[u8], bool) -> Vec<u8>,
>(
    front: Seq<u8>,
    bucket: Seq<Entry>,
    log: Seq<Packed>,
    names: Seq<ObjectHash>,
    back: Seq<u8>,
    size: nat,
    zstdelta: bool,
    rate: R,
    order: O,
    diff: D,
    patch: spec_fn(nat, Seq<u8>, Seq<u8>) -> Seq<u8>,
)
    requires
        log_follows(bucket, log, size, zstdelta, rate, order, diff),
        log.len() == bucket.len(),
        names.len() == log.len(),
        forall|i: int| 0 <= i < log.len() ==> #[trigger] names[i] == log[i].hash,
        undoes(patch, diff, zstdelta),
        front.len() + joined(log_bodies(log)).len() <= usize::MAX,
    ensures
        index_reads_as(
            front + joined(log_bodies(log)) + back,
            placed(names, log_bodies(log), front.len()),
            bucket,
            patch,
        ),
{
    let chunks = log_bodies(log);
    assert(patches(patch, log, zstdelta)) by {
        assert forall|i: int| 0 <= i < log.len() implies ((#[trigger] log[i]).base matches Some(b)
            ==> patch(
            delta_number(zstdelta),
            log[b].data,
            log[i].payload,
        ) == log[i].data) by {
            lemma_entry_in_log(bucket, log, i, size, zstdelta, rate, order, diff);
        }
    }
    let pack = front + joined(chunks) + back;
    let index = placed(names, chunks, front.len());
    assert forall|i: int| 0 <= i < index.len() implies #[trigger] reads_as(
        pack,
        index[i],
        bucket[i],
        patch,
    ) by {
        lemma_entry_in_log(bucket, log, i, size, zstdelta, rate, order, diff);
        assert(packed_right(log, i, size, zstdelta));
        assert(names[i] == log[i].hash);
        lemma_starts(log, size, zstdelta, i);
        lemma_joined_front(chunks, i);
        law_log_reads_back(front, log, back, size, zstdelta, patch, i);
    }
}

/// A bucket that went through a window reads back. In bytes that hold its objects one
/// behind the other, whatever stands before and behind them, the reader finds at the
/// start of each the kind and the data of its entry, in the order of the bucket, provided
/// that `patch` undoes the deltas that `diff` makes.
pub proof fn law_bucket_reads_back<
    K,
    R: Fn(&Vec<RateQuery<'_>>, &[u8]) -> Vec<Option<K>>,
    O: Fn(&K, &K) -> RateOrder,
    D: Fn(&[u8], &[u8], bool) -> Vec<u8>,
>(
    front: Seq<u8>,
    bucket: Seq<Entry>,
    res: Seq<(Vec<u8>, IndexEntry)>,
    back: Seq<u8>,
    size: nat,
    zstdelta: bool,
    rate: R,
    order: O,
    diff: D,
    patch: spec_fn(nat, Seq<u8>, Seq<u8>) -> Seq<u8>,
)
    requires
        bucket_encoded(bucket, res, size, zstdelta, rate, order, diff),
        undoes(patch, diff, zstdelta),
        front.len() + joined(bodies(res)).len() <= usize::MAX,
    ensures
        index_reads_as(
            front + joined(bodies(res)) + back,
            placed(hashes(res), bodies(res), front.len()),
            bucket,
            patch,
        ),
{
    let log = choose|log: Seq<Packed>|
        {
            &&& #[trigger] log_follows(bucket, log, size, zstdelta, rate, order, diff)
            &&& log.len() == bucket.len()
            &&& log_end(log) <= usize::MAX
            &&& holds_log(res, log)
        };
    assert(bodies(res) =~= log_bodies(log)) by {
        assert forall|i: int| 0 <= i < log.len() implies bodies(res)[i] == log_bodies(log)[i] by {
            assert(res[i].0@ == log[i].bytes());
        }
    }
    assert forall|i: int| 0 <= i < log.len() implies #[trigger] hashes(res)[i] == log[i].hash by {
        assert(res[i].1.hash == log[i].hash);
    }
    lemma_log_index_reads_back(
        front,
        bucket,
        log,
        hashes(res),
        back,
        size,
        zstdelta,
        rate,
        order,
        diff,
        patch,
    );
}

/// The objects of a bucket that went through a window are found where the index
/// says.
pub proof fn lemma_bucket_reads_back<
    K,
    R: Fn(&Vec<RateQuery<'_>>, &[u8]) -> Vec<Option<K>>,
    O: Fn(&K, &K) -> RateOrder,
    D: Fn(&[u8], &[u8], bool) -> Vec<u8>,
>(
    front: Seq<u8>,
    bucket: Seq<Incoming>,
    res: Seq<(Vec<u8>, IndexEntry)>,
    back: Seq<u8>,
    size: nat,
    zstdelta: bool,
    rate: R,
    order: O,
    diff: D,
    patch: spec_fn(nat, Seq<u8>, Seq<u8>) -> Seq<u8>,
) -> (objects: Seq<Entry>)
    requires
        bucket_done(bucket, res, size, zstdelta, rate, order, diff),
        undoes(patch, diff, zstdelta),
        front.len() + joined(bodies(res)).len() <= usize::MAX,
    ensures
        objects.to_multiset() == inners(bucket).to_multiset(),
        index_reads_as(
            front + joined(bodies(res)) + back,
            placed(hashes(res), bodies(res), front.len()),
            objects,
            patch,
        ),
{
    let sorted = choose|sorted: Seq<Entry>| #[trigger]
        sorted_from(bucket, sorted) && bucket_encoded(
            sorted,
            res,
            size,
            zstdelta,
            rate,
            order,
            diff,
        );
    law_sorting_keeps_entries(bucket, sorted);
    assert(objects_in(bucket) =~= inners(bucket));
    law_bucket_reads_back(
        front,
        sorted,
        res,
        back,
        size,
        zstdelta,
        rate,
        order,
        diff,
        patch,
    );
    sorted
}

} // verus!
