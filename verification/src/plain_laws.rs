//! What bytes, names and outcomes come to, in plain terms.
#![allow(unused_imports)]
use vstd::arithmetic::div_mod::{lemma_fundamental_div_mod, lemma_fundamental_div_mod_converse};
use vstd::prelude::*;

use crate::buckets::{apart, of_type, sorted_from, unsupported_reason, windowed, Incoming};
use crate::delta::bucket_encoded;
use crate::delta_laws::{law_whole_object_comes_apart, unframed};
use crate::encoder::{
    bodies, fresh, hashes, in_progress_reason, joined, no_idx_sender_reason, pack_finished, sent,
    with_header, EncoderView,
};
use crate::error::GitError;
use crate::format::{be32, header_bytes, object_header_bytes, read_header, size_bytes};
use crate::hash::{digest, hex, hex_digit, sha1_digest, sha256_digest, HashKind, ObjectHash};
use crate::object::{encodable, zlib_round_trips, Entry, IndexEntry, ObjectType};
use crate::parallel::{
    ai_reason, batch_end, batch_of, batches_written, has_window_reason, inners, parallel_outcome,
    parallel_ready, reaches_encoder, refused_at, whole_bodies,
};
use crate::reading::{kind_number, lemma_joined_is_flat};
use crate::window::{RateOrder, RateQuery};
use crate::windowed::{all_done, bucket_done, four_joined, window_in_use, window_outcome};

verus! {

/// A file header is the letters `PACK`, the number 2 and the count, these two in four bytes
/// each, of which each counts 256 times the next.
pub proof fn law_header_is_signature_version_and_count(count: nat)
    requires
        count <= u32::MAX,
    ensures
        ({
            let header = header_bytes(count);
            &&& header.len() == 12
            &&& header.take(4) == seq![0x50u8, 0x41, 0x43, 0x4B]
            &&& header.subrange(4, 8) == seq![0u8, 0, 0, 2]
            &&& count == ((header[8] * 256 + header[9]) * 256 + header[10]) * 256 + header[11]
        }),
{
    let header = header_bytes(count);
    assert(header.take(4) =~= seq![0x50u8, 0x41, 0x43, 0x4B]);
    assert(header.subrange(4, 8) =~= seq![0u8, 0, 0, 2]);
    assert(header.subrange(8, 12) =~= be32(count));
}

/// The header of an object is not longer than it needs to be: behind its second byte no byte
/// at its end is zero.
pub proof fn law_object_header_is_not_padded(kind: nat, len: nat)
    ensures
        object_header_bytes(kind, len).len() >= 2,
        object_header_bytes(kind, len).len() > 2 ==> object_header_bytes(kind, len).last() != 0,
        len < 2048 ==> object_header_bytes(kind, len).len() == 2,
{
    lemma_size_is_not_padded(len / 16);
    assert(object_header_bytes(kind, len).last() == size_bytes(len / 16).last());
}

/// A size takes no more bytes than it needs.
proof fn lemma_size_is_not_padded(size: nat)
    ensures
        size_bytes(size).len() > 0,
        size > 0 ==> size_bytes(size).last() != 0,
        size < 128 ==> size_bytes(size).len() == 1,
        size >= 128 ==> size_bytes(size).len() > 1,
    decreases size,
{
    if size / 128 > 0 {
        lemma_size_is_not_padded(size / 128);
        assert(size_bytes(size).last() == size_bytes(size / 128).last());
    }
}

/// A hash in hexadecimal has two of the sixteen digits for each byte, the higher half first.
pub proof fn law_two_digits_for_each_byte(bytes: Seq<u8>, i: int)
    requires
        0 <= i < bytes.len(),
    ensures
        hex(bytes).len() == 2 * bytes.len(),
        hex(bytes)[2 * i] == "0123456789abcdef"@[bytes[i] as int / 16],
        hex(bytes)[2 * i + 1] == "0123456789abcdef"@[bytes[i] as int % 16],
    decreases bytes.len(),
{
    reveal_strlit("0123456789abcdef");
    let front = bytes.drop_last();
    if front.len() == 0 {
        assert(hex(front).len() == 0);
    } else {
        let j = if i < front.len() {
            i
        } else {
            0
        };
        law_two_digits_for_each_byte(front, j);
    }
    let byte = bytes[i] as int;
    assert(hex_digit(byte / 16) == "0123456789abcdef"@[byte / 16]);
    assert(hex_digit(byte % 16) == "0123456789abcdef"@[byte % 16]);
}

/// The checksum is that of the hash function asked for.
pub proof fn law_checksum_is_that_asked_for(message: Seq<u8>)
    ensures
        digest(HashKind::Sha1, message) == sha1_digest(message),
        digest(HashKind::Sha256, message) == sha256_digest(message),
        forall|sum: [u8; 20]| #[trigger] ObjectHash::Sha1(sum).spec_kind() == HashKind::Sha1,
        forall|sum: [u8; 32]| #[trigger] ObjectHash::Sha256(sum).spec_kind() == HashKind::Sha256,
{
}

/// The numbers that packs have for kinds of objects: the four kinds of objects proper and the
/// three kinds of deltas, and none for an AI object.
pub proof fn law_kinds_have_their_numbers(obj_type: ObjectType)
    ensures
        kind_number(obj_type) != 0 ==> obj_type.pack_number() == Some(kind_number(obj_type) as u8),
        obj_type == ObjectType::OffsetZstdelta ==> obj_type.pack_number() == Some(5u8),
        obj_type == ObjectType::OffsetDelta ==> obj_type.pack_number() == Some(6u8),
        obj_type == ObjectType::HashDelta ==> obj_type.pack_number() == Some(7u8),
        obj_type.pack_number() is None <==> obj_type == ObjectType::Task,
        windowed(obj_type) <==> kind_number(obj_type) != 0,
        encodable(obj_type, None) && obj_type.pack_number() is Some <==> kind_number(obj_type)
            != 0,
{
}

/// What refusals say.
pub proof fn law_refusals_say_why(obj_type: ObjectType)
    ensures
        in_progress_reason() == "encoding operation is already in progress"@,
        no_idx_sender_reason() == "idx sender is none"@,
        has_window_reason() == "parallel encode only works when window_size == 0"@,
        ai_reason(obj_type) == "AI object type `"@ + obj_type.spec_name()
            + "` cannot be encoded in a pack file"@,
        unsupported_reason(obj_type) == "object type `"@ + obj_type.spec_name()
            + "` is not supported by delta-window pack encoding"@,
        ObjectType::Commit.spec_name() == "commit"@,
        ObjectType::Tree.spec_name() == "tree"@,
        ObjectType::Blob.spec_name() == "blob"@,
        ObjectType::Tag.spec_name() == "tag"@,
        ObjectType::Task.spec_name() == "task"@,
{
}

/// A batch has as many objects as a tenth of what the channel of entries can hold, and a
/// thousand at least.
pub proof fn law_batch_is_a_tenth_of_the_channel(max_capacity: usize)
    ensures
        batch_of(max_capacity) >= 1000,
        10 * batch_of(max_capacity) <= max_capacity || batch_of(max_capacity) == 1000,
        10 * batch_of(max_capacity) + 9 >= max_capacity,
{
}

/// A window is of the size asked for; only zstd deltas without one get a window of ten.
pub proof fn law_window_is_of_the_size_asked_for(window_size: nat, zstdelta: bool)
    ensures
        window_size > 0 ==> window_in_use(window_size, zstdelta) == window_size,
        window_in_use(0, true) == 10,
        window_in_use(0, false) == 0,
{
}

/// A new encoder has sent, hashed and encoded nothing, and its first object will stand behind
/// the twelve bytes of the header.
pub proof fn law_new_encoder_has_done_nothing(
    object_number: nat,
    window_size: nat,
    kind: HashKind,
    idx_open: bool,
)
    ensures
        ({
            let view = fresh(object_number, window_size, kind, idx_open);
            &&& view.object_number == object_number
            &&& view.window_size == window_size
            &&& view.kind == kind
            &&& view.idx_open == idx_open
            &&& view.pack_open
            &&& !view.started
            &&& view.process_index == 0
            &&& view.offset == 12
            &&& view.hashed.len() == 0
            &&& view.final_hash is None
            &&& view.idx_entries is None
        }),
{
}

/// The entries of a kind are those of them that are of it, in the order of arrival.
pub proof fn law_bucket_is_what_is_of_its_kind(entries: Seq<Incoming>, obj_type: ObjectType)
    ensures
        of_type(entries, obj_type) == entries.filter(
            |entry: Incoming| entry.inner.obj_type == obj_type,
        ),
        apart(entries).commits == of_type(entries, ObjectType::Commit),
        apart(entries).trees == of_type(entries, ObjectType::Tree),
        apart(entries).blobs == of_type(entries, ObjectType::Blob),
        apart(entries).tags == of_type(entries, ObjectType::Tag),
{
}

/// The entries of a kind, sorted, and the objects that they were encoded into.
pub ghost struct KindDone {
    pub sorted: Seq<Entry>,
    pub res: Seq<(Vec<u8>, IndexEntry)>,
}

/// Whether the entries of a kind were sorted and encoded through a window of a size.
pub open spec fn kind_done<
    K,
    R: Fn(&Vec<RateQuery<'_>>, &[u8]) -> Vec<Option<K>>,
    O: Fn(&K, &K) -> RateOrder,
    D: Fn(&[u8], &[u8], bool) -> Vec<u8>,
>(
    entries: Seq<Incoming>,
    obj_type: ObjectType,
    done: KindDone,
    size: nat,
    zstdelta: bool,
    rate: R,
    order: O,
    diff: D,
) -> bool {
    &&& sorted_from(
        entries.filter(|entry: Incoming| entry.inner.obj_type == obj_type),
        done.sorted,
    )
    &&& bucket_encoded(done.sorted, done.res, size, zstdelta, rate, order, diff)
}

/// The bytes of encoded objects, one chunk for each.
pub open spec fn chunks_of(res: Seq<(Vec<u8>, IndexEntry)>) -> Seq<Seq<u8>> {
    Seq::new(res.len(), |i: int| res[i].0@)
}

/// A finished window pack is made kind by kind: commits, trees, blobs and tags, each sorted
/// and encoded through a window of the size that the encoder was made with, or of ten for
/// zstd deltas without one. What is sent is the header, a chunk for each object in that
/// order, and the checksum.
pub proof fn law_window_pack_is_made_kind_by_kind<
    K,
    R: Fn(&Vec<RateQuery<'_>>, &[u8]) -> Vec<Option<K>>,
    O: Fn(&K, &K) -> RateOrder,
    D: Fn(&[u8], &[u8], bool) -> Vec<u8>,
>(
    before: EncoderView,
    after: EncoderView,
    entries: Seq<Incoming>,
    zstdelta: bool,
    rate: R,
    order: O,
    diff: D,
    out_before: Seq<Seq<u8>>,
    out_after: Seq<Seq<u8>>,
) -> (kinds: (KindDone, KindDone, KindDone, KindDone))
    requires
        before.object_number <= u32::MAX,
        window_outcome(
            before,
            after,
            entries,
            zstdelta,
            rate,
            order,
            diff,
            out_before,
            out_after,
            Ok(true),
        ),
    ensures
        ({
            let size = if before.window_size > 0 {
                before.window_size
            } else if zstdelta {
                10
            } else {
                0
            };
            let chunks = chunks_of(kinds.0.res) + chunks_of(kinds.1.res) + chunks_of(kinds.2.res)
                + chunks_of(kinds.3.res);
            &&& kind_done(entries, ObjectType::Commit, kinds.0, size, zstdelta, rate, order, diff)
            &&& kind_done(entries, ObjectType::Tree, kinds.1, size, zstdelta, rate, order, diff)
            &&& kind_done(entries, ObjectType::Blob, kinds.2, size, zstdelta, rate, order, diff)
            &&& kind_done(entries, ObjectType::Tag, kinds.3, size, zstdelta, rate, order, diff)
            &&& forall|i: int|
                0 <= i < entries.len() ==> kind_number(
                    (#[trigger] entries[i]).inner.obj_type,
                ) != 0
            &&& before.pack_open ==> {
                &&& out_after.len() == out_before.len() + chunks.len() + 2
                &&& out_after.take(out_before.len() as int) == out_before
                &&& read_header(out_after[out_before.len() as int]) == Some(
                    (2nat, before.object_number),
                )
                &&& out_after.subrange(1 + out_before.len() as int, out_after.len() - 1) == chunks
                &&& after.final_hash matches Some(hash) && out_after.last() == hash@
            }
            &&& !before.pack_open ==> out_after == out_before
            &&& !after.pack_open
            &&& after.offset == before.offset + chunks.flatten().len()
        }),
{
    let begun = with_header(before);
    let header = header_bytes(before.object_number);
    let out_begun = out_before + sent(before.pack_open, seq![header]);
    let size = window_in_use(before.window_size, zstdelta);
    law_window_is_of_the_size_asked_for(before.window_size, zstdelta);
    let res = choose|res: Seq<(Vec<u8>, IndexEntry)>|
        {
            &&& #[trigger] all_done(apart(entries), res, size, zstdelta, rate, order, diff)
            &&& pack_finished(begun, after, hashes(res), bodies(res), out_begun, out_after)
        };
    let parts = apart(entries);
    let (c, t, b, g) = choose|
        commits: Seq<(Vec<u8>, IndexEntry)>,
        trees: Seq<(Vec<u8>, IndexEntry)>,
        blobs: Seq<(Vec<u8>, IndexEntry)>,
        tags: Seq<(Vec<u8>, IndexEntry)>,
    |
        {
            &&& bucket_done(parts.commits, commits, size, zstdelta, rate, order, diff)
            &&& bucket_done(parts.trees, trees, size, zstdelta, rate, order, diff)
            &&& bucket_done(parts.blobs, blobs, size, zstdelta, rate, order, diff)
            &&& bucket_done(parts.tags, tags, size, zstdelta, rate, order, diff)
            &&& res == #[trigger] four_joined(commits, trees, blobs, tags)
        };
    let commits = lemma_kind_done(
        entries, ObjectType::Commit, c, size, zstdelta, rate, order, diff,
    );
    let trees = lemma_kind_done(entries, ObjectType::Tree, t, size, zstdelta, rate, order, diff);
    let blobs = lemma_kind_done(entries, ObjectType::Blob, b, size, zstdelta, rate, order, diff);
    let tags = lemma_kind_done(entries, ObjectType::Tag, g, size, zstdelta, rate, order, diff);
    let chunks = chunks_of(c) + chunks_of(t) + chunks_of(b) + chunks_of(g);
    assert(bodies(res) =~= chunks);
    lemma_joined_is_flat(chunks);
    assert forall|i: int| 0 <= i < entries.len() implies kind_number(
        (#[trigger] entries[i]).inner.obj_type,
    ) != 0 by {
        assert(windowed(entries[i].inner.obj_type));
    }
    if before.pack_open {
        let sum = digest(begun.kind, begun.hashed + joined(bodies(res)));
        assert(out_after =~= out_before + seq![header] + chunks + seq![sum]);
        assert(out_after.take(out_before.len() as int) =~= out_before);
        assert(out_after.subrange(1 + out_before.len() as int, out_after.len() - 1) =~= chunks);
        crate::format::law_header_reads_back(before.object_number, Seq::empty());
        assert(header + Seq::<u8>::empty() =~= header);
    } else {
        assert(out_after =~= out_before);
    }
    (commits, trees, blobs, tags)
}

/// What was done with the entries of a kind.
pub proof fn lemma_kind_done<
    K,
    R: Fn(&Vec<RateQuery<'_>>, &[u8]) -> Vec<Option<K>>,
    O: Fn(&K, &K) -> RateOrder,
    D: Fn(&[u8], &[u8], bool) -> Vec<u8>,
>(
    entries: Seq<Incoming>,
    obj_type: ObjectType,
    res: Seq<(Vec<u8>, IndexEntry)>,
    size: nat,
    zstdelta: bool,
    rate: R,
    order: O,
    diff: D,
) -> (done: KindDone)
    requires
        bucket_done(of_type(entries, obj_type), res, size, zstdelta, rate, order, diff),
    ensures
        kind_done(entries, obj_type, done, size, zstdelta, rate, order, diff),
        done.res == res,
{
    let bucket = of_type(entries, obj_type);
    let sorted = choose|sorted: Seq<Entry>| #[trigger]
        sorted_from(bucket, sorted) && bucket_encoded(
            sorted,
            res,
            size,
            zstdelta,
            rate,
            order,
            diff,
        );
    KindDone { sorted, res }
}

/// A window encoding that has not begun yet is refused if and only if some entry is of none of
/// the four kinds, and the first such entry is named.
pub proof fn law_first_foreign_kind_is_refused<
    K,
    R: Fn(&Vec<RateQuery<'_>>, &[u8]) -> Vec<Option<K>>,
    O: Fn(&K, &K) -> RateOrder,
    D: Fn(&[u8], &[u8], bool) -> Vec<u8>,
>(
    before: EncoderView,
    after: EncoderView,
    entries: Seq<Incoming>,
    k: int,
    zstdelta: bool,
    rate: R,
    order: O,
    diff: D,
    out_before: Seq<Seq<u8>>,
    out_after: Seq<Seq<u8>>,
    done: Result<bool, GitError>,
)
    requires
        !before.started,
        window_outcome(
            before,
            after,
            entries,
            zstdelta,
            rate,
            order,
            diff,
            out_before,
            out_after,
            done,
        ),
        0 <= k <= entries.len(),
        forall|i: int|
            0 <= i < k ==> kind_number((#[trigger] entries[i]).inner.obj_type) != 0,
        k < entries.len() ==> kind_number(entries[k].inner.obj_type) == 0,
    ensures
        done is Err <==> k < entries.len(),
        done matches Err(error) ==> {
            &&& error.reason() == "object type `"@ + entries[k].inner.obj_type.spec_name()
                + "` is not supported by delta-window pack encoding"@
            &&& after.final_hash == before.final_hash
            &&& after.idx_entries == before.idx_entries
            &&& after.offset == before.offset
            &&& out_after == out_before + (if before.pack_open {
                seq![header_bytes(before.object_number)]
            } else {
                Seq::empty()
            })
        },
{
    if k < entries.len() {
        assert(!windowed(entries[k].inner.obj_type));
    } else {
        assert forall|i: int| 0 <= i < entries.len() implies windowed(
            (#[trigger] entries[i]).inner.obj_type,
        ) by {
            assert(kind_number(entries[i].inner.obj_type) != 0);
        }
    }
    if let Err(error) = done {
        let j = choose|j: int|
            {
                &&& 0 <= j < entries.len()
                &&& !windowed((#[trigger] entries[j]).inner.obj_type)
                &&& forall|i: int| 0 <= i < j ==> windowed((#[trigger] entries[i]).inner.obj_type)
                &&& error.reason() == unsupported_reason(entries[j].inner.obj_type)
            };
        if j < k {
            assert(kind_number(entries[j].inner.obj_type) != 0);
        }
        if k < j {
            assert(windowed(entries[k].inner.obj_type));
        }
    }
}

/// Whether the chunks are the first entries in turn, each whole.
pub open spec fn whole_in_turn(entries: Seq<Incoming>, chunks: Seq<Seq<u8>>) -> bool {
    &&& chunks.len() <= entries.len()
    &&& forall|i: int|
        0 <= i < chunks.len() ==> unframed(#[trigger] chunks[i]) == Some(
            (kind_number(entries[i].inner.obj_type), None::<nat>, entries[i].inner.data@),
        )
}

/// Chunks that hold the first entries whole.
proof fn lemma_whole_in_turn(entries: Seq<Incoming>, m: int)
    requires
        0 <= m <= entries.len(),
        forall|i: int|
            0 <= i < m ==> kind_number((#[trigger] entries[i]).inner.obj_type) != 0
                && zlib_round_trips(entries[i].inner.data@),
    ensures
        whole_in_turn(entries, whole_bodies(inners(entries.take(m)))),
        whole_bodies(inners(entries.take(m))).len() == m,
{
    let chunks = whole_bodies(inners(entries.take(m)));
    assert forall|i: int| 0 <= i < chunks.len() implies unframed(#[trigger] chunks[i]) == Some(
        (kind_number(entries[i].inner.obj_type), None::<nat>, entries[i].inner.data@),
    ) by {
        let entry = entries[i].inner;
        assert(kind_number(entries[i].inner.obj_type) != 0);
        law_whole_object_comes_apart(entry.obj_type, entry.data@);
    }
}

/// A finished parallel pack is the header, each entry whole and in turn, and the checksum, one
/// chunk for each.
pub proof fn law_parallel_pack_is_each_entry_whole(
    before: EncoderView,
    after: EncoderView,
    entries: Seq<Incoming>,
    size: nat,
    out_before: Seq<Seq<u8>>,
    out_after: Seq<Seq<u8>>,
) -> (chunks: Seq<Seq<u8>>)
    requires
        size > 0,
        before.window_size == 0,
        !before.started,
        before.pack_open,
        parallel_ready(before, entries, size),
        parallel_outcome(before, after, entries, size, out_before, out_after, Ok(true)),
    ensures
        chunks.len() == entries.len(),
        whole_in_turn(entries, chunks),
        after.final_hash is Some,
        out_after == out_before + seq![header_bytes(before.object_number)] + chunks
            + seq![after.final_hash->0@],
        after.process_index == before.process_index + entries.len(),
        after.offset == before.offset + chunks.flatten().len(),
        !after.pack_open,
{
    let n = entries.len() as int;
    assert forall|i: int| 0 <= i < n implies kind_number(
        (#[trigger] entries[i]).inner.obj_type,
    ) != 0 && zlib_round_trips(entries[i].inner.data@) by {
        assert(entries[i].inner.obj_type.pack_number() is Some);
        assert(reaches_encoder(entries, size, i));
        law_kinds_have_their_numbers(entries[i].inner.obj_type);
    }
    lemma_whole_in_turn(entries, n);
    assert(entries.take(n) =~= entries);
    let chunks = whole_bodies(inners(entries));
    lemma_joined_is_flat(chunks);
    assert(out_after =~= out_before + seq![header_bytes(before.object_number)] + chunks
        + seq![after.final_hash->0@]);
    chunks
}

/// An AI object is refused when all full batches before it have been sent and nothing of its
/// own batch: the header, and as many entries as make up these batches, whole and in turn.
pub proof fn law_refused_ai_object_leaves_full_batches(
    before: EncoderView,
    after: EncoderView,
    entries: Seq<Incoming>,
    k: int,
    size: nat,
    out_before: Seq<Seq<u8>>,
    out_after: Seq<Seq<u8>>,
    error: GitError,
) -> (chunks: Seq<Seq<u8>>)
    requires
        size > 0,
        before.window_size == 0,
        !before.started,
        before.pack_open,
        parallel_ready(before, entries, size),
        0 <= k < entries.len(),
        forall|i: int|
            0 <= i < k ==> (#[trigger] entries[i]).inner.obj_type != ObjectType::Task,
        entries[k].inner.obj_type == ObjectType::Task,
        parallel_outcome(before, after, entries, size, out_before, out_after, Err(error)),
    ensures
        chunks.len() == k - k % (size as int),
        whole_in_turn(entries, chunks),
        out_after == out_before + seq![header_bytes(before.object_number)] + chunks,
        error.reason() == "AI object type `task` cannot be encoded in a pack file"@,
        after.process_index == before.process_index + k,
        after.final_hash == before.final_hash,
        after.idx_entries == before.idx_entries,
{
    let begun = with_header(before);
    let header = header_bytes(before.object_number);
    let out_begun = out_before + sent(before.pack_open, seq![header]);
    let d = size as int;
    let (at, m, idx_entries) = choose|at: int, m: int, idx_entries: Seq<IndexEntry>|
        {
            &&& #[trigger] batches_written(
                begun,
                after,
                entries,
                m,
                at,
                idx_entries,
                out_begun,
                out_after,
            )
            &&& refused_at(entries, size, at, m, error)
        };
    assert(at == k) by {
        if at < k {
            assert(entries[at].inner.obj_type != ObjectType::Task);
        }
        if k < at {
            assert(entries[k].inner.obj_type.pack_number() is Some);
        }
    }
    lemma_fundamental_div_mod(m, d);
    let q = m / d;
    assert(k == q * d + (k - m)) by (nonlinear_arith)
        requires
            m == d * q + 0,
    ;
    lemma_fundamental_div_mod_converse(k, d, q, k - m);
    assert(m == k - k % d);
    assert forall|i: int| 0 <= i < m implies kind_number(
        (#[trigger] entries[i]).inner.obj_type,
    ) != 0 && zlib_round_trips(entries[i].inner.data@) by {
        assert(entries[i].inner.obj_type.pack_number() is Some);
        lemma_batch_ends_in_time(entries.len(), size, m, i);
        assert(reaches_encoder(entries, size, i));
        law_kinds_have_their_numbers(entries[i].inner.obj_type);
    }
    lemma_whole_in_turn(entries, m);
    let chunks = whole_bodies(inners(entries.take(m)));
    assert(out_after =~= out_before + seq![header] + chunks);
    reveal_strlit("AI object type `");
    reveal_strlit("task");
    reveal_strlit("` cannot be encoded in a pack file");
    reveal_strlit("AI object type `task` cannot be encoded in a pack file");
    assert(error.reason() =~= "AI object type `task` cannot be encoded in a pack file"@);
    chunks
}

/// The batch of an entry that stands before a whole number of batches ends by then.
proof fn lemma_batch_ends_in_time(n: nat, size: nat, m: int, i: int)
    requires
        size > 0,
        0 <= i < m <= n,
        m % (size as int) == 0,
    ensures
        batch_end(n, size, i) <= m,
{
    let d = size as int;
    lemma_fundamental_div_mod(m, d);
    lemma_fundamental_div_mod(i, d);
    let (p, q) = (i / d, m / d);
    assert((p + 1) * d <= m) by (nonlinear_arith)
        requires
            m == d * q + 0,
            i == d * p + i % d,
            0 <= i % d < d,
            i < m,
            d > 0,
    ;
}

} // verus!
