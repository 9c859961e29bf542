//! What calls that encode a whole pack come to.
#![allow(unused_imports)]
use vstd::prelude::*;

use crate::buckets::{apart, of_type, sorted_from, windowed, Incoming};
use crate::delta::{log_follows, rates_all};
use crate::delta_laws::{
    chosen_right, law_base_is_chosen_right, law_bucket_is_stored_right, stored_right, Choice,
};
use crate::encoder::{
    bodies, chunk_views, fresh, hashes, joined, lemma_joined_front, pack_finished, sent,
    with_header, EncoderView, PackEncoder,
};
use crate::encoder_calls::{as_made, chunks_in};
use crate::error::GitError;
use crate::format::{header_bytes, law_header_reads_back, read_header};
use crate::hash::{digest, sha1_digest, sha256_digest, HashKind, ObjectHash};
use crate::laws::{law_window_pack_reads_back, of_one_kind};
use crate::object::{Entry, IndexEntry, ObjectType};
use crate::order_laws::law_sorted_bucket_is_in_order;
use crate::plain_laws::{
    law_first_foreign_kind_is_refused, law_window_is_of_the_size_asked_for, lemma_kind_done,
};
use crate::reading::{
    framed_right, index_reads_as, kind_number, lemma_joined_is_flat, objects_in, undoes,
};
use crate::sort_calls::sorted_right;
use crate::window::{Packed, RateOrder, RateQuery};
use crate::window_calls::lemma_overflow;
use crate::windowed::{
    all_done, bucket_done, bucket_too_long, four_joined, window_in_use, window_outcome,
};

verus! {

/// Whether a hash is that of bytes under a hash function.
pub open spec fn hash_of(kind: HashKind, bytes: Seq<u8>, hash: ObjectHash) -> bool {
    match (kind, hash) {
        (HashKind::Sha1, ObjectHash::Sha1(sum)) => sum@ == sha1_digest(bytes),
        (HashKind::Sha256, ObjectHash::Sha256(sum)) => sum@ == sha256_digest(bytes),
        _ => false,
    }
}

/// The header that an encoder has hashed behind what it had before.
pub open spec fn header_hashed(before: EncoderView, after: EncoderView) -> Seq<u8> {
    after.hashed.skip(before.hashed.len() as int).take(12)
}

/// Whether a pack of objects was finished. The header with the number of objects, the objects
/// in turn and the checksum of all that was hashed were sent, a chunk each, if the sending was
/// open. The index has the name of each object and the position behind all bytes before it.
/// What the encoder was made with is as before.
pub open spec fn pack_sent(
    before: EncoderView,
    after: EncoderView,
    out_before: Seq<Seq<u8>>,
    out_after: Seq<Seq<u8>>,
    names: Seq<ObjectHash>,
    chunks: Seq<Seq<u8>>,
) -> bool {
    let header = header_hashed(before, after);
    &&& read_header(header) == Some((2nat, before.object_number))
    &&& header.len() == 12
    &&& after.hashed == before.hashed + header + chunks.flatten()
    &&& after.final_hash matches Some(hash)
    &&& hash_of(before.kind, after.hashed, hash)
    &&& out_after == if before.pack_open {
        out_before + seq![header] + chunks + seq![hash@]
    } else {
        out_before
    }
    &&& after.idx_entries matches Some(index)
    &&& index.len() == chunks.len()
    &&& names.len() == chunks.len()
    &&& forall|k: int|
        0 <= k < index.len() ==> (#[trigger] index[k]).hash == names[k] && index[k].offset
            == before.offset + chunks.take(k).flatten().len()
    &&& before.offset + chunks.flatten().len() <= usize::MAX
    &&& after.offset == before.offset + chunks.flatten().len()
    &&& !after.pack_open
    &&& after.started
    &&& after.object_number == before.object_number
    &&& after.window_size == before.window_size
    &&& after.kind == before.kind
    &&& after.idx_open == before.idx_open
}

/// A pack that was finished behind a header was sent.
pub proof fn lemma_pack_sent(
    before: EncoderView,
    begun: EncoderView,
    after: EncoderView,
    out_before: Seq<Seq<u8>>,
    out_after: Seq<Seq<u8>>,
    names: Seq<ObjectHash>,
    chunks: Seq<Seq<u8>>,
)
    requires
        before.object_number <= u32::MAX,
        names.len() == chunks.len(),
        begun == (EncoderView {
            process_index: begun.process_index,
            ..with_header(before)
        }),
        pack_finished(
            begun,
            after,
            names,
            chunks,
            out_before + sent(before.pack_open, seq![header_bytes(before.object_number)]),
            out_after,
        ),
    ensures
        pack_sent(before, after, out_before, out_after, names, chunks),
        after.process_index == begun.process_index,
{
    let header = header_bytes(before.object_number);
    law_header_reads_back(before.object_number, Seq::empty());
    assert(header + Seq::<u8>::empty() =~= header);
    lemma_joined_is_flat(chunks);
    assert(after.hashed =~= before.hashed + header + chunks.flatten());
    assert(header_hashed(before, after) =~= header);
    let hash = after.final_hash->0;
    assert(hash@ == digest(before.kind, begun.hashed + joined(chunks)));
    assert(begun.hashed + joined(chunks) =~= after.hashed);
    if before.pack_open {
        assert(out_after =~= out_before + seq![header] + chunks + seq![hash@]);
    } else {
        assert(out_after =~= out_before);
    }
    let index = after.idx_entries->0;
    assert forall|k: int| 0 <= k < index.len() implies (#[trigger] index[k]).hash == names[k]
        && index[k].offset == before.offset + chunks.take(k).flatten().len() by {
        lemma_joined_is_flat(chunks.take(k));
        lemma_joined_front(chunks, k);
    }
}

/// Whether encoding was given up behind the header: that was sent, if the sending was open,
/// and hashed, and nothing else changed.
pub open spec fn given_up(
    before: EncoderView,
    after: EncoderView,
    out_before: Seq<Seq<u8>>,
    out_after: Seq<Seq<u8>>,
) -> bool {
    let header = header_hashed(before, after);
    &&& read_header(header) == Some((2nat, before.object_number))
    &&& header.len() == 12
    &&& after == EncoderView { started: true, hashed: before.hashed + header, ..before }
    &&& out_after == if before.pack_open {
        out_before.push(header)
    } else {
        out_before
    }
}

/// An encoder that has begun and done nothing more has given up.
pub proof fn lemma_given_up(
    before: EncoderView,
    after: EncoderView,
    out_before: Seq<Seq<u8>>,
    out_after: Seq<Seq<u8>>,
)
    requires
        before.object_number <= u32::MAX,
        after == with_header(before),
        out_after == out_before + sent(
            before.pack_open,
            seq![header_bytes(before.object_number)],
        ),
    ensures
        given_up(before, after, out_before, out_after),
{
    let header = header_bytes(before.object_number);
    law_header_reads_back(before.object_number, Seq::empty());
    assert(header + Seq::<u8>::empty() =~= header);
    assert(header_hashed(before, after) =~= header);
    if before.pack_open {
        assert(out_after =~= out_before.push(header));
    } else {
        assert(out_after =~= out_before);
    }
}

/// What was made of the entries of a kind: the entries sorted, the places that they came from,
/// the objects that they were encoded into, and which of these are deltas against which.
pub ghost struct KindMade {
    pub sorted: Seq<Entry>,
    pub places: Seq<usize>,
    pub res: Seq<(Vec<u8>, IndexEntry)>,
    pub log: Seq<Packed>,
}

impl KindMade {
    /// The bytes of each object.
    pub open spec fn chunks(self) -> Seq<Seq<u8>> {
        Seq::new(self.res.len(), |i: int| self.res[i].0@)
    }

    /// The hash of each entry.
    pub open spec fn names(self) -> Seq<ObjectHash> {
        Seq::new(self.sorted.len(), |i: int| self.sorted[i].hash)
    }
}

/// Whether there is a choice by which an entry's base is right.
pub open spec fn base_chosen<
    K,
    R: Fn(&Vec<RateQuery<'_>>, &[u8]) -> Vec<Option<K>>,
    O: Fn(&K, &K) -> RateOrder,
>(sorted: Seq<Entry>, log: Seq<Packed>, i: int, size: nat, rate: R, order: O) -> bool {
    exists|choice: Choice<K>| #[trigger]
        chosen_right(sorted, log, i, size, rate, order, choice)
}

/// Whether the entries of a kind were sorted right, and each stored right with a base that is
/// chosen right among the `size` before it.
pub open spec fn kind_made<
    K,
    R: Fn(&Vec<RateQuery<'_>>, &[u8]) -> Vec<Option<K>>,
    O: Fn(&K, &K) -> RateOrder,
    D: Fn(&[u8], &[u8], bool) -> Vec<u8>,
>(
    entries: Seq<Incoming>,
    obj_type: ObjectType,
    made: KindMade,
    size: nat,
    zstdelta: bool,
    rate: R,
    order: O,
    diff: D,
) -> bool {
    &&& sorted_right(
        entries.filter(|entry: Incoming| entry.inner.obj_type == obj_type),
        made.sorted,
        made.places,
    )
    &&& made.res.len() == made.sorted.len()
    &&& made.log.len() == made.sorted.len()
    &&& forall|i: int|
        0 <= i < made.sorted.len() ==> #[trigger] stored_right(
            made.sorted,
            made.res,
            made.log,
            i,
            size,
            zstdelta,
            diff,
        )
    &&& forall|i: int|
        0 <= i < made.sorted.len() ==> #[trigger] base_chosen::<K, R, O>(
            made.sorted,
            made.log,
            i,
            size,
            rate,
            order,
        )
}

/// What was made of the entries of a kind.
proof fn lemma_kind_made<
    K,
    R: Fn(&Vec<RateQuery<'_>>, &[u8]) -> Vec<Option<K>>,
    O: Fn(&K, &K) -> RateOrder,
    D: Fn(&[u8], &[u8], bool) -> Vec<u8>,
>(
    entries: Seq<Incoming>,
    obj_type: ObjectType,
    res: Seq<(Vec<u8>, IndexEntry)>,
    size: nat,
    zstdelta: bool,
    rate: R,
    order: O,
    diff: D,
) -> (made: KindMade)
    requires
        rates_all(rate),
        bucket_done(of_type(entries, obj_type), res, size, zstdelta, rate, order, diff),
    ensures
        kind_made(entries, obj_type, made, size, zstdelta, rate, order, diff),
        made.res == res,
        made.names() == hashes(res),
        made.chunks() == bodies(res),
{
    let done = lemma_kind_done(entries, obj_type, res, size, zstdelta, rate, order, diff);
    let bucket = entries.filter(|entry: Incoming| entry.inner.obj_type == obj_type);
    let sorted = done.sorted;
    let places = law_sorted_bucket_is_in_order(bucket, sorted);
    let log = law_bucket_is_stored_right(sorted, res, size, zstdelta, rate, order, diff);
    let made = KindMade { sorted, places, res, log };
    assert forall|i: int| 0 <= i < sorted.len() implies #[trigger] base_chosen::<K, R, O>(
        sorted,
        log,
        i,
        size,
        rate,
        order,
    ) by {
        let choice = law_base_is_chosen_right(
            sorted,
            log,
            i,
            size,
            zstdelta,
            rate,
            order,
            diff,
        );
        assert(chosen_right(sorted, log, i, size, rate, order, choice));
    }
    assert(made.names() =~= hashes(res)) by {
        assert forall|i: int| 0 <= i < sorted.len() implies made.names()[i] == hashes(res)[i] by {
            assert(stored_right(sorted, res, log, i, size, zstdelta, diff));
        }
    }
    assert(made.chunks() =~= bodies(res));
    made
}

/// The size of the windows that an encoder asks for: its own, or ten for zstd deltas if it has
/// none.
pub open spec fn size_asked_for(view: EncoderView, zstdelta: bool) -> nat {
    if view.window_size > 0 {
        view.window_size
    } else if zstdelta {
        10
    } else {
        0
    }
}

/// Whether encoding through delta windows ended as it should. It is refused to an encoder that
/// has begun before, and for the first entry that is of none of the four kinds. Else each kind
/// is made right with windows of the size asked for, and the pack is the commits, trees, blobs
/// and tags in this order. It is left out only if it would be too long.
pub open spec fn windows_ended_right<
    K,
    R: Fn(&Vec<RateQuery<'_>>, &[u8]) -> Vec<Option<K>>,
    O: Fn(&K, &K) -> RateOrder,
    D: Fn(&[u8], &[u8], bool) -> Vec<u8>,
>(
    before: EncoderView,
    after: EncoderView,
    entries: Seq<Incoming>,
    zstdelta: bool,
    rate: R,
    order: O,
    diff: D,
    out_before: Seq<Seq<u8>>,
    out_after: Seq<Seq<u8>>,
    done: Result<bool, GitError>,
    made: (KindMade, KindMade, KindMade, KindMade),
) -> bool {
    let size = size_asked_for(before, zstdelta);
    let (c, t, b, g) = made;
    if before.started {
        &&& done is Err
        &&& done->Err_0.reason() == "encoding operation is already in progress"@
        &&& given_up(before, after, out_before, out_after)
    } else if exists|k: int|
        0 <= k < entries.len() && kind_number((#[trigger] entries[k]).inner.obj_type) == 0 {
        &&& done is Err
        &&& given_up(before, after, out_before, out_after)
        &&& forall|k: int|
            0 <= k < entries.len() && kind_number(entries[k].inner.obj_type) == 0 && (forall|
                j: int,
            |
                0 <= j < k ==> kind_number((#[trigger] entries[j]).inner.obj_type) != 0)
                ==> done->Err_0.reason() == "object type `"@ + (#[trigger]
            entries[k]).inner.obj_type.spec_name()
                + "` is not supported by delta-window pack encoding"@
    } else {
        &&& done is Ok
        &&& done == Ok::<bool, GitError>(true) ==> {
            &&& kind_made(entries, ObjectType::Commit, c, size, zstdelta, rate, order, diff)
            &&& kind_made(entries, ObjectType::Tree, t, size, zstdelta, rate, order, diff)
            &&& kind_made(entries, ObjectType::Blob, b, size, zstdelta, rate, order, diff)
            &&& kind_made(entries, ObjectType::Tag, g, size, zstdelta, rate, order, diff)
            &&& pack_sent(
                before,
                after,
                out_before,
                out_after,
                c.names() + t.names() + b.names() + g.names(),
                c.chunks() + t.chunks() + b.chunks() + g.chunks(),
            )
            &&& after.process_index == before.process_index
        }
        &&& done == Ok::<bool, GitError>(false) ==> {
            &&& given_up(before, after, out_before, out_after)
            &&& {
                ||| kind_too_long(entries, ObjectType::Commit, size, zstdelta, rate, order, diff)
                ||| kind_too_long(entries, ObjectType::Tree, size, zstdelta, rate, order, diff)
                ||| kind_too_long(entries, ObjectType::Blob, size, zstdelta, rate, order, diff)
                ||| kind_too_long(entries, ObjectType::Tag, size, zstdelta, rate, order, diff)
                ||| {
                    &&& kind_made(
                        entries,
                        ObjectType::Commit,
                        c,
                        size,
                        zstdelta,
                        rate,
                        order,
                        diff,
                    )
                    &&& kind_made(entries, ObjectType::Tree, t, size, zstdelta, rate, order, diff)
                    &&& kind_made(entries, ObjectType::Blob, b, size, zstdelta, rate, order, diff)
                    &&& kind_made(entries, ObjectType::Tag, g, size, zstdelta, rate, order, diff)
                    &&& before.offset + (c.chunks() + t.chunks() + b.chunks()
                        + g.chunks()).flatten().len() > usize::MAX
                }
            }
        }
    }
}

/// Whether the first entries of a kind, sorted and stored, are longer together than a machine
/// word can tell.
pub open spec fn kind_too_long<
    K,
    R: Fn(&Vec<RateQuery<'_>>, &[u8]) -> Vec<Option<K>>,
    O: Fn(&K, &K) -> RateOrder,
    D: Fn(&[u8], &[u8], bool) -> Vec<u8>,
>(
    entries: Seq<Incoming>,
    obj_type: ObjectType,
    size: nat,
    zstdelta: bool,
    rate: R,
    order: O,
    diff: D,
) -> bool {
    let bucket = entries.filter(|entry: Incoming| entry.inner.obj_type == obj_type);
    exists|sorted: Seq<Entry>, places: Seq<usize>, log: Seq<Packed>|
        {
            &&& #[trigger] sorted_right(bucket, sorted, places)
            &&& #[trigger] log_follows(sorted, log, size, zstdelta, rate, order, diff)
            &&& Seq::new(log.len(), |i: int| log[i].bytes()).flatten().len() > usize::MAX
        }
}

/// A kind whose entries overflow is too long.
proof fn lemma_kind_too_long<
    K,
    R: Fn(&Vec<RateQuery<'_>>, &[u8]) -> Vec<Option<K>>,
    O: Fn(&K, &K) -> RateOrder,
    D: Fn(&[u8], &[u8], bool) -> Vec<u8>,
>(
    entries: Seq<Incoming>,
    obj_type: ObjectType,
    size: nat,
    zstdelta: bool,
    rate: R,
    order: O,
    diff: D,
)
    requires
        bucket_too_long(of_type(entries, obj_type), size, zstdelta, rate, order, diff),
    ensures
        kind_too_long(entries, obj_type, size, zstdelta, rate, order, diff),
{
    let bucket = of_type(entries, obj_type);
    let sorted = choose|sorted: Seq<Entry>| #[trigger]
        sorted_from(bucket, sorted) && crate::delta::bucket_overflows(
            sorted,
            size,
            zstdelta,
            rate,
            order,
            diff,
        );
    let places = law_sorted_bucket_is_in_order(bucket, sorted);
    let log = lemma_overflow(sorted, size, zstdelta, rate, order, diff);
    assert(sorted_right(
        entries.filter(|entry: Incoming| entry.inner.obj_type == obj_type),
        sorted,
        places,
    ));
    assert(log_follows(sorted, log, size, zstdelta, rate, order, diff));
}

/// What was made of the four kinds.
proof fn lemma_four_made<
    K,
    R: Fn(&Vec<RateQuery<'_>>, &[u8]) -> Vec<Option<K>>,
    O: Fn(&K, &K) -> RateOrder,
    D: Fn(&[u8], &[u8], bool) -> Vec<u8>,
>(
    entries: Seq<Incoming>,
    res: Seq<(Vec<u8>, IndexEntry)>,
    size: nat,
    zstdelta: bool,
    rate: R,
    order: O,
    diff: D,
) -> (made: (KindMade, KindMade, KindMade, KindMade))
    requires
        rates_all(rate),
        all_done(apart(entries), res, size, zstdelta, rate, order, diff),
    ensures
        kind_made(entries, ObjectType::Commit, made.0, size, zstdelta, rate, order, diff),
        kind_made(entries, ObjectType::Tree, made.1, size, zstdelta, rate, order, diff),
        kind_made(entries, ObjectType::Blob, made.2, size, zstdelta, rate, order, diff),
        kind_made(entries, ObjectType::Tag, made.3, size, zstdelta, rate, order, diff),
        hashes(res) == made.0.names() + made.1.names() + made.2.names() + made.3.names(),
        bodies(res) == made.0.chunks() + made.1.chunks() + made.2.chunks() + made.3.chunks(),
{
    let parts = apart(entries);
    let (c, t, b, g) = choose|
        commits: Seq<(Vec<u8>, IndexEntry)>,
        trees: Seq<(Vec<u8>, IndexEntry)>,
        blobs: Seq<(Vec<u8>, IndexEntry)>,
        tags: Seq<(Vec<u8>, IndexEntry)>,
    |
        {
            &&& bucket_done(parts.commits, commits, size, zstdelta, rate, order, diff)
            &&& bucket_done(parts.trees, trees, size, zstdelta, rate, order, diff)
            &&& bucket_done(parts.blobs, blobs, size, zstdelta, rate, order, diff)
            &&& bucket_done(parts.tags, tags, size, zstdelta, rate, order, diff)
            &&& res == #[trigger] four_joined(commits, trees, blobs, tags)
        };
    let made_c = lemma_kind_made(
        entries, ObjectType::Commit, c, size, zstdelta, rate, order, diff,
    );
    let made_t = lemma_kind_made(entries, ObjectType::Tree, t, size, zstdelta, rate, order, diff);
    let made_b = lemma_kind_made(entries, ObjectType::Blob, b, size, zstdelta, rate, order, diff);
    let made_g = lemma_kind_made(entries, ObjectType::Tag, g, size, zstdelta, rate, order, diff);
    assert(hashes(res) =~= hashes(c) + hashes(t) + hashes(b) + hashes(g));
    assert(bodies(res) =~= bodies(c) + bodies(t) + bodies(b) + bodies(g));
    (made_c, made_t, made_b, made_g)
}

/// Encoding through delta windows ends right.
proof fn lemma_windows_ended_right<
    K,
    R: Fn(&Vec<RateQuery<'_>>, &[u8]) -> Vec<Option<K>>,
    O: Fn(&K, &K) -> RateOrder,
    D: Fn(&[u8], &[u8], bool) -> Vec<u8>,
>(
    before: EncoderView,
    after: EncoderView,
    entries: Seq<Incoming>,
    zstdelta: bool,
    rate: R,
    order: O,
    diff: D,
    out_before: Seq<Seq<u8>>,
    out_after: Seq<Seq<u8>>,
    done: Result<bool, GitError>,
) -> (made: (KindMade, KindMade, KindMade, KindMade))
    requires
        before.object_number <= u32::MAX,
        rates_all(rate),
        window_outcome(
            before,
            after,
            entries,
            zstdelta,
            rate,
            order,
            diff,
            out_before,
            out_after,
            done,
        ),
    ensures
        windows_ended_right(
            before,
            after,
            entries,
            zstdelta,
            rate,
            order,
            diff,
            out_before,
            out_after,
            done,
            made,
        ),
{
    let begun = with_header(before);
    let header = header_bytes(before.object_number);
    let out_begun = out_before + sent(before.pack_open, seq![header]);
    let size = window_in_use(before.window_size, zstdelta);
    law_window_is_of_the_size_asked_for(before.window_size, zstdelta);
    let nothing = KindMade {
        sorted: Seq::empty(),
        places: Seq::empty(),
        res: Seq::empty(),
        log: Seq::empty(),
    };
    let none = (nothing, nothing, nothing, nothing);
    assert forall|k: int| 0 <= k < entries.len() implies (windowed(
        (#[trigger] entries[k]).inner.obj_type,
    ) <==> kind_number(entries[k].inner.obj_type) != 0) by {}
    match done {
        Err(error) => {
            lemma_given_up(before, after, out_before, out_after);
            if !before.started {
                assert forall|k: int|
                    0 <= k < entries.len() && kind_number(entries[k].inner.obj_type) == 0 && (
                    forall|j: int|
                        0 <= j < k ==> kind_number((#[trigger] entries[j]).inner.obj_type) != 0)
                    implies error.reason() == "object type `"@ + (#[trigger]
                entries[k]).inner.obj_type.spec_name()
                    + "` is not supported by delta-window pack encoding"@ by {
                    law_first_foreign_kind_is_refused(
                        before,
                        after,
                        entries,
                        k,
                        zstdelta,
                        rate,
                        order,
                        diff,
                        out_before,
                        out_after,
                        done,
                    );
                }
            }
            none
        },
        Ok(true) => {
            let res = choose|res: Seq<(Vec<u8>, IndexEntry)>|
                {
                    &&& #[trigger] all_done(
                        apart(entries),
                        res,
                        size,
                        zstdelta,
                        rate,
                        order,
                        diff,
                    )
                    &&& pack_finished(begun, after, hashes(res), bodies(res), out_begun, out_after)
                };
            let made = lemma_four_made(entries, res, size, zstdelta, rate, order, diff);
            lemma_pack_sent(
                before,
                begun,
                after,
                out_before,
                out_after,
                hashes(res),
                bodies(res),
            );
            made
        },
        Ok(false) => {
            lemma_given_up(before, after, out_before, out_after);
            let parts = apart(entries);
            if bucket_too_long(parts.commits, size, zstdelta, rate, order, diff) {
                lemma_kind_too_long(
                    entries, ObjectType::Commit, size, zstdelta, rate, order, diff,
                );
                none
            } else if bucket_too_long(parts.trees, size, zstdelta, rate, order, diff) {
                lemma_kind_too_long(entries, ObjectType::Tree, size, zstdelta, rate, order, diff);
                none
            } else if bucket_too_long(parts.blobs, size, zstdelta, rate, order, diff) {
                lemma_kind_too_long(entries, ObjectType::Blob, size, zstdelta, rate, order, diff);
                none
            } else if bucket_too_long(parts.tags, size, zstdelta, rate, order, diff) {
                lemma_kind_too_long(entries, ObjectType::Tag, size, zstdelta, rate, order, diff);
                none
            } else {
                let res = choose|res: Seq<(Vec<u8>, IndexEntry)>| #[trigger]
                    all_done(parts, res, size, zstdelta, rate, order, diff) && before.offset
                        + joined(bodies(res)).len() > usize::MAX;
                lemma_joined_is_flat(bodies(res));
                lemma_four_made(entries, res, size, zstdelta, rate, order, diff)
            }
        },
    }
}

/// Whether there is something made of the four kinds by which encoding through delta windows
/// ended right.
pub open spec fn windows_ended<
    K,
    R: Fn(&Vec<RateQuery<'_>>, &[u8]) -> Vec<Option<K>>,
    O: Fn(&K, &K) -> RateOrder,
    D: Fn(&[u8], &[u8], bool) -> Vec<u8>,
>(
    before: EncoderView,
    after: EncoderView,
    entries: Seq<Incoming>,
    zstdelta: bool,
    rate: R,
    order: O,
    diff: D,
    out_before: Seq<Seq<u8>>,
    out_after: Seq<Seq<u8>>,
    done: Result<bool, GitError>,
) -> bool {
    exists|made: (KindMade, KindMade, KindMade, KindMade)| #[trigger]
        windows_ended_right(
            before,
            after,
            entries,
            zstdelta,
            rate,
            order,
            diff,
            out_before,
            out_after,
            done,
            made,
        )
}

/// Encoding through delta windows ends right.
proof fn lemma_windows_ended<
    K,
    R: Fn(&Vec<RateQuery<'_>>, &[u8]) -> Vec<Option<K>>,
    O: Fn(&K, &K) -> RateOrder,
    D: Fn(&[u8], &[u8], bool) -> Vec<u8>,
>(
    before: EncoderView,
    after: EncoderView,
    entries: Seq<Incoming>,
    zstdelta: bool,
    rate: R,
    order: O,
    diff: D,
    out_before: Seq<Seq<u8>>,
    out_after: Seq<Seq<u8>>,
    done: Result<bool, GitError>,
)
    requires
        before.object_number <= u32::MAX,
        rates_all(rate),
        window_outcome(
            before,
            after,
            entries,
            zstdelta,
            rate,
            order,
            diff,
            out_before,
            out_after,
            done,
        ),
    ensures
        windows_ended(
            before,
            after,
            entries,
            zstdelta,
            rate,
            order,
            diff,
            out_before,
            out_after,
            done,
        ),
{
    let made = lemma_windows_ended_right(
        before,
        after,
        entries,
        zstdelta,
        rate,
        order,
        diff,
        out_before,
        out_after,
        done,
    );
    assert(windows_ended_right(
        before,
        after,
        entries,
        zstdelta,
        rate,
        order,
        diff,
        out_before,
        out_after,
        done,
        made,
    ));
}

/// Encoding with a delta window ends right: with plain deltas, and windows of the size that the
/// encoder was made with.
pub proof fn law_encoded_with_a_window<
    K,
    R: Fn(&Vec<RateQuery<'_>>, &[u8]) -> Vec<Option<K>>,
    O: Fn(&K, &K) -> RateOrder,
    D: Fn(&[u8], &[u8], bool) -> Vec<u8>,
>(
    encoder: &mut PackEncoder,
    entries: Vec<Incoming>,
    max_capacity: usize,
    rate: &R,
    order: &O,
    diff: &D,
    out: &mut Vec<Vec<u8>>,
    done: Result<bool, GitError>,
)
    requires
        old(encoder)@.window_size > 0,
        old(encoder)@.object_number <= u32::MAX,
        rates_all(*rate),
        call_ensures(
            PackEncoder::encode::<K, R, O, D>,
            (encoder, entries, max_capacity, rate, order, diff, out),
            done,
        ),
    ensures
        windows_ended(
            old(encoder)@,
            final(encoder)@,
            entries@,
            false,
            *rate,
            *order,
            *diff,
            chunks_in(*old(out)),
            chunks_in(*final(out)),
            done,
        ),
{
    assert(chunks_in(*old(out)) =~= chunk_views(old(out)@));
    assert(chunks_in(*final(out)) =~= chunk_views(final(out)@));
    lemma_windows_ended(
        old(encoder)@,
        final(encoder)@,
        entries@,
        false,
        *rate,
        *order,
        *diff,
        chunk_views(old(out)@),
        chunk_views(final(out)@),
        done,
    );
}

/// Encoding with zstd deltas ends right: through delta windows, of the size that the encoder
/// was made with, or of ten if it has none.
pub proof fn law_encoded_with_zstdelta<
    K,
    R: Fn(&Vec<RateQuery<'_>>, &[u8]) -> Vec<Option<K>>,
    O: Fn(&K, &K) -> RateOrder,
    D: Fn(&[u8], &[u8], bool) -> Vec<u8>,
>(
    encoder: &mut PackEncoder,
    entries: Vec<Incoming>,
    rate: &R,
    order: &O,
    diff: &D,
    out: &mut Vec<Vec<u8>>,
    done: Result<bool, GitError>,
)
    requires
        old(encoder)@.object_number <= u32::MAX,
        rates_all(*rate),
        call_ensures(
            PackEncoder::encode_with_zstdelta::<K, R, O, D>,
            (encoder, entries, rate, order, diff, out),
            done,
        ),
    ensures
        windows_ended(
            old(encoder)@,
            final(encoder)@,
            entries@,
            true,
            *rate,
            *order,
            *diff,
            chunks_in(*old(out)),
            chunks_in(*final(out)),
            done,
        ),
{
    assert(chunks_in(*old(out)) =~= chunk_views(old(out)@));
    assert(chunks_in(*final(out)) =~= chunk_views(final(out)@));
    lemma_windows_ended(
        old(encoder)@,
        final(encoder)@,
        entries@,
        true,
        *rate,
        *order,
        *diff,
        chunk_views(old(out)@),
        chunk_views(final(out)@),
        done,
    );
}

/// Encoding through delta windows ends right with either kind of delta.
pub proof fn law_encoded_through_windows<
    K,
    R: Fn(&Vec<RateQuery<'_>>, &[u8]) -> Vec<Option<K>>,
    O: Fn(&K, &K) -> RateOrder,
    D: Fn(&[u8], &[u8], bool) -> Vec<u8>,
>(
    encoder: &mut PackEncoder,
    entries: Vec<Incoming>,
    zstdelta: bool,
    rate: &R,
    order: &O,
    diff: &D,
    out: &mut Vec<Vec<u8>>,
    done: Result<bool, GitError>,
)
    requires
        old(encoder)@.object_number <= u32::MAX,
        rates_all(*rate),
        call_ensures(
            PackEncoder::inner_encode::<K, R, O, D>,
            (encoder, entries, zstdelta, rate, order, diff, out),
            done,
        ),
    ensures
        windows_ended(
            old(encoder)@,
            final(encoder)@,
            entries@,
            zstdelta,
            *rate,
            *order,
            *diff,
            chunks_in(*old(out)),
            chunks_in(*final(out)),
            done,
        ),
{
    assert(chunks_in(*old(out)) =~= chunk_views(old(out)@));
    assert(chunks_in(*final(out)) =~= chunk_views(final(out)@));
    lemma_windows_ended(
        old(encoder)@,
        final(encoder)@,
        entries@,
        zstdelta,
        *rate,
        *order,
        *diff,
        chunk_views(old(out)@),
        chunk_views(final(out)@),
        done,
    );
}

/// Whether a pack gives back the entries: it is framed right, and where the index points a
/// reader finds them, commits before trees before blobs before tags.
pub open spec fn gives_back(
    view: EncoderView,
    entries: Seq<Incoming>,
    pack: Seq<u8>,
    patch: spec_fn(nat, Seq<u8>, Seq<u8>) -> Seq<u8>,
) -> bool {
    &&& framed_right(pack, view)
    &&& view.idx_entries matches Some(index)
    &&& exists|c: Seq<Entry>, t: Seq<Entry>, b: Seq<Entry>, g: Seq<Entry>|
        {
            &&& of_one_kind(c, ObjectType::Commit)
            &&& of_one_kind(t, ObjectType::Tree)
            &&& of_one_kind(b, ObjectType::Blob)
            &&& of_one_kind(g, ObjectType::Tag)
            &&& (c + t + b + g).to_multiset() == objects_in(entries).to_multiset()
            &&& #[trigger] index_reads_as(pack, index, c + t + b + g, patch)
        }
}

/// A finished pack of a new encoder gives back the entries.
proof fn lemma_gives_back<
    K,
    R: Fn(&Vec<RateQuery<'_>>, &[u8]) -> Vec<Option<K>>,
    O: Fn(&K, &K) -> RateOrder,
    D: Fn(&[u8], &[u8], bool) -> Vec<u8>,
>(
    object_number: nat,
    window_size: nat,
    kind: HashKind,
    idx_open: bool,
    after: EncoderView,
    entries: Seq<Incoming>,
    zstdelta: bool,
    rate: R,
    order: O,
    diff: D,
    out: Seq<Seq<u8>>,
    patch: spec_fn(nat, Seq<u8>, Seq<u8>) -> Seq<u8>,
)
    requires
        object_number <= u32::MAX,
        window_outcome(
            fresh(object_number, window_size, kind, idx_open),
            after,
            entries,
            zstdelta,
            rate,
            order,
            diff,
            Seq::empty(),
            out,
            Ok(true),
        ),
        undoes(patch, diff, zstdelta),
    ensures
        gives_back(after, entries, out.flatten(), patch),
{
    let objects = law_window_pack_reads_back(
        object_number,
        window_size,
        kind,
        idx_open,
        after,
        entries,
        zstdelta,
        rate,
        order,
        diff,
        out,
        patch,
    );
    assert(index_reads_as(
        out.flatten(),
        after.idx_entries->0,
        objects.0 + objects.1 + objects.2 + objects.3,
        patch,
    ));
}

/// A pack of a new encoder, encoded through delta windows to the end, gives back what went in.
/// It is framed right, and where the index points a reader finds the entries, commits before
/// trees before blobs before tags, provided that `patch` undoes what `diff` answers.
pub proof fn law_pack_with_windows_reads_back<
    K,
    R: Fn(&Vec<RateQuery<'_>>, &[u8]) -> Vec<Option<K>>,
    O: Fn(&K, &K) -> RateOrder,
    D: Fn(&[u8], &[u8], bool) -> Vec<u8>,
>(
    object_number: usize,
    window_size: usize,
    kind: HashKind,
    idx_open: bool,
    encoder: &mut PackEncoder,
    entries: Vec<Incoming>,
    zstdelta: bool,
    max_capacity: usize,
    rate: &R,
    order: &O,
    diff: &D,
    out: &mut Vec<Vec<u8>>,
    patch: spec_fn(nat, Seq<u8>, Seq<u8>) -> Seq<u8>,
)
    requires
        object_number <= u32::MAX,
        as_made(old(encoder)@, object_number, window_size, kind, idx_open),
        old(out)@.len() == 0,
        zstdelta ==> call_ensures(
            PackEncoder::encode_with_zstdelta::<K, R, O, D>,
            (encoder, entries, rate, order, diff, out),
            Ok(true),
        ),
        !zstdelta ==> window_size > 0 && call_ensures(
            PackEncoder::encode::<K, R, O, D>,
            (encoder, entries, max_capacity, rate, order, diff, out),
            Ok(true),
        ),
        undoes(patch, *diff, zstdelta),
    ensures
        gives_back(final(encoder)@, entries@, chunks_in(*final(out)).flatten(), patch),
{
    let view = fresh(object_number as nat, window_size as nat, kind, idx_open);
    assert(old(encoder)@.hashed =~= Seq::<u8>::empty());
    assert(old(encoder)@ == view);
    assert(chunk_views(old(out)@) =~= Seq::<Seq<u8>>::empty());
    assert(chunks_in(*final(out)) =~= chunk_views(final(out)@));
    lemma_gives_back(
        object_number as nat,
        window_size as nat,
        kind,
        idx_open,
        final(encoder)@,
        entries@,
        zstdelta,
        *rate,
        *order,
        *diff,
        chunk_views(final(out)@),
        patch,
    );
}

} // verus!
