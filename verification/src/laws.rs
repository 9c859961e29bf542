//! What holds of whole packs.
#![allow(unused_imports)]
use vstd::arithmetic::div_mod::lemma_small_mod;
use vstd::prelude::*;
use vstd::seq_lib::lemma_multiset_commutative;

use crate::buckets::{apart, of_type, windowed, BucketsView, Incoming};
use crate::delta::{
    base_right, diffed, entry_follows, lemma_entry_in_log, log_follows, rated,
};
use crate::encoder::{
    bodies, fresh, hashes, idx_finished, idx_requested, in_progress_reason, joined,
    lemma_joined_concat, lemma_joined_front, lemma_joined_one, lemma_joined_step,
    no_idx_sender_reason, pack_finished, placed, sent, with_header, EncoderView, IdxRequest,
};
use crate::error::GitError;
use crate::format::{header_bytes, law_header_reads_back, HEADER_LEN};
use crate::hash::{digest, HashKind, ObjectHash};
use crate::object::{encodable, Entry, IndexEntry, ObjectType};
use crate::parallel::{
    ai_reason, all_numbered, batches_written, counted, entry_hashes, inners, lemma_placed_concat,
    overflowed, parallel_outcome, parallel_ready, reaches_encoder, refused_at, whole_bodies,
    whole_bytes,
};
use crate::reading::{
    framed_right, index_reads_as, lemma_bucket_reads_back, lemma_object_at,
    lemma_joined_is_flat, lemma_whole_reads_back, objects_in, reads_as, undoes,
};
use crate::similarity::{cheap_similar, fronts_compared};
use crate::window::{
    best_of, candidate_right, candidates_right, delta_type, index_of, log_right, next_packed,
    orders_of, packed_right, picked_right, Candidate, Packed, RateOrder, RateQuery, MAX_CHAIN_LEN,
};
use crate::windowed::{all_done, bucket_done, four_joined, window_in_use, window_outcome};

verus! {

/// What a finished pack is made of.
proof fn lemma_finished_pack(
    before: EncoderView,
    after: EncoderView,
    names: Seq<ObjectHash>,
    chunks: Seq<Seq<u8>>,
    out_before: Seq<Seq<u8>>,
    out_after: Seq<Seq<u8>>,
)
    requires
        before.object_number <= u32::MAX,
        before.offset == HEADER_LEN,
        before.hashed == header_bytes(before.object_number),
        before.pack_open,
        out_before == seq![header_bytes(before.object_number)],
        pack_finished(before, after, names, chunks, out_before, out_after),
    ensures
        joined(out_after) == header_bytes(before.object_number) + joined(chunks) + digest(
            before.kind,
            header_bytes(before.object_number) + joined(chunks),
        ),
        framed_right(out_after.flatten(), after),
        header_bytes(before.object_number).len() == HEADER_LEN,
        after.idx_entries == Some(placed(names, chunks, HEADER_LEN as nat)),
{
    let header = header_bytes(before.object_number);
    let sum = digest(before.kind, header + joined(chunks));
    lemma_joined_one(header);
    lemma_joined_one(sum);
    assert(out_after =~= seq![header] + chunks + seq![sum]);
    lemma_joined_concat(seq![header] + chunks, seq![sum]);
    lemma_joined_concat(seq![header], chunks);
    let pack = joined(out_after);
    lemma_joined_is_flat(out_after);
    law_header_reads_back(before.object_number, joined(chunks) + sum);
    assert(pack =~= header + (joined(chunks) + sum));
    assert(pack.skip(pack.len() - sum.len()) =~= sum);
    assert(pack.take(pack.len() - sum.len()) =~= header + joined(chunks));
}

/// Two indexes one behind the other.
proof fn lemma_index_concat(
    pack: Seq<u8>,
    index_a: Seq<IndexEntry>,
    objects_a: Seq<Entry>,
    index_b: Seq<IndexEntry>,
    objects_b: Seq<Entry>,
    patch: spec_fn(nat, Seq<u8>, Seq<u8>) -> Seq<u8>,
)
    requires
        index_reads_as(pack, index_a, objects_a, patch),
        index_reads_as(pack, index_b, objects_b, patch),
    ensures
        index_reads_as(pack, index_a + index_b, objects_a + objects_b, patch),
{
    let index = index_a + index_b;
    let objects = objects_a + objects_b;
    assert forall|i: int| 0 <= i < index.len() implies #[trigger] reads_as(
        pack,
        index[i],
        objects[i],
        patch,
    ) by {
        if i < index_a.len() {
            assert(reads_as(pack, index_a[i], objects_a[i], patch));
        } else {
            let k = i - index_a.len();
            assert(reads_as(pack, index_b[k], objects_b[k], patch));
        }
    }
}

/// The entries of all kinds together are the entries, if the windows take all of
/// them.
proof fn lemma_apart_multiset(entries: Seq<Incoming>)
    requires
        forall|i: int| 0 <= i < entries.len() ==> windowed((#[trigger] entries[i]).inner.obj_type),
    ensures
        inners(entries).to_multiset() == inners(apart(entries).commits).to_multiset().add(
            inners(apart(entries).trees).to_multiset(),
        ).add(inners(apart(entries).blobs).to_multiset()).add(
            inners(apart(entries).tags).to_multiset(),
        ),
    decreases entries.len(),
{
    broadcast use vstd::seq_lib::group_to_multiset_ensures;

    reveal(Seq::filter);
    if entries.len() == 0 {
        assert(inners(entries) =~= Seq::<Entry>::empty());
        assert(inners(apart(entries).commits) =~= Seq::<Entry>::empty());
        assert(inners(apart(entries).trees) =~= Seq::<Entry>::empty());
        assert(inners(apart(entries).blobs) =~= Seq::<Entry>::empty());
        assert(inners(apart(entries).tags) =~= Seq::<Entry>::empty());
        Seq::<Entry>::empty().to_multiset_ensures();
        assert(inners(entries).to_multiset() =~= inners(
            apart(entries).commits,
        ).to_multiset().add(inners(apart(entries).trees).to_multiset()).add(
            inners(apart(entries).blobs).to_multiset(),
        ).add(inners(apart(entries).tags).to_multiset()));
    } else {
        let front = entries.drop_last();
        let last = entries.last();
        assert forall|i: int| 0 <= i < front.len() implies windowed(
            (#[trigger] front[i]).inner.obj_type,
        ) by {
            assert(front[i] == entries[i]);
        }
        lemma_apart_multiset(front);
        assert(windowed(last.inner.obj_type));
        assert(inners(entries) =~= inners(front).push(last.inner));
        lemma_of_type_last(entries, ObjectType::Commit);
        lemma_of_type_last(entries, ObjectType::Tree);
        lemma_of_type_last(entries, ObjectType::Blob);
        lemma_of_type_last(entries, ObjectType::Tag);
        assert(inners(entries).to_multiset() =~= inners(
            apart(entries).commits,
        ).to_multiset().add(inners(apart(entries).trees).to_multiset()).add(
            inners(apart(entries).blobs).to_multiset(),
        ).add(inners(apart(entries).tags).to_multiset()));
    }
}

/// The entries of a kind, with the last entry apart.
proof fn lemma_of_type_last(entries: Seq<Incoming>, obj_type: ObjectType)
    requires
        entries.len() > 0,
    ensures
        inners(of_type(entries, obj_type)) == (if entries.last().inner.obj_type == obj_type {
            inners(of_type(entries.drop_last(), obj_type)).push(entries.last().inner)
        } else {
            inners(of_type(entries.drop_last(), obj_type))
        }),
{
    reveal(Seq::filter);
    assert(inners(of_type(entries, obj_type)) =~= (if entries.last().inner.obj_type
        == obj_type {
        inners(of_type(entries.drop_last(), obj_type)).push(entries.last().inner)
    } else {
        inners(of_type(entries.drop_last(), obj_type))
    }));
}

/// Whether all objects are of one kind.
pub open spec fn of_one_kind(objects: Seq<Entry>, obj_type: ObjectType) -> bool {
    forall|i: int| 0 <= i < objects.len() ==> (#[trigger] objects[i]).obj_type == obj_type
}

/// Objects with the hashes and data of the entries of a kind are of the kind.
proof fn lemma_same_kind(objects: Seq<Entry>, entries: Seq<Incoming>, obj_type: ObjectType)
    requires
        objects.to_multiset() == inners(of_type(entries, obj_type)).to_multiset(),
    ensures
        of_one_kind(objects, obj_type),
{
    broadcast use vstd::seq_lib::group_to_multiset_ensures;

    let bucket = of_type(entries, obj_type);
    assert forall|i: int| 0 <= i < objects.len() implies (#[trigger] objects[i]).obj_type
        == obj_type by {
        assert(objects.contains(objects[i]));
        assert(objects.to_multiset().count(objects[i]) > 0);
        assert(inners(bucket).contains(objects[i]));
        let j = choose|j: int| 0 <= j < inners(bucket).len() && inners(bucket)[j] == objects[i];
        entries.lemma_filter_pred(|entry: Incoming| entry.inner.obj_type == obj_type, j);
    }
}

/// A pack that was encoded through delta windows holds what went in. Its header gives
/// the number of objects, and it ends in the checksum of all before it, which is its
/// hash. The objects in it, in the order of its index, are the entries: commits, then
/// trees, then blobs, then tags. Each index entry has the hash of its object, and
/// where it points the reader finds the object's kind and data, provided that `patch`
/// undoes the deltas that `diff` makes.
pub proof fn law_window_pack_reads_back<
    K,
    R: Fn(&Vec<RateQuery<'_>>, &[u8]) -> Vec<Option<K>>,
    O: Fn(&K, &K) -> RateOrder,
    D: Fn(&[u8], &[u8], bool) -> Vec<u8>,
>(
    object_number: nat,
    window_size: nat,
    kind: HashKind,
    idx_open: bool,
    after: EncoderView,
    entries: Seq<Incoming>,
    zstdelta: bool,
    rate: R,
    order: O,
    diff: D,
    out: Seq<Seq<u8>>,
    patch: spec_fn(nat, Seq<u8>, Seq<u8>) -> Seq<u8>,
) -> (objects: (Seq<Entry>, Seq<Entry>, Seq<Entry>, Seq<Entry>))
    requires
        object_number <= u32::MAX,
        window_outcome(
            fresh(object_number, window_size, kind, idx_open),
            after,
            entries,
            zstdelta,
            rate,
            order,
            diff,
            Seq::empty(),
            out,
            Ok(true),
        ),
        undoes(patch, diff, zstdelta),
    ensures
        framed_right(out.flatten(), after),
        after.object_number == object_number,
        after.kind == kind,
        of_one_kind(objects.0, ObjectType::Commit),
        of_one_kind(objects.1, ObjectType::Tree),
        of_one_kind(objects.2, ObjectType::Blob),
        of_one_kind(objects.3, ObjectType::Tag),
        (objects.0 + objects.1 + objects.2 + objects.3).to_multiset() == objects_in(
            entries,
        ).to_multiset(),
        after.idx_entries is Some,
        index_reads_as(
            out.flatten(),
            after.idx_entries->0,
            objects.0 + objects.1 + objects.2 + objects.3,
            patch,
        ),
{
    let before = fresh(object_number, window_size, kind, idx_open);
    let size = window_in_use(window_size, zstdelta);
    let begun = with_header(before);
    let header = header_bytes(object_number);
    assert(begun.hashed =~= header);
    let out_begun = Seq::<Seq<u8>>::empty() + sent(true, seq![header]);
    assert(out_begun =~= seq![header]);
    let res = choose|res: Seq<(Vec<u8>, IndexEntry)>|
        {
            &&& #[trigger] all_done(
                apart(entries),
                res,
                size,
                zstdelta,
                rate,
                order,
                diff,
            )
            &&& pack_finished(begun, after, hashes(res), bodies(res), out_begun, out)
        };
    lemma_finished_pack(begun, after, hashes(res), bodies(res), out_begun, out);
    let objects = lemma_all_done_reads_back(
        header,
        apart(entries),
        res,
        digest(kind, header + joined(bodies(res))),
        size,
        zstdelta,
        rate,
        order,
        diff,
        patch,
    );
    lemma_objects_are_entries(objects, entries);
    lemma_joined_is_flat(out);
    assert(objects_in(entries) =~= inners(entries));
    objects
}

/// Objects that are those of the buckets are the entries.
proof fn lemma_objects_are_entries(
    objects: (Seq<Entry>, Seq<Entry>, Seq<Entry>, Seq<Entry>),
    entries: Seq<Incoming>,
)
    requires
        forall|i: int| 0 <= i < entries.len() ==> windowed((#[trigger] entries[i]).inner.obj_type),
        objects.0.to_multiset() == inners(apart(entries).commits).to_multiset(),
        objects.1.to_multiset() == inners(apart(entries).trees).to_multiset(),
        objects.2.to_multiset() == inners(apart(entries).blobs).to_multiset(),
        objects.3.to_multiset() == inners(apart(entries).tags).to_multiset(),
    ensures
        of_one_kind(objects.0, ObjectType::Commit),
        of_one_kind(objects.1, ObjectType::Tree),
        of_one_kind(objects.2, ObjectType::Blob),
        of_one_kind(objects.3, ObjectType::Tag),
        (objects.0 + objects.1 + objects.2 + objects.3).to_multiset() == inners(
            entries,
        ).to_multiset(),
{
    lemma_same_kind(objects.0, entries, ObjectType::Commit);
    lemma_same_kind(objects.1, entries, ObjectType::Tree);
    lemma_same_kind(objects.2, entries, ObjectType::Blob);
    lemma_same_kind(objects.3, entries, ObjectType::Tag);
    lemma_apart_multiset(entries);
    lemma_multiset_commutative(objects.0, objects.1);
    lemma_multiset_commutative(objects.0 + objects.1, objects.2);
    lemma_multiset_commutative(objects.0 + objects.1 + objects.2, objects.3);
}

/// The objects of all buckets are found where the index says.
proof fn lemma_all_done_reads_back<
    K,
    R: Fn(&Vec<RateQuery<'_>>, &[u8]) -> Vec<Option<K>>,
    O: Fn(&K, &K) -> RateOrder,
    D: Fn(&[u8], &[u8], bool) -> Vec<u8>,
>(
    header: Seq<u8>,
    buckets: BucketsView,
    res: Seq<(Vec<u8>, IndexEntry)>,
    sum: Seq<u8>,
    size: nat,
    zstdelta: bool,
    rate: R,
    order: O,
    diff: D,
    patch: spec_fn(nat, Seq<u8>, Seq<u8>) -> Seq<u8>,
) -> (objects: (Seq<Entry>, Seq<Entry>, Seq<Entry>, Seq<Entry>))
    requires
        all_done(buckets, res, size, zstdelta, rate, order, diff),
        undoes(patch, diff, zstdelta),
        header.len() + joined(bodies(res)).len() <= usize::MAX,
    ensures
        objects.0.to_multiset() == inners(buckets.commits).to_multiset(),
        objects.1.to_multiset() == inners(buckets.trees).to_multiset(),
        objects.2.to_multiset() == inners(buckets.blobs).to_multiset(),
        objects.3.to_multiset() == inners(buckets.tags).to_multiset(),
        index_reads_as(
            header + joined(bodies(res)) + sum,
            placed(hashes(res), bodies(res), header.len()),
            objects.0 + objects.1 + objects.2 + objects.3,
            patch,
        ),
{
    let (c, t, b, g) = choose|
        commits: Seq<(Vec<u8>, IndexEntry)>,
        trees: Seq<(Vec<u8>, IndexEntry)>,
        blobs: Seq<(Vec<u8>, IndexEntry)>,
        tags: Seq<(Vec<u8>, IndexEntry)>,
    |
        {
            &&& bucket_done(buckets.commits, commits, size, zstdelta, rate, order, diff)
            &&& bucket_done(buckets.trees, trees, size, zstdelta, rate, order, diff)
            &&& bucket_done(buckets.blobs, blobs, size, zstdelta, rate, order, diff)
            &&& bucket_done(buckets.tags, tags, size, zstdelta, rate, order, diff)
            &&& res == #[trigger] four_joined(commits, trees, blobs, tags)
        };
    lemma_four_joined(c, t, b, g, header.len());
    let pack = header + joined(bodies(res)) + sum;
    let front_t = header + joined(bodies(c));
    let front_b = front_t + joined(bodies(t));
    let front_g = front_b + joined(bodies(b));
    let back_b = joined(bodies(g)) + sum;
    let back_t = joined(bodies(b)) + back_b;
    let back_c = joined(bodies(t)) + back_t;
    assert(pack =~= header + joined(bodies(c)) + back_c);
    assert(pack =~= front_t + joined(bodies(t)) + back_t);
    assert(pack =~= front_b + joined(bodies(b)) + back_b);
    assert(pack =~= front_g + joined(bodies(g)) + sum);
    let commits = lemma_bucket_reads_back(
        header,
        buckets.commits,
        c,
        back_c,
        size,
        zstdelta,
        rate,
        order,
        diff,
        patch,
    );
    let trees = lemma_bucket_reads_back(
        front_t,
        buckets.trees,
        t,
        back_t,
        size,
        zstdelta,
        rate,
        order,
        diff,
        patch,
    );
    let blobs = lemma_bucket_reads_back(
        front_b,
        buckets.blobs,
        b,
        back_b,
        size,
        zstdelta,
        rate,
        order,
        diff,
        patch,
    );
    let tags = lemma_bucket_reads_back(
        front_g,
        buckets.tags,
        g,
        sum,
        size,
        zstdelta,
        rate,
        order,
        diff,
        patch,
    );
    let index_c = placed(hashes(c), bodies(c), header.len());
    let index_t = placed(hashes(t), bodies(t), front_t.len());
    let index_b = placed(hashes(b), bodies(b), front_b.len());
    let index_g = placed(hashes(g), bodies(g), front_g.len());
    lemma_index_concat(pack, index_c, commits, index_t, trees, patch);
    lemma_index_concat(pack, index_c + index_t, commits + trees, index_b, blobs, patch);
    lemma_index_concat(
        pack,
        index_c + index_t + index_b,
        commits + trees + blobs,
        index_g,
        tags,
        patch,
    );
    (commits, trees, blobs, tags)
}

/// Four lists of results one behind the other: their bytes, and where they stand.
proof fn lemma_four_joined(
    c: Seq<(Vec<u8>, IndexEntry)>,
    t: Seq<(Vec<u8>, IndexEntry)>,
    b: Seq<(Vec<u8>, IndexEntry)>,
    g: Seq<(Vec<u8>, IndexEntry)>,
    offset: nat,
)
    ensures
        joined(bodies(four_joined(c, t, b, g))) == joined(bodies(c)) + joined(bodies(t)) + joined(
            bodies(b),
        ) + joined(bodies(g)),
        placed(hashes(four_joined(c, t, b, g)), bodies(four_joined(c, t, b, g)), offset) == placed(
            hashes(c),
            bodies(c),
            offset,
        ) + placed(hashes(t), bodies(t), offset + joined(bodies(c)).len()) + placed(
            hashes(b),
            bodies(b),
            offset + joined(bodies(c)).len() + joined(bodies(t)).len(),
        ) + placed(
            hashes(g),
            bodies(g),
            offset + joined(bodies(c)).len() + joined(bodies(t)).len() + joined(bodies(b)).len(),
        ),
{
    let all = four_joined(c, t, b, g);
    let ct = bodies(c) + bodies(t);
    let ctb = ct + bodies(b);
    assert(bodies(all) =~= ctb + bodies(g));
    assert(hashes(all) =~= hashes(c) + hashes(t) + hashes(b) + hashes(g));
    lemma_joined_concat(bodies(c), bodies(t));
    lemma_joined_concat(ct, bodies(b));
    lemma_joined_concat(ctb, bodies(g));
    lemma_placed_concat(hashes(c), bodies(c), hashes(t), bodies(t), offset);
    lemma_placed_concat(hashes(c) + hashes(t), ct, hashes(b), bodies(b), offset);
    lemma_placed_concat(hashes(c) + hashes(t) + hashes(b), ctb, hashes(g), bodies(g), offset);
}

/// A pack that was encoded in parallel holds what went in. Its header gives the number
/// of objects, which is that of the entries, and it ends in the checksum of all before
/// it, which is its hash. The objects stand in the order of the entries, each whole.
/// Each index entry has the hash of its object, and where it points the reader finds
/// the object's kind and data.
pub proof fn law_parallel_pack_reads_back(
    object_number: nat,
    kind: HashKind,
    idx_open: bool,
    after: EncoderView,
    entries: Seq<Incoming>,
    size: nat,
    out: Seq<Seq<u8>>,
    patch: spec_fn(nat, Seq<u8>, Seq<u8>) -> Seq<u8>,
)
    requires
        parallel_ready(fresh(object_number, 0, kind, idx_open), entries, size),
        parallel_outcome(
            fresh(object_number, 0, kind, idx_open),
            after,
            entries,
            size,
            Seq::empty(),
            out,
            Ok(true),
        ),
    ensures
        framed_right(out.flatten(), after),
        after.object_number == object_number,
        entries.len() == object_number,
        after.kind == kind,
        after.idx_entries is Some,
        index_reads_as(out.flatten(), after.idx_entries->0, objects_in(entries), patch),
{
    let before = fresh(object_number, 0, kind, idx_open);
    let begun = counted(with_header(before), entries.len() as int);
    let header = header_bytes(object_number);
    assert(begun.hashed =~= header);
    let out_begun = Seq::<Seq<u8>>::empty() + sent(true, seq![header]);
    assert(out_begun =~= seq![header]);
    let all = inners(entries);
    let chunks = whole_bodies(all);
    lemma_finished_pack(begun, after, entry_hashes(all), chunks, out_begun, out);
    let sum = digest(kind, header + joined(chunks));
    let pack = joined(out);
    lemma_joined_is_flat(out);
    assert(objects_in(entries) =~= all);
    let index = after.idx_entries->0;
    assert forall|i: int| 0 <= i < index.len() implies #[trigger] reads_as(
        pack,
        index[i],
        all[i],
        patch,
    ) by {
        let entry = entries[i].inner;
        assert(all[i] == entry);
        assert(reaches_encoder(entries, size, i));
        assert(encodable(entry.obj_type, None));
        let tail = lemma_object_at(header, chunks, sum, i);
        lemma_joined_front(chunks, i);
        lemma_whole_reads_back(
            pack,
            (header.len() + joined(chunks.take(i)).len()) as int,
            entry.obj_type,
            entry.data@,
            tail,
            patch,
        );
    }
}

/// The pack does not depend on how many objects a batch has: two encodings of the same
/// entries that both reach the end send the same chunks and leave encoders that are
/// the same.
pub proof fn law_batch_size_leaves_no_trace(
    before: EncoderView,
    entries: Seq<Incoming>,
    out_before: Seq<Seq<u8>>,
    size_a: nat,
    after_a: EncoderView,
    out_a: Seq<Seq<u8>>,
    size_b: nat,
    after_b: EncoderView,
    out_b: Seq<Seq<u8>>,
)
    requires
        parallel_outcome(before, after_a, entries, size_a, out_before, out_a, Ok(true)),
        parallel_outcome(before, after_b, entries, size_b, out_before, out_b, Ok(true)),
    ensures
        out_a == out_b,
        after_a == after_b,
{
    lemma_hash_of_view(after_a.final_hash->0, after_b.final_hash->0);
}

/// A hash is given by its hash function and its bytes.
pub proof fn lemma_hash_of_view(a: ObjectHash, b: ObjectHash)
    requires
        a.spec_kind() == b.spec_kind(),
        a@ == b@,
    ensures
        a == b,
{
    match (a, b) {
        (ObjectHash::Sha1(x), ObjectHash::Sha1(y)) => {
            assert(x =~= y);
        },
        (ObjectHash::Sha256(x), ObjectHash::Sha256(y)) => {
            assert(x =~= y);
        },
        _ => {},
    }
}

/// Whether an encoder went through an encoding that was not refused for its delta
/// window, in either way, however it ended.
pub open spec fn encoded_once<
    K,
    R: Fn(&Vec<RateQuery<'_>>, &[u8]) -> Vec<Option<K>>,
    O: Fn(&K, &K) -> RateOrder,
    D: Fn(&[u8], &[u8], bool) -> Vec<u8>,
>(
    before: EncoderView,
    after: EncoderView,
    entries: Seq<Incoming>,
    size: nat,
    zstdelta: bool,
    rate: R,
    order: O,
    diff: D,
    out_before: Seq<Seq<u8>>,
    out_after: Seq<Seq<u8>>,
    done: Result<bool, GitError>,
) -> bool {
    ||| before.window_size == 0 && parallel_outcome(
        before,
        after,
        entries,
        size,
        out_before,
        out_after,
        done,
    )
    ||| window_outcome(
        before,
        after,
        entries,
        zstdelta,
        rate,
        order,
        diff,
        out_before,
        out_after,
        done,
    )
}

/// Encoding happens once: after one encoding, in either way and however it ended, a
/// second one is refused. The refusal leaves hash and index as they are, and if the
/// first reached the end, nothing more is sent.
pub proof fn law_second_encoding_is_refused<
    K,
    R: Fn(&Vec<RateQuery<'_>>, &[u8]) -> Vec<Option<K>>,
    O: Fn(&K, &K) -> RateOrder,
    D: Fn(&[u8], &[u8], bool) -> Vec<u8>,
>(
    first: EncoderView,
    second: EncoderView,
    third: EncoderView,
    entries: Seq<Incoming>,
    more: Seq<Incoming>,
    size: nat,
    zstdelta: bool,
    zstdelta_more: bool,
    rate: R,
    order: O,
    diff: D,
    out_first: Seq<Seq<u8>>,
    out_second: Seq<Seq<u8>>,
    out_third: Seq<Seq<u8>>,
    done: Result<bool, GitError>,
    done_more: Result<bool, GitError>,
)
    requires
        encoded_once(
            first,
            second,
            entries,
            size,
            zstdelta,
            rate,
            order,
            diff,
            out_first,
            out_second,
            done,
        ),
        encoded_once(
            second,
            third,
            more,
            size,
            zstdelta_more,
            rate,
            order,
            diff,
            out_second,
            out_third,
            done_more,
        ),
    ensures
        done_more is Err,
        done_more->Err_0.reason() == in_progress_reason(),
        third.final_hash == second.final_hash,
        third.idx_entries == second.idx_entries,
        done == Ok::<bool, GitError>(true) ==> out_third == out_second,
{
    assert(out_second + Seq::<Seq<u8>>::empty() =~= out_second);
}

/// An AI object never leads to a finished pack: whichever way and with whatever window,
/// encoding does not reach the end, and there is neither a hash nor an index.
pub proof fn law_ai_object_is_never_packed<
    K,
    R: Fn(&Vec<RateQuery<'_>>, &[u8]) -> Vec<Option<K>>,
    O: Fn(&K, &K) -> RateOrder,
    D: Fn(&[u8], &[u8], bool) -> Vec<u8>,
>(
    before: EncoderView,
    after: EncoderView,
    entries: Seq<Incoming>,
    k: int,
    size: nat,
    zstdelta: bool,
    rate: R,
    order: O,
    diff: D,
    out_before: Seq<Seq<u8>>,
    out_after: Seq<Seq<u8>>,
    done: Result<bool, GitError>,
)
    requires
        encoded_once(
            before,
            after,
            entries,
            size,
            zstdelta,
            rate,
            order,
            diff,
            out_before,
            out_after,
            done,
        ),
        0 <= k < entries.len(),
        entries[k].inner.obj_type.pack_number() is None,
    ensures
        done != Ok::<bool, GitError>(true),
        after.final_hash == before.final_hash,
        after.idx_entries == before.idx_entries,
{
    assert(!windowed(entries[k].inner.obj_type));
}

/// An AI object in the first batch is refused by parallel encoding when nothing but the
/// header has been sent.
pub proof fn law_early_ai_object_leaves_the_header(
    before: EncoderView,
    after: EncoderView,
    entries: Seq<Incoming>,
    k: int,
    size: nat,
    out_before: Seq<Seq<u8>>,
    out_after: Seq<Seq<u8>>,
    done: Result<bool, GitError>,
)
    requires
        before.window_size == 0,
        !before.started,
        0 <= k < entries.len(),
        k < size,
        all_numbered(entries, k),
        entries[k].inner.obj_type.pack_number() is None,
        parallel_outcome(before, after, entries, size, out_before, out_after, done),
    ensures
        done is Err,
        done->Err_0.reason() == ai_reason(entries[k].inner.obj_type),
        out_after == out_before + sent(
            before.pack_open,
            seq![header_bytes(before.object_number)],
        ),
        after.final_hash == before.final_hash,
        after.idx_entries == before.idx_entries,
        after.offset == before.offset,
{
    let begun = with_header(before);
    let out_begun = out_before + sent(before.pack_open, seq![header_bytes(before.object_number)]);
    if done is Ok {
        let end = choose|end: int| #[trigger]
            overflowed(begun, after, entries, size, end, out_begun, out_after);
        let (m, idx_entries) = choose|m: int, idx_entries: Seq<IndexEntry>|
            {
                &&& #[trigger] batches_written(
                    begun,
                    after,
                    entries,
                    m,
                    end,
                    idx_entries,
                    out_begun,
                    out_after,
                )
                &&& m < end <= m + size
            };
        assert(end <= k);
        lemma_small_mod(end as nat, size);
        assert(false);
    } else {
        let error = done->Err_0;
        let (at, m, idx_entries) = choose|at: int, m: int, idx_entries: Seq<IndexEntry>|
            {
                &&& #[trigger] batches_written(
                    begun,
                    after,
                    entries,
                    m,
                    at,
                    idx_entries,
                    out_begun,
                    out_after,
                )
                &&& refused_at(entries, size, at, m, error)
            };
        assert(at == k) by {
            if at < k {
                assert(entries[at].inner.obj_type.pack_number() is Some);
            }
            if k < at {
                assert(entries[k].inner.obj_type.pack_number() is Some);
            }
        }
        lemma_small_mod(m as nat, size);
        let none = whole_bodies(inners(entries.take(0)));
        assert(none =~= Seq::<Seq<u8>>::empty());
        assert(out_begun + sent(before.pack_open, none) =~= out_begun);
    }
}

/// Encoding through delta windows gives an encoder its hash and its index if and only
/// if it reaches the end.
pub proof fn law_window_hash_comes_at_the_end<
    K,
    R: Fn(&Vec<RateQuery<'_>>, &[u8]) -> Vec<Option<K>>,
    O: Fn(&K, &K) -> RateOrder,
    D: Fn(&[u8], &[u8], bool) -> Vec<u8>,
>(
    before: EncoderView,
    after: EncoderView,
    entries: Seq<Incoming>,
    zstdelta: bool,
    rate: R,
    order: O,
    diff: D,
    out_before: Seq<Seq<u8>>,
    out_after: Seq<Seq<u8>>,
    done: Result<bool, GitError>,
)
    requires
        before.final_hash is None,
        before.idx_entries is None,
        window_outcome(
            before,
            after,
            entries,
            zstdelta,
            rate,
            order,
            diff,
            out_before,
            out_after,
            done,
        ),
    ensures
        after.final_hash is Some <==> done == Ok::<bool, GitError>(true),
        after.idx_entries is Some <==> done == Ok::<bool, GitError>(true),
        after.idx_open == before.idx_open,
{
}

/// Encoding in parallel gives an encoder its hash and its index if and only if it
/// reaches the end.
pub proof fn law_parallel_hash_comes_at_the_end(
    before: EncoderView,
    after: EncoderView,
    entries: Seq<Incoming>,
    size: nat,
    out_before: Seq<Seq<u8>>,
    out_after: Seq<Seq<u8>>,
    done: Result<bool, GitError>,
)
    requires
        before.final_hash is None,
        before.idx_entries is None,
        parallel_outcome(before, after, entries, size, out_before, out_after, done),
    ensures
        after.final_hash is Some <==> done == Ok::<bool, GitError>(true),
        after.idx_entries is Some <==> done == Ok::<bool, GitError>(true),
        after.idx_open == before.idx_open,
{
}

/// The index of a finished pack is sent once. A request for it is answered with the number
/// of objects, the hash and the index entries of the pack. Once the index was sent, hash
/// and index entries are as before, and a further request is refused. While it could not
/// be sent, a further request is answered as the first was.
pub proof fn law_index_is_sent_once(
    packed: EncoderView,
    first: Result<IdxRequest, GitError>,
    success: bool,
    after: EncoderView,
    second: Result<IdxRequest, GitError>,
)
    requires
        packed.idx_open,
        packed.final_hash is Some,
        packed.idx_entries is Some,
        idx_requested(packed, first),
        after == idx_finished(packed, success),
        idx_requested(after, second),
    ensures
        first is Ok,
        first->Ok_0.object_number == packed.object_number,
        first->Ok_0.final_hash == packed.final_hash->0,
        first->Ok_0.entries@ == packed.idx_entries->0,
        after.final_hash == packed.final_hash,
        after.idx_entries == packed.idx_entries,
        after.idx_open == !success,
        success ==> second is Err && second->Err_0.reason() == no_idx_sender_reason(),
        !success ==> second is Ok && second->Ok_0.entries@ == first->Ok_0.entries@
            && second->Ok_0.final_hash == first->Ok_0.final_hash,
{
}

/// An encoder that was made with an index gives one if and only if an encoding, in either
/// way, reached the end.
pub proof fn law_index_follows_the_pack<
    K,
    R: Fn(&Vec<RateQuery<'_>>, &[u8]) -> Vec<Option<K>>,
    O: Fn(&K, &K) -> RateOrder,
    D: Fn(&[u8], &[u8], bool) -> Vec<u8>,
>(
    object_number: nat,
    window_size: nat,
    kind: HashKind,
    after: EncoderView,
    entries: Seq<Incoming>,
    size: nat,
    zstdelta: bool,
    rate: R,
    order: O,
    diff: D,
    out_before: Seq<Seq<u8>>,
    out_after: Seq<Seq<u8>>,
    done: Result<bool, GitError>,
    request: Result<IdxRequest, GitError>,
)
    requires
        encoded_once(
            fresh(object_number, window_size, kind, true),
            after,
            entries,
            size,
            zstdelta,
            rate,
            order,
            diff,
            out_before,
            out_after,
            done,
        ),
        idx_requested(after, request),
    ensures
        request is Ok <==> done == Ok::<bool, GitError>(true),
        request is Ok ==> {
            &&& request->Ok_0.object_number == object_number
            &&& after.final_hash == Some(request->Ok_0.final_hash)
            &&& after.idx_entries == Some(request->Ok_0.entries@)
        },
{
}

/// The number of deltas between an object of a log and one that is stored whole.
pub open spec fn delta_depth(log: Seq<Packed>, i: int) -> nat
    decreases i,
{
    match log[i].base {
        Some(b) => if 0 <= b < i {
            delta_depth(log, b) + 1
        } else {
            0
        },
        None => 0,
    }
}

/// No object stands at the end of more than fifty deltas.
pub proof fn law_chains_are_short(
    log: Seq<Packed>,
    window_size: nat,
    zstdelta: bool,
    i: int,
)
    requires
        log_right(log, window_size, zstdelta),
        0 <= i < log.len(),
    ensures
        delta_depth(log, i) <= MAX_CHAIN_LEN,
        delta_depth(log, i) <= log[i].chain_len,
    decreases i,
{
    assert(packed_right(log, i, window_size, zstdelta));
    if let Some(b) = log[i].base {
        law_chains_are_short(log, window_size, zstdelta, b);
    }
}

/// A window of size zero disables deltas: every object is stored whole, as its own
/// kind.
pub proof fn law_no_window_no_deltas(log: Seq<Packed>, zstdelta: bool, i: int)
    requires
        log_right(log, 0, zstdelta),
        0 <= i < log.len(),
    ensures
        log[i].base is None,
        log[i].stored_type == log[i].obj_type,
        log[i].payload == log[i].data,
{
    assert(packed_right(log, i, 0, zstdelta));
}

/// A delta stays within its window and kind: its base is an object of the same kind,
/// one of the last `window_size` before it, and starts as far back as the delta says.
pub proof fn law_base_is_near(log: Seq<Packed>, window_size: nat, zstdelta: bool, i: int)
    requires
        log_right(log, window_size, zstdelta),
        0 <= i < log.len(),
        log[i].base is Some,
    ensures
        0 <= log[i].base->0 < i,
        i - log[i].base->0 <= window_size,
        log[log[i].base->0].obj_type == log[i].obj_type,
        log[log[i].base->0].hash != log[i].hash,
        log[i].stored_type == delta_type(zstdelta),
        log[i].distance matches Some(distance) && distance > 0 && log[log[i].base->0].start
            + distance == log[i].start,
{
    assert(packed_right(log, i, window_size, zstdelta));
}

/// The best candidate is one that saves enough, and there is one if any does.
proof fn lemma_best_saves_enough<K>(
    log: Seq<Packed>,
    size: nat,
    candidates: Seq<Candidate>,
    rates: Seq<Option<K>>,
    orders: Seq<RateOrder>,
    n: nat,
)
    ensures
        match best_of(log, size, candidates, rates, orders, n) {
            Some(best) => 0 <= best < n && rates[best] is Some,
            None => forall|i: int| 0 <= i < n ==> (#[trigger] rates[i]) is None,
        },
    decreases n,
{
    if n > 0 {
        lemma_best_saves_enough(log, size, candidates, rates, orders, (n - 1) as nat);
    }
}

/// Whether the rates of candidates decide how an entry is stored: as a delta if and only
/// if one of the candidates saves enough, and then against such a one; else whole.
pub open spec fn stored_by_rates<K>(
    log: Seq<Packed>,
    i: int,
    size: nat,
    entry: Entry,
    candidates: Seq<Candidate>,
    rates: Seq<Option<K>>,
) -> bool {
    match log[i].base {
        Some(b) => exists|j: int|
            {
                &&& 0 <= j < candidates.len()
                &&& (#[trigger] rates[j]) is Some
                &&& b == index_of(log.take(i), size, candidates[j].slot as int)
            },
        None => {
            &&& forall|j: int| 0 <= j < candidates.len() ==> (#[trigger] rates[j]) is None
            &&& log[i].bytes() == whole_bytes(entry)
        },
    }
}

/// An entry is stored as a delta if and only if some object of the window is eligible, was
/// called similar by the cheap test and saves enough; otherwise it is stored whole. The
/// candidates here are just the eligible objects that the test called similar, and the
/// rates are what the rating function said of them.
pub proof fn law_delta_if_one_saves_enough<
    K,
    R: Fn(&Vec<RateQuery<'_>>, &[u8]) -> Vec<Option<K>>,
    O: Fn(&K, &K) -> RateOrder,
    D: Fn(&[u8], &[u8], bool) -> Vec<u8>,
>(
    bucket: Seq<Entry>,
    log: Seq<Packed>,
    i: int,
    size: nat,
    zstdelta: bool,
    rate: R,
    order: O,
    diff: D,
) -> (decision: (Seq<Candidate>, Seq<Option<K>>))
    requires
        log_follows(bucket, log, size, zstdelta, rate, order, diff),
        0 <= i < log.len(),
    ensures
        candidates_right(log.take(i), size, bucket[i], decision.0),
        rated(log.take(i), size, bucket[i], decision.0, rate, decision.1),
        stored_by_rates(log, i, size, bucket[i], decision.0, decision.1),
{
    assert(entry_follows(bucket, log, i, size, zstdelta, rate, order, diff));
    assert(packed_right(log, i, size, zstdelta));
    lemma_entry_in_log(bucket, log, i, size, zstdelta, rate, order, diff);
    let before = log.take(i);
    let entry = bucket[i];
    let base = choose|base: Option<(int, Seq<u8>)>|
        {
            &&& #[trigger] base_right(before, size, zstdelta, entry, rate, order, diff, base)
            &&& log[i] == next_packed(before, zstdelta, entry, base)
        };
    let (candidates, rates, picked) = choose|
        candidates: Seq<Candidate>,
        rates: Seq<Option<K>>,
        picked: Option<usize>,
    |
        {
            &&& candidates_right(before, size, entry, candidates)
            &&& rated(before, size, entry, candidates, rate, rates)
            &&& #[trigger] picked_right(before, size, candidates, rates, order, picked)
            &&& match picked {
                None => base is None,
                Some(slot) => {
                    &&& base matches Some((b, delta))
                    &&& b == index_of(before, size, slot as int)
                    &&& diffed(diff, before[b].data, entry.data@, zstdelta, delta)
                },
            }
        };
    let orders = choose|orders: Seq<RateOrder>|
        {
            &&& #[trigger] orders_of(
                before,
                size,
                candidates,
                rates,
                order,
                orders,
                candidates.len(),
            )
            &&& match best_of(before, size, candidates, rates, orders, candidates.len()) {
                Some(best) => picked == Some(candidates[best].slot),
                None => picked is None,
            }
        };
    lemma_best_saves_enough(before, size, candidates, rates, orders, candidates.len());
    (candidates, rates)
}

/// A base has passed the cheap test: comparing the fronts of the two objects found them
/// similar. So neither a delta nor its base is ever an empty object.
pub proof fn law_base_has_passed_the_test<
    K,
    R: Fn(&Vec<RateQuery<'_>>, &[u8]) -> Vec<Option<K>>,
    O: Fn(&K, &K) -> RateOrder,
    D: Fn(&[u8], &[u8], bool) -> Vec<u8>,
>(
    bucket: Seq<Entry>,
    log: Seq<Packed>,
    i: int,
    size: nat,
    zstdelta: bool,
    rate: R,
    order: O,
    diff: D,
)
    requires
        log_follows(bucket, log, size, zstdelta, rate, order, diff),
        0 <= i < log.len(),
        log[i].base is Some,
    ensures
        fronts_compared(log[log[i].base->0].data, log[i].data, true),
        log[log[i].base->0].data.len() > 0,
        log[i].data.len() > 0,
{
    let b = log[i].base->0;
    let (candidates, rates) = law_delta_if_one_saves_enough(
        bucket,
        log,
        i,
        size,
        zstdelta,
        rate,
        order,
        diff,
    );
    lemma_entry_in_log(bucket, log, i, size, zstdelta, rate, order, diff);
    assert(packed_right(log, i, size, zstdelta));
    let j = choose|j: int|
        {
            &&& 0 <= j < candidates.len()
            &&& (#[trigger] rates[j]) is Some
            &&& b == index_of(log.take(i), size, candidates[j].slot as int)
        };
    assert(candidate_right(log.take(i), size, bucket[i], candidates[j]));
    assert(log.take(i)[b] == log[b]);
    let (slice_a, slice_b) = choose|slice_a: &[u8], slice_b: &[u8]|
        {
            &&& slice_a@ == log[b].data
            &&& slice_b@ == log[i].data
            &&& #[trigger] call_ensures(cheap_similar, (slice_a, slice_b), true)
        };
    assert(fronts_compared(slice_a@, slice_b@, true));
}

/// Positions in an index ascend with the objects, if no object is empty and the pack
/// stays within what a machine word holds.
pub proof fn law_positions_ascend(
    names: Seq<ObjectHash>,
    chunks: Seq<Seq<u8>>,
    offset: nat,
    i: int,
    j: int,
)
    requires
        forall|k: int| 0 <= k < chunks.len() ==> (#[trigger] chunks[k]).len() > 0,
        offset + joined(chunks).len() <= u64::MAX,
        0 <= i < j < chunks.len(),
    ensures
        placed(names, chunks, offset)[i].offset < placed(names, chunks, offset)[j].offset,
    decreases j - i,
{
    lemma_joined_front(chunks, i);
    lemma_joined_front(chunks, j);
    lemma_joined_step(chunks, j - 1);
    assert(chunks[j - 1].len() > 0);
    if i < j - 1 {
        law_positions_ascend(names, chunks, offset, i, j - 1);
        lemma_joined_front(chunks, j - 1);
    }
}

} // verus!
