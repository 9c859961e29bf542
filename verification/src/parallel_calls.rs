//! What calls that encode a pack without deltas come to.
#![allow(unused_imports)]
use vstd::arithmetic::div_mod::{lemma_fundamental_div_mod, lemma_fundamental_div_mod_converse};
use vstd::prelude::*;

use crate::buckets::Incoming;
use crate::delta_laws::{law_whole_object_comes_apart, unframed};
use crate::encoder::{
    chunk_views, placed, sent, with_header, with_objects, EncoderView, PackEncoder,
};
use crate::encoder_calls::chunks_in;
use crate::error::GitError;
use crate::format::{header_bytes, law_header_reads_back, read_header};
use crate::hash::ObjectHash;
use crate::object::{Entry, IndexEntry, ObjectType};
use crate::pack_calls::{
    given_up, hash_of, header_hashed, lemma_given_up, lemma_pack_sent, pack_sent,
};
use crate::parallel::{
    all_encodable, batch_of, batch_size, batch_written, batches_written, closed_as_told, counted,
    encode_whole, entry_hashes, inners, overflowed, parallel_outcome, refused_at, run_closed,
    run_received, whole_bodies, whole_bytes, wrote_as_told, ParallelRun, RunView,
};
use crate::reading::{kind_number, lemma_joined_is_flat, objects_in};
use crate::window::{RateOrder, RateQuery};

verus! {

/// The number of objects in a batch: a tenth of what the channel of entries can hold, and a
/// thousand at least.
pub open spec fn tenth_or_thousand(max_capacity: usize) -> int {
    if max_capacity / 10 > 1000 {
        (max_capacity / 10) as int
    } else {
        1000
    }
}

/// A batch has a tenth of the channel, and a thousand at least.
pub proof fn law_size_of_a_batch(max_capacity: usize, size: usize, run: ParallelRun)
    requires
        call_ensures(batch_size, (max_capacity,), size),
        call_ensures(ParallelRun::new, (max_capacity,), run),
    ensures
        size == tenth_or_thousand(max_capacity),
        run@.size == size,
        run@.batch.len() == 0,
        run@.idx_entries.len() == 0,
{
}

/// An object that is encoded whole is taken apart into its kind and its data, and its index
/// entry has its hash. An AI object is refused.
pub proof fn law_object_encoded_whole(
    entry: &Entry,
    encoded: Result<(Vec<u8>, IndexEntry), GitError>,
)
    requires
        call_ensures(encode_whole, (entry,), encoded),
        kind_number(entry.obj_type) != 0 || entry.obj_type == ObjectType::Task,
    ensures
        encoded is Ok <==> kind_number(entry.obj_type) != 0,
        encoded matches Ok(object) ==> {
            &&& unframed(object.0@) == Some(
                (kind_number(entry.obj_type), None::<nat>, entry.data@),
            )
            &&& object.1 == IndexEntry { hash: entry.hash, offset: 0 }
        },
{
    if kind_number(entry.obj_type) != 0 {
        law_whole_object_comes_apart(entry.obj_type, entry.data@);
    }
}

/// Parallel encoding is refused to an encoder with a delta window, which it leaves as it is;
/// else it begins like any encoding.
pub proof fn law_begun_in_parallel(
    encoder: &mut PackEncoder,
    out: &mut Vec<Vec<u8>>,
    begun: Result<(), GitError>,
)
    requires
        old(encoder)@.object_number <= u32::MAX,
        call_ensures(PackEncoder::begin_parallel, (encoder, out), begun),
    ensures
        old(encoder)@.window_size > 0 ==> {
            &&& begun is Err
            &&& begun->Err_0.reason() == "parallel encode only works when window_size == 0"@
            &&& final(encoder)@ == old(encoder)@
            &&& chunks_in(*final(out)) == chunks_in(*old(out))
        },
        old(encoder)@.window_size == 0 ==> {
            &&& begun is Err <==> old(encoder)@.started
            &&& begun is Err ==> begun->Err_0.reason()
                == "encoding operation is already in progress"@
            &&& given_up(
                old(encoder)@,
                final(encoder)@,
                chunks_in(*old(out)),
                chunks_in(*final(out)),
            )
        },
{
    assert(chunks_in(*old(out)) =~= chunk_views(old(out)@));
    assert(chunks_in(*final(out)) =~= chunk_views(final(out)@));
    if old(encoder)@.window_size == 0 {
        lemma_given_up(
            old(encoder)@,
            final(encoder)@,
            chunk_views(old(out)@),
            chunk_views(final(out)@),
        );
    }
}

/// An entry is taken up and counted, unless it is an AI object, which is refused and not
/// counted.
pub proof fn law_taken_entry(
    encoder: &mut PackEncoder,
    entry: Incoming,
    taken: Result<Entry, GitError>,
)
    requires
        call_ensures(PackEncoder::take_entry, (encoder, entry), taken),
    ensures
        taken is Err <==> entry.inner.obj_type == ObjectType::Task,
        taken matches Ok(inner) ==> inner == entry.inner && final(encoder)@ == (EncoderView {
            process_index: old(encoder)@.process_index + 1,
            ..old(encoder)@
        }),
        taken matches Err(error) ==> final(encoder)@ == old(encoder)@ && error.reason()
            == "AI object type `task` cannot be encoded in a pack file"@,
{
    reveal_strlit("AI object type `");
    reveal_strlit("task");
    reveal_strlit("` cannot be encoded in a pack file");
    reveal_strlit("AI object type `task` cannot be encoded in a pack file");
    if let Err(error) = taken {
        assert(error.reason() =~= "AI object type `task` cannot be encoded in a pack file"@);
    }
}

/// Whether objects were written one behind the other, a chunk for each: sent, if the sending
/// was open, hashed, and noted with their names and the positions where they begin.
pub open spec fn objects_written(
    before: EncoderView,
    after: EncoderView,
    idx_before: Seq<IndexEntry>,
    idx_after: Seq<IndexEntry>,
    out_before: Seq<Seq<u8>>,
    out_after: Seq<Seq<u8>>,
    names: Seq<ObjectHash>,
    chunks: Seq<Seq<u8>>,
) -> bool {
    &&& after == EncoderView {
        offset: before.offset + chunks.flatten().len(),
        hashed: before.hashed + chunks.flatten(),
        ..before
    }
    &&& out_after == if before.pack_open {
        out_before + chunks
    } else {
        out_before
    }
    &&& idx_after.len() == idx_before.len() + chunks.len()
    &&& idx_after.take(idx_before.len() as int) == idx_before
    &&& forall|k: int|
        0 <= k < chunks.len() ==> #[trigger] idx_after[idx_before.len() + k] == (IndexEntry {
            hash: names[k],
            offset: (before.offset + chunks.take(k).flatten().len()) as u64,
        })
}

/// Objects that were written one behind the other.
proof fn lemma_objects_written(
    before: EncoderView,
    after: EncoderView,
    idx_before: Seq<IndexEntry>,
    idx_after: Seq<IndexEntry>,
    out_before: Seq<Seq<u8>>,
    out_after: Seq<Seq<u8>>,
    names: Seq<ObjectHash>,
    chunks: Seq<Seq<u8>>,
)
    requires
        after == with_objects(before, chunks),
        idx_after == idx_before + placed(names, chunks, before.offset),
        out_after == out_before + sent(before.pack_open, chunks),
    ensures
        objects_written(
            before,
            after,
            idx_before,
            idx_after,
            out_before,
            out_after,
            names,
            chunks,
        ),
{
    lemma_joined_is_flat(chunks);
    assert(out_before + Seq::<Seq<u8>>::empty() =~= out_before);
    assert(idx_after.take(idx_before.len() as int) =~= idx_before);
    assert forall|k: int| 0 <= k < chunks.len() implies #[trigger] idx_after[idx_before.len() + k]
        == (IndexEntry {
        hash: names[k],
        offset: (before.offset + chunks.take(k).flatten().len()) as u64,
    }) by {
        lemma_joined_is_flat(chunks.take(k));
    }
}

/// Whether chunks are the first objects of a list in turn, each whole.
pub open spec fn whole_objects(objects: Seq<Entry>, chunks: Seq<Seq<u8>>) -> bool {
    &&& chunks.len() <= objects.len()
    &&& forall|i: int|
        0 <= i < chunks.len() ==> unframed(#[trigger] chunks[i]) == Some(
            (kind_number(objects[i].obj_type), None::<nat>, objects[i].data@),
        )
}

/// The hashes of objects.
pub open spec fn names_of(objects: Seq<Entry>) -> Seq<ObjectHash> {
    Seq::new(objects.len(), |i: int| objects[i].hash)
}

/// Whether the objects of a batch were written as the outcome tells: all of them, or those
/// before one that would end beyond what a machine word holds.
pub open spec fn batch_went(
    before: EncoderView,
    after: EncoderView,
    objects: Seq<Entry>,
    idx_before: Seq<IndexEntry>,
    idx_after: Seq<IndexEntry>,
    out_before: Seq<Seq<u8>>,
    out_after: Seq<Seq<u8>>,
    done: Result<bool, GitError>,
    chunks: Seq<Seq<u8>>,
) -> bool {
    &&& whole_objects(objects, chunks)
    &&& objects_written(
        before,
        after,
        idx_before,
        idx_after,
        out_before,
        out_after,
        names_of(objects.take(chunks.len() as int)),
        chunks,
    )
    &&& match done {
        Ok(true) => chunks.len() == objects.len(),
        Ok(false) => {
            &&& chunks.len() < objects.len()
            &&& after.offset + whole_bytes(objects[chunks.len() as int]).len() > usize::MAX
        },
        Err(_) => false,
    }
}

/// The objects of a batch that was written.
proof fn lemma_batch_went(
    before: EncoderView,
    after: EncoderView,
    objects: Seq<Entry>,
    count: int,
    idx_before: Seq<IndexEntry>,
    idx_after: Seq<IndexEntry>,
    out_before: Seq<Seq<u8>>,
    out_after: Seq<Seq<u8>>,
    done: Result<bool, GitError>,
) -> (chunks: Seq<Seq<u8>>)
    requires
        forall|i: int|
            0 <= i < objects.len() ==> kind_number((#[trigger] objects[i]).obj_type) != 0,
        batch_written(
            before,
            after,
            objects,
            count,
            idx_before,
            idx_after,
            out_before,
            out_after,
        ),
        wrote_as_told(after, objects, count, done),
    ensures
        batch_went(
            before,
            after,
            objects,
            idx_before,
            idx_after,
            out_before,
            out_after,
            done,
            chunks,
        ),
{
    let front = objects.take(count);
    let chunks = whole_bodies(front);
    lemma_objects_written(
        before,
        after,
        idx_before,
        idx_after,
        out_before,
        out_after,
        entry_hashes(front),
        chunks,
    );
    assert(names_of(front) =~= entry_hashes(front));
    assert forall|i: int| 0 <= i < chunks.len() implies unframed(#[trigger] chunks[i]) == Some(
        (kind_number(objects[i].obj_type), None::<nat>, objects[i].data@),
    ) by {
        assert(kind_number(objects[i].obj_type) != 0);
        law_whole_object_comes_apart(objects[i].obj_type, objects[i].data@);
    }
    chunks
}

/// A batch is encoded and written: each object whole and in turn, a chunk for each.
pub proof fn law_batch_is_written(
    encoder: &mut PackEncoder,
    objects: &Vec<Entry>,
    idx_entries: &mut Vec<IndexEntry>,
    out: &mut Vec<Vec<u8>>,
    done: Result<bool, GitError>,
)
    requires
        forall|i: int|
            0 <= i < objects@.len() ==> kind_number((#[trigger] objects@[i]).obj_type) != 0,
        call_ensures(
            PackEncoder::encode_and_write_batch,
            (encoder, objects, idx_entries, out),
            done,
        ),
    ensures
        exists|chunks: Seq<Seq<u8>>| #[trigger]
            batch_went(
                old(encoder)@,
                final(encoder)@,
                objects@,
                old(idx_entries)@,
                final(idx_entries)@,
                chunks_in(*old(out)),
                chunks_in(*final(out)),
                done,
                chunks,
            ),
{
    assert(chunks_in(*old(out)) =~= chunk_views(old(out)@));
    assert(chunks_in(*final(out)) =~= chunk_views(final(out)@));
    lemma_some_batch_went(
        old(encoder)@,
        final(encoder)@,
        objects@,
        old(idx_entries)@,
        final(idx_entries)@,
        chunk_views(old(out)@),
        chunk_views(final(out)@),
        done,
    );
}

/// The objects of a batch that was encoded and written.
proof fn lemma_some_batch_went(
    before: EncoderView,
    after: EncoderView,
    objects: Seq<Entry>,
    idx_before: Seq<IndexEntry>,
    idx_after: Seq<IndexEntry>,
    out_before: Seq<Seq<u8>>,
    out_after: Seq<Seq<u8>>,
    done: Result<bool, GitError>,
)
    requires
        forall|i: int|
            0 <= i < objects.len() ==> kind_number((#[trigger] objects[i]).obj_type) != 0,
        exists|count: int|
            {
                &&& #[trigger] batch_written(
                    before,
                    after,
                    objects,
                    count,
                    idx_before,
                    idx_after,
                    out_before,
                    out_after,
                )
                &&& match done {
                    Ok(true) => count == objects.len(),
                    Ok(false) => {
                        &&& count < objects.len()
                        &&& objects[count].obj_type.pack_number() is Some
                        &&& after.offset + whole_bytes(objects[count]).len() > usize::MAX
                    },
                    Err(_) => {
                        &&& count < objects.len()
                        &&& objects[count].obj_type.pack_number() is None
                    },
                }
            },
    ensures
        exists|chunks: Seq<Seq<u8>>| #[trigger]
            batch_went(
                before,
                after,
                objects,
                idx_before,
                idx_after,
                out_before,
                out_after,
                done,
                chunks,
            ),
{
    let count = choose|count: int|
        {
            &&& #[trigger] batch_written(
                before,
                after,
                objects,
                count,
                idx_before,
                idx_after,
                out_before,
                out_after,
            )
            &&& match done {
                Ok(true) => count == objects.len(),
                Ok(false) => {
                    &&& count < objects.len()
                    &&& objects[count].obj_type.pack_number() is Some
                    &&& after.offset + whole_bytes(objects[count]).len() > usize::MAX
                },
                Err(_) => {
                    &&& count < objects.len()
                    &&& objects[count].obj_type.pack_number() is None
                },
            }
        };
    if count < objects.len() {
        assert(kind_number(objects[count].obj_type) != 0);
    }
    let chunks = lemma_batch_went(
        before,
        after,
        objects,
        count,
        idx_before,
        idx_after,
        out_before,
        out_after,
        done,
    );
    assert(batch_went(
        before,
        after,
        objects,
        idx_before,
        idx_after,
        out_before,
        out_after,
        done,
        chunks,
    ));
}

/// An encoder that has taken up one entry more.
pub open spec fn one_more(view: EncoderView) -> EncoderView {
    EncoderView { process_index: view.process_index + 1, ..view }
}

/// Whether an entry was received right. An AI object is refused and changes nothing. Any other
/// is counted and joins the batch; nothing is sent until the batch is full, and then all of it.
pub open spec fn received_right(
    run: RunView,
    run_after: RunView,
    before: EncoderView,
    after: EncoderView,
    entry: Incoming,
    out_before: Seq<Seq<u8>>,
    out_after: Seq<Seq<u8>>,
    done: Result<bool, GitError>,
) -> bool {
    let batch = run.batch.push(entry.inner);
    &&& run_after.size == run.size
    &&& if entry.inner.obj_type == ObjectType::Task {
        &&& done is Err
        &&& done->Err_0.reason() == "AI object type `task` cannot be encoded in a pack file"@
        &&& run_after == run
        &&& after == before
        &&& out_after == out_before
    } else if batch.len() < run.size {
        &&& done == Ok::<bool, GitError>(true)
        &&& run_after.batch == batch
        &&& run_after.idx_entries == run.idx_entries
        &&& after == one_more(before)
        &&& out_after == out_before
    } else {
        &&& run_after.batch.len() == 0
        &&& exists|chunks: Seq<Seq<u8>>| #[trigger]
            batch_went(
                one_more(before),
                after,
                batch,
                run.idx_entries,
                run_after.idx_entries,
                out_before,
                out_after,
                done,
                chunks,
            )
    }
}

/// An entry was received right.
proof fn lemma_received_right(
    run: RunView,
    run_after: RunView,
    before: EncoderView,
    after: EncoderView,
    entry: Incoming,
    out_before: Seq<Seq<u8>>,
    out_after: Seq<Seq<u8>>,
    done: Result<bool, GitError>,
)
    requires
        forall|i: int|
            0 <= i < run.batch.len() ==> kind_number((#[trigger] run.batch[i]).obj_type) != 0,
        kind_number(entry.inner.obj_type) != 0 || entry.inner.obj_type == ObjectType::Task,
        run_received(run, run_after, before, after, entry, out_before, out_after, done),
    ensures
        received_right(run, run_after, before, after, entry, out_before, out_after, done),
{
    let batch = run.batch.push(entry.inner);
    reveal_strlit("AI object type `");
    reveal_strlit("task");
    reveal_strlit("` cannot be encoded in a pack file");
    reveal_strlit("AI object type `task` cannot be encoded in a pack file");
    if entry.inner.obj_type == ObjectType::Task {
        assert(done->Err_0.reason()
            =~= "AI object type `task` cannot be encoded in a pack file"@);
    } else if batch.len() >= run.size {
        assert(counted(before, 1) == one_more(before));
        let count = choose|count: int|
            {
                &&& #[trigger] batch_written(
                    counted(before, 1),
                    after,
                    batch,
                    count,
                    run.idx_entries,
                    run_after.idx_entries,
                    out_before,
                    out_after,
                )
                &&& wrote_as_told(after, batch, count, done)
            };
        assert forall|i: int| 0 <= i < batch.len() implies kind_number(
            (#[trigger] batch[i]).obj_type,
        ) != 0 by {
            if i < run.batch.len() {
                assert(batch[i] == run.batch[i]);
            }
        }
        let chunks = lemma_batch_went(
            one_more(before),
            after,
            batch,
            count,
            run.idx_entries,
            run_after.idx_entries,
            out_before,
            out_after,
            done,
        );
        assert(batch_went(
            one_more(before),
            after,
            batch,
            run.idx_entries,
            run_after.idx_entries,
            out_before,
            out_after,
            done,
            chunks,
        ));
    }
}

/// An entry is received right.
pub proof fn law_received_entry(
    run: &mut ParallelRun,
    encoder: &mut PackEncoder,
    entry: Incoming,
    out: &mut Vec<Vec<u8>>,
    done: Result<bool, GitError>,
)
    requires
        forall|i: int|
            0 <= i < old(run)@.batch.len() ==> kind_number(
                (#[trigger] old(run)@.batch[i]).obj_type,
            ) != 0,
        kind_number(entry.inner.obj_type) != 0 || entry.inner.obj_type == ObjectType::Task,
        call_ensures(ParallelRun::receive, (run, encoder, entry, out), done),
    ensures
        received_right(
            old(run)@,
            final(run)@,
            old(encoder)@,
            final(encoder)@,
            entry,
            chunks_in(*old(out)),
            chunks_in(*final(out)),
            done,
        ),
{
    assert(chunks_in(*old(out)) =~= chunk_views(old(out)@));
    assert(chunks_in(*final(out)) =~= chunk_views(final(out)@));
    lemma_received_right(
        old(run)@,
        final(run)@,
        old(encoder)@,
        final(encoder)@,
        entry,
        chunk_views(old(out)@),
        chunk_views(final(out)@),
        done,
    );
}

/// Whether the entries ended right: what is left of the batch is written, and the pack is
/// finished behind it with the checksum of all that was hashed. It is not finished if an object
/// would end beyond what a machine word holds.
pub open spec fn closed_right(
    run: RunView,
    before: EncoderView,
    after: EncoderView,
    out_before: Seq<Seq<u8>>,
    out_after: Seq<Seq<u8>>,
    done: Result<bool, GitError>,
    mid: EncoderView,
    index: Seq<IndexEntry>,
    out_mid: Seq<Seq<u8>>,
    chunks: Seq<Seq<u8>>,
) -> bool {
    &&& batch_went(
        before,
        mid,
        run.batch,
        run.idx_entries,
        index,
        out_before,
        out_mid,
        done,
        chunks,
    )
    &&& if done == Ok::<bool, GitError>(true) {
        &&& after.final_hash matches Some(hash)
        &&& hash_of(mid.kind, mid.hashed, hash)
        &&& after == EncoderView {
            final_hash: Some(hash),
            idx_entries: Some(index),
            pack_open: false,
            ..mid
        }
        &&& out_after == if mid.pack_open {
            out_mid.push(hash@)
        } else {
            out_mid
        }
    } else {
        &&& after == mid
        &&& out_after == out_mid
    }
}

/// The entries ended right.
proof fn lemma_closed_right(
    run: RunView,
    before: EncoderView,
    after: EncoderView,
    out_before: Seq<Seq<u8>>,
    out_after: Seq<Seq<u8>>,
    done: Result<bool, GitError>,
)
    requires
        forall|i: int|
            0 <= i < run.batch.len() ==> kind_number((#[trigger] run.batch[i]).obj_type) != 0,
        run_closed(run, before, after, out_before, out_after, done),
    ensures
        exists|
            mid: EncoderView,
            index: Seq<IndexEntry>,
            out_mid: Seq<Seq<u8>>,
            chunks: Seq<Seq<u8>>,
        | #[trigger]
            closed_right(
                run,
                before,
                after,
                out_before,
                out_after,
                done,
                mid,
                index,
                out_mid,
                chunks,
            ),
{
    let (count, mid, index, out_mid) = choose|
        count: int,
        mid: EncoderView,
        idx_entries: Seq<IndexEntry>,
        out_mid: Seq<Seq<u8>>,
    |
        {
            &&& #[trigger] batch_written(
                before,
                mid,
                run.batch,
                count,
                run.idx_entries,
                idx_entries,
                out_before,
                out_mid,
            )
            &&& mid.offset <= usize::MAX
            &&& wrote_as_told(mid, run.batch, count, done)
            &&& closed_as_told(mid, after, idx_entries, out_mid, out_after, done)
        };
    let chunks = lemma_batch_went(
        before,
        mid,
        run.batch,
        count,
        run.idx_entries,
        index,
        out_before,
        out_mid,
        done,
    );
    if done == Ok::<bool, GitError>(true) {
        let hash = after.final_hash->0;
        if mid.pack_open {
            assert(out_after =~= out_mid.push(hash@));
        } else {
            assert(out_after =~= out_mid);
        }
    }
    assert(closed_right(
        run,
        before,
        after,
        out_before,
        out_after,
        done,
        mid,
        index,
        out_mid,
        chunks,
    ));
}

/// The entries end right.
pub proof fn law_closed_run(
    run: ParallelRun,
    encoder: &mut PackEncoder,
    out: &mut Vec<Vec<u8>>,
    done: Result<bool, GitError>,
)
    requires
        forall|i: int|
            0 <= i < run@.batch.len() ==> kind_number((#[trigger] run@.batch[i]).obj_type) != 0,
        call_ensures(ParallelRun::close, (run, encoder, out), done),
    ensures
        exists|
            mid: EncoderView,
            index: Seq<IndexEntry>,
            out_mid: Seq<Seq<u8>>,
            chunks: Seq<Seq<u8>>,
        | #[trigger]
            closed_right(
                run@,
                old(encoder)@,
                final(encoder)@,
                chunks_in(*old(out)),
                chunks_in(*final(out)),
                done,
                mid,
                index,
                out_mid,
                chunks,
            ),
{
    assert(chunks_in(*old(out)) =~= chunk_views(old(out)@));
    assert(chunks_in(*final(out)) =~= chunk_views(final(out)@));
    lemma_closed_right(
        run@,
        old(encoder)@,
        final(encoder)@,
        chunk_views(old(out)@),
        chunk_views(final(out)@),
        done,
    );
}

/// Objects of the four kinds can always be received and written, as long as they can be
/// counted, and the entries can end when all objects of the pack were taken up.
pub proof fn law_four_kinds_can_be_received(
    run: &ParallelRun,
    encoder: &PackEncoder,
    entry: &Incoming,
    can_receive: bool,
    can_close: bool,
)
    requires
        forall|i: int|
            0 <= i < run@.batch.len() ==> kind_number((#[trigger] run@.batch[i]).obj_type) != 0,
        kind_number(entry.inner.obj_type) != 0 || entry.inner.obj_type == ObjectType::Task,
        call_ensures(ParallelRun::can_receive, (run, encoder, entry), can_receive),
        call_ensures(ParallelRun::can_close, (run, encoder), can_close),
    ensures
        can_receive <==> encoder@.process_index < usize::MAX || entry.inner.obj_type
            == ObjectType::Task,
        can_close <==> encoder@.process_index == encoder@.object_number,
{
    assert(all_encodable(run@.batch)) by {
        assert forall|i: int| 0 <= i < run@.batch.len() implies crate::object::encodable(
            (#[trigger] run@.batch[i]).obj_type,
            None,
        ) by {
            assert(kind_number(run@.batch[i].obj_type) != 0);
        }
    }
    let longer = run@.batch.push(entry.inner);
    if entry.inner.obj_type != ObjectType::Task {
        assert(all_encodable(longer)) by {
            assert forall|i: int| 0 <= i < longer.len() implies crate::object::encodable(
                (#[trigger] longer[i]).obj_type,
                None,
            ) by {
                if i < run@.batch.len() {
                    assert(longer[i] == run@.batch[i]);
                }
            }
        }
    }
}

/// The number of entries before the first AI object, if there is one.
pub open spec fn first_ai_object(entries: Seq<Incoming>, k: int) -> bool {
    &&& 0 <= k < entries.len()
    &&& entries[k].inner.obj_type == ObjectType::Task
    &&& forall|i: int|
        0 <= i < k ==> (#[trigger] entries[i]).inner.obj_type != ObjectType::Task
}

/// Whether an encoding stopped when `chunks.len()` entries had been written and `taken` taken
/// up: the header and the chunks were sent, if the sending was open, and hashed; the pack was
/// not finished.
pub open spec fn stopped_behind(
    before: EncoderView,
    after: EncoderView,
    out_before: Seq<Seq<u8>>,
    out_after: Seq<Seq<u8>>,
    taken: int,
    chunks: Seq<Seq<u8>>,
) -> bool {
    let header = header_hashed(before, after);
    &&& read_header(header) == Some((2nat, before.object_number))
    &&& header.len() == 12
    &&& after == EncoderView {
        started: true,
        process_index: (before.process_index + taken) as nat,
        hashed: before.hashed + header + chunks.flatten(),
        offset: before.offset + chunks.flatten().len(),
        ..before
    }
    &&& out_after == if before.pack_open {
        out_before + seq![header] + chunks
    } else {
        out_before
    }
}

/// Whether parallel encoding in batches of `size` ended as it should. It is refused to an
/// encoder with a delta window, which it leaves as it is, and to one that has begun before. Else
/// every entry is stored whole, in the order of arrival. The first AI object is refused when the
/// full batches before it have been sent and nothing of its own. Encoding stops before an object
/// that would end beyond what a machine word holds.
pub open spec fn parallel_ended_right(
    before: EncoderView,
    after: EncoderView,
    entries: Seq<Incoming>,
    size: int,
    out_before: Seq<Seq<u8>>,
    out_after: Seq<Seq<u8>>,
    done: Result<bool, GitError>,
    chunks: Seq<Seq<u8>>,
) -> bool {
    let objects = objects_in(entries);
    if before.window_size > 0 {
        &&& done is Err
        &&& done->Err_0.reason() == "parallel encode only works when window_size == 0"@
        &&& after == before
        &&& out_after == out_before
    } else if before.started {
        &&& done is Err
        &&& done->Err_0.reason() == "encoding operation is already in progress"@
        &&& given_up(before, after, out_before, out_after)
    } else {
        &&& whole_objects(objects, chunks)
        &&& match done {
            Ok(true) => {
                &&& forall|k: int| !first_ai_object(entries, k)
                &&& chunks.len() == entries.len()
                &&& pack_sent(before, after, out_before, out_after, names_of(objects), chunks)
                &&& after.process_index == before.process_index + entries.len()
            },
            Err(error) => exists|k: int|
                {
                    &&& #[trigger] first_ai_object(entries, k)
                    &&& chunks.len() == k - k % size
                    &&& error.reason() == "AI object type `task` cannot be encoded in a pack file"@
                    &&& stopped_behind(before, after, out_before, out_after, k, chunks)
                },
            Ok(false) => exists|taken: int|
                {
                    &&& #[trigger] stopped_behind(
                        before,
                        after,
                        out_before,
                        out_after,
                        taken,
                        chunks,
                    )
                    &&& chunks.len() < taken <= entries.len()
                    &&& after.offset + whole_bytes(
                        entries[chunks.len() as int].inner,
                    ).len() > usize::MAX
                },
        }
    }
}

/// What was written before an encoding stopped.
proof fn lemma_stopped_behind(
    before: EncoderView,
    after: EncoderView,
    entries: Seq<Incoming>,
    m: int,
    k: int,
    idx_entries: Seq<IndexEntry>,
    out_before: Seq<Seq<u8>>,
    out_after: Seq<Seq<u8>>,
) -> (chunks: Seq<Seq<u8>>)
    requires
        before.object_number <= u32::MAX,
        forall|i: int|
            0 <= i < entries.len() ==> kind_number((#[trigger] entries[i]).inner.obj_type) != 0
                || entries[i].inner.obj_type == ObjectType::Task,
        batches_written(
            with_header(before),
            after,
            entries,
            m,
            k,
            idx_entries,
            out_before + sent(before.pack_open, seq![header_bytes(before.object_number)]),
            out_after,
        ),
    ensures
        whole_objects(objects_in(entries), chunks),
        chunks.len() == m,
        stopped_behind(before, after, out_before, out_after, k, chunks),
{
    let header = header_bytes(before.object_number);
    let chunks = whole_bodies(inners(entries.take(m)));
    let objects = objects_in(entries);
    law_header_reads_back(before.object_number, Seq::empty());
    assert(header + Seq::<u8>::empty() =~= header);
    lemma_joined_is_flat(chunks);
    assert(header_hashed(before, after) =~= header);
    if before.pack_open {
        assert(out_after =~= out_before + seq![header] + chunks);
    } else {
        assert(out_after =~= out_before);
    }
    assert forall|i: int| 0 <= i < chunks.len() implies unframed(#[trigger] chunks[i]) == Some(
        (kind_number(objects[i].obj_type), None::<nat>, objects[i].data@),
    ) by {
        assert(entries[i].inner.obj_type.pack_number() is Some);
        assert(kind_number(entries[i].inner.obj_type) != 0);
        law_whole_object_comes_apart(entries[i].inner.obj_type, entries[i].inner.data@);
    }
    chunks
}

/// A whole number of batches and less than one more.
proof fn lemma_batches_before(m: int, k: int, size: int)
    requires
        size > 0,
        0 <= m <= k < m + size,
        m % size == 0,
    ensures
        m == k - k % size,
{
    lemma_fundamental_div_mod(m, size);
    let q = m / size;
    assert(k == q * size + (k - m)) by (nonlinear_arith)
        requires
            m == size * q + 0,
    ;
    lemma_fundamental_div_mod_converse(k, size, q, k - m);
}

/// Parallel encoding ends right.
proof fn lemma_parallel_ended_right(
    before: EncoderView,
    after: EncoderView,
    entries: Seq<Incoming>,
    size: nat,
    out_before: Seq<Seq<u8>>,
    out_after: Seq<Seq<u8>>,
    done: Result<bool, GitError>,
) -> (chunks: Seq<Seq<u8>>)
    requires
        size > 0,
        before.object_number <= u32::MAX,
        forall|i: int|
            0 <= i < entries.len() ==> kind_number((#[trigger] entries[i]).inner.obj_type) != 0
                || entries[i].inner.obj_type == ObjectType::Task,
        parallel_outcome(before, after, entries, size, out_before, out_after, done),
    ensures
        parallel_ended_right(
            before,
            after,
            entries,
            size as int,
            out_before,
            out_after,
            done,
            chunks,
        ),
{
    let begun = with_header(before);
    let header = header_bytes(before.object_number);
    let out_begun = out_before + sent(before.pack_open, seq![header]);
    let objects = objects_in(entries);
    if before.window_size > 0 {
        Seq::empty()
    } else if before.started {
        lemma_given_up(before, after, out_before, out_after);
        Seq::empty()
    } else {
        match done {
            Ok(true) => {
                let all = inners(entries);
                let chunks = whole_bodies(all);
                assert(objects =~= all);
                assert(names_of(objects) =~= entry_hashes(all));
                lemma_pack_sent(
                    before,
                    counted(begun, entries.len() as int),
                    after,
                    out_before,
                    out_after,
                    entry_hashes(all),
                    chunks,
                );
                assert forall|i: int| 0 <= i < chunks.len() implies unframed(
                    #[trigger] chunks[i],
                ) == Some((kind_number(objects[i].obj_type), None::<nat>, objects[i].data@)) by {
                    assert(entries[i].inner.obj_type.pack_number() is Some);
                    assert(kind_number(entries[i].inner.obj_type) != 0);
                    law_whole_object_comes_apart(
                        entries[i].inner.obj_type,
                        entries[i].inner.data@,
                    );
                }
                assert forall|k: int| !first_ai_object(entries, k) by {
                    if first_ai_object(entries, k) {
                        assert(entries[k].inner.obj_type.pack_number() is Some);
                    }
                }
                chunks
            },
            Err(error) => {
                let (k, m, idx_entries) = choose|k: int, m: int, idx_entries: Seq<IndexEntry>|
                    {
                        &&& #[trigger] batches_written(
                            begun,
                            after,
                            entries,
                            m,
                            k,
                            idx_entries,
                            out_begun,
                            out_after,
                        )
                        &&& refused_at(entries, size, k, m, error)
                    };
                let chunks = lemma_stopped_behind(
                    before,
                    after,
                    entries,
                    m,
                    k,
                    idx_entries,
                    out_before,
                    out_after,
                );
                lemma_batches_before(m, k, size as int);
                assert forall|i: int| 0 <= i < k implies (
                #[trigger] entries[i]).inner.obj_type != ObjectType::Task by {
                    assert(entries[i].inner.obj_type.pack_number() is Some);
                }
                assert(first_ai_object(entries, k));
                reveal_strlit("AI object type `");
                reveal_strlit("task");
                reveal_strlit("` cannot be encoded in a pack file");
                reveal_strlit("AI object type `task` cannot be encoded in a pack file");
                assert(error.reason()
                    =~= "AI object type `task` cannot be encoded in a pack file"@);
                chunks
            },
            Ok(false) => {
                let k = choose|k: int| #[trigger]
                    overflowed(begun, after, entries, size, k, out_begun, out_after);
                let (m, idx_entries) = choose|m: int, idx_entries: Seq<IndexEntry>|
                    {
                        &&& #[trigger] batches_written(
                            begun,
                            after,
                            entries,
                            m,
                            k,
                            idx_entries,
                            out_begun,
                            out_after,
                        )
                        &&& m < k <= m + size
                        &&& after.offset + whole_bytes(entries[m].inner).len() > usize::MAX
                    };
                let chunks = lemma_stopped_behind(
                    before,
                    after,
                    entries,
                    m,
                    k,
                    idx_entries,
                    out_before,
                    out_after,
                );
                assert(stopped_behind(before, after, out_before, out_after, k, chunks));
                chunks
            },
        }
    }
}

/// Whether there are chunks by which parallel encoding ended right.
pub open spec fn parallel_ended(
    before: EncoderView,
    after: EncoderView,
    entries: Seq<Incoming>,
    size: int,
    out_before: Seq<Seq<u8>>,
    out_after: Seq<Seq<u8>>,
    done: Result<bool, GitError>,
) -> bool {
    exists|chunks: Seq<Seq<u8>>| #[trigger]
        parallel_ended_right(
            before,
            after,
            entries,
            size,
            out_before,
            out_after,
            done,
            chunks,
        )
}

/// Parallel encoding ends right.
proof fn lemma_parallel_ended(
    before: EncoderView,
    after: EncoderView,
    entries: Seq<Incoming>,
    size: nat,
    out_before: Seq<Seq<u8>>,
    out_after: Seq<Seq<u8>>,
    done: Result<bool, GitError>,
)
    requires
        size > 0,
        before.object_number <= u32::MAX,
        forall|i: int|
            0 <= i < entries.len() ==> kind_number((#[trigger] entries[i]).inner.obj_type) != 0
                || entries[i].inner.obj_type == ObjectType::Task,
        parallel_outcome(before, after, entries, size, out_before, out_after, done),
    ensures
        parallel_ended(before, after, entries, size as int, out_before, out_after, done),
{
    let chunks = lemma_parallel_ended_right(
        before,
        after,
        entries,
        size,
        out_before,
        out_after,
        done,
    );
    assert(parallel_ended_right(
        before,
        after,
        entries,
        size as int,
        out_before,
        out_after,
        done,
        chunks,
    ));
}

/// Parallel encoding ends right, in batches of a tenth of the channel and a thousand at least.
pub proof fn law_encoded_in_parallel(
    encoder: &mut PackEncoder,
    entries: Vec<Incoming>,
    max_capacity: usize,
    out: &mut Vec<Vec<u8>>,
    done: Result<bool, GitError>,
)
    requires
        old(encoder)@.object_number <= u32::MAX,
        forall|i: int|
            0 <= i < entries@.len() ==> kind_number((#[trigger] entries@[i]).inner.obj_type) != 0
                || entries@[i].inner.obj_type == ObjectType::Task,
        call_ensures(
            PackEncoder::parallel_encode,
            (encoder, entries, max_capacity, out),
            done,
        ),
    ensures
        parallel_ended(
            old(encoder)@,
            final(encoder)@,
            entries@,
            tenth_or_thousand(max_capacity),
            chunks_in(*old(out)),
            chunks_in(*final(out)),
            done,
        ),
{
    assert(chunks_in(*old(out)) =~= chunk_views(old(out)@));
    assert(chunks_in(*final(out)) =~= chunk_views(final(out)@));
    lemma_parallel_ended(
        old(encoder)@,
        final(encoder)@,
        entries@,
        batch_of(max_capacity),
        chunk_views(old(out)@),
        chunk_views(final(out)@),
        done,
    );
}

/// Encoding without a delta window is parallel encoding.
pub proof fn law_encoded_without_a_window<
    K,
    R: Fn(&Vec<RateQuery<'_>>, &[u8]) -> Vec<Option<K>>,
    O: Fn(&K, &K) -> RateOrder,
    D: Fn(&[u8], &[u8], bool) -> Vec<u8>,
>(
    encoder: &mut PackEncoder,
    entries: Vec<Incoming>,
    max_capacity: usize,
    rate: &R,
    order: &O,
    diff: &D,
    out: &mut Vec<Vec<u8>>,
    done: Result<bool, GitError>,
)
    requires
        old(encoder)@.window_size == 0,
        old(encoder)@.object_number <= u32::MAX,
        forall|i: int|
            0 <= i < entries@.len() ==> kind_number((#[trigger] entries@[i]).inner.obj_type) != 0
                || entries@[i].inner.obj_type == ObjectType::Task,
        call_ensures(
            PackEncoder::encode::<K, R, O, D>,
            (encoder, entries, max_capacity, rate, order, diff, out),
            done,
        ),
    ensures
        parallel_ended(
            old(encoder)@,
            final(encoder)@,
            entries@,
            tenth_or_thousand(max_capacity),
            chunks_in(*old(out)),
            chunks_in(*final(out)),
            done,
        ),
{
    assert(chunks_in(*old(out)) =~= chunk_views(old(out)@));
    assert(chunks_in(*final(out)) =~= chunk_views(final(out)@));
    lemma_parallel_ended(
        old(encoder)@,
        final(encoder)@,
        entries@,
        batch_of(max_capacity),
        chunk_views(old(out)@),
        chunk_views(final(out)@),
        done,
    );
}

} // verus!
