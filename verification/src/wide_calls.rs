//! What can be called with what, and how one call bears on the next.
#![allow(unused_imports)]
use vstd::prelude::*;

use crate::buckets::Incoming;
use crate::delta::{diffs_all, orders_all, rates_all, reaches_window, try_as_offset_delta};
use crate::encoder::{chunk_views, fresh, EncoderView, IdxRequest, PackEncoder};
use crate::encoder_calls::{as_made, chunks_in};
use crate::error::GitError;
use crate::format::{encode_header, encode_object_header, encode_offset};
use crate::hash::{HashKind, ObjectHash};
use crate::laws::law_parallel_pack_reads_back;
use crate::object::{encodable, encode_one_object, Entry, ObjectType};
use crate::parallel::{all_numbered, batch_of, encode_whole, parallel_ready, reaches_encoder};
use crate::reading::{framed_right, index_reads_as, kind_number, objects_in};
use crate::window::{RateOrder, RateQuery};

verus! {

/// A header can be made for any number of objects from one up to what four bytes hold, a
/// distance from one on, and the header of an object of any length.
pub proof fn law_headers_can_be_made(object_number: usize, value: usize, kind: u8, len: usize)
    requires
        0 < object_number <= u32::MAX,
        value > 0,
        kind < 8,
    ensures
        call_requires(encode_header, (object_number,)),
        call_requires(encode_offset, (value,)),
        call_requires(encode_object_header, (kind, len)),
{
}

/// An object of any kind can be encoded: one of the four kinds and an AI object with or without
/// a distance, and a delta with one.
pub proof fn law_objects_can_be_encoded(entry: &Entry, offset: Option<usize>)
    requires
        kind_number(entry.obj_type) != 0 || entry.obj_type == ObjectType::Task || ((
        entry.obj_type == ObjectType::OffsetDelta || entry.obj_type == ObjectType::OffsetZstdelta)
            && offset is Some && offset->0 > 0),
    ensures
        call_requires(encode_one_object, (entry, offset)),
        kind_number(entry.obj_type) != 0 || entry.obj_type == ObjectType::Task ==> call_requires(
            encode_whole,
            (entry,),
        ),
{
}

/// Any objects of the four kinds can go through a window of any size.
pub proof fn law_buckets_can_be_encoded<
    K,
    R: Fn(&Vec<RateQuery<'_>>, &[u8]) -> Vec<Option<K>>,
    O: Fn(&K, &K) -> RateOrder,
    D: Fn(&[u8], &[u8], bool) -> Vec<u8>,
>(bucket: Vec<Entry>, window_size: usize, zstdelta: bool, rate: &R, order: &O, diff: &D)
    requires
        rates_all(*rate),
        orders_all(*order),
        diffs_all(*diff),
        forall|i: int|
            0 <= i < bucket@.len() ==> kind_number((#[trigger] bucket@[i]).obj_type) != 0
                || bucket@[i].obj_type == ObjectType::Task,
    ensures
        call_requires(
            try_as_offset_delta::<K, R, O, D>,
            (bucket, window_size, zstdelta, rate, order, diff),
        ),
{
    assert forall|i: int| #[trigger] reaches_window(bucket@, i) implies encodable(
        bucket@[i].obj_type,
        None,
    ) by {
        assert(kind_number(bucket@[i].obj_type) != 0 || bucket@[i].obj_type == ObjectType::Task);
    }
}

/// Any entries can be encoded through delta windows, whether the encoder has begun or not.
pub proof fn law_windows_can_be_used<
    K,
    R: Fn(&Vec<RateQuery<'_>>, &[u8]) -> Vec<Option<K>>,
    O: Fn(&K, &K) -> RateOrder,
    D: Fn(&[u8], &[u8], bool) -> Vec<u8>,
>(
    encoder: &mut PackEncoder,
    entries: Vec<Incoming>,
    zstdelta: bool,
    max_capacity: usize,
    rate: &R,
    order: &O,
    diff: &D,
    out: &mut Vec<Vec<u8>>,
)
    requires
        0 < old(encoder)@.object_number <= u32::MAX,
        rates_all(*rate),
        orders_all(*order),
        diffs_all(*diff),
    ensures
        call_requires(
            PackEncoder::inner_encode::<K, R, O, D>,
            (encoder, entries, zstdelta, rate, order, diff, out),
        ),
        call_requires(
            PackEncoder::encode_with_zstdelta::<K, R, O, D>,
            (encoder, entries, rate, order, diff, out),
        ),
        old(encoder)@.window_size > 0 ==> call_requires(
            PackEncoder::encode::<K, R, O, D>,
            (encoder, entries, max_capacity, rate, order, diff, out),
        ),
{
}

/// Whether entries can be encoded in parallel: they are of the four kinds or AI objects, and
/// without an AI object they are as many as the pack is to hold.
pub open spec fn fit_for_parallel(view: EncoderView, entries: Seq<Incoming>) -> bool {
    &&& forall|i: int|
        0 <= i < entries.len() ==> kind_number((#[trigger] entries[i]).inner.obj_type) != 0
            || entries[i].inner.obj_type == ObjectType::Task
    &&& view.process_index + entries.len() <= usize::MAX
    &&& (forall|i: int|
        0 <= i < entries.len() ==> (#[trigger] entries[i]).inner.obj_type != ObjectType::Task)
        ==> view.process_index + entries.len() == view.object_number
}

/// Entries that are fit for it meet what parallel encoding asks for.
pub proof fn lemma_fit_is_ready(view: EncoderView, entries: Seq<Incoming>, size: nat)
    requires
        0 < view.object_number <= u32::MAX,
        fit_for_parallel(view, entries),
    ensures
        parallel_ready(view, entries, size),
{
    assert forall|i: int| #[trigger] reaches_encoder(entries, size, i) implies encodable(
        entries[i].inner.obj_type,
        None,
    ) by {
        assert(kind_number(entries[i].inner.obj_type) != 0 || entries[i].inner.obj_type
            == ObjectType::Task);
    }
    if all_numbered(entries, entries.len() as int) {
        assert forall|i: int| 0 <= i < entries.len() implies (
        #[trigger] entries[i]).inner.obj_type != ObjectType::Task by {
            assert(entries[i].inner.obj_type.pack_number() is Some);
        }
    }
}

/// Entries that are fit for it can be encoded in parallel. An encoder that has begun before or
/// has a delta window can be asked with any entries, and refuses.
pub proof fn law_parallel_encoding_can_be_used<
    K,
    R: Fn(&Vec<RateQuery<'_>>, &[u8]) -> Vec<Option<K>>,
    O: Fn(&K, &K) -> RateOrder,
    D: Fn(&[u8], &[u8], bool) -> Vec<u8>,
>(
    encoder: &mut PackEncoder,
    entries: Vec<Incoming>,
    max_capacity: usize,
    rate: &R,
    order: &O,
    diff: &D,
    out: &mut Vec<Vec<u8>>,
)
    requires
        0 < old(encoder)@.object_number <= u32::MAX,
        fit_for_parallel(old(encoder)@, entries@) || old(encoder)@.started || old(
            encoder,
        )@.window_size > 0,
        rates_all(*rate),
        orders_all(*order),
        diffs_all(*diff),
    ensures
        call_requires(PackEncoder::parallel_encode, (encoder, entries, max_capacity, out)),
        call_requires(
            PackEncoder::encode::<K, R, O, D>,
            (encoder, entries, max_capacity, rate, order, diff, out),
        ),
{
    if fit_for_parallel(old(encoder)@, entries@) {
        lemma_fit_is_ready(old(encoder)@, entries@, batch_of(max_capacity));
    }
}

/// A pack of a new encoder, encoded without a delta window to the end, gives back what went in.
/// It is framed right, and where the index points a reader finds the entries in the order of
/// arrival.
pub proof fn law_pack_without_window_reads_back<
    K,
    R: Fn(&Vec<RateQuery<'_>>, &[u8]) -> Vec<Option<K>>,
    O: Fn(&K, &K) -> RateOrder,
    D: Fn(&[u8], &[u8], bool) -> Vec<u8>,
>(
    object_number: usize,
    kind: HashKind,
    idx_open: bool,
    encoder: &mut PackEncoder,
    entries: Vec<Incoming>,
    max_capacity: usize,
    rate: &R,
    order: &O,
    diff: &D,
    out: &mut Vec<Vec<u8>>,
    patch: spec_fn(nat, Seq<u8>, Seq<u8>) -> Seq<u8>,
)
    requires
        0 < object_number <= u32::MAX,
        as_made(old(encoder)@, object_number, 0, kind, idx_open),
        old(out)@.len() == 0,
        fit_for_parallel(old(encoder)@, entries@),
        call_ensures(
            PackEncoder::encode::<K, R, O, D>,
            (encoder, entries, max_capacity, rate, order, diff, out),
            Ok(true),
        ),
    ensures
        framed_right(chunks_in(*final(out)).flatten(), final(encoder)@),
        final(encoder)@.object_number == object_number,
        entries@.len() == object_number,
        final(encoder)@.idx_entries is Some,
        index_reads_as(
            chunks_in(*final(out)).flatten(),
            final(encoder)@.idx_entries->0,
            objects_in(entries@),
            patch,
        ),
{
    let view = fresh(object_number as nat, 0, kind, idx_open);
    assert(old(encoder)@.hashed =~= Seq::<u8>::empty());
    assert(old(encoder)@ == view);
    assert(chunk_views(old(out)@) =~= Seq::<Seq<u8>>::empty());
    assert(chunks_in(*final(out)) =~= chunk_views(final(out)@));
    lemma_fit_is_ready(view, entries@, batch_of(max_capacity));
    law_parallel_pack_reads_back(
        object_number as nat,
        kind,
        idx_open,
        final(encoder)@,
        entries@,
        batch_of(max_capacity),
        chunk_views(final(out)@),
        patch,
    );
}

/// Encoding happens once. Whatever came of a first call, a second is refused; hash and index
/// stay as they are, and behind a finished pack nothing is sent.
pub proof fn law_encoded_twice<
    K,
    R: Fn(&Vec<RateQuery<'_>>, &[u8]) -> Vec<Option<K>>,
    O: Fn(&K, &K) -> RateOrder,
    D: Fn(&[u8], &[u8], bool) -> Vec<u8>,
>(
    first: &mut PackEncoder,
    entries: Vec<Incoming>,
    max_capacity: usize,
    rate: &R,
    order: &O,
    diff: &D,
    out: &mut Vec<Vec<u8>>,
    done: Result<bool, GitError>,
    second: &mut PackEncoder,
    more: Vec<Incoming>,
    more_out: &mut Vec<Vec<u8>>,
    done_more: Result<bool, GitError>,
    with_zstdelta: bool,
)
    requires
        call_ensures(
            PackEncoder::encode::<K, R, O, D>,
            (first, entries, max_capacity, rate, order, diff, out),
            done,
        ),
        *old(second) == *final(first),
        *old(more_out) == *final(out),
        with_zstdelta ==> call_ensures(
            PackEncoder::encode_with_zstdelta::<K, R, O, D>,
            (second, more, rate, order, diff, more_out),
            done_more,
        ),
        !with_zstdelta ==> call_ensures(
            PackEncoder::encode::<K, R, O, D>,
            (second, more, max_capacity, rate, order, diff, more_out),
            done_more,
        ),
    ensures
        done_more is Err,
        done_more->Err_0.reason() == "encoding operation is already in progress"@,
        final(second)@.final_hash == final(first)@.final_hash,
        final(second)@.idx_entries == final(first)@.idx_entries,
        done == Ok::<bool, GitError>(true) ==> chunks_in(*final(more_out)) == chunks_in(
            *final(out),
        ),
{
    assert(chunks_in(*final(out)) =~= chunk_views(final(out)@));
    assert(chunks_in(*final(more_out)) =~= chunk_views(final(more_out)@));
    assert(chunk_views(final(out)@) + Seq::<Seq<u8>>::empty() =~= chunk_views(final(out)@));
}

/// After an encoding the encoder has a hash, and answers a request for the index, if and only if
/// the encoding reached the end; the index is then that of the pack.
pub proof fn law_hash_and_index_of_a_pack<
    K,
    R: Fn(&Vec<RateQuery<'_>>, &[u8]) -> Vec<Option<K>>,
    O: Fn(&K, &K) -> RateOrder,
    D: Fn(&[u8], &[u8], bool) -> Vec<u8>,
>(
    object_number: usize,
    window_size: usize,
    kind: HashKind,
    encoder: &mut PackEncoder,
    entries: Vec<Incoming>,
    max_capacity: usize,
    rate: &R,
    order: &O,
    diff: &D,
    out: &mut Vec<Vec<u8>>,
    done: Result<bool, GitError>,
    hash: Option<ObjectHash>,
    request: Result<IdxRequest, GitError>,
)
    requires
        as_made(old(encoder)@, object_number, window_size, kind, true),
        call_ensures(
            PackEncoder::encode::<K, R, O, D>,
            (encoder, entries, max_capacity, rate, order, diff, out),
            done,
        ),
        call_ensures(PackEncoder::get_hash, (final(encoder),), hash),
        call_ensures(PackEncoder::encode_idx_file, (final(encoder),), request),
    ensures
        hash is Some <==> done == Ok::<bool, GitError>(true),
        request is Ok <==> done == Ok::<bool, GitError>(true),
        request matches Ok(made) ==> {
            &&& made.object_number == object_number
            &&& hash == Some(made.final_hash)
            &&& final(encoder)@.idx_entries == Some(made.entries@)
        },
{
}

} // verus!
