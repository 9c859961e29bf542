//! What calls of the encoder come to, step by step.
#![allow(unused_imports)]
use vstd::prelude::*;

use crate::encoder::{
    bodies, chunk_views, lemma_joined_one, sent, EncoderView, IdxRequest, PackEncoder,
};
use crate::error::GitError;
use crate::format::encode_header;
use crate::hash::{sha1_digest, sha256_digest, HashKind, ObjectHash};
use crate::object::IndexEntry;
use crate::reading::lemma_joined_is_flat;

verus! {

/// The bytes of each chunk of a list.
pub open spec fn chunks_in(out: Vec<Vec<u8>>) -> Seq<Seq<u8>> {
    Seq::new(out@.len(), |i: int| out@[i]@)
}

/// Whether chunks were added to the end of a list, if the sending was open, and else nothing.
pub open spec fn sent_behind(
    open: bool,
    before: Vec<Vec<u8>>,
    after: Vec<Vec<u8>>,
    chunks: Seq<Seq<u8>>,
) -> bool {
    chunks_in(after) == if open {
        chunks_in(before) + chunks
    } else {
        chunks_in(before)
    }
}

/// Chunks that were sent stand behind those before.
pub proof fn lemma_sent_behind(
    open: bool,
    before: Vec<Vec<u8>>,
    after: Vec<Vec<u8>>,
    chunks: Seq<Seq<u8>>,
)
    requires
        chunk_views(after@) == chunk_views(before@) + sent(open, chunks),
    ensures
        sent_behind(open, before, after, chunks),
{
    assert(chunks_in(after) =~= chunk_views(after@));
    assert(chunks_in(before) =~= chunk_views(before@));
    assert(chunk_views(before@) + Seq::<Seq<u8>>::empty() =~= chunk_views(before@));
}

/// Whether an encoder is as it was made: nothing has been sent, hashed or encoded, and the
/// first object will stand behind the twelve bytes of the header.
pub open spec fn as_made(
    view: EncoderView,
    object_number: usize,
    window_size: usize,
    kind: HashKind,
    idx_open: bool,
) -> bool {
    &&& view.object_number == object_number
    &&& view.window_size == window_size
    &&& view.kind == kind
    &&& view.idx_open == idx_open
    &&& view.pack_open
    &&& !view.started
    &&& view.process_index == 0
    &&& view.offset == 12
    &&& view.hashed.len() == 0
    &&& view.final_hash is None
    &&& view.idx_entries is None
}

/// A new encoder has done nothing yet, and has an index only if it was made with one.
pub proof fn law_new_encoder(
    object_number: usize,
    window_size: usize,
    kind: HashKind,
    encoder: PackEncoder,
    encoder_with_idx: PackEncoder,
)
    requires
        call_ensures(PackEncoder::new, (object_number, window_size, kind), encoder),
        call_ensures(
            PackEncoder::new_with_idx,
            (object_number, window_size, kind),
            encoder_with_idx,
        ),
    ensures
        as_made(encoder@, object_number, window_size, kind, false),
        as_made(encoder_with_idx@, object_number, window_size, kind, true),
{
}

/// What an encoder says of itself.
pub proof fn law_encoder_says(
    encoder: &PackEncoder,
    hash: Option<ObjectHash>,
    size: usize,
    number: usize,
    index: usize,
    len: usize,
    room: bool,
)
    requires
        call_ensures(PackEncoder::get_hash, (encoder,), hash),
        call_ensures(PackEncoder::window_size, (encoder,), size),
        call_ensures(PackEncoder::object_number, (encoder,), number),
        call_ensures(PackEncoder::process_index, (encoder,), index),
        call_ensures(PackEncoder::has_room, (encoder, len), room),
    ensures
        hash == encoder@.final_hash,
        size == encoder@.window_size,
        number == encoder@.object_number,
        index == encoder@.process_index,
        room <==> encoder@.offset + len <= usize::MAX,
{
}

/// A chunk is sent behind those before. Once the sender was dropped, nothing is sent.
pub proof fn law_chunks_are_sent_until_the_sender_is_dropped(
    encoder: &PackEncoder,
    data: Vec<u8>,
    out: &mut Vec<Vec<u8>>,
    dropped: &mut PackEncoder,
    later_data: Vec<u8>,
    later_out: &mut Vec<Vec<u8>>,
)
    requires
        call_ensures(PackEncoder::send_data, (encoder, data, out), ()),
        *old(dropped) == *encoder,
        call_ensures(PackEncoder::drop_sender, (dropped,), ()),
        *old(later_out) == *final(out),
        call_ensures(PackEncoder::send_data, (final(dropped), later_data, later_out), ()),
    ensures
        sent_behind(encoder@.pack_open, *old(out), *final(out), seq![data@]),
        final(dropped)@ == (EncoderView { pack_open: false, ..encoder@ }),
        chunks_in(*final(later_out)) == chunks_in(*final(out)),
{
    lemma_sent_behind(encoder@.pack_open, *old(out), *final(out), seq![data@]);
    lemma_sent_behind(false, *old(later_out), *final(later_out), seq![later_data@]);
}

/// Encoding begins with the header, which is sent and hashed and is not counted in the position
/// of objects. A second beginning is refused, behind a header of its own.
pub proof fn law_begun(
    encoder: &mut PackEncoder,
    out: &mut Vec<Vec<u8>>,
    begun: Result<(), GitError>,
    number: usize,
    header: Vec<u8>,
)
    requires
        call_ensures(PackEncoder::begin, (encoder, out), begun),
        number == old(encoder)@.object_number,
        call_ensures(encode_header, (number,), header),
    ensures
        final(encoder)@ == (EncoderView {
            started: true,
            hashed: old(encoder)@.hashed + header@,
            ..old(encoder)@
        }),
        sent_behind(old(encoder)@.pack_open, *old(out), *final(out), seq![header@]),
        begun is Err <==> old(encoder)@.started,
        begun is Err ==> begun->Err_0.reason() == "encoding operation is already in progress"@,
{
    lemma_sent_behind(old(encoder)@.pack_open, *old(out), *final(out), seq![header@]);
}

/// Data that is written is sent and hashed, and moves the position on by its length.
pub proof fn law_written_data(encoder: &mut PackEncoder, data: &[u8], out: &mut Vec<Vec<u8>>)
    requires
        call_ensures(PackEncoder::write_all_and_update, (encoder, data, out), ()),
    ensures
        final(encoder)@ == (EncoderView {
            offset: old(encoder)@.offset + data@.len(),
            hashed: old(encoder)@.hashed + data@,
            ..old(encoder)@
        }),
        sent_behind(old(encoder)@.pack_open, *old(out), *final(out), seq![data@]),
{
    lemma_sent_behind(old(encoder)@.pack_open, *old(out), *final(out), seq![data@]);
}

/// An object that is written is noted with its hash and the position where it begins.
pub proof fn law_written_object(
    encoder: &mut PackEncoder,
    object: &(Vec<u8>, IndexEntry),
    idx_entries: &mut Vec<IndexEntry>,
    out: &mut Vec<Vec<u8>>,
)
    requires
        call_ensures(PackEncoder::write_object, (encoder, object, idx_entries, out), ()),
    ensures
        final(encoder)@ == (EncoderView {
            offset: old(encoder)@.offset + object.0@.len(),
            hashed: old(encoder)@.hashed + object.0@,
            ..old(encoder)@
        }),
        final(idx_entries)@ == old(idx_entries)@.push(
            IndexEntry { hash: object.1.hash, offset: old(encoder)@.offset as u64 },
        ),
        sent_behind(old(encoder)@.pack_open, *old(out), *final(out), seq![object.0@]),
{
    lemma_joined_one(object.0@);
    lemma_sent_behind(old(encoder)@.pack_open, *old(out), *final(out), seq![object.0@]);
}

/// Objects that are written follow one behind the other, a chunk for each. Each is noted with
/// its hash and the position behind all bytes before it.
pub proof fn law_written_objects(
    encoder: &mut PackEncoder,
    res: &Vec<(Vec<u8>, IndexEntry)>,
    idx_entries: &mut Vec<IndexEntry>,
    out: &mut Vec<Vec<u8>>,
    i: int,
)
    requires
        call_ensures(PackEncoder::write_objects, (encoder, res, idx_entries, out), ()),
        0 <= i < res@.len(),
    ensures
        ({
            let chunks = Seq::new(res@.len(), |k: int| res@[k].0@);
            &&& final(encoder)@ == EncoderView {
                offset: old(encoder)@.offset + chunks.flatten().len(),
                hashed: old(encoder)@.hashed + chunks.flatten(),
                ..old(encoder)@
            }
            &&& sent_behind(old(encoder)@.pack_open, *old(out), *final(out), chunks)
            &&& final(idx_entries)@.len() == old(idx_entries)@.len() + res@.len()
            &&& final(idx_entries)@.take(old(idx_entries)@.len() as int) == old(idx_entries)@
            &&& final(idx_entries)@[old(idx_entries)@.len() + i] == IndexEntry {
                hash: res@[i].1.hash,
                offset: (old(encoder)@.offset + chunks.take(i).flatten().len()) as u64,
            }
        }),
{
    let chunks = Seq::new(res@.len(), |k: int| res@[k].0@);
    assert(chunks =~= bodies(res@));
    lemma_joined_is_flat(chunks);
    lemma_joined_is_flat(chunks.take(i));
    lemma_sent_behind(old(encoder)@.pack_open, *old(out), *final(out), chunks);
    assert(final(idx_entries)@.take(old(idx_entries)@.len() as int) =~= old(idx_entries)@);
}

/// A pack is finished with the checksum of all that was hashed, under the hash function of the
/// encoder. It is sent, is the hash of the pack from then on, and nothing is sent behind it.
pub proof fn law_sealed_pack(
    encoder: &mut PackEncoder,
    idx_entries: Vec<IndexEntry>,
    out: &mut Vec<Vec<u8>>,
)
    requires
        call_ensures(PackEncoder::seal, (encoder, idx_entries, out), ()),
    ensures
        final(encoder)@.final_hash is Some,
        match (old(encoder)@.kind, final(encoder)@.final_hash->0) {
            (HashKind::Sha1, ObjectHash::Sha1(sum)) => {
                &&& sum@ == sha1_digest(old(encoder)@.hashed)
                &&& sent_behind(old(encoder)@.pack_open, *old(out), *final(out), seq![sum@])
            },
            (HashKind::Sha256, ObjectHash::Sha256(sum)) => {
                &&& sum@ == sha256_digest(old(encoder)@.hashed)
                &&& sent_behind(old(encoder)@.pack_open, *old(out), *final(out), seq![sum@])
            },
            _ => false,
        },
        final(encoder)@ == (EncoderView {
            final_hash: final(encoder)@.final_hash,
            idx_entries: Some(idx_entries@),
            pack_open: false,
            ..old(encoder)@
        }),
{
    lemma_sent_behind(
        old(encoder)@.pack_open,
        *old(out),
        *final(out),
        seq![final(encoder)@.final_hash->0@],
    );
}

/// What the index is made from is the number of objects, the hash and the index entries of the
/// pack. Without a hash there is none, nor without index entries, nor for an encoder whose
/// index cannot be sent, and each of these is told apart.
pub proof fn law_requested_index(
    encoder: &PackEncoder,
    generated: Result<IdxRequest, GitError>,
    request: Result<IdxRequest, GitError>,
)
    requires
        call_ensures(PackEncoder::generate_idx_file, (encoder,), generated),
        call_ensures(PackEncoder::encode_idx_file, (encoder,), request),
    ensures
        generated is Ok <==> encoder@.final_hash is Some && encoder@.idx_entries is Some,
        generated matches Ok(made) ==> {
            &&& made.object_number == encoder@.object_number
            &&& Some(made.final_hash) == encoder@.final_hash
            &&& Some(made.entries@) == encoder@.idx_entries
        },
        encoder@.final_hash is None ==> generated->Err_0.reason()
            == "final_hash is missing,The pack file must be generated before the index file is produced."@,
        encoder@.final_hash is Some && encoder@.idx_entries is None
            ==> generated->Err_0.reason()
            == "The pack file must be generated before the index file is produced."@,
        request is Ok <==> encoder@.idx_open && generated is Ok,
        request matches Ok(made) ==> {
            &&& made.object_number == encoder@.object_number
            &&& Some(made.final_hash) == encoder@.final_hash
            &&& Some(made.entries@) == encoder@.idx_entries
        },
        !encoder@.idx_open ==> request->Err_0.reason() == "idx sender is none"@,
        encoder@.idx_open && generated is Err ==> request->Err_0.reason()
            == generated->Err_0.reason(),
{
}

/// How the sending of the index went is handed on. Once it succeeded, a further request is
/// refused; nothing else changes.
pub proof fn law_finished_index<E>(
    encoder: &mut PackEncoder,
    sent: Result<(), E>,
    outcome: Result<(), E>,
    request: Result<IdxRequest, GitError>,
)
    requires
        call_ensures(PackEncoder::finish_idx_file::<E>, (encoder, sent), outcome),
        call_ensures(PackEncoder::encode_idx_file, (final(encoder),), request),
    ensures
        outcome == sent,
        final(encoder)@ == (EncoderView {
            idx_open: old(encoder)@.idx_open && sent is Err,
            ..old(encoder)@
        }),
        sent is Ok ==> request is Err && request->Err_0.reason() == "idx sender is none"@,
{
}

} // verus!
