//! The encoder: what it has sent, hashed and placed so far.
//!
//! The encoder sends nothing itself. Each step appends to a list the chunks that are
//! to be sent, in order.
use vstd::prelude::*;

use crate::error::GitError;
use crate::format::{encode_header, HEADER_LEN};
#[allow(unused_imports)]
use crate::format::header_bytes;
use crate::hash::{copy_bytes, HashAlgorithm, HashKind, ObjectHash};
#[allow(unused_imports)]
use crate::hash::digest;
use crate::object::IndexEntry;

verus! {

/// What an encoder amounts to.
pub ghost struct EncoderView {
    /// The number of objects that the pack is to hold.
    pub object_number: nat,
    /// The number of entries taken up by parallel encoding.
    pub process_index: nat,
    /// The size of the delta window; none if zero.
    pub window_size: nat,
    /// Whether chunks of the pack can still be sent.
    pub pack_open: bool,
    /// Whether chunks of the index can still be sent.
    pub idx_open: bool,
    /// Where the objects of the finished pack stand.
    pub idx_entries: Option<Seq<IndexEntry>>,
    /// The position of the next object.
    pub offset: nat,
    /// The hash function of the pack's checksum.
    pub kind: HashKind,
    /// The bytes that the checksum has taken in.
    pub hashed: Seq<u8>,
    /// The checksum of the finished pack.
    pub final_hash: Option<ObjectHash>,
    /// Whether encoding has begun.
    pub started: bool,
}

/// An encoder that has done nothing yet.
pub open spec fn fresh(
    object_number: nat,
    window_size: nat,
    kind: HashKind,
    idx_open: bool,
) -> EncoderView {
    EncoderView {
        object_number,
        process_index: 0,
        window_size,
        pack_open: true,
        idx_open,
        idx_entries: None,
        offset: HEADER_LEN as nat,
        kind,
        hashed: Seq::empty(),
        final_hash: None,
        started: false,
    }
}

/// The bytes of each chunk.
pub open spec fn chunk_views(chunks: Seq<Vec<u8>>) -> Seq<Seq<u8>> {
    Seq::new(chunks.len(), |i: int| chunks[i]@)
}

/// The chunks one behind the other.
pub open spec fn joined(chunks: Seq<Seq<u8>>) -> Seq<u8>
    decreases chunks.len(),
{
    if chunks.len() == 0 {
        Seq::empty()
    } else {
        joined(chunks.drop_last()) + chunks.last()
    }
}

/// What is sent of the chunks.
pub open spec fn sent(open: bool, chunks: Seq<Seq<u8>>) -> Seq<Seq<u8>> {
    if open {
        chunks
    } else {
        Seq::empty()
    }
}

/// The bytes of each encoded object.
pub open spec fn bodies(res: Seq<(Vec<u8>, IndexEntry)>) -> Seq<Seq<u8>> {
    Seq::new(res.len(), |i: int| res[i].0@)
}

/// The hash of each encoded object.
pub open spec fn hashes(res: Seq<(Vec<u8>, IndexEntry)>) -> Seq<ObjectHash> {
    Seq::new(res.len(), |i: int| res[i].1.hash)
}

/// Where objects stand of which the first is at `offset` and each follows the one
/// before.
pub open spec fn placed(
    hashes: Seq<ObjectHash>,
    bodies: Seq<Seq<u8>>,
    offset: nat,
) -> Seq<IndexEntry> {
    Seq::new(
        bodies.len(),
        |i: int|
            IndexEntry {
                hash: hashes[i],
                offset: (offset + joined(bodies.take(i)).len()) as u64,
            },
    )
}

/// An encoder after the objects were written.
pub open spec fn with_objects(view: EncoderView, bodies: Seq<Seq<u8>>) -> EncoderView {
    EncoderView {
        offset: view.offset + joined(bodies).len(),
        hashed: view.hashed + joined(bodies),
        ..view
    }
}

/// An encoder after its header was written.
pub open spec fn with_header(view: EncoderView) -> EncoderView {
    EncoderView {
        hashed: view.hashed + header_bytes(view.object_number),
        started: true,
        ..view
    }
}

/// Whether `after` is the encoder `before` once its pack was finished with the
/// checksum of all that was hashed.
pub open spec fn sealed(
    before: EncoderView,
    after: EncoderView,
    idx_entries: Seq<IndexEntry>,
) -> bool {
    &&& after.final_hash matches Some(hash)
    &&& hash.spec_kind() == before.kind
    &&& hash@ == digest(before.kind, before.hashed)
    &&& after == EncoderView {
        final_hash: after.final_hash,
        pack_open: false,
        idx_entries: Some(idx_entries),
        ..before
    }
}

/// Whether objects were written to the pack of `before` and the pack was finished
/// behind them: the checksum follows the objects, the index entries say where each
/// object stands, and all of it was sent.
pub open spec fn pack_finished(
    before: EncoderView,
    after: EncoderView,
    hashes: Seq<ObjectHash>,
    bodies: Seq<Seq<u8>>,
    out_before: Seq<Seq<u8>>,
    out_after: Seq<Seq<u8>>,
) -> bool {
    &&& before.offset + joined(bodies).len() <= usize::MAX
    &&& sealed(with_objects(before, bodies), after, placed(hashes, bodies, before.offset))
    &&& out_after == out_before + sent(
        before.pack_open,
        bodies.push(digest(before.kind, before.hashed + joined(bodies))),
    )
}

/// Why a second encoding is refused.
pub open spec fn in_progress_reason() -> Seq<char> {
    "encoding operation is already in progress"@
}

/// What the index of a finished pack is made from.
pub struct IdxRequest {
    /// The number of objects in the pack.
    pub object_number: usize,
    /// The checksum of the pack.
    pub final_hash: ObjectHash,
    /// Where the objects stand.
    pub entries: Vec<IndexEntry>,
}

/// Whether `request` is what the index of the pack is made from: the number of objects,
/// the checksum and the index entries, which there are once the pack is finished.
pub open spec fn idx_generated(view: EncoderView, request: Result<IdxRequest, GitError>) -> bool {
    match (view.final_hash, view.idx_entries) {
        (None, _) => request matches Err(error) && error.reason()
            == "final_hash is missing,The pack file must be generated before the index file is produced."@,
        (Some(_), None) => request matches Err(error) && error.reason()
            == "The pack file must be generated before the index file is produced."@,
        (Some(hash), Some(entries)) => request matches Ok(made) && made.final_hash == hash
            && made.object_number == view.object_number && made.entries@ == entries,
    }
}

/// Why an index is refused when its chunks cannot be sent.
pub open spec fn no_idx_sender_reason() -> Seq<char> {
    "idx sender is none"@
}

/// Whether `request` is what the index is made from, where its chunks can be sent.
pub open spec fn idx_requested(view: EncoderView, request: Result<IdxRequest, GitError>) -> bool {
    if view.idx_open {
        idx_generated(view, request)
    } else {
        request matches Err(error) && error.reason() == no_idx_sender_reason()
    }
}

/// An encoder after the sending of its index came to an end, or failed.
pub open spec fn idx_finished(view: EncoderView, success: bool) -> EncoderView {
    EncoderView { idx_open: view.idx_open && !success, ..view }
}

/// An encoder for pack files with delta objects.
pub struct PackEncoder {
    object_number: usize,
    process_index: usize,
    window_size: usize,
    pack_open: bool,
    idx_open: bool,
    idx_entries: Option<Vec<IndexEntry>>,
    inner_offset: usize,
    inner_hash: HashAlgorithm,
    final_hash: Option<ObjectHash>,
    start_encoding: bool,
}

impl View for PackEncoder {
    type V = EncoderView;

    closed spec fn view(&self) -> EncoderView {
        EncoderView {
            object_number: self.object_number as nat,
            process_index: self.process_index as nat,
            window_size: self.window_size as nat,
            pack_open: self.pack_open,
            idx_open: self.idx_open,
            idx_entries: match self.idx_entries {
                Some(entries) => Some(entries@),
                None => None,
            },
            offset: self.inner_offset as nat,
            kind: self.inner_hash.kind(),
            hashed: self.inner_hash@,
            final_hash: self.final_hash,
            started: self.start_encoding,
        }
    }
}

impl PackEncoder {
    /// An encoder for a pack of `object_number` objects, without an index. A window
    /// of size zero means no deltas, unless zstd deltas are asked for.
    pub fn new(object_number: usize, window_size: usize, hash_kind: HashKind) -> (encoder:
        PackEncoder)
        ensures
            encoder@ == fresh(object_number as nat, window_size as nat, hash_kind, false),
    {
        PackEncoder {
            object_number,
            window_size,
            process_index: 0,
            pack_open: true,
            idx_open: false,
            idx_entries: None,
            // The first object stands behind the header.
            inner_offset: HEADER_LEN,
            inner_hash: HashAlgorithm::new(hash_kind),
            final_hash: None,
            start_encoding: false,
        }
    }

    /// An encoder for a pack of `object_number` objects, and for its index.
    pub fn new_with_idx(object_number: usize, window_size: usize, hash_kind: HashKind) -> (encoder:
        PackEncoder)
        ensures
            encoder@ == fresh(object_number as nat, window_size as nat, hash_kind, true),
    {
        PackEncoder {
            object_number,
            window_size,
            process_index: 0,
            pack_open: true,
            idx_open: true,
            idx_entries: None,
            inner_offset: HEADER_LEN,
            inner_hash: HashAlgorithm::new(hash_kind),
            final_hash: None,
            start_encoding: false,
        }
    }

    /// Ends the sending of pack chunks.
    pub fn drop_sender(&mut self)
        ensures
            final(self)@ == (EncoderView { pack_open: false, ..old(self)@ }),
    {
        self.pack_open = false;
    }

    /// Sends a chunk of the pack, unless the sending has ended.
    pub fn send_data(&self, data: Vec<u8>, out: &mut Vec<Vec<u8>>)
        ensures
            chunk_views(final(out)@) == chunk_views(old(out)@) + sent(
                self@.pack_open,
                seq![data@],
            ),
    {
        let ghost before = chunk_views(out@);
        if self.pack_open {
            out.push(data);
            assert(chunk_views(out@) =~= before + seq![data@]);
        } else {
            assert(before + Seq::<Seq<u8>>::empty() =~= before);
        }
    }

    /// The hash of the pack; `None` while the pack is not finished.
    pub fn get_hash(&self) -> (hash: Option<ObjectHash>)
        ensures
            hash == self@.final_hash,
    {
        self.final_hash
    }

    /// The size of the delta window.
    pub fn window_size(&self) -> (size: usize)
        ensures
            size == self@.window_size,
    {
        self.window_size
    }

    /// The number of objects that the pack is to hold.
    pub fn object_number(&self) -> (number: usize)
        ensures
            number == self@.object_number,
    {
        self.object_number
    }

    /// The number of entries taken up by parallel encoding.
    pub fn process_index(&self) -> (index: usize)
        ensures
            index == self@.process_index,
    {
        self.process_index
    }

    /// Counts one more entry as taken up by parallel encoding.
    pub(crate) fn count_entry(&mut self)
        requires
            old(self)@.process_index < usize::MAX,
        ensures
            final(self)@ == (EncoderView {
                process_index: old(self)@.process_index + 1,
                ..old(self)@
            }),
    {
        self.process_index = self.process_index + 1;
    }

    /// Sends and hashes the header. Encoding begins once only: after that the header
    /// is followed by a refusal.
    pub fn begin(&mut self, out: &mut Vec<Vec<u8>>) -> (begun: Result<(), GitError>)
        requires
            0 < old(self)@.object_number <= u32::MAX,
        ensures
            final(self)@ == with_header(old(self)@),
            chunk_views(final(out)@) == chunk_views(old(out)@) + sent(
                old(self)@.pack_open,
                seq![header_bytes(old(self)@.object_number)],
            ),
            begun is Err <==> old(self)@.started,
            begun matches Err(error) ==> error.reason() == in_progress_reason(),
    {
        let head: Vec<u8> = encode_header(self.object_number);
        self.inner_hash.update(head.as_slice());
        self.send_data(head, out);
        if self.start_encoding {
            return Err(GitError::pack_encode("encoding operation is already in progress"));
        }
        self.start_encoding = true;
        Ok(())
    }

    /// Whether `len` more bytes can be placed before positions grow beyond what a
    /// machine word holds.
    pub fn has_room(&self, len: usize) -> (room: bool)
        ensures
            room == (self@.offset + len <= usize::MAX),
    {
        len <= usize::MAX - self.inner_offset
    }

    /// Positions are machine words.
    pub proof fn lemma_offset_is_word(&self)
        ensures
            self@.offset <= usize::MAX,
    {
    }

    /// Sends data of the pack, hashes it, and moves the position on.
    pub fn write_all_and_update(&mut self, data: &[u8], out: &mut Vec<Vec<u8>>)
        requires
            old(self)@.offset + data@.len() <= usize::MAX,
        ensures
            final(self)@ == (EncoderView {
                offset: old(self)@.offset + data@.len(),
                hashed: old(self)@.hashed + data@,
                ..old(self)@
            }),
            chunk_views(final(out)@) == chunk_views(old(out)@) + sent(
                old(self)@.pack_open,
                seq![data@],
            ),
    {
        self.inner_hash.update(data);
        self.inner_offset = self.inner_offset + data.len();
        self.send_data(copy_bytes(data), out);
    }

    /// Writes an encoded object and notes where it stands.
    pub fn write_object(
        &mut self,
        object: &(Vec<u8>, IndexEntry),
        idx_entries: &mut Vec<IndexEntry>,
        out: &mut Vec<Vec<u8>>,
    )
        requires
            old(self)@.offset + object.0@.len() <= usize::MAX,
        ensures
            final(self)@ == with_objects(old(self)@, seq![object.0@]),
            final(idx_entries)@ == old(idx_entries)@.push(
                IndexEntry { hash: object.1.hash, offset: old(self)@.offset as u64 },
            ),
            chunk_views(final(out)@) == chunk_views(old(out)@) + sent(
                old(self)@.pack_open,
                seq![object.0@],
            ),
    {
        proof {
            lemma_joined_one(object.0@);
        }
        let offset: u64 = self.inner_offset as u64;
        self.write_all_and_update(object.0.as_slice(), out);
        idx_entries.push(IndexEntry { hash: object.1.hash, offset });
    }

    /// Writes encoded objects one behind the other and notes where they stand.
    pub fn write_objects(
        &mut self,
        res: &Vec<(Vec<u8>, IndexEntry)>,
        idx_entries: &mut Vec<IndexEntry>,
        out: &mut Vec<Vec<u8>>,
    )
        requires
            old(self)@.offset + joined(bodies(res@)).len() <= usize::MAX,
        ensures
            final(self)@ == with_objects(old(self)@, bodies(res@)),
            final(idx_entries)@ == old(idx_entries)@ + placed(
                hashes(res@),
                bodies(res@),
                old(self)@.offset,
            ),
            chunk_views(final(out)@) == chunk_views(old(out)@) + sent(
                old(self)@.pack_open,
                bodies(res@),
            ),
    {
        let ghost before = self@;
        let ghost entries_before = idx_entries@;
        let ghost out_before = chunk_views(out@);
        let ghost all = bodies(res@);
        proof {
            assert(all.take(0) =~= Seq::<Seq<u8>>::empty());
            assert(before.hashed + Seq::<u8>::empty() =~= before.hashed);
            assert(out_before + sent(before.pack_open, all.take(0)) =~= out_before);
        }
        for i in 0..res.len()
            invariant
                all == bodies(res@),
                before.offset + joined(all).len() <= usize::MAX,
                self@ == with_objects(before, all.take(i as int)),
                idx_entries@ =~= entries_before + placed(
                    hashes(res@),
                    all,
                    before.offset,
                ).take(i as int),
                chunk_views(out@) == out_before + sent(before.pack_open, all.take(i as int)),
        {
            proof {
                lemma_joined_step(all, i as int);
                lemma_joined_front(all, i + 1);
                lemma_joined_one(all[i as int]);
                assert(before.hashed + joined(all.take(i as int)) + joined(seq![all[i as int]])
                    =~= before.hashed + joined(all.take(i + 1)));
                assert(sent(before.pack_open, all.take(i as int)) + sent(
                    before.pack_open,
                    seq![all[i as int]],
                ) =~= sent(before.pack_open, all.take(i + 1)));
            }
            self.write_object(&res[i], idx_entries, out);
        }
        assert(all.take(all.len() as int) =~= all);
    }

    /// Finishes the pack: sends the checksum of all that was hashed, and ends the
    /// sending.
    pub fn seal(&mut self, idx_entries: Vec<IndexEntry>, out: &mut Vec<Vec<u8>>)
        ensures
            sealed(old(self)@, final(self)@, idx_entries@),
            chunk_views(final(out)@) == chunk_views(old(out)@) + sent(
                old(self)@.pack_open,
                seq![digest(old(self)@.kind, old(self)@.hashed)],
            ),
    {
        self.idx_entries = Some(idx_entries);
        let hash: ObjectHash = self.inner_hash.finalize();
        self.final_hash = Some(hash);
        self.send_data(hash.to_vec(), out);
        self.drop_sender();
    }

    /// What the index is made from, once the pack is finished.
    pub fn generate_idx_file(&self) -> (request: Result<IdxRequest, GitError>)
        ensures
            idx_generated(self@, request),
    {
        let final_hash: ObjectHash = match self.final_hash {
            Some(hash) => hash,
            None => {
                return Err(
                    GitError::pack_encode(
                        "final_hash is missing,The pack file must be generated before the index file is produced.",
                    ),
                );
            },
        };
        match &self.idx_entries {
            Some(entries) => Ok(
                IdxRequest {
                    object_number: self.object_number,
                    final_hash,
                    entries: copy_entries(entries),
                },
            ),
            None => Err(
                GitError::pack_encode(
                    "The pack file must be generated before the index file is produced.",
                ),
            ),
        }
    }

    /// What the index is made from, where there is one to be made and the pack is
    /// finished. The index is then made and sent, and `finish_idx_file` told how that went.
    pub fn encode_idx_file(&self) -> (request: Result<IdxRequest, GitError>)
        ensures
            idx_requested(self@, request),
    {
        if !self.idx_open {
            return Err(GitError::pack_encode("idx sender is none"));
        }
        self.generate_idx_file()
    }

    /// Hands on how the sending of the index went. Once it succeeded, the sending of index
    /// chunks ends, so that their consumer can finish and no second index is made.
    pub fn finish_idx_file<E>(&mut self, sent: Result<(), E>) -> (outcome: Result<(), E>)
        ensures
            outcome == sent,
            final(self)@ == idx_finished(old(self)@, sent is Ok),
    {
        if sent.is_ok() {
            self.idx_open = false;
        }
        sent
    }
}

/// A vector with the same index entries.
fn copy_entries(entries: &Vec<IndexEntry>) -> (copy: Vec<IndexEntry>)
    ensures
        copy@ == entries@,
{
    let mut copy: Vec<IndexEntry> = Vec::with_capacity(entries.len());
    for i in 0..entries.len()
        invariant
            copy@ == entries@.take(i as int),
    {
        copy.push(entries[i]);
    }
    assert(entries@.take(entries@.len() as int) =~= entries@);
    copy
}

/// One chunk joined is the chunk.
pub proof fn lemma_joined_one(chunk: Seq<u8>)
    ensures
        joined(seq![chunk]) == chunk,
{
    reveal_with_fuel(joined, 2);
    assert(seq![chunk].drop_last() =~= Seq::<Seq<u8>>::empty());
    assert(joined(seq![chunk]) =~= chunk);
}

/// A front of the chunks with one chunk more.
pub proof fn lemma_joined_step(chunks: Seq<Seq<u8>>, i: int)
    requires
        0 <= i < chunks.len(),
    ensures
        joined(chunks.take(i + 1)) == joined(chunks.take(i)) + chunks[i],
        chunks.take(i + 1) == chunks.take(i).push(chunks[i]),
{
    assert(chunks.take(i + 1) =~= chunks.take(i).push(chunks[i]));
    assert(chunks.take(i + 1).drop_last() =~= chunks.take(i));
}

/// A front of the chunks is no longer than all of them.
pub proof fn lemma_joined_front(chunks: Seq<Seq<u8>>, i: int)
    requires
        0 <= i <= chunks.len(),
    ensures
        joined(chunks.take(i)).len() <= joined(chunks).len(),
    decreases chunks.len() - i,
{
    if i < chunks.len() {
        lemma_joined_step(chunks, i);
        lemma_joined_front(chunks, i + 1);
    } else {
        assert(chunks.take(i) =~= chunks);
    }
}

/// Two lists of chunks joined.
pub proof fn lemma_joined_concat(a: Seq<Seq<u8>>, b: Seq<Seq<u8>>)
    ensures
        joined(a + b) == joined(a) + joined(b),
    decreases b.len(),
{
    if b.len() == 0 {
        assert(a + b =~= a);
        assert(joined(a) + joined(b) =~= joined(a));
    } else {
        lemma_joined_concat(a, b.drop_last());
        assert((a + b).drop_last() =~= a + b.drop_last());
        assert(joined(a + b) =~= joined(a) + joined(b));
    }
}

} // verus!
