//! Encoding a pack without deltas, batch by batch, the objects of a batch in
//! parallel.
use rayon::iter::{IntoParallelRefIterator, ParallelIterator};
#[allow(unused_imports)]
use vstd::arithmetic::div_mod::{
    lemma_fundamental_div_mod, lemma_fundamental_div_mod_converse, lemma_mod_add_multiples_vanish,
};
#[allow(unused_imports)]
use vstd::arithmetic::mul::{
    lemma_mul_is_commutative, lemma_mul_is_distributive_add_other_way,
};
use vstd::prelude::*;

use crate::buckets::Incoming;
use crate::encoder::PackEncoder;
#[allow(unused_imports)]
use crate::encoder::{
    bodies, chunk_views, hashes, in_progress_reason, joined, lemma_joined_concat, lemma_joined_one,
    lemma_joined_step, pack_finished, placed, sealed, sent, with_header, with_objects, EncoderView,
};
use crate::error::GitError;
#[allow(unused_imports)]
use crate::format::header_bytes;
#[allow(unused_imports)]
use crate::hash::{digest, ObjectHash};
use crate::object::{encode_one_object, Entry, IndexEntry, ObjectType};
#[allow(unused_imports)]
use crate::object::{encodable, object_bytes, unnumbered_reason, zlib_round_trips};

verus! {

/// A batch never has fewer objects than this, but for the last.
pub const MIN_PROCESS_NUMBER: usize = 1000;

/// A batch never has fewer objects than this part of what the channel of entries can
/// hold, but for the last.
pub const CHANNEL_CONTENT: usize = 10;

/// Why an AI object is refused.
pub open spec fn ai_reason(obj_type: ObjectType) -> Seq<char> {
    "AI object type `"@ + obj_type.spec_name() + "` cannot be encoded in a pack file"@
}

/// Why parallel encoding is refused to an encoder with a delta window.
pub open spec fn has_window_reason() -> Seq<char> {
    "parallel encode only works when window_size == 0"@
}

/// Whether an object was encoded whole, or refused for want of a type number.
pub open spec fn encoded_whole(
    entry: Entry,
    encoded: Result<(Vec<u8>, IndexEntry), GitError>,
) -> bool {
    match entry.obj_type.pack_number() {
        Some(_) => {
            &&& encoded matches Ok(object)
            &&& object.0@ == whole_bytes(entry)
            &&& object.1.hash == entry.hash
            &&& object.1.offset == 0
            &&& zlib_round_trips(entry.data@)
        },
        None => encoded matches Err(error) && error.reason() == unnumbered_reason(entry.obj_type),
    }
}

/// The bytes of an object that is stored whole.
pub open spec fn whole_bytes(entry: Entry) -> Seq<u8> {
    object_bytes(entry.obj_type, entry.data@, None)
}

/// The bytes of each object, stored whole.
pub open spec fn whole_bodies(entries: Seq<Entry>) -> Seq<Seq<u8>> {
    Seq::new(entries.len(), |i: int| whole_bytes(entries[i]))
}

/// The hash of each object.
pub open spec fn entry_hashes(entries: Seq<Entry>) -> Seq<ObjectHash> {
    Seq::new(entries.len(), |i: int| entries[i].hash)
}

/// The entries without what is known of them beside.
pub open spec fn inners(entries: Seq<Incoming>) -> Seq<Entry> {
    Seq::new(entries.len(), |i: int| entries[i].inner)
}

/// The encoded objects of results that are not refusals.
pub open spec fn objects_of(
    batch: Seq<Result<(Vec<u8>, IndexEntry), GitError>>,
) -> Seq<(Vec<u8>, IndexEntry)> {
    Seq::new(batch.len(), |i: int| batch[i]->Ok_0)
}

/// The number of objects in a batch, given how many entries the channel can hold.
pub fn batch_size(max_capacity: usize) -> (size: usize)
    ensures
        size == (if max_capacity / CHANNEL_CONTENT > MIN_PROCESS_NUMBER {
            max_capacity / CHANNEL_CONTENT
        } else {
            MIN_PROCESS_NUMBER
        }),
{
    let share: usize = max_capacity / CHANNEL_CONTENT;
    if share > MIN_PROCESS_NUMBER {
        share
    } else {
        MIN_PROCESS_NUMBER
    }
}

/// Encodes an object whole, with an index entry whose position is still to be set.
pub fn encode_whole(entry: &Entry) -> (encoded: Result<(Vec<u8>, IndexEntry), GitError>)
    requires
        encodable(entry.obj_type, None),
    ensures
        encoded_whole(*entry, encoded),
{
    match encode_one_object(entry, None) {
        Ok(bytes) => Ok((bytes, IndexEntry::new(entry, 0))),
        Err(error) => Err(error),
    }
}

/// Maps `encode_whole` over the entries with rayon's `par_iter`, `map` and `collect`.
/// The contract says that collecting an indexed parallel iterator into a vector puts
/// at each place what the function gave for the entry at that place.
#[verifier::external_body]
fn encode_batch(entries: &Vec<Entry>) -> (batch: Vec<Result<(Vec<u8>, IndexEntry), GitError>>)
    requires
        forall|i: int|
            0 <= i < entries@.len() ==> encodable((#[trigger] entries@[i]).obj_type, None),
    ensures
        batch@.len() == entries@.len(),
        forall|i: int|
            0 <= i < entries@.len() ==> #[trigger] encoded_whole(entries@[i], batch@[i]),
{
    entries.par_iter().map(|entry| encode_whole(entry)).collect()
}

/// How far results were written: the first `count` of them, in order.
pub open spec fn written(
    before: EncoderView,
    after: EncoderView,
    objects: Seq<(Vec<u8>, IndexEntry)>,
    count: int,
    idx_before: Seq<IndexEntry>,
    idx_after: Seq<IndexEntry>,
    out_before: Seq<Seq<u8>>,
    out_after: Seq<Seq<u8>>,
) -> bool {
    let front = objects.take(count);
    &&& 0 <= count <= objects.len()
    &&& after == with_objects(before, bodies(front))
    &&& idx_after == idx_before + placed(hashes(front), bodies(front), before.offset)
    &&& out_after == out_before + sent(before.pack_open, bodies(front))
}

impl PackEncoder {
    /// Begins parallel encoding, which an encoder with a delta window refuses.
    pub fn begin_parallel(&mut self, out: &mut Vec<Vec<u8>>) -> (begun: Result<(), GitError>)
        requires
            old(self)@.window_size == 0 ==> 0 < old(self)@.object_number <= u32::MAX,
        ensures
            begun is Err <==> old(self)@.window_size != 0 || old(self)@.started,
            old(self)@.window_size != 0 ==> {
                &&& final(self)@ == old(self)@
                &&& final(out)@ == old(out)@
                &&& begun->Err_0.reason() == has_window_reason()
            },
            old(self)@.window_size == 0 ==> {
                &&& final(self)@ == with_header(old(self)@)
                &&& chunk_views(final(out)@) == chunk_views(old(out)@) + sent(
                    old(self)@.pack_open,
                    seq![header_bytes(old(self)@.object_number)],
                )
                &&& begun is Err ==> begun->Err_0.reason() == in_progress_reason()
            },
    {
        if self.window_size() != 0 {
            return Err(GitError::pack_encode("parallel encode only works when window_size == 0"));
        }
        self.begin(out)
    }

    /// Takes up an entry, unless it is an AI object.
    pub fn take_entry(&mut self, entry: Incoming) -> (taken: Result<Entry, GitError>)
        requires
            entry.inner.obj_type.pack_number() is Some ==> old(self)@.process_index < usize::MAX,
        ensures
            match entry.inner.obj_type.pack_number() {
                Some(_) => taken == Ok::<Entry, GitError>(entry.inner) && final(self)@ == (
                EncoderView { process_index: old(self)@.process_index + 1, ..old(self)@ }),
                None => taken is Err && taken->Err_0.reason() == ai_reason(
                    entry.inner.obj_type,
                ) && final(self)@ == old(self)@,
            },
    {
        if entry.inner.obj_type.is_ai_object() {
            return Err(
                GitError::pack_encode_quoting(
                    "AI object type `",
                    entry.inner.obj_type.name(),
                    "` cannot be encoded in a pack file",
                ),
            );
        }
        self.count_entry();
        Ok(entry.inner)
    }

    /// Writes the encoded objects of a batch up to the first refusal, which it
    /// returns. Gives `false` at the first object whose end would lie beyond what a
    /// machine word holds.
    pub fn write_batch(
        &mut self,
        batch: Vec<Result<(Vec<u8>, IndexEntry), GitError>>,
        idx_entries: &mut Vec<IndexEntry>,
        out: &mut Vec<Vec<u8>>,
    ) -> (done: Result<bool, GitError>)
        ensures
            exists|count: int|
                {
                    &&& #[trigger] written(
                        old(self)@,
                        final(self)@,
                        objects_of(batch@),
                        count,
                        old(idx_entries)@,
                        final(idx_entries)@,
                        chunk_views(old(out)@),
                        chunk_views(final(out)@),
                    )
                    &&& forall|i: int| 0 <= i < count ==> (#[trigger] batch@[i]) is Ok
                    &&& match done {
                        Ok(true) => count == batch@.len(),
                        Ok(false) => {
                            &&& count < batch@.len()
                            &&& batch@[count] is Ok
                            &&& final(self)@.offset + objects_of(batch@)[count].0@.len()
                                > usize::MAX
                        },
                        Err(error) => count < batch@.len() && batch@[count]
                            == Err::<(Vec<u8>, IndexEntry), GitError>(error),
                    }
                },
    {
        let ghost before = self@;
        let ghost idx_before = idx_entries@;
        let ghost out_before = chunk_views(out@);
        let ghost objects = objects_of(batch@);
        proof {
            let none = objects.take(0);
            assert(bodies(none) =~= Seq::<Seq<u8>>::empty());
            assert(before.hashed + Seq::<u8>::empty() =~= before.hashed);
            assert(idx_before + placed(hashes(none), bodies(none), before.offset) =~= idx_before);
            assert(out_before + sent(before.pack_open, bodies(none)) =~= out_before);
        }
        for result in it: batch
            invariant
                it.seq() == batch@,
                objects == objects_of(batch@),
                before == old(self)@,
                idx_before == old(idx_entries)@,
                out_before == chunk_views(old(out)@),
                written(
                    before,
                    self@,
                    objects,
                    it.index(),
                    idx_before,
                    idx_entries@,
                    out_before,
                    chunk_views(out@),
                ),
                forall|i: int| 0 <= i < it.index() ==> (#[trigger] batch@[i]) is Ok,
        {
            let ghost count = it.index();
            let ghost idx_now = idx_entries@;
            match result {
                Err(error) => {
                    return Err(error);
                },
                Ok(object) => {
                    if !self.has_room(object.0.len()) {
                        return Ok(false);
                    }
                    assert(object == objects[count]);
                    self.write_object(&object, idx_entries, out);
                    proof {
                        lemma_written_grows(
                            before,
                            objects,
                            count,
                            idx_before,
                            idx_now,
                            out_before,
                        );
                    }
                },
            }
        }
        Ok(true)
    }

    /// Encodes a batch in parallel and writes it. Gives `false` at the first object
    /// whose end would lie beyond what a machine word holds.
    pub fn encode_and_write_batch(
        &mut self,
        entries: &Vec<Entry>,
        idx_entries: &mut Vec<IndexEntry>,
        out: &mut Vec<Vec<u8>>,
    ) -> (done: Result<bool, GitError>)
        requires
            forall|i: int|
                0 <= i < entries@.len() ==> encodable((#[trigger] entries@[i]).obj_type, None),
        ensures
            exists|count: int|
                {
                    &&& #[trigger] batch_written(
                        old(self)@,
                        final(self)@,
                        entries@,
                        count,
                        old(idx_entries)@,
                        final(idx_entries)@,
                        chunk_views(old(out)@),
                        chunk_views(final(out)@),
                    )
                    &&& match done {
                        Ok(true) => count == entries@.len(),
                        Ok(false) => {
                            &&& count < entries@.len()
                            &&& entries@[count].obj_type.pack_number() is Some
                            &&& final(self)@.offset + whole_bytes(entries@[count]).len()
                                > usize::MAX
                        },
                        Err(error) => {
                            &&& count < entries@.len()
                            &&& entries@[count].obj_type.pack_number() is None
                            &&& error.reason() == unnumbered_reason(entries@[count].obj_type)
                        },
                    }
                },
    {
        let ghost before = self@;
        let ghost idx_before = idx_entries@;
        let ghost out_before = chunk_views(out@);
        let batch: Vec<Result<(Vec<u8>, IndexEntry), GitError>> = encode_batch(entries);
        let ghost results = batch@;
        let done: Result<bool, GitError> = self.write_batch(batch, idx_entries, out);
        proof {
            let count = choose|count: int|
                {
                    &&& #[trigger] written(
                        before,
                        self@,
                        objects_of(results),
                        count,
                        idx_before,
                        idx_entries@,
                        out_before,
                        chunk_views(out@),
                    )
                    &&& forall|i: int| 0 <= i < count ==> (#[trigger] results[i]) is Ok
                    &&& match done {
                        Ok(true) => count == results.len(),
                        Ok(false) => {
                            &&& count < results.len()
                            &&& results[count] is Ok
                            &&& self@.offset + objects_of(results)[count].0@.len() > usize::MAX
                        },
                        Err(error) => count < results.len() && results[count] == Err::<
                            (Vec<u8>, IndexEntry),
                            GitError,
                        >(error),
                    }
                };
            assert forall|i: int| 0 <= i < count implies (#[trigger] entries@[i]).obj_type.pack_number()
                is Some && zlib_round_trips(entries@[i].data@) by {
                assert(encoded_whole(entries@[i], results[i]));
                assert(results[i] is Ok);
            }
            if count < entries@.len() {
                assert(encoded_whole(entries@[count], results[count]));
            }
            let front = objects_of(results).take(count);
            assert(bodies(front) =~= whole_bodies(entries@.take(count))) by {
                assert forall|i: int| 0 <= i < count implies bodies(front)[i] == whole_bodies(
                    entries@.take(count),
                )[i] by {
                    assert(encoded_whole(entries@[i], results[i]));
                    assert(results[i] is Ok);
                }
            }
            assert(hashes(front) =~= entry_hashes(entries@.take(count))) by {
                assert forall|i: int| 0 <= i < count implies hashes(front)[i] == entry_hashes(
                    entries@.take(count),
                )[i] by {
                    assert(encoded_whole(entries@[i], results[i]));
                    assert(results[i] is Ok);
                }
            }
            assert(batch_written(
                before,
                self@,
                entries@,
                count,
                idx_before,
                idx_entries@,
                out_before,
                chunk_views(out@),
            ));
        }
        done
    }

    /// Encodes all entries whole, batch by batch: the header, the objects in the order
    /// of the entries, and the checksum. An AI object is refused, and with it the
    /// batch that it would be part of; so is a second encoding, and an encoder with a
    /// delta window. Gives `false` where the pack would grow beyond what a machine
    /// word holds.
    pub fn parallel_encode(
        &mut self,
        entries: Vec<Incoming>,
        max_capacity: usize,
        out: &mut Vec<Vec<u8>>,
    ) -> (done: Result<bool, GitError>)
        requires
            parallel_ready(old(self)@, entries@, batch_of(max_capacity)),
        ensures
            parallel_outcome(
                old(self)@,
                final(self)@,
                entries@,
                batch_of(max_capacity),
                chunk_views(old(out)@),
                chunk_views(final(out)@),
                done,
            ),
    {
        if let Err(error) = self.begin_parallel(out) {
            return Err(error);
        }
        let ghost begun = self@;
        let ghost out_begun = chunk_views(out@);
        let ghost n = entries@.len();
        let ghost size = batch_of(max_capacity);
        let ghost mut m: int = 0;
        let mut run: ParallelRun = ParallelRun::new(max_capacity);
        proof {
            self.lemma_offset_is_word();
            lemma_nothing_written(begun, out_begun, entries@);
        }
        for entry in it: entries
            invariant
                it.seq() == entries@,
                n == entries@.len(),
                size == batch_of(max_capacity),
                parallel_ready(old(self)@, entries@, size),
                begun == with_header(old(self)@),
                out_begun == chunk_views(old(out)@) + sent(
                    old(self)@.pack_open,
                    seq![header_bytes(old(self)@.object_number)],
                ),
                old(self)@.window_size == 0,
                !old(self)@.started,
                run.wf(),
                run@.size == size,
                0 <= m <= it.index(),
                it.index() - m < size,
                m % (size as int) == 0,
                run@.batch == inners(entries@.subrange(m, it.index())),
                batches_written(
                    begun,
                    self@,
                    entries@,
                    m,
                    it.index(),
                    run@.idx_entries,
                    out_begun,
                    chunk_views(out@),
                ),
        {
            let ghost k = it.index();
            let ghost now = self@;
            let ghost run_now = run@;
            let ghost out_now = chunk_views(out@);
            proof {
                assert(run_now.batch.push(entry.inner) =~= inners(entries@.subrange(m, k + 1)));
                if entry.inner.obj_type.pack_number() is Some {
                    assert(all_numbered(entries@, k + 1));
                    if k + 1 - m >= size {
                        lemma_batch_is_encodable(old(self)@, entries@, size, m, k + 1);
                    }
                }
            }
            let received: Result<bool, GitError> = run.receive(self, entry, out);
            proof {
                self.lemma_offset_is_word();
                lemma_run_goes_on(
                    begun,
                    now,
                    self@,
                    entries@,
                    size,
                    m,
                    k,
                    run_now,
                    run@,
                    out_begun,
                    out_now,
                    chunk_views(out@),
                    received,
                );
            }
            match received {
                Ok(true) => {},
                other => {
                    return other;
                },
            }
            proof {
                if k + 1 - m >= size {
                    m = k + 1;
                }
            }
        }
        let ghost now = self@;
        let ghost run_now = run@;
        let ghost out_now = chunk_views(out@);
        proof {
            assert(all_numbered(entries@, n as int));
            lemma_batch_is_encodable(old(self)@, entries@, size, m, n as int);
        }
        let done: Result<bool, GitError> = run.close(self, out);
        proof {
            lemma_run_ends(
                begun,
                now,
                self@,
                entries@,
                size,
                m,
                run_now,
                out_begun,
                out_now,
                chunk_views(out@),
                done,
            );
        }
        done
    }
}

/// What parallel encoding has in hand between two arrivals.
pub ghost struct RunView {
    /// The number of objects in a batch.
    pub size: nat,
    /// The entries of the batch that is not full yet.
    pub batch: Seq<Entry>,
    /// Where the objects written so far stand.
    pub idx_entries: Seq<IndexEntry>,
}

/// Whether all entries can be stored whole.
pub open spec fn all_encodable(entries: Seq<Entry>) -> bool {
    forall|i: int| 0 <= i < entries.len() ==> encodable((#[trigger] entries[i]).obj_type, None)
}

/// Whether an entry can be received: an AI object always can, since it is refused; any
/// other if it can be counted and, where it fills the batch, all of the batch can be
/// stored whole.
pub open spec fn receivable(run: RunView, view: EncoderView, entry: Incoming) -> bool {
    entry.inner.obj_type.pack_number() is Some ==> {
        &&& view.process_index < usize::MAX
        &&& run.batch.len() + 1 >= run.size ==> all_encodable(run.batch.push(entry.inner))
    }
}

/// Whether the entries can end: what is left of them can be stored whole, and all
/// objects that the pack is to hold were taken up.
pub open spec fn closable(run: RunView, view: EncoderView) -> bool {
    &&& all_encodable(run.batch)
    &&& view.process_index == view.object_number
}

/// Whether `count` objects of a batch were written, as the outcome tells: all of them, or
/// those before the first whose end would lie beyond what a machine word holds.
pub open spec fn wrote_as_told(
    after: EncoderView,
    batch: Seq<Entry>,
    count: int,
    done: Result<bool, GitError>,
) -> bool {
    match done {
        Ok(true) => count == batch.len(),
        Ok(false) => {
            &&& count < batch.len()
            &&& after.offset + whole_bytes(batch[count]).len() > usize::MAX
        },
        Err(_) => false,
    }
}

/// Whether the pack was finished, as the outcome tells.
pub open spec fn closed_as_told(
    mid: EncoderView,
    after: EncoderView,
    idx_entries: Seq<IndexEntry>,
    out_mid: Seq<Seq<u8>>,
    out_after: Seq<Seq<u8>>,
    done: Result<bool, GitError>,
) -> bool {
    if done == Ok::<bool, GitError>(true) {
        &&& sealed(mid, after, idx_entries)
        &&& out_after == out_mid + sent(mid.pack_open, seq![digest(mid.kind, mid.hashed)])
    } else {
        &&& after == mid
        &&& out_after == out_mid
    }
}

/// Whether an entry was received as it should be: an AI object is refused and changes
/// nothing; any other is counted and joins the batch, which is written once it is full.
pub open spec fn run_received(
    before: RunView,
    after: RunView,
    view_before: EncoderView,
    view_after: EncoderView,
    entry: Incoming,
    out_before: Seq<Seq<u8>>,
    out_after: Seq<Seq<u8>>,
    done: Result<bool, GitError>,
) -> bool {
    let batch = before.batch.push(entry.inner);
    if entry.inner.obj_type.pack_number() is None {
        &&& done is Err
        &&& done->Err_0.reason() == ai_reason(entry.inner.obj_type)
        &&& after == before
        &&& view_after == view_before
        &&& out_after == out_before
    } else if batch.len() < before.size {
        &&& done == Ok::<bool, GitError>(true)
        &&& after == RunView { batch, ..before }
        &&& view_after == counted(view_before, 1)
        &&& out_after == out_before
    } else {
        &&& after.size == before.size
        &&& after.batch == Seq::<Entry>::empty()
        &&& exists|count: int|
            {
                &&& #[trigger] batch_written(
                    counted(view_before, 1),
                    view_after,
                    batch,
                    count,
                    before.idx_entries,
                    after.idx_entries,
                    out_before,
                    out_after,
                )
                &&& wrote_as_told(view_after, batch, count, done)
            }
    }
}

/// Whether the entries ended as they should: the last batch is written, and the pack is
/// finished behind it.
pub open spec fn run_closed(
    run: RunView,
    view_before: EncoderView,
    view_after: EncoderView,
    out_before: Seq<Seq<u8>>,
    out_after: Seq<Seq<u8>>,
    done: Result<bool, GitError>,
) -> bool {
    exists|count: int, mid: EncoderView, idx_entries: Seq<IndexEntry>, out_mid: Seq<Seq<u8>>|
        {
            &&& #[trigger] batch_written(
                view_before,
                mid,
                run.batch,
                count,
                run.idx_entries,
                idx_entries,
                out_before,
                out_mid,
            )
            &&& mid.offset <= usize::MAX
            &&& wrote_as_told(mid, run.batch, count, done)
            &&& closed_as_told(mid, view_after, idx_entries, out_mid, out_after, done)
        }
}

/// Parallel encoding entry by entry: what it has in hand between two arrivals.
pub struct ParallelRun {
    size: usize,
    batch: Vec<Entry>,
    idx_entries: Vec<IndexEntry>,
}

impl View for ParallelRun {
    type V = RunView;

    closed spec fn view(&self) -> RunView {
        RunView {
            size: self.size as nat,
            batch: self.batch@,
            idx_entries: self.idx_entries@,
        }
    }
}

impl ParallelRun {
    /// Whether the batch holds no AI object.
    pub open spec fn wf(self) -> bool {
        forall|i: int|
            0 <= i < self@.batch.len() ==> (#[trigger] self@.batch[i]).obj_type.pack_number()
                is Some
    }

    /// A run that has received nothing, given how many entries their channel can hold.
    pub fn new(max_capacity: usize) -> (run: ParallelRun)
        ensures
            run.wf(),
            run@ == (RunView {
                size: batch_of(max_capacity),
                batch: Seq::empty(),
                idx_entries: Seq::empty(),
            }),
    {
        ParallelRun {
            size: batch_size(max_capacity),
            batch: Vec::new(),
            idx_entries: Vec::new(),
        }
    }

    /// Whether an entry can be received.
    pub fn can_receive(&self, encoder: &PackEncoder, entry: &Incoming) -> (can: bool)
        ensures
            can == receivable(self@, encoder@, *entry),
    {
        if entry.inner.obj_type.is_ai_object() {
            return true;
        }
        if encoder.process_index() == usize::MAX {
            return false;
        }
        if self.size > 0 && self.batch.len() < self.size - 1 {
            return true;
        }
        let stored: bool = can_store_all(&self.batch);
        let last: bool = can_store(entry.inner.obj_type);
        let ghost longer = self@.batch.push(entry.inner);
        proof {
            if !stored {
                let i = choose|i: int|
                    0 <= i < self@.batch.len() && !encodable(
                        (#[trigger] self@.batch[i]).obj_type,
                        None,
                    );
                assert(longer[i] == self@.batch[i]);
            }
            assert(longer[longer.len() - 1] == entry.inner);
        }
        stored && last
    }

    /// Whether the entries can end.
    pub fn can_close(&self, encoder: &PackEncoder) -> (can: bool)
        ensures
            can == closable(self@, encoder@),
    {
        can_store_all(&self.batch) && encoder.process_index() == encoder.object_number()
    }

    /// Receives an entry: takes it up into the batch, and encodes and writes the batch
    /// once it is full. An AI object is refused. Gives `false` at the first object whose
    /// end would lie beyond what a machine word holds.
    pub fn receive(
        &mut self,
        encoder: &mut PackEncoder,
        entry: Incoming,
        out: &mut Vec<Vec<u8>>,
    ) -> (done: Result<bool, GitError>)
        requires
            old(self).wf(),
            receivable(old(self)@, old(encoder)@, entry),
        ensures
            final(self).wf(),
            run_received(
                old(self)@,
                final(self)@,
                old(encoder)@,
                final(encoder)@,
                entry,
                chunk_views(old(out)@),
                chunk_views(final(out)@),
                done,
            ),
    {
        let ghost before = self@;
        let ghost view_before = encoder@;
        match encoder.take_entry(entry) {
            Err(error) => {
                return Err(error);
            },
            Ok(taken) => {
                self.batch.push(taken);
            },
        }
        if self.batch.len() < self.size {
            return Ok(true);
        }
        let ghost batch = self.batch@;
        let ghost counted_view = encoder@;
        let ghost out_before = chunk_views(out@);
        assert(batch == before.batch.push(entry.inner));
        assert forall|i: int| 0 <= i < batch.len() implies (
        #[trigger] batch[i]).obj_type.pack_number() is Some by {
            if i < before.batch.len() {
                assert(batch[i] == before.batch[i]);
            }
        }
        let done: Result<bool, GitError> = encoder.encode_and_write_batch(
            &self.batch,
            &mut self.idx_entries,
            out,
        );
        let ghost count: int;
        proof {
            count = choose|count: int|
                {
                    &&& #[trigger] batch_written(
                        counted_view,
                        encoder@,
                        batch,
                        count,
                        before.idx_entries,
                        self.idx_entries@,
                        out_before,
                        chunk_views(out@),
                    )
                    &&& match done {
                        Ok(true) => count == batch.len(),
                        Ok(false) => {
                            &&& count < batch.len()
                            &&& batch[count].obj_type.pack_number() is Some
                            &&& encoder@.offset + whole_bytes(batch[count]).len() > usize::MAX
                        },
                        Err(error) => {
                            &&& count < batch.len()
                            &&& batch[count].obj_type.pack_number() is None
                            &&& error.reason() == unnumbered_reason(batch[count].obj_type)
                        },
                    }
                };
            assert(counted_view == counted(view_before, 1));
            assert(wrote_as_told(encoder@, batch, count, done));
        }
        self.batch = Vec::new();
        assert(self@.batch =~= Seq::<Entry>::empty());
        assert(batch_written(
            counted(view_before, 1),
            encoder@,
            before.batch.push(entry.inner),
            count,
            before.idx_entries,
            self@.idx_entries,
            out_before,
            chunk_views(out@),
        ));
        done
    }

    /// Ends the entries: encodes and writes what is left of them, and finishes the pack.
    /// Gives `false` at the first object whose end would lie beyond what a machine word
    /// holds.
    pub fn close(self, encoder: &mut PackEncoder, out: &mut Vec<Vec<u8>>) -> (done: Result<
        bool,
        GitError,
    >)
        requires
            self.wf(),
            closable(self@, old(encoder)@),
        ensures
            run_closed(
                self@,
                old(encoder)@,
                final(encoder)@,
                chunk_views(old(out)@),
                chunk_views(final(out)@),
                done,
            ),
    {
        let ghost before = encoder@;
        let ghost out_before = chunk_views(out@);
        let ghost idx_before = self@.idx_entries;
        let mut idx_entries: Vec<IndexEntry> = self.idx_entries;
        if !self.batch.is_empty() {
            let done: Result<bool, GitError> = encoder.encode_and_write_batch(
                &self.batch,
                &mut idx_entries,
                out,
            );
            proof {
                encoder.lemma_offset_is_word();
            }
            match done {
                Ok(true) => {},
                other => {
                    return other;
                },
            }
        } else {
            proof {
                encoder.lemma_offset_is_word();
                lemma_empty_batch_written(before, idx_before, out_before);
                assert(self@.batch =~= Seq::<Entry>::empty());
            }
        }
        encoder.seal(idx_entries, out);
        Ok(true)
    }
}

/// Whether objects of a kind can be stored whole.
fn can_store(obj_type: ObjectType) -> (can: bool)
    ensures
        can == encodable(obj_type, None),
{
    match obj_type {
        ObjectType::HashDelta => false,
        ObjectType::OffsetDelta => false,
        ObjectType::OffsetZstdelta => false,
        _ => true,
    }
}

/// Whether all entries can be stored whole.
fn can_store_all(entries: &Vec<Entry>) -> (can: bool)
    ensures
        can == all_encodable(entries@),
{
    for i in 0..entries.len()
        invariant
            forall|j: int| 0 <= j < i ==> encodable((#[trigger] entries@[j]).obj_type, None),
    {
        if !can_store(entries[i].obj_type) {
            assert(!encodable(entries@[i as int].obj_type, None));
            return false;
        }
    }
    true
}

/// An encoder that has taken up `count` more entries.
pub open spec fn counted(view: EncoderView, count: int) -> EncoderView {
    EncoderView { process_index: (view.process_index + count) as nat, ..view }
}

/// The number of objects in a batch.
pub open spec fn batch_of(max_capacity: usize) -> nat {
    if max_capacity / CHANNEL_CONTENT > MIN_PROCESS_NUMBER {
        (max_capacity / CHANNEL_CONTENT) as nat
    } else {
        MIN_PROCESS_NUMBER as nat
    }
}

/// Whether none of the first `k` entries is an AI object.
pub open spec fn all_numbered(entries: Seq<Incoming>, k: int) -> bool {
    forall|i: int| 0 <= i < k ==> (#[trigger] entries[i]).inner.obj_type.pack_number() is Some
}

/// Where the batch of the `i`th of `n` entries ends.
pub open spec fn batch_end(n: nat, size: nat, i: int) -> int {
    let full = (i / (size as int) + 1) * size;
    if full <= n {
        full
    } else {
        n as int
    }
}

/// Whether the batch of the `i`th entry comes to be encoded: no AI object stands in it or
/// before it.
pub open spec fn reaches_encoder(entries: Seq<Incoming>, size: nat, i: int) -> bool {
    0 <= i < entries.len() && all_numbered(entries, batch_end(entries.len(), size, i))
}

/// What parallel encoding of entries in batches of `size` asks for: a number of objects
/// that a header can hold; of the entries whose batch comes to be encoded, that none is
/// itself a delta; and, where no entry is an AI object, as many entries as there are to
/// be objects.
pub open spec fn parallel_ready(view: EncoderView, entries: Seq<Incoming>, size: nat) -> bool {
    view.window_size == 0 ==> {
        &&& 0 < view.object_number <= u32::MAX
        &&& !view.started ==> {
            &&& forall|k: int|
                0 <= k <= entries.len() && #[trigger] all_numbered(entries, k)
                    ==> view.process_index + k <= usize::MAX
            &&& forall|i: int| #[trigger]
                reaches_encoder(entries, size, i) ==> encodable(entries[i].inner.obj_type, None)
            &&& all_numbered(entries, entries.len() as int) ==> view.process_index
                + entries.len() == view.object_number
        }
    }
}

/// The entries of a batch that comes to be encoded can be stored whole.
proof fn lemma_batch_is_encodable(
    view: EncoderView,
    entries: Seq<Incoming>,
    size: nat,
    m: int,
    k: int,
)
    requires
        parallel_ready(view, entries, size),
        view.window_size == 0,
        !view.started,
        size > 0,
        0 <= m <= k <= entries.len(),
        m % (size as int) == 0,
        k - m == size || k == entries.len() && k - m <= size,
        all_numbered(entries, k),
    ensures
        all_encodable(inners(entries.subrange(m, k))),
{
    let batch = inners(entries.subrange(m, k));
    assert forall|i: int| 0 <= i < batch.len() implies encodable(
        (#[trigger] batch[i]).obj_type,
        None,
    ) by {
        let d = size as int;
        let q = m / d;
        lemma_fundamental_div_mod(m, d);
        lemma_fundamental_div_mod_converse(m + i, d, q, i);
        lemma_mul_is_commutative(d, q);
        lemma_mul_is_distributive_add_other_way(d, q, 1);
        assert((q + 1) * d == m + d);
        assert(batch_end(entries.len(), size, m + i) == k);
        assert(reaches_encoder(entries, size, m + i));
        assert(batch[i] == entries[m + i].inner);
    }
}

/// A batch without entries is written by doing nothing.
proof fn lemma_empty_batch_written(
    view: EncoderView,
    idx_entries: Seq<IndexEntry>,
    out: Seq<Seq<u8>>,
)
    ensures
        batch_written(view, view, Seq::empty(), 0, idx_entries, idx_entries, out, out),
{
    let none = Seq::<Entry>::empty();
    assert(none.take(0) =~= none);
    assert(whole_bodies(none) =~= Seq::<Seq<u8>>::empty());
    assert(view.hashed + Seq::<u8>::empty() =~= view.hashed);
    assert(idx_entries + placed(entry_hashes(none), whole_bodies(none), view.offset)
        =~= idx_entries);
    assert(out + sent(view.pack_open, whole_bodies(none)) =~= out);
}

/// Whether the first `m` entries were written, and the first `k` taken up.
pub open spec fn batches_written(
    begun: EncoderView,
    now: EncoderView,
    entries: Seq<Incoming>,
    m: int,
    k: int,
    idx_entries: Seq<IndexEntry>,
    out_begun: Seq<Seq<u8>>,
    out_now: Seq<Seq<u8>>,
) -> bool {
    let front = inners(entries.take(m));
    &&& 0 <= m <= k <= entries.len()
    &&& forall|i: int|
        0 <= i < k ==> (#[trigger] entries[i]).inner.obj_type.pack_number() is Some
    &&& forall|i: int| 0 <= i < m ==> zlib_round_trips((#[trigger] entries[i]).inner.data@)
    &&& now == with_objects(counted(begun, k), whole_bodies(front))
    &&& now.offset <= usize::MAX
    &&& idx_entries == placed(entry_hashes(front), whole_bodies(front), begun.offset)
    &&& out_now == out_begun + sent(begun.pack_open, whole_bodies(front))
}

/// Whether `error` refuses the `k`th entry, the first AI object, when the first `m`
/// had been written: the batches before the one that it would be part of.
pub open spec fn refused_at(
    entries: Seq<Incoming>,
    size: nat,
    k: int,
    m: int,
    error: GitError,
) -> bool {
    &&& 0 <= m <= k < entries.len()
    &&& m % (size as int) == 0
    &&& k - m < size
    &&& entries[k].inner.obj_type.pack_number() is None
    &&& error.reason() == ai_reason(entries[k].inner.obj_type)
}

/// Whether parallel encoding ended as it should.
pub open spec fn parallel_outcome(
    before: EncoderView,
    after: EncoderView,
    entries: Seq<Incoming>,
    size: nat,
    out_before: Seq<Seq<u8>>,
    out_after: Seq<Seq<u8>>,
    done: Result<bool, GitError>,
) -> bool {
    let begun = with_header(before);
    let out_begun = out_before + sent(
        before.pack_open,
        seq![header_bytes(before.object_number)],
    );
    let all = inners(entries);
    if before.window_size != 0 {
        &&& done is Err
        &&& done->Err_0.reason() == has_window_reason()
        &&& after == before
        &&& out_after == out_before
    } else if before.started {
        &&& done is Err
        &&& done->Err_0.reason() == in_progress_reason()
        &&& after == begun
        &&& out_after == out_begun
    } else {
        match done {
            Ok(true) => {
                &&& forall|i: int|
                    0 <= i < entries.len() ==> (
                    #[trigger] entries[i]).inner.obj_type.pack_number() is Some
                        && zlib_round_trips(entries[i].inner.data@)
                &&& pack_finished(
                    counted(begun, entries.len() as int),
                    after,
                    entry_hashes(all),
                    whole_bodies(all),
                    out_begun,
                    out_after,
                )
            },
            Err(error) => exists|k: int, m: int, idx_entries: Seq<IndexEntry>|
                {
                    &&& #[trigger] batches_written(
                        begun,
                        after,
                        entries,
                        m,
                        k,
                        idx_entries,
                        out_begun,
                        out_after,
                    )
                    &&& refused_at(entries, size, k, m, error)
                },
            Ok(false) => exists|k: int| #[trigger]
                overflowed(begun, after, entries, size, k, out_begun, out_after),
        }
    }
}

/// Whether writing stopped in the batch that ends before the `k`th entry, at an object
/// whose end would lie beyond what a machine word holds.
pub open spec fn overflowed(
    begun: EncoderView,
    after: EncoderView,
    entries: Seq<Incoming>,
    size: nat,
    k: int,
    out_begun: Seq<Seq<u8>>,
    out_after: Seq<Seq<u8>>,
) -> bool {
    &&& k % (size as int) == 0 || k == entries.len()
    &&& exists|m: int, idx_entries: Seq<IndexEntry>|
        {
            &&& #[trigger] batches_written(
                begun,
                after,
                entries,
                m,
                k,
                idx_entries,
                out_begun,
                out_after,
            )
            &&& m < k <= m + size
            &&& after.offset + whole_bytes(entries[m].inner).len() > usize::MAX
        }
}

/// Before the first batch nothing is written.
proof fn lemma_nothing_written(
    begun: EncoderView,
    out_begun: Seq<Seq<u8>>,
    entries: Seq<Incoming>,
)
    requires
        begun.offset <= usize::MAX,
    ensures
        batches_written(begun, begun, entries, 0, 0, Seq::empty(), out_begun, out_begun),
{
    let front = inners(entries.take(0));
    assert(whole_bodies(front) =~= Seq::<Seq<u8>>::empty());
    assert(begun.hashed + Seq::<u8>::empty() =~= begun.hashed);
    assert(placed(entry_hashes(front), whole_bodies(front), begun.offset) =~= Seq::<
        IndexEntry,
    >::empty());
    assert(out_begun + sent(begun.pack_open, whole_bodies(front)) =~= out_begun);
}

/// What is written after `count` objects of a batch more.
proof fn lemma_batches_grow(
    begun: EncoderView,
    now: EncoderView,
    after: EncoderView,
    entries: Seq<Incoming>,
    m: int,
    k: int,
    count: int,
    idx_now: Seq<IndexEntry>,
    idx_after: Seq<IndexEntry>,
    out_begun: Seq<Seq<u8>>,
    out_now: Seq<Seq<u8>>,
    out_after: Seq<Seq<u8>>,
)
    requires
        batches_written(begun, now, entries, m, k, idx_now, out_begun, out_now),
        batch_written(
            now,
            after,
            inners(entries.subrange(m, k)),
            count,
            idx_now,
            idx_after,
            out_now,
            out_after,
        ),
        after.offset <= usize::MAX,
    ensures
        batches_written(begun, after, entries, m + count, k, idx_after, out_begun, out_after),
{
    let batch = inners(entries.subrange(m, k));
    let front = whole_bodies(inners(entries.take(m)));
    let more = whole_bodies(batch.take(count));
    let longer = whole_bodies(inners(entries.take(m + count)));
    assert(longer =~= front + more);
    lemma_joined_concat(front, more);
    assert(begun.hashed + joined(front) + joined(more) =~= begun.hashed + joined(longer));
    assert(out_begun + sent(begun.pack_open, front) + sent(begun.pack_open, more) =~= out_begun
        + sent(begun.pack_open, longer));
    lemma_placed_concat(
        entry_hashes(inners(entries.take(m))),
        front,
        entry_hashes(batch.take(count)),
        more,
        begun.offset,
    );
    assert(entry_hashes(inners(entries.take(m + count))) =~= entry_hashes(inners(entries.take(m)))
        + entry_hashes(batch.take(count)));
    assert forall|i: int| 0 <= i < m + count implies zlib_round_trips(
        (#[trigger] entries[i]).inner.data@,
    ) by {
        if i >= m {
            assert(batch[i - m] == entries[i].inner);
        }
    }
}

/// What is written after one entry more was received.
proof fn lemma_run_goes_on(
    begun: EncoderView,
    now: EncoderView,
    after: EncoderView,
    entries: Seq<Incoming>,
    size: nat,
    m: int,
    k: int,
    run: RunView,
    run_after: RunView,
    out_begun: Seq<Seq<u8>>,
    out_now: Seq<Seq<u8>>,
    out_after: Seq<Seq<u8>>,
    done: Result<bool, GitError>,
)
    requires
        size > 0,
        run.size == size,
        run.batch == inners(entries.subrange(m, k)),
        batches_written(begun, now, entries, m, k, run.idx_entries, out_begun, out_now),
        k < entries.len(),
        k - m < size,
        m % (size as int) == 0,
        after.offset <= usize::MAX,
        run_received(run, run_after, now, after, entries[k], out_now, out_after, done),
    ensures
        match done {
            Err(error) => {
                &&& batches_written(
                    begun,
                    after,
                    entries,
                    m,
                    k,
                    run_after.idx_entries,
                    out_begun,
                    out_after,
                )
                &&& refused_at(entries, size, k, m, error)
            },
            Ok(true) => {
                let start = if k + 1 - m < size {
                    m
                } else {
                    k + 1
                };
                &&& batches_written(
                    begun,
                    after,
                    entries,
                    start,
                    k + 1,
                    run_after.idx_entries,
                    out_begun,
                    out_after,
                )
                &&& run_after.size == size
                &&& run_after.batch == inners(entries.subrange(start, k + 1))
                &&& start % (size as int) == 0
            },
            Ok(false) => overflowed(
                begun,
                after,
                entries,
                size,
                k + 1,
                out_begun,
                out_after,
            ),
        },
{
    let batch = run.batch.push(entries[k].inner);
    if done is Ok {
        assert(batch =~= inners(entries.subrange(m, k + 1)));
        assert(counted(begun, k + 1) == counted(counted(begun, k), 1));
        assert(batches_written(
            begun,
            counted(now, 1),
            entries,
            m,
            k + 1,
            run.idx_entries,
            out_begun,
            out_now,
        ));
        if batch.len() >= size {
            let count = choose|count: int|
                {
                    &&& #[trigger] batch_written(
                        counted(now, 1),
                        after,
                        batch,
                        count,
                        run.idx_entries,
                        run_after.idx_entries,
                        out_now,
                        out_after,
                    )
                    &&& wrote_as_told(after, batch, count, done)
                };
            lemma_batches_grow(
                begun,
                counted(now, 1),
                after,
                entries,
                m,
                k + 1,
                count,
                run.idx_entries,
                run_after.idx_entries,
                out_begun,
                out_now,
                out_after,
            );
            lemma_mod_add_multiples_vanish(m, size as int);
            assert((k + 1) % (size as int) == 0);
            assert(run_after.batch =~= inners(entries.subrange(k + 1, k + 1)));
            if count < batch.len() {
                assert(batch[count] == entries[m + count].inner);
            }
        }
    }
}

/// What is written after the entries ended.
proof fn lemma_run_ends(
    begun: EncoderView,
    now: EncoderView,
    after: EncoderView,
    entries: Seq<Incoming>,
    size: nat,
    m: int,
    run: RunView,
    out_begun: Seq<Seq<u8>>,
    out_now: Seq<Seq<u8>>,
    out_after: Seq<Seq<u8>>,
    done: Result<bool, GitError>,
)
    requires
        size > 0,
        run.batch == inners(entries.subrange(m, entries.len() as int)),
        batches_written(
            begun,
            now,
            entries,
            m,
            entries.len() as int,
            run.idx_entries,
            out_begun,
            out_now,
        ),
        entries.len() - m < size,
        run_closed(run, now, after, out_now, out_after, done),
    ensures
        match done {
            Err(_) => false,
            Ok(true) => {
                &&& forall|i: int|
                    0 <= i < entries.len() ==> (
                    #[trigger] entries[i]).inner.obj_type.pack_number() is Some
                        && zlib_round_trips(entries[i].inner.data@)
                &&& pack_finished(
                    counted(begun, entries.len() as int),
                    after,
                    entry_hashes(inners(entries)),
                    whole_bodies(inners(entries)),
                    out_begun,
                    out_after,
                )
            },
            Ok(false) => overflowed(
                begun,
                after,
                entries,
                size,
                entries.len() as int,
                out_begun,
                out_after,
            ),
        },
{
    let n = entries.len() as int;
    let batch = run.batch;
    let (count, mid, idx_entries, out_mid) = choose|
        count: int,
        mid: EncoderView,
        idx_entries: Seq<IndexEntry>,
        out_mid: Seq<Seq<u8>>,
    |
        {
            &&& #[trigger] batch_written(
                now,
                mid,
                batch,
                count,
                run.idx_entries,
                idx_entries,
                out_now,
                out_mid,
            )
            &&& mid.offset <= usize::MAX
            &&& wrote_as_told(mid, batch, count, done)
            &&& closed_as_told(mid, after, idx_entries, out_mid, out_after, done)
        };
    lemma_batches_grow(
        begun,
        now,
        mid,
        entries,
        m,
        n,
        count,
        run.idx_entries,
        idx_entries,
        out_begun,
        out_now,
        out_mid,
    );
    assert(entries.take(n) =~= entries);
    if done == Ok::<bool, GitError>(true) {
        let bodies = whole_bodies(inners(entries));
        assert(out_after =~= out_begun + sent(
            begun.pack_open,
            bodies.push(digest(begun.kind, begun.hashed + joined(bodies))),
        ));
    } else {
        assert(batch[count] == entries[m + count].inner);
    }
}

/// Where two lists of objects stand, one behind the other.
pub proof fn lemma_placed_concat(
    hashes_a: Seq<ObjectHash>,
    a: Seq<Seq<u8>>,
    hashes_b: Seq<ObjectHash>,
    b: Seq<Seq<u8>>,
    offset: nat,
)
    requires
        hashes_a.len() == a.len(),
        hashes_b.len() == b.len(),
    ensures
        placed(hashes_a + hashes_b, a + b, offset) == placed(hashes_a, a, offset) + placed(
            hashes_b,
            b,
            offset + joined(a).len(),
        ),
{
    let whole = placed(hashes_a + hashes_b, a + b, offset);
    let parts = placed(hashes_a, a, offset) + placed(hashes_b, b, offset + joined(a).len());
    assert forall|i: int| 0 <= i < whole.len() implies whole[i] == parts[i] by {
        if i < a.len() {
            assert((a + b).take(i) =~= a.take(i));
        } else {
            assert((a + b).take(i) =~= a + b.take(i - a.len()));
            lemma_joined_concat(a, b.take(i - a.len()));
        }
    }
    assert(whole =~= parts);
}

/// How far the objects of a batch were written: the first `count` of them, whole and
/// in order.
pub open spec fn batch_written(
    before: EncoderView,
    after: EncoderView,
    entries: Seq<Entry>,
    count: int,
    idx_before: Seq<IndexEntry>,
    idx_after: Seq<IndexEntry>,
    out_before: Seq<Seq<u8>>,
    out_after: Seq<Seq<u8>>,
) -> bool {
    let front = entries.take(count);
    &&& 0 <= count <= entries.len()
    &&& forall|i: int|
        0 <= i < count ==> (#[trigger] entries[i]).obj_type.pack_number() is Some
            && zlib_round_trips(entries[i].data@)
    &&& after == with_objects(before, whole_bodies(front))
    &&& idx_after == idx_before + placed(entry_hashes(front), whole_bodies(front), before.offset)
    &&& out_after == out_before + sent(before.pack_open, whole_bodies(front))
}

/// What is written after one object more.
proof fn lemma_written_grows(
    before: EncoderView,
    objects: Seq<(Vec<u8>, IndexEntry)>,
    count: int,
    idx_before: Seq<IndexEntry>,
    idx_now: Seq<IndexEntry>,
    out_before: Seq<Seq<u8>>,
)
    requires
        0 <= count < objects.len(),
        idx_now == idx_before + placed(
            hashes(objects.take(count)),
            bodies(objects.take(count)),
            before.offset,
        ),
    ensures
        with_objects(
            with_objects(before, bodies(objects.take(count))),
            seq![objects[count].0@],
        ) == with_objects(before, bodies(objects.take(count + 1))),
        idx_now.push(
            IndexEntry {
                hash: objects[count].1.hash,
                offset: with_objects(before, bodies(objects.take(count))).offset as u64,
            },
        ) == idx_before + placed(
            hashes(objects.take(count + 1)),
            bodies(objects.take(count + 1)),
            before.offset,
        ),
        out_before + sent(before.pack_open, bodies(objects.take(count))) + sent(
            before.pack_open,
            seq![objects[count].0@],
        ) == out_before + sent(before.pack_open, bodies(objects.take(count + 1))),
{
    let front = bodies(objects.take(count));
    let longer = bodies(objects.take(count + 1));
    let body = objects[count].0@;
    lemma_joined_one(body);
    lemma_joined_step(longer, count);
    assert(longer.take(count) =~= front);
    assert(longer.take(count + 1) =~= longer);
    assert(before.hashed + joined(front) + body =~= before.hashed + joined(longer));
    let entries = placed(hashes(objects.take(count + 1)), longer, before.offset);
    assert forall|i: int| 0 <= i < count implies entries[i] == placed(
        hashes(objects.take(count)),
        front,
        before.offset,
    )[i] by {
        assert(longer.take(i) =~= front.take(i));
    }
    assert(idx_now.push(
        IndexEntry {
            hash: objects[count].1.hash,
            offset: with_objects(before, front).offset as u64,
        },
    ) =~= idx_before + entries);
    assert(out_before + sent(before.pack_open, front) + sent(before.pack_open, seq![body])
        =~= out_before + sent(before.pack_open, longer));
}

} // verus!
