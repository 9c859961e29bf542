//! The sliding window in which an object looks for a base to be stored as a delta
//! against.
//!
//! The window decides which earlier objects are worth trying, which of those is
//! taken, and how the object is then stored. How much a delta would save, and the
//! delta itself, come from outside.
use std::collections::VecDeque;
use vstd::prelude::*;

use crate::error::GitError;
use crate::object::{encode_one_object, Entry, IndexEntry, ObjectType};
#[allow(unused_imports)]
use crate::object::{encodable, object_bytes, unnumbered_reason, zlib_round_trips};
use crate::similarity::{cheap_similar, sizes_differ};
use crate::hash::ObjectHash;

verus! {

/// An object at the end of this many deltas serves no other as a base.
pub const MAX_CHAIN_LEN: usize = 50;

/// Where two objects are longer than this on average, how much a delta would save
/// is estimated rather than computed.
pub const EXACT_RATE_LEN: usize = 64;

/// An object as the window has stored it.
pub ghost struct Packed {
    /// The object's own kind, hash and data.
    pub obj_type: ObjectType,
    pub hash: ObjectHash,
    pub data: Seq<u8>,
    /// The number of deltas between the object and one that is stored whole.
    pub chain_len: nat,
    /// The object that this one is a delta against, counted from the first.
    pub base: Option<int>,
    /// The kind that it is stored as.
    pub stored_type: ObjectType,
    /// What is stored of it: its data or a delta.
    pub payload: Seq<u8>,
    /// The position of its first byte, counted from that of the first object.
    pub start: nat,
    /// For a delta, how far back its base starts.
    pub distance: Option<nat>,
}

impl Packed {
    /// The bytes of the stored object.
    pub open spec fn bytes(self) -> Seq<u8> {
        object_bytes(self.stored_type, self.payload, self.distance)
    }
}

/// Whether an object may serve another as its base, by what costs nothing to test:
/// it has the same kind and is not the same object, its own chain of deltas is
/// short enough, and the sizes of the two are not too far apart.
pub open spec fn eligible(
    base_type: ObjectType,
    base_hash: ObjectHash,
    base_len: nat,
    base_chain: nat,
    obj_type: ObjectType,
    hash: ObjectHash,
    len: nat,
) -> bool {
    &&& base_type == obj_type
    &&& base_chain < MAX_CHAIN_LEN
    &&& base_hash != hash
    &&& !(2 * base_len < len || 2 * len < base_len)
}

/// The kind that a delta is stored as.
pub open spec fn delta_type(zstdelta: bool) -> ObjectType {
    if zstdelta {
        ObjectType::OffsetZstdelta
    } else {
        ObjectType::OffsetDelta
    }
}

/// The position behind the last object of a log.
pub open spec fn log_end(log: Seq<Packed>) -> nat {
    if log.len() == 0 {
        0
    } else {
        log.last().start + log.last().bytes().len()
    }
}

/// Whether the `i`th object of a log is stored right: behind the one before it,
/// whole or as a delta against an eligible one that was in the window.
pub open spec fn packed_right(log: Seq<Packed>, i: int, window_size: nat, zstdelta: bool) -> bool {
    let packed = log[i];
    &&& packed.obj_type.pack_number() is Some
    &&& encodable(packed.obj_type, None)
    &&& !packed.obj_type.has_distance()
    &&& packed.start == log_end(log.take(i))
    &&& packed.bytes().len() >= 2
    &&& zlib_round_trips(packed.payload)
    &&& match packed.base {
        None => {
            &&& packed.stored_type == packed.obj_type
            &&& packed.payload == packed.data
            &&& packed.distance is None
        },
        Some(b) => {
            &&& 0 <= b < i
            &&& i - b <= window_size
            &&& eligible(
                log[b].obj_type,
                log[b].hash,
                log[b].data.len(),
                log[b].chain_len,
                packed.obj_type,
                packed.hash,
                packed.data.len(),
            )
            &&& packed.chain_len == log[b].chain_len + 1
            &&& packed.stored_type == delta_type(zstdelta)
            &&& packed.distance == Some((packed.start - log[b].start) as nat)
            &&& log[b].start < packed.start
        },
    }
}

/// Whether every object of a log is stored right.
pub open spec fn log_right(log: Seq<Packed>, window_size: nat, zstdelta: bool) -> bool {
    forall|i: int| 0 <= i < log.len() ==> #[trigger] packed_right(log, i, window_size, zstdelta)
}

/// How the next object is stored, given the base that it got, counted from the
/// first object, and the delta against that.
pub open spec fn next_packed(
    log: Seq<Packed>,
    zstdelta: bool,
    entry: Entry,
    base: Option<(int, Seq<u8>)>,
) -> Packed {
    match base {
        None => Packed {
            obj_type: entry.obj_type,
            hash: entry.hash,
            data: entry.data@,
            chain_len: entry.chain_len as nat,
            base: None,
            stored_type: entry.obj_type,
            payload: entry.data@,
            start: log_end(log),
            distance: None,
        },
        Some((b, delta)) => Packed {
            obj_type: entry.obj_type,
            hash: entry.hash,
            data: entry.data@,
            chain_len: log[b].chain_len + 1,
            base: Some(b),
            stored_type: delta_type(zstdelta),
            payload: delta,
            start: log_end(log),
            distance: Some((log_end(log) - log[b].start) as nat),
        },
    }
}

/// The number of objects in a window of the given size on a log.
pub open spec fn held(log: Seq<Packed>, size: nat) -> int {
    if log.len() <= size {
        log.len() as int
    } else {
        size as int
    }
}

/// The object in a place of the window, counted from the first object of the log.
pub open spec fn index_of(log: Seq<Packed>, size: nat, slot: int) -> int {
    log.len() - held(log, size) + slot
}

/// Whether the object in a place of the window is eligible as a base of `entry`.
pub open spec fn slot_eligible(log: Seq<Packed>, size: nat, slot: int, entry: Entry) -> bool {
    let base = log[index_of(log, size, slot)];
    eligible(
        base.obj_type,
        base.hash,
        base.data.len(),
        base.chain_len,
        entry.obj_type,
        entry.hash,
        entry.data@.len(),
    )
}

/// The length of the chain of deltas that a candidate ends.
pub open spec fn chain_of(log: Seq<Packed>, size: nat, candidate: Candidate) -> nat {
    log[index_of(log, size, candidate.slot as int)].chain_len
}

/// Whether `similar` is what `cheap_similar` can say of two objects.
pub open spec fn similar_said(a: Seq<u8>, b: Seq<u8>, similar: bool) -> bool {
    exists|slice_a: &[u8], slice_b: &[u8]|
        {
            &&& slice_a@ == a
            &&& slice_b@ == b
            &&& #[trigger] call_ensures(cheap_similar, (slice_a, slice_b), similar)
        }
}

/// Whether `candidates` are the objects of the window that are worth trying as a
/// base of `entry`, oldest first: the eligible ones that the cheap test called similar.
pub open spec fn candidates_right(
    log: Seq<Packed>,
    size: nat,
    entry: Entry,
    candidates: Seq<Candidate>,
) -> bool {
    &&& forall|i: int, j: int|
        0 <= i < j < candidates.len() ==> candidates[i].slot < candidates[j].slot
    &&& forall|i: int|
        0 <= i < candidates.len() ==> #[trigger] candidate_right(log, size, entry, candidates[i])
    &&& forall|slot: int|
        0 <= slot < held(log, size) && slot_eligible(log, size, slot, entry) ==> (
        #[trigger] passed_over(log, size, entry, slot) || offered(candidates, slot))
}

/// Whether the cheap test called the object in a place of the window not similar.
pub open spec fn passed_over(log: Seq<Packed>, size: nat, entry: Entry, slot: int) -> bool {
    similar_said(log[index_of(log, size, slot)].data, entry.data@, false)
}

/// Whether the object in a place of the window is a candidate.
pub open spec fn offered(candidates: Seq<Candidate>, slot: int) -> bool {
    exists|i: int| 0 <= i < candidates.len() && (#[trigger] candidates[i]).slot == slot
}

/// Whether a candidate is in the window and eligible, the cheap test called it similar,
/// and the way to rate it is right.
pub open spec fn candidate_right(
    log: Seq<Packed>,
    size: nat,
    entry: Entry,
    candidate: Candidate,
) -> bool {
    let base = log[index_of(log, size, candidate.slot as int)];
    &&& candidate.slot < held(log, size)
    &&& slot_eligible(log, size, candidate.slot as int, entry)
    &&& similar_said(base.data, entry.data@, true)
    &&& candidate.estimate == ((base.data.len() + entry.data@.len()) / 2 > EXACT_RATE_LEN)
}

/// An earlier object that is worth trying as a base.
#[derive(Clone, Copy, Debug, PartialEq, Eq, Structural)]
pub struct Candidate {
    /// Its place in the window, the oldest object being in place zero.
    pub slot: usize,
    /// Whether the objects are long enough for what a delta saves to be estimated.
    pub estimate: bool,
}

/// What is to be rated: the share of an object that a delta against `base` saves.
pub struct RateQuery<'a> {
    /// The data of the base.
    pub base: &'a [u8],
    /// Whether the rate may be an estimate.
    pub estimate: bool,
}

/// Whether `queries` ask for the candidates, one by one.
pub open spec fn queries_right(
    log: Seq<Packed>,
    size: nat,
    candidates: Seq<Candidate>,
    queries: Seq<RateQuery>,
) -> bool {
    &&& queries.len() == candidates.len()
    &&& forall|i: int|
        0 <= i < queries.len() ==> (#[trigger] queries[i]).base@ == log[index_of(
            log,
            size,
            candidates[i].slot as int,
        )].data && queries[i].estimate == candidates[i].estimate
}

/// The base that a place in the window and a delta stand for.
pub open spec fn base_view(
    log: Seq<Packed>,
    size: nat,
    base: Option<(usize, Vec<u8>)>,
) -> Option<(int, Seq<u8>)> {
    match base {
        Some((slot, delta)) => Some((index_of(log, size, slot as int), delta@)),
        None => None,
    }
}

/// How the share that a delta against a candidate saves stands to that of the best
/// so far.
#[derive(Clone, Copy, Debug, PartialEq, Eq, Structural)]
pub enum RateOrder {
    /// Higher by more than the margin within which two shares count as tied.
    Higher,
    /// Within the margin.
    Tied,
    /// Lower by more than the margin.
    Lower,
}

/// The objects stored so far and the window on the last of them.
pub struct DeltaWindow {
    window_size: usize,
    enable_zstdelta: bool,
    window: VecDeque<(Entry, usize)>,
    current_offset: usize,
    res: Vec<(Vec<u8>, IndexEntry)>,
    log: Ghost<Seq<Packed>>,
}

impl View for DeltaWindow {
    type V = Seq<Packed>;

    /// The objects stored so far.
    closed spec fn view(&self) -> Seq<Packed> {
        self.log@
    }
}

impl DeltaWindow {
    /// The number of objects that the window can hold.
    pub closed spec fn size(self) -> nat {
        self.window_size as nat
    }

    /// Whether deltas are zstd deltas.
    pub closed spec fn zstdelta(self) -> bool {
        self.enable_zstdelta
    }

    /// Whether the window holds the last objects stored, and all of them are stored
    /// right.
    pub closed spec fn wf(self) -> bool {
        &&& log_right(self.log@, self.window_size as nat, self.enable_zstdelta)
        &&& self.current_offset == log_end(self.log@)
        &&& self.window@.len() == held(self.log@, self.window_size as nat)
        &&& forall|slot: int|
            0 <= slot < self.window@.len() ==> #[trigger] self.slot_holds(slot)
        &&& self.res@.len() == self.log@.len()
        &&& forall|i: int| 0 <= i < self.res@.len() ==> #[trigger] self.result_holds(i)
    }

    /// Whether a place of the window holds the object that belongs there.
    closed spec fn slot_holds(self, slot: int) -> bool {
        let (entry, offset) = self.window@[slot];
        let packed = self.log@[index_of(self.log@, self.window_size as nat, slot)];
        &&& entry.obj_type == packed.obj_type
        &&& entry.hash == packed.hash
        &&& entry.data@ == packed.data
        &&& entry.chain_len == packed.chain_len
        &&& offset == packed.start
    }

    /// Whether a result holds the bytes and the hash of its object.
    closed spec fn result_holds(self, i: int) -> bool {
        &&& self.res@[i].0@ == self.log@[i].bytes()
        &&& self.res@[i].1.hash == self.log@[i].hash
        &&& self.res@[i].1.offset == 0
    }

    /// A window of `window_size` objects with none in it. A window of size zero
    /// never offers a base.
    pub fn new(window_size: usize, enable_zstdelta: bool) -> (window: DeltaWindow)
        ensures
            window.wf(),
            window@ == Seq::<Packed>::empty(),
            window.size() == window_size,
            window.zstdelta() == enable_zstdelta,
    {
        DeltaWindow {
            window_size,
            enable_zstdelta,
            window: VecDeque::new(),
            current_offset: 0,
            res: Vec::new(),
            log: Ghost(Seq::empty()),
        }
    }

    /// The data of the object in a place of the window.
    pub fn base_data(&self, slot: usize) -> (data: &[u8])
        requires
            self.wf(),
            slot < held(self@, self.size()),
        ensures
            data@ == self@[index_of(self@, self.size(), slot as int)].data,
    {
        assert(self.slot_holds(slot as int));
        self.window[slot].0.data.as_slice()
    }

    /// The length of the chain of deltas that the object in a place of the window
    /// ends.
    pub fn chain_len(&self, slot: usize) -> (len: usize)
        requires
            self.wf(),
            slot < held(self@, self.size()),
        ensures
            len == self@[index_of(self@, self.size(), slot as int)].chain_len,
    {
        assert(self.slot_holds(slot as int));
        self.window[slot].0.chain_len
    }

    /// Whether the object in a place of the window is eligible as a base of `entry`.
    pub fn may_serve(&self, slot: usize, entry: &Entry) -> (eligible: bool)
        requires
            self.wf(),
            slot < held(self@, self.size()),
        ensures
            eligible == slot_eligible(self@, self.size(), slot as int, *entry),
    {
        assert(self.slot_holds(slot as int));
        let base: &Entry = &self.window[slot].0;
        if base.obj_type != entry.obj_type {
            return false;
        }
        if base.chain_len >= MAX_CHAIN_LEN {
            return false;
        }
        if base.hash == entry.hash {
            return false;
        }
        !sizes_differ(base.data.len(), entry.data.len())
    }

    /// The object in a place of the window as a candidate for a base of `entry`, given
    /// what the cheap test said of the two: none if it did not call them similar.
    pub fn offer(&self, slot: usize, entry: &Entry, similar: bool) -> (candidate: Option<Candidate>)
        requires
            self.wf(),
            slot < held(self@, self.size()),
        ensures
            candidate == (if similar {
                Some(
                    Candidate {
                        slot,
                        estimate: (self@[index_of(self@, self.size(), slot as int)].data.len()
                            + entry.data@.len()) / 2 > EXACT_RATE_LEN,
                    },
                )
            } else {
                None
            }),
    {
        if !similar {
            return None;
        }
        let data: &[u8] = self.base_data(slot);
        Some(Candidate { slot, estimate: longer_on_average(data.len(), entry.data.len()) })
    }

    /// The objects in the window that are worth trying as a base of `entry`.
    pub fn candidates(&self, entry: &Entry) -> (candidates: Vec<Candidate>)
        requires
            self.wf(),
        ensures
            candidates_right(self@, self.size(), *entry, candidates@),
    {
        let ghost log = self@;
        let ghost size = self.size();
        let mut candidates: Vec<Candidate> = Vec::new();
        for slot in 0..self.window.len()
            invariant
                self.wf(),
                log == self@,
                size == self.size(),
                self.window@.len() == held(log, size),
                forall|i: int, j: int|
                    0 <= i < j < candidates@.len() ==> candidates@[i].slot < candidates@[j].slot,
                forall|i: int|
                    0 <= i < candidates@.len() ==> #[trigger] candidate_right(
                        log,
                        size,
                        *entry,
                        candidates@[i],
                    ),
                forall|i: int| 0 <= i < candidates@.len() ==> candidates@[i].slot < slot,
                forall|slot2: int|
                    0 <= slot2 < slot && slot_eligible(log, size, slot2, *entry) ==> (
                    #[trigger] passed_over(log, size, *entry, slot2) || offered(
                        candidates@,
                        slot2,
                    )),
        {
            assert(self.slot_holds(slot as int));
            let ghost before = candidates@;
            if self.may_serve(slot, entry) {
                let data: &[u8] = self.base_data(slot);
                let entry_data: &[u8] = entry.data.as_slice();
                let similar: bool = cheap_similar(data, entry_data);
                assert(call_ensures(cheap_similar, (data, entry_data), similar));
                assert(similar_said(
                    log[index_of(log, size, slot as int)].data,
                    entry.data@,
                    similar,
                ));
                if let Some(candidate) = self.offer(slot, entry, similar) {
                    candidates.push(candidate);
                    assert(candidates@.last().slot == slot);
                }
            }
            proof {
                assert forall|slot2: int|
                    0 <= slot2 < slot + 1 && slot_eligible(log, size, slot2, *entry) implies (
                #[trigger] passed_over(log, size, *entry, slot2) || offered(
                    candidates@,
                    slot2,
                )) by {
                    if slot2 < slot {
                        if offered(before, slot2) {
                            let i = choose|i: int|
                                0 <= i < before.len() && (#[trigger] before[i]).slot == slot2;
                            assert(candidates@[i].slot == slot2);
                        }
                    } else if !passed_over(log, size, *entry, slot2) {
                        assert(candidates@[candidates@.len() - 1].slot == slot2);
                    }
                }
            }
        }
        candidates
    }

    /// What is to be rated for the candidates: the data of each, and how.
    pub fn queries<'a>(
        &'a self,
        candidates: &Vec<Candidate>,
        entry: &Entry,
    ) -> (queries: Vec<RateQuery<'a>>)
        requires
            self.wf(),
            candidates_right(self@, self.size(), *entry, candidates@),
        ensures
            queries_right(self@, self.size(), candidates@, queries@),
    {
        let mut queries: Vec<RateQuery<'a>> = Vec::with_capacity(candidates.len());
        for i in 0..candidates.len()
            invariant
                self.wf(),
                candidates_right(self@, self.size(), *entry, candidates@),
                queries@.len() == i,
                forall|j: int|
                    0 <= j < i ==> (#[trigger] queries@[j]).base@ == self@[index_of(
                        self@,
                        self.size(),
                        candidates@[j].slot as int,
                    )].data && queries@[j].estimate == candidates@[j].estimate,
        {
            assert(candidate_right(self@, self.size(), *entry, candidates@[i as int]));
            let candidate: Candidate = candidates[i];
            queries.push(
                RateQuery {
                    base: self.base_data(candidate.slot),
                    estimate: candidate.estimate,
                },
            );
        }
        queries
    }

    /// Stores the next object: whole, or as the given delta against the object in a
    /// place of the window. Gives `false`, and stores nothing, where the positions
    /// of a bucket would grow beyond what a machine word holds. An object of a kind
    /// without a type number is refused.
    pub fn encode_next(&mut self, entry: Entry, base: Option<(usize, Vec<u8>)>) -> (stored: Result<
        bool,
        GitError,
    >)
        requires
            old(self).wf(),
            encodable(entry.obj_type, None),
            base matches Some(chosen) ==> chosen.0 < held(old(self)@, old(self).size())
                && slot_eligible(old(self)@, old(self).size(), chosen.0 as int, entry),
        ensures
            final(self).wf(),
            final(self).size() == old(self).size(),
            final(self).zstdelta() == old(self).zstdelta(),
            entry.obj_type.pack_number() is None ==> {
                &&& stored matches Err(error)
                &&& error.reason() == unnumbered_reason(entry.obj_type)
                &&& final(self)@ == old(self)@
            },
            entry.obj_type.pack_number() is Some ==> {
                let packed = next_packed(
                    old(self)@,
                    old(self).zstdelta(),
                    entry,
                    base_view(old(self)@, old(self).size(), base),
                );
                let fits = packed.start + packed.bytes().len() <= usize::MAX;
                &&& log_right(old(self)@.push(packed), old(self).size(), old(self).zstdelta())
                &&& stored == Ok::<bool, GitError>(fits)
                &&& final(self)@ == if fits {
                    old(self)@.push(packed)
                } else {
                    old(self)@
                }
            },
    {
        let ghost before = *self;
        let ghost packed = next_packed(
            self.log@,
            self.enable_zstdelta,
            entry,
            base_view(self.log@, self.window_size as nat, base),
        );
        let mut entry: Entry = entry;
        let hash: ObjectHash = entry.hash;
        let encoded: Result<Vec<u8>, GitError> = match base {
            None => encode_one_object(&entry, None),
            Some((slot, delta)) => {
                assert(self.slot_holds(slot as int));
                proof {
                    let b = index_of(self.log@, self.window_size as nat, slot as int);
                    assert(packed_right(
                        self.log@,
                        b,
                        self.window_size as nat,
                        self.enable_zstdelta,
                    ));
                    lemma_starts_before_end(
                        self.log@,
                        b,
                        self.window_size as nat,
                        self.enable_zstdelta,
                    );
                }
                let chain_len: usize = self.window[slot].0.chain_len + 1;
                let distance: usize = self.current_offset - self.window[slot].1;
                entry.chain_len = chain_len;
                let obj_type: ObjectType = if self.enable_zstdelta {
                    ObjectType::OffsetZstdelta
                } else {
                    ObjectType::OffsetDelta
                };
                let stored: Entry = Entry { obj_type, data: delta, hash, chain_len };
                encode_one_object(&stored, Some(distance))
            },
        };
        let bytes: Vec<u8> = match encoded {
            Ok(bytes) => bytes,
            Err(error) => {
                return Err(error);
            },
        };
        assert(bytes@ == packed.bytes());
        proof {
            assert(self.log@.push(packed).take(self.log@.len() as int) =~= self.log@);
            lemma_log_grows(
                self.log@,
                packed,
                self.window_size as nat,
                self.enable_zstdelta,
            );
        }
        if bytes.len() > usize::MAX - self.current_offset {
            return Ok(false);
        }
        let len: usize = bytes.len();
        self.window.push_back((entry, self.current_offset));
        if self.window.len() > self.window_size {
            let _ = self.window.pop_front();
        }
        self.res.push((bytes, IndexEntry { hash, offset: 0 }));
        self.current_offset = self.current_offset + len;
        proof {
            self.log@ = self.log@.push(packed);
            assert forall|slot: int| 0 <= slot < self.window@.len() implies
                #[trigger] self.slot_holds(slot) by {
                let i = index_of(self.log@, self.window_size as nat, slot);
                if i < before.log@.len() {
                    let old_slot = i - before.log@.len() + held(
                        before.log@,
                        before.window_size as nat,
                    );
                    assert(before.slot_holds(old_slot));
                }
            }
            assert forall|i: int| 0 <= i < self.res@.len() implies
                #[trigger] self.result_holds(i) by {
                if i < before.res@.len() {
                    assert(before.result_holds(i));
                }
            }
        }
        Ok(true)
    }

    /// The encoded objects in the order in which they were stored, each with an
    /// index entry whose position is still to be set.
    pub fn finish(self) -> (res: Vec<(Vec<u8>, IndexEntry)>)
        requires
            self.wf(),
        ensures
            holds_log(res@, self@),
            log_right(self@, self.size(), self.zstdelta()),
    {
        assert forall|i: int| 0 <= i < self.res@.len() implies (#[trigger] self.res@[i]).0@
            == self.log@[i].bytes() && self.res@[i].1.hash == self.log@[i].hash
            && self.res@[i].1.offset == 0 by {
            assert(self.result_holds(i));
        }
        self.res
    }
}

/// Whether results hold the bytes and hashes of the objects of a log, with no
/// position set.
pub open spec fn holds_log(res: Seq<(Vec<u8>, IndexEntry)>, log: Seq<Packed>) -> bool {
    &&& res.len() == log.len()
    &&& forall|i: int|
        0 <= i < res.len() ==> (#[trigger] res[i]).0@ == log[i].bytes() && res[i].1.hash
            == log[i].hash && res[i].1.offset == 0
}

/// Which of the first `n` candidates is the best base, given what each saves and
/// how that stood to the best before it: the first that saves enough is taken, and
/// a later one that saves more by the margin, or that is tied and ends the longer
/// chain. A candidate with no rate does not save enough.
pub open spec fn best_of<K>(
    log: Seq<Packed>,
    size: nat,
    candidates: Seq<Candidate>,
    rates: Seq<Option<K>>,
    orders: Seq<RateOrder>,
    n: nat,
) -> Option<int>
    decreases n,
{
    if n == 0 {
        None
    } else {
        let before = best_of(log, size, candidates, rates, orders, (n - 1) as nat);
        if rates[n - 1] is None {
            before
        } else {
            match before {
                None => Some(n - 1),
                Some(best) => if orders[n - 1] == RateOrder::Higher || (orders[n - 1]
                    == RateOrder::Tied && chain_of(log, size, candidates[n - 1]) > chain_of(
                    log,
                    size,
                    candidates[best],
                )) {
                    Some(n - 1)
                } else {
                    Some(best)
                },
            }
        }
    }
}

/// Whether `orders` says of each of the first `n` candidates how its rate stood to
/// that of the best before it.
pub open spec fn orders_of<K, O: Fn(&K, &K) -> RateOrder>(
    log: Seq<Packed>,
    size: nat,
    candidates: Seq<Candidate>,
    rates: Seq<Option<K>>,
    order: O,
    orders: Seq<RateOrder>,
    n: nat,
) -> bool {
    &&& orders.len() == n
    &&& forall|i: int|
        0 <= i < n && rates[i] is Some && best_of(
            log,
            size,
            candidates,
            rates,
            orders,
            i as nat,
        ) is Some ==> call_ensures(
            order,
            (
                &(rates[i]->0),
                &(rates[best_of(log, size, candidates, rates, orders, i as nat)->0]->0),
            ),
            #[trigger] orders[i],
        )
}

/// Whether `picked` is the place of the best candidate, under some outcome of the
/// comparisons of rates.
pub open spec fn picked_right<K, O: Fn(&K, &K) -> RateOrder>(
    log: Seq<Packed>,
    size: nat,
    candidates: Seq<Candidate>,
    rates: Seq<Option<K>>,
    order: O,
    picked: Option<usize>,
) -> bool {
    exists|orders: Seq<RateOrder>|
        {
            &&& #[trigger] orders_of(log, size, candidates, rates, order, orders, candidates.len())
            &&& match best_of(log, size, candidates, rates, orders, candidates.len()) {
                Some(best) => picked == Some(candidates[best].slot),
                None => picked is None,
            }
        }
}

/// Picks the best base among the candidates, given what a delta against each of
/// them saves, where that is enough, and how two such rates stand to each other.
pub fn pick_base<K, O: Fn(&K, &K) -> RateOrder>(
    window: &DeltaWindow,
    candidates: &Vec<Candidate>,
    rates: &Vec<Option<K>>,
    order: &O,
) -> (picked: Option<usize>)
    requires
        window.wf(),
        rates@.len() == candidates@.len(),
        forall|i: int|
            0 <= i < candidates@.len() ==> (#[trigger] candidates@[i]).slot < held(
                window@,
                window.size(),
            ),
        forall|a: &K, b: &K| #[trigger] call_requires(*order, (a, b)),
    ensures
        picked_right(window@, window.size(), candidates@, rates@, *order, picked),
        picked matches Some(slot) ==> exists|i: int|
            0 <= i < candidates@.len() && (#[trigger] candidates@[i]).slot == slot
                && rates@[i] is Some,
        picked is None <==> (forall|i: int|
            0 <= i < rates@.len() ==> (#[trigger] rates@[i]) is None),
{
    let mut best: Option<usize> = None;
    let ghost mut orders: Seq<RateOrder> = Seq::empty();
    for i in 0..candidates.len()
        invariant
            window.wf(),
            rates@.len() == candidates@.len(),
            forall|i: int|
                0 <= i < candidates@.len() ==> (#[trigger] candidates@[i]).slot < held(
                    window@,
                    window.size(),
                ),
            forall|a: &K, b: &K| #[trigger] call_requires(*order, (a, b)),
            orders_of(window@, window.size(), candidates@, rates@, *order, orders, i as nat),
            best_of(window@, window.size(), candidates@, rates@, orders, i as nat) == (match best {
                Some(best) => Some(best as int),
                None => None::<int>,
            }),
            best matches Some(best) ==> best < i && rates@[best as int] is Some,
            best is None <==> (forall|j: int| 0 <= j < i ==> (#[trigger] rates@[j]) is None),
    {
        let ghost before = orders;
        let ghost old_best = best;
        let mut verdict: RateOrder = RateOrder::Lower;
        if let Some(rate) = &rates[i] {
            match best {
                None => {
                    best = Some(i);
                },
                Some(best_index) => {
                    if let Some(best_rate) = &rates[best_index] {
                        verdict = order(rate, best_rate);
                        let better: bool = match verdict {
                            RateOrder::Higher => true,
                            RateOrder::Tied => window.chain_len(candidates[i].slot)
                                > window.chain_len(candidates[best_index].slot),
                            RateOrder::Lower => false,
                        };
                        if better {
                            best = Some(i);
                        }
                    }
                },
            }
        }
        proof {
            orders = before.push(verdict);
            assert forall|n: nat| n <= i implies #[trigger] best_of(
                window@,
                window.size(),
                candidates@,
                rates@,
                orders,
                n,
            ) == best_of(window@, window.size(), candidates@, rates@, before, n) by {
                lemma_best_of_agrees(window@, window.size(), candidates@, rates@, before, orders, n);
            }
        }
    }
    assert(orders_of(
        window@,
        window.size(),
        candidates@,
        rates@,
        *order,
        orders,
        candidates@.len(),
    ));
    match best {
        Some(best) => Some(candidates[best].slot),
        None => None,
    }
}

/// Which candidate is the best depends only on the orders of the candidates looked
/// at.
proof fn lemma_best_of_agrees<K>(
    log: Seq<Packed>,
    size: nat,
    candidates: Seq<Candidate>,
    rates: Seq<Option<K>>,
    orders: Seq<RateOrder>,
    other: Seq<RateOrder>,
    n: nat,
)
    requires
        forall|i: int| 0 <= i < n ==> orders[i] == other[i],
    ensures
        best_of(log, size, candidates, rates, orders, n) == best_of(
            log,
            size,
            candidates,
            rates,
            other,
            n,
        ),
    decreases n,
{
    if n > 0 {
        lemma_best_of_agrees(log, size, candidates, rates, orders, other, (n - 1) as nat);
    }
}

/// Whether two lengths are on average above what is computed exactly.
fn longer_on_average(a: usize, b: usize) -> (longer: bool)
    ensures
        longer == ((a + b) / 2 > EXACT_RATE_LEN),
{
    a > 2 * EXACT_RATE_LEN + 1 || b > 2 * EXACT_RATE_LEN + 1 - a
}

/// Every object of a log starts before its end.
proof fn lemma_starts_before_end(log: Seq<Packed>, b: int, window_size: nat, zstdelta: bool)
    requires
        log_right(log, window_size, zstdelta),
        0 <= b < log.len(),
    ensures
        log[b].start < log_end(log),
    decreases log.len() - b,
{
    assert(packed_right(log, b, window_size, zstdelta));
    if b + 1 < log.len() {
        assert(packed_right(log, b + 1, window_size, zstdelta));
        assert(log.take(b + 1).last() == log[b]);
        lemma_starts_before_end(log, b + 1, window_size, zstdelta);
    }
}

/// A log with one more object that is stored right is right.
proof fn lemma_log_grows(log: Seq<Packed>, packed: Packed, window_size: nat, zstdelta: bool)
    requires
        log_right(log, window_size, zstdelta),
        packed_right(log.push(packed), log.len() as int, window_size, zstdelta),
    ensures
        log_right(log.push(packed), window_size, zstdelta),
{
    let longer = log.push(packed);
    assert forall|i: int| 0 <= i < longer.len() implies #[trigger] packed_right(
        longer,
        i,
        window_size,
        zstdelta,
    ) by {
        if i < log.len() {
            assert(packed_right(log, i, window_size, zstdelta));
            assert(longer.take(i) =~= log.take(i));
        }
    }
}

} // verus!
