//! Encoding all objects of one kind through a delta window.
//!
//! What a delta saves, how two such rates stand to each other, and the delta itself
//! come from functions that the caller hands in.
use vstd::prelude::*;

use crate::error::GitError;
use crate::object::{Entry, IndexEntry};
#[allow(unused_imports)]
use crate::object::{encodable, unnumbered_reason};
use crate::window::{pick_base, Candidate, DeltaWindow, RateOrder, RateQuery};
#[allow(unused_imports)]
use crate::window::{
    base_view, candidate_right, candidates_right, held, holds_log, index_of, log_end, log_right,
    next_packed, packed_right, picked_right, queries_right, Packed,
};

verus! {

/// Whether a rating function can be asked anything and answers each query.
pub open spec fn rates_all<K, R: Fn(&Vec<RateQuery<'_>>, &[u8]) -> Vec<Option<K>>>(
    rate: R,
) -> bool {
    &&& forall|queries: &Vec<RateQuery<'_>>, data: &[u8]| #[trigger]
        call_requires(rate, (queries, data))
    &&& forall|queries: &Vec<RateQuery<'_>>, data: &[u8], rates: Vec<Option<K>>| #[trigger]
        call_ensures(rate, (queries, data), rates) ==> rates@.len() == queries@.len()
}

/// Whether any two rates can be compared.
pub open spec fn orders_all<K, O: Fn(&K, &K) -> RateOrder>(order: O) -> bool {
    forall|a: &K, b: &K| #[trigger] call_requires(order, (a, b))
}

/// Whether a delta can be made of any two objects.
pub open spec fn diffs_all<D: Fn(&[u8], &[u8], bool) -> Vec<u8>>(diff: D) -> bool {
    forall|base: &[u8], data: &[u8], zstdelta: bool| #[trigger]
        call_requires(diff, (base, data, zstdelta))
}

/// Whether `rates` is what the rating function answered for the candidates.
pub open spec fn rated<K, R: Fn(&Vec<RateQuery<'_>>, &[u8]) -> Vec<Option<K>>>(
    log: Seq<Packed>,
    size: nat,
    entry: Entry,
    candidates: Seq<Candidate>,
    rate: R,
    rates: Seq<Option<K>>,
) -> bool {
    exists|queries: &Vec<RateQuery<'_>>, data: &[u8], answer: Vec<Option<K>>|
        {
            &&& queries_right(log, size, candidates, queries@)
            &&& data@ == entry.data@
            &&& answer@ == rates
            &&& #[trigger] call_ensures(rate, (queries, data), answer)
        }
}

/// Whether `delta` is what the delta function made of two objects.
pub open spec fn diffed<D: Fn(&[u8], &[u8], bool) -> Vec<u8>>(
    diff: D,
    base: Seq<u8>,
    data: Seq<u8>,
    zstdelta: bool,
    delta: Seq<u8>,
) -> bool {
    exists|base_slice: &[u8], slice: &[u8], answer: Vec<u8>|
        {
            &&& base_slice@ == base
            &&& slice@ == data
            &&& answer@ == delta
            &&& #[trigger] call_ensures(diff, (base_slice, slice, zstdelta), answer)
        }
}

/// Whether `entry` gets the right base: the best of the candidates that save
/// enough, with the delta against it; none if no candidate saves enough.
pub open spec fn base_right<
    K,
    R: Fn(&Vec<RateQuery<'_>>, &[u8]) -> Vec<Option<K>>,
    O: Fn(&K, &K) -> RateOrder,
    D: Fn(&[u8], &[u8], bool) -> Vec<u8>,
>(
    log: Seq<Packed>,
    size: nat,
    zstdelta: bool,
    entry: Entry,
    rate: R,
    order: O,
    diff: D,
    base: Option<(int, Seq<u8>)>,
) -> bool {
    exists|candidates: Seq<Candidate>, rates: Seq<Option<K>>, picked: Option<usize>|
        {
            &&& candidates_right(log, size, entry, candidates)
            &&& rated(log, size, entry, candidates, rate, rates)
            &&& #[trigger] picked_right(log, size, candidates, rates, order, picked)
            &&& match picked {
                None => base is None,
                Some(slot) => {
                    &&& base matches Some((b, delta))
                    &&& b == index_of(log, size, slot as int)
                    &&& diffed(diff, log[b].data, entry.data@, zstdelta, delta)
                },
            }
        }
}

/// Whether the `i`th object of a log is the `i`th entry of a bucket, stored with the
/// right base.
pub open spec fn entry_follows<
    K,
    R: Fn(&Vec<RateQuery<'_>>, &[u8]) -> Vec<Option<K>>,
    O: Fn(&K, &K) -> RateOrder,
    D: Fn(&[u8], &[u8], bool) -> Vec<u8>,
>(
    bucket: Seq<Entry>,
    log: Seq<Packed>,
    i: int,
    size: nat,
    zstdelta: bool,
    rate: R,
    order: O,
    diff: D,
) -> bool {
    exists|base: Option<(int, Seq<u8>)>|
        {
            &&& #[trigger] base_right(
                log.take(i),
                size,
                zstdelta,
                bucket[i],
                rate,
                order,
                diff,
                base,
            )
            &&& log[i] == next_packed(log.take(i), zstdelta, bucket[i], base)
        }
}

/// Whether a log holds the first entries of a bucket, each stored right and with
/// the right base.
pub open spec fn log_follows<
    K,
    R: Fn(&Vec<RateQuery<'_>>, &[u8]) -> Vec<Option<K>>,
    O: Fn(&K, &K) -> RateOrder,
    D: Fn(&[u8], &[u8], bool) -> Vec<u8>,
>(
    bucket: Seq<Entry>,
    log: Seq<Packed>,
    size: nat,
    zstdelta: bool,
    rate: R,
    order: O,
    diff: D,
) -> bool {
    &&& log.len() <= bucket.len()
    &&& log_right(log, size, zstdelta)
    &&& forall|i: int|
        0 <= i < log.len() ==> #[trigger] entry_follows(
            bucket,
            log,
            i,
            size,
            zstdelta,
            rate,
            order,
            diff,
        )
}

/// Whether `res` holds all entries of a bucket, each stored right and with the right
/// base.
pub open spec fn bucket_encoded<
    K,
    R: Fn(&Vec<RateQuery<'_>>, &[u8]) -> Vec<Option<K>>,
    O: Fn(&K, &K) -> RateOrder,
    D: Fn(&[u8], &[u8], bool) -> Vec<u8>,
>(
    bucket: Seq<Entry>,
    res: Seq<(Vec<u8>, IndexEntry)>,
    size: nat,
    zstdelta: bool,
    rate: R,
    order: O,
    diff: D,
) -> bool {
    exists|log: Seq<Packed>|
        {
            &&& #[trigger] log_follows(bucket, log, size, zstdelta, rate, order, diff)
            &&& log.len() == bucket.len()
            &&& log_end(log) <= usize::MAX
            &&& holds_log(res, log)
        }
}

/// Whether the positions of a bucket's entries grow beyond what a machine word
/// holds.
pub open spec fn bucket_overflows<
    K,
    R: Fn(&Vec<RateQuery<'_>>, &[u8]) -> Vec<Option<K>>,
    O: Fn(&K, &K) -> RateOrder,
    D: Fn(&[u8], &[u8], bool) -> Vec<u8>,
>(
    bucket: Seq<Entry>,
    size: nat,
    zstdelta: bool,
    rate: R,
    order: O,
    diff: D,
) -> bool {
    exists|log: Seq<Packed>|
        {
            &&& #[trigger] log_follows(bucket, log, size, zstdelta, rate, order, diff)
            &&& log_end(log) > usize::MAX
        }
}

/// Whether the `i`th entry of a bucket comes to be encoded: no entry before it is refused
/// for want of a type number.
pub open spec fn reaches_window(bucket: Seq<Entry>, i: int) -> bool {
    &&& 0 <= i < bucket.len()
    &&& forall|j: int| 0 <= j < i ==> (#[trigger] bucket[j]).obj_type.pack_number() is Some
}

/// Encodes the entries of a bucket in order, each as a delta against one of the
/// `window_size` entries before it where that saves enough, and whole otherwise.
///
/// The results are in the order of the entries, with positions still to be set.
/// `None` comes where the positions would grow beyond what a machine word holds.
pub fn try_as_offset_delta<
    K,
    R: Fn(&Vec<RateQuery<'_>>, &[u8]) -> Vec<Option<K>>,
    O: Fn(&K, &K) -> RateOrder,
    D: Fn(&[u8], &[u8], bool) -> Vec<u8>,
>(
    bucket: Vec<Entry>,
    window_size: usize,
    enable_zstdelta: bool,
    rate: &R,
    order: &O,
    diff: &D,
) -> (outcome: Result<Option<Vec<(Vec<u8>, IndexEntry)>>, GitError>)
    requires
        rates_all(*rate),
        orders_all(*order),
        diffs_all(*diff),
        forall|i: int| #[trigger]
            reaches_window(bucket@, i) ==> encodable(bucket@[i].obj_type, None),
    ensures
        match outcome {
            Ok(Some(res)) => bucket_encoded(
                bucket@,
                res@,
                window_size as nat,
                enable_zstdelta,
                *rate,
                *order,
                *diff,
            ),
            Ok(None) => bucket_overflows(
                bucket@,
                window_size as nat,
                enable_zstdelta,
                *rate,
                *order,
                *diff,
            ),
            Err(error) => exists|i: int|
                {
                    &&& #[trigger] reaches_window(bucket@, i)
                    &&& bucket@[i].obj_type.pack_number() is None
                    &&& error.reason() == unnumbered_reason(bucket@[i].obj_type)
                },
        },
{
    let ghost size = window_size as nat;
    let mut window: DeltaWindow = DeltaWindow::new(window_size, enable_zstdelta);
    for entry in it: bucket
        invariant
            it.seq() == bucket@,
            size == window_size as nat,
            rates_all(*rate),
            orders_all(*order),
            diffs_all(*diff),
            forall|i: int| #[trigger]
                reaches_window(bucket@, i) ==> encodable(bucket@[i].obj_type, None),
            window.wf(),
            window.size() == size,
            window.zstdelta() == enable_zstdelta,
            window@.len() == it.index(),
            log_end(window@) <= usize::MAX,
            log_follows(bucket@, window@, size, enable_zstdelta, *rate, *order, *diff),
    {
        let ghost log = window@;
        let ghost source = entry;
        let candidates: Vec<Candidate> = window.candidates(&entry);
        let queries: Vec<RateQuery<'_>> = window.queries(&candidates, &entry);
        let rates: Vec<Option<K>> = rate(&queries, entry.data.as_slice());
        proof {
            assert(rated(log, size, source, candidates@, *rate, rates@));
            assert forall|i: int| 0 <= i < candidates@.len() implies (
            #[trigger] candidates@[i]).slot < held(log, size) by {
                assert(candidate_right(log, size, source, candidates@[i]));
            }
        }
        let picked: Option<usize> = pick_base(&window, &candidates, &rates, order);
        let base: Option<(usize, Vec<u8>)> = match picked {
            None => None,
            Some(slot) => {
                proof {
                    let i = choose|i: int|
                        0 <= i < candidates@.len() && (#[trigger] candidates@[i]).slot == slot
                            && rates@[i] is Some;
                    assert(candidate_right(log, size, source, candidates@[i]));
                }
                let delta: Vec<u8> = diff(
                    window.base_data(slot),
                    entry.data.as_slice(),
                    enable_zstdelta,
                );
                assert(diffed(
                    *diff,
                    log[index_of(log, size, slot as int)].data,
                    source.data@,
                    enable_zstdelta,
                    delta@,
                ));
                Some((slot, delta))
            },
        };
        let ghost base_seen = base_view(log, size, base);
        let ghost packed = next_packed(log, enable_zstdelta, source, base_seen);
        assert(base_right(
            log,
            size,
            enable_zstdelta,
            source,
            *rate,
            *order,
            *diff,
            base_seen,
        ));
        assert(reaches_window(bucket@, it.index())) by {
            assert forall|j: int| 0 <= j < it.index() implies (
            #[trigger] bucket@[j]).obj_type.pack_number() is Some by {
                lemma_entry_in_log(
                    bucket@,
                    log,
                    j,
                    size,
                    enable_zstdelta,
                    *rate,
                    *order,
                    *diff,
                );
            }
        }
        let stored: Result<bool, GitError> = window.encode_next(entry, base);
        proof {
            if source.obj_type.pack_number() is Some {
                lemma_log_follows_grows(
                    bucket@,
                    log,
                    base_seen,
                    size,
                    enable_zstdelta,
                    *rate,
                    *order,
                    *diff,
                );
                assert(log_end(log.push(packed)) == packed.start + packed.bytes().len());
            }
        }
        match stored {
            Ok(true) => {},
            Ok(false) => {
                return Ok(None);
            },
            Err(error) => {
                return Err(error);
            },
        }
    }
    Ok(Some(window.finish()))
}

/// A log goes on following a bucket when the next entry is stored with the right
/// base.
proof fn lemma_log_follows_grows<
    K,
    R: Fn(&Vec<RateQuery<'_>>, &[u8]) -> Vec<Option<K>>,
    O: Fn(&K, &K) -> RateOrder,
    D: Fn(&[u8], &[u8], bool) -> Vec<u8>,
>(
    bucket: Seq<Entry>,
    log: Seq<Packed>,
    base: Option<(int, Seq<u8>)>,
    size: nat,
    zstdelta: bool,
    rate: R,
    order: O,
    diff: D,
)
    requires
        log_follows(bucket, log, size, zstdelta, rate, order, diff),
        log.len() < bucket.len(),
        base_right(
            log,
            size,
            zstdelta,
            bucket[log.len() as int],
            rate,
            order,
            diff,
            base,
        ),
        log_right(
            log.push(next_packed(log, zstdelta, bucket[log.len() as int], base)),
            size,
            zstdelta,
        ),
    ensures
        log_follows(
            bucket,
            log.push(next_packed(log, zstdelta, bucket[log.len() as int], base)),
            size,
            zstdelta,
            rate,
            order,
            diff,
        ),
{
    let longer = log.push(next_packed(log, zstdelta, bucket[log.len() as int], base));
    assert forall|i: int| 0 <= i < longer.len() implies #[trigger] entry_follows(
        bucket,
        longer,
        i,
        size,
        zstdelta,
        rate,
        order,
        diff,
    ) by {
        if i < log.len() {
            assert(entry_follows(bucket, log, i, size, zstdelta, rate, order, diff));
            assert(longer.take(i) =~= log.take(i));
        } else {
            assert(longer.take(i) =~= log);
        }
    }
}

/// What a log that follows a bucket holds of an entry, and how its delta came about.
pub proof fn lemma_entry_in_log<
    K,
    R: Fn(&Vec<RateQuery<'_>>, &[u8]) -> Vec<Option<K>>,
    O: Fn(&K, &K) -> RateOrder,
    D: Fn(&[u8], &[u8], bool) -> Vec<u8>,
>(
    bucket: Seq<Entry>,
    log: Seq<Packed>,
    i: int,
    size: nat,
    zstdelta: bool,
    rate: R,
    order: O,
    diff: D,
)
    requires
        log_follows(bucket, log, size, zstdelta, rate, order, diff),
        0 <= i < log.len(),
    ensures
        log[i].obj_type == bucket[i].obj_type,
        log[i].hash == bucket[i].hash,
        log[i].data == bucket[i].data@,
        log[i].obj_type.pack_number() is Some,
        log[i].base matches Some(b) ==> diffed(
            diff,
            log[b].data,
            log[i].data,
            zstdelta,
            log[i].payload,
        ),
{
    assert(entry_follows(bucket, log, i, size, zstdelta, rate, order, diff));
    assert(packed_right(log, i, size, zstdelta));
    let base = choose|base: Option<(int, Seq<u8>)>|
        {
            &&& #[trigger] base_right(
                log.take(i),
                size,
                zstdelta,
                bucket[i],
                rate,
                order,
                diff,
                base,
            )
            &&& log[i] == next_packed(log.take(i), zstdelta, bucket[i], base)
        };
    if let Some((b, delta)) = base {
        assert(log[i].base == Some(b));
        assert(log.take(i)[b] == log[b]);
    }
}

} // verus!
