//! Encoding a pack through delta windows, one for each kind of object.
use vstd::prelude::*;

use crate::buckets::{sort_bucket, EntryBuckets, Incoming};
#[allow(unused_imports)]
use crate::buckets::{
    all_of_type, apart, arranged, lemma_apart_grows, sorted_from, unsupported_reason, windowed,
    BucketsView,
};
use crate::delta::try_as_offset_delta;
#[allow(unused_imports)]
use crate::delta::{bucket_encoded, bucket_overflows, diffs_all, orders_all, rates_all};
#[allow(unused_imports)]
use crate::encoder::{
    bodies, chunk_views, hashes, in_progress_reason, joined, lemma_joined_front, lemma_joined_step,
    pack_finished, placed, sent, with_header, EncoderView,
};
use crate::encoder::PackEncoder;
use crate::error::GitError;
#[allow(unused_imports)]
use crate::format::header_bytes;
#[allow(unused_imports)]
use crate::hash::digest;
use crate::object::{Entry, IndexEntry, ObjectType};
#[allow(unused_imports)]
use crate::order::lists_once;
use crate::window::{RateOrder, RateQuery};

verus! {

/// The size of the delta windows of an encoder that was given none, when it is asked for
/// zstd deltas.
pub const ZSTDELTA_WINDOW: usize = 10;

/// The size of the delta windows in use: that of the encoder. For zstd deltas there is
/// always a window, so that size zero stands for a default there.
pub open spec fn window_in_use(window_size: nat, zstdelta: bool) -> nat {
    if zstdelta && window_size == 0 {
        ZSTDELTA_WINDOW as nat
    } else {
        window_size
    }
}

/// Whether `res` holds the entries of a bucket, sorted and encoded through a window.
pub open spec fn bucket_done<
    K,
    R: Fn(&Vec<RateQuery<'_>>, &[u8]) -> Vec<Option<K>>,
    O: Fn(&K, &K) -> RateOrder,
    D: Fn(&[u8], &[u8], bool) -> Vec<u8>,
>(
    bucket: Seq<Incoming>,
    res: Seq<(Vec<u8>, IndexEntry)>,
    size: nat,
    zstdelta: bool,
    rate: R,
    order: O,
    diff: D,
) -> bool {
    exists|sorted: Seq<Entry>| #[trigger]
        sorted_from(bucket, sorted) && bucket_encoded(
            sorted,
            res,
            size,
            zstdelta,
            rate,
            order,
            diff,
        )
}

/// Whether the positions of a bucket's entries, sorted, grow beyond what a machine
/// word holds.
pub open spec fn bucket_too_long<
    K,
    R: Fn(&Vec<RateQuery<'_>>, &[u8]) -> Vec<Option<K>>,
    O: Fn(&K, &K) -> RateOrder,
    D: Fn(&[u8], &[u8], bool) -> Vec<u8>,
>(bucket: Seq<Incoming>, size: nat, zstdelta: bool, rate: R, order: O, diff: D) -> bool {
    exists|sorted: Seq<Entry>| #[trigger]
        sorted_from(bucket, sorted) && bucket_overflows(
            sorted,
            size,
            zstdelta,
            rate,
            order,
            diff,
        )
}

/// Whether `res` holds the entries of all kinds, each kind sorted and encoded through
/// a window of its own: commits, then trees, then blobs, then tags.
pub open spec fn all_done<
    K,
    R: Fn(&Vec<RateQuery<'_>>, &[u8]) -> Vec<Option<K>>,
    O: Fn(&K, &K) -> RateOrder,
    D: Fn(&[u8], &[u8], bool) -> Vec<u8>,
>(
    buckets: BucketsView,
    res: Seq<(Vec<u8>, IndexEntry)>,
    size: nat,
    zstdelta: bool,
    rate: R,
    order: O,
    diff: D,
) -> bool {
    exists|
        commits: Seq<(Vec<u8>, IndexEntry)>,
        trees: Seq<(Vec<u8>, IndexEntry)>,
        blobs: Seq<(Vec<u8>, IndexEntry)>,
        tags: Seq<(Vec<u8>, IndexEntry)>,
    |
        {
            &&& bucket_done(
                buckets.commits,
                commits,
                size,
                zstdelta,
                rate,
                order,
                diff,
            )
            &&& bucket_done(
                buckets.trees,
                trees,
                size,
                zstdelta,
                rate,
                order,
                diff,
            )
            &&& bucket_done(
                buckets.blobs,
                blobs,
                size,
                zstdelta,
                rate,
                order,
                diff,
            )
            &&& bucket_done(
                buckets.tags,
                tags,
                size,
                zstdelta,
                rate,
                order,
                diff,
            )
            &&& res == #[trigger] four_joined(commits, trees, blobs, tags)
        }
}

/// Four lists of results one behind the other.
pub open spec fn four_joined(
    commits: Seq<(Vec<u8>, IndexEntry)>,
    trees: Seq<(Vec<u8>, IndexEntry)>,
    blobs: Seq<(Vec<u8>, IndexEntry)>,
    tags: Seq<(Vec<u8>, IndexEntry)>,
) -> Seq<(Vec<u8>, IndexEntry)> {
    commits + trees + blobs + tags
}

/// Whether the pack grows beyond what a machine word holds: the entries of one kind
/// do, or all of them together behind what was written before.
pub open spec fn pack_too_long<
    K,
    R: Fn(&Vec<RateQuery<'_>>, &[u8]) -> Vec<Option<K>>,
    O: Fn(&K, &K) -> RateOrder,
    D: Fn(&[u8], &[u8], bool) -> Vec<u8>,
>(
    buckets: BucketsView,
    offset: nat,
    size: nat,
    zstdelta: bool,
    rate: R,
    order: O,
    diff: D,
) -> bool {
    ||| bucket_too_long(
        buckets.commits,
        size,
        zstdelta,
        rate,
        order,
        diff,
    )
    ||| bucket_too_long(buckets.trees, size, zstdelta, rate, order, diff)
    ||| bucket_too_long(buckets.blobs, size, zstdelta, rate, order, diff)
    ||| bucket_too_long(buckets.tags, size, zstdelta, rate, order, diff)
    ||| exists|res: Seq<(Vec<u8>, IndexEntry)>| #[trigger]
        all_done(buckets, res, size, zstdelta, rate, order, diff) && offset + joined(
            bodies(res),
        ).len() > usize::MAX
}

/// Whether `error` refuses the first entry that the delta window does not take.
pub open spec fn refuses_first(entries: Seq<Incoming>, error: GitError) -> bool {
    exists|k: int|
        {
            &&& 0 <= k < entries.len()
            &&& !windowed((#[trigger] entries[k]).inner.obj_type)
            &&& forall|j: int| 0 <= j < k ==> windowed((#[trigger] entries[j]).inner.obj_type)
            &&& error.reason() == unsupported_reason(entries[k].inner.obj_type)
        }
}

impl PackEncoder {
    /// Sorts the buckets, encodes each through a delta window of the size in use,
    /// and writes and finishes the pack. Gives `false`, and writes nothing, where the
    /// pack would grow beyond what a machine word holds.
    pub fn encode_buckets<
        K,
        R: Fn(&Vec<RateQuery<'_>>, &[u8]) -> Vec<Option<K>>,
        O: Fn(&K, &K) -> RateOrder,
        D: Fn(&[u8], &[u8], bool) -> Vec<u8>,
    >(
        &mut self,
        buckets: EntryBuckets,
        enable_zstdelta: bool,
        rate: &R,
        order: &O,
        diff: &D,
        out: &mut Vec<Vec<u8>>,
    ) -> (done: bool)
        requires
            buckets@.typed(),
            rates_all(*rate),
            orders_all(*order),
            diffs_all(*diff),
        ensures
            done ==> exists|res: Seq<(Vec<u8>, IndexEntry)>|
                {
                    &&& #[trigger] all_done(
                        buckets@,
                        res,
                        window_in_use(old(self)@.window_size, enable_zstdelta),
                        enable_zstdelta,
                        *rate,
                        *order,
                        *diff,
                    )
                    &&& pack_finished(
                        old(self)@,
                        final(self)@,
                        hashes(res),
                        bodies(res),
                        chunk_views(old(out)@),
                        chunk_views(final(out)@),
                    )
                },
            !done ==> {
                &&& final(self)@ == old(self)@
                &&& chunk_views(final(out)@) == chunk_views(old(out)@)
                &&& pack_too_long(
                    buckets@,
                    old(self)@.offset,
                    window_in_use(old(self)@.window_size, enable_zstdelta),
                    enable_zstdelta,
                    *rate,
                    *order,
                    *diff,
                )
            },
    {
        let ghost parts = buckets@;
        let (commits, trees, blobs, tags) = buckets.into_parts();
        let window_size: usize = if enable_zstdelta && self.window_size() == 0 {
            ZSTDELTA_WINDOW
        } else {
            self.window_size()
        };
        let ghost before = self@;
        let ghost out_before = chunk_views(out@);
        let ghost size = window_in_use(before.window_size, enable_zstdelta);
        assert(size == window_size as nat);
        let commits = match encode_bucket(
            commits,
            ObjectType::Commit,
            window_size,
            enable_zstdelta,
            rate,
            order,
            diff,
        ) {
            Some(res) => res,
            None => {
                return false;
            },
        };
        let trees = match encode_bucket(
            trees,
            ObjectType::Tree,
            window_size,
            enable_zstdelta,
            rate,
            order,
            diff,
        ) {
            Some(res) => res,
            None => {
                return false;
            },
        };
        let blobs = match encode_bucket(
            blobs,
            ObjectType::Blob,
            window_size,
            enable_zstdelta,
            rate,
            order,
            diff,
        ) {
            Some(res) => res,
            None => {
                return false;
            },
        };
        let tags = match encode_bucket(
            tags,
            ObjectType::Tag,
            window_size,
            enable_zstdelta,
            rate,
            order,
            diff,
        ) {
            Some(res) => res,
            None => {
                return false;
            },
        };
        let ghost res = four_joined(commits@, trees@, blobs@, tags@);
        assert(all_done(parts, res, size, enable_zstdelta, *rate, *order, *diff));
        let mut all: Vec<(Vec<u8>, IndexEntry)> = commits;
        let mut trees: Vec<(Vec<u8>, IndexEntry)> = trees;
        let mut blobs: Vec<(Vec<u8>, IndexEntry)> = blobs;
        let mut tags: Vec<(Vec<u8>, IndexEntry)> = tags;
        all.append(&mut trees);
        all.append(&mut blobs);
        all.append(&mut tags);
        assert(all@ =~= res);
        match total_len(&all) {
            Some(total) => {
                if !self.has_room(total) {
                    return false;
                }
            },
            None => {
                return false;
            },
        }
        let mut idx_entries: Vec<IndexEntry> = Vec::new();
        self.write_objects(&all, &mut idx_entries, out);
        assert(idx_entries@ =~= placed(hashes(res), bodies(res), before.offset));
        self.seal(idx_entries, out);
        assert(chunk_views(out@) =~= out_before + sent(
            before.pack_open,
            bodies(res).push(digest(before.kind, before.hashed + joined(bodies(res)))),
        ));
        true
    }

    /// Encodes all entries through delta windows: the header, the objects of each kind
    /// in turn, and the checksum. The first entry that the windows do not take is
    /// refused, and so is a second encoding; the header has then been sent. Gives
    /// `false` where the pack would grow beyond what a machine word holds.
    pub fn inner_encode<
        K,
        R: Fn(&Vec<RateQuery<'_>>, &[u8]) -> Vec<Option<K>>,
        O: Fn(&K, &K) -> RateOrder,
        D: Fn(&[u8], &[u8], bool) -> Vec<u8>,
    >(
        &mut self,
        entries: Vec<Incoming>,
        enable_zstdelta: bool,
        rate: &R,
        order: &O,
        diff: &D,
        out: &mut Vec<Vec<u8>>,
    ) -> (done: Result<bool, GitError>)
        requires
            0 < old(self)@.object_number <= u32::MAX,
            rates_all(*rate),
            orders_all(*order),
            diffs_all(*diff),
        ensures
            window_outcome(
                old(self)@,
                final(self)@,
                entries@,
                enable_zstdelta,
                *rate,
                *order,
                *diff,
                chunk_views(old(out)@),
                chunk_views(final(out)@),
                done,
            ),
    {
        if let Err(error) = self.begin(out) {
            return Err(error);
        }
        let mut buckets: EntryBuckets = EntryBuckets::new();
        let ghost mut seen: Seq<Incoming> = Seq::empty();
        for entry in it: entries
            invariant
                it.seq() == entries@,
                seen == entries@.take(it.index()),
                buckets@ == apart(seen),
                buckets@.typed(),
                self@ == with_header(old(self)@),
                !old(self)@.started,
                chunk_views(out@) == chunk_views(old(out)@) + sent(
                    old(self)@.pack_open,
                    seq![header_bytes(old(self)@.object_number)],
                ),
                forall|j: int|
                    0 <= j < it.index() ==> windowed((#[trigger] entries@[j]).inner.obj_type),
        {
            let ghost next = entry;
            proof {
                assert(entries@.take(it.index() + 1) =~= seen.push(next));
                lemma_apart_grows(seen, next);
            }
            if let Err(error) = buckets.add_entry(entry) {
                assert(!windowed(entries@[it.index()].inner.obj_type));
                return Err(error);
            }
            proof {
                seen = seen.push(next);
            }
        }
        assert(entries@.take(entries@.len() as int) =~= entries@);
        Ok(self.encode_buckets(buckets, enable_zstdelta, rate, order, diff, out))
    }

    /// Encodes all entries through delta windows, with zstd deltas. An encoder without a
    /// window gets one of the default size.
    pub fn encode_with_zstdelta<
        K,
        R: Fn(&Vec<RateQuery<'_>>, &[u8]) -> Vec<Option<K>>,
        O: Fn(&K, &K) -> RateOrder,
        D: Fn(&[u8], &[u8], bool) -> Vec<u8>,
    >(
        &mut self,
        entries: Vec<Incoming>,
        rate: &R,
        order: &O,
        diff: &D,
        out: &mut Vec<Vec<u8>>,
    ) -> (done: Result<bool, GitError>)
        requires
            0 < old(self)@.object_number <= u32::MAX,
            rates_all(*rate),
            orders_all(*order),
            diffs_all(*diff),
        ensures
            window_outcome(
                old(self)@,
                final(self)@,
                entries@,
                true,
                *rate,
                *order,
                *diff,
                chunk_views(old(out)@),
                chunk_views(final(out)@),
                done,
            ),
    {
        self.inner_encode(entries, true, rate, order, diff, out)
    }
}

/// Whether encoding through delta windows ended as it should.
pub open spec fn window_outcome<
    K,
    R: Fn(&Vec<RateQuery<'_>>, &[u8]) -> Vec<Option<K>>,
    O: Fn(&K, &K) -> RateOrder,
    D: Fn(&[u8], &[u8], bool) -> Vec<u8>,
>(
    before: EncoderView,
    after: EncoderView,
    entries: Seq<Incoming>,
    zstdelta: bool,
    rate: R,
    order: O,
    diff: D,
    out_before: Seq<Seq<u8>>,
    out_after: Seq<Seq<u8>>,
    done: Result<bool, GitError>,
) -> bool {
    let begun = with_header(before);
    let out_begun = out_before + sent(
        before.pack_open,
        seq![header_bytes(before.object_number)],
    );
    &&& done is Err <==> before.started || exists|k: int|
        0 <= k < entries.len() && !windowed((#[trigger] entries[k]).inner.obj_type)
    &&& match done {
        Err(error) => {
            &&& after == begun
            &&& out_after == out_begun
            &&& if before.started {
                error.reason() == in_progress_reason()
            } else {
                refuses_first(entries, error)
            }
        },
        Ok(true) => exists|res: Seq<(Vec<u8>, IndexEntry)>|
            {
                &&& #[trigger] all_done(
                    apart(entries),
                    res,
                    window_in_use(before.window_size, zstdelta),
                    zstdelta,
                    rate,
                    order,
                    diff,
                )
                &&& pack_finished(begun, after, hashes(res), bodies(res), out_begun, out_after)
            },
        Ok(false) => {
            &&& after == begun
            &&& out_after == out_begun
            &&& pack_too_long(
                apart(entries),
                before.offset,
                window_in_use(before.window_size, zstdelta),
                zstdelta,
                rate,
                order,
                diff,
            )
        },
    }
}

/// Sorts a bucket and encodes it through a window.
fn encode_bucket<
    K,
    R: Fn(&Vec<RateQuery<'_>>, &[u8]) -> Vec<Option<K>>,
    O: Fn(&K, &K) -> RateOrder,
    D: Fn(&[u8], &[u8], bool) -> Vec<u8>,
>(
    bucket: Vec<Incoming>,
    obj_type: ObjectType,
    window_size: usize,
    enable_zstdelta: bool,
    rate: &R,
    order: &O,
    diff: &D,
) -> (encoded: Option<Vec<(Vec<u8>, IndexEntry)>>)
    requires
        all_of_type(bucket@, obj_type),
        windowed(obj_type),
        rates_all(*rate),
        orders_all(*order),
        diffs_all(*diff),
    ensures
        match encoded {
            Some(res) => bucket_done(
                bucket@,
                res@,
                window_size as nat,
                enable_zstdelta,
                *rate,
                *order,
                *diff,
            ),
            None => bucket_too_long(
                bucket@,
                window_size as nat,
                enable_zstdelta,
                *rate,
                *order,
                *diff,
            ),
        },
{
    let ghost all = bucket@;
    let sorted: Vec<Entry> = sort_bucket(bucket);
    let ghost entries_sorted = sorted@;
    proof {
        assert forall|i: int| 0 <= i < entries_sorted.len() implies (
        #[trigger] entries_sorted[i]).obj_type == obj_type by {
            let order = choose|order: Seq<usize>|
                {
                    &&& lists_once(order, 0, all.len() as int)
                    &&& crate::order::in_order(crate::order::sort_views(all), order)
                    &&& entries_sorted == #[trigger] arranged(all, order)
                };
            assert(order.contains(order[i]));
            assert(all[order[i] as int].inner.obj_type == obj_type);
        }
    }
    match try_as_offset_delta(sorted, window_size, enable_zstdelta, rate, order, diff) {
        Ok(encoded) => encoded,
        Err(_) => {
            assert(false);
            None
        },
    }
}

/// The number of bytes of all objects together, if a machine word holds it.
fn total_len(res: &Vec<(Vec<u8>, IndexEntry)>) -> (total: Option<usize>)
    ensures
        match total {
            Some(len) => len == joined(bodies(res@)).len(),
            None => joined(bodies(res@)).len() > usize::MAX,
        },
{
    let ghost all = bodies(res@);
    let mut total: usize = 0;
    for i in 0..res.len()
        invariant
            all == bodies(res@),
            total == joined(all.take(i as int)).len(),
    {
        proof {
            lemma_joined_step(all, i as int);
            lemma_joined_front(all, i + 1);
        }
        if res[i].0.len() > usize::MAX - total {
            return None;
        }
        total = total + res[i].0.len();
    }
    assert(all.take(all.len() as int) =~= all);
    Some(total)
}

} // verus!
