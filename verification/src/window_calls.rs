//! What calls of the delta window come to.
#![allow(unused_imports)]
use vstd::prelude::*;

use crate::delta::{bucket_overflows, log_follows, rates_all, reaches_window, try_as_offset_delta};
use crate::delta_laws::{
    begin_alike, chains_of, chosen_right, found_better, law_base_is_chosen_right,
    law_bucket_is_stored_right, law_candidates_are_complete, law_candidates_are_worth_trying,
    law_cheap_test_knows_like_beginnings, law_delta_object_comes_apart,
    law_last_champion_is_picked, law_whole_object_comes_apart, lemma_place, stored_right,
    succeed_each_other, tested, unframed, window_start, worth_trying, Choice,
};
use crate::error::GitError;
use crate::object::{Entry, IndexEntry, ObjectType};
use crate::reading::{delta_number, kind_number, lemma_joined_is_flat, lemma_starts, log_bodies};
use crate::similarity::{cheap_similar, fronts_match, sizes_differ};
use crate::window::{
    base_view, candidate_right, held, index_of, log_end, next_packed, packed_right, pick_base,
    Candidate, DeltaWindow, Packed, RateOrder, RateQuery,
};

verus! {

/// The cheap test calls objects that begin alike similar, and an empty object similar to none.
pub proof fn law_cheap_test(a: &[u8], b: &[u8], similar: bool)
    requires
        call_ensures(cheap_similar, (a, b), similar),
    ensures
        begin_alike(a@, b@) ==> similar,
        a@.len() == 0 || b@.len() == 0 ==> !similar,
{
    law_cheap_test_knows_like_beginnings(a@, b@, similar);
}

/// Fronts match if they are not empty and their hashes are the same; sizes differ if one is
/// more than twice the other, whichever it is.
pub proof fn law_fronts_and_sizes(
    len: usize,
    hashes: (u64, u64),
    matching: bool,
    old_len: usize,
    new_len: usize,
    differ: bool,
)
    requires
        call_ensures(fronts_match, (len, hashes), matching),
        call_ensures(sizes_differ, (old_len, new_len), differ),
    ensures
        matching <==> len > 0 && hashes.0 == hashes.1,
        differ <==> old_len > 2 * new_len || new_len > 2 * old_len,
{
}

/// The object in a place of the window, the oldest of the last `size` being in place zero.
pub open spec fn in_place(window: DeltaWindow, slot: usize) -> Packed {
    window@[window_start(window@.len(), window.size()) + slot]
}

/// Whether the window holds an object in a place.
pub open spec fn has_place(window: DeltaWindow, slot: usize) -> bool {
    slot < window.size() && slot < window@.len()
}

/// A new window has stored nothing, and is as large as was asked for.
pub proof fn law_new_window(window_size: usize, zstdelta: bool, window: DeltaWindow)
    requires
        call_ensures(DeltaWindow::new, (window_size, zstdelta), window),
    ensures
        window.wf(),
        window@.len() == 0,
        window.size() == window_size,
        window.zstdelta() == zstdelta,
{
}

/// What is asked of a place of the window: the data of the object there, all of it, and the
/// length of the chain that it ends.
pub proof fn law_place_of_the_window(
    window: &DeltaWindow,
    slot: usize,
    data: &[u8],
    len: usize,
)
    requires
        has_place(*window, slot),
        call_ensures(DeltaWindow::base_data, (window, slot), data),
        call_ensures(DeltaWindow::chain_len, (window, slot), len),
    ensures
        data@ == in_place(*window, slot).data,
        len == in_place(*window, slot).chain_len,
{
    lemma_index(window@, window.size(), slot as int);
}

/// An object may serve as a base just where it is worth trying, whatever its kind.
pub proof fn law_what_may_serve(window: &DeltaWindow, slot: usize, entry: &Entry, eligible: bool)
    requires
        has_place(*window, slot),
        call_ensures(DeltaWindow::may_serve, (window, slot, entry), eligible),
    ensures
        eligible == worth_trying(in_place(*window, slot), *entry),
{
    lemma_place(window@, window.size(), slot as int, *entry);
}

/// An object that the cheap test called similar is offered, to be rated by estimate if the two
/// are longer than 64 bytes on average; any other is not.
pub proof fn law_offer(
    window: &DeltaWindow,
    slot: usize,
    entry: &Entry,
    similar: bool,
    candidate: Option<Candidate>,
)
    requires
        has_place(*window, slot),
        call_ensures(DeltaWindow::offer, (window, slot, entry, similar), candidate),
    ensures
        candidate is Some <==> similar,
        candidate matches Some(offered) ==> offered.slot == slot && offered.estimate == ((
        in_place(*window, slot).data.len() + entry.data@.len()) / 2 > 64),
{
    lemma_index(window@, window.size(), slot as int);
}

/// The candidates go from the oldest to the newest; each is worth trying and called similar by
/// the cheap test.
pub proof fn law_candidates(
    window: &DeltaWindow,
    entry: &Entry,
    candidates: Vec<Candidate>,
    i: int,
)
    requires
        call_ensures(DeltaWindow::candidates, (window, entry), candidates),
        0 <= i < candidates@.len(),
    ensures
        ({
            let slot = candidates@[i].slot;
            let base = in_place(*window, slot);
            &&& has_place(*window, slot)
            &&& worth_trying(base, *entry)
            &&& tested(base.data, entry.data@, true)
            &&& candidates@[i].estimate == ((base.data.len() + entry.data@.len()) / 2 > 64)
            &&& i > 0 ==> candidates@[i - 1].slot < slot
        }),
{
    law_candidates_are_worth_trying(window@, window.size(), *entry, candidates@, i);
    assert(candidate_right(window@, window.size(), *entry, candidates@[i]));
}

/// An object in the window that is worth trying is a candidate, unless the cheap test called it
/// not similar, which it does not of one that begins like the entry.
pub proof fn law_no_candidate_is_overlooked(
    window: &DeltaWindow,
    entry: &Entry,
    candidates: Vec<Candidate>,
    slot: usize,
)
    requires
        call_ensures(DeltaWindow::candidates, (window, entry), candidates),
        has_place(*window, slot),
        worth_trying(in_place(*window, slot), *entry),
    ensures
        tested(in_place(*window, slot).data, entry.data@, false) || exists|i: int|
            0 <= i < candidates@.len() && (#[trigger] candidates@[i]).slot == slot,
        begin_alike(in_place(*window, slot).data, entry.data@) ==> exists|i: int|
            0 <= i < candidates@.len() && (#[trigger] candidates@[i]).slot == slot,
{
    let j = window_start(window@.len(), window.size()) + slot;
    law_candidates_are_complete(window@, window.size(), *entry, candidates@, j);
}

/// A query asks for all of the data of its candidate, and for an estimate where the candidate
/// says so.
pub proof fn law_queries(
    window: &DeltaWindow,
    candidates: &Vec<Candidate>,
    entry: &Entry,
    queries: Vec<RateQuery<'_>>,
    i: int,
)
    requires
        call_ensures(DeltaWindow::queries, (window, candidates, entry), queries),
        0 <= i < candidates@.len(),
        has_place(*window, candidates@[i].slot),
    ensures
        queries@.len() == candidates@.len(),
        queries@[i].base@ == in_place(*window, candidates@[i].slot).data,
        queries@[i].estimate == candidates@[i].estimate,
{
    lemma_index(window@, window.size(), candidates@[i].slot as int);
}

/// What stands in a place of the window.
proof fn lemma_index(log: Seq<Packed>, size: nat, slot: int)
    requires
        0 <= slot < size,
        slot < log.len(),
    ensures
        index_of(log, size, slot) == window_start(log.len(), size) + slot,
        slot < held(log, size),
{
}

/// The base that is picked among the candidates is the last of those that were the best in
/// turn; none is picked just where none saves enough.
pub proof fn law_picked_base<K, O: Fn(&K, &K) -> RateOrder>(
    window: &DeltaWindow,
    entry: &Entry,
    candidates: &Vec<Candidate>,
    rates: &Vec<Option<K>>,
    order: &O,
    picked: Option<usize>,
) -> (champions: Seq<int>)
    requires
        call_ensures(DeltaWindow::candidates, (window, entry), *candidates),
        rates@.len() == candidates@.len(),
        call_ensures(pick_base::<K, O>, (window, candidates, rates, order), picked),
    ensures
        match picked {
            None => forall|j: int| 0 <= j < rates@.len() ==> (#[trigger] rates@[j]) is None,
            Some(slot) => {
                &&& succeed_each_other(
                    *order,
                    rates@,
                    Seq::new(
                        candidates@.len(),
                        |i: int| in_place(*window, candidates@[i].slot).chain_len,
                    ),
                    champions,
                )
                &&& slot == candidates@[champions.last()].slot
            },
        },
{
    let chains = Seq::new(
        candidates@.len(),
        |i: int| in_place(*window, candidates@[i].slot).chain_len,
    );
    assert(chains =~= chains_of(window@, window.size(), candidates@));
    law_last_champion_is_picked(
        window@,
        window.size(),
        *entry,
        candidates@,
        rates@,
        *order,
        picked,
    )
}

/// Of two candidates that save enough, the second is picked if its rate is higher, whatever
/// their chains, and if the rates are tied and it ends the longer chain; the first is picked if
/// the rate of the second is lower, and if the rates are tied and the chain of the second is no
/// longer. If one of the two does not save enough, the other is picked.
pub proof fn law_picked_of_two<K, O: Fn(&K, &K) -> RateOrder>(
    window: &DeltaWindow,
    entry: &Entry,
    candidates: &Vec<Candidate>,
    rates: &Vec<Option<K>>,
    order: &O,
    answer: RateOrder,
    picked: Option<usize>,
)
    requires
        call_ensures(DeltaWindow::candidates, (window, entry), *candidates),
        candidates@.len() == 2,
        rates@.len() == 2,
        rates@[0] is Some && rates@[1] is Some ==> forall|said: RateOrder| #[trigger]
            call_ensures(order, (&(rates@[1]->0), &(rates@[0]->0)), said) ==> said == answer,
        call_ensures(pick_base::<K, O>, (window, candidates, rates, order), picked),
    ensures
        ({
            let (first, second) = (candidates@[0].slot, candidates@[1].slot);
            picked == match (rates@[0], rates@[1]) {
                (None, None) => None::<usize>,
                (Some(_), None) => Some(first),
                (None, Some(_)) => Some(second),
                (Some(_), Some(_)) => match answer {
                    RateOrder::Higher => Some(second),
                    RateOrder::Lower => Some(first),
                    RateOrder::Tied => if in_place(*window, second).chain_len > in_place(
                        *window,
                        first,
                    ).chain_len {
                        Some(second)
                    } else {
                        Some(first)
                    },
                },
            }
        }),
{
    let champions = law_picked_base(window, entry, candidates, rates, order, picked);
    let chains = Seq::new(
        candidates@.len(),
        |i: int| in_place(*window, candidates@[i].slot).chain_len,
    );
    reveal(succeed_each_other);
    if picked is None {
        assert(rates@[0] is None);
        assert(rates@[1] is None);
    } else {
        let last = champions.len() - 1;
        assert(0 <= champions[0] < 2);
        assert(0 <= champions[last] < 2);
        assert(rates@[champions[0]] is Some);
        assert(rates@[champions[last]] is Some);
        if champions[0] == 1 {
            assert(rates@[0] is None);
            if last > 0 {
                assert(champions[0] < champions[last]);
            }
        } else if rates@[1] is Some {
            if last == 0 {
                assert(champions[0] < 1);
                assert(found_better(
                    *order,
                    rates@[1]->0,
                    chains[1],
                    rates@[champions[0]]->0,
                    chains[champions[0]],
                    false,
                ));
            } else {
                assert(champions[0] < champions[last]);
                if last > 1 {
                    assert(champions[0] < champions[1]);
                    assert(champions[1] < champions[last]);
                }
                assert(last == 1);
                assert(found_better(
                    *order,
                    rates@[champions[1]]->0,
                    chains[champions[1]],
                    rates@[champions[1 - 1]]->0,
                    chains[champions[1 - 1]],
                    true,
                ));
            }
        } else {
            if last > 0 {
                assert(champions[0] < champions[last]);
            }
        }
    }
}

/// Where the next object of a log starts: behind the last.
pub open spec fn behind(log: Seq<Packed>) -> int {
    if log.len() == 0 {
        0
    } else {
        (log.last().start + log.last().bytes().len()) as int
    }
}

/// Storing an object adds it to the end of the log, with its own kind, hash and data. Without
/// a base it is stored whole, and its chain is the one it came with. With a base it is stored
/// as the delta given, at a distance that leads back to where the base starts, and its chain is
/// one longer than that of the base. It is left out if it would end beyond what a machine word
/// holds, and an AI object is refused.
pub proof fn law_stored_next(
    window: &mut DeltaWindow,
    entry: Entry,
    base: Option<(usize, Vec<u8>)>,
    stored: Result<bool, GitError>,
)
    requires
        base matches Some(chosen) ==> has_place(*old(window), chosen.0),
        kind_number(entry.obj_type) != 0 || entry.obj_type == ObjectType::Task,
        call_ensures(DeltaWindow::encode_next, (window, entry, base), stored),
    ensures
        final(window).size() == old(window).size(),
        final(window).zstdelta() == old(window).zstdelta(),
        stored is Err <==> entry.obj_type == ObjectType::Task,
        stored != Ok::<bool, GitError>(true) ==> final(window)@ == old(window)@,
        stored == Ok::<bool, GitError>(true) ==> {
            let packed = final(window)@.last();
            &&& final(window)@ == old(window)@.push(packed)
            &&& packed.obj_type == entry.obj_type
            &&& packed.hash == entry.hash
            &&& packed.data == entry.data@
            &&& packed.start == behind(old(window)@)
            &&& packed.start + packed.bytes().len() <= usize::MAX
            &&& match base {
                None => {
                    &&& packed.base is None
                    &&& packed.chain_len == entry.chain_len
                    &&& unframed(packed.bytes()) == Some(
                        (kind_number(entry.obj_type), None::<nat>, entry.data@),
                    )
                },
                Some((slot, delta)) => {
                    let chosen = in_place(*old(window), slot);
                    &&& packed.base == Some(
                        window_start(old(window)@.len(), old(window).size()) + slot,
                    )
                    &&& packed.chain_len == chosen.chain_len + 1
                    &&& chosen.start < packed.start
                    &&& unframed(packed.bytes()) == Some(
                        (
                            delta_number(old(window).zstdelta()),
                            Some((packed.start - chosen.start) as nat),
                            delta@,
                        ),
                    )
                },
            }
        },
{
    if entry.obj_type.pack_number() is Some {
        let log = old(window)@;
        let size = old(window).size();
        let zstdelta = old(window).zstdelta();
        let seen = base_view(log, size, base);
        let packed = next_packed(log, zstdelta, entry, seen);
        let longer = log.push(packed);
        let i = log.len() as int;
        assert(packed_right(longer, i, size, zstdelta));
        assert(longer.take(i) =~= log);
        match base {
            None => {
                law_whole_object_comes_apart(entry.obj_type, entry.data@);
            },
            Some((slot, delta)) => {
                lemma_index(log, size, slot as int);
                law_delta_object_comes_apart(zstdelta, delta@, packed.distance->0);
            },
        }
    }
}

/// What comes out of a window is the bytes and the hash of each object stored, in order.
pub proof fn law_finished_window(
    window: DeltaWindow,
    res: Vec<(Vec<u8>, IndexEntry)>,
    i: int,
)
    requires
        call_ensures(DeltaWindow::finish, (window,), res),
        0 <= i < window@.len(),
    ensures
        res@.len() == window@.len(),
        res@[i].0@ == window@[i].bytes(),
        res@[i].1.hash == window@[i].hash,
{
}

/// A bucket that went through a window comes out object by object. Each is stored right, whole
/// or as what `diff` answers for all of the base's data and all of its own, and its base is
/// chosen right among the `window_size` before it.
pub proof fn law_bucket_through_a_window<
    K,
    R: Fn(&Vec<RateQuery<'_>>, &[u8]) -> Vec<Option<K>>,
    O: Fn(&K, &K) -> RateOrder,
    D: Fn(&[u8], &[u8], bool) -> Vec<u8>,
>(
    bucket: Vec<Entry>,
    window_size: usize,
    zstdelta: bool,
    rate: &R,
    order: &O,
    diff: &D,
    res: Vec<(Vec<u8>, IndexEntry)>,
    i: int,
) -> (made: (Seq<Packed>, Choice<K>))
    requires
        rates_all(*rate),
        call_ensures(
            try_as_offset_delta::<K, R, O, D>,
            (bucket, window_size, zstdelta, rate, order, diff),
            Ok(Some(res)),
        ),
        0 <= i < bucket@.len(),
    ensures
        res@.len() == bucket@.len(),
        made.0.len() == bucket@.len(),
        stored_right(bucket@, res@, made.0, i, window_size as nat, zstdelta, *diff),
        chosen_right(bucket@, made.0, i, window_size as nat, *rate, *order, made.1),
{
    let size = window_size as nat;
    let log = law_bucket_is_stored_right(
        bucket@,
        res@,
        size,
        zstdelta,
        *rate,
        *order,
        *diff,
    );
    assert(stored_right(bucket@, res@, log, i, size, zstdelta, *diff));
    let choice = law_base_is_chosen_right(
        bucket@,
        log,
        i,
        size,
        zstdelta,
        *rate,
        *order,
        *diff,
    );
    (log, choice)
}

/// A bucket is refused for its first AI object only.
pub proof fn law_refused_bucket<
    K,
    R: Fn(&Vec<RateQuery<'_>>, &[u8]) -> Vec<Option<K>>,
    O: Fn(&K, &K) -> RateOrder,
    D: Fn(&[u8], &[u8], bool) -> Vec<u8>,
>(
    bucket: Vec<Entry>,
    window_size: usize,
    zstdelta: bool,
    rate: &R,
    order: &O,
    diff: &D,
    error: GitError,
) -> (i: int)
    requires
        call_ensures(
            try_as_offset_delta::<K, R, O, D>,
            (bucket, window_size, zstdelta, rate, order, diff),
            Err(error),
        ),
    ensures
        0 <= i < bucket@.len(),
        bucket@[i].obj_type == ObjectType::Task,
        forall|j: int| 0 <= j < i ==> (#[trigger] bucket@[j]).obj_type != ObjectType::Task,
        error.reason() == "object type `task` has no type number in a pack"@,
{
    let i = choose|i: int|
        {
            &&& #[trigger] reaches_window(bucket@, i)
            &&& bucket@[i].obj_type.pack_number() is None
            &&& error.reason() == crate::object::unnumbered_reason(bucket@[i].obj_type)
        };
    assert forall|j: int| 0 <= j < i implies (#[trigger] bucket@[j]).obj_type
        != ObjectType::Task by {
        assert(bucket@[j].obj_type.pack_number() is Some);
    }
    reveal_strlit("object type `");
    reveal_strlit("task");
    reveal_strlit("` has no type number in a pack");
    reveal_strlit("object type `task` has no type number in a pack");
    assert(error.reason() =~= "object type `task` has no type number in a pack"@);
    i
}

/// A bucket is left out only if its first objects, encoded, are longer together than a machine
/// word can tell.
pub proof fn law_bucket_that_is_too_long<
    K,
    R: Fn(&Vec<RateQuery<'_>>, &[u8]) -> Vec<Option<K>>,
    O: Fn(&K, &K) -> RateOrder,
    D: Fn(&[u8], &[u8], bool) -> Vec<u8>,
>(
    bucket: Vec<Entry>,
    window_size: usize,
    zstdelta: bool,
    rate: &R,
    order: &O,
    diff: &D,
) -> (log: Seq<Packed>)
    requires
        call_ensures(
            try_as_offset_delta::<K, R, O, D>,
            (bucket, window_size, zstdelta, rate, order, diff),
            Ok(None),
        ),
    ensures
        log_follows(bucket@, log, window_size as nat, zstdelta, *rate, *order, *diff),
        Seq::new(log.len(), |i: int| log[i].bytes()).flatten().len() > usize::MAX,
{
    lemma_overflow(bucket@, window_size as nat, zstdelta, *rate, *order, *diff)
}

/// The objects of a bucket that overflows are longer together than a machine word can tell.
pub proof fn lemma_overflow<
    K,
    R: Fn(&Vec<RateQuery<'_>>, &[u8]) -> Vec<Option<K>>,
    O: Fn(&K, &K) -> RateOrder,
    D: Fn(&[u8], &[u8], bool) -> Vec<u8>,
>(
    bucket: Seq<Entry>,
    size: nat,
    zstdelta: bool,
    rate: R,
    order: O,
    diff: D,
) -> (log: Seq<Packed>)
    requires
        bucket_overflows(bucket, size, zstdelta, rate, order, diff),
    ensures
        log_follows(bucket, log, size, zstdelta, rate, order, diff),
        Seq::new(log.len(), |i: int| log[i].bytes()).flatten().len() > usize::MAX,
{
    let log = choose|log: Seq<Packed>|
        {
            &&& #[trigger] log_follows(bucket, log, size, zstdelta, rate, order, diff)
            &&& log_end(log) > usize::MAX
        };
    let chunks = Seq::new(log.len(), |i: int| log[i].bytes());
    let n = log.len() as int;
    lemma_starts(log, size, zstdelta, n);
    assert(chunks =~= log_bodies(log).take(n));
    assert(log.take(n) =~= log);
    lemma_joined_is_flat(chunks);
    log
}

} // verus!
