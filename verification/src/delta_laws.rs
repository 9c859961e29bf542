//! What the choice of bases comes to, in terms of the objects themselves.
#![allow(unused_imports)]
use vstd::prelude::*;

use crate::delta::{
    base_right, bucket_encoded, diffed, entry_follows, lemma_entry_in_log, log_follows, rated,
    rates_all,
};
use crate::format::{
    distance_bytes, law_distance_reads_back, law_object_header_reads_back, object_header_bytes,
    read_distance, read_object_header,
};
use crate::object::{
    object_bytes, zlib_compressed, zlib_inflated, zlib_round_trips, Entry, IndexEntry, ObjectType,
};
use crate::reading::{delta_number, kind_number, lemma_joined_is_flat, lemma_starts, log_bodies};
use crate::similarity::{cheap_similar, prefix_len, same_front};
use crate::window::{
    best_of, candidate_right, candidates_right, chain_of, held, holds_log, index_of, log_end,
    log_right, next_packed, offered, orders_of, packed_right, passed_over, picked_right,
    queries_right, slot_eligible, Candidate, Packed, RateOrder, RateQuery,
};

verus! {

/// Where the last `size` of `n` objects begin.
pub open spec fn window_start(n: nat, size: nat) -> int {
    if n <= size {
        0
    } else {
        n - size
    }
}

/// Whether an earlier object is worth trying as a base, by what costs nothing to test: its
/// kind is the same, its hash is not, fewer than fifty deltas stand before it, and neither
/// of the two is more than twice as long as the other.
pub open spec fn worth_trying(base: Packed, entry: Entry) -> bool {
    &&& base.obj_type == entry.obj_type
    &&& base.hash != entry.hash
    &&& base.chain_len < 50
    &&& base.data.len() <= 2 * entry.data@.len()
    &&& entry.data@.len() <= 2 * base.data.len()
}

/// Whether the cheap test can have said `similar` of two objects, each in full.
pub open spec fn tested(a: Seq<u8>, b: Seq<u8>, similar: bool) -> bool {
    exists|slice_a: &[u8], slice_b: &[u8]|
        slice_a@ == a && slice_b@ == b && #[trigger] call_ensures(
            cheap_similar,
            (slice_a, slice_b),
            similar,
        )
}

/// Whether two objects begin alike: neither is empty, and they agree in as many bytes as
/// both have, up to 128.
pub open spec fn begin_alike(a: Seq<u8>, b: Seq<u8>) -> bool {
    &&& a.len() > 0
    &&& b.len() > 0
    &&& forall|m: int|
        0 <= m < 128 && m < a.len() && m < b.len() ==> #[trigger] a[m] == #[trigger] b[m]
}

/// Of objects that begin alike the cheap test says nothing but that they are similar, and
/// of an empty object nothing but that it is not.
pub proof fn law_cheap_test_knows_like_beginnings(a: Seq<u8>, b: Seq<u8>, similar: bool)
    requires
        tested(a, b, similar),
    ensures
        begin_alike(a, b) ==> similar,
        a.len() == 0 || b.len() == 0 ==> !similar,
{
    if begin_alike(a, b) {
        let k = prefix_len(a, b);
        assert forall|m: int| 0 <= m < k implies a.take(k)[m] == b.take(k)[m] by {
            assert(a[m] == b[m]);
        }
        assert(a.take(k) =~= b.take(k));
        assert(same_front(a, b));
    }
}

/// What stands in a place of the window.
pub proof fn lemma_place(log: Seq<Packed>, size: nat, slot: int, entry: Entry)
    requires
        0 <= slot < held(log, size),
    ensures
        index_of(log, size, slot) == window_start(log.len(), size) + slot,
        window_start(log.len(), size) <= index_of(log, size, slot) < log.len(),
        slot_eligible(log, size, slot, entry) == worth_trying(
            log[index_of(log, size, slot)],
            entry,
        ),
{
}

/// A candidate is one of the last `size` objects, worth trying, called similar by the cheap
/// test, and to be rated by estimate if the two are longer than 64 bytes on average. The
/// candidates go from the oldest to the newest.
pub proof fn law_candidates_are_worth_trying(
    log: Seq<Packed>,
    size: nat,
    entry: Entry,
    candidates: Seq<Candidate>,
    i: int,
)
    requires
        candidates_right(log, size, entry, candidates),
        0 <= i < candidates.len(),
    ensures
        ({
            let j = window_start(log.len(), size) + candidates[i].slot;
            &&& 0 <= j < log.len()
            &&& worth_trying(log[j], entry)
            &&& tested(log[j].data, entry.data@, true)
            &&& candidates[i].estimate == ((log[j].data.len() + entry.data@.len()) / 2 > 64)
        }),
        i > 0 ==> candidates[i - 1].slot < candidates[i].slot,
{
    assert(candidate_right(log, size, entry, candidates[i]));
    lemma_place(log, size, candidates[i].slot as int, entry);
    if i > 0 {
        assert(candidates[i - 1].slot < candidates[i].slot);
    }
}

/// No object is overlooked: one of the last `size` that is worth trying is a candidate, or
/// the cheap test has called it not similar. One that begins like the entry is always a
/// candidate.
pub proof fn law_candidates_are_complete(
    log: Seq<Packed>,
    size: nat,
    entry: Entry,
    candidates: Seq<Candidate>,
    j: int,
)
    requires
        candidates_right(log, size, entry, candidates),
        window_start(log.len(), size) <= j < log.len(),
        worth_trying(log[j], entry),
    ensures
        tested(log[j].data, entry.data@, false) || exists|i: int|
            0 <= i < candidates.len() && window_start(log.len(), size) + (
            #[trigger] candidates[i]).slot == j,
        begin_alike(log[j].data, entry.data@) ==> exists|i: int|
            0 <= i < candidates.len() && window_start(log.len(), size) + (
            #[trigger] candidates[i]).slot == j,
{
    let slot = j - window_start(log.len(), size);
    lemma_place(log, size, slot, entry);
    if passed_over(log, size, entry, slot) {
        assert(tested(log[j].data, entry.data@, false));
        if begin_alike(log[j].data, entry.data@) {
            law_cheap_test_knows_like_beginnings(log[j].data, entry.data@, false);
        }
    } else {
        assert(offered(candidates, slot));
    }
}

/// How one candidate was found to stand to another: `order` answered for their rates, and
/// the candidate is better if its rate is higher, or tied with the longer chain.
pub open spec fn found_better<K, O: Fn(&K, &K) -> RateOrder>(
    order: O,
    rate: K,
    chain: nat,
    other_rate: K,
    other_chain: nat,
    better: bool,
) -> bool {
    exists|answer: RateOrder|
        {
            &&& #[trigger] call_ensures(order, (&rate, &other_rate), answer)
            &&& better == match answer {
                RateOrder::Higher => true,
                RateOrder::Tied => chain > other_chain,
                RateOrder::Lower => false,
            }
        }
}

/// Whether `champions` are the candidates that were the best in turn: the first is the
/// first that saves enough, each later one was found better than the one before it, and
/// no other that saves enough was found better than the champion of its time.
#[verifier::opaque]
pub open spec fn succeed_each_other<K, O: Fn(&K, &K) -> RateOrder>(
    order: O,
    rates: Seq<Option<K>>,
    chains: Seq<nat>,
    champions: Seq<int>,
) -> bool {
    &&& champions.len() > 0
    &&& forall|t: int| 0 <= t < champions.len() ==> 0 <= #[trigger] champions[t] < rates.len()
    &&& forall|t: int| 0 <= t < champions.len() ==> rates[#[trigger] champions[t]] is Some
    &&& forall|t: int, u: int| 0 <= t < u < champions.len() ==> champions[t] < champions[u]
    &&& forall|j: int| 0 <= j < champions[0] ==> (#[trigger] rates[j]) is None
    &&& forall|t: int|
        #![trigger champions[t]]
        0 < t < champions.len() ==> found_better(
            order,
            rates[champions[t]]->0,
            chains[champions[t]],
            rates[champions[t - 1]]->0,
            chains[champions[t - 1]],
            true,
        )
    &&& forall|t: int, j: int|
        #![trigger champions[t], rates[j]]
        0 <= t < champions.len() && champions[t] < j < rates.len() && (t + 1 < champions.len()
            ==> j < champions[t + 1]) && rates[j] is Some ==> found_better(
            order,
            rates[j]->0,
            chains[j],
            rates[champions[t]]->0,
            chains[champions[t]],
            false,
        )
}

/// The lengths of the chains that candidates end.
pub open spec fn chains_of(log: Seq<Packed>, size: nat, candidates: Seq<Candidate>) -> Seq<nat> {
    Seq::new(
        candidates.len(),
        |i: int| log[window_start(log.len(), size) + candidates[i].slot].chain_len,
    )
}

/// Whether `champions` are those among the first `n` candidates, and the best of these is
/// the last of them.
spec fn champions_so_far<K, O: Fn(&K, &K) -> RateOrder>(
    log: Seq<Packed>,
    size: nat,
    candidates: Seq<Candidate>,
    rates: Seq<Option<K>>,
    order: O,
    best: Option<int>,
    n: nat,
    champions: Seq<int>,
) -> bool {
    match best {
        None => forall|j: int| 0 <= j < n ==> (#[trigger] rates[j]) is None,
        Some(best) => {
            &&& succeed_each_other(
                order,
                rates.take(n as int),
                chains_of(log, size, candidates).take(n as int),
                champions,
            )
            &&& best == champions.last()
        },
    }
}

/// How the `next`th candidate was found to stand to the best before it.
proof fn lemma_next_is_compared<K, O: Fn(&K, &K) -> RateOrder>(
    log: Seq<Packed>,
    size: nat,
    candidates: Seq<Candidate>,
    rates: Seq<Option<K>>,
    order: O,
    orders: Seq<RateOrder>,
    next: nat,
    best: int,
)
    requires
        next < candidates.len(),
        0 <= best < next,
        orders_of(log, size, candidates, rates, order, orders, candidates.len()),
        candidates[next as int].slot < held(log, size),
        candidates[best].slot < held(log, size),
        rates[next as int] is Some,
        best_of(log, size, candidates, rates, orders, next) == Some(best),
    ensures
        ({
            let now = best_of(log, size, candidates, rates, orders, next + 1);
            let chains = chains_of(log, size, candidates);
            &&& now == Some(next as int) || now == Some(best)
            &&& found_better(
                order,
                rates[next as int]->0,
                chains[next as int],
                rates[best]->0,
                chains[best],
                now == Some(next as int),
            )
        }),
{
    let chains = chains_of(log, size, candidates);
    assert(chains[next as int] == chain_of(log, size, candidates[next as int]));
    assert(chains[best] == chain_of(log, size, candidates[best]));
    assert(call_ensures(
        order,
        (&(rates[next as int]->0), &(rates[best]->0)),
        orders[next as int],
    ));
    assert((next + 1) as nat - 1 == next);
}

/// The best of the first `n` candidates is the last champion among them.
proof fn lemma_champions<K, O: Fn(&K, &K) -> RateOrder>(
    log: Seq<Packed>,
    size: nat,
    candidates: Seq<Candidate>,
    rates: Seq<Option<K>>,
    order: O,
    orders: Seq<RateOrder>,
    n: nat,
) -> (champions: Seq<int>)
    requires
        n <= candidates.len(),
        rates.len() == candidates.len(),
        orders_of(log, size, candidates, rates, order, orders, candidates.len()),
        forall|i: int|
            0 <= i < candidates.len() ==> (#[trigger] candidates[i]).slot < held(log, size),
    ensures
        champions_so_far(
            log,
            size,
            candidates,
            rates,
            order,
            best_of(log, size, candidates, rates, orders, n),
            n,
            champions,
        ),
    decreases n,
{
    if n == 0 {
        Seq::empty()
    } else {
        let k = (n - 1) as nat;
        let before = lemma_champions(log, size, candidates, rates, order, orders, k);
        let best_before = best_of(log, size, candidates, rates, orders, k);
        lemma_champions_step(
            log,
            size,
            candidates,
            rates,
            order,
            orders,
            k,
            best_before,
            before,
        )
    }
}

/// The champions after one candidate more.
proof fn lemma_champions_step<K, O: Fn(&K, &K) -> RateOrder>(
    log: Seq<Packed>,
    size: nat,
    candidates: Seq<Candidate>,
    rates: Seq<Option<K>>,
    order: O,
    orders: Seq<RateOrder>,
    k: nat,
    best_before: Option<int>,
    before: Seq<int>,
) -> (champions: Seq<int>)
    requires
        k < candidates.len(),
        rates.len() == candidates.len(),
        orders_of(log, size, candidates, rates, order, orders, candidates.len()),
        forall|i: int|
            0 <= i < candidates.len() ==> (#[trigger] candidates[i]).slot < held(log, size),
        best_before == best_of(log, size, candidates, rates, orders, k),
        champions_so_far(log, size, candidates, rates, order, best_before, k, before),
    ensures
        champions_so_far(
            log,
            size,
            candidates,
            rates,
            order,
            best_of(log, size, candidates, rates, orders, k + 1),
            k + 1,
            champions,
        ),
{
    let n = k + 1;
    let next = k as int;
    let chains = chains_of(log, size, candidates);
    let (rates_k, rates_n) = (rates.take(next), rates.take(n as int));
    let (chains_k, chains_n) = (chains.take(next), chains.take(n as int));
    assert(rates_n.drop_last() =~= rates_k);
    assert(chains_n.drop_last() =~= chains_k);
    let now = best_of(log, size, candidates, rates, orders, n);
    if rates[next] is None {
        assert(now == best_before);
        if best_before is Some {
            lemma_champions_stay(order, rates_k, chains_k, rates_n, chains_n, before);
        }
        before
    } else if best_before is None {
        assert(now == Some(next));
        assert forall|j: int| 0 <= j < rates_n.len() - 1 implies (
        #[trigger] rates_n[j]) is None by {
            assert(rates[j] is None);
        }
        lemma_first_champion(order, rates_n, chains_n);
        seq![next]
    } else {
        let best = best_before->0;
        lemma_last_champion(order, rates_k, chains_k, before);
        assert(candidates[next].slot < held(log, size));
        assert(candidates[best].slot < held(log, size));
        lemma_next_is_compared(log, size, candidates, rates, order, orders, k, best);
        if now == Some(next) {
            lemma_champion_joins(order, rates_k, chains_k, rates_n, chains_n, before);
            before.push(next)
        } else {
            lemma_champions_stay(order, rates_k, chains_k, rates_n, chains_n, before);
            before
        }
    }
}

/// The first candidate that saves enough is the first champion.
proof fn lemma_first_champion<K, O: Fn(&K, &K) -> RateOrder>(
    order: O,
    rates: Seq<Option<K>>,
    chains: Seq<nat>,
)
    requires
        rates.len() > 0,
        rates.last() is Some,
        forall|j: int| 0 <= j < rates.len() - 1 ==> (#[trigger] rates[j]) is None,
    ensures
        succeed_each_other(order, rates, chains, seq![rates.len() - 1]),
{
    reveal(succeed_each_other);
}

/// The last champion is a candidate that saves enough.
proof fn lemma_last_champion<K, O: Fn(&K, &K) -> RateOrder>(
    order: O,
    rates: Seq<Option<K>>,
    chains: Seq<nat>,
    champions: Seq<int>,
)
    requires
        succeed_each_other(order, rates, chains, champions),
    ensures
        champions.len() > 0,
        0 <= champions.last() < rates.len(),
        rates[champions.last()] is Some,
{
    reveal(succeed_each_other);
    assert(0 <= champions[champions.len() - 1] < rates.len());
}

/// The champions stay when a candidate more is not found better than the last of them, or
/// does not save enough.
proof fn lemma_champions_stay<K, O: Fn(&K, &K) -> RateOrder>(
    order: O,
    rates: Seq<Option<K>>,
    chains: Seq<nat>,
    more_rates: Seq<Option<K>>,
    more_chains: Seq<nat>,
    champions: Seq<int>,
)
    requires
        succeed_each_other(order, rates, chains, champions),
        chains.len() == rates.len(),
        more_rates.len() == rates.len() + 1,
        more_chains.len() == rates.len() + 1,
        more_rates.drop_last() == rates,
        more_chains.drop_last() == chains,
        more_rates.last() is Some ==> found_better(
            order,
            more_rates.last()->0,
            more_chains.last(),
            rates[champions.last()]->0,
            chains[champions.last()],
            false,
        ),
    ensures
        succeed_each_other(order, more_rates, more_chains, champions),
{
    reveal(succeed_each_other);
    let n = rates.len() as int;
    assert forall|i: int| 0 <= i < n implies #[trigger] more_rates[i] == rates[i] by {
        assert(more_rates.drop_last()[i] == rates[i]);
    }
    assert forall|i: int| 0 <= i < n implies #[trigger] more_chains[i] == chains[i] by {
        assert(more_chains.drop_last()[i] == chains[i]);
    }
    assert forall|t: int|
        #![trigger champions[t]]
        0 < t < champions.len() implies found_better(
        order,
        more_rates[champions[t]]->0,
        more_chains[champions[t]],
        more_rates[champions[t - 1]]->0,
        more_chains[champions[t - 1]],
        true,
    ) by {
        assert(0 <= champions[t - 1] < n);
    }
    assert forall|t: int, j: int|
        #![trigger champions[t], more_rates[j]]
        0 <= t < champions.len() && champions[t] < j < more_rates.len() && (t + 1
            < champions.len() ==> j < champions[t + 1]) && more_rates[j] is Some
        implies found_better(
        order,
        more_rates[j]->0,
        more_chains[j],
        more_rates[champions[t]]->0,
        more_chains[champions[t]],
        false,
    ) by {
        if j < n {
            assert(rates[j] is Some);
        } else {
            assert(t + 1 == champions.len()) by {
                if t + 1 < champions.len() {
                    assert(champions[t + 1] < n);
                }
            }
        }
    }
}

/// A candidate more that is found better than the last champion becomes one.
proof fn lemma_champion_joins<K, O: Fn(&K, &K) -> RateOrder>(
    order: O,
    rates: Seq<Option<K>>,
    chains: Seq<nat>,
    more_rates: Seq<Option<K>>,
    more_chains: Seq<nat>,
    champions: Seq<int>,
)
    requires
        succeed_each_other(order, rates, chains, champions),
        chains.len() == rates.len(),
        more_rates.len() == rates.len() + 1,
        more_chains.len() == rates.len() + 1,
        more_rates.drop_last() == rates,
        more_chains.drop_last() == chains,
        more_rates.last() is Some,
        found_better(
            order,
            more_rates.last()->0,
            more_chains.last(),
            rates[champions.last()]->0,
            chains[champions.last()],
            true,
        ),
    ensures
        succeed_each_other(
            order,
            more_rates,
            more_chains,
            champions.push(rates.len() as int),
        ),
{
    reveal(succeed_each_other);
    let n = rates.len() as int;
    let longer = champions.push(n);
    assert forall|i: int| 0 <= i < n implies #[trigger] more_rates[i] == rates[i] by {
        assert(more_rates.drop_last()[i] == rates[i]);
    }
    assert forall|i: int| 0 <= i < n implies #[trigger] more_chains[i] == chains[i] by {
        assert(more_chains.drop_last()[i] == chains[i]);
    }
    assert forall|t: int| 0 <= t < champions.len() implies #[trigger] longer[t]
        == champions[t] && 0 <= longer[t] < n by {
        assert(0 <= champions[t] < n);
    }
    assert forall|t: int|
        #![trigger longer[t]]
        0 < t < longer.len() implies found_better(
        order,
        more_rates[longer[t]]->0,
        more_chains[longer[t]],
        more_rates[longer[t - 1]]->0,
        more_chains[longer[t - 1]],
        true,
    ) by {
        assert(longer[t - 1] == champions[t - 1]);
        if t < champions.len() {
            assert(longer[t] == champions[t]);
        }
    }
    assert forall|t: int, j: int|
        #![trigger longer[t], more_rates[j]]
        0 <= t < longer.len() && longer[t] < j < more_rates.len() && (t + 1 < longer.len()
            ==> j < longer[t + 1]) && more_rates[j] is Some implies found_better(
        order,
        more_rates[j]->0,
        more_chains[j],
        more_rates[longer[t]]->0,
        more_chains[longer[t]],
        false,
    ) by {
        if t < champions.len() {
            assert(longer[t] == champions[t]);
            if t + 1 < champions.len() {
                assert(longer[t + 1] == champions[t + 1]);
            }
            assert(j < n);
            assert(rates[j] is Some);
        }
    }
    assert(longer[0] == champions[0]);
}

/// The base that is picked is the last of the champions: no candidate behind it that saves
/// enough was found better than it, and it was itself found better than the champion before
/// it. None is picked just where no candidate saves enough.
pub proof fn law_last_champion_is_picked<K, O: Fn(&K, &K) -> RateOrder>(
    log: Seq<Packed>,
    size: nat,
    entry: Entry,
    candidates: Seq<Candidate>,
    rates: Seq<Option<K>>,
    order: O,
    picked: Option<usize>,
) -> (champions: Seq<int>)
    requires
        candidates_right(log, size, entry, candidates),
        rates.len() == candidates.len(),
        picked_right(log, size, candidates, rates, order, picked),
    ensures
        match picked {
            None => forall|j: int| 0 <= j < rates.len() ==> (#[trigger] rates[j]) is None,
            Some(slot) => {
                &&& succeed_each_other(
                    order,
                    rates,
                    chains_of(log, size, candidates),
                    champions,
                )
                &&& slot == candidates[champions.last()].slot
            },
        },
{
    let all = candidates.len();
    let orders = choose|orders: Seq<RateOrder>|
        {
            &&& #[trigger] orders_of(log, size, candidates, rates, order, orders, all)
            &&& match best_of(log, size, candidates, rates, orders, all) {
                Some(best) => picked == Some(candidates[best].slot),
                None => picked is None,
            }
        };
    assert forall|i: int| 0 <= i < all implies (#[trigger] candidates[i]).slot < held(
        log,
        size,
    ) by {
        assert(candidate_right(log, size, entry, candidates[i]));
    }
    let champions = lemma_champions(log, size, candidates, rates, order, orders, all);
    assert(rates.take(all as int) =~= rates);
    assert(chains_of(log, size, candidates).take(all as int) =~= chains_of(
        log,
        size,
        candidates,
    ));
    champions
}

/// Of two candidates that save enough, the second of which is never answered anything but
/// higher than the first, the second is picked, whatever their chains.
pub proof fn law_higher_rate_is_picked<K, O: Fn(&K, &K) -> RateOrder>(
    log: Seq<Packed>,
    size: nat,
    entry: Entry,
    candidates: Seq<Candidate>,
    rates: Seq<Option<K>>,
    order: O,
    picked: Option<usize>,
)
    requires
        candidates_right(log, size, entry, candidates),
        candidates.len() == 2,
        rates.len() == 2,
        rates[0] is Some,
        rates[1] is Some,
        forall|answer: RateOrder|
            call_ensures(order, (&(rates[1]->0), &(rates[0]->0)), answer) ==> answer
                == RateOrder::Higher,
        picked_right(log, size, candidates, rates, order, picked),
    ensures
        picked == Some(candidates[1].slot),
{
    let champions = law_last_champion_is_picked(
        log,
        size,
        entry,
        candidates,
        rates,
        order,
        picked,
    );
    reveal(succeed_each_other);
    assert(picked is Some) by {
        if picked is None {
            assert(rates[0] is None);
        }
    }
    assert(0 <= champions[0] < rates.len());
    assert(champions[0] == 0) by {
        if champions[0] > 0 {
            assert(rates[0] is None);
        }
    }
    let last = champions.len() - 1;
    assert(0 <= champions[last] < rates.len());
    if champions.last() == 0 {
        let t = last;
        assert(champions[t] < 1);
        assert(rates[1] is Some);
        assert(found_better(
            order,
            rates[1]->0,
            chains_of(log, size, candidates)[1],
            rates[champions[t]]->0,
            chains_of(log, size, candidates)[champions[t]],
            false,
        ));
    }
}

/// Takes a stored object apart: the number of its kind, for a delta the distance back to
/// its base, and what is stored of it, if these make up all of the bytes.
pub open spec fn unframed(bytes: Seq<u8>) -> Option<(nat, Option<nat>, Seq<u8>)> {
    match read_object_header(bytes) {
        None => None,
        Some((kind, len, used)) => if kind == 5 || kind == 6 {
            match read_distance(bytes.skip(used as int)) {
                None => None,
                Some((distance, more)) => match zlib_inflated(
                    bytes.skip(used as int).skip(more as int),
                ) {
                    None => None,
                    Some((payload, taken)) => if payload.len() == len && used + more + taken
                        == bytes.len() {
                        Some((kind, Some(distance), payload))
                    } else {
                        None
                    },
                },
            }
        } else {
            match zlib_inflated(bytes.skip(used as int)) {
                None => None,
                Some((payload, taken)) => if payload.len() == len && used + taken == bytes.len() {
                    Some((kind, None, payload))
                } else {
                    None
                },
            }
        },
    }
}

/// An object that is stored whole is taken apart into its kind and its data.
pub proof fn law_whole_object_comes_apart(obj_type: ObjectType, data: Seq<u8>)
    requires
        kind_number(obj_type) != 0,
        zlib_round_trips(data),
    ensures
        unframed(object_bytes(obj_type, data, None)) == Some(
            (kind_number(obj_type), None::<nat>, data),
        ),
{
    let kind = kind_number(obj_type);
    let bytes = object_bytes(obj_type, data, None);
    let compressed = zlib_compressed(data);
    let header = object_header_bytes(kind, data.len());
    law_object_header_reads_back(kind, data.len(), compressed);
    assert(bytes =~= header + compressed);
    assert(bytes.skip(header.len() as int) =~= compressed);
    assert(compressed + Seq::<u8>::empty() =~= compressed);
}

/// A delta is taken apart into its kind, the distance back to its base, and the delta.
pub proof fn law_delta_object_comes_apart(zstdelta: bool, delta: Seq<u8>, distance: nat)
    requires
        zlib_round_trips(delta),
    ensures
        unframed(
            object_bytes(
                if zstdelta {
                    ObjectType::OffsetZstdelta
                } else {
                    ObjectType::OffsetDelta
                },
                delta,
                Some(distance),
            ),
        ) == Some((delta_number(zstdelta), Some(distance), delta)),
{
    let obj_type = if zstdelta {
        ObjectType::OffsetZstdelta
    } else {
        ObjectType::OffsetDelta
    };
    let kind = delta_number(zstdelta);
    let bytes = object_bytes(obj_type, delta, Some(distance));
    let jump = distance_bytes(distance);
    let compressed = zlib_compressed(delta);
    let header = object_header_bytes(kind, delta.len());
    law_object_header_reads_back(kind, delta.len(), jump + compressed);
    assert(bytes =~= header + (jump + compressed));
    assert(bytes.skip(header.len() as int) =~= jump + compressed);
    law_distance_reads_back(distance, compressed);
    assert((jump + compressed).skip(jump.len() as int) =~= compressed);
    assert(compressed + Seq::<u8>::empty() =~= compressed);
}

/// Where the `i`th of encoded objects starts, counted from the first: behind all bytes of
/// those before it.
pub open spec fn start_of(res: Seq<(Vec<u8>, IndexEntry)>, i: int) -> nat {
    Seq::new(i as nat, |k: int| res[k].0@).flatten().len()
}

/// Whether the `i`th entry of a bucket is stored right: whole, or as a delta. A delta is what
/// `diff` answered for all of the base's data and all of the entry's, and leads back to where
/// the base starts. The log says which it is.
pub open spec fn stored_right<D: Fn(&[u8], &[u8], bool) -> Vec<u8>>(
    bucket: Seq<Entry>,
    res: Seq<(Vec<u8>, IndexEntry)>,
    log: Seq<Packed>,
    i: int,
    size: nat,
    zstdelta: bool,
    diff: D,
) -> bool {
    &&& res[i].1.hash == bucket[i].hash
    &&& log[i].obj_type == bucket[i].obj_type
    &&& log[i].hash == bucket[i].hash
    &&& log[i].data == bucket[i].data@
    &&& match log[i].base {
        None => {
            &&& log[i].chain_len == bucket[i].chain_len
            &&& unframed(res[i].0@) == Some(
                (kind_number(bucket[i].obj_type), None::<nat>, bucket[i].data@),
            )
        },
        Some(b) => {
            &&& 0 <= b < i
            &&& i - b <= size
            &&& log[i].chain_len == log[b].chain_len + 1
            &&& start_of(res, b) < start_of(res, i)
            &&& exists|base: &[u8], data: &[u8], delta: Vec<u8>|
                {
                    &&& #[trigger] call_ensures(diff, (base, data, zstdelta), delta)
                    &&& base@ == bucket[b].data@
                    &&& data@ == bucket[i].data@
                    &&& unframed(res[i].0@) == Some(
                        (
                            delta_number(zstdelta),
                            Some((start_of(res, i) - start_of(res, b)) as nat),
                            delta@,
                        ),
                    )
                }
        },
    }
}

/// Every entry of a bucket that went through a window is stored right.
pub proof fn law_bucket_is_stored_right<
    K,
    R: Fn(&Vec<RateQuery<'_>>, &[u8]) -> Vec<Option<K>>,
    O: Fn(&K, &K) -> RateOrder,
    D: Fn(&[u8], &[u8], bool) -> Vec<u8>,
>(
    bucket: Seq<Entry>,
    res: Seq<(Vec<u8>, IndexEntry)>,
    size: nat,
    zstdelta: bool,
    rate: R,
    order: O,
    diff: D,
) -> (log: Seq<Packed>)
    requires
        bucket_encoded(bucket, res, size, zstdelta, rate, order, diff),
    ensures
        log_follows(bucket, log, size, zstdelta, rate, order, diff),
        log.len() == bucket.len(),
        res.len() == bucket.len(),
        forall|i: int|
            0 <= i < bucket.len() ==> #[trigger] stored_right(
                bucket,
                res,
                log,
                i,
                size,
                zstdelta,
                diff,
            ),
{
    let log = choose|log: Seq<Packed>|
        {
            &&& #[trigger] log_follows(bucket, log, size, zstdelta, rate, order, diff)
            &&& log.len() == bucket.len()
            &&& log_end(log) <= usize::MAX
            &&& holds_log(res, log)
        };
    assert forall|i: int| 0 <= i < bucket.len() implies #[trigger] stored_right(
        bucket,
        res,
        log,
        i,
        size,
        zstdelta,
        diff,
    ) by {
        lemma_stored_right(bucket, res, log, i, size, zstdelta, rate, order, diff);
    }
    log
}

/// Where the objects of a log start.
proof fn lemma_start_of(
    res: Seq<(Vec<u8>, IndexEntry)>,
    log: Seq<Packed>,
    size: nat,
    zstdelta: bool,
    i: int,
)
    requires
        log_right(log, size, zstdelta),
        holds_log(res, log),
        0 <= i < log.len(),
    ensures
        start_of(res, i) == log[i].start,
{
    let chunks = Seq::new(i as nat, |k: int| res[k].0@);
    assert(chunks =~= log_bodies(log).take(i)) by {
        assert forall|k: int| 0 <= k < i implies chunks[k] == log_bodies(log).take(i)[k] by {
            assert(res[k].0@ == log[k].bytes());
        }
    }
    lemma_joined_is_flat(chunks);
    lemma_starts(log, size, zstdelta, i);
    assert(packed_right(log, i, size, zstdelta));
}

/// An entry of a log is stored right.
proof fn lemma_stored_right<
    K,
    R: Fn(&Vec<RateQuery<'_>>, &[u8]) -> Vec<Option<K>>,
    O: Fn(&K, &K) -> RateOrder,
    D: Fn(&[u8], &[u8], bool) -> Vec<u8>,
>(
    bucket: Seq<Entry>,
    res: Seq<(Vec<u8>, IndexEntry)>,
    log: Seq<Packed>,
    i: int,
    size: nat,
    zstdelta: bool,
    rate: R,
    order: O,
    diff: D,
)
    requires
        log_follows(bucket, log, size, zstdelta, rate, order, diff),
        log.len() == bucket.len(),
        holds_log(res, log),
        0 <= i < bucket.len(),
    ensures
        stored_right(bucket, res, log, i, size, zstdelta, diff),
{
    lemma_entry_in_log(bucket, log, i, size, zstdelta, rate, order, diff);
    assert(packed_right(log, i, size, zstdelta));
    assert(res[i].0@ == log[i].bytes());
    assert(entry_follows(bucket, log, i, size, zstdelta, rate, order, diff));
    match log[i].base {
        None => {
            law_whole_object_comes_apart(bucket[i].obj_type, bucket[i].data@);
        },
        Some(b) => {
            lemma_entry_in_log(bucket, log, b, size, zstdelta, rate, order, diff);
            lemma_start_of(res, log, size, zstdelta, i);
            lemma_start_of(res, log, size, zstdelta, b);
            law_delta_object_comes_apart(zstdelta, log[i].payload, log[i].distance->0);
            let (base, data, delta) = choose|base: &[u8], data: &[u8], delta: Vec<u8>|
                {
                    &&& base@ == log[b].data
                    &&& data@ == log[i].data
                    &&& delta@ == log[i].payload
                    &&& #[trigger] call_ensures(diff, (base, data, zstdelta), delta)
                };
            assert(call_ensures(diff, (base, data, zstdelta), delta));
        },
    }
}

/// What was tried for an entry: the earlier objects, what a delta against each saves, and
/// which of them were the best in turn.
pub ghost struct Choice<K> {
    pub tried: Seq<int>,
    pub rates: Seq<Option<K>>,
    pub champions: Seq<int>,
}

/// Whether `rates` is what the rating function answered for the objects tried, each in full.
pub open spec fn asked_of<K, R: Fn(&Vec<RateQuery<'_>>, &[u8]) -> Vec<Option<K>>>(
    bucket: Seq<Entry>,
    i: int,
    tried: Seq<int>,
    rate: R,
    rates: Seq<Option<K>>,
) -> bool {
    exists|queries: &Vec<RateQuery<'_>>, data: &[u8], answer: Vec<Option<K>>|
        {
            &&& #[trigger] call_ensures(rate, (queries, data), answer)
            &&& answer@ == rates
            &&& data@ == bucket[i].data@
            &&& queries@.len() == tried.len()
            &&& forall|k: int|
                0 <= k < tried.len() ==> (#[trigger] queries@[k]).base@ == bucket[tried[k]].data@
                    && queries@[k].estimate == ((bucket[tried[k]].data@.len()
                    + bucket[i].data@.len()) / 2 > 64)
        }
}

/// Whether an entry's base was chosen right. Tried are those of the `size` objects before it
/// that are worth trying, but for those that the cheap test called not similar. It is stored
/// whole if none of them saves enough, and else against the last of those that were the best
/// in turn.
pub open spec fn chosen_right<
    K,
    R: Fn(&Vec<RateQuery<'_>>, &[u8]) -> Vec<Option<K>>,
    O: Fn(&K, &K) -> RateOrder,
>(
    bucket: Seq<Entry>,
    log: Seq<Packed>,
    i: int,
    size: nat,
    rate: R,
    order: O,
    choice: Choice<K>,
) -> bool {
    let tried = choice.tried;
    let start = window_start(i as nat, size);
    &&& forall|k: int, m: int| 0 <= k < m < tried.len() ==> tried[k] < tried[m]
    &&& forall|k: int|
        0 <= k < tried.len() ==> {
            &&& start <= #[trigger] tried[k] < i
            &&& worth_trying(log[tried[k]], bucket[i])
            &&& tested(bucket[tried[k]].data@, bucket[i].data@, true)
        }
    &&& forall|j: int|
        start <= j < i && worth_trying(#[trigger] log[j], bucket[i]) ==> tried.contains(j)
            || tested(bucket[j].data@, bucket[i].data@, false)
    &&& asked_of(bucket, i, tried, rate, choice.rates)
    &&& choice.rates.len() == tried.len()
    &&& match log[i].base {
        None => forall|k: int|
            0 <= k < tried.len() ==> (#[trigger] choice.rates[k]) is None,
        Some(b) => {
            &&& succeed_each_other(
                order,
                choice.rates,
                Seq::new(tried.len(), |k: int| log[tried[k]].chain_len),
                choice.champions,
            )
            &&& b == tried[choice.champions.last()]
        },
    }
}

/// The base of every entry of a bucket is chosen right.
pub proof fn law_base_is_chosen_right<
    K,
    R: Fn(&Vec<RateQuery<'_>>, &[u8]) -> Vec<Option<K>>,
    O: Fn(&K, &K) -> RateOrder,
    D: Fn(&[u8], &[u8], bool) -> Vec<u8>,
>(
    bucket: Seq<Entry>,
    log: Seq<Packed>,
    i: int,
    size: nat,
    zstdelta: bool,
    rate: R,
    order: O,
    diff: D,
) -> (choice: Choice<K>)
    requires
        log_follows(bucket, log, size, zstdelta, rate, order, diff),
        rates_all(rate),
        0 <= i < log.len(),
    ensures
        chosen_right(bucket, log, i, size, rate, order, choice),
{
    assert(entry_follows(bucket, log, i, size, zstdelta, rate, order, diff));
    let before = log.take(i);
    let entry = bucket[i];
    let start = window_start(i as nat, size);
    let base = choose|base: Option<(int, Seq<u8>)>|
        {
            &&& #[trigger] base_right(before, size, zstdelta, entry, rate, order, diff, base)
            &&& log[i] == next_packed(before, zstdelta, entry, base)
        };
    let (candidates, rates, picked) = choose|
        candidates: Seq<Candidate>,
        rates: Seq<Option<K>>,
        picked: Option<usize>,
    |
        {
            &&& candidates_right(before, size, entry, candidates)
            &&& rated(before, size, entry, candidates, rate, rates)
            &&& #[trigger] picked_right(before, size, candidates, rates, order, picked)
            &&& match picked {
                None => base is None,
                Some(slot) => {
                    &&& base matches Some((b, delta))
                    &&& b == index_of(before, size, slot as int)
                    &&& diffed(diff, before[b].data, entry.data@, zstdelta, delta)
                },
            }
        };
    let tried = Seq::new(candidates.len(), |k: int| start + candidates[k].slot);
    assert forall|j: int| 0 <= j < i implies #[trigger] log[j].data == bucket[j].data@
        && before[j] == log[j] by {
        lemma_entry_in_log(bucket, log, j, size, zstdelta, rate, order, diff);
    }
    assert forall|k: int| 0 <= k < tried.len() implies {
        &&& start <= #[trigger] tried[k] < i
        &&& worth_trying(log[tried[k]], entry)
        &&& tested(bucket[tried[k]].data@, entry.data@, true)
    } by {
        law_candidates_are_worth_trying(before, size, entry, candidates, k);
        assert(log[tried[k]].data == bucket[tried[k]].data@);
    }
    assert forall|j: int|
        start <= j < i && worth_trying(#[trigger] log[j], entry) implies tried.contains(j)
        || tested(bucket[j].data@, entry.data@, false) by {
        law_candidates_are_complete(before, size, entry, candidates, j);
        if !tested(bucket[j].data@, entry.data@, false) {
            let k = choose|k: int|
                0 <= k < candidates.len() && window_start(before.len(), size) + (
                #[trigger] candidates[k]).slot == j;
            assert(tried[k] == j);
        }
    }
    let (queries, data, answer) = choose|
        queries: &Vec<RateQuery<'_>>,
        data: &[u8],
        answer: Vec<Option<K>>,
    |
        {
            &&& queries_right(before, size, candidates, queries@)
            &&& data@ == entry.data@
            &&& answer@ == rates
            &&& #[trigger] call_ensures(rate, (queries, data), answer)
        };
    assert(rates.len() == tried.len());
    assert forall|k: int| 0 <= k < tried.len() implies (#[trigger] queries@[k]).base@
        == bucket[tried[k]].data@ && queries@[k].estimate == ((bucket[tried[k]].data@.len()
        + entry.data@.len()) / 2 > 64) by {
        law_candidates_are_worth_trying(before, size, entry, candidates, k);
        assert(candidate_right(before, size, entry, candidates[k]));
        lemma_place(before, size, candidates[k].slot as int, entry);
        assert(log[tried[k]].data == bucket[tried[k]].data@);
    }
    assert(asked_of(bucket, i, tried, rate, rates));
    let champions = law_last_champion_is_picked(
        before,
        size,
        entry,
        candidates,
        rates,
        order,
        picked,
    );
    if picked is Some {
        lemma_last_champion(order, rates, chains_of(before, size, candidates), champions);
        let p = champions.last();
        assert(candidate_right(before, size, entry, candidates[p]));
        lemma_place(before, size, candidates[p].slot as int, entry);
        let chains = Seq::new(tried.len(), |k: int| log[tried[k]].chain_len);
        assert(chains =~= chains_of(before, size, candidates)) by {
            assert forall|k: int| 0 <= k < chains.len() implies chains[k] == chains_of(
                before,
                size,
                candidates,
            )[k] by {
                assert(start <= tried[k] < i);
            }
        }
    }
    Choice { tried, rates, champions }
}

/// An entry is stored as a delta wherever one of the `size` objects before it begins like it,
/// is worth trying, and is never rated to save too little; this holds of every kind.
pub proof fn law_like_object_makes_a_delta<
    K,
    R: Fn(&Vec<RateQuery<'_>>, &[u8]) -> Vec<Option<K>>,
    O: Fn(&K, &K) -> RateOrder,
    D: Fn(&[u8], &[u8], bool) -> Vec<u8>,
>(
    bucket: Seq<Entry>,
    log: Seq<Packed>,
    i: int,
    j: int,
    size: nat,
    zstdelta: bool,
    rate: R,
    order: O,
    diff: D,
)
    requires
        log_follows(bucket, log, size, zstdelta, rate, order, diff),
        rates_all(rate),
        0 <= i < log.len(),
        window_start(i as nat, size) <= j < i,
        worth_trying(log[j], bucket[i]),
        begin_alike(bucket[j].data@, bucket[i].data@),
        forall|queries: &Vec<RateQuery<'_>>, data: &[u8], answer: Vec<Option<K>>, k: int|
            #![trigger call_ensures(rate, (queries, data), answer), answer@[k]]
            call_ensures(rate, (queries, data), answer) && data@ == bucket[i].data@ && 0 <= k
                < queries@.len() && queries@[k].base@ == bucket[j].data@ ==> answer@[k] is Some,
    ensures
        log[i].base is Some,
{
    let choice = law_base_is_chosen_right(
        bucket,
        log,
        i,
        size,
        zstdelta,
        rate,
        order,
        diff,
    );
    if tested(bucket[j].data@, bucket[i].data@, false) {
        law_cheap_test_knows_like_beginnings(bucket[j].data@, bucket[i].data@, false);
    }
    let tried = choice.tried;
    assert(tried.contains(j));
    let k = choose|k: int| 0 <= k < tried.len() && tried[k] == j;
    let (queries, data, answer) = choose|
        queries: &Vec<RateQuery<'_>>,
        data: &[u8],
        answer: Vec<Option<K>>,
    |
        {
            &&& #[trigger] call_ensures(rate, (queries, data), answer)
            &&& answer@ == choice.rates
            &&& data@ == bucket[i].data@
            &&& queries@.len() == tried.len()
            &&& forall|k: int|
                0 <= k < tried.len() ==> (#[trigger] queries@[k]).base@ == bucket[tried[k]].data@
                    && queries@[k].estimate == ((bucket[tried[k]].data@.len()
                    + bucket[i].data@.len()) / 2 > 64)
        };
    assert(queries@[k].base@ == bucket[j].data@);
    assert(answer@[k] is Some);
}

} // verus!
