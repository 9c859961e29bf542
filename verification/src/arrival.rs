//! What does not depend on the order in which entries arrive.
#![allow(unused_imports)]
use vstd::multiset::Multiset;
use vstd::prelude::*;

use crate::buckets::{apart, arranged, of_type, sorted_from, windowed, Incoming};
use crate::delta::{
    base_right, bucket_encoded, bucket_overflows, diffed, entry_follows, log_follows, rated,
};
use crate::encoder::{
    bodies, hashes, joined, lemma_joined_front, pack_finished, sent, with_header, EncoderView,
};
use crate::error::GitError;
use crate::format::header_bytes;
use crate::laws::lemma_hash_of_view;
use crate::object::{Entry, IndexEntry, ObjectType};
use crate::order::{
    in_order, lemma_permuted_multiset, lists_once, may_precede, permuted, sort_view, sort_views,
    view_order,
};
use crate::path::Placement;
use crate::reading::{lemma_starts, log_bodies};
use crate::window::{
    best_of, candidate_right, candidates_right, holds_log, index_of, log_end, next_packed,
    offered, orders_of, passed_over, picked_right, queries_right, similar_said, Candidate, Packed,
    RateOrder, RateQuery,
};
use crate::windowed::{
    all_done, bucket_done, bucket_too_long, four_joined, pack_too_long, window_in_use,
    window_outcome,
};

verus! {

/// Whether path and size tell any two entries apart.
pub open spec fn no_two_level(bucket: Seq<Incoming>) -> bool {
    forall|i: int, j: int|
        0 <= i < bucket.len() && 0 <= j < bucket.len() && i != j ==> view_order(
            sort_view(#[trigger] bucket[i]),
            sort_view(#[trigger] bucket[j]),
        ) != Placement::Level
}

/// Whether each entry sorts before all later ones, and they after it.
pub open spec fn strictly_sorted(list: Seq<Incoming>) -> bool {
    forall|i: int, j: int|
        0 <= i < j < list.len() ==> {
            &&& view_order(sort_view(#[trigger] list[i]), sort_view(#[trigger] list[j]))
                == Placement::Before
            &&& view_order(sort_view(list[j]), sort_view(list[i])) == Placement::After
        }
}

/// The same entries can be sorted strictly in one way only.
proof fn lemma_one_strict_order(a: Seq<Incoming>, b: Seq<Incoming>)
    requires
        strictly_sorted(a),
        strictly_sorted(b),
        a.to_multiset() == b.to_multiset(),
    ensures
        a == b,
    decreases a.len(),
{
    broadcast use vstd::seq_lib::group_to_multiset_ensures;

    a.to_multiset_ensures();
    b.to_multiset_ensures();
    assert(a.len() == b.len());
    if a.len() == 0 {
        assert(a =~= b);
    } else {
        assert(a.contains(a[0]) && b.contains(b[0]));
        assert(a.to_multiset().count(a[0]) > 0 && b.to_multiset().count(b[0]) > 0);
        assert(b.contains(a[0]) && a.contains(b[0]));
        let j = choose|j: int| 0 <= j < b.len() && b[j] == a[0];
        let i = choose|i: int| 0 <= i < a.len() && a[i] == b[0];
        assert(a[0] == b[0]) by {
            if j > 0 && i > 0 {
                assert(view_order(sort_view(b[0]), sort_view(b[j])) == Placement::Before);
                assert(view_order(sort_view(a[i]), sort_view(a[0])) == Placement::After);
            }
        }
        let (rest_a, rest_b) = (a.remove(0), b.remove(0));
        assert(rest_a.to_multiset() =~= a.to_multiset().remove(a[0]));
        assert(rest_b.to_multiset() =~= b.to_multiset().remove(b[0]));
        lemma_one_strict_order(rest_a, rest_b);
        assert(a =~= seq![a[0]] + rest_a);
        assert(b =~= seq![b[0]] + rest_b);
    }
}

/// Sorted entries of which no two are level are sorted strictly.
proof fn lemma_sorted_strictly(bucket: Seq<Incoming>, order: Seq<usize>)
    requires
        no_two_level(bucket),
        lists_once(order, 0, bucket.len() as int),
        in_order(sort_views(bucket), order),
    ensures
        strictly_sorted(permuted(bucket, order)),
{
    let list = permuted(bucket, order);
    let views = sort_views(bucket);
    assert forall|i: int, j: int| 0 <= i < j < list.len() implies {
        &&& view_order(sort_view(#[trigger] list[i]), sort_view(#[trigger] list[j]))
            == Placement::Before
        &&& view_order(sort_view(list[j]), sort_view(list[i])) == Placement::After
    } by {
        assert(order.contains(order[i]) && order.contains(order[j]));
        assert(order[i] != order[j]);
        assert(may_precede(views, order[i], order[j]));
        assert(list[i] == bucket[order[i] as int]);
        assert(list[j] == bucket[order[j] as int]);
    }
}

/// Sorting does not depend on the order of arrival: the same entries, of which no two are
/// level, sort into the same order.
pub proof fn law_sorting_forgets_arrival(
    bucket_a: Seq<Incoming>,
    bucket_b: Seq<Incoming>,
    sorted_a: Seq<Entry>,
    sorted_b: Seq<Entry>,
)
    requires
        bucket_a.to_multiset() == bucket_b.to_multiset(),
        no_two_level(bucket_a),
        no_two_level(bucket_b),
        sorted_from(bucket_a, sorted_a),
        sorted_from(bucket_b, sorted_b),
    ensures
        sorted_a == sorted_b,
{
    let order_a = choose|order: Seq<usize>|
        {
            &&& lists_once(order, 0, bucket_a.len() as int)
            &&& in_order(sort_views(bucket_a), order)
            &&& sorted_a == #[trigger] arranged(bucket_a, order)
        };
    let order_b = choose|order: Seq<usize>|
        {
            &&& lists_once(order, 0, bucket_b.len() as int)
            &&& in_order(sort_views(bucket_b), order)
            &&& sorted_b == #[trigger] arranged(bucket_b, order)
        };
    let (list_a, list_b) = (permuted(bucket_a, order_a), permuted(bucket_b, order_b));
    lemma_permuted_multiset(bucket_a, order_a);
    lemma_permuted_multiset(bucket_b, order_b);
    lemma_sorted_strictly(bucket_a, order_a);
    lemma_sorted_strictly(bucket_b, order_b);
    lemma_one_strict_order(list_a, list_b);
    assert(sorted_a.len() == list_a.len() && sorted_b.len() == list_b.len());
    assert forall|i: int| 0 <= i < sorted_a.len() implies sorted_a[i] == sorted_b[i] by {
        assert(sorted_a[i] == list_a[i].inner);
        assert(sorted_b[i] == list_b[i].inner);
    }
    assert(sorted_a =~= sorted_b);
}

/// The entries of a kind are the same if all entries are.
proof fn lemma_of_type_multiset(entries: Seq<Incoming>, obj_type: ObjectType)
    ensures
        of_type(entries, obj_type).to_multiset() == entries.to_multiset().filter(
            |entry: Incoming| entry.inner.obj_type == obj_type,
        ),
    decreases entries.len(),
{
    broadcast use vstd::seq_lib::group_to_multiset_ensures;
    broadcast use vstd::multiset::group_multiset_axioms;

    reveal(Seq::filter);
    let pred = |entry: Incoming| entry.inner.obj_type == obj_type;
    if entries.len() == 0 {
        assert(of_type(entries, obj_type) =~= Seq::<Incoming>::empty());
        assert(entries =~= Seq::<Incoming>::empty());
        assert(entries.to_multiset() =~= Multiset::<Incoming>::empty());
        assert(of_type(entries, obj_type).to_multiset() =~= entries.to_multiset().filter(pred));
    } else {
        let front = entries.drop_last();
        let last = entries.last();
        lemma_of_type_multiset(front, obj_type);
        assert(entries =~= front.push(last));
        assert(entries.to_multiset() =~= front.to_multiset().insert(last));
        if pred(last) {
            assert(of_type(entries, obj_type) =~= of_type(front, obj_type).push(last));
        } else {
            assert(of_type(entries, obj_type) =~= of_type(front, obj_type));
        }
        assert(of_type(entries, obj_type).to_multiset() =~= entries.to_multiset().filter(pred));
    }
}

/// Whether two lists of queries ask the same.
pub open spec fn same_queries(a: Seq<RateQuery>, b: Seq<RateQuery>) -> bool {
    &&& a.len() == b.len()
    &&& forall|i: int|
        0 <= i < a.len() ==> (#[trigger] a[i]).base@ == (#[trigger] b[i]).base@ && a[i].estimate
            == b[i].estimate
}

/// Whether the functions handed in, and the cheap test of similarity, answer alike when
/// they are asked alike.
pub open spec fn answers_alike<
    K,
    R: Fn(&Vec<RateQuery<'_>>, &[u8]) -> Vec<Option<K>>,
    O: Fn(&K, &K) -> RateOrder,
    D: Fn(&[u8], &[u8], bool) -> Vec<u8>,
>(rate: R, order: O, diff: D) -> bool {
    &&& forall|
        queries_a: &Vec<RateQuery<'_>>,
        data_a: &[u8],
        rates_a: Vec<Option<K>>,
        queries_b: &Vec<RateQuery<'_>>,
        data_b: &[u8],
        rates_b: Vec<Option<K>>,
    |
        (#[trigger] call_ensures(rate, (queries_a, data_a), rates_a)) && (
        #[trigger] call_ensures(rate, (queries_b, data_b), rates_b)) && same_queries(
            queries_a@,
            queries_b@,
        ) && data_a@ == data_b@ ==> rates_a@ == rates_b@
    &&& forall|a: &K, b: &K, order_a: RateOrder, order_b: RateOrder|
        #![trigger call_ensures(order, (a, b), order_a), call_ensures(order, (a, b), order_b)]
        call_ensures(order, (a, b), order_a) && call_ensures(order, (a, b), order_b) ==> order_a
            == order_b
    &&& forall|base: Seq<u8>, data: Seq<u8>, zstdelta: bool, delta_a: Seq<u8>, delta_b: Seq<u8>|
        (#[trigger] diffed(diff, base, data, zstdelta, delta_a)) && (
        #[trigger] diffed(diff, base, data, zstdelta, delta_b)) ==> delta_a == delta_b
    &&& forall|a: Seq<u8>, b: Seq<u8>|
        !(#[trigger] similar_said(a, b, true) && similar_said(a, b, false))
}

/// The places of candidates.
spec fn slots(candidates: Seq<Candidate>) -> Seq<usize> {
    Seq::new(candidates.len(), |i: int| candidates[i].slot)
}

/// Whether numbers ascend.
spec fn ascending(list: Seq<usize>) -> bool {
    forall|i: int, j: int| 0 <= i < j < list.len() ==> list[i] < list[j]
}

/// The same numbers ascend in one way only.
proof fn lemma_one_ascent(a: Seq<usize>, b: Seq<usize>)
    requires
        ascending(a),
        ascending(b),
        forall|x: usize| a.contains(x) <==> b.contains(x),
    ensures
        a == b,
    decreases a.len(),
{
    if a.len() == 0 {
        if b.len() > 0 {
            assert(b.contains(b[0]));
        }
        assert(a =~= b);
    } else {
        assert(a.contains(a.last()));
        let j = choose|j: int| 0 <= j < b.len() && b[j] == a.last();
        assert(b.contains(b.last()));
        let i = choose|i: int| 0 <= i < a.len() && a[i] == b.last();
        assert(a.last() == b.last());
        let (front_a, front_b) = (a.drop_last(), b.drop_last());
        assert forall|x: usize| front_a.contains(x) <==> front_b.contains(x) by {
            if front_a.contains(x) {
                let k = choose|k: int| 0 <= k < front_a.len() && front_a[k] == x;
                assert(a[k] == x && x < a.last());
                assert(a.contains(x));
                let m = choose|m: int| 0 <= m < b.len() && b[m] == x;
                assert(front_b[m] == x);
            }
            if front_b.contains(x) {
                let k = choose|k: int| 0 <= k < front_b.len() && front_b[k] == x;
                assert(b[k] == x && x < b.last());
                assert(b.contains(x));
                let m = choose|m: int| 0 <= m < a.len() && a[m] == x;
                assert(front_a[m] == x);
            }
        }
        lemma_one_ascent(front_a, front_b);
        assert(a =~= front_a.push(a.last()));
        assert(b =~= front_b.push(b.last()));
    }
}

/// A candidate of one list is one of the other.
proof fn lemma_candidate_in_both(
    log: Seq<Packed>,
    size: nat,
    entry: Entry,
    a: Seq<Candidate>,
    b: Seq<Candidate>,
    x: usize,
)
    requires
        forall|a: Seq<u8>, b: Seq<u8>|
            !(#[trigger] similar_said(a, b, true) && similar_said(a, b, false)),
        candidates_right(log, size, entry, a),
        candidates_right(log, size, entry, b),
        slots(a).contains(x),
    ensures
        slots(b).contains(x),
{
    let i = choose|i: int| 0 <= i < slots(a).len() && slots(a)[i] == x;
    assert(candidate_right(log, size, entry, a[i]));
    assert(!passed_over(log, size, entry, x as int));
    assert(offered(b, x as int));
    let j = choose|j: int| 0 <= j < b.len() && (#[trigger] b[j]).slot == x as int;
    assert(slots(b)[j] == x);
}

/// An entry has one list of candidates, if the cheap test answers alike.
proof fn lemma_one_candidate_list(
    log: Seq<Packed>,
    size: nat,
    entry: Entry,
    a: Seq<Candidate>,
    b: Seq<Candidate>,
)
    requires
        forall|a: Seq<u8>, b: Seq<u8>|
            !(#[trigger] similar_said(a, b, true) && similar_said(a, b, false)),
        candidates_right(log, size, entry, a),
        candidates_right(log, size, entry, b),
    ensures
        a == b,
{
    assert forall|x: usize| slots(a).contains(x) <==> slots(b).contains(x) by {
        if slots(a).contains(x) {
            lemma_candidate_in_both(log, size, entry, a, b, x);
        }
        if slots(b).contains(x) {
            lemma_candidate_in_both(log, size, entry, b, a, x);
        }
    }
    lemma_one_ascent(slots(a), slots(b));
    assert(slots(a).len() == a.len() && slots(b).len() == b.len());
    assert forall|i: int| 0 <= i < a.len() implies a[i] == b[i] by {
        assert(slots(a)[i] == slots(b)[i]);
        assert(candidate_right(log, size, entry, a[i]));
        assert(candidate_right(log, size, entry, b[i]));
    }
    assert(a =~= b);
}

/// The best candidate is one, if rates are compared alike.
proof fn lemma_one_best<K, O: Fn(&K, &K) -> RateOrder>(
    log: Seq<Packed>,
    size: nat,
    candidates: Seq<Candidate>,
    rates: Seq<Option<K>>,
    order: O,
    orders_a: Seq<RateOrder>,
    orders_b: Seq<RateOrder>,
    n: nat,
    all: nat,
)
    requires
        forall|a: &K, b: &K, order_a: RateOrder, order_b: RateOrder|
            #![trigger call_ensures(order, (a, b), order_a), call_ensures(order, (a, b), order_b)]
            call_ensures(order, (a, b), order_a) && call_ensures(order, (a, b), order_b)
                ==> order_a == order_b,
        n <= all,
        orders_of(log, size, candidates, rates, order, orders_a, all),
        orders_of(log, size, candidates, rates, order, orders_b, all),
    ensures
        best_of(log, size, candidates, rates, orders_a, n) == best_of(
            log,
            size,
            candidates,
            rates,
            orders_b,
            n,
        ),
    decreases n,
{
    if n > 0 {
        let k = (n - 1) as nat;
        lemma_one_best(log, size, candidates, rates, order, orders_a, orders_b, k, all);
        let before = best_of(log, size, candidates, rates, orders_a, k);
        if rates[n - 1] is Some && before is Some {
            let (rate, best) = (&(rates[n - 1]->0), &(rates[before->0]->0));
            assert(call_ensures(order, (rate, best), orders_a[n - 1]));
            assert(call_ensures(order, (rate, best), orders_b[n - 1]));
        }
    }
}

/// An entry gets one base, if all answers are alike.
proof fn lemma_one_base<
    K,
    R: Fn(&Vec<RateQuery<'_>>, &[u8]) -> Vec<Option<K>>,
    O: Fn(&K, &K) -> RateOrder,
    D: Fn(&[u8], &[u8], bool) -> Vec<u8>,
>(
    log: Seq<Packed>,
    size: nat,
    zstdelta: bool,
    entry: Entry,
    rate: R,
    order: O,
    diff: D,
    base_a: Option<(int, Seq<u8>)>,
    base_b: Option<(int, Seq<u8>)>,
)
    requires
        answers_alike(rate, order, diff),
        base_right(log, size, zstdelta, entry, rate, order, diff, base_a),
        base_right(log, size, zstdelta, entry, rate, order, diff, base_b),
    ensures
        base_a == base_b,
{
    let (candidates, rates_a, picked_a) = choose|
        candidates: Seq<Candidate>,
        rates: Seq<Option<K>>,
        picked: Option<usize>,
    |
        {
            &&& candidates_right(log, size, entry, candidates)
            &&& rated(log, size, entry, candidates, rate, rates)
            &&& #[trigger] picked_right(log, size, candidates, rates, order, picked)
            &&& match picked {
                None => base_a is None,
                Some(slot) => {
                    &&& base_a matches Some((b, delta))
                    &&& b == index_of(log, size, slot as int)
                    &&& diffed(diff, log[b].data, entry.data@, zstdelta, delta)
                },
            }
        };
    let (candidates_b, rates_b, picked_b) = choose|
        candidates: Seq<Candidate>,
        rates: Seq<Option<K>>,
        picked: Option<usize>,
    |
        {
            &&& candidates_right(log, size, entry, candidates)
            &&& rated(log, size, entry, candidates, rate, rates)
            &&& #[trigger] picked_right(log, size, candidates, rates, order, picked)
            &&& match picked {
                None => base_b is None,
                Some(slot) => {
                    &&& base_b matches Some((b, delta))
                    &&& b == index_of(log, size, slot as int)
                    &&& diffed(diff, log[b].data, entry.data@, zstdelta, delta)
                },
            }
        };
    lemma_one_candidate_list(log, size, entry, candidates, candidates_b);
    let (queries_a, data_a, answer_a) = choose|
        queries: &Vec<RateQuery<'_>>,
        data: &[u8],
        answer: Vec<Option<K>>,
    |
        {
            &&& queries_right(log, size, candidates, queries@)
            &&& data@ == entry.data@
            &&& answer@ == rates_a
            &&& #[trigger] call_ensures(rate, (queries, data), answer)
        };
    let (queries_b, data_b, answer_b) = choose|
        queries: &Vec<RateQuery<'_>>,
        data: &[u8],
        answer: Vec<Option<K>>,
    |
        {
            &&& queries_right(log, size, candidates, queries@)
            &&& data@ == entry.data@
            &&& answer@ == rates_b
            &&& #[trigger] call_ensures(rate, (queries, data), answer)
        };
    assert(same_queries(queries_a@, queries_b@));
    assert(rates_a == rates_b);
    let all = candidates.len();
    let orders_a = choose|orders: Seq<RateOrder>|
        {
            &&& #[trigger] orders_of(log, size, candidates, rates_a, order, orders, all)
            &&& match best_of(log, size, candidates, rates_a, orders, all) {
                Some(best) => picked_a == Some(candidates[best].slot),
                None => picked_a is None,
            }
        };
    let orders_b = choose|orders: Seq<RateOrder>|
        {
            &&& #[trigger] orders_of(log, size, candidates, rates_a, order, orders, all)
            &&& match best_of(log, size, candidates, rates_a, orders, all) {
                Some(best) => picked_b == Some(candidates[best].slot),
                None => picked_b is None,
            }
        };
    lemma_one_best(log, size, candidates, rates_a, order, orders_a, orders_b, all, all);
    assert(picked_a == picked_b);
}

/// A bucket is stored in one way, if all answers are alike.
proof fn lemma_one_log<
    K,
    R: Fn(&Vec<RateQuery<'_>>, &[u8]) -> Vec<Option<K>>,
    O: Fn(&K, &K) -> RateOrder,
    D: Fn(&[u8], &[u8], bool) -> Vec<u8>,
>(
    bucket: Seq<Entry>,
    log_a: Seq<Packed>,
    log_b: Seq<Packed>,
    size: nat,
    zstdelta: bool,
    rate: R,
    order: O,
    diff: D,
    n: int,
)
    requires
        answers_alike(rate, order, diff),
        log_follows(bucket, log_a, size, zstdelta, rate, order, diff),
        log_follows(bucket, log_b, size, zstdelta, rate, order, diff),
        0 <= n <= log_a.len(),
        n <= log_b.len(),
    ensures
        log_a.take(n) == log_b.take(n),
    decreases n,
{
    if n == 0 {
        assert(log_a.take(n) =~= log_b.take(n));
    } else {
        let i = n - 1;
        lemma_one_log(bucket, log_a, log_b, size, zstdelta, rate, order, diff, i);
        let log = log_a.take(i);
        assert(entry_follows(bucket, log_a, i, size, zstdelta, rate, order, diff));
        assert(entry_follows(bucket, log_b, i, size, zstdelta, rate, order, diff));
        let base_a = choose|base: Option<(int, Seq<u8>)>|
            {
                &&& #[trigger] base_right(
                    log,
                    size,
                    zstdelta,
                    bucket[i],
                    rate,
                    order,
                    diff,
                    base,
                )
                &&& log_a[i] == next_packed(log, zstdelta, bucket[i], base)
            };
        let base_b = choose|base: Option<(int, Seq<u8>)>|
            {
                &&& #[trigger] base_right(
                    log,
                    size,
                    zstdelta,
                    bucket[i],
                    rate,
                    order,
                    diff,
                    base,
                )
                &&& log_b[i] == next_packed(log, zstdelta, bucket[i], base)
            };
        lemma_one_base(
            log,
            size,
            zstdelta,
            bucket[i],
            rate,
            order,
            diff,
            base_a,
            base_b,
        );
        assert(log_a.take(n) =~= log.push(log_a[i]));
        assert(log_b.take(n) =~= log.push(log_b[i]));
    }
}

/// A bucket is encoded in one way, if all answers are alike: the objects and their hashes
/// are the same each time.
pub proof fn law_bucket_is_encoded_in_one_way<
    K,
    R: Fn(&Vec<RateQuery<'_>>, &[u8]) -> Vec<Option<K>>,
    O: Fn(&K, &K) -> RateOrder,
    D: Fn(&[u8], &[u8], bool) -> Vec<u8>,
>(
    bucket: Seq<Entry>,
    res_a: Seq<(Vec<u8>, IndexEntry)>,
    res_b: Seq<(Vec<u8>, IndexEntry)>,
    size: nat,
    zstdelta: bool,
    rate: R,
    order: O,
    diff: D,
)
    requires
        answers_alike(rate, order, diff),
        bucket_encoded(bucket, res_a, size, zstdelta, rate, order, diff),
        bucket_encoded(bucket, res_b, size, zstdelta, rate, order, diff),
    ensures
        bodies(res_a) == bodies(res_b),
        hashes(res_a) == hashes(res_b),
{
    let log_a = choose|log: Seq<Packed>|
        {
            &&& #[trigger] log_follows(bucket, log, size, zstdelta, rate, order, diff)
            &&& log.len() == bucket.len()
            &&& log_end(log) <= usize::MAX
            &&& holds_log(res_a, log)
        };
    let log_b = choose|log: Seq<Packed>|
        {
            &&& #[trigger] log_follows(bucket, log, size, zstdelta, rate, order, diff)
            &&& log.len() == bucket.len()
            &&& log_end(log) <= usize::MAX
            &&& holds_log(res_b, log)
        };
    let n = log_a.len() as int;
    lemma_one_log(bucket, log_a, log_b, size, zstdelta, rate, order, diff, n);
    assert(log_a.take(n) =~= log_a);
    assert(log_b.take(n) =~= log_b);
    assert forall|i: int| 0 <= i < n implies bodies(res_a)[i] == bodies(res_b)[i] && hashes(
        res_a,
    )[i] == hashes(res_b)[i] by {
        assert(res_a[i].0@ == log_a[i].bytes());
        assert(res_b[i].0@ == log_b[i].bytes());
    }
    assert(bodies(res_a) =~= bodies(res_b));
    assert(hashes(res_a) =~= hashes(res_b));
}

/// The buckets of a kind, of the same entries in any order of arrival, are encoded alike.
proof fn lemma_kind_forgets_arrival<
    K,
    R: Fn(&Vec<RateQuery<'_>>, &[u8]) -> Vec<Option<K>>,
    O: Fn(&K, &K) -> RateOrder,
    D: Fn(&[u8], &[u8], bool) -> Vec<u8>,
>(
    entries_a: Seq<Incoming>,
    entries_b: Seq<Incoming>,
    obj_type: ObjectType,
    res_a: Seq<(Vec<u8>, IndexEntry)>,
    res_b: Seq<(Vec<u8>, IndexEntry)>,
    size: nat,
    zstdelta: bool,
    rate: R,
    order: O,
    diff: D,
)
    requires
        answers_alike(rate, order, diff),
        entries_a.to_multiset() == entries_b.to_multiset(),
        no_two_level(of_type(entries_a, obj_type)),
        no_two_level(of_type(entries_b, obj_type)),
        bucket_done(of_type(entries_a, obj_type), res_a, size, zstdelta, rate, order, diff),
        bucket_done(of_type(entries_b, obj_type), res_b, size, zstdelta, rate, order, diff),
    ensures
        bodies(res_a) == bodies(res_b),
        hashes(res_a) == hashes(res_b),
{
    let (bucket_a, bucket_b) = (of_type(entries_a, obj_type), of_type(entries_b, obj_type));
    let sorted_a = choose|sorted: Seq<Entry>| #[trigger]
        sorted_from(bucket_a, sorted) && bucket_encoded(
            sorted,
            res_a,
            size,
            zstdelta,
            rate,
            order,
            diff,
        );
    let sorted_b = choose|sorted: Seq<Entry>| #[trigger]
        sorted_from(bucket_b, sorted) && bucket_encoded(
            sorted,
            res_b,
            size,
            zstdelta,
            rate,
            order,
            diff,
        );
    lemma_of_type_multiset(entries_a, obj_type);
    lemma_of_type_multiset(entries_b, obj_type);
    law_sorting_forgets_arrival(bucket_a, bucket_b, sorted_a, sorted_b);
    law_bucket_is_encoded_in_one_way(
        sorted_a,
        res_a,
        res_b,
        size,
        zstdelta,
        rate,
        order,
        diff,
    );
}

/// Whether no two entries of a kind are level.
pub open spec fn kinds_told_apart(entries: Seq<Incoming>) -> bool {
    &&& no_two_level(apart(entries).commits)
    &&& no_two_level(apart(entries).trees)
    &&& no_two_level(apart(entries).blobs)
    &&& no_two_level(apart(entries).tags)
}

/// All kinds of the same entries, in any order of arrival, are encoded alike.
proof fn lemma_kinds_forget_arrival<
    K,
    R: Fn(&Vec<RateQuery<'_>>, &[u8]) -> Vec<Option<K>>,
    O: Fn(&K, &K) -> RateOrder,
    D: Fn(&[u8], &[u8], bool) -> Vec<u8>,
>(
    entries_a: Seq<Incoming>,
    entries_b: Seq<Incoming>,
    res_a: Seq<(Vec<u8>, IndexEntry)>,
    res_b: Seq<(Vec<u8>, IndexEntry)>,
    size: nat,
    zstdelta: bool,
    rate: R,
    order: O,
    diff: D,
)
    requires
        answers_alike(rate, order, diff),
        entries_a.to_multiset() == entries_b.to_multiset(),
        kinds_told_apart(entries_a),
        kinds_told_apart(entries_b),
        all_done(apart(entries_a), res_a, size, zstdelta, rate, order, diff),
        all_done(apart(entries_b), res_b, size, zstdelta, rate, order, diff),
    ensures
        bodies(res_a) == bodies(res_b),
        hashes(res_a) == hashes(res_b),
{
    let (parts_a, parts_b) = (apart(entries_a), apart(entries_b));
    let (ca, ta, ba, ga) = choose|
        commits: Seq<(Vec<u8>, IndexEntry)>,
        trees: Seq<(Vec<u8>, IndexEntry)>,
        blobs: Seq<(Vec<u8>, IndexEntry)>,
        tags: Seq<(Vec<u8>, IndexEntry)>,
    |
        {
            &&& bucket_done(parts_a.commits, commits, size, zstdelta, rate, order, diff)
            &&& bucket_done(parts_a.trees, trees, size, zstdelta, rate, order, diff)
            &&& bucket_done(parts_a.blobs, blobs, size, zstdelta, rate, order, diff)
            &&& bucket_done(parts_a.tags, tags, size, zstdelta, rate, order, diff)
            &&& res_a == #[trigger] four_joined(commits, trees, blobs, tags)
        };
    let (cb, tb, bb, gb) = choose|
        commits: Seq<(Vec<u8>, IndexEntry)>,
        trees: Seq<(Vec<u8>, IndexEntry)>,
        blobs: Seq<(Vec<u8>, IndexEntry)>,
        tags: Seq<(Vec<u8>, IndexEntry)>,
    |
        {
            &&& bucket_done(parts_b.commits, commits, size, zstdelta, rate, order, diff)
            &&& bucket_done(parts_b.trees, trees, size, zstdelta, rate, order, diff)
            &&& bucket_done(parts_b.blobs, blobs, size, zstdelta, rate, order, diff)
            &&& bucket_done(parts_b.tags, tags, size, zstdelta, rate, order, diff)
            &&& res_b == #[trigger] four_joined(commits, trees, blobs, tags)
        };
    lemma_kind_forgets_arrival(
        entries_a, entries_b, ObjectType::Commit, ca, cb, size, zstdelta, rate, order, diff,
    );
    lemma_kind_forgets_arrival(
        entries_a, entries_b, ObjectType::Tree, ta, tb, size, zstdelta, rate, order, diff,
    );
    lemma_kind_forgets_arrival(
        entries_a, entries_b, ObjectType::Blob, ba, bb, size, zstdelta, rate, order, diff,
    );
    lemma_kind_forgets_arrival(
        entries_a, entries_b, ObjectType::Tag, ga, gb, size, zstdelta, rate, order, diff,
    );
    assert(bodies(res_a) =~= bodies(ca) + bodies(ta) + bodies(ba) + bodies(ga));
    assert(bodies(res_b) =~= bodies(cb) + bodies(tb) + bodies(bb) + bodies(gb));
    assert(hashes(res_a) =~= hashes(ca) + hashes(ta) + hashes(ba) + hashes(ga));
    assert(hashes(res_b) =~= hashes(cb) + hashes(tb) + hashes(bb) + hashes(gb));
}

/// A bucket that was encoded once does not grow too long the next time.
proof fn lemma_bucket_does_not_overflow<
    K,
    R: Fn(&Vec<RateQuery<'_>>, &[u8]) -> Vec<Option<K>>,
    O: Fn(&K, &K) -> RateOrder,
    D: Fn(&[u8], &[u8], bool) -> Vec<u8>,
>(
    bucket: Seq<Entry>,
    res: Seq<(Vec<u8>, IndexEntry)>,
    size: nat,
    zstdelta: bool,
    rate: R,
    order: O,
    diff: D,
)
    requires
        answers_alike(rate, order, diff),
        bucket_encoded(bucket, res, size, zstdelta, rate, order, diff),
    ensures
        !bucket_overflows(bucket, size, zstdelta, rate, order, diff),
{
    if bucket_overflows(bucket, size, zstdelta, rate, order, diff) {
        let log = choose|log: Seq<Packed>|
            {
                &&& #[trigger] log_follows(bucket, log, size, zstdelta, rate, order, diff)
                &&& log.len() == bucket.len()
                &&& log_end(log) <= usize::MAX
                &&& holds_log(res, log)
            };
        let longer = choose|log: Seq<Packed>|
            {
                &&& #[trigger] log_follows(bucket, log, size, zstdelta, rate, order, diff)
                &&& log_end(log) > usize::MAX
            };
        let n = longer.len() as int;
        lemma_one_log(bucket, log, longer, size, zstdelta, rate, order, diff, n);
        assert(longer.take(n) =~= longer);
        let all = log.len() as int;
        let chunks = log_bodies(log);
        lemma_starts(log, size, zstdelta, n);
        lemma_starts(log, size, zstdelta, all);
        lemma_joined_front(chunks, n);
        assert(log.take(all) =~= log);
        assert(chunks.take(all) =~= chunks);
    }
}

/// A kind that was encoded once does not grow too long in another order of arrival.
proof fn lemma_kind_does_not_overflow<
    K,
    R: Fn(&Vec<RateQuery<'_>>, &[u8]) -> Vec<Option<K>>,
    O: Fn(&K, &K) -> RateOrder,
    D: Fn(&[u8], &[u8], bool) -> Vec<u8>,
>(
    entries_a: Seq<Incoming>,
    entries_b: Seq<Incoming>,
    obj_type: ObjectType,
    res: Seq<(Vec<u8>, IndexEntry)>,
    size: nat,
    zstdelta: bool,
    rate: R,
    order: O,
    diff: D,
)
    requires
        answers_alike(rate, order, diff),
        entries_a.to_multiset() == entries_b.to_multiset(),
        no_two_level(of_type(entries_a, obj_type)),
        no_two_level(of_type(entries_b, obj_type)),
        bucket_done(of_type(entries_a, obj_type), res, size, zstdelta, rate, order, diff),
    ensures
        !bucket_too_long(of_type(entries_b, obj_type), size, zstdelta, rate, order, diff),
{
    let (bucket_a, bucket_b) = (of_type(entries_a, obj_type), of_type(entries_b, obj_type));
    if bucket_too_long(bucket_b, size, zstdelta, rate, order, diff) {
        let sorted_a = choose|sorted: Seq<Entry>| #[trigger]
            sorted_from(bucket_a, sorted) && bucket_encoded(
                sorted,
                res,
                size,
                zstdelta,
                rate,
                order,
                diff,
            );
        let sorted_b = choose|sorted: Seq<Entry>| #[trigger]
            sorted_from(bucket_b, sorted) && bucket_overflows(
                sorted,
                size,
                zstdelta,
                rate,
                order,
                diff,
            );
        lemma_of_type_multiset(entries_a, obj_type);
        lemma_of_type_multiset(entries_b, obj_type);
        law_sorting_forgets_arrival(bucket_a, bucket_b, sorted_a, sorted_b);
        lemma_bucket_does_not_overflow(sorted_a, res, size, zstdelta, rate, order, diff);
    }
}

/// A pack that was encoded once does not grow too long in another order of arrival.
proof fn lemma_pack_does_not_overflow<
    K,
    R: Fn(&Vec<RateQuery<'_>>, &[u8]) -> Vec<Option<K>>,
    O: Fn(&K, &K) -> RateOrder,
    D: Fn(&[u8], &[u8], bool) -> Vec<u8>,
>(
    entries_a: Seq<Incoming>,
    entries_b: Seq<Incoming>,
    res: Seq<(Vec<u8>, IndexEntry)>,
    offset: nat,
    size: nat,
    zstdelta: bool,
    rate: R,
    order: O,
    diff: D,
)
    requires
        answers_alike(rate, order, diff),
        entries_a.to_multiset() == entries_b.to_multiset(),
        kinds_told_apart(entries_a),
        kinds_told_apart(entries_b),
        all_done(apart(entries_a), res, size, zstdelta, rate, order, diff),
        offset + joined(bodies(res)).len() <= usize::MAX,
    ensures
        !pack_too_long(apart(entries_b), offset, size, zstdelta, rate, order, diff),
{
    let parts = apart(entries_a);
    let (c, t, b, g) = choose|
        commits: Seq<(Vec<u8>, IndexEntry)>,
        trees: Seq<(Vec<u8>, IndexEntry)>,
        blobs: Seq<(Vec<u8>, IndexEntry)>,
        tags: Seq<(Vec<u8>, IndexEntry)>,
    |
        {
            &&& bucket_done(parts.commits, commits, size, zstdelta, rate, order, diff)
            &&& bucket_done(parts.trees, trees, size, zstdelta, rate, order, diff)
            &&& bucket_done(parts.blobs, blobs, size, zstdelta, rate, order, diff)
            &&& bucket_done(parts.tags, tags, size, zstdelta, rate, order, diff)
            &&& res == #[trigger] four_joined(commits, trees, blobs, tags)
        };
    lemma_kind_does_not_overflow(
        entries_a, entries_b, ObjectType::Commit, c, size, zstdelta, rate, order, diff,
    );
    lemma_kind_does_not_overflow(
        entries_a, entries_b, ObjectType::Tree, t, size, zstdelta, rate, order, diff,
    );
    lemma_kind_does_not_overflow(
        entries_a, entries_b, ObjectType::Blob, b, size, zstdelta, rate, order, diff,
    );
    lemma_kind_does_not_overflow(
        entries_a, entries_b, ObjectType::Tag, g, size, zstdelta, rate, order, diff,
    );
    assert forall|other: Seq<(Vec<u8>, IndexEntry)>| #[trigger]
        all_done(apart(entries_b), other, size, zstdelta, rate, order, diff) implies offset
        + joined(bodies(other)).len() <= usize::MAX by {
        lemma_kinds_forget_arrival(
            entries_a,
            entries_b,
            res,
            other,
            size,
            zstdelta,
            rate,
            order,
            diff,
        );
    }
}

/// A pack that is encoded through delta windows does not depend on the order of arrival.
/// If an encoding of entries, of which no two of a kind are level, reaches the end, then
/// so does one of the same entries in any other order, with the same chunks, the same hash
/// and the same index, provided that the functions handed in and the cheap test of
/// similarity answer alike when they are asked alike. Of the cheap test this holds within
/// one process, which draws its keys once.
pub proof fn law_window_pack_forgets_arrival<
    K,
    R: Fn(&Vec<RateQuery<'_>>, &[u8]) -> Vec<Option<K>>,
    O: Fn(&K, &K) -> RateOrder,
    D: Fn(&[u8], &[u8], bool) -> Vec<u8>,
>(
    before: EncoderView,
    after_a: EncoderView,
    after_b: EncoderView,
    entries_a: Seq<Incoming>,
    entries_b: Seq<Incoming>,
    zstdelta: bool,
    rate: R,
    order: O,
    diff: D,
    out_before: Seq<Seq<u8>>,
    out_a: Seq<Seq<u8>>,
    out_b: Seq<Seq<u8>>,
    done_b: Result<bool, GitError>,
)
    requires
        answers_alike(rate, order, diff),
        entries_a.to_multiset() == entries_b.to_multiset(),
        kinds_told_apart(entries_a),
        kinds_told_apart(entries_b),
        window_outcome(
            before,
            after_a,
            entries_a,
            zstdelta,
            rate,
            order,
            diff,
            out_before,
            out_a,
            Ok(true),
        ),
        window_outcome(
            before,
            after_b,
            entries_b,
            zstdelta,
            rate,
            order,
            diff,
            out_before,
            out_b,
            done_b,
        ),
    ensures
        done_b == Ok::<bool, GitError>(true),
        out_a == out_b,
        after_a == after_b,
{
    let begun = with_header(before);
    let out_begun = out_before + sent(before.pack_open, seq![header_bytes(before.object_number)]);
    let size = window_in_use(before.window_size, zstdelta);
    let res_a = choose|res: Seq<(Vec<u8>, IndexEntry)>|
        {
            &&& #[trigger] all_done(apart(entries_a), res, size, zstdelta, rate, order, diff)
            &&& pack_finished(begun, after_a, hashes(res), bodies(res), out_begun, out_a)
        };
    lemma_pack_does_not_overflow(
        entries_a,
        entries_b,
        res_a,
        before.offset,
        size,
        zstdelta,
        rate,
        order,
        diff,
    );
    assert forall|k: int| 0 <= k < entries_b.len() implies windowed(
        (#[trigger] entries_b[k]).inner.obj_type,
    ) by {
        lemma_same_entries(entries_a, entries_b, k);
        let j = choose|j: int| 0 <= j < entries_a.len() && entries_a[j] == entries_b[k];
        assert(windowed(entries_a[j].inner.obj_type));
    }
    assert(done_b == Ok::<bool, GitError>(true));
    let res_b = choose|res: Seq<(Vec<u8>, IndexEntry)>|
        {
            &&& #[trigger] all_done(apart(entries_b), res, size, zstdelta, rate, order, diff)
            &&& pack_finished(begun, after_b, hashes(res), bodies(res), out_begun, out_b)
        };
    lemma_kinds_forget_arrival(
        entries_a,
        entries_b,
        res_a,
        res_b,
        size,
        zstdelta,
        rate,
        order,
        diff,
    );
    lemma_hash_of_view(after_a.final_hash->0, after_b.final_hash->0);
}

/// An entry of one list is one of the other, if both hold the same.
proof fn lemma_same_entries(a: Seq<Incoming>, b: Seq<Incoming>, k: int)
    requires
        a.to_multiset() == b.to_multiset(),
        0 <= k < b.len(),
    ensures
        a.contains(b[k]),
{
    broadcast use vstd::seq_lib::group_to_multiset_ensures;

    assert(b.contains(b[k]));
    assert(b.to_multiset().count(b[k]) > 0);
}

/// Entries without a path, of pairwise different lengths, are told apart.
pub proof fn law_lengths_tell_apart(bucket: Seq<Incoming>)
    requires
        forall|i: int| 0 <= i < bucket.len() ==> (#[trigger] bucket[i]).meta.file_path is None,
        forall|i: int, j: int|
            0 <= i < bucket.len() && 0 <= j < bucket.len() && i != j ==> (
            #[trigger] bucket[i]).inner.data@.len() != (#[trigger] bucket[j]).inner.data@.len(),
    ensures
        no_two_level(bucket),
{
}

} // verus!
